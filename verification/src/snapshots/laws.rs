//! What holds of every comparison of two scans.

use vstd::multiset::Multiset;
use vstd::prelude::*;

use crate::order;
use crate::snapshots;
use crate::snapshots::Change;
use crate::snapshots::DiffResult;
use crate::snapshots::Difference;
use crate::sums;
use crate::tree::leaves::SnapEntry;
use crate::tree::listing;

verus! {

/// `g(0) + ... + g(n - 1)`.
spec fn sum_to(n: nat, g: spec_fn(int) -> int) -> int
    decreases n,
{
    if n == 0 {
        0
    } else {
        sum_to((n - 1) as nat, g) + g(n - 1)
    }
}

proof fn lemma_sum_changed(n: nat, g: spec_fn(int) -> int, h: spec_fn(int) -> int, at: int)
    requires
        forall|i: int| 0 <= i < n && i != at ==> #[trigger] g(i) == h(i),
    ensures
        0 <= at < n ==> sum_to(n, h) == sum_to(n, g) + h(at) - g(at),
        !(0 <= at < n) ==> sum_to(n, h) == sum_to(n, g),
    decreases n,
{
    if n > 0 {
        lemma_sum_changed((n - 1) as nat, g, h, at);
        if n - 1 != at {
            assert(g(n - 1) == h(n - 1));
        }
    }
}

proof fn lemma_sum_plus(n: nat, f: spec_fn(int) -> int, g: spec_fn(int) -> int, h: spec_fn(int) -> int)
    requires
        forall|i: int| 0 <= i < n ==> #[trigger] h(i) == f(i) + g(i),
    ensures
        sum_to(n, h) == sum_to(n, f) + sum_to(n, g),
    decreases n,
{
    if n > 0 {
        lemma_sum_plus((n - 1) as nat, f, g, h);
        assert(h(n - 1) == f(n - 1) + g(n - 1));
    }
}

proof fn lemma_sum_at_most(n: nat, g: spec_fn(int) -> int, h: spec_fn(int) -> int)
    requires
        forall|i: int| 0 <= i < n ==> 0 <= #[trigger] g(i) <= h(i),
    ensures
        0 <= sum_to(n, g) <= sum_to(n, h),
        forall|i: int| 0 <= i < n ==> #[trigger] g(i) <= sum_to(n, h),
    decreases n,
{
    if n > 0 {
        lemma_sum_at_most((n - 1) as nat, g, h);
        assert(0 <= g(n - 1) <= h(n - 1));
    }
}

/// The size of the `i`-th entry if it is the last one at its path, else zero.
pub open spec fn live_size(v: Seq<SnapEntry>, i: int) -> int {
    if snapshots::last_at(v, v[i].path@) == Some(i) {
        v[i].size as int
    } else {
        0
    }
}

spec fn live_sizes(v: Seq<SnapEntry>) -> spec_fn(int) -> int {
    |i: int| live_size(v, i)
}

/// The bytes of a list, each path counted once.
pub closed spec fn live_bytes(v: Seq<SnapEntry>) -> int {
    sum_to(v.len(), live_sizes(v))
}

pub proof fn lemma_last_at(v: Seq<SnapEntry>, p: Seq<char>)
    ensures
        match snapshots::last_at(v, p) {
            Some(j) => 0 <= j < v.len() && v[j].path@ == p && forall|k: int| j < k < v.len() ==> (#[trigger] v[k]).path@ != p,
            None => forall|k: int| 0 <= k < v.len() ==> (#[trigger] v[k]).path@ != p,
        },
    decreases v.len(),
{
    if v.len() > 0 {
        lemma_last_at(v.drop_last(), p);
        assert forall|k: int| 0 <= k < v.len() - 1 implies v.drop_last()[k] == #[trigger] v[k] by {}
    }
}

/// The bytes of a list in which no path occurs twice are all its bytes.
pub proof fn law_distinct_paths_all_count(v: Seq<SnapEntry>)
    requires
        forall|i: int, j: int| 0 <= i < j < v.len() ==> (#[trigger] v[i]).path@ != (#[trigger] v[j]).path@,
    ensures
        live_bytes(v) == sums::total(v, snapshots::entry_size()),
{
    lemma_live_prefix(v, v.len());
    assert(v.take(v.len() as int) =~= v);
}

proof fn lemma_live_prefix(v: Seq<SnapEntry>, n: nat)
    requires
        n <= v.len(),
        forall|i: int, j: int| 0 <= i < j < v.len() ==> (#[trigger] v[i]).path@ != (#[trigger] v[j]).path@,
    ensures
        sum_to(n, live_sizes(v)) == sums::total(v.take(n as int), snapshots::entry_size()),
    decreases n,
{
    if n > 0 {
        lemma_live_prefix(v, (n - 1) as nat);
        assert(v.take(n as int) =~= v.take(n - 1).push(v[n - 1]));
        sums::lemma_total_push(v.take(n - 1), v[n - 1], snapshots::entry_size());
        lemma_last_at(v, v[n - 1].path@);
        assert(v[n - 1].path@ == v[n - 1].path@);
        let j = snapshots::last_at(v, v[n - 1].path@);
        assert(j == Some(n - 1));
    }
}

proof fn lemma_live_at_most_all(v: Seq<SnapEntry>, n: nat)
    requires
        n <= v.len(),
    ensures
        0 <= sum_to(n, live_sizes(v)) <= sums::total(v.take(n as int), snapshots::entry_size()),
    decreases n,
{
    if n > 0 {
        lemma_live_at_most_all(v, (n - 1) as nat);
        assert(v.take(n as int) =~= v.take(n - 1).push(v[n - 1]));
        sums::lemma_total_push(v.take(n - 1), v[n - 1], snapshots::entry_size());
    }
}

/// The size, in the old list, of the path of the `i`-th new entry.
spec fn matched_size(old: Seq<SnapEntry>, new: Seq<SnapEntry>, i: int) -> int {
    if snapshots::last_at(new, new[i].path@) == Some(i) {
        match snapshots::last_at(old, new[i].path@) {
            Some(j) => old[j].size as int,
            None => 0,
        }
    } else {
        0
    }
}

spec fn matched_sizes(old: Seq<SnapEntry>, new: Seq<SnapEntry>) -> spec_fn(int) -> int {
    |i: int| matched_size(old, new, i)
}

/// The size of the `j`-th old entry if one of the first `n` new entries
/// replaces it.
spec fn replaced_size(old: Seq<SnapEntry>, new: Seq<SnapEntry>, n: int, j: int) -> int {
    match snapshots::last_at(new, old[j].path@) {
        Some(i) => if i < n {
            live_size(old, j)
        } else {
            0
        },
        None => 0,
    }
}

spec fn replaced_sizes(old: Seq<SnapEntry>, new: Seq<SnapEntry>, n: int) -> spec_fn(int) -> int {
    |j: int| replaced_size(old, new, n, j)
}

/// The size of the `j`-th old entry if its path is gone.
spec fn gone_size(old: Seq<SnapEntry>, new: Seq<SnapEntry>, j: int) -> int {
    if snapshots::last_at(new, old[j].path@) is None {
        live_size(old, j)
    } else {
        0
    }
}

spec fn gone_sizes(old: Seq<SnapEntry>, new: Seq<SnapEntry>) -> spec_fn(int) -> int {
    |j: int| gone_size(old, new, j)
}

/// Summed up by new entries or by old ones, what was replaced weighs the same.
proof fn lemma_matched_is_replaced(old: Seq<SnapEntry>, new: Seq<SnapEntry>, n: nat)
    requires
        n <= new.len(),
    ensures
        sum_to(n, matched_sizes(old, new)) == sum_to(old.len(), replaced_sizes(old, new, n as int)),
    decreases n,
{
    let h = replaced_sizes(old, new, n as int);
    if n == 0 {
        assert forall|j: int| 0 <= j < old.len() implies #[trigger] h(j) == 0 by {
            lemma_last_at(new, old[j].path@);
        }
        lemma_sum_zero(old.len(), h);
    } else {
        let g = replaced_sizes(old, new, n - 1);
        let i = n - 1;
        lemma_matched_is_replaced(old, new, i as nat);
        let p = new[i].path@;
        let at = match snapshots::last_at(old, p) {
            Some(j) => j,
            None => -1,
        };
        lemma_last_at(old, p);
        assert forall|j: int| 0 <= j < old.len() && j != at implies #[trigger] g(j) == h(j) by {
            lemma_last_at(new, old[j].path@);
            lemma_last_at(old, old[j].path@);
        }
        lemma_sum_changed(old.len(), g, h, at);
        if 0 <= at < old.len() {
            lemma_last_at(new, p);
        }
    }
}

proof fn lemma_sum_zero(n: nat, g: spec_fn(int) -> int)
    requires
        forall|i: int| 0 <= i < n ==> #[trigger] g(i) == 0,
    ensures
        sum_to(n, g) == 0,
    decreases n,
{
    if n > 0 {
        lemma_sum_zero((n - 1) as nat, g);
        assert(g(n - 1) == 0);
    }
}

/// Every live old entry is replaced or gone.
proof fn lemma_old_splits(old: Seq<SnapEntry>, new: Seq<SnapEntry>)
    ensures
        live_bytes(old) == sum_to(new.len(), matched_sizes(old, new)) + sum_to(old.len(), gone_sizes(old, new)),
{
    let r = replaced_sizes(old, new, new.len() as int);
    let g = gone_sizes(old, new);
    let l = live_sizes(old);
    lemma_matched_is_replaced(old, new, new.len());
    assert forall|j: int| 0 <= j < old.len() implies #[trigger] l(j) == r(j) + g(j) by {
        lemma_last_at(new, old[j].path@);
    }
    lemma_sum_plus(old.len(), r, g, l);
}

/// What the changes of the first new entries add up to.
proof fn lemma_new_sums(old: Seq<SnapEntry>, new: Seq<SnapEntry>, n: nat)
    requires
        n <= new.len(),
    ensures
        ({
            let some = snapshots::changes_of_new(old, new, n);
            let gains = sums::total(some, snapshots::gain());
            let losses = sums::total(some, snapshots::loss());
            &&& gains - losses == sum_to(n, live_sizes(new)) - sum_to(n, matched_sizes(old, new))
            &&& 0 <= gains <= sum_to(n, live_sizes(new))
            &&& 0 <= losses <= sum_to(n, matched_sizes(old, new))
        }),
    decreases n,
{
    if n > 0 {
        let m = (n - 1) as nat;
        lemma_new_sums(old, new, m);
        let some = snapshots::changes_of_new(old, new, m);
        match snapshots::change_of_new(old, new, m as int) {
            Some(d) => {
                sums::lemma_total_push(some, d, snapshots::gain());
                sums::lemma_total_push(some, d, snapshots::loss());
            },
            None => {},
        }
    }
}

/// What the changes of the first old entries add up to.
proof fn lemma_old_sums(old: Seq<SnapEntry>, new: Seq<SnapEntry>, n: nat)
    requires
        n <= old.len(),
    ensures
        ({
            let some = snapshots::changes_of_old(old, new, n);
            &&& sums::total(some, snapshots::gain()) == 0
            &&& sums::total(some, snapshots::loss()) == sum_to(n, gone_sizes(old, new))
        }),
    decreases n,
{
    if n > 0 {
        let m = (n - 1) as nat;
        lemma_old_sums(old, new, m);
        let some = snapshots::changes_of_old(old, new, m);
        match snapshots::change_of_old(old, new, m as int) {
            Some(d) => {
                sums::lemma_total_push(some, d, snapshots::gain());
                sums::lemma_total_push(some, d, snapshots::loss());
            },
            None => {},
        }
    }
}

/// What was added less what was removed is the difference of the bytes of the
/// two scans, and neither is more than one scan holds.
pub proof fn law_net_is_the_difference_in_bytes(old: Seq<SnapEntry>, new: Seq<SnapEntry>)
    ensures
        ({
            let all = snapshots::differences(old, new);
            let gains = sums::total(all, snapshots::gain());
            let losses = sums::total(all, snapshots::loss());
            &&& gains - losses == live_bytes(new) - live_bytes(old)
            &&& 0 <= gains <= live_bytes(new)
            &&& 0 <= losses <= live_bytes(old)
        }),
{
    let a = snapshots::changes_of_new(old, new, new.len());
    let b = snapshots::changes_of_old(old, new, old.len());
    lemma_new_sums(old, new, new.len());
    lemma_old_sums(old, new, old.len());
    lemma_old_splits(old, new);
    sums::lemma_total_concat(a, b, snapshots::gain());
    sums::lemma_total_concat(a, b, snapshots::loss());
    let g = gone_sizes(old, new);
    assert(forall|j: int| 0 <= j < old.len() ==> 0 <= #[trigger] g(j) <= g(j));
    lemma_sum_at_most(old.len(), g, g);
}

/// No change is larger than the two scans together allow.
proof fn lemma_extents(old: Seq<SnapEntry>, new: Seq<SnapEntry>, most: int)
    requires
        live_bytes(old) <= most,
        live_bytes(new) <= most,
    ensures
        forall|k: int|
            0 <= k < snapshots::differences(old, new).len() ==> (#[trigger] snapshots::differences(old, new)[k]).extent() <= most,
{
    let all = snapshots::differences(old, new);
    law_net_is_the_difference_in_bytes(old, new);
    assert forall|k: int| 0 <= k < all.len() implies (#[trigger] all[k]).extent() <= most by {
        assert forall|i: int| 0 <= i < all.len() implies snapshots::gain()(#[trigger] all[i]) >= 0 by {}
        assert forall|i: int| 0 <= i < all.len() implies snapshots::loss()(#[trigger] all[i]) >= 0 by {}
        sums::lemma_total_member(all, k, snapshots::gain());
        sums::lemma_total_member(all, k, snapshots::loss());
        assert(snapshots::gain()(all[k]) == all[k].gain());
        assert(snapshots::loss()(all[k]) == all[k].loss());
    }
}

/// Any two scans of no more bytes than a signed number holds can be compared.
pub proof fn law_scans_are_measurable(old: Seq<SnapEntry>, new: Seq<SnapEntry>)
    requires
        sums::total(old, snapshots::entry_size()) <= i64::MAX,
        sums::total(new, snapshots::entry_size()) <= i64::MAX,
    ensures
        snapshots::measurable(old, new),
{
    lemma_live_at_most_all(old, old.len());
    lemma_live_at_most_all(new, new.len());
    assert(old.take(old.len() as int) =~= old);
    assert(new.take(new.len() as int) =~= new);
    law_net_is_the_difference_in_bytes(old, new);
    lemma_extents(old, new, i64::MAX as int);
}

/// A scan compared with itself shows no change, whatever the limit.
pub proof fn law_nothing_changes_on_its_own(v: Seq<SnapEntry>, limit: usize, r: DiffResult)
    requires
        snapshots::compares(v, v, limit, r),
    ensures
        r.changes@.len() == 0,
        r.added_bytes == 0,
        r.removed_bytes == 0,
        r.net == 0,
        r.total_changes == 0,
{
    lemma_same_new(v, v.len());
    lemma_same_old(v, v.len());
    let all = snapshots::differences(v, v);
    assert(all.len() == 0);
    let ranked = choose|ranked: Seq<Change>|
        {
            &&& #[trigger] ranked.map_values(snapshots::told_by()).to_multiset() == all.to_multiset()
            &&& vstd::relations::sorted_by(ranked, snapshots::larger_first())
            &&& r.changes@ == ranked.take(listing::cut(ranked.len(), limit))
        };
    order::lemma_same_items(ranked.map_values(snapshots::told_by()), all);
}

/// What changed at `path`, seen from the two lists.
pub open spec fn change_at(old: Seq<SnapEntry>, new: Seq<SnapEntry>, path: Seq<char>) -> Option<Difference> {
    match (snapshots::last_at(old, path), snapshots::last_at(new, path)) {
        (Some(i), Some(j)) => if old[i].size != new[j].size {
            Some(
                Difference {
                    path,
                    kind: new[j].kind,
                    old: old[i].size,
                    new: new[j].size,
                    added: false,
                    removed: false,
                },
            )
        } else {
            None
        },
        (None, Some(j)) => Some(
            Difference { path, kind: new[j].kind, old: 0, new: new[j].size, added: true, removed: false },
        ),
        (Some(i), None) => Some(
            Difference { path, kind: old[i].kind, old: old[i].size, new: 0, added: false, removed: true },
        ),
        (None, None) => None,
    }
}

/// No two differences are at the same path.
pub open spec fn one_per_path(v: Seq<Difference>) -> bool {
    forall|a: int, b: int| 0 <= a < b < v.len() ==> (#[trigger] v[a]).path != (#[trigger] v[b]).path
}

/// The first new entries give one difference for each of their paths.
proof fn lemma_new_changes(old: Seq<SnapEntry>, new: Seq<SnapEntry>, n: nat)
    requires
        n <= new.len(),
    ensures
        ({
            let v = snapshots::changes_of_new(old, new, n);
            &&& v.len() <= n
            &&& one_per_path(v)
            &&& forall|k: int|
                0 <= k < v.len() ==> change_at(old, new, (#[trigger] v[k]).path) == Some(v[k]) && snapshots::last_at(
                    new,
                    v[k].path,
                ) is Some && snapshots::last_at(new, v[k].path)->0 < n
            &&& forall|p: Seq<char>|
                (snapshots::last_at(new, p) matches Some(j) && j < n) && #[trigger] change_at(old, new, p) is Some ==> v.contains(
                    change_at(old, new, p)->0,
                )
        }),
    decreases n,
{
    let v = snapshots::changes_of_new(old, new, n);
    if n > 0 {
        let m = (n - 1) as nat;
        lemma_new_changes(old, new, m);
        let before = snapshots::changes_of_new(old, new, m);
        let next = snapshots::change_of_new(old, new, m as int);
        assert forall|p: Seq<char>|
            (snapshots::last_at(new, p) matches Some(j) && j < n) && #[trigger] change_at(old, new, p) is Some implies v.contains(
            change_at(old, new, p)->0,
        ) by {
            lemma_last_at(new, p);
            if snapshots::last_at(new, p)->0 == m {
                assert(next == change_at(old, new, p));
                assert(v[before.len() as int] == next->0);
            } else {
                let k = before.index_of(change_at(old, new, p)->0);
                assert(v[k] == before[k]);
            }
        }
        assert forall|k: int| 0 <= k < v.len() implies change_at(old, new, (#[trigger] v[k]).path) == Some(v[k])
            && snapshots::last_at(new, v[k].path) is Some && snapshots::last_at(new, v[k].path)->0 < n by {
            if k < before.len() {
                assert(v[k] == before[k]);
            }
        }
        assert forall|a: int, b: int| 0 <= a < b < v.len() implies (#[trigger] v[a]).path != (#[trigger] v[b]).path by {
            assert(v[a] == before[a]);
            if b < before.len() {
                assert(v[b] == before[b]);
            } else {
                assert(snapshots::last_at(new, before[a].path)->0 < m);
            }
        }
    } else {
        assert forall|p: Seq<char>|
            (snapshots::last_at(new, p) matches Some(j) && j < n) && #[trigger] change_at(old, new, p) is Some implies v.contains(
            change_at(old, new, p)->0,
        ) by {
            lemma_last_at(new, p);
        }
    }
}

/// The first old entries give one difference for each of their paths that is
/// gone.
proof fn lemma_old_changes(old: Seq<SnapEntry>, new: Seq<SnapEntry>, n: nat)
    requires
        n <= old.len(),
    ensures
        ({
            let v = snapshots::changes_of_old(old, new, n);
            &&& v.len() <= n
            &&& one_per_path(v)
            &&& forall|k: int|
                0 <= k < v.len() ==> change_at(old, new, (#[trigger] v[k]).path) == Some(v[k]) && snapshots::last_at(
                    new,
                    v[k].path,
                ) is None && snapshots::last_at(old, v[k].path) is Some && snapshots::last_at(old, v[k].path)->0 < n
            &&& forall|p: Seq<char>|
                (snapshots::last_at(old, p) matches Some(j) && j < n) && snapshots::last_at(new, p) is None ==> v.contains(
                    (#[trigger] change_at(old, new, p))->0,
                )
        }),
    decreases n,
{
    let v = snapshots::changes_of_old(old, new, n);
    if n > 0 {
        let m = (n - 1) as nat;
        lemma_old_changes(old, new, m);
        let before = snapshots::changes_of_old(old, new, m);
        let next = snapshots::change_of_old(old, new, m as int);
        assert forall|p: Seq<char>|
            (snapshots::last_at(old, p) matches Some(j) && j < n) && snapshots::last_at(new, p) is None implies v.contains(
            (#[trigger] change_at(old, new, p))->0,
        ) by {
            lemma_last_at(old, p);
            if snapshots::last_at(old, p)->0 == m {
                assert(next == change_at(old, new, p));
                assert(v[before.len() as int] == next->0);
            } else {
                let k = before.index_of(change_at(old, new, p)->0);
                assert(v[k] == before[k]);
            }
        }
        assert forall|k: int| 0 <= k < v.len() implies change_at(old, new, (#[trigger] v[k]).path) == Some(v[k])
            && snapshots::last_at(new, v[k].path) is None && snapshots::last_at(old, v[k].path) is Some && snapshots::last_at(
            old,
            v[k].path,
        )->0 < n by {
            if k < before.len() {
                assert(v[k] == before[k]);
            }
        }
        assert forall|a: int, b: int| 0 <= a < b < v.len() implies (#[trigger] v[a]).path != (#[trigger] v[b]).path by {
            assert(v[a] == before[a]);
            if b < before.len() {
                assert(v[b] == before[b]);
            } else {
                assert(snapshots::last_at(old, before[a].path)->0 < m);
            }
        }
    } else {
        assert forall|p: Seq<char>|
            (snapshots::last_at(old, p) matches Some(j) && j < n) && snapshots::last_at(new, p) is None implies v.contains(
            (#[trigger] change_at(old, new, p))->0,
        ) by {
            lemma_last_at(old, p);
        }
    }
}

/// There is one difference for each path at which something changed, and no
/// other.
pub proof fn law_one_difference_per_path(old: Seq<SnapEntry>, new: Seq<SnapEntry>)
    ensures
        snapshots::differences(old, new).len() <= old.len() + new.len(),
        one_per_path(snapshots::differences(old, new)),
        forall|d: Difference| #[trigger]
            snapshots::differences(old, new).contains(d) <==> change_at(old, new, d.path) == Some(d),
{
    let a = snapshots::changes_of_new(old, new, new.len());
    let b = snapshots::changes_of_old(old, new, old.len());
    let all = snapshots::differences(old, new);
    lemma_new_changes(old, new, new.len());
    lemma_old_changes(old, new, old.len());
    assert forall|x: int, y: int| 0 <= x < y < all.len() implies (#[trigger] all[x]).path != (#[trigger] all[y]).path by {
        if y < a.len() {
            assert(all[x] == a[x] && all[y] == a[y]);
        } else if x >= a.len() {
            assert(all[x] == b[x - a.len()] && all[y] == b[y - a.len()]);
        } else {
            assert(all[x] == a[x] && all[y] == b[y - a.len()]);
        }
    }
    assert forall|d: Difference| #[trigger] all.contains(d) <==> change_at(old, new, d.path) == Some(d) by {
        if all.contains(d) {
            let k = all.index_of(d);
            if k < a.len() {
                assert(a[k] == d);
            } else {
                assert(b[k - a.len()] == d);
            }
        }
        if change_at(old, new, d.path) == Some(d) {
            lemma_last_at(new, d.path);
            lemma_last_at(old, d.path);
            if snapshots::last_at(new, d.path) is Some {
                let k = a.index_of(d);
                assert(all[k] == d);
            } else {
                let k = b.index_of(d);
                assert(all[a.len() + k] == d);
            }
        }
    }
}

/// What a difference says of the sizes at a path, whatever stands there.
pub struct Step {
    pub path: Seq<char>,
    pub old: u64,
    pub new: u64,
    pub added: bool,
    pub removed: bool,
}

pub open spec fn step(d: Difference) -> Step {
    Step { path: d.path, old: d.old, new: d.new, added: d.added, removed: d.removed }
}

/// The step the other way.
pub open spec fn back(d: Difference) -> Step {
    Step { path: d.path, old: d.new, new: d.old, added: d.removed, removed: d.added }
}

pub open spec fn step_of() -> spec_fn(Change) -> Step {
    |c: Change| step(snapshots::told(c))
}

pub open spec fn back_of() -> spec_fn(Change) -> Step {
    |c: Change| back(snapshots::told(c))
}

spec fn steps(v: Seq<Difference>) -> Seq<Step> {
    v.map_values(|d: Difference| step(d))
}

spec fn steps_back(v: Seq<Difference>) -> Seq<Step> {
    v.map_values(|d: Difference| back(d))
}

/// Two lists without repetitions that hold the same items are the same list in
/// another order.
proof fn lemma_same_multiset<T>(a: Seq<T>, b: Seq<T>)
    requires
        a.no_duplicates(),
        b.no_duplicates(),
        forall|x: T| #[trigger] a.contains(x) == b.contains(x),
    ensures
        a.to_multiset() == b.to_multiset(),
{
    broadcast use vstd::seq_lib::group_to_multiset_ensures;
    a.lemma_multiset_has_no_duplicates();
    b.lemma_multiset_has_no_duplicates();
    assert forall|x: T| a.to_multiset().count(x) == b.to_multiset().count(x) by {
        assert(a.contains(x) == b.contains(x));
        assert(a.contains(x) <==> a.to_multiset().count(x) > 0);
        assert(b.contains(x) <==> b.to_multiset().count(x) > 0);
    }
    assert(a.to_multiset() =~= b.to_multiset());
}

/// What changed the other way round is what changed, step by step backwards.
proof fn lemma_swapped(old: Seq<SnapEntry>, new: Seq<SnapEntry>)
    ensures
        steps(snapshots::differences(new, old)).to_multiset() == steps_back(snapshots::differences(old, new)).to_multiset(),
{
    let f = snapshots::differences(old, new);
    let g = snapshots::differences(new, old);
    let a = steps(g);
    let b = steps_back(f);
    law_one_difference_per_path(old, new);
    law_one_difference_per_path(new, old);
    assert forall|x: int, y: int| 0 <= x < a.len() && 0 <= y < a.len() && x != y implies a[x] != a[y] by {
        if x < y {
            assert(g[x].path != g[y].path);
        } else {
            assert(g[y].path != g[x].path);
        }
    }
    assert forall|x: int, y: int| 0 <= x < b.len() && 0 <= y < b.len() && x != y implies b[x] != b[y] by {
        if x < y {
            assert(f[x].path != f[y].path);
        } else {
            assert(f[y].path != f[x].path);
        }
    }
    assert forall|s: Step| #[trigger] a.contains(s) == b.contains(s) by {
        if a.contains(s) {
            let k = a.index_of(s);
            assert(g.contains(g[k]));
            let d = change_at(old, new, s.path)->0;
            assert(f.contains(d));
            let j = f.index_of(d);
            assert(b[j] == s);
        }
        if b.contains(s) {
            let k = b.index_of(s);
            assert(f.contains(f[k]));
            let d = change_at(new, old, s.path)->0;
            assert(g.contains(d));
            let j = g.index_of(d);
            assert(a[j] == s);
        }
    }
    lemma_same_multiset(a, b);
}

/// Compared the other way round, everything is reversed: what was added was
/// removed, every change is there with its sizes and marks swapped, and there
/// are as many. The limit is large enough to show them all.
pub proof fn law_swapping_reverses(old: Seq<SnapEntry>, new: Seq<SnapEntry>, limit: usize, f: DiffResult, g: DiffResult)
    requires
        snapshots::compares(old, new, limit, f),
        snapshots::compares(new, old, limit, g),
        snapshots::differences(old, new).len() <= limit,
    ensures
        g.added_bytes == f.removed_bytes,
        g.removed_bytes == f.added_bytes,
        g.net == -f.net,
        g.total_changes == f.total_changes,
        g.changes@.len() == g.total_changes,
        f.changes@.len() == f.total_changes,
        g.changes@.map_values(step_of()).to_multiset() == f.changes@.map_values(back_of()).to_multiset(),
        forall|k: int| 0 <= k < f.changes@.len() ==> has_reverse(g.changes@, #[trigger] f.changes@[k]),
{
    let a = snapshots::differences(old, new);
    let b = snapshots::differences(new, old);
    let say = snapshots::told_by();
    let first = snapshots::larger_first();
    let x = steps(b);
    let y = steps_back(a);
    lemma_swapped(old, new);
    order::lemma_same_items(x, y);
    let up = |s: Step| if s.new > s.old { s.new - s.old } else { 0int };
    let down = |s: Step| if s.old > s.new { s.old - s.new } else { 0int };
    sums::lemma_total_same(b, x, snapshots::gain(), up);
    sums::lemma_total_same(b, x, snapshots::loss(), down);
    sums::lemma_total_same(a, y, snapshots::loss(), up);
    sums::lemma_total_same(a, y, snapshots::gain(), down);
    sums::lemma_total_permuted(x, y, up);
    sums::lemma_total_permuted(x, y, down);
    let p = choose|p: Seq<Change>|
        {
            &&& #[trigger] p.map_values(say).to_multiset() == a.to_multiset()
            &&& vstd::relations::sorted_by(p, first)
            &&& f.changes@ == p.take(listing::cut(p.len(), limit))
        };
    let q = choose|q: Seq<Change>|
        {
            &&& #[trigger] q.map_values(say).to_multiset() == b.to_multiset()
            &&& vstd::relations::sorted_by(q, first)
            &&& g.changes@ == q.take(listing::cut(q.len(), limit))
        };
    order::lemma_same_items(p.map_values(say), a);
    order::lemma_same_items(q.map_values(say), b);
    assert(f.changes@ =~= p);
    assert(g.changes@ =~= q);
    order::lemma_mapped_same_items(p.map_values(say), a, |d: Difference| back(d));
    order::lemma_mapped_same_items(q.map_values(say), b, |d: Difference| step(d));
    assert(p.map_values(say).map_values(|d: Difference| back(d)) =~= p.map_values(back_of()));
    assert(q.map_values(say).map_values(|d: Difference| step(d)) =~= q.map_values(step_of()));
    let there = g.changes@.map_values(step_of());
    let here = f.changes@.map_values(back_of());
    order::lemma_same_items(there, here);
    assert forall|k: int| 0 <= k < f.changes@.len() implies has_reverse(g.changes@, #[trigger] f.changes@[k]) by {
        assert(there.contains(here[k]));
        let j = there.index_of(here[k]);
        assert(there[j] == step(snapshots::told(g.changes@[j])));
        assert(reverses(f.changes@[k], g.changes@[j]));
    }
}

/// `d` is the change `c` the other way round.
pub open spec fn reverses(c: Change, d: Change) -> bool {
    &&& d.path@ == c.path@
    &&& d.old == c.new
    &&& d.new == c.old
    &&& d.delta == -c.delta
    &&& d.added == c.removed
    &&& d.removed == c.added
}

pub open spec fn has_reverse(v: Seq<Change>, c: Change) -> bool {
    exists|j: int| 0 <= j < v.len() && reverses(c, #[trigger] v[j])
}

/// What a list of changes says, in any order.
pub open spec fn all_told(v: Seq<Change>) -> Multiset<Difference> {
    v.map_values(snapshots::told_by()).to_multiset()
}

/// A limit only trims the list of changes: what is shown is ordered by extent,
/// is part of the full list, and leaves out nothing larger than what it shows;
/// the sums are those of the full comparison.
pub proof fn law_limit_only_trims(old: Seq<SnapEntry>, new: Seq<SnapEntry>, limit: usize, full: DiffResult, r: DiffResult)
    requires
        snapshots::compares(old, new, usize::MAX, full),
        snapshots::compares(old, new, limit, r),
    ensures
        full.changes@.len() == full.total_changes,
        r.changes@.len() == listing::cut(full.total_changes as nat, limit),
        forall|i: int, j: int|
            0 <= i < j < r.changes@.len() ==> snapshots::told(#[trigger] r.changes@[i]).extent() >= snapshots::told(
                #[trigger] r.changes@[j],
            ).extent(),
        all_told(r.changes@).subset_of(all_told(full.changes@)),
        forall|d: Difference, k: int|
            all_told(full.changes@).count(d) > all_told(r.changes@).count(d) && 0 <= k < r.changes@.len() ==> snapshots::told(
                #[trigger] r.changes@[k],
            ).extent() >= #[trigger] d.extent(),
        r.added_bytes == full.added_bytes,
        r.removed_bytes == full.removed_bytes,
        r.net == full.net,
        r.total_changes == full.total_changes,
{
    broadcast use vstd::seq_lib::group_to_multiset_ensures;
    let all = snapshots::differences(old, new);
    let say = snapshots::told_by();
    let first = snapshots::larger_first();
    let f = choose|f: Seq<Change>|
        {
            &&& #[trigger] f.map_values(say).to_multiset() == all.to_multiset()
            &&& vstd::relations::sorted_by(f, first)
            &&& full.changes@ == f.take(listing::cut(f.len(), usize::MAX))
        };
    let g = choose|g: Seq<Change>|
        {
            &&& #[trigger] g.map_values(say).to_multiset() == all.to_multiset()
            &&& vstd::relations::sorted_by(g, first)
            &&& r.changes@ == g.take(listing::cut(g.len(), limit))
        };
    order::lemma_same_items(f.map_values(say), all);
    order::lemma_same_items(g.map_values(say), all);
    assert(full.changes@ =~= f);
    let n = listing::cut(g.len(), limit);
    let head = g.take(n).map_values(say);
    let tail = g.skip(n).map_values(say);
    assert(g.map_values(say) =~= head + tail);
    vstd::seq_lib::lemma_multiset_commutative(head, tail);
    assert(all_told(full.changes@) == head.to_multiset().add(tail.to_multiset()));
    assert forall|i: int, j: int| 0 <= i < j < r.changes@.len() implies snapshots::told(#[trigger] r.changes@[i]).extent()
        >= snapshots::told(#[trigger] r.changes@[j]).extent() by {
        assert(first(g[i], g[j]));
    }
    assert forall|d: Difference, k: int|
        all_told(full.changes@).count(d) > all_told(r.changes@).count(d) && 0 <= k < r.changes@.len() implies snapshots::told(
        #[trigger] r.changes@[k],
    ).extent() >= #[trigger] d.extent() by {
        assert(tail.to_multiset().count(d) > 0);
        assert(tail.contains(d));
        let j = tail.index_of(d);
        assert(tail[j] == snapshots::told(g[n + j]));
        assert(first(g[k], g[n + j]));
    }
}

proof fn lemma_same_new(v: Seq<SnapEntry>, n: nat)
    requires
        n <= v.len(),
    ensures
        snapshots::changes_of_new(v, v, n).len() == 0,
    decreases n,
{
    if n > 0 {
        lemma_same_new(v, (n - 1) as nat);
        lemma_last_at(v, v[n - 1].path@);
    }
}

proof fn lemma_same_old(v: Seq<SnapEntry>, n: nat)
    requires
        n <= v.len(),
    ensures
        snapshots::changes_of_old(v, v, n).len() == 0,
    decreases n,
{
    if n > 0 {
        lemma_same_old(v, (n - 1) as nat);
        lemma_last_at(v, v[n - 1].path@);
    }
}

} // verus!
