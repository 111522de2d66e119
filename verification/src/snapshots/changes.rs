//! What a comparison of two scans shows, in terms of their entries.

use vstd::prelude::*;

use crate::order;
use crate::snapshots;
use crate::snapshots::laws;
use crate::snapshots::Change;
use crate::snapshots::DataDir;
use crate::snapshots::DiffResult;
use crate::snapshots::Difference;
use crate::snapshots::SnapshotMeta;
use crate::snapshots::System;
use crate::sums;
use crate::tree::leaves;
use crate::tree::leaves::SnapEntry;
use crate::tree::listing;
use crate::tree::paths;
use crate::tree::visit;
use crate::tree::Tree;

verus! {

/// Snapshots are listed with the newest first.
pub proof fn law_newer_snapshots_come_first(r: Seq<SnapshotMeta>, i: int, j: int)
    requires
        vstd::relations::sorted_by(r, snapshots::newest_first()),
        0 <= i < j < r.len(),
    ensures
        r[i].created >= r[j].created,
{
    assert(snapshots::newest_first()(r[i], r[j]));
}

/// The bytes of a snapshot are the sizes of its entries.
pub proof fn law_bytes_are_the_sum_of_sizes(v: Seq<SnapEntry>)
    ensures
        sums::total(v, snapshots::entry_size()) == sums::total(v, |e: SnapEntry| e.size as int),
{
    sums::lemma_total_same(v, v, snapshots::entry_size(), |e: SnapEntry| e.size as int);
}

/// A name that a snapshot may have is made of ASCII letters, digits, spaces,
/// dashes, underscores and dots, and so holds no separator of paths.
pub proof fn law_valid_names_hold_no_separators(s: Seq<char>, i: int)
    requires
        snapshots::is_valid_name(s),
        0 <= i < s.len(),
    ensures
        s.len() <= 64,
        s[i] != '/',
        s[i] != '\\',
        s[i] != ':',
        (s[i] as u32) >= 0x20,
        (s[i] as u32) < 0x7f,
        s.len() == 1 ==> s[0] != '.',
        s.len() == 2 ==> s[0] != '.' || s[1] != '.',
{
    assert(snapshots::name_char(s[i]));
    if s.len() == 1 && s[0] == '.' {
        assert(s =~= seq!['.']);
    }
    if s.len() == 2 && s[0] == '.' && s[1] == '.' {
        assert(s =~= seq!['.', '.']);
    }
}

/// Any one to sixty-four of these characters make a name, but for one or two
/// dots alone.
pub proof fn law_plain_names_are_valid(s: Seq<char>)
    requires
        1 <= s.len() <= 64,
        s.len() == 1 ==> s[0] != '.',
        s.len() == 2 ==> s[0] != '.' || s[1] != '.',
        forall|i: int|
            0 <= i < s.len() ==> {
                ||| '0' <= #[trigger] s[i] <= '9'
                ||| 'A' <= s[i] <= 'Z'
                ||| 'a' <= s[i] <= 'z'
                ||| s[i] == ' '
                ||| s[i] == '-'
                ||| s[i] == '_'
                ||| s[i] == '.'
            },
    ensures
        snapshots::is_valid_name(s),
{
    assert forall|i: int| 0 <= i < s.len() implies snapshots::name_char(#[trigger] s[i]) by {}
}

/// The entry at `j` is the one that counts at its path: no later one is there.
pub open spec fn counts(v: Seq<SnapEntry>, p: Seq<char>, j: int) -> bool {
    &&& 0 <= j < v.len()
    &&& v[j].path@ == p
    &&& forall|k: int| j < k < v.len() ==> (#[trigger] v[k]).path@ != p
}

/// No entry is at this path.
pub open spec fn absent(v: Seq<SnapEntry>, p: Seq<char>) -> bool {
    forall|k: int| 0 <= k < v.len() ==> (#[trigger] v[k]).path@ != p
}

/// A path has this size in a list.
pub open spec fn has_size(v: Seq<SnapEntry>, p: Seq<char>, size: u64) -> bool {
    exists|j: int| #[trigger] counts(v, p, j) && v[j].size == size
}

proof fn lemma_at(v: Seq<SnapEntry>, p: Seq<char>)
    ensures
        match snapshots::last_at(v, p) {
            Some(j) => counts(v, p, j) && !absent(v, p) && has_size(v, p, v[j].size) && forall|size: u64|
                has_size(v, p, size) ==> size == v[j].size,
            None => absent(v, p) && forall|size: u64| !has_size(v, p, size),
        },
{
    laws::lemma_last_at(v, p);
    match snapshots::last_at(v, p) {
        Some(j) => {
            assert(counts(v, p, j));
            assert forall|size: u64| has_size(v, p, size) implies size == v[j].size by {
                let i = choose|i: int| #[trigger] counts(v, p, i) && v[i].size == size;
                if i < j {
                    assert(v[j].path@ != p);
                } else if j < i {
                    assert(v[i].path@ != p);
                }
            }
        },
        None => {},
    }
}

proof fn lemma_shown(old: Seq<SnapEntry>, new: Seq<SnapEntry>, limit: usize, r: DiffResult) -> (ranked: Seq<Change>)
    requires
        snapshots::compares(old, new, limit, r),
    ensures
        ({
            let all = snapshots::differences(old, new);
            &&& ranked.map_values(snapshots::told_by()).to_multiset() == all.to_multiset()
            &&& vstd::relations::sorted_by(ranked, snapshots::larger_first())
            &&& r.changes@ == ranked.take(listing::cut(ranked.len(), limit))
            &&& ranked.len() == all.len()
            &&& forall|k: int| 0 <= k < ranked.len() ==> all.contains(snapshots::told(#[trigger] ranked[k]))
        }),
{
    let all = snapshots::differences(old, new);
    let say = snapshots::told_by();
    let ranked = choose|ranked: Seq<Change>|
        {
            &&& #[trigger] ranked.map_values(snapshots::told_by()).to_multiset() == all.to_multiset()
            &&& vstd::relations::sorted_by(ranked, snapshots::larger_first())
            &&& r.changes@ == ranked.take(listing::cut(ranked.len(), limit))
        };
    order::lemma_same_items(all, ranked.map_values(say));
    assert forall|k: int| 0 <= k < ranked.len() implies all.contains(snapshots::told(#[trigger] ranked[k])) by {
        assert(ranked.map_values(say)[k] == snapshots::told(ranked[k]));
    }
    ranked
}

/// A change says of its path what the two scans say: a path that is only in the
/// new one was added, one that is only in the old one was removed, and any other
/// has two sizes that differ. What is not there has no bytes.
pub proof fn law_changes_show_both_sizes(old: Seq<SnapEntry>, new: Seq<SnapEntry>, limit: usize, r: DiffResult, k: int)
    requires
        snapshots::compares(old, new, limit, r),
        0 <= k < r.changes@.len(),
    ensures
        ({
            let c = r.changes@[k];
            &&& c.added == absent(old, c.path@)
            &&& c.removed == absent(new, c.path@)
            &&& !(c.added && c.removed)
            &&& c.added ==> c.old == 0
            &&& !c.added ==> has_size(old, c.path@, c.old)
            &&& c.removed ==> c.new == 0
            &&& !c.removed ==> has_size(new, c.path@, c.new)
            &&& !c.added && !c.removed ==> c.old != c.new
            &&& c.delta == c.new - c.old
        }),
{
    let ranked = lemma_shown(old, new, limit, r);
    laws::law_one_difference_per_path(old, new);
    let c = r.changes@[k];
    assert(ranked[k] == c);
    let d = snapshots::told(c);
    assert(laws::change_at(old, new, d.path) == Some(d));
    lemma_at(old, c.path@);
    lemma_at(new, c.path@);
}

/// No path is shown twice.
pub proof fn law_changes_are_at_different_paths(
    old: Seq<SnapEntry>,
    new: Seq<SnapEntry>,
    limit: usize,
    r: DiffResult,
    i: int,
    j: int,
)
    requires
        snapshots::compares(old, new, limit, r),
        0 <= i < j < r.changes@.len(),
    ensures
        r.changes@[i].path@ != r.changes@[j].path@,
{
    let all = snapshots::differences(old, new);
    let ranked = lemma_shown(old, new, limit, r);
    let said = ranked.map_values(snapshots::told_by());
    laws::law_one_difference_per_path(old, new);
    assert(all.no_duplicates()) by {
        assert forall|a: int, b: int| 0 <= a < b < all.len() implies all[a] != all[b] by {
            assert(all[a].path != all[b].path);
        }
    }
    all.lemma_multiset_has_no_duplicates();
    said.lemma_multiset_has_no_duplicates_conv();
    assert(said[i] == snapshots::told(r.changes@[i]));
    assert(said[j] == snapshots::told(r.changes@[j]));
    assert(laws::change_at(old, new, said[i].path) == Some(said[i]));
    assert(laws::change_at(old, new, said[j].path) == Some(said[j]));
}

/// The largest changes come first, whichever way they go.
pub proof fn law_larger_changes_come_first(
    old: Seq<SnapEntry>,
    new: Seq<SnapEntry>,
    limit: usize,
    r: DiffResult,
    i: int,
    j: int,
)
    requires
        snapshots::compares(old, new, limit, r),
        0 <= i < j < r.changes@.len(),
    ensures
        ({
            let a = r.changes@[i].delta;
            let b = r.changes@[j].delta;
            &&& a >= b || a <= -b
            &&& a >= -b || a <= b
        }),
{
    let ranked = lemma_shown(old, new, limit, r);
    assert(ranked[i] == r.changes@[i] && ranked[j] == r.changes@[j]);
    assert(snapshots::larger_first()(ranked[i], ranked[j]));
    assert(r.changes@[i].delta == snapshots::told(r.changes@[i]).delta());
    assert(r.changes@[j].delta == snapshots::told(r.changes@[j]).delta());
}

/// The size of a path that may be missing.
pub open spec fn sized(v: Seq<SnapEntry>, p: Seq<char>, size: u64) -> bool {
    (absent(v, p) && size == 0) || has_size(v, p, size)
}

/// A path that is in one scan only, or has another size in the other, is shown,
/// unless `limit` other changes are, none of which is smaller.
pub proof fn law_no_larger_change_is_missed(
    old: Seq<SnapEntry>,
    new: Seq<SnapEntry>,
    limit: usize,
    r: DiffResult,
    p: Seq<char>,
    before: u64,
    after: u64,
)
    requires
        snapshots::compares(old, new, limit, r),
        sized(old, p, before),
        sized(new, p, after),
        absent(old, p) != absent(new, p) || before != after,
    ensures
        r.changes@.len() <= limit,
        (exists|k: int| 0 <= k < r.changes@.len() && (#[trigger] r.changes@[k]).path@ == p) || r.changes@.len() == limit,
        (exists|k: int| 0 <= k < r.changes@.len() && (#[trigger] r.changes@[k]).path@ == p) || forall|k: int|
            0 <= k < r.changes@.len() ==> {
                let d = (#[trigger] r.changes@[k]).delta;
                &&& d >= after - before || d <= before - after
                &&& d >= before - after || d <= after - before
            },
{
    let all = snapshots::differences(old, new);
    let ranked = lemma_shown(old, new, limit, r);
    let said = ranked.map_values(snapshots::told_by());
    laws::law_one_difference_per_path(old, new);
    lemma_at(old, p);
    lemma_at(new, p);
    let d = laws::change_at(old, new, p)->0;
    assert(laws::change_at(old, new, p) == Some(d));
    assert(d.path == p && d.old == before && d.new == after);
    assert(all.contains(d));
    order::lemma_same_items(all, said);
    let pos = said.index_of(d);
    assert(said[pos] == snapshots::told(ranked[pos]));
    if pos < r.changes@.len() {
        assert(r.changes@[pos] == ranked[pos]);
        assert(r.changes@[pos].path@ == p);
    } else {
        assert forall|k: int| 0 <= k < r.changes@.len() implies {
            let x = (#[trigger] r.changes@[k]).delta;
            &&& x >= after - before || x <= before - after
            &&& x >= before - after || x <= after - before
        } by {
            assert(r.changes@[k] == ranked[k]);
            assert(snapshots::larger_first()(ranked[k], ranked[pos]));
            assert(r.changes@[k].delta == snapshots::told(r.changes@[k]).delta());
        }
    }
}

/// With all changes shown, the bytes that were added are the deltas above zero,
/// and those that were removed the ones below.
pub proof fn law_bytes_are_the_sum_of_deltas(old: Seq<SnapEntry>, new: Seq<SnapEntry>, limit: usize, r: DiffResult)
    requires
        snapshots::compares(old, new, limit, r),
        r.total_changes <= limit,
    ensures
        r.changes@.len() == r.total_changes,
        r.added_bytes == sums::total(r.changes@, |c: Change| if c.delta > 0 { c.delta as int } else { 0 }),
        r.removed_bytes == sums::total(r.changes@, |c: Change| if c.delta < 0 { -c.delta as int } else { 0 }),
        r.net == sums::total(r.changes@, |c: Change| c.delta as int),
{
    let all = snapshots::differences(old, new);
    let ranked = lemma_shown(old, new, limit, r);
    let said = ranked.map_values(snapshots::told_by());
    let up = |c: Change| if c.delta > 0 { c.delta as int } else { 0 };
    let down = |c: Change| if c.delta < 0 { -c.delta as int } else { 0 };
    let both = |c: Change| c.delta as int;
    assert(r.changes@ =~= ranked);
    sums::lemma_total_permuted(said, all, snapshots::gain());
    sums::lemma_total_permuted(said, all, snapshots::loss());
    assert forall|k: int| 0 <= k < ranked.len() implies up(#[trigger] ranked[k]) == snapshots::gain()(said[k]) && down(ranked[k])
        == snapshots::loss()(said[k]) by {
        assert(r.changes@[k].delta == snapshots::told(r.changes@[k]).delta());
        assert(said[k] == snapshots::told(ranked[k]));
    }
    sums::lemma_total_same(ranked, said, up, snapshots::gain());
    sums::lemma_total_same(ranked, said, down, snapshots::loss());
    lemma_net(ranked, up, down, both);
}

proof fn lemma_net(
    v: Seq<Change>,
    up: spec_fn(Change) -> int,
    down: spec_fn(Change) -> int,
    both: spec_fn(Change) -> int,
)
    requires
        forall|c: Change| #[trigger] both(c) == up(c) - down(c),
    ensures
        sums::total(v, both) == sums::total(v, up) - sums::total(v, down),
    decreases v.len(),
{
    if v.len() > 0 {
        lemma_net(v.drop_last(), up, down, both);
        assert(both(v.last()) == up(v.last()) - down(v.last()));
    }
}

/// The entry tells of a node what a snapshot keeps: path, kind, time, and the
/// bytes and the bytes on disk of the node itself.
pub open spec fn keeps(t: Tree, e: SnapEntry, id: u32) -> bool {
    let n = t.nodes@[id as int];
    &&& e.path@ == paths::path(t.nodes@, id as int)
    &&& e.kind == n.kind && e.mtime == n.mtime
    &&& e.size == n.self_size && e.alloc == n.self_alloc
}

pub open spec fn is_kept(t: Tree, r: Seq<SnapEntry>, id: u32) -> bool {
    exists|k: int| 0 <= k < r.len() && keeps(t, #[trigger] r[k], id)
}

pub open spec fn keeps_one(t: Tree, e: SnapEntry, ids: Seq<u32>) -> bool {
    exists|k: int| 0 <= k < ids.len() && keeps(t, e, #[trigger] ids[k])
}

/// A snapshot keeps everything under the root that is not a directory, and
/// nothing else, in the byte order of the paths.
pub proof fn law_snapshots_keep_all_leaves(t: Tree, r: Seq<SnapEntry>, v: Seq<SnapEntry>)
    requires
        vstd::relations::sorted_by(r, leaves::path_order()),
        v.to_multiset() == r.to_multiset(),
        leaves::records_all(t, v, visit::leaves(t.nodes@, 0)),
    ensures
        ({
            let ids = visit::leaves(t.nodes@, 0);
            &&& r.len() == ids.len()
            &&& forall|k: int| 0 <= k < ids.len() ==> is_kept(t, r, #[trigger] ids[k])
            &&& forall|k: int| 0 <= k < r.len() ==> keeps_one(t, #[trigger] r[k], ids)
            &&& forall|i: int, j: int|
                0 <= i < j < r.len() ==> order::lex_leq(
                    vstd::utf8::encode_utf8((#[trigger] r[i]).path@),
                    vstd::utf8::encode_utf8((#[trigger] r[j]).path@),
                )
        }),
{
    let ids = visit::leaves(t.nodes@, 0);
    order::lemma_same_items(v, r);
    assert forall|k: int| 0 <= k < ids.len() implies is_kept(t, r, #[trigger] ids[k]) by {
        assert(leaves::records(t, v[k], ids[k]));
        assert(r.contains(v[k]));
        let j = r.index_of(v[k]);
        assert(keeps(t, r[j], ids[k]));
    }
    assert forall|k: int| 0 <= k < r.len() implies keeps_one(t, #[trigger] r[k], ids) by {
        assert(v.contains(r[k]));
        let j = v.index_of(r[k]);
        assert(leaves::records(t, v[j], ids[j]));
        assert(keeps(t, r[k], ids[j]));
    }
    assert forall|i: int, j: int| 0 <= i < j < r.len() implies order::lex_leq(
        vstd::utf8::encode_utf8((#[trigger] r[i]).path@),
        vstd::utf8::encode_utf8((#[trigger] r[j]).path@),
    ) by {
        assert(leaves::path_order()(r[i], r[j]));
    }
}

/// Each system has its own place for data; what it does not look at makes no
/// difference, and a temporary place is the last resort.
pub proof fn law_systems_have_their_places<P>(local: Option<P>, home: Option<P>, xdg: Option<P>, x: P)
    ensures
        snapshots::data_place(System::Windows, Some(x), home, xdg) == DataDir::In(x),
        snapshots::data_place(System::Windows, None, home, xdg) == DataDir::<P>::Temporary,
        snapshots::data_place(System::MacOs, local, Some(x), xdg) == DataDir::Library(x),
        snapshots::data_place(System::MacOs, local, None, xdg) == DataDir::<P>::Temporary,
        snapshots::data_place(System::Other, local, home, Some(x)) == DataDir::In(x),
        snapshots::data_place(System::Other, local, Some(x), None) == DataDir::LocalShare(x),
        snapshots::data_place(System::Other, local, None, None) == DataDir::<P>::Temporary,
{
}

} // verus!
