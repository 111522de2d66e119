//! Putting candidates into groups: by size, then by digest.

use std::collections::HashMap;

use vstd::prelude::*;

use crate::tree::candidates::Candidate;

verus! {

broadcast use vstd::std_specs::hash::group_hash_axioms;

/// Where the group with the key `k` stands.
pub open spec fn find<K, T>(groups: Seq<(K, Seq<T>)>, k: K) -> Option<int>
    decreases groups.len(),
{
    if groups.len() == 0 {
        None
    } else if groups.last().0 == k {
        Some(groups.len() - 1)
    } else {
        find(groups.drop_last(), k)
    }
}

/// The groups after `x` has joined the group with the key `k`, or begun it.
pub open spec fn joined<K, T>(groups: Seq<(K, Seq<T>)>, k: K, x: T) -> Seq<(K, Seq<T>)> {
    match find(groups, k) {
        Some(p) => groups.update(p, (k, groups[p].1.push(x))),
        None => groups.push((k, seq![x])),
    }
}

/// The items put into groups by key, in the order in which the keys first
/// occur.
pub open spec fn sorted_out<K, T>(items: Seq<T>, key: spec_fn(T) -> K) -> Seq<(K, Seq<T>)>
    decreases items.len(),
{
    if items.len() == 0 {
        Seq::empty()
    } else {
        joined(sorted_out(items.drop_last(), key), key(items.last()), items.last())
    }
}

pub open spec fn shared<K, T>() -> spec_fn((K, Seq<T>)) -> bool {
    |g: (K, Seq<T>)| g.1.len() > 1
}

/// The groups of more than one item.
pub open spec fn groups<K, T>(items: Seq<T>, key: spec_fn(T) -> K) -> Seq<(K, Seq<T>)> {
    sorted_out(items, key).filter(shared())
}

pub proof fn lemma_find<K, T>(groups: Seq<(K, Seq<T>)>, k: K)
    ensures
        match find(groups, k) {
            Some(p) => 0 <= p < groups.len() && groups[p].0 == k && forall|q: int|
                p < q < groups.len() ==> (#[trigger] groups[q]).0 != k,
            None => forall|q: int| 0 <= q < groups.len() ==> (#[trigger] groups[q]).0 != k,
        },
    decreases groups.len(),
{
    if groups.len() > 0 {
        lemma_find(groups.drop_last(), k);
        assert forall|q: int| 0 <= q < groups.len() - 1 implies groups.drop_last()[q] == #[trigger] groups[q] by {}
    }
}

pub open spec fn with_key<K, T>(key: spec_fn(T) -> K, k: K) -> spec_fn(T) -> bool {
    |x: T| key(x) == k
}

/// Grouping is what it says: no two groups have the same key, each holds
/// exactly the items with its key, and every item is in a group.
pub proof fn law_groups_are_classes<K, T>(items: Seq<T>, key: spec_fn(T) -> K)
    ensures
        ({
            let g = sorted_out(items, key);
            &&& forall|p: int, q: int| 0 <= p < q < g.len() ==> (#[trigger] g[p]).0 != (#[trigger] g[q]).0
            &&& forall|p: int| 0 <= p < g.len() ==> (#[trigger] g[p]).1 == items.filter(with_key(key, g[p].0)) && g[p].1.len() > 0
            &&& forall|i: int| 0 <= i < items.len() ==> find(g, key(#[trigger] items[i])) is Some
        }),
    decreases items.len(), 0int,
{
    reveal(Seq::filter);
    let g = sorted_out(items, key);
    if items.len() > 0 {
        let rest = items.drop_last();
        let x = items.last();
        let k = key(x);
        let g0 = sorted_out(rest, key);
        law_groups_are_classes(rest, key);
        lemma_find(g0, k);
        assert forall|p: int| 0 <= p < g.len() implies (#[trigger] g[p]).1 == items.filter(with_key(key, g[p].0))
            && g[p].1.len() > 0 by {
            let w = with_key(key, g[p].0);
            if p < g0.len() {
                assert(g0[p].0 == g[p].0);
                assert(g0[p].1 == rest.filter(w));
            } else {
                lemma_none_with_key(rest, key, k);
                assert(rest.filter(w) =~= Seq::<T>::empty());
                assert(items.filter(w) =~= seq![x]);
            }
        }
        assert forall|p: int, q: int| 0 <= p < q < g.len() implies (#[trigger] g[p]).0 != (#[trigger] g[q]).0 by {
            if q < g0.len() {
                assert(g0[p].0 != g0[q].0);
            }
        }
        assert forall|i: int| 0 <= i < items.len() implies find(g, key(#[trigger] items[i])) is Some by {
            let y = key(items[i]);
            lemma_find(g, y);
            lemma_find(g0, y);
            if i < rest.len() {
                assert(find(g0, key(rest[i])) is Some);
                let p = find(g0, y)->0;
                assert(g[p].0 == y);
            } else {
                match find(g0, k) {
                    Some(p) => {
                        assert(g[p].0 == k);
                    },
                    None => {
                        assert(g[g0.len() as int].0 == k);
                    },
                }
            }
        }
    }
}

/// A key without a group belongs to no item.
proof fn lemma_none_with_key<K, T>(items: Seq<T>, key: spec_fn(T) -> K, k: K)
    requires
        find(sorted_out(items, key), k) is None,
    ensures
        items.filter(with_key(key, k)).len() == 0,
    decreases items.len(), 1int,
{
    law_groups_are_classes(items, key);
    let f = items.filter(with_key(key, k));
    if f.len() > 0 {
        items.lemma_filter_pred(with_key(key, k), 0);
        items.lemma_filter_contains_rev(with_key(key, k), f[0]);
        let i = items.index_of(f[0]);
        assert(find(sorted_out(items, key), key(items[i])) is Some);
    }
}

/// Every reported group has at least two members, all of them items with the
/// same key, and two items with the same key are always reported together.
pub proof fn law_groups_share_their_key<K, T>(items: Seq<T>, key: spec_fn(T) -> K)
    ensures
        ({
            let g = groups(items, key);
            &&& forall|p: int| 0 <= p < g.len() ==> (#[trigger] g[p]).1.len() > 1 && g[p].1 == items.filter(with_key(key, g[p].0))
            &&& forall|p: int, i: int|
                0 <= p < g.len() && 0 <= i < g[p].1.len() ==> key(#[trigger] g[p].1[i]) == g[p].0 && items.contains(g[p].1[i])
            &&& forall|i: int, j: int|
                0 <= i < j < items.len() && key(#[trigger] items[i]) == key(#[trigger] items[j]) ==> find(g, key(items[i])) is Some
        }),
{
    let all = sorted_out(items, key);
    let g = groups(items, key);
    law_groups_are_classes(items, key);
    assert forall|p: int| 0 <= p < g.len() implies (#[trigger] g[p]).1.len() > 1 && g[p].1 == items.filter(
        with_key(key, g[p].0),
    ) by {
        all.lemma_filter_pred(shared(), p);
        assert(g.contains(g[p]));
        all.lemma_filter_contains_rev(shared(), g[p]);
        let q = all.index_of(g[p]);
        assert(all[q] == g[p]);
    }
    assert forall|p: int, i: int| 0 <= p < g.len() && 0 <= i < g[p].1.len() implies key(#[trigger] g[p].1[i]) == g[p].0
        && items.contains(g[p].1[i]) by {
        let w = with_key(key, g[p].0);
        assert(g[p].1 == items.filter(w));
        items.lemma_filter_pred(w, i);
        assert(items.filter(w).contains(g[p].1[i]));
        items.lemma_filter_contains_rev(w, g[p].1[i]);
    }
    assert forall|i: int, j: int|
        0 <= i < j < items.len() && key(#[trigger] items[i]) == key(#[trigger] items[j]) implies find(g, key(items[i])) is Some by {
        let k = key(items[i]);
        lemma_find(all, k);
        let q = find(all, k)->0;
        assert(all[q].1 == items.filter(with_key(key, k)));
        lemma_two_pass(items, with_key(key, k), i, j);
        all.lemma_filter_contains(shared(), q);
        let at = g.index_of(all[q]);
        assert(g[at].0 == k);
        lemma_find(g, k);
    }
}

/// A filter that two items pass keeps at least two.
proof fn lemma_two_pass<T>(s: Seq<T>, f: spec_fn(T) -> bool, i: int, j: int)
    requires
        0 <= i < j < s.len(),
        f(s[i]),
        f(s[j]),
    ensures
        s.filter(f).len() >= 2,
{
    let a = s.take(i + 1);
    let b = s.skip(i + 1);
    assert(s =~= a + b);
    Seq::filter_distributes_over_add(a, b, f);
    a.lemma_filter_contains(f, i);
    assert(b[j - i - 1] == s[j]);
    b.lemma_filter_contains(f, j - i - 1);
    assert(a.filter(f).len() >= 1);
    assert(b.filter(f).len() >= 1);
}

pub open spec fn size_of() -> spec_fn(Candidate) -> u64 {
    |c: Candidate| c.size
}

/// Buckets under their keys.
spec fn paired<K, V, T>(keys: Seq<K>, buckets: Seq<V>, f: spec_fn(V) -> Seq<T>) -> Seq<(K, Seq<T>)> {
    Seq::new(keys.len(), |p: int| (keys[p], f(buckets[p])))
}

spec fn contents<T>() -> spec_fn(Vec<T>) -> Seq<T> {
    |v: Vec<T>| v@
}

/// The contents of a list of lists.
pub open spec fn lists<T>(v: Seq<Vec<T>>) -> Seq<Seq<T>> {
    v.map_values(|g: Vec<T>| g@)
}

pub open spec fn members<K, T>(g: Seq<(K, Seq<T>)>) -> Seq<Seq<T>> {
    g.map_values(|x: (K, Seq<T>)| x.1)
}

/// The buckets of more than one item.
fn kept_buckets<T>(buckets: Vec<Vec<T>>) -> (r: Vec<Vec<T>>)
    ensures
        lists(r@) == lists(buckets@).filter(|s: Seq<T>| s.len() > 1),
{
    let ghost many = |s: Seq<T>| s.len() > 1;
    let ghost all = lists(buckets@);
    let mut out: Vec<Vec<T>> = Vec::new();
    proof {
        reveal(Seq::filter);
        assert(lists(out@) =~= all.take(0).filter(many));
    }
    for b in it: buckets
        invariant
            all == lists(it.seq()),
            many == (|s: Seq<T>| s.len() > 1),
            lists(out@) == all.take(it.index() as int).filter(many),
    {
        let ghost o0 = out@;
        let ghost b0 = b@;
        proof {
            reveal(Seq::filter);
            assert(all.take(it.index() + 1).drop_last() =~= all.take(it.index() as int));
            assert(all[it.index() as int] == b@);
        }
        if b.len() > 1 {
            out.push(b);
            assert(lists(out@) =~= lists(o0).push(b0));
        }
    }
    assert(all.take(all.len() as int) =~= all);
    out
}

proof fn lemma_filtered_members<K, T>(g: Seq<(K, Seq<T>)>)
    ensures
        members(g).filter(|s: Seq<T>| s.len() > 1) == members(g.filter(shared())),
    decreases g.len(),
{
    reveal(Seq::filter);
    let many = |s: Seq<T>| s.len() > 1;
    if g.len() == 0 {
        assert(members(g).filter(many) =~= members(g.filter(shared())));
    } else {
        let front = g.drop_last();
        lemma_filtered_members(front);
        assert(members(g).drop_last() =~= members(front));
        assert(members(g).last() == g.last().1);
        if g.last().1.len() > 1 {
            assert(members(front.filter(shared()).push(g.last())) =~= members(front.filter(shared())).push(g.last().1));
        }
    }
}

/// Candidates of the same size, in groups of more than one.
pub fn by_size(items: Vec<Candidate>) -> (r: Vec<Vec<Candidate>>)
    ensures
        lists(r@) == members(groups(items@, size_of())),
{
    let ghost all = items@;
    let ghost key = size_of();
    let mut sizes: Vec<u64> = Vec::new();
    let mut buckets: Vec<Vec<Candidate>> = Vec::new();
    let mut index: HashMap<u64, usize> = HashMap::new();
    proof {
        assert(paired(sizes@, buckets@, contents()) =~= sorted_out(all.take(0), key));
    }
    for c in it: items
        invariant
            all == it.seq(),
            key == size_of(),
            sizes@.len() == buckets@.len(),
            paired(sizes@, buckets@, contents()) == sorted_out(all.take(it.index() as int), key),
            forall|k: u64| #[trigger] index@.contains_key(k) <==> find(paired(sizes@, buckets@, contents()), k) is Some,
            forall|k: u64| #[trigger]
                index@.contains_key(k) ==> find(paired(sizes@, buckets@, contents()), k) == Some(index@[k] as int)
                    && index@[k] < buckets@.len(),
    {
        let ghost before = paired(sizes@, buckets@, contents());
        let ghost c0 = c;
        let size: u64 = c.size;
        proof {
            assert(all.take(it.index() + 1).drop_last() =~= all.take(it.index() as int));
            assert(all.take(it.index() + 1).last() == c);
            lemma_find(before, size);
        }
        let at: Option<usize> = match index.get(&size) {
            Some(p) => Some(*p),
            None => None,
        };
        assert(index@.contains_key(size) <==> find(before, size) is Some);
        match at {
            Some(p) => {
                buckets[p].push(c);
                proof {
                    let after = paired(sizes@, buckets@, contents());
                    assert(after =~= before.update(p as int, (size, before[p as int].1.push(c0))));
                    assert forall|k: u64| find(after, k) == find(before, k) by {
                        lemma_same_keys(before, after, k);
                    }
                }
            },
            None => {
                let fresh: usize = buckets.len();
                let mut bucket: Vec<Candidate> = Vec::new();
                bucket.push(c);
                sizes.push(size);
                buckets.push(bucket);
                index.insert(size, fresh);
                proof {
                    let after = paired(sizes@, buckets@, contents());
                    assert(bucket@ =~= seq![c0]);
                    assert(after =~= before.push((size, seq![c0])));
                    assert(after.drop_last() =~= before);
                }
            },
        }
    }
    proof {
        assert(all.take(all.len() as int) =~= all);
        let g = sorted_out(all, key);
        assert(lists(buckets@) =~= members(g));
        lemma_filtered_members(g);
    }
    kept_buckets(buckets)
}

proof fn lemma_same_keys<K, T>(a: Seq<(K, Seq<T>)>, b: Seq<(K, Seq<T>)>, k: K)
    requires
        a.len() == b.len(),
        forall|p: int| 0 <= p < a.len() ==> (#[trigger] a[p]).0 == b[p].0,
    ensures
        find(a, k) == find(b, k),
    decreases a.len(),
{
    if a.len() > 0 {
        assert(a[a.len() - 1].0 == b[a.len() - 1].0);
        assert forall|p: int| 0 <= p < a.len() - 1 implies (#[trigger] a.drop_last()[p]).0 == b.drop_last()[p].0 by {
            assert(a[p].0 == b[p].0);
        }
        lemma_same_keys(a.drop_last(), b.drop_last(), k);
    }
}

/// A candidate together with the digest that was computed for it.
pub struct Digested {
    pub digest: [u8; 32],
    pub candidate: Candidate,
}

pub open spec fn digest_of() -> spec_fn(Digested) -> Seq<u8> {
    |d: Digested| d.digest@
}

pub open spec fn candidates_of(v: Seq<Digested>) -> Seq<Candidate> {
    v.map_values(|d: Digested| d.candidate)
}

/// The candidates of each group.
pub open spec fn candidate_lists(g: Seq<(Seq<u8>, Seq<Digested>)>) -> Seq<Seq<Candidate>> {
    g.map_values(|x: (Seq<u8>, Seq<Digested>)| candidates_of(x.1))
}

fn same_digest(a: &[u8; 32], b: &[u8; 32]) -> (r: bool)
    ensures
        r == (a@ == b@),
{
    let mut i: usize = 0;
    while i < 32
        invariant
            i <= 32,
            forall|j: int| 0 <= j < i ==> a@[j] == b@[j],
        decreases 32 - i,
    {
        if a[i] != b[i] {
            return false;
        }
        i = i + 1;
    }
    assert(a@ =~= b@);
    true
}

/// The number that the first eight bytes of a digest stand for.
spec fn head_of(d: Seq<u8>, n: nat) -> int
    decreases n,
{
    if n == 0 {
        0
    } else {
        head_of(d, (n - 1) as nat) * 256 + d[n - 1]
    }
}

fn head(d: &[u8; 32]) -> (r: u64)
    ensures
        r == head_of(d@, 8),
{
    let mut x: u64 = 0;
    let mut i: usize = 0;
    while i < 8
        invariant
            i <= 8,
            x == head_of(d@, i as nat),
            i <= 0 ==> x < 1,
            i == 1 ==> x < 0x100,
            i == 2 ==> x < 0x1_0000,
            i == 3 ==> x < 0x100_0000,
            i == 4 ==> x < 0x1_0000_0000,
            i == 5 ==> x < 0x100_0000_0000,
            i == 6 ==> x < 0x1_0000_0000_0000,
            i == 7 ==> x < 0x100_0000_0000_0000,
        decreases 8 - i,
    {
        x = x * 256 + d[i] as u64;
        i = i + 1;
    }
    x
}

/// Where the bucket with this digest stands.
fn position(digests: &Vec<[u8; 32]>, d: &[u8; 32]) -> (r: Option<usize>)
    ensures
        match r {
            Some(p) => p < digests@.len() && digests@[p as int]@ == d@,
            None => forall|p: int| 0 <= p < digests@.len() ==> (#[trigger] digests@[p])@ != d@,
        },
{
    let mut p: usize = 0;
    while p < digests.len()
        invariant
            p <= digests@.len(),
            forall|q: int| 0 <= q < p ==> (#[trigger] digests@[q])@ != d@,
        decreases digests.len() - p,
    {
        if same_digest(&digests[p], d) {
            return Some(p);
        }
        p = p + 1;
    }
    None
}

spec fn digest_keys(v: Seq<[u8; 32]>) -> Seq<Seq<u8>> {
    v.map_values(|d: [u8; 32]| d@)
}

/// The groups as they are found on the buckets: under each digest, candidates.
spec fn found(digests: Seq<[u8; 32]>, buckets: Seq<Vec<Candidate>>) -> Seq<(Seq<u8>, Seq<Candidate>)> {
    paired(digest_keys(digests), buckets, contents())
}

/// The same groups, without the digests of the members.
spec fn stripped(g: Seq<(Seq<u8>, Seq<Digested>)>) -> Seq<(Seq<u8>, Seq<Candidate>)> {
    g.map_values(|x: (Seq<u8>, Seq<Digested>)| (x.0, candidates_of(x.1)))
}

proof fn lemma_stripped_find(g: Seq<(Seq<u8>, Seq<Digested>)>, k: Seq<u8>)
    ensures
        find(stripped(g), k) == find(g, k),
    decreases g.len(),
{
    if g.len() > 0 {
        assert(stripped(g).drop_last() =~= stripped(g.drop_last()));
        lemma_stripped_find(g.drop_last(), k);
    }
}

proof fn lemma_stripped_kept(g: Seq<(Seq<u8>, Seq<Digested>)>)
    ensures
        members(stripped(g).filter(shared())) == candidate_lists(g.filter(shared())),
    decreases g.len(),
{
    reveal(Seq::filter);
    if g.len() == 0 {
        assert(members(stripped(g).filter(shared())) =~= candidate_lists(g.filter(shared())));
    } else {
        let front = g.drop_last();
        lemma_stripped_kept(front);
        assert(stripped(g).drop_last() =~= stripped(front));
        let x = g.last();
        assert(stripped(g).last() == (x.0, candidates_of(x.1)));
        if x.1.len() > 1 {
            assert(members(stripped(front).filter(shared()).push((x.0, candidates_of(x.1)))) =~= members(
                stripped(front).filter(shared()),
            ).push(candidates_of(x.1)));
            assert(candidate_lists(front.filter(shared()).push(x)) =~= candidate_lists(front.filter(shared())).push(
                candidates_of(x.1),
            ));
        }
    }
}

/// Splits a group by digest and gives the sub-groups that still have more than
/// one member.
pub fn split_by(items: Vec<Digested>) -> (r: Vec<Vec<Candidate>>)
    ensures
        lists(r@) == candidate_lists(groups(items@, digest_of())),
{
    let ghost all = items@;
    let ghost key = digest_of();
    let mut digests: Vec<[u8; 32]> = Vec::new();
    let mut buckets: Vec<Vec<Candidate>> = Vec::new();
    let mut index: HashMap<u64, usize> = HashMap::new();
    proof {
        assert(found(digests@, buckets@) =~= stripped(sorted_out(all.take(0), key)));
    }
    for x in it: items
        invariant
            all == it.seq(),
            key == digest_of(),
            digests@.len() == buckets@.len(),
            found(digests@, buckets@) == stripped(sorted_out(all.take(it.index() as int), key)),
            forall|p: int, q: int| 0 <= p < q < digests@.len() ==> (#[trigger] digests@[p])@ != (#[trigger] digests@[q])@,
            forall|p: int| 0 <= p < digests@.len() ==> index@.contains_key(head_of((#[trigger] digests@[p])@, 8) as u64),
            forall|k: u64| #[trigger] index@.contains_key(k) ==> index@[k] < buckets@.len(),
            forall|p: int| 0 <= p < digests@.len() ==> 0 <= #[trigger] head_of(digests@[p]@, 8) <= u64::MAX,
    {
        let Digested { digest, candidate } = x;
        let ghost x0 = x;
        let ghost before = found(digests@, buckets@);
        let ghost groups0 = sorted_out(all.take(it.index() as int), key);
        let h: u64 = head(&digest);
        proof {
            assert(all.take(it.index() + 1).drop_last() =~= all.take(it.index() as int));
            assert(all.take(it.index() + 1).last() == x0);
            lemma_find(before, digest@);
            lemma_stripped_find(groups0, digest@);
            lemma_find(groups0, digest@);
        }
        let guess: Option<usize> = match index.get(&h) {
            Some(p) => Some(*p),
            None => None,
        };
        let at: Option<usize> = match guess {
            Some(p) => if same_digest(&digests[p], &digest) {
                Some(p)
            } else {
                position(&digests, &digest)
            },
            None => {
                proof {
                    assert forall|p: int| 0 <= p < digests@.len() implies (#[trigger] digests@[p])@ != digest@ by {
                        if digests@[p]@ == digest@ {
                            assert(index@.contains_key(head_of(digests@[p]@, 8) as u64));
                        }
                    }
                }
                None
            },
        };
        proof {
            assert forall|q: int| 0 <= q < digests@.len() implies (#[trigger] before[q]).0 == digests@[q]@ by {}
            match at {
                Some(p) => {
                    let q = find(before, digest@);
                    assert(before[p as int].0 == digest@);
                    assert(q == Some(p as int));
                },
                None => {
                    if find(before, digest@) is Some {
                        let q = find(before, digest@)->0;
                        assert(before[q].0 == digests@[q]@);
                    }
                },
            }
        }
        match at {
            Some(p) => {
                let ghost c0 = candidate;
                buckets[p].push(candidate);
                proof {
                    let after = found(digests@, buckets@);
                    let g1 = groups0.update(p as int, (digest@, groups0[p as int].1.push(x0)));
                    assert(candidates_of(groups0[p as int].1.push(x0)) =~= candidates_of(groups0[p as int].1).push(c0));
                    assert forall|q: int| 0 <= q < after.len() implies #[trigger] after[q] == stripped(g1)[q] by {
                        assert(before[q] == stripped(groups0)[q]);
                        if q != p {
                            assert(after[q] == before[q]);
                        } else {
                            assert(after[q].1 =~= before[q].1.push(c0));
                        }
                    }
                    assert(after =~= stripped(g1));
                }
            },
            None => {
                let ghost c0 = candidate;
                let fresh: usize = buckets.len();
                let mut bucket: Vec<Candidate> = Vec::new();
                bucket.push(candidate);
                digests.push(digest);
                buckets.push(bucket);
                index.insert(h, fresh);
                proof {
                    let after = found(digests@, buckets@);
                    let g1 = groups0.push((digest@, seq![x0]));
                    assert(candidates_of(seq![x0]) =~= seq![c0]);
                    assert(bucket@ =~= seq![c0]);
                    assert forall|q: int| 0 <= q < after.len() implies #[trigger] after[q] == stripped(g1)[q] by {
                        if q < before.len() {
                            assert(before[q] == stripped(groups0)[q]);
                            assert(after[q] == before[q]);
                        }
                    }
                    assert(after =~= stripped(g1));
                }
            },
        }
    }
    proof {
        assert(all.take(all.len() as int) =~= all);
        let g = sorted_out(all, key);
        assert(lists(buckets@) =~= members(stripped(g)));
        lemma_filtered_members(stripped(g));
        lemma_stripped_kept(g);
    }
    kept_buckets(buckets)
}

} // verus!
