//! Which files are the largest, in terms of their sizes.

use vstd::prelude::*;

use crate::order;
use crate::tree::largest;
use crate::tree::largest::LargeFile;
use crate::tree::listing;
use crate::tree::paths;
use crate::tree::visit;
use crate::tree::Kind;
use crate::tree::Tree;

verus! {

/// The files that a list of the largest shows.
pub open spec fn ids(r: Seq<LargeFile>) -> Seq<u32> {
    r.map_values(|f: LargeFile| f.id)
}

/// What is below `id` in the sense of a list of the largest files: everything in
/// its subtree that is not a directory, but not `id` itself.
pub proof fn law_only_files_below_are_ranked(t: Tree, id: u32, x: u32)
    ensures
        largest::files_below(t.nodes@, id).contains(x) == (visit::visits(t.nodes@, id as int).contains(x) && x != id
            && t.nodes@[x as int].kind != Kind::Dir),
{
    let all = visit::visits(t.nodes@, id as int);
    let leaves = visit::leaves(t.nodes@, id as int);
    let files = largest::files_below(t.nodes@, id);
    let p = visit::is_leaf(t.nodes@);
    let q = largest::not_itself(id);
    if files.contains(x) {
        let k = files.index_of(x);
        leaves.lemma_filter_pred(q, k);
        leaves.lemma_filter_contains_rev(q, x);
        let j = leaves.index_of(x);
        all.lemma_filter_pred(p, j);
        all.lemma_filter_contains_rev(p, x);
    }
    if all.contains(x) && x != id && t.nodes@[x as int].kind != Kind::Dir {
        let j = all.index_of(x);
        assert(p(all[j]));
        all.lemma_filter_contains(p, j);
        let i = leaves.index_of(x);
        assert(q(leaves[i]));
        leaves.lemma_filter_contains(q, i);
    }
}

/// The largest files stand in descending order of their own size, or of their
/// bytes on disk with `by_alloc`.
pub proof fn law_larger_files_come_first(t: Tree, id: u32, by_alloc: bool, limit: usize, r: Seq<LargeFile>, i: int, j: int)
    requires
        largest::largest_of(t.nodes@, by_alloc, largest::files_below(t.nodes@, id), limit, ids(r)),
        forall|k: int| 0 <= k < r.len() ==> largest::reports(t, #[trigger] r[k], r[k].id, by_alloc),
        0 <= i < j < r.len(),
    ensures
        r[i].size >= r[j].size,
        by_alloc ==> t.nodes@[r[i].id as int].self_alloc >= t.nodes@[r[j].id as int].self_alloc,
        !by_alloc ==> t.nodes@[r[i].id as int].self_size >= t.nodes@[r[j].id as int].self_size,
{
    let v = ids(r);
    largest::law_nothing_larger_is_left_out(t.nodes@, by_alloc, largest::files_below(t.nodes@, id), limit, v);
    assert(v[i] == r[i].id && v[j] == r[j].id);
    assert(largest::reports(t, r[i], r[i].id, by_alloc));
    assert(largest::reports(t, r[j], r[j].id, by_alloc));
    assert(largest::value(t.nodes@, by_alloc, v[i]) >= largest::value(t.nodes@, by_alloc, v[j]));
}

/// Each file is shown with the size that it is ranked by, its bytes on disk, its
/// time and its path.
pub proof fn law_largest_files_show_their_size(t: Tree, by_alloc: bool, f: LargeFile)
    requires
        largest::reports(t, f, f.id, by_alloc),
    ensures
        by_alloc ==> f.size == t.nodes@[f.id as int].self_alloc,
        !by_alloc ==> f.size == t.nodes@[f.id as int].self_size,
        f.alloc == t.nodes@[f.id as int].self_alloc,
        f.mtime == t.nodes@[f.id as int].mtime,
        f.path@ == paths::path(t.nodes@, f.id as int),
{
}

/// A file is left out only if `limit` others are shown, none of which is
/// smaller.
pub proof fn law_only_smaller_files_are_left_out(
    t: Tree,
    id: u32,
    by_alloc: bool,
    limit: usize,
    r: Seq<LargeFile>,
    x: u32,
)
    requires
        largest::largest_of(t.nodes@, by_alloc, largest::files_below(t.nodes@, id), limit, ids(r)),
        forall|k: int| 0 <= k < r.len() ==> largest::reports(t, #[trigger] r[k], r[k].id, by_alloc),
        largest::files_below(t.nodes@, id).contains(x),
        forall|k: int| 0 <= k < r.len() ==> (#[trigger] r[k]).id != x,
    ensures
        r.len() == limit,
        forall|k: int| 0 <= k < r.len() && by_alloc ==> (#[trigger] r[k]).alloc >= t.nodes@[x as int].self_alloc,
        forall|k: int| 0 <= k < r.len() && !by_alloc ==> (#[trigger] r[k]).size >= t.nodes@[x as int].self_size,
{
    let pool = largest::files_below(t.nodes@, id);
    let v = ids(r);
    let first = largest::larger_first(t.nodes@, by_alloc);
    let ranked = choose|ranked: Seq<u32>|
        {
            &&& #[trigger] ranked.to_multiset() == pool.to_multiset()
            &&& vstd::relations::sorted_by(ranked, first)
            &&& v == ranked.take(listing::cut(ranked.len(), limit))
        };
    order::lemma_same_items(pool, ranked);
    let p = ranked.index_of(x);
    assert(ranked[p] == x);
    if p < v.len() {
        assert(v[p] == r[p].id);
    }
    assert forall|k: int| 0 <= k < r.len() implies largest::value(t.nodes@, by_alloc, (#[trigger] r[k]).id) >= largest::value(
        t.nodes@,
        by_alloc,
        x,
    ) by {
        assert(v[k] == r[k].id);
        assert(ranked[k] == v[k]);
        assert(first(ranked[k], ranked[p]));
    }
}

/// Every file shown is one below the node.
pub proof fn law_largest_files_are_below(t: Tree, id: u32, by_alloc: bool, limit: usize, r: Seq<LargeFile>, k: int)
    requires
        largest::largest_of(t.nodes@, by_alloc, largest::files_below(t.nodes@, id), limit, ids(r)),
        0 <= k < r.len(),
    ensures
        visit::visits(t.nodes@, id as int).contains(r[k].id),
        r[k].id != id,
        t.nodes@[r[k].id as int].kind != Kind::Dir,
        r.len() <= limit,
{
    let pool = largest::files_below(t.nodes@, id);
    let v = ids(r);
    largest::law_nothing_larger_is_left_out(t.nodes@, by_alloc, pool, limit, v);
    assert(v[k] == r[k].id);
    vstd::seq_lib::to_multiset_contains(v, v[k]);
    vstd::seq_lib::to_multiset_contains(pool, v[k]);
    assert(v.to_multiset().count(v[k]) <= pool.to_multiset().count(v[k]));
    law_only_files_below_are_ranked(t, id, r[k].id);
}

} // verus!
