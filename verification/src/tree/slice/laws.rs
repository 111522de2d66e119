//! What a treemap shows of the tree, in terms of what the nodes weigh.

use vstd::prelude::*;

use crate::order;
use crate::tree::model;
use crate::tree::slice;
use crate::tree::slice::Slice;
use crate::tree::slice::SubtreeNode;
use crate::tree::Kind;
use crate::tree::Node;
use crate::tree::Tree;

verus! {

/// The entries below every node of a treemap stand in descending order of what
/// is asked for: bytes on disk with `by_alloc`, bytes without. None of them has
/// nothing of it.
pub open spec fn descending(n: SubtreeNode, by_alloc: bool, depth: nat) -> bool
    decreases depth,
{
    let shown = n.children@;
    &&& forall|i: int, j: int|
        0 <= i < j < shown.len() && by_alloc ==> (#[trigger] shown[i]).alloc >= (#[trigger] shown[j]).alloc
    &&& forall|i: int, j: int|
        0 <= i < j < shown.len() && !by_alloc ==> (#[trigger] shown[i]).size >= (#[trigger] shown[j]).size
    &&& forall|k: int| 0 <= k < shown.len() && by_alloc ==> (#[trigger] shown[k]).alloc > 0
    &&& forall|k: int| 0 <= k < shown.len() && !by_alloc ==> (#[trigger] shown[k]).size > 0
    &&& depth == 0 ==> shown.len() == 0
    &&& depth > 0 ==> forall|k: int| 0 <= k < shown.len() ==> descending(#[trigger] shown[k], by_alloc, (depth - 1) as nat)
}

/// The node shows its child `c`.
pub open spec fn shows(n: SubtreeNode, c: u32) -> bool {
    exists|k: int| 0 <= k < n.children@.len() && (#[trigger] n.children@[k]).id == c
}

/// Below every node of a treemap stand children of that node, at most `limit` of
/// them and none twice, and none of the children that are left out has more of
/// what is asked for than one that is shown.
pub open spec fn heaviest(
    nodes: Seq<Node>,
    w: Seq<(u64, u64)>,
    n: SubtreeNode,
    by_alloc: bool,
    depth: nat,
    limit: usize,
) -> bool
    decreases depth,
{
    let shown = n.children@;
    let kids = nodes[n.id as int].children@;
    &&& shown.len() <= limit
    &&& forall|k: int| 0 <= k < shown.len() ==> kids.contains((#[trigger] shown[k]).id)
    &&& forall|i: int, j: int| 0 <= i < j < shown.len() ==> (#[trigger] shown[i]).id != (#[trigger] shown[j]).id
    &&& forall|c: int, k: int|
        0 <= c < kids.len() && 0 <= k < shown.len() && !shows(n, kids[c]) && by_alloc ==> w[#[trigger] kids[c] as int].1 <= (
        #[trigger] shown[k]).alloc
    &&& forall|c: int, k: int|
        0 <= c < kids.len() && 0 <= k < shown.len() && !shows(n, kids[c]) && !by_alloc ==> w[#[trigger] kids[c] as int].0 <= (
        #[trigger] shown[k]).size
    &&& depth > 0 ==> forall|k: int|
        0 <= k < shown.len() ==> heaviest(nodes, w, #[trigger] shown[k], by_alloc, (depth - 1) as nat, limit)
}

/// Nothing is left out without need: of a directory that stands above the last
/// level every child is shown, unless it has nothing of what is asked for or
/// `limit` others are shown.
pub open spec fn complete(
    nodes: Seq<Node>,
    w: Seq<(u64, u64)>,
    n: SubtreeNode,
    by_alloc: bool,
    depth: nat,
    limit: usize,
) -> bool
    decreases depth,
{
    let shown = n.children@;
    let kids = nodes[n.id as int].children@;
    &&& depth > 0 && n.kind == Kind::Dir && shown.len() < limit ==> forall|c: int|
        0 <= c < kids.len() && by_alloc && w[#[trigger] kids[c] as int].1 > 0 ==> shows(n, kids[c])
    &&& depth > 0 && n.kind == Kind::Dir && shown.len() < limit ==> forall|c: int|
        0 <= c < kids.len() && !by_alloc && w[#[trigger] kids[c] as int].0 > 0 ==> shows(n, kids[c])
    &&& depth > 0 ==> forall|k: int|
        0 <= k < shown.len() ==> complete(nodes, w, #[trigger] shown[k], by_alloc, (depth - 1) as nat, limit)
}

/// Every node of a treemap says of the tree what is true: name, kind and time of
/// the node it stands for, and what that node weighs.
pub open spec fn truthful(nodes: Seq<Node>, w: Seq<(u64, u64)>, n: SubtreeNode, depth: nat) -> bool
    decreases depth,
{
    &&& n.name == nodes[n.id as int].name
    &&& n.kind == nodes[n.id as int].kind
    &&& n.mtime == nodes[n.id as int].mtime
    &&& n.size == w[n.id as int].0
    &&& n.alloc == w[n.id as int].1
    &&& depth > 0 ==> forall|k: int| 0 <= k < n.children@.len() ==> truthful(nodes, w, #[trigger] n.children@[k], (depth - 1) as nat)
}

spec fn is_slice(
    nodes: Seq<Node>,
    w: Seq<(u64, u64)>,
    id: u32,
    by_alloc: bool,
    depth: nat,
    limit: usize,
    s: Slice,
    left: nat,
) -> bool {
    exists|b: nat| (#[trigger] slice::slice(nodes, w, id, by_alloc, depth, limit, b)).0 == s && slice::slice(
        nodes,
        w,
        id,
        by_alloc,
        depth,
        limit,
        b,
    ).1 >= left
}

proof fn lemma_left(
    nodes: Seq<Node>,
    w: Seq<(u64, u64)>,
    ids: Seq<u32>,
    by_alloc: bool,
    depth: nat,
    limit: usize,
    budget: nat,
)
    ensures
        ({
            let s = slice::slices(nodes, w, ids, by_alloc, depth, limit, budget);
            &&& s.1 <= budget
            &&& s.0.len() <= ids.len()
            &&& forall|k: int| 0 <= k < s.0.len() ==> is_slice(nodes, w, ids[k], by_alloc, depth, limit, #[trigger] s.0[k], s.1)
            &&& forall|k: int| 0 <= k < s.0.len() ==> (#[trigger] s.0[k]).id == ids[k]
            &&& forall|k: int| 0 <= k < s.0.len() && by_alloc ==> w[(#[trigger] s.0[k]).id as int].1 > 0
            &&& forall|k: int| 0 <= k < s.0.len() && !by_alloc ==> w[(#[trigger] s.0[k]).id as int].0 > 0
            &&& s.0.len() < ids.len() && s.1 > 0 ==> (if by_alloc {
                w[ids[s.0.len() as int] as int].1 == 0
            } else {
                w[ids[s.0.len() as int] as int].0 == 0
            })
        }),
    decreases ids.len(),
{
    let s = slice::slices(nodes, w, ids, by_alloc, depth, limit, budget);
    if ids.len() == 0 || budget == 0 || slice::pick(w[ids[0] as int], by_alloc) == 0 {
    } else {
        let first = slice::slice(nodes, w, ids[0], by_alloc, depth, limit, (budget - 1) as nat);
        let rest = slice::slices(nodes, w, ids.drop_first(), by_alloc, depth, limit, first.1);
        slice::law_slice_is_bounded(nodes, w, ids[0], by_alloc, depth, limit, (budget - 1) as nat);
        lemma_left(nodes, w, ids.drop_first(), by_alloc, depth, limit, first.1);
        assert forall|k: int| 0 <= k < s.0.len() implies is_slice(
            nodes,
            w,
            ids[k],
            by_alloc,
            depth,
            limit,
            #[trigger] s.0[k],
            s.1,
        ) && s.0[k].id == ids[k] && (by_alloc ==> w[s.0[k].id as int].1 > 0) && (!by_alloc ==> w[s.0[k].id as int].0 > 0) by {
            if k == 0 {
                assert(s.0[0] == first.0);
            } else {
                assert(s.0[k] == rest.0[k - 1]);
                assert(ids.drop_first()[k - 1] == ids[k]);
            }
        }
    }
}

/// The children of a node ranked by weight: the ranking as it stands.
proof fn lemma_top(nodes: Seq<Node>, w: Seq<(u64, u64)>, id: u32, by_alloc: bool, limit: usize)
    ensures
        ({
            let kids = nodes[id as int].children@;
            let all = kids.sort_by(slice::weight_order(w, by_alloc));
            let top = slice::top(nodes, w, id, by_alloc, limit);
            &&& all.to_multiset() == kids.to_multiset()
            &&& top.len() <= limit && top.len() <= all.len()
            &&& top.len() == limit || top.len() == all.len()
            &&& forall|k: int| 0 <= k < top.len() ==> #[trigger] top[k] == all[k]
            &&& forall|i: int, j: int|
                0 <= i < j < all.len() && by_alloc ==> w[#[trigger] all[i] as int].1 >= w[#[trigger] all[j] as int].1
            &&& forall|i: int, j: int|
                0 <= i < j < all.len() && !by_alloc ==> w[#[trigger] all[i] as int].0 >= w[#[trigger] all[j] as int].0
        }),
{
    let kids = nodes[id as int].children@;
    let leq = slice::weight_order(w, by_alloc);
    slice::lemma_weight_order(w, by_alloc);
    kids.lemma_sort_by_ensures(leq);
    let all = kids.sort_by(leq);
    assert forall|i: int, j: int| 0 <= i < j < all.len() implies slice::heavier(w, by_alloc, #[trigger] all[i], #[trigger] all[j]) by {
        assert(leq(all[i], all[j]));
    }
}

/// One node of a treemap: what it shows of its children.
proof fn lemma_shown(
    nodes: Seq<Node>,
    w: Seq<(u64, u64)>,
    n: SubtreeNode,
    id: u32,
    by_alloc: bool,
    depth: nat,
    limit: usize,
    budget: nat,
)
    requires
        model::shape(nodes),
        id < nodes.len(),
        slice::pictures(nodes, w, n, slice::slice(nodes, w, id, by_alloc, depth, limit, budget).0),
    ensures
        ({
            let s = slice::slice(nodes, w, id, by_alloc, depth, limit, budget);
            let shown = n.children@;
            let kids = nodes[id as int].children@;
            &&& n.id == id
            &&& s.1 <= budget
            &&& shown.len() == s.0.children.len()
            &&& shown.len() <= limit
            &&& depth == 0 ==> shown.len() == 0
            &&& forall|k: int| 0 <= k < shown.len() ==> depth > 0 && is_slice(
                nodes,
                w,
                (#[trigger] shown[k]).id,
                by_alloc,
                (depth - 1) as nat,
                limit,
                s.0.children[k],
                s.1,
            ) && slice::pictures(nodes, w, shown[k], s.0.children[k]) && shown[k].id < nodes.len()
            &&& forall|k: int| 0 <= k < shown.len() ==> kids.contains((#[trigger] shown[k]).id)
            &&& forall|i: int, j: int| 0 <= i < j < shown.len() ==> (#[trigger] shown[i]).id != (#[trigger] shown[j]).id
            &&& forall|i: int, j: int|
                0 <= i < j < shown.len() && by_alloc ==> (#[trigger] shown[i]).alloc >= (#[trigger] shown[j]).alloc
            &&& forall|i: int, j: int|
                0 <= i < j < shown.len() && !by_alloc ==> (#[trigger] shown[i]).size >= (#[trigger] shown[j]).size
            &&& forall|k: int| 0 <= k < shown.len() && by_alloc ==> (#[trigger] shown[k]).alloc > 0
            &&& forall|k: int| 0 <= k < shown.len() && !by_alloc ==> (#[trigger] shown[k]).size > 0
            &&& forall|c: int, k: int|
                0 <= c < kids.len() && 0 <= k < shown.len() && !shows(n, kids[c]) && by_alloc ==> w[#[trigger] kids[c] as int].1
                    <= (#[trigger] shown[k]).alloc
            &&& forall|c: int, k: int|
                0 <= c < kids.len() && 0 <= k < shown.len() && !shows(n, kids[c]) && !by_alloc ==> w[#[trigger] kids[c] as int].0
                    <= (#[trigger] shown[k]).size
            &&& depth > 0 && n.kind == Kind::Dir && shown.len() < limit && s.1 > 0 ==> forall|c: int|
                0 <= c < kids.len() && by_alloc && w[#[trigger] kids[c] as int].1 > 0 ==> shows(n, kids[c])
            &&& depth > 0 && n.kind == Kind::Dir && shown.len() < limit && s.1 > 0 ==> forall|c: int|
                0 <= c < kids.len() && !by_alloc && w[#[trigger] kids[c] as int].0 > 0 ==> shows(n, kids[c])
        }),
{
    let s = slice::slice(nodes, w, id, by_alloc, depth, limit, budget);
    let shown = n.children@;
    let kids = nodes[id as int].children@;
    if nodes[id as int].kind != Kind::Dir || depth == 0 || budget == 0 {
    } else {
        let all = kids.sort_by(slice::weight_order(w, by_alloc));
        let top = slice::top(nodes, w, id, by_alloc, limit);
        let d = (depth - 1) as nat;
        lemma_top(nodes, w, id, by_alloc, limit);
        lemma_left(nodes, w, top, by_alloc, d, limit, budget);
        order::lemma_same_items(all, kids);
        assert forall|k: int| 0 <= k < shown.len() implies slice::pictures(nodes, w, #[trigger] shown[k], s.0.children[k])
            && shown[k].id == all[k] && kids.contains(shown[k].id) && shown[k].id < nodes.len() && is_slice(
            nodes,
            w,
            shown[k].id,
            by_alloc,
            d,
            limit,
            s.0.children[k],
            s.1,
        ) by {
            assert(slice::pictures(nodes, w, shown[k], s.0.children[k]));
            assert(s.0.children[k].id == top[k]);
            assert(top[k] == all[k]);
            assert(kids.contains(all[k]));
            let j = kids.index_of(all[k]);
            assert(model::listed(nodes, id as int, nodes[id as int].children@[j]));
        }
        assert(kids.no_duplicates());
        kids.lemma_multiset_has_no_duplicates();
        all.lemma_multiset_has_no_duplicates_conv();
        assert forall|c: int| 0 <= c < kids.len() && !shows(n, #[trigger] kids[c]) implies exists|p: int|
            shown.len() <= p < all.len() && all[p] == kids[c] by {
            assert(all.contains(kids[c]));
            let p = all.index_of(kids[c]);
            if p < shown.len() {
                assert(shown[p].id == kids[c]);
            }
            assert(shown.len() <= p < all.len() && all[p] == kids[c]);
        }
    }
}

/// With `by_alloc` the entries of every treemap node stand in descending order
/// of their bytes on disk, and none of them has none; without it the same holds
/// of their bytes. There are no more levels than asked for.
pub proof fn law_treemaps_descend(
    nodes: Seq<Node>,
    w: Seq<(u64, u64)>,
    n: SubtreeNode,
    id: u32,
    by_alloc: bool,
    depth: nat,
    limit: usize,
    budget: nat,
)
    requires
        model::shape(nodes),
        id < nodes.len(),
        slice::pictures(nodes, w, n, slice::slice(nodes, w, id, by_alloc, depth, limit, budget).0),
    ensures
        descending(n, by_alloc, depth),
    decreases depth,
{
    lemma_shown(nodes, w, n, id, by_alloc, depth, limit, budget);
    let s = slice::slice(nodes, w, id, by_alloc, depth, limit, budget);
    if depth > 0 {
        let d = (depth - 1) as nat;
        assert forall|k: int| 0 <= k < n.children@.len() implies descending(#[trigger] n.children@[k], by_alloc, d) by {
            let c = n.children@[k];
            let b = choose|b: nat|
                (#[trigger] slice::slice(nodes, w, c.id, by_alloc, d, limit, b)).0 == s.0.children[k] && slice::slice(
                    nodes,
                    w,
                    c.id,
                    by_alloc,
                    d,
                    limit,
                    b,
                ).1 >= s.1;
            law_treemaps_descend(nodes, w, c, c.id, by_alloc, d, limit, b);
        }
    }
}

/// No child that a treemap leaves out has more of what is asked for than one
/// that it shows beside it.
pub proof fn law_treemaps_show_the_heaviest(
    nodes: Seq<Node>,
    w: Seq<(u64, u64)>,
    n: SubtreeNode,
    id: u32,
    by_alloc: bool,
    depth: nat,
    limit: usize,
    budget: nat,
)
    requires
        model::shape(nodes),
        id < nodes.len(),
        slice::pictures(nodes, w, n, slice::slice(nodes, w, id, by_alloc, depth, limit, budget).0),
    ensures
        heaviest(nodes, w, n, by_alloc, depth, limit),
    decreases depth,
{
    lemma_shown(nodes, w, n, id, by_alloc, depth, limit, budget);
    let s = slice::slice(nodes, w, id, by_alloc, depth, limit, budget);
    if depth > 0 {
        let d = (depth - 1) as nat;
        assert forall|k: int| 0 <= k < n.children@.len() implies heaviest(nodes, w, #[trigger] n.children@[k], by_alloc, d, limit) by {
            let c = n.children@[k];
            let b = choose|b: nat|
                (#[trigger] slice::slice(nodes, w, c.id, by_alloc, d, limit, b)).0 == s.0.children[k] && slice::slice(
                    nodes,
                    w,
                    c.id,
                    by_alloc,
                    d,
                    limit,
                    b,
                ).1 >= s.1;
            law_treemaps_show_the_heaviest(nodes, w, c, c.id, by_alloc, d, limit, b);
        }
    }
}

/// While the budget lasts a treemap leaves out nothing without need.
pub proof fn law_treemaps_leave_nothing_out_without_need(
    nodes: Seq<Node>,
    w: Seq<(u64, u64)>,
    n: SubtreeNode,
    id: u32,
    by_alloc: bool,
    depth: nat,
    limit: usize,
    budget: nat,
)
    requires
        model::shape(nodes),
        id < nodes.len(),
        slice::pictures(nodes, w, n, slice::slice(nodes, w, id, by_alloc, depth, limit, budget).0),
        slice::slice(nodes, w, id, by_alloc, depth, limit, budget).1 > 0,
    ensures
        complete(nodes, w, n, by_alloc, depth, limit),
    decreases depth,
{
    lemma_shown(nodes, w, n, id, by_alloc, depth, limit, budget);
    let s = slice::slice(nodes, w, id, by_alloc, depth, limit, budget);
    if depth > 0 {
        let d = (depth - 1) as nat;
        assert forall|k: int| 0 <= k < n.children@.len() implies complete(nodes, w, #[trigger] n.children@[k], by_alloc, d, limit) by {
            let c = n.children@[k];
            let b = choose|b: nat|
                (#[trigger] slice::slice(nodes, w, c.id, by_alloc, d, limit, b)).0 == s.0.children[k] && slice::slice(
                    nodes,
                    w,
                    c.id,
                    by_alloc,
                    d,
                    limit,
                    b,
                ).1 >= s.1;
            law_treemaps_leave_nothing_out_without_need(nodes, w, c, c.id, by_alloc, d, limit, b);
        }
    }
}

/// Every node of a treemap shows what it stands for.
pub proof fn law_treemaps_are_truthful(nodes: Seq<Node>, w: Seq<(u64, u64)>, n: SubtreeNode, s: Slice, depth: nat)
    requires
        slice::pictures(nodes, w, n, s),
    ensures
        n.id == s.id,
        truthful(nodes, w, n, depth),
    decreases depth,
{
    if depth > 0 {
        assert forall|k: int| 0 <= k < n.children@.len() implies truthful(nodes, w, #[trigger] n.children@[k], (depth - 1) as nat) by {
            assert(slice::pictures(nodes, w, n.children@[k], s.children[k]));
            law_treemaps_are_truthful(nodes, w, n.children@[k], s.children[k], (depth - 1) as nat);
        }
    }
}

/// The treemap of a whole tree: a node weighs what its subtree does, in bytes and
/// in bytes on disk.
pub proof fn law_treemaps_weigh_subtrees(t: Tree, i: int)
    requires
        0 <= i < t.nodes@.len(),
    ensures
        slice::totals(t.nodes@).len() == t.nodes@.len(),
        slice::totals(t.nodes@)[i].0 == t.nodes@[i].total_size,
        slice::totals(t.nodes@)[i].1 == t.nodes@[i].total_alloc,
{
}

} // verus!
