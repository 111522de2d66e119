//! Coherence: the totals of every node are what its subtree adds up to, after
//! any sequence of insertions and removals.

use vstd::prelude::*;

use crate::order;
use crate::tree::model;
use crate::tree::model::Tally;
use crate::tree::Kind;
use crate::tree::NewEntry;
use crate::tree::Node;
use crate::tree::Stats;
use crate::tree::Tree;

verus! {

/// What the nodes of a list add to what lists them.
pub open spec fn shares(nodes: Seq<Node>, ids: Seq<u32>) -> Tally
    decreases ids.len(),
{
    if ids.len() == 0 {
        Tally::zero()
    } else {
        shares(nodes, ids.drop_last()).plus(model::share(nodes[ids.last() as int]))
    }
}

/// The totals of `i` are its own weight and what its children add, and only
/// directories have children.
pub open spec fn balanced(nodes: Seq<Node>, i: int) -> bool {
    &&& model::tally(nodes[i]) == model::own(nodes[i]).plus(shares(nodes, nodes[i].children@))
    &&& nodes[i].kind != Kind::Dir ==> nodes[i].children@.len() == 0
}

/// Every node is balanced.
pub open spec fn coherent(nodes: Seq<Node>) -> bool {
    forall|i: int| 0 <= i < nodes.len() ==> #[trigger] balanced(nodes, i)
}

/// The counters of a scan are the totals of the root, without its own weight.
pub open spec fn counted(root: Node, stats: Stats) -> bool {
    &&& stats.files == root.files
    &&& stats.dirs == root.dirs
    &&& stats.size + root.self_size == root.total_size
    &&& stats.alloc + root.self_alloc == root.total_alloc
}

impl Tree {
    /// Every total is what the subtree adds up to, and the counters agree.
    pub open spec fn coherent(self) -> bool {
        coherent(self.nodes@) && counted(self.nodes@[0], self.stats)
    }
}

/// Lists whose nodes weigh the same add the same.
pub proof fn lemma_shares_same(a: Seq<Node>, b: Seq<Node>, ids: Seq<u32>)
    requires
        forall|k: int| 0 <= k < ids.len() ==> model::share(a[(#[trigger] ids[k]) as int]) == model::share(b[ids[k] as int]),
    ensures
        shares(a, ids) == shares(b, ids),
    decreases ids.len(),
{
    if ids.len() > 0 {
        assert(model::share(a[ids[ids.len() - 1] as int]) == model::share(b[ids[ids.len() - 1] as int]));
        assert forall|k: int| 0 <= k < ids.drop_last().len() implies model::share(a[(#[trigger] ids.drop_last()[k]) as int])
            == model::share(b[ids.drop_last()[k] as int]) by {
            assert(ids[k] == ids.drop_last()[k]);
        }
        lemma_shares_same(a, b, ids.drop_last());
    }
}

/// When one node of a list, standing at `pos`, becomes heavier by `d`, what
/// the list adds becomes heavier by `d`.
pub proof fn lemma_shares_changed(a: Seq<Node>, b: Seq<Node>, ids: Seq<u32>, pos: int, d: Tally)
    requires
        0 <= pos < ids.len(),
        forall|k: int| 0 <= k < ids.len() && k != pos ==> model::share(a[(#[trigger] ids[k]) as int]) == model::share(
            b[ids[k] as int],
        ),
        model::share(b[ids[pos] as int]) == model::share(a[ids[pos] as int]).plus(d),
    ensures
        shares(b, ids) == shares(a, ids).plus(d),
    decreases ids.len(),
{
    let front = ids.drop_last();
    if pos == ids.len() - 1 {
        assert forall|k: int| 0 <= k < front.len() implies model::share(a[(#[trigger] front[k]) as int]) == model::share(
            b[front[k] as int],
        ) by {
            assert(ids[k] == front[k]);
        }
        lemma_shares_same(a, b, front);
    } else {
        assert forall|k: int| 0 <= k < front.len() && k != pos implies model::share(a[(#[trigger] front[k]) as int]) == model::share(
            b[front[k] as int],
        ) by {
            assert(ids[k] == front[k]);
        }
        lemma_shares_changed(a, b, front, pos, d);
        assert(model::share(a[ids[ids.len() - 1] as int]) == model::share(b[ids[ids.len() - 1] as int]));
    }
}

/// A list without the node at `pos` adds what the list adds, less that node.
pub proof fn lemma_shares_remove(nodes: Seq<Node>, ids: Seq<u32>, pos: int)
    requires
        0 <= pos < ids.len(),
    ensures
        shares(nodes, ids.remove(pos)) == shares(nodes, ids).minus(model::share(nodes[ids[pos] as int])),
    decreases ids.len(),
{
    let front = ids.drop_last();
    if pos == ids.len() - 1 {
        assert(ids.remove(pos) =~= front);
    } else {
        lemma_shares_remove(nodes, front, pos);
        assert(ids.remove(pos) =~= front.remove(pos).push(ids.last()));
        assert(ids.remove(pos).drop_last() =~= front.remove(pos));
    }
}

/// Two lists one after the other add what both add.
pub proof fn lemma_shares_concat(nodes: Seq<Node>, a: Seq<u32>, b: Seq<u32>)
    ensures
        shares(nodes, a + b) == shares(nodes, a).plus(shares(nodes, b)),
    decreases b.len(),
{
    if b.len() == 0 {
        assert(a + b =~= a);
    } else {
        assert((a + b).drop_last() =~= a + b.drop_last());
        assert((a + b).last() == b.last());
        lemma_shares_concat(nodes, a, b.drop_last());
    }
}

/// What a list adds does not depend on its order.
pub proof fn lemma_shares_permuted(nodes: Seq<Node>, a: Seq<u32>, b: Seq<u32>)
    requires
        a.to_multiset() == b.to_multiset(),
    ensures
        shares(nodes, a) == shares(nodes, b),
    decreases a.len(),
{
    broadcast use vstd::seq_lib::group_to_multiset_ensures;
    order::lemma_same_items(a, b);
    if a.len() > 0 {
        let x = a.last();
        assert(a[a.len() - 1] == x);
        let pos = b.index_of(x);
        assert(b.contains(x));
        assert(a.drop_last() =~= a.remove(a.len() - 1));
        vstd::seq_lib::to_multiset_remove(a, a.len() - 1);
        vstd::seq_lib::to_multiset_remove(b, pos);
        lemma_shares_permuted(nodes, a.drop_last(), b.remove(pos));
        lemma_shares_remove(nodes, b, pos);
    }
}

/// No part of what a list adds is negative.
pub proof fn lemma_shares_nonneg(nodes: Seq<Node>, ids: Seq<u32>)
    ensures
        shares(nodes, ids).covers(Tally::zero()),
    decreases ids.len(),
{
    if ids.len() > 0 {
        lemma_shares_nonneg(nodes, ids.drop_last());
    }
}

/// A list adds at least what one of its nodes adds.
pub proof fn lemma_shares_member(nodes: Seq<Node>, ids: Seq<u32>, pos: int)
    requires
        0 <= pos < ids.len(),
    ensures
        shares(nodes, ids).covers(model::share(nodes[ids[pos] as int])),
    decreases ids.len(),
{
    lemma_shares_nonneg(nodes, ids.drop_last());
    if pos < ids.len() - 1 {
        lemma_shares_member(nodes, ids.drop_last(), pos);
    }
}

/// What is attached is listed by its parent.
proof fn lemma_attached_listed(nodes: Seq<Node>, c: int) -> (pos: int)
    requires
        model::shape(nodes),
        1 <= c < nodes.len(),
        !nodes[c].removed,
    ensures
        nodes[c].parent < c,
        0 <= pos < nodes[nodes[c].parent as int].children@.len(),
        nodes[nodes[c].parent as int].children@[pos] == c,
        forall|k: int|
            0 <= k < nodes[nodes[c].parent as int].children@.len() && k != pos ==> (
            #[trigger] nodes[nodes[c].parent as int].children@[k]) != c,
{
    assert(nodes[c].parent < c);
    assert(model::kept(nodes, c));
    let kids = nodes[nodes[c].parent as int].children@;
    let pos = choose|j: int| 0 <= j < kids.len() && kids[j] == c as u32;
    assert(nodes[nodes[c].parent as int].children@.no_duplicates());
    pos
}

/// The child through which a path from `from` reaches `k`.
proof fn lemma_path_child(nodes: Seq<Node>, k: int, from: int) -> (c: int)
    requires
        model::shape(nodes),
        0 <= k < from < nodes.len(),
        model::above(nodes, k, from),
    ensures
        k < c <= from,
        model::above(nodes, c, from),
        nodes[c].parent == k,
        forall|x: int| 0 <= x && #[trigger] model::above(nodes, x, from) && x < nodes.len() && x > 0 && nodes[x].parent == k ==> x == c,
    decreases from,
{
    assert(nodes[from].parent < from);
    let q = nodes[from].parent as int;
    if q == k {
        assert forall|x: int| 0 <= x && #[trigger] model::above(nodes, x, from) && x < nodes.len() && x > 0 && nodes[x].parent == k implies x
            == from by {
            model::lemma_above_bounds(nodes, x, from);
            if x != from {
                model::lemma_above_bounds(nodes, x, k);
                assert(nodes[x].parent < x);
            }
        }
        from
    } else {
        model::lemma_above_bounds(nodes, k, q);
        let c = lemma_path_child(nodes, k, q);
        assert forall|x: int| 0 <= x && #[trigger] model::above(nodes, x, from) && x < nodes.len() && x > 0 && nodes[x].parent == k implies x
            == c by {
            model::lemma_above_bounds(nodes, x, from);
            if x != from {
                assert(model::above(nodes, x, q));
            }
        }
        c
    }
}

/// What new entries add to their parent is what they weigh.
proof fn lemma_settled_shares(nodes: Seq<Node>, first: int, parent: int, depth: u16, entries: Seq<NewEntry>, exts: Seq<Seq<char>>)
    requires
        model::settled(nodes, first, parent, depth, entries, exts),
        0 <= first,
        first + entries.len() <= u32::MAX,
    ensures
        shares(nodes, model::id_range(first, entries.len())) == model::weigh(entries),
    decreases entries.len(),
{
    let n = entries.len();
    if n > 0 {
        let ids = model::id_range(first, n);
        assert(ids.drop_last() =~= model::id_range(first, (n - 1) as nat));
        assert(model::settled(nodes, first, parent, depth, entries.drop_last(), exts)) by {
            assert forall|j: int| 0 <= j < n - 1 implies model::fresh(
                #[trigger] nodes[first + j],
                parent as u32,
                depth,
                entries.drop_last()[j],
                nodes[first + j].ext,
            ) by {
                assert(model::fresh(nodes[first + j], parent as u32, depth, entries[j], nodes[first + j].ext));
            }
        }
        lemma_settled_shares(nodes, first, parent, depth, entries.drop_last(), exts);
        assert(model::fresh(nodes[first + (n - 1)], parent as u32, depth, entries[n - 1], nodes[first + (n - 1)].ext));
    }
}

/// The totals of an ancestor cover what an attached node adds to it.
pub proof fn law_ancestors_cover(nodes: Seq<Node>, a: int, i: int)
    requires
        model::shape(nodes),
        coherent(nodes),
        0 <= a < i < nodes.len(),
        model::attached(nodes, i),
        model::above(nodes, a, i),
    ensures
        model::tally(nodes[a]).covers(model::share(nodes[i])),
    decreases i,
{
    let q = nodes[i].parent as int;
    let pos = lemma_attached_listed(nodes, i);
    assert(balanced(nodes, q));
    lemma_shares_member(nodes, nodes[q].children@, pos);
    if a != q {
        model::lemma_above_bounds(nodes, a, q);
        law_ancestors_cover(nodes, a, q);
    }
}

/// The root carries what an attached node adds, besides its own weight.
pub proof fn lemma_root_carries(nodes: Seq<Node>, i: int)
    requires
        model::shape(nodes),
        coherent(nodes),
        1 <= i < nodes.len(),
        model::attached(nodes, i),
    ensures
        model::tally(nodes[0]).minus(model::own(nodes[0])).covers(model::share(nodes[i])),
{
    model::lemma_root_above(nodes, i);
    let c = lemma_path_child(nodes, 0, i);
    model::lemma_attached_above(nodes, c, i);
    let pos = lemma_attached_listed(nodes, c);
    assert(balanced(nodes, 0));
    lemma_shares_member(nodes, nodes[0].children@, pos);
    if c < i {
        law_ancestors_cover(nodes, c, i);
    }
}

/// In a coherent tree what a removal takes away is what the node adds.
pub proof fn lemma_removal_is_share(nodes: Seq<Node>, i: int)
    requires
        coherent(nodes),
        0 <= i < nodes.len(),
    ensures
        model::removal(nodes[i]) == model::share(nodes[i]),
{
    assert(balanced(nodes, i));
}

/// Insertion keeps a tree coherent: after the children of an attached
/// directory are added, every total is again what its subtree adds up to.
pub proof fn law_insertion_is_coherent(
    old_nodes: Seq<Node>,
    new_nodes: Seq<Node>,
    parent: int,
    entries: Seq<NewEntry>,
    exts: Seq<Seq<char>>,
)
    requires
        model::shape(old_nodes),
        coherent(old_nodes),
        0 <= parent < old_nodes.len(),
        model::attached(old_nodes, parent),
        old_nodes[parent].kind == Kind::Dir,
        old_nodes.len() + entries.len() <= u32::MAX,
        forall|a: int|
            0 <= a < old_nodes.len() && #[trigger] model::above(old_nodes, a, parent) ==> model::tally(old_nodes[a]).plus(
                model::weigh(entries),
            ).fits(),
        model::grown(old_nodes, new_nodes, parent, entries, exts),
    ensures
        coherent(new_nodes),
{
    let w = model::weigh(entries);
    let m = old_nodes.len() as int;
    model::lemma_weigh_part(entries, entries.len() as int);
    assert(entries.take(entries.len() as int) =~= entries);
    assert forall|a: int| 0 <= a < m && #[trigger] model::above(old_nodes, a, parent) implies model::tally(new_nodes[a])
        == model::tally(old_nodes[a]).plus(w) && model::own(new_nodes[a]) == model::own(old_nodes[a]) && new_nodes[a].kind
        == old_nodes[a].kind by {
        assert(model::tally(old_nodes[a]).plus(w).fits());
    }
    assert forall|i: int| 0 <= i < new_nodes.len() implies #[trigger] balanced(new_nodes, i) by {
        if i >= m {
            assert(model::fresh(
                new_nodes[m + (i - m)],
                parent as u32,
                model::below(old_nodes[parent].depth),
                entries[i - m],
                new_nodes[m + (i - m)].ext,
            ));
        } else {
            assert(balanced(old_nodes, i));
            let kids = old_nodes[i].children@;
            if i == parent {
                assert(model::above(old_nodes, parent, parent));
                assert forall|k: int| 0 <= k < kids.len() implies model::share(old_nodes[(#[trigger] kids[k]) as int])
                    == model::share(new_nodes[kids[k] as int]) by {
                    assert(model::listed(old_nodes, i, old_nodes[i].children@[k]));
                    if model::above(old_nodes, kids[k] as int, parent) {
                        model::lemma_above_bounds(old_nodes, kids[k] as int, parent);
                    }
                }
                lemma_shares_same(old_nodes, new_nodes, kids);
                lemma_settled_shares(new_nodes, m, parent, model::below(old_nodes[parent].depth), entries, exts);
                lemma_shares_concat(new_nodes, kids, model::id_range(m, entries.len()));
            } else if model::above(old_nodes, i, parent) {
                model::lemma_above_bounds(old_nodes, i, parent);
                let c = lemma_path_child(old_nodes, i, parent);
                model::lemma_attached_above(old_nodes, c, parent);
                let pos = lemma_attached_listed(old_nodes, c);
                assert forall|k: int| 0 <= k < kids.len() && k != pos implies model::share(
                    old_nodes[(#[trigger] kids[k]) as int],
                ) == model::share(new_nodes[kids[k] as int]) by {
                    assert(model::listed(old_nodes, i, old_nodes[i].children@[k]));
                    let x = kids[k] as int;
                    assert(x != c);
                    if model::above(old_nodes, x, parent) {
                        assert(x == c);
                    }
                    if x == parent {
                        assert(model::above(old_nodes, parent, parent));
                    }
                }
                lemma_shares_changed(old_nodes, new_nodes, kids, pos, w);
            } else {
                assert forall|k: int| 0 <= k < kids.len() implies model::share(old_nodes[(#[trigger] kids[k]) as int])
                    == model::share(new_nodes[kids[k] as int]) by {
                    assert(model::listed(old_nodes, i, old_nodes[i].children@[k]));
                    let x = kids[k] as int;
                    if model::above(old_nodes, x, parent) {
                        model::lemma_above_parent(old_nodes, x, parent);
                    }
                    assert(model::above(old_nodes, parent, parent));
                }
                lemma_shares_same(old_nodes, new_nodes, kids);
            }
        }
    }
}

/// Removal keeps a tree coherent, and takes exactly the weight of the removed
/// subtree from everything above it.
pub proof fn law_removal_is_coherent(old_nodes: Seq<Node>, new_nodes: Seq<Node>, id: int)
    requires
        model::shape(old_nodes),
        coherent(old_nodes),
        1 <= id < old_nodes.len(),
        model::attached(old_nodes, id),
        model::uprooted(old_nodes, new_nodes, id),
    ensures
        coherent(new_nodes),
        forall|a: int|
            0 <= a < id && #[trigger] model::above(old_nodes, a, id) ==> model::tally(new_nodes[a]) == model::tally(
                old_nodes[a],
            ).minus(model::share(old_nodes[id])),
{
    let parent = old_nodes[id].parent as int;
    let d = model::share(old_nodes[id]);
    let less_d = Tally::zero().minus(d);
    lemma_removal_is_share(old_nodes, id);
    assert(old_nodes[id].parent < id);
    assert forall|a: int| 0 <= a < id && #[trigger] model::above(old_nodes, a, id) implies model::tally(new_nodes[a])
        == model::tally(old_nodes[a]).minus(d) && model::own(new_nodes[a]) == model::own(old_nodes[a]) && new_nodes[a].kind
        == old_nodes[a].kind by {
        assert(model::above(old_nodes, a, parent));
        law_ancestors_cover(old_nodes, a, id);
    }
    assert forall|i: int| 0 <= i < new_nodes.len() implies #[trigger] balanced(new_nodes, i) by {
        assert(balanced(old_nodes, i));
        let kids = old_nodes[i].children@;
        if i == parent {
            assert(model::above(old_nodes, parent, parent));
            assert(model::above(old_nodes, parent, id));
            let pos = lemma_attached_listed(old_nodes, id);
            assert(old_nodes[parent].children@.no_duplicates());
            model::lemma_without_at(kids, id as u32, pos);
            lemma_shares_remove(old_nodes, kids, pos);
            let rest = kids.remove(pos);
            assert forall|k: int| 0 <= k < rest.len() implies model::share(old_nodes[(#[trigger] rest[k]) as int])
                == model::share(new_nodes[rest[k] as int]) by {
                let j = if k < pos { k } else { k + 1 };
                assert(rest[k] == kids[j]);
                assert(model::listed(old_nodes, i, old_nodes[i].children@[j]));
                if model::above(old_nodes, rest[k] as int, parent) {
                    model::lemma_above_bounds(old_nodes, rest[k] as int, parent);
                }
            }
            lemma_shares_same(old_nodes, new_nodes, rest);
        } else if i == id {
            assert forall|k: int| 0 <= k < kids.len() implies model::share(old_nodes[(#[trigger] kids[k]) as int])
                == model::share(new_nodes[kids[k] as int]) by {
                assert(model::listed(old_nodes, i, old_nodes[i].children@[k]));
                if model::above(old_nodes, kids[k] as int, parent) {
                    model::lemma_above_bounds(old_nodes, kids[k] as int, parent);
                }
            }
            lemma_shares_same(old_nodes, new_nodes, kids);
        } else if model::above(old_nodes, i, parent) {
            model::lemma_above_bounds(old_nodes, i, parent);
            assert(model::above(old_nodes, i, id));
            let c = lemma_path_child(old_nodes, i, parent);
            assert(model::attached(old_nodes, parent));
            model::lemma_attached_above(old_nodes, c, parent);
            let pos = lemma_attached_listed(old_nodes, c);
            assert forall|k: int| 0 <= k < kids.len() && k != pos implies model::share(
                old_nodes[(#[trigger] kids[k]) as int],
            ) == model::share(new_nodes[kids[k] as int]) by {
                assert(model::listed(old_nodes, i, old_nodes[i].children@[k]));
                let x = kids[k] as int;
                assert(x != c);
                if model::above(old_nodes, x, parent) {
                    assert(x == c);
                }
                if x == parent {
                    assert(model::above(old_nodes, parent, parent));
                }
            }
            assert(model::above(old_nodes, c, id));
            lemma_shares_changed(old_nodes, new_nodes, kids, pos, less_d);
        } else {
            assert forall|k: int| 0 <= k < kids.len() implies model::share(old_nodes[(#[trigger] kids[k]) as int])
                == model::share(new_nodes[kids[k] as int]) by {
                assert(model::listed(old_nodes, i, old_nodes[i].children@[k]));
                let x = kids[k] as int;
                if model::above(old_nodes, x, parent) {
                    model::lemma_above_parent(old_nodes, x, parent);
                }
                assert(model::above(old_nodes, parent, parent));
                if x == id {
                    assert(old_nodes[id].parent == i);
                }
            }
            lemma_shares_same(old_nodes, new_nodes, kids);
        }
    }
}

/// What the subtree of `i` weighs, added up entry by entry.
pub open spec fn weight(nodes: Seq<Node>, i: int) -> Tally
    decreases nodes.len() - i, nodes[i].children@.len() + 1,
{
    if 0 <= i < nodes.len() {
        model::own(nodes[i]).plus(weights(nodes, i, nodes[i].children@))
    } else {
        Tally::zero()
    }
}

/// What the subtrees of `ids`, which come after `i`, weigh.
pub open spec fn weights(nodes: Seq<Node>, i: int, ids: Seq<u32>) -> Tally
    decreases nodes.len() - i, ids.len(),
{
    if ids.len() == 0 {
        Tally::zero()
    } else {
        let c = ids.last() as int;
        weights(nodes, i, ids.drop_last()).plus(
            if 0 <= i < c < nodes.len() {
                weight(nodes, c).plus(model::one(nodes[c].kind))
            } else {
                Tally::zero()
            },
        )
    }
}

/// In a coherent tree the totals of a node are what its subtree weighs, entry
/// by entry.
pub proof fn law_totals_are_subtree_sums(nodes: Seq<Node>, i: int)
    requires
        model::shape(nodes),
        coherent(nodes),
        0 <= i < nodes.len(),
    ensures
        model::tally(nodes[i]) == weight(nodes, i),
    decreases nodes.len() - i, nodes[i].children@.len() + 1,
{
    assert(balanced(nodes, i));
    lemma_weights_are_shares(nodes, i, nodes[i].children@.len() as int);
    assert(nodes[i].children@.take(nodes[i].children@.len() as int) =~= nodes[i].children@);
}

proof fn lemma_weights_are_shares(nodes: Seq<Node>, i: int, n: int)
    requires
        model::shape(nodes),
        coherent(nodes),
        0 <= i < nodes.len(),
        0 <= n <= nodes[i].children@.len(),
    ensures
        weights(nodes, i, nodes[i].children@.take(n)) == shares(nodes, nodes[i].children@.take(n)),
    decreases nodes.len() - i, n,
{
    if n > 0 {
        let ids = nodes[i].children@.take(n);
        assert(ids.drop_last() =~= nodes[i].children@.take(n - 1));
        lemma_weights_are_shares(nodes, i, n - 1);
        assert(model::listed(nodes, i, nodes[i].children@[n - 1]));
        law_totals_are_subtree_sums(nodes, nodes[i].children@[n - 1] as int);
    }
}

/// In a coherent tree there is room on the way up to the root as soon as there
/// is room at the root.
pub proof fn law_room_at_the_root(nodes: Seq<Node>, parent: int, w: Tally)
    requires
        model::shape(nodes),
        coherent(nodes),
        0 <= parent < nodes.len(),
        model::attached(nodes, parent),
        model::tally(nodes[0]).plus(w).fits(),
    ensures
        forall|a: int|
            0 <= a < nodes.len() && #[trigger] model::above(nodes, a, parent) ==> model::tally(nodes[a]).plus(w).fits(),
{
    assert forall|a: int| 0 <= a < nodes.len() && #[trigger] model::above(nodes, a, parent) implies model::tally(
        nodes[a],
    ).plus(w).fits() by {
        if a > 0 {
            model::lemma_attached_above(nodes, a, parent);
            model::lemma_root_above(nodes, a);
            law_ancestors_cover(nodes, 0, a);
        }
    }
}

/// Coherence depends on weights, kinds and child lists alone.
pub proof fn lemma_coherent_same_weights(a: Seq<Node>, b: Seq<Node>)
    requires
        coherent(a),
        a.len() == b.len(),
        forall|k: int|
            0 <= k < a.len() ==> model::tally(#[trigger] b[k]) == model::tally(a[k]) && model::own(b[k]) == model::own(
                a[k],
            ) && b[k].kind == a[k].kind && b[k].children == a[k].children,
        model::shape(a),
    ensures
        coherent(b),
{
    assert forall|i: int| 0 <= i < b.len() implies #[trigger] balanced(b, i) by {
        assert(balanced(a, i));
        let kids = a[i].children@;
        assert forall|k: int| 0 <= k < kids.len() implies model::share(a[(#[trigger] kids[k]) as int]) == model::share(
            b[kids[k] as int],
        ) by {
            assert(model::listed(a, i, a[i].children@[k]));
        }
        lemma_shares_same(a, b, kids);
    }
}

/// A change of an attached node's own weight, carried to the root, keeps a
/// tree coherent.
pub proof fn law_reweighing_is_coherent(a: Seq<Node>, b: Seq<Node>, id: int, d: Tally)
    requires
        model::shape(a),
        coherent(a),
        0 <= id < a.len(),
        model::attached(a, id),
        a.len() == b.len(),
        forall|k: int|
            0 <= k < a.len() ==> (#[trigger] b[k]).kind == a[k].kind && b[k].children == a[k].children && model::tally(b[k])
                == (if model::above(a, k, id) {
                model::tally(a[k]).plus(d)
            } else {
                model::tally(a[k])
            }) && model::own(b[k]) == (if k == id {
                model::own(a[k]).plus(d)
            } else {
                model::own(a[k])
            }),
    ensures
        coherent(b),
{
    assert forall|i: int| 0 <= i < b.len() implies #[trigger] balanced(b, i) by {
        assert(balanced(a, i));
        let kids = a[i].children@;
        if i != id && model::above(a, i, id) {
            model::lemma_above_bounds(a, i, id);
            let c = lemma_path_child(a, i, id);
            model::lemma_attached_above(a, c, id);
            let pos = lemma_attached_listed(a, c);
            assert forall|k: int| 0 <= k < kids.len() && k != pos implies model::share(a[(#[trigger] kids[k]) as int])
                == model::share(b[kids[k] as int]) by {
                assert(model::listed(a, i, a[i].children@[k]));
                if model::above(a, kids[k] as int, id) {
                    assert(kids[k] as int == c);
                }
            }
            assert(model::share(b[kids[pos] as int]) == model::share(a[kids[pos] as int]).plus(d));
            lemma_shares_changed(a, b, kids, pos, d);
        } else {
            assert forall|k: int| 0 <= k < kids.len() implies model::share(a[(#[trigger] kids[k]) as int])
                == model::share(b[kids[k] as int]) by {
                assert(model::listed(a, i, a[i].children@[k]));
                let x = kids[k] as int;
                if model::above(a, x, id) {
                    model::lemma_above_bounds(a, x, id);
                    model::lemma_above_parent(a, x, id);
                }
            }
            lemma_shares_same(a, b, kids);
        }
    }
}

} // verus!
