//! A nested slice of the tree for the treemap, bounded in depth, width and
//! total size.

pub mod laws;

use vstd::prelude::*;

use crate::order;
use crate::order::Ranking;
use crate::tree::listing;
use crate::tree::model;
use crate::tree::Kind;
use crate::tree::Node;
use crate::tree::Tree;

verus! {

pub struct SubtreeNode {
    pub id: u32,
    pub name: String,
    pub kind: Kind,
    pub size: u64,
    pub alloc: u64,
    pub mtime: i64,
    pub children: Vec<SubtreeNode>,
}

/// What every node weighs in a slice: bytes, and bytes on disk.
pub trait Weighing {
    spec fn weights(&self) -> Seq<(u64, u64)>;

    fn at(&self, i: u32) -> (r: (u64, u64))
        requires
            i < self.weights().len(),
        ensures
            r == self.weights()[i as int],
    ;
}

/// The nodes of a slice, as a tree of ids.
pub struct Slice {
    pub id: u32,
    pub children: Seq<Slice>,
}

/// The weight that `by_alloc` selects.
pub open spec fn pick(w: (u64, u64), by_alloc: bool) -> u64 {
    if by_alloc {
        w.1
    } else {
        w.0
    }
}

/// `a` weighs more than `b`, or the same and is older.
pub open spec fn heavier(w: Seq<(u64, u64)>, by_alloc: bool, a: u32, b: u32) -> bool {
    let x = pick(w[a as int], by_alloc);
    let y = pick(w[b as int], by_alloc);
    x > y || (x == y && a <= b)
}

pub open spec fn weight_order(w: Seq<(u64, u64)>, by_alloc: bool) -> spec_fn(u32, u32) -> bool {
    |a: u32, b: u32| heavier(w, by_alloc, a, b)
}

/// The `limit` heaviest children of `id`.
pub open spec fn top(nodes: Seq<Node>, w: Seq<(u64, u64)>, id: u32, by_alloc: bool, limit: usize) -> Seq<u32> {
    let ids = nodes[id as int].children@.sort_by(weight_order(w, by_alloc));
    ids.take(listing::cut(ids.len(), limit))
}

/// The slice below `id`, and what is left of the budget: at most `depth`
/// levels, on each the `limit` heaviest entries, depth first, for as long as
/// entries weigh anything and the budget lasts.
pub open spec fn slice(
    nodes: Seq<Node>,
    w: Seq<(u64, u64)>,
    id: u32,
    by_alloc: bool,
    depth: nat,
    limit: usize,
    budget: nat,
) -> (Slice, nat)
    decreases depth, 0int, 0nat,
{
    if nodes[id as int].kind != Kind::Dir || depth == 0 || budget == 0 {
        (Slice { id, children: Seq::empty() }, budget)
    } else {
        let below = slices(nodes, w, top(nodes, w, id, by_alloc, limit), by_alloc, (depth - 1) as nat, limit, budget);
        (Slice { id, children: below.0 }, below.1)
    }
}

/// The slices of `ids`, one after the other, and what is left of the budget.
pub open spec fn slices(
    nodes: Seq<Node>,
    w: Seq<(u64, u64)>,
    ids: Seq<u32>,
    by_alloc: bool,
    depth: nat,
    limit: usize,
    budget: nat,
) -> (Seq<Slice>, nat)
    decreases depth, 1int, ids.len(),
{
    if ids.len() == 0 || budget == 0 || pick(w[ids[0] as int], by_alloc) == 0 {
        (Seq::empty(), budget)
    } else {
        let first = slice(nodes, w, ids[0], by_alloc, depth, limit, (budget - 1) as nat);
        let rest = slices(nodes, w, ids.drop_first(), by_alloc, depth, limit, first.1);
        (seq![first.0] + rest.0, rest.1)
    }
}

/// `n` shows the slice `s`.
pub open spec fn pictures(nodes: Seq<Node>, w: Seq<(u64, u64)>, n: SubtreeNode, s: Slice) -> bool
    decreases s,
{
    &&& n.id == s.id
    &&& n.name == nodes[s.id as int].name
    &&& n.kind == nodes[s.id as int].kind
    &&& n.size == w[s.id as int].0
    &&& n.alloc == w[s.id as int].1
    &&& n.mtime == nodes[s.id as int].mtime
    &&& n.children@.len() == s.children.len()
    &&& forall|k: int| 0 <= k < s.children.len() ==> pictures(nodes, w, n.children@[k], #[trigger] s.children[k])
}

/// The totals recorded in the nodes.
pub open spec fn totals(nodes: Seq<Node>) -> Seq<(u64, u64)> {
    nodes.map_values(|n: Node| (n.total_size, n.total_alloc))
}

/// Weighs nodes by their totals.
struct Totals<'a> {
    nodes: &'a Vec<Node>,
}

impl<'a> Weighing for Totals<'a> {
    closed spec fn weights(&self) -> Seq<(u64, u64)> {
        totals(self.nodes@)
    }

    fn at(&self, i: u32) -> (u64, u64) {
        let n = &self.nodes[i as usize];
        (n.total_size, n.total_alloc)
    }
}

pub proof fn lemma_weight_order(w: Seq<(u64, u64)>, by_alloc: bool)
    ensures
        vstd::relations::total_ordering(weight_order(w, by_alloc)),
{
}

/// Ranks nodes by weight.
struct WeightOrder<'a, W: Weighing> {
    weighing: &'a W,
    by_alloc: bool,
}

impl<'a, W: Weighing> WeightOrder<'a, W> {
    fn pick(&self, i: u32) -> (r: u64)
        requires
            i < self.weighing.weights().len(),
        ensures
            r == pick(self.weighing.weights()[i as int], self.by_alloc),
    {
        let w = self.weighing.at(i);
        if self.by_alloc {
            w.1
        } else {
            w.0
        }
    }
}

impl<'a, W: Weighing> Ranking<u32> for WeightOrder<'a, W> {
    closed spec fn order(&self) -> spec_fn(u32, u32) -> bool {
        weight_order(self.weighing.weights(), self.by_alloc)
    }

    closed spec fn covers(&self, x: u32) -> bool {
        x < self.weighing.weights().len()
    }

    proof fn order_is_total(&self) {
        lemma_weight_order(self.weighing.weights(), self.by_alloc);
    }

    fn leads(&self, a: &u32, b: &u32) -> bool {
        let x: u64 = self.pick(*a);
        let y: u64 = self.pick(*b);
        x > y || (x == y && *a <= *b)
    }
}

impl Tree {
    /// A nested slice of the tree for the treemap: at most `depth` levels, the
    /// `limit` biggest entries per level, and never more than `budget` nodes in
    /// total so a pathological directory cannot blow up the response.
    pub fn subtree(&self, id: u32, by_alloc: bool, depth: u16, limit: usize, budget: &mut usize) -> (r: Option<SubtreeNode>)
        requires
            self.wf(),
        ensures
            match r {
                Some(n) => self.reaches(id) && {
                    let s = slice(
                        self.nodes@,
                        totals(self.nodes@),
                        id,
                        by_alloc,
                        depth as nat,
                        limit,
                        *old(budget) as nat,
                    );
                    pictures(self.nodes@, totals(self.nodes@), n, s.0) && *final(budget) == s.1
                },
                None => !self.reaches(id) && *final(budget) == *old(budget),
            },
    {
        if self.get(id).is_none() {
            return None;
        }
        let weighing = Totals { nodes: &self.nodes };
        Some(self.slice_at(&weighing, id, by_alloc, depth, limit, budget))
    }

    /// The `limit` heaviest children of `id`, heaviest first.
    fn top_children<W: Weighing>(&self, weighing: &W, id: u32, by_alloc: bool, limit: usize) -> (ids: Vec<u32>)
        requires
            self.wf(),
            self.holds(id),
            weighing.weights().len() == self.nodes@.len(),
        ensures
            ids@ == top(self.nodes@, weighing.weights(), id, by_alloc, limit),
            forall|k: int| 0 <= k < ids@.len() ==> #[trigger] ids@[k] < self.nodes@.len(),
    {
        let ghost kids = self.nodes@[id as int].children@;
        let list = listing::copied_ids(&self.nodes[id as usize].children);
        let ranking = WeightOrder { weighing, by_alloc };
        proof {
            assert forall|k: int| 0 <= k < list@.len() implies ranking.covers(#[trigger] list@[k]) by {
                assert(model::listed(self.nodes@, id as int, self.nodes@[id as int].children@[k]));
            }
        }
        let mut list = order::rank(&ranking, list);
        let ghost ranked = list@;
        proof {
            lemma_weight_order(weighing.weights(), by_alloc);
            order::law_ranking_is_unique(kids, list@, ranking.order());
            order::lemma_same_items(kids, list@);
            assert forall|k: int| 0 <= k < list@.len() implies #[trigger] list@[k] < self.nodes@.len() by {
                let j = kids.index_of(list@[k]);
                assert(kids.contains(list@[k]));
                assert(model::listed(self.nodes@, id as int, self.nodes@[id as int].children@[j]));
            }
        }
        list.truncate(limit);
        assert(list@ =~= ranked.take(listing::cut(ranked.len(), limit)));
        list
    }

    pub(crate) fn slice_at<W: Weighing>(
        &self,
        weighing: &W,
        id: u32,
        by_alloc: bool,
        depth: u16,
        limit: usize,
        budget: &mut usize,
    ) -> (n: SubtreeNode)
        requires
            self.wf(),
            self.holds(id),
            weighing.weights().len() == self.nodes@.len(),
        ensures
            ({
                let s = slice(self.nodes@, weighing.weights(), id, by_alloc, depth as nat, limit, *old(budget) as nat);
                pictures(self.nodes@, weighing.weights(), n, s.0) && *final(budget) == s.1
            }),
        decreases depth,
    {
        let ghost w = weighing.weights();
        let own: (u64, u64) = weighing.at(id);
        let mut children: Vec<SubtreeNode> = Vec::new();
        let node = &self.nodes[id as usize];
        if node.kind == Kind::Dir && depth != 0 && *budget != 0 {
            let ids = self.top_children(weighing, id, by_alloc, limit);
            let count: usize = ids.len();
            let ranking = WeightOrder { weighing, by_alloc };
            let ghost all = slices(self.nodes@, w, ids@, by_alloc, (depth - 1) as nat, limit, *budget as nat);
            let ghost mut done: Seq<Slice> = Seq::empty();
            let mut k: usize = 0;
            proof {
                assert(ids@.skip(0) =~= ids@);
                assert(done + slices(self.nodes@, w, ids@, by_alloc, (depth - 1) as nat, limit, *budget as nat).0
                    =~= all.0);
            }
            while k < count && *budget != 0
                invariant_except_break
                    done + slices(self.nodes@, w, ids@.skip(k as int), by_alloc, (depth - 1) as nat, limit, *budget as nat).0
                        == all.0,
                    slices(self.nodes@, w, ids@.skip(k as int), by_alloc, (depth - 1) as nat, limit, *budget as nat).1
                        == all.1,
                invariant
                    self.wf(),
                    w == weighing.weights(),
                    w.len() == self.nodes@.len(),
                    ranking.weighing == weighing,
                    ranking.by_alloc == by_alloc,
                    depth > 0,
                    k <= count,
                    count == ids@.len(),
                    forall|j: int| 0 <= j < ids@.len() ==> #[trigger] ids@[j] < self.nodes@.len(),
                    children@.len() == done.len(),
                    forall|j: int| 0 <= j < done.len() ==> pictures(self.nodes@, w, children@[j], #[trigger] done[j]),
                ensures
                    done == all.0,
                    *budget == all.1,
                decreases count - k,
            {
                let child: u32 = ids[k];
                let ghost rest = ids@.skip(k as int);
                proof {
                    assert(rest[0] == child);
                    assert(rest.drop_first() =~= ids@.skip(k + 1));
                }
                if ranking.pick(child) == 0 {
                    assert(done + Seq::<Slice>::empty() =~= done);
                    break;
                }
                let ghost before = *budget as nat;
                *budget = *budget - 1;
                let c = self.slice_at(weighing, child, by_alloc, depth - 1, limit, budget);
                children.push(c);
                proof {
                    let first = slice(self.nodes@, w, child, by_alloc, (depth - 1) as nat, limit, (before - 1) as nat);
                    let more = slices(self.nodes@, w, ids@.skip(k + 1), by_alloc, (depth - 1) as nat, limit, first.1);
                    assert(done + (seq![first.0] + more.0) =~= done.push(first.0) + more.0);
                    done = done.push(first.0);
                }
                k = k + 1;
            }
        }
        SubtreeNode {
            id,
            name: node.name.clone(),
            kind: node.kind,
            size: own.0,
            alloc: own.1,
            mtime: node.mtime,
            children,
        }
    }
}

/// How many nodes a slice holds below its root.
pub open spec fn population(s: Slice) -> nat
    decreases s,
{
    populations(s.children)
}

pub open spec fn populations(v: Seq<Slice>) -> nat
    decreases v,
{
    if v.len() == 0 {
        0
    } else {
        1 + population(v[0]) + populations(v.subrange(1, v.len() as int))
    }
}

/// A slice has at most `depth` levels below its root, each list in it has at
/// most `limit` entries, and every entry weighs something.
pub open spec fn within(s: Slice, w: Seq<(u64, u64)>, by_alloc: bool, depth: nat, limit: usize) -> bool
    decreases s,
{
    &&& depth == 0 ==> s.children.len() == 0
    &&& s.children.len() <= limit
    &&& forall|k: int| 0 <= k < s.children.len() ==> pick(w[(#[trigger] s.children[k]).id as int], by_alloc) > 0
    &&& forall|k: int|
        0 <= k < s.children.len() ==> within(#[trigger] s.children[k], w, by_alloc, (depth - 1) as nat, limit)
}

/// A slice never has more levels, wider lists or more nodes than asked for:
/// what it holds and what is left of the budget add up to the budget.
pub proof fn law_slice_is_bounded(
    nodes: Seq<Node>,
    w: Seq<(u64, u64)>,
    id: u32,
    by_alloc: bool,
    depth: nat,
    limit: usize,
    budget: nat,
)
    ensures
        ({
            let s = slice(nodes, w, id, by_alloc, depth, limit, budget);
            &&& s.0.id == id
            &&& population(s.0) + s.1 == budget
            &&& within(s.0, w, by_alloc, depth, limit)
        }),
    decreases depth, 0int, 0nat,
{
    if nodes[id as int].kind != Kind::Dir || depth == 0 || budget == 0 {
    } else {
        let ids = top(nodes, w, id, by_alloc, limit);
        lemma_slices_bounded(nodes, w, ids, by_alloc, (depth - 1) as nat, limit, budget);
    }
}

proof fn lemma_slices_bounded(
    nodes: Seq<Node>,
    w: Seq<(u64, u64)>,
    ids: Seq<u32>,
    by_alloc: bool,
    depth: nat,
    limit: usize,
    budget: nat,
)
    ensures
        ({
            let s = slices(nodes, w, ids, by_alloc, depth, limit, budget);
            &&& populations(s.0) + s.1 == budget
            &&& s.0.len() <= ids.len()
            &&& forall|k: int|
                0 <= k < s.0.len() ==> (#[trigger] s.0[k]).id == ids[k] && pick(w[s.0[k].id as int], by_alloc) > 0 && within(
                    s.0[k],
                    w,
                    by_alloc,
                    depth,
                    limit,
                )
        }),
    decreases depth, 1int, ids.len(),
{
    if ids.len() == 0 || budget == 0 || pick(w[ids[0] as int], by_alloc) == 0 {
    } else {
        let first = slice(nodes, w, ids[0], by_alloc, depth, limit, (budget - 1) as nat);
        let rest = slices(nodes, w, ids.drop_first(), by_alloc, depth, limit, first.1);
        law_slice_is_bounded(nodes, w, ids[0], by_alloc, depth, limit, (budget - 1) as nat);
        lemma_slices_bounded(nodes, w, ids.drop_first(), by_alloc, depth, limit, first.1);
        let s = seq![first.0] + rest.0;
        assert(s.subrange(1, s.len() as int) =~= rest.0);
        assert(s[0] == first.0);
        assert forall|k: int| 0 <= k < s.len() implies (#[trigger] s[k]).id == ids[k] && pick(w[s[k].id as int], by_alloc) > 0
            && within(s[k], w, by_alloc, depth, limit) by {
            if k > 0 {
                assert(s[k] == rest.0[k - 1]);
                assert(ids.drop_first()[k - 1] == ids[k]);
            }
        }
    }
}

} // verus!
