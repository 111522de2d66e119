//! The children of a directory, ranked and cut off.

pub mod laws;

use vstd::prelude::*;

use crate::order;
use crate::order::Ranking;
use crate::tree::aggregate;
use crate::tree::model;
use crate::tree::paths;
use crate::tree::paths::Entry;
use crate::tree::Node;
use crate::tree::Tree;

verus! {

/// What a listing can be sorted by.
#[derive(Clone, Copy, PartialEq, Eq, Debug, Structural)]
pub enum SortKey {
    Size,
    Name,
    Mtime,
    Count,
}

pub struct Rollup {
    pub count: u64,
    pub size: u64,
    pub alloc: u64,
}

impl Default for Rollup {
    fn default() -> (r: Self)
        ensures
            r == (Rollup { count: 0, size: 0, alloc: 0 }),
    {
        Rollup { count: 0, size: 0, alloc: 0 }
    }
}

pub struct ChildrenView {
    pub children: Vec<Entry>,
    pub other: Rollup,
}

/// The total that `by_alloc` selects.
pub open spec fn metric(n: Node, by_alloc: bool) -> u64 {
    if by_alloc {
        n.total_alloc
    } else {
        n.total_size
    }
}

/// The bytes of the name of node `i`.
pub open spec fn name_bytes(nodes: Seq<Node>, i: u32) -> Seq<u8> {
    vstd::utf8::encode_utf8(nodes[i as int].name@)
}

/// Names in byte order; of equal names, the older node first.
pub open spec fn name_leq(nodes: Seq<Node>, a: u32, b: u32) -> bool {
    if name_bytes(nodes, a) == name_bytes(nodes, b) {
        a <= b
    } else {
        order::lex_leq(name_bytes(nodes, a), name_bytes(nodes, b))
    }
}

/// The sort key of `a` is at most that of `b`.
pub open spec fn key_leq(nodes: Seq<Node>, by_alloc: bool, key: SortKey, a: u32, b: u32) -> bool {
    match key {
        SortKey::Size => metric(nodes[a as int], by_alloc) <= metric(nodes[b as int], by_alloc),
        SortKey::Name => order::lex_leq(name_bytes(nodes, a), name_bytes(nodes, b)),
        SortKey::Mtime => nodes[a as int].mtime <= nodes[b as int].mtime,
        SortKey::Count => nodes[a as int].files <= nodes[b as int].files,
    }
}

/// `a` is listed before `b`: by the sort key, descending unless `asc`, and
/// among equals by name.
pub open spec fn listed_first(nodes: Seq<Node>, by_alloc: bool, key: SortKey, asc: bool, a: u32, b: u32) -> bool {
    let up = key_leq(nodes, by_alloc, key, a, b);
    let down = key_leq(nodes, by_alloc, key, b, a);
    if up && down {
        name_leq(nodes, a, b)
    } else if asc {
        up
    } else {
        down
    }
}

pub open spec fn list_order(nodes: Seq<Node>, by_alloc: bool, key: SortKey, asc: bool) -> spec_fn(u32, u32) -> bool {
    |a: u32, b: u32| listed_first(nodes, by_alloc, key, asc, a, b)
}

/// The children of `id` in listing order.
pub open spec fn ranked_children(nodes: Seq<Node>, id: int, by_alloc: bool, key: SortKey, asc: bool) -> Seq<u32> {
    nodes[id].children@.sort_by(list_order(nodes, by_alloc, key, asc))
}

/// `n` or `limit`, whichever is less.
pub open spec fn cut(n: nat, limit: usize) -> int {
    if n <= limit {
        n as int
    } else {
        limit as int
    }
}

/// The totals of these nodes can be summed up.
pub open spec fn sums_fit(nodes: Seq<Node>, ids: Seq<u32>) -> bool {
    aggregate::shares(nodes, ids).size <= u64::MAX && aggregate::shares(nodes, ids).alloc <= u64::MAX
}

/// `v` lists the first `limit` of `ids` and sums up the rest.
pub open spec fn lists(t: Tree, v: ChildrenView, ids: Seq<u32>, limit: usize) -> bool {
    let n = cut(ids.len(), limit);
    let tail = ids.skip(n);
    &&& v.children@.len() == n
    &&& forall|k: int| 0 <= k < n ==> paths::shows(t, #[trigger] v.children@[k], ids[k])
    &&& v.other.count == tail.len()
    &&& v.other.size == aggregate::shares(t.nodes@, tail).size
    &&& v.other.alloc == aggregate::shares(t.nodes@, tail).alloc
}

proof fn lemma_name_order(nodes: Seq<Node>, a: u32, b: u32, c: u32)
    ensures
        name_leq(nodes, a, b) || name_leq(nodes, b, a),
        name_leq(nodes, a, b) && name_leq(nodes, b, a) ==> a == b,
        name_leq(nodes, a, b) && name_leq(nodes, b, c) ==> name_leq(nodes, a, c),
{
    let x = name_bytes(nodes, a);
    let y = name_bytes(nodes, b);
    let z = name_bytes(nodes, c);
    order::lemma_lex_total(x, y);
    order::lemma_lex_total(y, z);
    order::lemma_lex_total(x, z);
    if order::lex_leq(x, y) && order::lex_leq(y, z) {
        order::lemma_lex_transitive(x, y, z);
    }
}

proof fn lemma_key_order(nodes: Seq<Node>, by_alloc: bool, key: SortKey, a: u32, b: u32, c: u32)
    ensures
        key_leq(nodes, by_alloc, key, a, b) || key_leq(nodes, by_alloc, key, b, a),
        key_leq(nodes, by_alloc, key, a, b) && key_leq(nodes, by_alloc, key, b, c) ==> key_leq(nodes, by_alloc, key, a, c),
{
    let x = name_bytes(nodes, a);
    let y = name_bytes(nodes, b);
    let z = name_bytes(nodes, c);
    order::lemma_lex_total(x, y);
    if order::lex_leq(x, y) && order::lex_leq(y, z) {
        order::lemma_lex_transitive(x, y, z);
    }
}

/// No two nodes tie in a listing.
pub proof fn lemma_list_order(nodes: Seq<Node>, by_alloc: bool, key: SortKey, asc: bool)
    ensures
        vstd::relations::total_ordering(list_order(nodes, by_alloc, key, asc)),
{
    let leq = list_order(nodes, by_alloc, key, asc);
    assert forall|a: u32, b: u32| #[trigger] leq(a, b) || leq(b, a) by {
        lemma_key_order(nodes, by_alloc, key, a, b, a);
        lemma_name_order(nodes, a, b, a);
    }
    assert forall|a: u32, b: u32| #[trigger] leq(a, b) && #[trigger] leq(b, a) implies a == b by {
        lemma_key_order(nodes, by_alloc, key, a, b, a);
        lemma_name_order(nodes, a, b, a);
    }
    assert forall|a: u32, b: u32, c: u32| #[trigger] leq(a, b) && #[trigger] leq(b, c) implies leq(a, c) by {
        lemma_key_order(nodes, by_alloc, key, a, b, c);
        lemma_key_order(nodes, by_alloc, key, c, b, a);
        lemma_key_order(nodes, by_alloc, key, b, c, a);
        lemma_key_order(nodes, by_alloc, key, c, a, b);
        lemma_key_order(nodes, by_alloc, key, a, c, b);
        lemma_key_order(nodes, by_alloc, key, b, a, c);
        lemma_name_order(nodes, a, b, c);
    }
    assert forall|a: u32| #[trigger] leq(a, a) by {
        assert(leq(a, a) || leq(a, a));
    }
}

/// Ranks nodes for a listing.
struct ListOrder<'a> {
    nodes: &'a Vec<Node>,
    by_alloc: bool,
    key: SortKey,
    asc: bool,
}

impl<'a> ListOrder<'a> {
    fn key_at_most(&self, a: u32, b: u32) -> (r: bool)
        requires
            a < self.nodes@.len(),
            b < self.nodes@.len(),
        ensures
            r == key_leq(self.nodes@, self.by_alloc, self.key, a, b),
    {
        let x = &self.nodes[a as usize];
        let y = &self.nodes[b as usize];
        match self.key {
            SortKey::Size => x.metric(self.by_alloc) <= y.metric(self.by_alloc),
            SortKey::Name => order::bytes_leq(x.name.as_str().as_bytes(), y.name.as_str().as_bytes()),
            SortKey::Mtime => x.mtime <= y.mtime,
            SortKey::Count => x.files <= y.files,
        }
    }
}

/// Whether the name of `a` stands before that of `b`.
pub(crate) fn name_at_most(nodes: &Vec<Node>, a: u32, b: u32) -> (r: bool)
    requires
        a < nodes@.len(),
        b < nodes@.len(),
    ensures
        r == name_leq(nodes@, a, b),
{
    let x = nodes[a as usize].name.as_str().as_bytes();
    let y = nodes[b as usize].name.as_str().as_bytes();
    proof {
        order::lemma_lex_total(x@, y@);
    }
    let up = order::bytes_leq(x, y);
    let down = order::bytes_leq(y, x);
    if up && down {
        a <= b
    } else {
        up
    }
}

impl<'a> Ranking<u32> for ListOrder<'a> {
    closed spec fn order(&self) -> spec_fn(u32, u32) -> bool {
        list_order(self.nodes@, self.by_alloc, self.key, self.asc)
    }

    closed spec fn covers(&self, x: u32) -> bool {
        x < self.nodes@.len()
    }

    proof fn order_is_total(&self) {
        lemma_list_order(self.nodes@, self.by_alloc, self.key, self.asc);
    }

    fn leads(&self, a: &u32, b: &u32) -> bool {
        let up = self.key_at_most(*a, *b);
        let down = self.key_at_most(*b, *a);
        if up && down {
            name_at_most(self.nodes, *a, *b)
        } else if self.asc {
            up
        } else {
            down
        }
    }
}

impl Node {
    /// The total that `by_alloc` selects.
    pub fn metric(&self, by_alloc: bool) -> (r: u64)
        ensures
            r == metric(*self, by_alloc),
    {
        if by_alloc {
            self.total_alloc
        } else {
            self.total_size
        }
    }
}

/// A list of ids, copied.
pub(crate) fn copied_ids(ids: &Vec<u32>) -> (r: Vec<u32>)
    ensures
        r@ == ids@,
{
    let mut out: Vec<u32> = Vec::new();
    let mut i: usize = 0;
    while i < ids.len()
        invariant
            i <= ids@.len(),
            out@ == ids@.take(i as int),
        decreases ids.len() - i,
    {
        out.push(ids[i]);
        i = i + 1;
        assert(ids@.take(i as int) =~= ids@.take(i - 1).push(ids@[i - 1]));
    }
    assert(ids@.take(i as int) =~= ids@);
    out
}

impl Tree {
    /// `ids` in listing order.
    pub(crate) fn ranked(&self, ids: Vec<u32>, by_alloc: bool, key: SortKey, asc: bool) -> (r: Vec<u32>)
        requires
            forall|k: int| 0 <= k < ids@.len() ==> #[trigger] ids@[k] < self.nodes@.len(),
        ensures
            r@ == ids@.sort_by(list_order(self.nodes@, by_alloc, key, asc)),
            r@.to_multiset() == ids@.to_multiset(),
            forall|k: int| 0 <= k < r@.len() ==> #[trigger] r@[k] < self.nodes@.len(),
    {
        let ghost all = ids@;
        let ranking = ListOrder { nodes: &self.nodes, by_alloc, key, asc };
        assert(forall|k: int| 0 <= k < ids@.len() ==> ranking.covers(#[trigger] ids@[k]));
        let r = order::rank(&ranking, ids);
        proof {
            lemma_list_order(self.nodes@, by_alloc, key, asc);
            order::law_ranking_is_unique(all, r@, ranking.order());
            order::lemma_same_items(all, r@);
            assert forall|k: int| 0 <= k < r@.len() implies #[trigger] r@[k] < self.nodes@.len() by {
                assert(all.contains(r@[k]));
            }
        }
        r
    }

    /// Direct children of `id`, largest first, capped at `limit`. Anything past
    /// the cap is folded into `other` so the UI never has to render 50k rows.
    pub fn children_view(&self, id: u32, by_alloc: bool, limit: usize) -> (r: Option<ChildrenView>)
        requires
            self.wf(),
            self.reaches(id) ==> sums_fit(self.nodes@, self.nodes@[id as int].children@),
        ensures
            match r {
                Some(v) => self.reaches(id) && lists(
                    *self,
                    v,
                    ranked_children(self.nodes@, id as int, by_alloc, SortKey::Size, false),
                    limit,
                ),
                None => !self.reaches(id),
            },
    {
        self.children_sorted(id, by_alloc, SortKey::Size, false, limit)
    }

    /// Direct children of `id` sorted by `key`, descending unless `asc`, capped
    /// at `limit` with the rest summed up.
    pub fn children_sorted(&self, id: u32, by_alloc: bool, key: SortKey, asc: bool, limit: usize) -> (r: Option<ChildrenView>)
        requires
            self.wf(),
            self.reaches(id) ==> sums_fit(self.nodes@, self.nodes@[id as int].children@),
        ensures
            match r {
                Some(v) => self.reaches(id) && lists(
                    *self,
                    v,
                    ranked_children(self.nodes@, id as int, by_alloc, key, asc),
                    limit,
                ),
                None => !self.reaches(id),
            },
    {
        let node = match self.get(id) {
            Some(n) => n,
            None => {
                return None;
            },
        };
        let ghost kids = node.children@;
        let ghost ids = ranked_children(self.nodes@, id as int, by_alloc, key, asc);
        let list = copied_ids(&node.children);
        proof {
            assert forall|k: int| 0 <= k < list@.len() implies #[trigger] list@[k] < self.nodes@.len() by {
                assert(model::listed(self.nodes@, id as int, self.nodes@[id as int].children@[k]));
            }
        }
        let list = self.ranked(list, by_alloc, key, asc);
        proof {
            aggregate::lemma_shares_permuted(self.nodes@, kids, list@);
        }
        let count: usize = list.len();
        let shown: usize = if count <= limit {
            count
        } else {
            limit
        };
        let mut children: Vec<Entry> = Vec::new();
        let mut k: usize = 0;
        while k < shown
            invariant
                k <= shown <= list@.len(),
                children@.len() == k,
                forall|j: int| 0 <= j < list@.len() ==> #[trigger] list@[j] < self.nodes@.len(),
                forall|j: int| 0 <= j < k ==> paths::shows(*self, #[trigger] children@[j], list@[j]),
            decreases shown - k,
        {
            children.push(self.entry_of(list[k]));
            k = k + 1;
        }
        let mut other = Rollup::default();
        proof {
            assert(list@.subrange(shown as int, k as int) =~= Seq::<u32>::empty());
        }
        while k < count
            invariant
                shown <= k <= count,
                count == list@.len(),
                forall|j: int| 0 <= j < list@.len() ==> #[trigger] list@[j] < self.nodes@.len(),
                sums_fit(self.nodes@, list@),
                other.count == k - shown,
                other.size == aggregate::shares(self.nodes@, list@.subrange(shown as int, k as int)).size,
                other.alloc == aggregate::shares(self.nodes@, list@.subrange(shown as int, k as int)).alloc,
            decreases count - k,
        {
            let n = &self.nodes[list[k] as usize];
            proof {
                let part = list@.subrange(shown as int, k + 1);
                assert(part.drop_last() =~= list@.subrange(shown as int, k as int));
                assert(part.last() == list@[k as int]);
                let head = list@.take(shown as int);
                let rest = list@.skip(k + 1);
                assert(list@ =~= head + part + rest);
                aggregate::lemma_shares_concat(self.nodes@, head + part, rest);
                aggregate::lemma_shares_concat(self.nodes@, head, part);
                aggregate::lemma_shares_nonneg(self.nodes@, head);
                aggregate::lemma_shares_nonneg(self.nodes@, rest);
            }
            other.count = other.count + 1;
            other.size = other.size + n.total_size;
            other.alloc = other.alloc + n.total_alloc;
            k = k + 1;
        }
        assert(list@.skip(shown as int) =~= list@.subrange(shown as int, count as int));
        Some(ChildrenView { children, other })
    }
}

/// A listing leaves nothing out: what it shows and what it sums up are all the
/// children, and together they weigh what the children weigh.
pub proof fn law_listing_is_complete(t: Tree, v: ChildrenView, id: u32, by_alloc: bool, key: SortKey, asc: bool, limit: usize)
    requires
        t.wf(),
        t.reaches(id),
        lists(t, v, ranked_children(t.nodes@, id as int, by_alloc, key, asc), limit),
    ensures
        v.children@.len() + v.other.count == t.nodes@[id as int].children@.len(),
        v.children@.len() <= limit,
        aggregate::shares(t.nodes@, v.children@.map_values(|e: Entry| e.id)).size + v.other.size == aggregate::shares(
            t.nodes@,
            t.nodes@[id as int].children@,
        ).size,
        aggregate::shares(t.nodes@, v.children@.map_values(|e: Entry| e.id)).alloc + v.other.alloc == aggregate::shares(
            t.nodes@,
            t.nodes@[id as int].children@,
        ).alloc,
        forall|i: int, j: int|
            0 <= i < j < v.children@.len() ==> listed_first(
                t.nodes@,
                by_alloc,
                key,
                asc,
                (#[trigger] v.children@[i]).id,
                (#[trigger] v.children@[j]).id,
            ),
{
    let kids = t.nodes@[id as int].children@;
    let leq = list_order(t.nodes@, by_alloc, key, asc);
    let ids = ranked_children(t.nodes@, id as int, by_alloc, key, asc);
    lemma_list_order(t.nodes@, by_alloc, key, asc);
    kids.lemma_sort_by_ensures(leq);
    order::lemma_same_items(kids, ids);
    aggregate::lemma_shares_permuted(t.nodes@, kids, ids);
    let n = cut(ids.len(), limit);
    let shown = v.children@.map_values(|e: Entry| e.id);
    assert(shown =~= ids.take(n));
    assert(ids =~= ids.take(n) + ids.skip(n));
    aggregate::lemma_shares_concat(t.nodes@, ids.take(n), ids.skip(n));
    assert forall|i: int, j: int| 0 <= i < j < v.children@.len() implies listed_first(
        t.nodes@,
        by_alloc,
        key,
        asc,
        (#[trigger] v.children@[i]).id,
        (#[trigger] v.children@[j]).id,
    ) by {
        assert(leq(ids[i], ids[j]));
    }
}

/// In a coherent tree the children of any node can be summed up.
pub proof fn law_coherent_sums_fit(t: Tree, id: u32)
    requires
        t.wf(),
        t.coherent(),
        t.holds(id),
    ensures
        sums_fit(t.nodes@, t.nodes@[id as int].children@),
{
    assert(aggregate::balanced(t.nodes@, id as int));
}

} // verus!
