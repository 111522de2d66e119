//! The treemap of what passes a filter: directories weigh what the matching
//! files below them weigh.

pub mod laws;

use vstd::prelude::*;

use crate::tree::aggregate;
use crate::tree::model;
use crate::tree::search;
use crate::tree::search::SearchFilter;
use crate::tree::search::Wanted;
use crate::tree::slice;
use crate::tree::slice::SubtreeNode;
use crate::tree::slice::Weighing;
use crate::tree::Kind;
use crate::tree::Tree;

verus! {

/// What the matching files in the subtree of `i` weigh: bytes, and bytes on
/// disk.
pub open spec fn matching(t: Tree, f: Wanted, by_alloc: bool, i: int) -> (int, int)
    decreases t.nodes@.len() - i, 1int, 0nat,
{
    let n = t.nodes@[i];
    if n.kind == Kind::Dir {
        matching_all(t, f, by_alloc, i, n.children@)
    } else if search::passes(t, f, n, by_alloc) {
        (n.total_size as int, n.total_alloc as int)
    } else {
        (0, 0)
    }
}

/// What the matching files in the subtrees of `ids` weigh. Only ids beyond
/// `after` count.
pub open spec fn matching_all(t: Tree, f: Wanted, by_alloc: bool, after: int, ids: Seq<u32>) -> (int, int)
    decreases t.nodes@.len() - after, 0int, ids.len(),
{
    if ids.len() == 0 {
        (0, 0)
    } else {
        let rest = matching_all(t, f, by_alloc, after, ids.drop_last());
        let c = ids.last() as int;
        if after < c < t.nodes@.len() {
            let m = matching(t, f, by_alloc, c);
            (rest.0 + m.0, rest.1 + m.1)
        } else {
            rest
        }
    }
}

/// The weights of all nodes under a filter.
pub open spec fn matched(t: Tree, f: Wanted, by_alloc: bool) -> Seq<(u64, u64)> {
    Seq::new(
        t.nodes@.len(),
        |i: int| (matching(t, f, by_alloc, i).0 as u64, matching(t, f, by_alloc, i).1 as u64),
    )
}

/// In a coherent tree what matches weighs no more than the whole.
pub proof fn law_matching_is_part_of_total(t: Tree, f: Wanted, by_alloc: bool, i: int)
    requires
        t.wf(),
        t.coherent(),
        0 <= i < t.nodes@.len(),
    ensures
        0 <= matching(t, f, by_alloc, i).0 <= t.nodes@[i].total_size,
        0 <= matching(t, f, by_alloc, i).1 <= t.nodes@[i].total_alloc,
    decreases t.nodes@.len() - i, 1int, 0nat,
{
    let kids = t.nodes@[i].children@;
    assert(aggregate::balanced(t.nodes@, i));
    lemma_matching_part(t, f, by_alloc, i, kids.len() as int);
    assert(kids.take(kids.len() as int) =~= kids);
}

proof fn lemma_matching_part(t: Tree, f: Wanted, by_alloc: bool, i: int, n: int)
    requires
        t.wf(),
        t.coherent(),
        0 <= i < t.nodes@.len(),
        0 <= n <= t.nodes@[i].children@.len(),
    ensures
        ({
            let ids = t.nodes@[i].children@.take(n);
            let m = matching_all(t, f, by_alloc, i, ids);
            let s = aggregate::shares(t.nodes@, ids);
            &&& 0 <= m.0 <= s.size <= aggregate::shares(t.nodes@, t.nodes@[i].children@).size
            &&& 0 <= m.1 <= s.alloc <= aggregate::shares(t.nodes@, t.nodes@[i].children@).alloc
        }),
    decreases t.nodes@.len() - i, 0int, n as nat,
{
    let kids = t.nodes@[i].children@;
    let ids = kids.take(n);
    assert(kids =~= ids + kids.skip(n));
    aggregate::lemma_shares_concat(t.nodes@, ids, kids.skip(n));
    aggregate::lemma_shares_nonneg(t.nodes@, kids.skip(n));
    if n > 0 {
        assert(ids.drop_last() =~= kids.take(n - 1));
        lemma_matching_part(t, f, by_alloc, i, n - 1);
        assert(model::listed(t.nodes@, i, t.nodes@[i].children@[n - 1]));
        law_matching_is_part_of_total(t, f, by_alloc, ids.last() as int);
    }
}

/// Weighs nodes by what matches.
struct Matches {
    weights: Vec<(u64, u64)>,
}

impl Weighing for Matches {
    closed spec fn weights(&self) -> Seq<(u64, u64)> {
        self.weights@
    }

    fn at(&self, i: u32) -> (u64, u64) {
        self.weights[i as usize]
    }
}

impl Tree {
    /// What each node weighs under a filter, one node after the other from the
    /// last to the first: children stand behind their parents.
    fn weigh_matches(&self, filter: &SearchFilter<'_>, by_alloc: bool) -> (w: Vec<(u64, u64)>)
        requires
            self.wf(),
            self.coherent(),
        ensures
            w@ == matched(*self, filter.wanted(), by_alloc),
    {
        let count: usize = self.nodes.len();
        let ghost all = matched(*self, filter.wanted(), by_alloc);
        let mut w: Vec<(u64, u64)> = Vec::new();
        let mut k: usize = 0;
        while k < count
            invariant
                k <= count,
                w@.len() == k,
            decreases count - k,
        {
            w.push((0, 0));
            k = k + 1;
        }
        let mut i: usize = count;
        while i > 0
            invariant
                self.wf(),
                self.coherent(),
                i <= count,
                count == self.nodes@.len(),
                w@.len() == count,
                all == matched(*self, filter.wanted(), by_alloc),
                forall|j: int| i <= j < count ==> #[trigger] w@[j] == all[j],
            decreases i,
        {
            i = i - 1;
            let n = &self.nodes[i];
            let mut size: u64 = 0;
            let mut alloc: u64 = 0;
            if n.kind == Kind::Dir {
                let ghost kids = n.children@;
                let mut k: usize = 0;
                assert(kids.take(0) =~= Seq::<u32>::empty());
                while k < n.children.len()
                    invariant
                        self.wf(),
                        self.coherent(),
                        i < count,
                        count == self.nodes@.len(),
                        w@.len() == count,
                        *n == self.nodes@[i as int],
                        kids == n.children@,
                        k <= kids.len(),
                        all == matched(*self, filter.wanted(), by_alloc),
                        forall|j: int| i < j < count ==> #[trigger] w@[j] == all[j],
                        size == matching_all(*self, filter.wanted(), by_alloc, i as int, kids.take(k as int)).0,
                        alloc == matching_all(*self, filter.wanted(), by_alloc, i as int, kids.take(k as int)).1,
                    decreases n.children.len() - k,
                {
                    let c: u32 = n.children[k];
                    proof {
                        assert(model::listed(self.nodes@, i as int, self.nodes@[i as int].children@[k as int]));
                        assert(kids.take(k + 1).drop_last() =~= kids.take(k as int));
                        assert(aggregate::balanced(self.nodes@, i as int));
                        lemma_matching_part(*self, filter.wanted(), by_alloc, i as int, k + 1);
                        law_matching_is_part_of_total(*self, filter.wanted(), by_alloc, c as int);
                        assert(w@[c as int] == all[c as int]);
                    }
                    let m: (u64, u64) = w[c as usize];
                    size = size + m.0;
                    alloc = alloc + m.1;
                    k = k + 1;
                }
                assert(kids.take(k as int) =~= kids);
            } else if filter.matches(self, n, by_alloc) {
                size = n.total_size;
                alloc = n.total_alloc;
            }
            w.set(i, (size, alloc));
        }
        assert(w@ =~= all);
        w
    }

    /// A nested slice of the tree, as `subtree` gives it, of the files that
    /// pass `filter`: each directory weighs what matches below it.
    pub fn filtered_subtree(
        &self,
        id: u32,
        filter: &SearchFilter<'_>,
        by_alloc: bool,
        depth: u16,
        limit: usize,
        budget: &mut usize,
    ) -> (r: Option<SubtreeNode>)
        requires
            self.wf(),
            self.coherent(),
        ensures
            match r {
                Some(n) => self.reaches(id) && {
                    let w = matched(*self, filter.wanted(), by_alloc);
                    let s = slice::slice(self.nodes@, w, id, by_alloc, depth as nat, limit, *old(budget) as nat);
                    slice::pictures(self.nodes@, w, n, s.0) && *final(budget) == s.1
                },
                None => !self.reaches(id) && *final(budget) == *old(budget),
            },
    {
        if self.get(id).is_none() {
            return None;
        }
        let weighing = Matches { weights: self.weigh_matches(filter, by_alloc) };
        Some(self.slice_at(&weighing, id, by_alloc, depth, limit, budget))
    }
}

} // verus!
