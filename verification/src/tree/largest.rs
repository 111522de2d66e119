//! The largest files of a subtree.

pub mod laws;

use vstd::prelude::*;

use crate::order;
use crate::tree::listing;
use crate::tree::paths;
use crate::tree::visit;
use crate::tree::Node;
use crate::tree::Tree;

verus! {

pub struct LargeFile {
    pub id: u32,
    pub path: String,
    pub size: u64,
    pub alloc: u64,
    pub mtime: i64,
}

/// The size of node `i` itself, on disk or apparent.
pub open spec fn value(nodes: Seq<Node>, by_alloc: bool, i: u32) -> u64 {
    if by_alloc {
        nodes[i as int].self_alloc
    } else {
        nodes[i as int].self_size
    }
}

pub open spec fn larger_first(nodes: Seq<Node>, by_alloc: bool) -> spec_fn(u32, u32) -> bool {
    |a: u32, b: u32| value(nodes, by_alloc, a) >= value(nodes, by_alloc, b)
}

pub open spec fn not_itself(id: u32) -> spec_fn(u32) -> bool {
    |i: u32| i != id
}

/// The files below `id`, `id` not included.
pub open spec fn files_below(nodes: Seq<Node>, id: u32) -> Seq<u32> {
    visit::leaves(nodes, id as int).filter(not_itself(id))
}

/// `ids` are the first `limit` of `pool`, ranked larger first. Which of two
/// files of the same size comes first is left open.
pub open spec fn largest_of(nodes: Seq<Node>, by_alloc: bool, pool: Seq<u32>, limit: usize, ids: Seq<u32>) -> bool {
    exists|ranked: Seq<u32>|
        {
            &&& #[trigger] ranked.to_multiset() == pool.to_multiset()
            &&& vstd::relations::sorted_by(ranked, larger_first(nodes, by_alloc))
            &&& ids == ranked.take(listing::cut(ranked.len(), limit))
        }
}

/// `f` shows node `id`.
pub open spec fn reports(t: Tree, f: LargeFile, id: u32, by_alloc: bool) -> bool {
    &&& f.id == id
    &&& f.path@ == paths::path(t.nodes@, id as int)
    &&& f.size == value(t.nodes@, by_alloc, id)
    &&& f.alloc == t.nodes@[id as int].self_alloc
    &&& f.mtime == t.nodes@[id as int].mtime
}

spec fn total_first(nodes: Seq<Node>, by_alloc: bool) -> spec_fn(u32, u32) -> bool {
    |a: u32, b: u32|
        value(nodes, by_alloc, a) > value(nodes, by_alloc, b) || (value(nodes, by_alloc, a) == value(nodes, by_alloc, b) && a <= b)
}

/// The best of `seen`, larger first, next to those that were passed over.
spec fn sifted(nodes: Seq<Node>, by_alloc: bool, limit: usize, seen: Seq<u32>, best: Seq<u32>, over: Seq<u32>) -> bool {
    &&& best.to_multiset().add(over.to_multiset()) == seen.to_multiset()
    &&& forall|i: int, j: int|
        0 <= i < j < best.len() ==> value(nodes, by_alloc, #[trigger] best[i]) >= value(nodes, by_alloc, #[trigger] best[j])
    &&& best.len() <= limit
    &&& over.len() > 0 ==> best.len() == limit
    &&& forall|i: int, j: int|
        0 <= i < best.len() && 0 <= j < over.len() ==> value(nodes, by_alloc, #[trigger] best[i]) >= value(
            nodes,
            by_alloc,
            #[trigger] over[j],
        )
}

proof fn lemma_sifted_is_largest(nodes: Seq<Node>, by_alloc: bool, limit: usize, seen: Seq<u32>, best: Seq<u32>, over: Seq<u32>)
    requires
        sifted(nodes, by_alloc, limit, seen, best, over),
    ensures
        largest_of(nodes, by_alloc, seen, limit, best),
{
    let leq = total_first(nodes, by_alloc);
    assert(vstd::relations::total_ordering(leq));
    over.lemma_sort_by_ensures(leq);
    let tail = over.sort_by(leq);
    order::lemma_same_items(over, tail);
    let ranked = best + tail;
    vstd::seq_lib::lemma_multiset_commutative(best, tail);
    assert(ranked.to_multiset() =~= seen.to_multiset());
    let first = larger_first(nodes, by_alloc);
    assert forall|i: int, j: int| 0 <= i < j < ranked.len() implies #[trigger] first(ranked[i], ranked[j]) by {
        if i < best.len() && j >= best.len() {
            assert(over.contains(tail[j - best.len()]));
        } else if i >= best.len() {
            assert(leq(tail[i - best.len()], tail[j - best.len()]));
        }
    }
    assert(ranked.take(listing::cut(ranked.len(), limit)) =~= best);
}

impl Node {
    /// The size of the entry itself, on disk or apparent.
    fn value(&self, by_alloc: bool) -> (r: u64)
        ensures
            r == (if by_alloc {
                self.self_alloc
            } else {
                self.self_size
            }),
    {
        if by_alloc {
            self.self_alloc
        } else {
            self.self_size
        }
    }
}

impl Tree {
    /// How many of `best`, which is ranked larger first, are larger than `v`.
    fn insertion_point(&self, best: &Vec<u32>, by_alloc: bool, v: u64) -> (pos: usize)
        requires
            forall|i: int| 0 <= i < best@.len() ==> #[trigger] best@[i] < self.nodes@.len(),
            forall|i: int, j: int|
                0 <= i < j < best@.len() ==> value(self.nodes@, by_alloc, #[trigger] best@[i]) >= value(
                    self.nodes@,
                    by_alloc,
                    #[trigger] best@[j],
                ),
        ensures
            pos <= best@.len(),
            forall|i: int| 0 <= i < pos ==> value(self.nodes@, by_alloc, #[trigger] best@[i]) > v,
            forall|i: int| pos <= i < best@.len() ==> value(self.nodes@, by_alloc, #[trigger] best@[i]) <= v,
    {
        let mut lo: usize = 0;
        let mut hi: usize = best.len();
        while lo < hi
            invariant
                lo <= hi <= best@.len(),
                forall|i: int| 0 <= i < best@.len() ==> #[trigger] best@[i] < self.nodes@.len(),
                forall|i: int, j: int|
                    0 <= i < j < best@.len() ==> value(self.nodes@, by_alloc, #[trigger] best@[i]) >= value(
                        self.nodes@,
                        by_alloc,
                        #[trigger] best@[j],
                    ),
                forall|i: int| 0 <= i < lo ==> value(self.nodes@, by_alloc, #[trigger] best@[i]) > v,
                forall|i: int| hi <= i < best@.len() ==> value(self.nodes@, by_alloc, #[trigger] best@[i]) <= v,
            decreases hi - lo,
        {
            let mid: usize = lo + (hi - lo) / 2;
            if self.nodes[best[mid] as usize].value(by_alloc) > v {
                lo = mid + 1;
            } else {
                hi = mid;
            }
        }
        lo
    }

    /// The `limit` largest of `pool`, larger first. Files are usually far more
    /// numerous than `limit`, so most are turned away by the smallest of the
    /// best without any work.
    fn best_of(&self, pool: &Vec<u32>, skip: u32, by_alloc: bool, limit: usize) -> (best: Vec<u32>)
        requires
            limit > 0,
            forall|k: int| 0 <= k < pool@.len() ==> #[trigger] pool@[k] < self.nodes@.len(),
        ensures
            largest_of(self.nodes@, by_alloc, pool@.filter(not_itself(skip)), limit, best@),
            forall|k: int| 0 <= k < best@.len() ==> #[trigger] best@[k] < self.nodes@.len(),
    {
        let mut best: Vec<u32> = Vec::new();
        let ghost mut over: Seq<u32> = Seq::empty();
        let ghost keep = not_itself(skip);
        let mut i: usize = 0;
        proof {
            reveal(Seq::filter);
            assert(pool@.take(0) =~= Seq::<u32>::empty());
            assert(best@ =~= Seq::<u32>::empty());
            assert(best@.to_multiset().add(over.to_multiset()) =~= Seq::<u32>::empty().to_multiset()) by {
                vstd::seq_lib::to_multiset_len(best@);
            }
        }
        while i < pool.len()
            invariant
                limit > 0,
                i <= pool@.len(),
                keep == not_itself(skip),
                forall|k: int| 0 <= k < pool@.len() ==> #[trigger] pool@[k] < self.nodes@.len(),
                forall|k: int| 0 <= k < best@.len() ==> #[trigger] best@[k] < self.nodes@.len(),
                sifted(self.nodes@, by_alloc, limit, pool@.take(i as int).filter(keep), best@, over),
            decreases pool.len() - i,
        {
            let id: u32 = pool[i];
            let ghost seen = pool@.take(i as int).filter(keep);
            let ghost b0 = best@;
            let ghost o0 = over;
            proof {
                reveal(Seq::filter);
                assert(pool@.take(i + 1).drop_last() =~= pool@.take(i as int));
            }
            i = i + 1;
            if id == skip {
                continue ;
            }
            assert(pool@.take(i as int).filter(keep) == seen.push(id));
            broadcast use vstd::seq_lib::to_multiset_build;

            let v: u64 = self.nodes[id as usize].value(by_alloc);
            let count: usize = best.len();
            if count == limit && v <= self.nodes[best[count - 1] as usize].value(by_alloc) {
                proof {
                    over = over.push(id);
                    assert(best@.to_multiset().add(over.to_multiset()) =~= seen.push(id).to_multiset());
                    assert forall|x: int, y: int| 0 <= x < best@.len() && 0 <= y < over.len() implies value(
                        self.nodes@,
                        by_alloc,
                        #[trigger] best@[x],
                    ) >= value(self.nodes@, by_alloc, #[trigger] over[y]) by {
                        if y == o0.len() {
                            if x < count - 1 {
                                assert(value(self.nodes@, by_alloc, best@[x]) >= value(
                                    self.nodes@,
                                    by_alloc,
                                    best@[count - 1],
                                ));
                            }
                        } else {
                            assert(over[y] == o0[y]);
                        }
                    }
                }
                continue ;
            }
            let pos: usize = self.insertion_point(&best, by_alloc, v);
            best.insert(pos, id);
            let ghost b1 = best@;
            proof {
                vstd::seq_lib::to_multiset_insert(b0, pos as int, id);
                assert forall|x: int| 0 <= x < b1.len() implies #[trigger] b1[x] < self.nodes@.len() && (x != pos ==> b1[x]
                    == b0[if x < pos {
                    x
                } else {
                    x - 1
                }]) by {}
                assert(b1.to_multiset().add(over.to_multiset()) =~= seen.push(id).to_multiset());
                assert forall|x: int, y: int| 0 <= x < y < b1.len() implies value(self.nodes@, by_alloc, #[trigger] b1[x])
                    >= value(self.nodes@, by_alloc, #[trigger] b1[y]) by {
                    let x0 = if x < pos {
                        x
                    } else {
                        x - 1
                    };
                    let y0 = if y < pos {
                        y
                    } else {
                        y - 1
                    };
                    if x == pos {
                        assert(b1[y] == b0[y0]);
                    } else if y == pos {
                        assert(b1[x] == b0[x0]);
                    } else {
                        assert(b1[x] == b0[x0] && b1[y] == b0[y0]);
                    }
                }
            }
            if best.len() > limit {
                let ghost last = b1.last();
                best.pop();
                proof {
                    over = over.push(last);
                    assert(b1 =~= best@.push(last));
                    assert(best@.to_multiset().add(over.to_multiset()) =~= seen.push(id).to_multiset());
                    assert forall|x: int, y: int| 0 <= x < best@.len() && 0 <= y < over.len() implies value(
                        self.nodes@,
                        by_alloc,
                        #[trigger] best@[x],
                    ) >= value(self.nodes@, by_alloc, #[trigger] over[y]) by {
                        assert(best@[x] == b1[x]);
                        if y == o0.len() {
                            assert(over[y] == b1[b1.len() - 1]);
                        } else {
                            assert(over[y] == o0[y]);
                            // The new file is larger than the smallest of the best.
                            assert(value(self.nodes@, by_alloc, b0[count - 1]) >= value(self.nodes@, by_alloc, o0[y]));
                            if x == pos {
                                assert(b1[x] == id);
                            } else {
                                let x0 = if x < pos {
                                    x
                                } else {
                                    x - 1
                                };
                                assert(b1[x] == b0[x0]);
                            }
                        }
                    }
                }
            } else {
                proof {
                    assert(over.len() == 0);
                }
            }
        }
        proof {
            assert(pool@.take(i as int) =~= pool@);
            lemma_sifted_is_largest(self.nodes@, by_alloc, limit, pool@.filter(keep), best@, over);
        }
        best
    }

    /// The `limit` largest files anywhere under `id`.
    pub fn largest_files(&self, id: u32, by_alloc: bool, limit: usize) -> (r: Vec<LargeFile>)
        requires
            self.wf(),
            self.holds(id),
        ensures
            largest_of(
                self.nodes@,
                by_alloc,
                files_below(self.nodes@, id),
                limit,
                r@.map_values(|f: LargeFile| f.id),
            ),
            forall|k: int| 0 <= k < r@.len() ==> reports(*self, #[trigger] r@[k], r@[k].id, by_alloc),
    {
        let mut out: Vec<LargeFile> = Vec::new();
        let pool = self.files_under(id);
        if limit == 0 {
            proof {
                let all = pool@.filter(not_itself(id));
                let leq = total_first(self.nodes@, by_alloc);
                assert(vstd::relations::total_ordering(leq));
                all.lemma_sort_by_ensures(leq);
                let ranked = all.sort_by(leq);
                let first = larger_first(self.nodes@, by_alloc);
                assert forall|i: int, j: int| 0 <= i < j < ranked.len() implies #[trigger] first(ranked[i], ranked[j]) by {
                    assert(leq(ranked[i], ranked[j]));
                }
                assert(out@.map_values(|f: LargeFile| f.id) =~= ranked.take(listing::cut(ranked.len(), limit)));
                assert(ranked.to_multiset() == all.to_multiset());
            }
            return out;
        }
        let best = self.best_of(&pool, id, by_alloc, limit);
        let mut k: usize = 0;
        while k < best.len()
            invariant
                self.wf(),
                k <= best@.len(),
                forall|j: int| 0 <= j < best@.len() ==> #[trigger] best@[j] < self.nodes@.len(),
                out@.len() == k,
                forall|j: int| 0 <= j < k ==> reports(*self, #[trigger] out@[j], best@[j], by_alloc),
            decreases best.len() - k,
        {
            let at: u32 = best[k];
            let n = &self.nodes[at as usize];
            out.push(
                LargeFile {
                    id: at,
                    path: self.rel_path(at),
                    size: n.value(by_alloc),
                    alloc: n.self_alloc,
                    mtime: n.mtime,
                },
            );
            k = k + 1;
        }
        assert(out@.map_values(|f: LargeFile| f.id) =~= best@);
        out
    }
}

/// The result is as long as it can be, ranked, and nothing that was left out is
/// larger than what is in it.
pub proof fn law_nothing_larger_is_left_out(nodes: Seq<Node>, by_alloc: bool, pool: Seq<u32>, limit: usize, ids: Seq<u32>)
    requires
        largest_of(nodes, by_alloc, pool, limit, ids),
    ensures
        ids.len() == listing::cut(pool.len(), limit),
        ids.to_multiset().subset_of(pool.to_multiset()),
        forall|i: int, j: int| 0 <= i < j < ids.len() ==> value(nodes, by_alloc, ids[i]) >= value(nodes, by_alloc, ids[j]),
        forall|x: u32, i: int|
            0 <= i < ids.len() && pool.to_multiset().count(x) > ids.to_multiset().count(x) ==> value(
                nodes,
                by_alloc,
                #[trigger] ids[i],
            ) >= #[trigger] value(nodes, by_alloc, x),
{
    let first = larger_first(nodes, by_alloc);
    let ranked = choose|ranked: Seq<u32>|
        {
            &&& #[trigger] ranked.to_multiset() == pool.to_multiset()
            &&& vstd::relations::sorted_by(ranked, first)
            &&& ids == ranked.take(listing::cut(ranked.len(), limit))
        };
    order::lemma_same_items(ranked, pool);
    let n = listing::cut(ranked.len(), limit);
    let rest = ranked.skip(n);
    assert(ranked =~= ids + rest);
    vstd::seq_lib::lemma_multiset_commutative(ids, rest);
    assert forall|i: int, j: int| 0 <= i < j < ids.len() implies value(nodes, by_alloc, ids[i]) >= value(
        nodes,
        by_alloc,
        ids[j],
    ) by {
        assert(first(ranked[i], ranked[j]));
    }
    assert forall|x: u32, i: int|
        0 <= i < ids.len() && pool.to_multiset().count(x) > ids.to_multiset().count(x) implies value(
        nodes,
        by_alloc,
        #[trigger] ids[i],
    ) >= #[trigger] value(nodes, by_alloc, x) by {
        vstd::seq_lib::to_multiset_contains(rest, x);
        assert(rest.contains(x));
        let j = rest.index_of(x);
        assert(first(ranked[i], ranked[n + j]));
    }
}

} // verus!
