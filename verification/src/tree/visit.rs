//! The order in which a subtree is visited, and what is found on the way:
//! totals per extension and the largest files.

use vstd::prelude::*;

use crate::tree::model;
use crate::tree::Kind;
use crate::tree::Node;
use crate::tree::Tree;

verus! {

/// The nodes of the subtree of `i`: `i` itself, and below a directory the
/// subtrees of its children, last child first.
pub open spec fn visits(nodes: Seq<Node>, i: int) -> Seq<u32>
    decreases nodes.len() - i, 1int, 0nat,
{
    if nodes[i].kind == Kind::Dir {
        seq![i as u32] + visits_of(nodes, i, nodes[i].children@)
    } else {
        seq![i as u32]
    }
}

/// The subtrees of `ids`, last one first. Only ids beyond `after` count.
pub open spec fn visits_of(nodes: Seq<Node>, after: int, ids: Seq<u32>) -> Seq<u32>
    decreases nodes.len() - after, 0int, ids.len(),
{
    if ids.len() == 0 {
        Seq::empty()
    } else {
        let x = ids.last() as int;
        let rest = visits_of(nodes, after, ids.drop_last());
        if after < x < nodes.len() {
            visits(nodes, x) + rest
        } else {
            rest
        }
    }
}

/// What is still to be visited when `stack` is what remains to be opened.
pub open spec fn pending(nodes: Seq<Node>, stack: Seq<u32>) -> Seq<u32> {
    visits_of(nodes, -1, stack)
}

/// Whether node `i` counts as a file.
pub open spec fn is_leaf(nodes: Seq<Node>) -> spec_fn(u32) -> bool {
    |i: u32| nodes[i as int].kind != Kind::Dir
}

/// Everything in the subtree of `i` that is not a directory.
pub open spec fn leaves(nodes: Seq<Node>, i: int) -> Seq<u32> {
    visits(nodes, i).filter(is_leaf(nodes))
}

/// Which ids count does not matter when all of them do.
pub proof fn lemma_visits_of_any(nodes: Seq<Node>, a: int, b: int, ids: Seq<u32>)
    requires
        forall|k: int| 0 <= k < ids.len() ==> a < #[trigger] ids[k] < nodes.len() && b < ids[k],
    ensures
        visits_of(nodes, a, ids) == visits_of(nodes, b, ids),
    decreases ids.len(),
{
    if ids.len() > 0 {
        assert(a < ids[ids.len() - 1]);
        lemma_visits_of_any(nodes, a, b, ids.drop_last());
    }
}

/// Two lists one after the other are visited the later one first.
pub proof fn lemma_visits_of_concat(nodes: Seq<Node>, after: int, a: Seq<u32>, b: Seq<u32>)
    ensures
        visits_of(nodes, after, a + b) == visits_of(nodes, after, b) + visits_of(nodes, after, a),
    decreases b.len(),
{
    if b.len() == 0 {
        assert(a + b =~= a);
        assert(visits_of(nodes, after, b) + visits_of(nodes, after, a) =~= visits_of(nodes, after, a));
    } else {
        assert((a + b).drop_last() =~= a + b.drop_last());
        assert((a + b).last() == b.last());
        lemma_visits_of_concat(nodes, after, a, b.drop_last());
        let x = b.last() as int;
        if after < x < nodes.len() {
            assert(visits(nodes, x) + (visits_of(nodes, after, b.drop_last()) + visits_of(nodes, after, a)) =~= (visits(
                nodes,
                x,
            ) + visits_of(nodes, after, b.drop_last())) + visits_of(nodes, after, a));
        }
    }
}

/// Opening the top of the stack visits it and puts its children on top.
pub proof fn lemma_pending_step(nodes: Seq<Node>, stack: Seq<u32>)
    requires
        model::shape(nodes),
        stack.len() > 0,
        stack.last() < nodes.len(),
    ensures
        ({
            let cur = stack.last();
            let kids = if nodes[cur as int].kind == Kind::Dir {
                nodes[cur as int].children@
            } else {
                Seq::empty()
            };
            pending(nodes, stack) == seq![cur] + pending(nodes, stack.drop_last() + kids)
        }),
{
    let cur = stack.last();
    let rest = stack.drop_last();
    let kids = if nodes[cur as int].kind == Kind::Dir {
        nodes[cur as int].children@
    } else {
        Seq::empty()
    };
    lemma_visits_of_concat(nodes, -1, rest, kids);
    assert forall|k: int| 0 <= k < kids.len() implies cur < #[trigger] kids[k] < nodes.len() by {
        assert(model::listed(nodes, cur as int, nodes[cur as int].children@[k]));
    }
    lemma_visits_of_any(nodes, cur as int, -1, kids);
    let below = visits_of(nodes, -1, kids);
    assert(visits(nodes, cur as int) =~= seq![cur] + below);
    assert((seq![cur] + below) + pending(nodes, rest) =~= seq![cur] + (below + pending(nodes, rest)));
}

/// Every visited id is in the tree.
pub proof fn lemma_visits_in_range(nodes: Seq<Node>, i: int, k: int)
    requires
        model::shape(nodes),
        0 <= i < nodes.len(),
        0 <= k < visits(nodes, i).len(),
    ensures
        i <= visits(nodes, i)[k] < nodes.len(),
        k > 0 ==> i < visits(nodes, i)[k],
    decreases nodes.len() - i, 1int, 0nat,
{
    if k > 0 {
        lemma_visits_of_in_range(nodes, i, nodes[i].children@, k - 1);
        assert(visits(nodes, i)[k] == visits_of(nodes, i, nodes[i].children@)[k - 1]);
    }
}

pub proof fn lemma_visits_of_in_range(nodes: Seq<Node>, after: int, ids: Seq<u32>, k: int)
    requires
        model::shape(nodes),
        -1 <= after < nodes.len(),
        0 <= k < visits_of(nodes, after, ids).len(),
    ensures
        after < visits_of(nodes, after, ids)[k] < nodes.len(),
    decreases nodes.len() - after, 0int, ids.len(),
{
    let x = ids.last() as int;
    if after < x < nodes.len() {
        let first = visits(nodes, x);
        if k < first.len() {
            lemma_visits_in_range(nodes, x, k);
        } else {
            lemma_visits_of_in_range(nodes, after, ids.drop_last(), k - first.len());
        }
    } else {
        lemma_visits_of_in_range(nodes, after, ids.drop_last(), k);
    }
}

/// Puts the children of a directory on top of the stack.
pub(crate) fn open(stack: &mut Vec<u32>, n: &Node)
    ensures
        final(stack)@ == old(stack)@ + (if n.kind == Kind::Dir {
            n.children@
        } else {
            Seq::empty()
        }),
{
    if n.kind == Kind::Dir {
        let ghost before = stack@;
        let mut k: usize = 0;
        while k < n.children.len()
            invariant
                k <= n.children@.len(),
                stack@ == before + n.children@.take(k as int),
            decreases n.children.len() - k,
        {
            stack.push(n.children[k]);
            k = k + 1;
            assert(n.children@.take(k as int) =~= n.children@.take(k - 1).push(n.children@[k - 1]));
        }
        assert(n.children@.take(k as int) =~= n.children@);
    } else {
        assert(stack@ + Seq::<u32>::empty() =~= stack@);
    }
}

impl Tree {
    /// The files under `id`, `id` itself included.
    pub fn files_under(&self, id: u32) -> (r: Vec<u32>)
        requires
            self.wf(),
            self.holds(id),
        ensures
            r@ == leaves(self.nodes@, id as int),
            forall|k: int| 0 <= k < r@.len() ==> #[trigger] r@[k] < self.nodes@.len() && self.nodes@[r@[k] as int].kind != Kind::Dir,
    {
        let ghost all = visits(self.nodes@, id as int);
        let ghost is_file = is_leaf(self.nodes@);
        let mut out: Vec<u32> = Vec::new();
        let mut stack: Vec<u32> = Vec::new();
        stack.push(id);
        let ghost mut seen: Seq<u32> = Seq::empty();
        proof {
            assert(stack@.drop_last() =~= Seq::<u32>::empty());
            assert(visits_of(self.nodes@, -1, stack@.drop_last()) =~= Seq::<u32>::empty());
            assert(stack@.last() == id);
            assert(pending(self.nodes@, stack@) == all + Seq::<u32>::empty());
            assert(pending(self.nodes@, stack@) =~= all);
            reveal(Seq::filter);
            assert(seen + all =~= all);
        }
        while stack.len() > 0
            invariant
                self.wf(),
                is_file == is_leaf(self.nodes@),
                seen + pending(self.nodes@, stack@) == all,
                out@ == seen.filter(is_file),
                forall|k: int| 0 <= k < stack@.len() ==> #[trigger] stack@[k] < self.nodes@.len(),
                forall|k: int|
                    0 <= k < out@.len() ==> #[trigger] out@[k] < self.nodes@.len() && self.nodes@[out@[k] as int].kind != Kind::Dir,
            decreases pending(self.nodes@, stack@).len(),
        {
            let ghost before = stack@;
            let cur: u32 = stack[stack.len() - 1];
            stack.pop();
            let n = &self.nodes[cur as usize];
            proof {
                lemma_pending_step(self.nodes@, before);
                assert forall|k: int| 0 <= k < n.children@.len() implies #[trigger] n.children@[k] < self.nodes@.len() by {
                    assert(model::listed(self.nodes@, cur as int, self.nodes@[cur as int].children@[k]));
                }
            }
            open(&mut stack, n);
            if n.kind != Kind::Dir {
                out.push(cur);
            }
            proof {
                reveal(Seq::filter);
                assert(seen.push(cur).drop_last() =~= seen);
                assert(seen + pending(self.nodes@, before) =~= seen.push(cur) + pending(self.nodes@, stack@));
                seen = seen.push(cur);
            }
        }
        proof {
            assert(seen =~= all);
        }
        out
    }
}

} // verus!
