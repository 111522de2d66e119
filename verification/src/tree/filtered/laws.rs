//! What a filtered treemap weighs, in terms of the files that fit the filter.

use vstd::prelude::*;

use crate::sums;
use crate::tree::filtered;
use crate::tree::model;
use crate::tree::search;
use crate::tree::search::Wanted;
use crate::tree::Kind;
use crate::tree::Tree;

verus! {

/// Under a filter a file weighs what it weighs if it fits, and nothing if it
/// does not; a directory weighs what its children do, and nothing of its own.
pub proof fn law_filtered_weights_add_up(t: Tree, f: Wanted, by_alloc: bool, i: u32)
    requires
        t.wf(),
        t.holds(i),
    ensures
        ({
            let n = t.nodes@[i as int];
            let m = filtered::matching(t, f, by_alloc, i as int);
            &&& n.kind != Kind::Dir && search::laws::fits(t, f, i, by_alloc) ==> m.0 == n.total_size && m.1 == n.total_alloc
            &&& n.kind != Kind::Dir && !search::laws::fits(t, f, i, by_alloc) ==> m.0 == 0 && m.1 == 0
            &&& n.kind == Kind::Dir ==> m.0 == sums::total(
                n.children@,
                |c: u32| filtered::matching(t, f, by_alloc, c as int).0,
            )
            &&& n.kind == Kind::Dir ==> m.1 == sums::total(
                n.children@,
                |c: u32| filtered::matching(t, f, by_alloc, c as int).1,
            )
        }),
{
    search::laws::law_matches_are_what_was_asked_for(t, f, i, by_alloc);
    let kids = t.nodes@[i as int].children@;
    assert(kids.take(kids.len() as int) =~= kids);
    lemma_children(t, f, by_alloc, i, kids.len() as int);
}

proof fn lemma_children(t: Tree, f: Wanted, by_alloc: bool, i: u32, n: int)
    requires
        t.wf(),
        t.holds(i),
        0 <= n <= t.nodes@[i as int].children@.len(),
    ensures
        ({
            let ids = t.nodes@[i as int].children@.take(n);
            let m = filtered::matching_all(t, f, by_alloc, i as int, ids);
            &&& m.0 == sums::total(ids, |c: u32| filtered::matching(t, f, by_alloc, c as int).0)
            &&& m.1 == sums::total(ids, |c: u32| filtered::matching(t, f, by_alloc, c as int).1)
        }),
    decreases n,
{
    if n > 0 {
        let ids = t.nodes@[i as int].children@.take(n);
        assert(ids.drop_last() =~= t.nodes@[i as int].children@.take(n - 1));
        assert(model::listed(t.nodes@, i as int, t.nodes@[i as int].children@[n - 1]));
        lemma_children(t, f, by_alloc, i, n - 1);
    }
}

/// The weights of a filtered treemap are what matches, node by node.
pub proof fn law_filtered_treemaps_weigh_what_matches(t: Tree, f: Wanted, by_alloc: bool, i: int)
    requires
        t.wf(),
        t.coherent(),
        0 <= i < t.nodes@.len(),
    ensures
        filtered::matched(t, f, by_alloc).len() == t.nodes@.len(),
        filtered::matched(t, f, by_alloc)[i].0 == filtered::matching(t, f, by_alloc, i).0,
        filtered::matched(t, f, by_alloc)[i].1 == filtered::matching(t, f, by_alloc, i).1,
{
    filtered::law_matching_is_part_of_total(t, f, by_alloc, i);
}

} // verus!
