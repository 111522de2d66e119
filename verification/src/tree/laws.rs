//! What holds across the operations of a tree.

use vstd::prelude::*;

use crate::tree::aggregate;
use crate::tree::model;
use crate::tree::paths;
use crate::tree::visit;
use crate::tree::Kind;
use crate::tree::NewEntry;
use crate::tree::Node;

verus! {

/// Removal detaches the removed node and everything below it, and nothing
/// else.
pub proof fn law_removal_detaches_the_subtree(old_nodes: Seq<Node>, new_nodes: Seq<Node>, id: int, x: int)
    requires
        model::shape(old_nodes),
        1 <= id < old_nodes.len(),
        model::uprooted(old_nodes, new_nodes, id),
        0 <= x < old_nodes.len(),
    ensures
        model::attached(new_nodes, x) == (model::attached(old_nodes, x) && !model::above(old_nodes, id, x)),
    decreases x,
{
    let p = old_nodes[id].parent as int;
    assert(old_nodes[id].parent < id);
    assert(new_nodes[x].parent == old_nodes[x].parent);
    assert(new_nodes[x].removed == (old_nodes[x].removed || x == id));
    if x > 0 {
        assert(old_nodes[x].parent < x);
        law_removal_detaches_the_subtree(old_nodes, new_nodes, id, old_nodes[x].parent as int);
    }
}

/// Insertion detaches nothing, and what is inserted below an attached directory
/// is attached.
pub proof fn law_insertion_keeps_reach(
    old_nodes: Seq<Node>,
    new_nodes: Seq<Node>,
    parent: int,
    entries: Seq<NewEntry>,
    exts: Seq<Seq<char>>,
    x: int,
)
    requires
        model::shape(old_nodes),
        0 <= parent < old_nodes.len(),
        model::grown(old_nodes, new_nodes, parent, entries, exts),
        new_nodes.len() <= u32::MAX,
        0 <= x < new_nodes.len(),
    ensures
        model::attached(new_nodes, x) == (if x < old_nodes.len() {
            model::attached(old_nodes, x)
        } else {
            model::attached(old_nodes, parent)
        }),
    decreases x,
{
    if x < old_nodes.len() {
        assert(new_nodes[x].parent == old_nodes[x].parent && new_nodes[x].removed == old_nodes[x].removed) by {
            if x != parent {
                assert(new_nodes[x] == (if model::above(old_nodes, x, parent) {
                    model::raised(old_nodes[x], model::weigh(entries))
                } else {
                    old_nodes[x]
                }));
            }
        }
        if x > 0 {
            assert(old_nodes[x].parent < x);
            law_insertion_keeps_reach(old_nodes, new_nodes, parent, entries, exts, old_nodes[x].parent as int);
        }
    } else {
        let j = x - old_nodes.len();
        assert(model::fresh(
            new_nodes[old_nodes.len() + j],
            parent as u32,
            model::below(old_nodes[parent].depth),
            entries[j],
            new_nodes[old_nodes.len() + j].ext,
        ));
        law_insertion_keeps_reach(old_nodes, new_nodes, parent, entries, exts, parent);
    }
}

/// A breadcrumb has one crumb more than its node is deep. Depths stop counting
/// at the largest that fits.
pub proof fn law_breadcrumbs_count_the_levels(nodes: Seq<Node>, i: int)
    requires
        model::shape(nodes),
        model::levels(nodes),
        0 <= i < nodes.len(),
    ensures
        nodes[i].depth == (if paths::trail(nodes, i).len() - 1 <= u16::MAX {
            paths::trail(nodes, i).len() - 1
        } else {
            u16::MAX as int
        }),
        nodes[i].depth < u16::MAX ==> paths::trail(nodes, i).len() == nodes[i].depth + 1,
    decreases i,
{
    if i > 0 {
        assert(nodes[i].parent < i);
        law_breadcrumbs_count_the_levels(nodes, nodes[i].parent as int);
        assert(model::level_ok(nodes, i));
    }
}

/// A walk that is limited to `max` levels puts nothing deeper into the tree than
/// one level below the limit, and whatever it finds above the limit, and so
/// walks in turn, is no deeper than the limit.
pub proof fn law_limited_walks_stay_shallow(
    old_nodes: Seq<Node>,
    new_nodes: Seq<Node>,
    parent: int,
    entries: Seq<NewEntry>,
    exts: Seq<Seq<char>>,
    max: u16,
)
    requires
        0 <= parent < old_nodes.len(),
        model::grown(old_nodes, new_nodes, parent, entries, exts),
        old_nodes[parent].depth <= max,
        forall|k: int| 0 <= k < old_nodes.len() ==> (#[trigger] old_nodes[k]).depth <= max + 1,
    ensures
        forall|k: int| 0 <= k < new_nodes.len() ==> (#[trigger] new_nodes[k]).depth <= max + 1,
        old_nodes[parent].depth < max ==> forall|k: int|
            old_nodes.len() <= k < new_nodes.len() ==> (#[trigger] new_nodes[k]).depth <= max,
{
    assert forall|k: int| 0 <= k < new_nodes.len() implies (#[trigger] new_nodes[k]).depth <= max + 1 && (k >= old_nodes.len()
        && old_nodes[parent].depth < max ==> new_nodes[k].depth <= max) by {
        if k >= old_nodes.len() {
            let j = k - old_nodes.len();
            assert(model::fresh(
                new_nodes[old_nodes.len() + j],
                parent as u32,
                model::below(old_nodes[parent].depth),
                entries[j],
                new_nodes[old_nodes.len() + j].ext,
            ));
        } else {
            assert(old_nodes[k].depth <= max + 1);
        }
    }
}

/// Whatever a visit of `i` meets stands below `i`, or is `i`.
proof fn lemma_visits_below(nodes: Seq<Node>, i: int, k: int)
    requires
        model::shape(nodes),
        0 <= i < nodes.len(),
        0 <= k < visit::visits(nodes, i).len(),
    ensures
        i <= visit::visits(nodes, i)[k] < nodes.len(),
        model::above(nodes, i, visit::visits(nodes, i)[k] as int),
    decreases nodes.len() - i, 1int, 0nat,
{
    if k > 0 {
        let kids = nodes[i].children@;
        assert(kids.take(kids.len() as int) =~= kids);
        let c = lemma_visits_of_child(nodes, i, kids.len() as int, k - 1);
        let x = visit::visits(nodes, i)[k] as int;
        assert(visit::visits(nodes, i)[k] == visit::visits_of(nodes, i, kids)[k - 1]);
        model::lemma_above_bounds(nodes, c, x);
        model::lemma_above_parent(nodes, c, x);
    }
}

/// Whatever is met below `i` stands below `i`.
proof fn lemma_visits_of_below(nodes: Seq<Node>, i: int, n: int, k: int)
    requires
        model::shape(nodes),
        0 <= i < nodes.len(),
        0 <= n <= nodes[i].children@.len(),
        0 <= k < visit::visits_of(nodes, i, nodes[i].children@.take(n)).len(),
    ensures
        i < visit::visits_of(nodes, i, nodes[i].children@.take(n))[k] < nodes.len(),
        model::above(nodes, i, visit::visits_of(nodes, i, nodes[i].children@.take(n))[k] as int),
{
    let c = lemma_visits_of_child(nodes, i, n, k);
    let x = visit::visits_of(nodes, i, nodes[i].children@.take(n))[k] as int;
    model::lemma_above_bounds(nodes, c, x);
    model::lemma_above_parent(nodes, c, x);
}

/// Whatever is met below `i` stands below, or is, one of the first `n` children
/// of `i`.
proof fn lemma_visits_of_child(nodes: Seq<Node>, i: int, n: int, k: int) -> (c: int)
    requires
        model::shape(nodes),
        0 <= i < nodes.len(),
        0 <= n <= nodes[i].children@.len(),
        0 <= k < visit::visits_of(nodes, i, nodes[i].children@.take(n)).len(),
    ensures
        i < c < nodes.len(),
        nodes[c].parent == i,
        nodes[i].children@.take(n).contains(c as u32),
        visit::visits_of(nodes, i, nodes[i].children@.take(n))[k] < nodes.len(),
        model::above(nodes, c, visit::visits_of(nodes, i, nodes[i].children@.take(n))[k] as int),
    decreases nodes.len() - i, 0int, n as nat,
{
    let ids = nodes[i].children@.take(n);
    if n == 0 {
        assert(ids.len() == 0);
        assert(false);
        0
    } else {
        assert(ids.drop_last() =~= nodes[i].children@.take(n - 1));
        assert(model::listed(nodes, i, nodes[i].children@[n - 1]));
        let c = ids.last() as int;
        let first = visit::visits(nodes, c);
        if k < first.len() {
            lemma_visits_below(nodes, c, k);
            assert(ids[n - 1] == c as u32);
            c
        } else {
            let d = lemma_visits_of_child(nodes, i, n - 1, k - first.len());
            let j = ids.drop_last().index_of(d as u32);
            assert(ids[j] == d as u32);
            d
        }
    }
}

/// Whatever a visit meets is the node itself or stands below it, and in the tree
/// as long as the node is.
pub proof fn law_visits_stay_below(nodes: Seq<Node>, i: int, x: u32)
    requires
        model::shape(nodes),
        0 <= i < nodes.len(),
        visit::visits(nodes, i).contains(x),
    ensures
        i <= x < nodes.len(),
        model::above(nodes, i, x as int),
{
    let k = visit::visits(nodes, i).index_of(x);
    lemma_visits_below(nodes, i, k);
}

/// What a search looks at is everything in the tree below a node: in a coherent
/// tree nothing is missed, and nothing else is met.
pub proof fn law_searches_look_everywhere(nodes: Seq<Node>, i: int, x: u32)
    requires
        model::shape(nodes),
        aggregate::coherent(nodes),
        0 <= i < nodes.len(),
        x < nodes.len(),
        model::attached(nodes, x as int),
    ensures
        visit::visits_of(nodes, i, nodes[i].children@).contains(x) == (x != i && model::above(nodes, i, x as int)),
{
    let kids = nodes[i].children@;
    let below = visit::visits_of(nodes, i, kids);
    let all = visit::visits(nodes, i);
    assert(kids.take(kids.len() as int) =~= kids);
    if below.contains(x) {
        let k = below.index_of(x);
        lemma_visits_of_below(nodes, i, kids.len() as int, k);
    }
    if x != i && model::above(nodes, i, x as int) {
        law_visits_meet_everything_below(nodes, i, x as int);
        let k = all.index_of(x);
        assert(all[0] == i as u32);
        assert(nodes[i].kind == Kind::Dir);
        assert(all[k] == below[k - 1]);
    }
}

/// A directory is visited before what is below it, and of its children the last
/// one first, each with all that is below it.
pub proof fn law_the_last_child_is_visited_first(nodes: Seq<Node>, i: int, ids: Seq<u32>, c: u32)
    requires
        0 <= i < c < nodes.len(),
    ensures
        visit::visits(nodes, i)[0] == i as u32,
        nodes[i].kind == Kind::Dir && nodes[i].children@ == ids.push(c) ==> visit::visits(nodes, i) == seq![i as u32]
            + visit::visits(nodes, c as int) + visit::visits_of(nodes, i, ids),
        nodes[i].kind != Kind::Dir ==> visit::visits(nodes, i) == seq![i as u32],
{
    assert(ids.push(c).drop_last() =~= ids);
    let a = visit::visits(nodes, c as int);
    let b = visit::visits_of(nodes, i, ids);
    assert(seq![i as u32] + (a + b) =~= seq![i as u32] + a + b);
}

/// A breadcrumb leads from the root down to the node, each step to a child.
pub proof fn law_breadcrumbs_lead_down(nodes: Seq<Node>, i: int)
    requires
        model::shape(nodes),
        0 <= i < nodes.len(),
    ensures
        paths::trail(nodes, i).len() >= 1,
        paths::trail(nodes, i)[0] == 0,
        paths::trail(nodes, i).last() == i,
        forall|k: int|
            1 <= k < paths::trail(nodes, i).len() ==> nodes[(#[trigger] paths::trail(nodes, i)[k]) as int].parent == paths::trail(
                nodes,
                i,
            )[k - 1],
    decreases i,
{
    if i > 0 {
        assert(nodes[i].parent < i);
        law_breadcrumbs_lead_down(nodes, nodes[i].parent as int);
    }
}

/// The path of the root is empty; that of a node below the root is its name, and
/// any other path is that of the directory, a slash and the name.
pub proof fn law_paths_extend_their_directory(nodes: Seq<Node>, i: int)
    requires
        model::shape(nodes),
        0 < i < nodes.len(),
    ensures
        paths::path(nodes, 0).len() == 0,
        nodes[i].parent == 0 ==> paths::path(nodes, i) == nodes[i].name@,
        nodes[i].parent != 0 ==> paths::path(nodes, i) == paths::path(nodes, nodes[i].parent as int) + seq!['/'] + nodes[i].name@,
{
    assert(nodes[i].parent < i);
    let p = paths::path(nodes, nodes[i].parent as int);
    assert(p.push('/') + nodes[i].name@ =~= p + seq!['/'] + nodes[i].name@);
}

/// Nothing stands below two children of the same node.
pub proof fn lemma_one_child(nodes: Seq<Node>, i: int, c: int, d: int, x: int)
    requires
        model::shape(nodes),
        0 <= i < c < nodes.len(),
        i < d < nodes.len(),
        nodes[c].parent == i,
        nodes[d].parent == i,
        0 <= x < nodes.len(),
        model::above(nodes, c, x),
        model::above(nodes, d, x),
    ensures
        c == d,
{
    if c < d {
        model::lemma_path_gap(nodes, x, d, c);
    } else if d < c {
        model::lemma_path_gap(nodes, x, c, d);
    }
}

/// A visit meets no node twice.
pub proof fn law_visits_meet_nothing_twice(nodes: Seq<Node>, i: int)
    requires
        model::shape(nodes),
        0 <= i < nodes.len(),
    ensures
        visit::visits(nodes, i).no_duplicates(),
    decreases nodes.len() - i, 1int, 0nat,
{
    let kids = nodes[i].children@;
    let all = visit::visits(nodes, i);
    let below = visit::visits_of(nodes, i, kids);
    assert(kids.take(kids.len() as int) =~= kids);
    lemma_visits_of_distinct(nodes, i, kids.len() as int);
    assert forall|a: int, b: int| 0 <= a < b < all.len() implies all[a] != all[b] by {
        assert(all[b] == below[b - 1]);
        lemma_visits_of_below(nodes, i, kids.len() as int, b - 1);
        if a > 0 {
            assert(all[a] == below[a - 1]);
        }
    }
}

proof fn lemma_visits_of_distinct(nodes: Seq<Node>, i: int, n: int)
    requires
        model::shape(nodes),
        0 <= i < nodes.len(),
        0 <= n <= nodes[i].children@.len(),
    ensures
        visit::visits_of(nodes, i, nodes[i].children@.take(n)).no_duplicates(),
    decreases nodes.len() - i, 0int, n as nat,
{
    let ids = nodes[i].children@.take(n);
    let all = visit::visits_of(nodes, i, ids);
    if n > 0 {
        assert(ids.drop_last() =~= nodes[i].children@.take(n - 1));
        assert(model::listed(nodes, i, nodes[i].children@[n - 1]));
        assert(nodes[i].children@.no_duplicates());
        let c = ids.last() as int;
        let first = visit::visits(nodes, c);
        let rest = visit::visits_of(nodes, i, ids.drop_last());
        law_visits_meet_nothing_twice(nodes, c);
        lemma_visits_of_distinct(nodes, i, n - 1);
        assert forall|a: int, b: int| 0 <= a < b < all.len() implies all[a] != all[b] by {
            if a < first.len() && b >= first.len() {
                assert(all[b] == rest[b - first.len()]);
                lemma_visits_below(nodes, c, a);
                let d = lemma_visits_of_child(nodes, i, n - 1, b - first.len());
                if all[a] == all[b] {
                    lemma_one_child(nodes, i, c, d, all[a] as int);
                    let j = nodes[i].children@.take(n - 1).index_of(d as u32);
                    assert(nodes[i].children@[j] == nodes[i].children@[n - 1]);
                }
            } else if a >= first.len() {
                assert(all[a] == rest[a - first.len()]);
                assert(all[b] == rest[b - first.len()]);
            }
        }
    }
}

/// In a coherent tree a visit of an attached node meets everything attached
/// below it.
pub proof fn law_visits_meet_everything_below(nodes: Seq<Node>, i: int, x: int)
    requires
        model::shape(nodes),
        aggregate::coherent(nodes),
        0 <= i < nodes.len(),
        0 <= x < nodes.len(),
        model::attached(nodes, x),
        model::above(nodes, i, x),
    ensures
        visit::visits(nodes, i).contains(x as u32),
    decreases x,
{
    model::lemma_above_bounds(nodes, i, x);
    if i == x {
        assert(visit::visits(nodes, i)[0] == i as u32);
    } else {
        let q = nodes[x].parent as int;
        assert(nodes[x].parent < x);
        law_visits_meet_everything_below(nodes, i, q);
        let k = visit::visits(nodes, i).index_of(q as u32);
        assert(model::kept(nodes, x));
        assert(aggregate::balanced(nodes, q));
        lemma_visits_reach_children(nodes, i, k, x);
    }
}

/// A visit that meets a directory meets its children.
proof fn lemma_visits_reach_children(nodes: Seq<Node>, i: int, k: int, x: int)
    requires
        model::shape(nodes),
        0 <= i < nodes.len(),
        0 <= k < visit::visits(nodes, i).len(),
        1 <= x < nodes.len(),
        nodes[x].parent == visit::visits(nodes, i)[k],
        nodes[nodes[x].parent as int].kind == Kind::Dir,
        nodes[nodes[x].parent as int].children@.contains(x as u32),
    ensures
        visit::visits(nodes, i).contains(x as u32),
    decreases nodes.len() - i, 1int, 0nat,
{
    let all = visit::visits(nodes, i);
    let kids = nodes[i].children@;
    assert(kids.take(kids.len() as int) =~= kids);
    let below = visit::visits_of(nodes, i, kids);
    if k == 0 {
        let j = kids.index_of(x as u32);
        lemma_visits_of_child_met(nodes, i, kids.len() as int, j);
        let a = below.index_of(x as u32);
        assert(all[a + 1] == x as u32);
    } else {
        assert(all[k] == below[k - 1]);
        lemma_visits_of_reach_children(nodes, i, kids.len() as int, k - 1, x);
        let a = below.index_of(x as u32);
        assert(all[a + 1] == x as u32);
    }
}

proof fn lemma_visits_of_child_met(nodes: Seq<Node>, i: int, n: int, j: int)
    requires
        model::shape(nodes),
        0 <= i < nodes.len(),
        0 <= j < n <= nodes[i].children@.len(),
    ensures
        visit::visits_of(nodes, i, nodes[i].children@.take(n)).contains(nodes[i].children@[j]),
    decreases n,
{
    let ids = nodes[i].children@.take(n);
    let all = visit::visits_of(nodes, i, ids);
    assert(ids.drop_last() =~= nodes[i].children@.take(n - 1));
    assert(model::listed(nodes, i, nodes[i].children@[n - 1]));
    let c = ids.last() as int;
    let first = visit::visits(nodes, c);
    let rest = visit::visits_of(nodes, i, ids.drop_last());
    assert(all == first + rest);
    if j == n - 1 {
        assert(first[0] == c as u32);
        assert(all[0] == first[0]);
    } else {
        lemma_visits_of_child_met(nodes, i, n - 1, j);
        let a = rest.index_of(nodes[i].children@[j]);
        assert(all[first.len() + a] == rest[a]);
    }
}

proof fn lemma_visits_of_reach_children(nodes: Seq<Node>, i: int, n: int, k: int, x: int)
    requires
        model::shape(nodes),
        0 <= i < nodes.len(),
        0 <= n <= nodes[i].children@.len(),
        0 <= k < visit::visits_of(nodes, i, nodes[i].children@.take(n)).len(),
        1 <= x < nodes.len(),
        nodes[x].parent == visit::visits_of(nodes, i, nodes[i].children@.take(n))[k],
        nodes[nodes[x].parent as int].kind == Kind::Dir,
        nodes[nodes[x].parent as int].children@.contains(x as u32),
    ensures
        visit::visits_of(nodes, i, nodes[i].children@.take(n)).contains(x as u32),
    decreases nodes.len() - i, 0int, n as nat,
{
    let ids = nodes[i].children@.take(n);
    let all = visit::visits_of(nodes, i, ids);
    if n == 0 {
        assert(ids.len() == 0);
        assert(false);
    } else {
        assert(ids.drop_last() =~= nodes[i].children@.take(n - 1));
        assert(model::listed(nodes, i, nodes[i].children@[n - 1]));
        let c = ids.last() as int;
        let first = visit::visits(nodes, c);
        let rest = visit::visits_of(nodes, i, ids.drop_last());
        assert(all == first + rest);
        if k < first.len() {
            assert(all[k] == first[k]);
            lemma_visits_reach_children(nodes, c, k, x);
            let a = first.index_of(x as u32);
            assert(all[a] == first[a]);
        } else {
            assert(all[k] == rest[k - first.len()]);
            lemma_visits_of_reach_children(nodes, i, n - 1, k - first.len(), x);
            let a = rest.index_of(x as u32);
            assert(all[first.len() + a] == rest[a]);
        }
    }
}

} // verus!
