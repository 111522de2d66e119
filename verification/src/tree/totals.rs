//! What totals are, and what inserting and removing entries does to them.

use vstd::prelude::*;

use crate::sums;
use crate::tree;
use crate::tree::aggregate;
use crate::tree::extensions;
use crate::tree::model;
use crate::tree::rescan;
use crate::tree::Kind;
use crate::tree::NewEntry;
use crate::tree::Node;
use crate::tree::Tree;

verus! {

/// One for a directory, nothing for anything else.
pub open spec fn dir(kind: Kind) -> int {
    if kind == Kind::Dir {
        1
    } else {
        0
    }
}

/// One for anything but a directory.
pub open spec fn file(kind: Kind) -> int {
    1 - dir(kind)
}

proof fn lemma_shares(nodes: Seq<Node>, ids: Seq<u32>)
    ensures
        aggregate::shares(nodes, ids).size == sums::total(ids, |i: u32| nodes[i as int].total_size as int),
        aggregate::shares(nodes, ids).alloc == sums::total(ids, |i: u32| nodes[i as int].total_alloc as int),
        aggregate::shares(nodes, ids).files == sums::total(ids, |i: u32| nodes[i as int].files + file(nodes[i as int].kind)),
        aggregate::shares(nodes, ids).dirs == sums::total(ids, |i: u32| nodes[i as int].dirs + dir(nodes[i as int].kind)),
    decreases ids.len(),
{
    if ids.len() > 0 {
        lemma_shares(nodes, ids.drop_last());
    }
}

/// In a coherent tree the totals of a node are its own size and the totals of
/// its children; it counts as many files and directories as its children do, and
/// the children themselves. Links and other entries count as files.
pub proof fn law_totals_add_up(t: Tree, i: int)
    requires
        t.coherent(),
        0 <= i < t.nodes@.len(),
    ensures
        ({
            let n = t.nodes@[i];
            let kids = n.children@;
            &&& n.total_size == n.self_size + sums::total(kids, |c: u32| t.nodes@[c as int].total_size as int)
            &&& n.total_alloc == n.self_alloc + sums::total(kids, |c: u32| t.nodes@[c as int].total_alloc as int)
            &&& n.files == sums::total(kids, |c: u32| t.nodes@[c as int].files + file(t.nodes@[c as int].kind))
            &&& n.dirs == sums::total(kids, |c: u32| t.nodes@[c as int].dirs + dir(t.nodes@[c as int].kind))
            &&& n.kind != Kind::Dir ==> kids.len() == 0
        }),
{
    let nodes = t.nodes@;
    let kids = nodes[i].children@;
    assert(aggregate::balanced(nodes, i));
    lemma_shares(nodes, kids);
    sums::lemma_total_same(kids, kids, |i: u32| nodes[i as int].total_size as int, |c: u32| t.nodes@[c as int].total_size as int);
    sums::lemma_total_same(kids, kids, |i: u32| nodes[i as int].total_alloc as int, |c: u32| t.nodes@[c as int].total_alloc as int);
    sums::lemma_total_same(
        kids,
        kids,
        |i: u32| nodes[i as int].files + file(nodes[i as int].kind),
        |c: u32| t.nodes@[c as int].files + file(t.nodes@[c as int].kind),
    );
    sums::lemma_total_same(
        kids,
        kids,
        |i: u32| nodes[i as int].dirs + dir(nodes[i as int].kind),
        |c: u32| t.nodes@[c as int].dirs + dir(t.nodes@[c as int].kind),
    );
}

/// In a coherent tree the counters are the totals of the root without its own
/// size.
pub proof fn law_counters_are_the_totals_of_the_root(t: Tree)
    requires
        t.coherent(),
    ensures
        t.stats.files == t.nodes@[0].files,
        t.stats.dirs == t.nodes@[0].dirs,
        t.stats.size == t.nodes@[0].total_size - t.nodes@[0].self_size,
        t.stats.alloc == t.nodes@[0].total_alloc - t.nodes@[0].self_alloc,
{
}

pub proof fn lemma_weigh(entries: Seq<NewEntry>)
    ensures
        model::weigh(entries).size == sums::total(entries, |e: NewEntry| e.size as int),
        model::weigh(entries).alloc == sums::total(entries, |e: NewEntry| e.alloc as int),
        model::weigh(entries).files == sums::total(entries, |e: NewEntry| file(e.kind)),
        model::weigh(entries).dirs == sums::total(entries, |e: NewEntry| dir(e.kind)),
    decreases entries.len(),
{
    if entries.len() > 0 {
        lemma_weigh(entries.drop_last());
    }
}

/// Inserting entries adds their sizes, their bytes on disk and their number to
/// the directory and to everything above it, and leaves the totals of all other
/// nodes alone.
pub proof fn law_insertion_adds_to_everything_above(before: Tree, after: Tree, parent: u32, entries: Seq<NewEntry>, a: int)
    requires
        before.holds(parent),
        before.has_room(parent, entries),
        tree::inserted(before, after, parent, entries),
        0 <= a < before.nodes@.len(),
    ensures
        ({
            let old_node = before.nodes@[a];
            let new_node = after.nodes@[a];
            if model::above(before.nodes@, a, parent as int) {
                &&& new_node.total_size == old_node.total_size + sums::total(entries, |e: NewEntry| e.size as int)
                &&& new_node.total_alloc == old_node.total_alloc + sums::total(entries, |e: NewEntry| e.alloc as int)
                &&& new_node.files == old_node.files + sums::total(entries, |e: NewEntry| file(e.kind))
                &&& new_node.dirs == old_node.dirs + sums::total(entries, |e: NewEntry| dir(e.kind))
            } else {
                new_node == old_node
            }
        }),
        ({
            let old_node = before.nodes@[a];
            let new_node = after.nodes@[a];
            &&& new_node.self_size == old_node.self_size && new_node.self_alloc == old_node.self_alloc
            &&& new_node.name == old_node.name && new_node.kind == old_node.kind && new_node.mtime == old_node.mtime
            &&& new_node.parent == old_node.parent && new_node.depth == old_node.depth && new_node.ext == old_node.ext
            &&& new_node.err == old_node.err && new_node.cloud == old_node.cloud && new_node.removed == old_node.removed
            &&& a != parent ==> new_node.children == old_node.children && new_node.read == old_node.read
            &&& a == parent ==> new_node.read
        }),
{
    lemma_weigh(entries);
    model::lemma_weigh_part(entries, 0);
    assert(model::above(before.nodes@, parent as int, parent as int));
    if model::above(before.nodes@, a, parent as int) {
        assert(model::tally(before.nodes@[a]).plus(model::weigh(entries)).fits());
    }
}

/// Inserting entries adds the same to the counters of the scan.
pub proof fn law_insertion_adds_to_the_counters(before: Tree, after: Tree, parent: u32, entries: Seq<NewEntry>)
    requires
        before.holds(parent),
        before.has_room(parent, entries),
        tree::inserted(before, after, parent, entries),
    ensures
        after.stats.size == before.stats.size + sums::total(entries, |e: NewEntry| e.size as int),
        after.stats.alloc == before.stats.alloc + sums::total(entries, |e: NewEntry| e.alloc as int),
        after.stats.files == before.stats.files + sums::total(entries, |e: NewEntry| file(e.kind)),
        after.stats.dirs == before.stats.dirs + sums::total(entries, |e: NewEntry| dir(e.kind)),
        after.stats.errors == before.stats.errors,
        after.stats.skipped == before.stats.skipped,
        after.stats.hardlinks == before.stats.hardlinks,
{
    lemma_weigh(entries);
    model::lemma_weigh_part(entries, 0);
}

/// Each entry becomes a node behind all older ones, listed by its directory in
/// the order of the entries. A new node weighs what its entry does, stands one
/// level below the directory, and counts as read only if it is a placeholder.
/// Only files have extensions: those of their names.
pub proof fn law_entries_become_children(before: Tree, after: Tree, parent: u32, entries: Seq<NewEntry>, j: int)
    requires
        before.wf(),
        before.holds(parent),
        before.has_room(parent, entries),
        tree::inserted(before, after, parent, entries),
        0 <= j < entries.len(),
    ensures
        after.nodes@.len() == before.nodes@.len() + entries.len(),
        after.nodes@[parent as int].children@.len() == before.nodes@[parent as int].children@.len() + entries.len(),
        after.nodes@[parent as int].children@[before.nodes@[parent as int].children@.len() + j] == before.nodes@.len() + j,
        ({
            let n = after.nodes@[before.nodes@.len() + j];
            let e = entries[j];
            &&& n.parent == parent
            &&& n.name == e.name && n.kind == e.kind && n.mtime == e.mtime && n.err == e.err && n.cloud == e.cloud
            &&& n.self_size == e.size && n.total_size == e.size
            &&& n.self_alloc == e.alloc && n.total_alloc == e.alloc
            &&& n.files == 0 && n.dirs == 0 && n.children@.len() == 0
            &&& n.read == e.cloud && !n.removed
            &&& before.nodes@[parent as int].depth < u16::MAX ==> n.depth == before.nodes@[parent as int].depth + 1
            &&& before.nodes@[parent as int].depth == u16::MAX ==> n.depth == u16::MAX
            &&& e.kind == Kind::File && tree::extension(e.name@) is Some ==> extensions::laws::type_of(
                after,
                (before.nodes@.len() + j) as u32,
            ) == tree::extension(e.name@)->0
            &&& e.kind != Kind::File || tree::extension(e.name@) is None ==> n.ext == tree::NO_EXT
        }),
{
    let first = before.nodes@.len() as int;
    let n = after.nodes@[first + j];
    let e = entries[j];
    let exts = model::names_of(after.exts@);
    assert(model::fresh(
        after.nodes@[first + j],
        parent,
        model::below(before.nodes@[parent as int].depth),
        entries[j],
        after.nodes@[first + j].ext,
    ) && model::ext_slot(exts, model::entry_ext(entries[j]), after.nodes@[first + j].ext));
    if e.kind == Kind::File && tree::extension(e.name@) is Some {
        assert(exts[n.ext as int] == after.exts@[n.ext as int]@);
    }
}

/// Removing a node takes its totals, and the node itself, from everything above
/// it and from the counters; it is marked and no longer listed, and nothing else
/// changes.
pub proof fn law_removal_takes_from_everything_above(before: Tree, after: Tree, id: u32, a: int)
    requires
        before.wf(),
        before.coherent(),
        before.reaches(id),
        id != tree::ROOT,
        before.version < u64::MAX,
        tree::taken_out(before, after, id),
        0 <= a < before.nodes@.len(),
    ensures
        ({
            let gone = before.nodes@[id as int];
            let old_node = before.nodes@[a];
            let new_node = after.nodes@[a];
            if a != id && model::above(before.nodes@, a, id as int) {
                &&& new_node.total_size == old_node.total_size - gone.total_size
                &&& new_node.total_alloc == old_node.total_alloc - gone.total_alloc
                &&& new_node.files == old_node.files - gone.files - file(gone.kind)
                &&& new_node.dirs == old_node.dirs - gone.dirs - dir(gone.kind)
                &&& a != gone.parent ==> new_node.children == old_node.children
                &&& forall|x: u32| x != id ==> new_node.children@.contains(x) == #[trigger] old_node.children@.contains(x)
                &&& !new_node.children@.contains(id)
            } else if a == id {
                new_node == (Node { removed: true, ..old_node })
            } else {
                new_node == old_node
            }
        }),
        after.stats.size == before.stats.size - before.nodes@[id as int].total_size,
        after.stats.alloc == before.stats.alloc - before.nodes@[id as int].total_alloc,
        after.stats.files == before.stats.files - before.nodes@[id as int].files - file(before.nodes@[id as int].kind),
        after.stats.dirs == before.stats.dirs - before.nodes@[id as int].dirs - dir(before.nodes@[id as int].kind),
        after.stats.errors == before.stats.errors,
        after.version == before.version + 1,
{
    let nodes = before.nodes@;
    let gone = nodes[id as int];
    let parent = gone.parent as int;
    assert(nodes[id as int].parent < id);
    aggregate::law_removal_is_coherent(nodes, after.nodes@, id as int);
    aggregate::lemma_root_carries(nodes, id as int);
    assert(aggregate::balanced(nodes, id as int));
    lemma_without(nodes[parent].children@, id);
    if a != id {
        assert(model::above(nodes, a, id as int) == model::above(nodes, a, parent));
    }
    if model::above(nodes, a, id as int) {
        model::lemma_above_bounds(nodes, a, id as int);
    }
    if a != id && a != parent {
        assert(!nodes[a].children@.contains(id)) by {
            if nodes[a].children@.contains(id) {
                let k = nodes[a].children@.index_of(id);
                assert(model::listed(nodes, a, nodes[a].children@[k]));
            }
        }
    }
}

proof fn lemma_without(s: Seq<u32>, x: u32)
    ensures
        forall|y: u32| #[trigger] model::without(s, x).contains(y) == (s.contains(y) && y != x),
    decreases s.len(),
{
    if s.len() > 0 {
        let front = s.drop_last();
        let rest = model::without(front, x);
        let all = model::without(s, x);
        lemma_without(front, x);
        assert forall|y: u32| #[trigger] all.contains(y) == (s.contains(y) && y != x) by {
            assert(rest.contains(y) == (front.contains(y) && y != x));
            if s.contains(y) {
                let k = s.index_of(y);
                if k < front.len() {
                    assert(front[k] == y);
                }
            }
            if front.contains(y) {
                let k = front.index_of(y);
                assert(s[k] == y);
            }
            assert(s[s.len() - 1] == s.last());
            if s.last() != x {
                assert(all == rest.push(s.last()));
                assert(all[rest.len() as int] == s.last());
                if rest.contains(y) {
                    let k = rest.index_of(y);
                    assert(all[k] == y);
                }
                if all.contains(y) {
                    let k = all.index_of(y);
                    if k < rest.len() {
                        assert(rest[k] == y);
                    }
                }
            }
        }
    }
}

/// A fresh look at a node replaces its own size in its total and in everything
/// above it; nothing else changes.
pub proof fn law_fresh_sizes_replace_old_ones(
    before: Tree,
    after: Tree,
    id: u32,
    size: u64,
    alloc: u64,
    mtime: i64,
    err: bool,
    cloud: bool,
    a: int,
)
    requires
        before.wf(),
        before.coherent(),
        before.reaches(id),
        before.nodes@[0].total_size - before.nodes@[id as int].self_size + size <= u64::MAX,
        before.nodes@[0].total_alloc - before.nodes@[id as int].self_alloc + alloc <= u64::MAX,
        rescan::restated(before.nodes@, after.nodes@, id as int, size, alloc, mtime, err, cloud),
        0 <= a < before.nodes@.len(),
    ensures
        ({
            let old_node = before.nodes@[a];
            let new_node = after.nodes@[a];
            let was = before.nodes@[id as int];
            &&& new_node.name == old_node.name && new_node.kind == old_node.kind && new_node.children == old_node.children
            &&& new_node.files == old_node.files && new_node.dirs == old_node.dirs && new_node.removed == old_node.removed
            &&& if model::above(before.nodes@, a, id as int) {
                &&& new_node.total_size == old_node.total_size - was.self_size + size
                &&& new_node.total_alloc == old_node.total_alloc - was.self_alloc + alloc
            } else {
                new_node == old_node
            }
            &&& if a == id {
                &&& new_node.self_size == size && new_node.self_alloc == alloc && new_node.mtime == mtime
                &&& new_node.err == err && new_node.cloud == cloud && new_node.read == old_node.read
            } else {
                &&& new_node.self_size == old_node.self_size && new_node.self_alloc == old_node.self_alloc
                &&& new_node.mtime == old_node.mtime && new_node.err == old_node.err && new_node.cloud == old_node.cloud
            }
        }),
{
    let nodes = before.nodes@;
    let d = rescan::own_change(nodes[id as int], size, alloc);
    rescan::lemma_own_covered(nodes, id as int, d);
    assert(model::above(nodes, id as int, id as int));
    if model::above(nodes, a, id as int) {
        assert(model::tally(nodes[a]).plus(d).fits());
    }
}

/// Emptying a directory takes the totals of its children from it and from
/// everything above it; the children are marked, and the directory lists nothing
/// and counts as unread.
pub proof fn law_emptying_takes_the_contents(before: Tree, after: Tree, id: u32, a: int)
    requires
        before.wf(),
        before.coherent(),
        before.reaches(id),
        rescan::emptied(before.nodes@, after.nodes@, id as int),
        0 <= a < before.nodes@.len(),
    ensures
        ({
            let kids = before.nodes@[id as int].children@;
            let old_node = before.nodes@[a];
            let new_node = after.nodes@[a];
            &&& model::above(before.nodes@, a, id as int) ==> {
                &&& new_node.total_size == old_node.total_size - sums::total(
                    kids,
                    |c: u32| before.nodes@[c as int].total_size as int,
                )
                &&& new_node.total_alloc == old_node.total_alloc - sums::total(
                    kids,
                    |c: u32| before.nodes@[c as int].total_alloc as int,
                )
                &&& !new_node.removed
            }
            &&& a == id ==> {
                &&& new_node.children@.len() == 0 && !new_node.read
                &&& new_node.total_size == new_node.self_size && new_node.total_alloc == new_node.self_alloc
                &&& new_node.files == 0 && new_node.dirs == 0
            }
            &&& a != id && kids.contains(a as u32) ==> new_node == (Node { removed: true, ..old_node })
            &&& !model::above(before.nodes@, a, id as int) && !kids.contains(a as u32) ==> new_node == old_node
        }),
{
    let nodes = before.nodes@;
    let kids = nodes[id as int].children@;
    lemma_shares(nodes, kids);
    sums::lemma_total_same(kids, kids, |i: u32| nodes[i as int].total_size as int, |c: u32| before.nodes@[c as int].total_size as int);
    sums::lemma_total_same(
        kids,
        kids,
        |i: u32| nodes[i as int].total_alloc as int,
        |c: u32| before.nodes@[c as int].total_alloc as int,
    );
    assert(aggregate::balanced(nodes, id as int));
    aggregate::lemma_shares_nonneg(nodes, kids);
    if kids.contains(a as u32) {
        let k = kids.index_of(a as u32);
        assert(model::listed(nodes, id as int, nodes[id as int].children@[k]));
        if model::above(nodes, a, id as int) {
            model::lemma_above_bounds(nodes, a, id as int);
        }
    }
    if model::above(nodes, a, id as int) {
        model::lemma_above_bounds(nodes, a, id as int);
        model::lemma_attached_above(nodes, a, id as int);
        if a != id {
            aggregate::law_ancestors_cover(nodes, a, id as int);
        }
    }
}

} // verus!
