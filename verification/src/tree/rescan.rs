//! Bringing part of a tree up to date: a fresh stat, an emptied directory, and
//! the errors that no longer apply.

use vstd::prelude::*;

use crate::text;
use crate::tree;
use crate::tree::aggregate;
use crate::tree::model;
use crate::tree::model::Tally;
use crate::tree::Node;
use crate::tree::ScanError;
use crate::tree::Stats;
use crate::tree::Tree;
use crate::tree::ROOT;

verus! {

/// `old_stats` with `d` added to its counters.
pub open spec fn shifted(old_stats: Stats, d: Tally) -> Stats {
    Stats {
        files: (old_stats.files + d.files) as u64,
        dirs: (old_stats.dirs + d.dirs) as u64,
        size: (old_stats.size + d.size) as u64,
        alloc: (old_stats.alloc + d.alloc) as u64,
        ..old_stats
    }
}

/// `old_stats` with `d` taken from its counters, none of them falling below
/// zero.
pub open spec fn lessened(old_stats: Stats, d: Tally) -> Stats {
    Stats {
        files: model::less(old_stats.files as int, d.files) as u64,
        dirs: model::less(old_stats.dirs as int, d.dirs) as u64,
        size: model::less(old_stats.size as int, d.size) as u64,
        alloc: model::less(old_stats.alloc as int, d.alloc) as u64,
        ..old_stats
    }
}

/// How much the own weight of a node changes.
pub open spec fn own_change(n: Node, size: u64, alloc: u64) -> Tally {
    Tally { size: size - n.self_size, alloc: alloc - n.self_alloc, files: 0, dirs: 0 }
}

/// A fresh stat of `id` turns one list of nodes into the other: the node takes
/// on what was read, and everything above it carries the difference.
pub open spec fn restated(
    old_nodes: Seq<Node>,
    new_nodes: Seq<Node>,
    id: int,
    size: u64,
    alloc: u64,
    mtime: i64,
    err: bool,
    cloud: bool,
) -> bool {
    let d = own_change(old_nodes[id], size, alloc);
    &&& new_nodes.len() == old_nodes.len()
    &&& new_nodes[id] == (Node { self_size: size, self_alloc: alloc, mtime, err, cloud, ..model::raised(old_nodes[id], d) })
    &&& forall|k: int|
        0 <= k < old_nodes.len() && k != id ==> #[trigger] new_nodes[k] == (if model::above(old_nodes, k, id) {
            model::raised(old_nodes[k], d)
        } else {
            old_nodes[k]
        })
}

/// What emptying `id` turns one list of nodes into: its children are marked as
/// removed, everything above them loses their weight, and `id` counts as
/// unread.
pub open spec fn emptied(old_nodes: Seq<Node>, new_nodes: Seq<Node>, id: int) -> bool {
    let d = Tally::zero().minus(aggregate::shares(old_nodes, old_nodes[id].children@));
    &&& new_nodes.len() == old_nodes.len()
    &&& new_nodes[id] == (Node { read: false, children: new_nodes[id].children, ..model::raised(old_nodes[id], d) })
    &&& new_nodes[id].children@.len() == 0
    &&& forall|k: int|
        0 <= k < old_nodes.len() && k != id ==> #[trigger] new_nodes[k] == (if model::above(old_nodes, k, id) {
            model::raised(old_nodes[k], d)
        } else if old_nodes[id].children@.contains(k as u32) {
            Node { removed: true, ..old_nodes[k] }
        } else {
            old_nodes[k]
        })
}

/// A character that separates the parts of a path; backslashes do on some
/// platforms.
pub open spec fn separates(c: char, backslash: bool) -> bool {
    c == '/' || (backslash && c == '\\')
}

/// `path` is `dir` or stands below it. A directory such as the root of a
/// filesystem may end in a separator itself.
pub open spec fn path_under(path: Seq<char>, dir: Seq<char>, backslash: bool) -> bool {
    &&& path.len() >= dir.len()
    &&& path.take(dir.len() as int) == dir
    &&& path.len() == dir.len() || (dir.len() > 0 && separates(dir.last(), backslash)) || separates(
        path[dir.len() as int],
        backslash,
    )
}

pub open spec fn kept_error(dir: Seq<char>, backslash: bool) -> spec_fn(ScanError) -> bool {
    |e: ScanError| !path_under(e.path@, dir, backslash)
}

/// Whether `path` is `dir` or stands below it.
fn is_under(path: &str, dir: &str, backslash: bool) -> (r: bool)
    ensures
        r == path_under(path@, dir@, backslash),
{
    let p = text::chars_of(path);
    let d = text::chars_of(dir);
    let n: usize = d.len();
    if p.len() < n {
        return false;
    }
    let mut i: usize = 0;
    while i < n
        invariant
            i <= n,
            n == d@.len(),
            n <= p@.len(),
            p@ == path@,
            d@ == dir@,
            forall|j: int| 0 <= j < i ==> p@[j] == d@[j],
        decreases n - i,
    {
        if p[i] != d[i] {
            assert(path@.take(n as int)[i as int] != dir@[i as int]);
            return false;
        }
        i = i + 1;
    }
    assert(path@.take(n as int) =~= dir@);
    if p.len() == n {
        return true;
    }
    if n > 0 && (d[n - 1] == '/' || (backslash && d[n - 1] == '\\')) {
        return true;
    }
    p[n] == '/' || (backslash && p[n] == '\\')
}

/// Taking away what a node covers is adding its opposite.
proof fn lemma_lowered_is_raised(n: Node, d: Tally)
    requires
        model::tally(n).covers(d),
        d.covers(Tally::zero()),
    ensures
        model::lowered(n, d) == model::raised(n, Tally::zero().minus(d)),
{
}

/// Two changes in a row are one change.
proof fn lemma_raised_twice(n: Node, a: Tally, b: Tally)
    requires
        model::tally(n).plus(a).covers(Tally::zero()),
        model::tally(n).plus(a).fits(),
    ensures
        model::raised(model::raised(n, a), b) == model::raised(n, a.plus(b)),
{
}

/// In a coherent tree everything above a node covers its own weight, and has
/// room for a change of it if the root has.
pub proof fn lemma_own_covered(nodes: Seq<Node>, id: int, d: Tally)
    requires
        model::shape(nodes),
        aggregate::coherent(nodes),
        0 <= id < nodes.len(),
        model::attached(nodes, id),
        model::tally(nodes[0]).plus(d).fits(),
    ensures
        forall|a: int|
            0 <= a < nodes.len() && #[trigger] model::above(nodes, a, id) ==> model::tally(nodes[a]).covers(
                model::own(nodes[id]),
            ) && model::tally(nodes[a]).plus(d).fits(),
{
    aggregate::law_room_at_the_root(nodes, id, d);
    assert forall|a: int| 0 <= a < nodes.len() && #[trigger] model::above(nodes, a, id) implies model::tally(
        nodes[a],
    ).covers(model::own(nodes[id])) by {
        assert(aggregate::balanced(nodes, id));
        aggregate::lemma_shares_nonneg(nodes, nodes[id].children@);
        if a != id {
            model::lemma_above_bounds(nodes, a, id);
            aggregate::law_ancestors_cover(nodes, a, id);
        }
    }
}

/// After the old weight is gone there is room for the new one.
proof fn lemma_room_after(before: Seq<Node>, mid: Seq<Node>, id: int, was: Tally, will: Tally, d: Tally)
    requires
        model::shape(before),
        0 <= id < before.len(),
        model::path_lowered(before, mid, id, was),
        d == will.minus(was),
        was.covers(Tally::zero()),
        forall|a: int|
            0 <= a < before.len() && #[trigger] model::above(before, a, id) ==> model::tally(before[a]).covers(was)
                && model::tally(before[a]).plus(d).fits(),
    ensures
        model::shape(mid),
        forall|a: int| 0 <= a < mid.len() && #[trigger] model::above(mid, a, id) ==> model::tally(mid[a]).plus(will).fits(),
{
    model::lemma_shape_same_links(before, mid);
    assert forall|a: int| 0 <= a < mid.len() && #[trigger] model::above(mid, a, id) implies model::tally(mid[a]).plus(
        will,
    ).fits() by {
        model::lemma_above_same_links(before, mid, a, id);
        assert(mid[a] == model::lowered(before[a], was));
    }
}

/// Taking the old weight away and adding the new one is adding the difference.
proof fn lemma_shifted_path(before: Seq<Node>, mid: Seq<Node>, after: Seq<Node>, id: int, was: Tally, will: Tally, d: Tally)
    requires
        0 <= id < before.len(),
        model::path_lowered(before, mid, id, was),
        model::path_raised(mid, after, id, will),
        d == will.minus(was),
        was.covers(Tally::zero()),
        forall|a: int| 0 <= a < before.len() && #[trigger] model::above(before, a, id) ==> model::tally(before[a]).covers(was),
    ensures
        after.len() == before.len(),
        forall|k: int|
            0 <= k < before.len() ==> #[trigger] after[k] == (if model::above(before, k, id) {
                model::raised(before[k], d)
            } else {
                before[k]
            }),
{
    assert forall|k: int| 0 <= k < before.len() implies #[trigger] after[k] == (if model::above(before, k, id) {
        model::raised(before[k], d)
    } else {
        before[k]
    }) by {
        model::lemma_above_same_links(before, mid, k, id);
        assert(mid[k] == (if model::above(before, k, id) {
            model::lowered(before[k], was)
        } else {
            before[k]
        }));
        if model::above(before, k, id) {
            lemma_lowered_is_raised(before[k], was);
            lemma_raised_twice(before[k], Tally::zero().minus(was), will);
            assert(Tally::zero().minus(was).plus(will) == d);
        }
    }
}

proof fn lemma_restated_coherent(
    before: Seq<Node>,
    after: Seq<Node>,
    id: int,
    size: u64,
    alloc: u64,
    mtime: i64,
    err: bool,
    cloud: bool,
)
    requires
        model::shape(before),
        aggregate::coherent(before),
        0 <= id < before.len(),
        model::attached(before, id),
        model::tally(before[0]).plus(own_change(before[id], size, alloc)).fits(),
        restated(before, after, id, size, alloc, mtime, err, cloud),
    ensures
        model::shape(after),
        aggregate::coherent(after),
{
    let d = own_change(before[id], size, alloc);
    model::lemma_shape_same_links(before, after);
    lemma_own_covered(before, id, d);
    assert(model::above(before, id, id));
    assert forall|k: int| 0 <= k < before.len() implies (#[trigger] after[k]).kind == before[k].kind && after[k].children
        == before[k].children && model::tally(after[k]) == (if model::above(before, k, id) {
        model::tally(before[k]).plus(d)
    } else {
        model::tally(before[k])
    }) && model::own(after[k]) == (if k == id {
        model::own(before[k]).plus(d)
    } else {
        model::own(before[k])
    }) by {
        if model::above(before, k, id) {
            assert(model::tally(before[k]).plus(d).fits());
            assert(model::tally(before[k]).covers(model::own(before[id])));
        }
    }
    aggregate::law_reweighing_is_coherent(before, after, id, d);
}

impl Tree {
    /// Takes on a fresh stat of `id`; everything above it carries the
    /// difference.
    #[verifier::rlimit(30)]
    pub fn restat(&mut self, id: u32, size: u64, alloc: u64, mtime: i64, err: bool, cloud: bool)
        requires
            old(self).wf(),
            old(self).coherent(),
            old(self).reaches(id),
            old(self).version < u64::MAX,
            model::tally(old(self).nodes@[0]).plus(own_change(old(self).nodes@[id as int], size, alloc)).fits(),
        ensures
            final(self).wf(),
            final(self).coherent(),
            restated(old(self).nodes@, final(self).nodes@, id as int, size, alloc, mtime, err, cloud),
            *final(self) == (Tree {
                nodes: final(self).nodes,
                version: (old(self).version + 1) as u64,
                stats: if id == ROOT {
                    old(self).stats
                } else {
                    shifted(old(self).stats, own_change(old(self).nodes@[id as int], size, alloc))
                },
                ..*old(self)
            }),
    {
        let ghost before = self.nodes@;
        let ghost d = own_change(before[id as int], size, alloc);
        let at: usize = id as usize;
        let old_size: u64 = self.nodes[at].self_size;
        let old_alloc: u64 = self.nodes[at].self_alloc;
        let ghost was = Tally { size: old_size as int, alloc: old_alloc as int, files: 0, dirs: 0 };
        let ghost will = Tally { size: size as int, alloc: alloc as int, files: 0, dirs: 0 };
        proof {
            lemma_own_covered(before, id as int, d);
        }
        self.subtract(id, old_size, old_alloc, 0, 0);
        let ghost mid = self.nodes@;
        proof {
            lemma_room_after(before, mid, id as int, was, will, d);
        }
        self.propagate(id, size, alloc, 0, 0);
        proof {
            lemma_shifted_path(before, mid, self.nodes@, id as int, was, will, d);
        }
        let n = &mut self.nodes[at];
        n.self_size = size;
        n.self_alloc = alloc;
        n.mtime = mtime;
        n.err = err;
        n.cloud = cloud;
        proof {
            lemma_restated_coherent(before, self.nodes@, id as int, size, alloc, mtime, err, cloud);
            model::lemma_levels_same(before, self.nodes@);
            model::lemma_root_above(before, id as int);
        }
        if id != ROOT {
            proof {
                aggregate::lemma_root_carries(before, id as int);
                assert(aggregate::balanced(before, id as int));
                aggregate::lemma_shares_nonneg(before, before[id as int].children@);
            }
            self.stats.size = self.stats.size - old_size + size;
            self.stats.alloc = self.stats.alloc - old_alloc + alloc;
        }
        self.version = self.version + 1;
    }

    /// Empties a directory before it is walked again.
    #[verifier::rlimit(30)]
    pub fn reset_children(&mut self, id: u32)
        requires
            old(self).wf(),
            old(self).coherent(),
            old(self).reaches(id),
            old(self).version + old(self).nodes@[id as int].children@.len() < u64::MAX,
        ensures
            final(self).wf(),
            final(self).coherent(),
            final(self).reaches(id),
            emptied(old(self).nodes@, final(self).nodes@, id as int),
            *final(self) == (Tree {
                nodes: final(self).nodes,
                version: (old(self).version + old(self).nodes@[id as int].children@.len() + 1) as u64,
                stats: shifted(
                    old(self).stats,
                    Tally::zero().minus(aggregate::shares(old(self).nodes@, old(self).nodes@[id as int].children@)),
                ),
                ..*old(self)
            }),
    {
        let ghost before = self.nodes@;
        let ghost kids = before[id as int].children@;
        let at: usize = id as usize;
        let mut m: usize = self.nodes[at].children.len();
        proof {
            assert(kids.take(m as int) =~= kids);
            assert(aggregate::shares(before, kids.skip(m as int)) == Tally::zero());
            self.lemma_part_emptied(*self, id, m as int);
        }
        while m > 0
            invariant
                m <= kids.len(),
                at == id,
                before == old(self).nodes@,
                kids == before[id as int].children@,
                old(self).wf(),
                old(self).coherent(),
                old(self).reaches(id),
                old(self).version + kids.len() < u64::MAX,
                part_emptied(*old(self), *self, id, m as int),
            decreases m,
        {
            m = m - 1;
            let ghost prior = *self;
            let child: u32 = self.nodes[at].children[m];
            proof {
                assert(kids.take(m + 1)[m as int] == kids[m as int]);
                assert(child == kids[m as int]);
                assert(model::listed(prior.nodes@, id as int, prior.nodes@[id as int].children@[m as int]));
                assert(prior.nodes@[child as int].parent == id);
                assert(model::attached(prior.nodes@, child as int));
                assert(aggregate::balanced(prior.nodes@, id as int));
                aggregate::lemma_shares_member(prior.nodes@, prior.nodes@[id as int].children@, m as int);
            }
            self.remove(child);
            proof {
                self.lemma_emptied_step(*old(self), prior, id, m as int);
            }
        }
        let ghost after = *self;
        self.nodes[at].read = false;
        self.version = self.version + 1;
        proof {
            assert(kids.skip(0) =~= kids);
            lemma_emptied_done(before, after.nodes@, self.nodes@, id as int);
            model::lemma_levels_same(after.nodes@, self.nodes@);
        }
    }

    /// Forgets the errors recorded at or below `prefix`. `backslash` says whether
    /// backslashes separate the parts of a path here.
    pub fn clear_errors_under(&mut self, prefix: &str, backslash: bool)
        requires
            old(self).wf(),
        ensures
            final(self).wf(),
            final(self).errors@ == old(self).errors@.filter(kept_error(prefix@, backslash)),
            *final(self) == (Tree {
                errors: final(self).errors,
                stats: Stats {
                    errors: model::less(
                        old(self).stats.errors as int,
                        old(self).errors@.len() - final(self).errors@.len(),
                    ) as u64,
                    ..old(self).stats
                },
                ..*old(self)
            }),
            old(self).coherent() ==> final(self).coherent(),
    {
        let ghost keep = kept_error(prefix@, backslash);
        let mut all: Vec<ScanError> = Vec::new();
        std::mem::swap(&mut all, &mut self.errors);
        let count: usize = all.len();
        let mut kept: Vec<ScanError> = Vec::new();
        proof {
            reveal(Seq::filter);
        }
        for e in it: all
            invariant
                it.seq() == old(self).errors@,
                keep == kept_error(prefix@, backslash),
                kept@ == it.seq().take(it.index()).filter(keep),
                kept@.len() <= it.index(),
        {
            proof {
                reveal(Seq::filter);
                assert(it.seq().take(it.index() + 1).drop_last() =~= it.seq().take(it.index()));
            }
            if !is_under(e.path.as_str(), prefix, backslash) {
                kept.push(e);
            }
        }
        assert(old(self).errors@.take(old(self).errors@.len() as int) =~= old(self).errors@);
        let dropped: usize = count - kept.len();
        self.errors = kept;
        self.stats.errors = self.stats.errors.saturating_sub(dropped as u64);
    }

    proof fn lemma_part_emptied(&self, from: Tree, id: u32, m: int)
        requires
            *self == from,
            self.wf(),
            self.coherent(),
            self.reaches(id),
            m == self.nodes@[id as int].children@.len(),
        ensures
            part_emptied(from, *self, id, m),
    {
        let nodes = self.nodes@;
        let kids = nodes[id as int].children@;
        let gone = kids.skip(m);
        assert(gone =~= Seq::<u32>::empty());
        let d = Tally::zero().minus(aggregate::shares(nodes, gone));
        assert forall|k: int| 0 <= k < nodes.len() && k != id implies #[trigger] nodes[k] == part_of(nodes, id as int, m, k) by {
            assert(model::raised(nodes[k], d) == nodes[k]);
        }
        assert(model::raised(nodes[id as int], d) == nodes[id as int]);
        assert(kids.take(m) =~= kids);
    }

    /// Removing the last remaining child takes the emptying one step further.
    #[verifier::rlimit(30)]
    proof fn lemma_emptied_step(&self, from: Tree, prior: Tree, id: u32, m: int)
        requires
            from.wf(),
            from.coherent(),
            from.reaches(id),
            0 <= m < from.nodes@[id as int].children@.len(),
            part_emptied(from, prior, id, m + 1),
            self.wf(),
            self.coherent(),
            tree::taken_out(prior, *self, from.nodes@[id as int].children@[m]),
            from.version + from.nodes@[id as int].children@.len() < u64::MAX,
        ensures
            part_emptied(from, *self, id, m),
    {
        let a = from.nodes@;
        let p = prior.nodes@;
        let b = self.nodes@;
        let kids = a[id as int].children@;
        let c = kids[m] as int;
        assert(model::listed(a, id as int, a[id as int].children@[m]));
        lemma_child_untouched(a, p, id as int, m);
        lemma_nodes_step(a, p, b, id as int, m);
        lemma_gone_shares(a, kids, m);
        aggregate::lemma_removal_is_share(p, c);
        aggregate::lemma_root_carries(p, c);
        assert forall|j: int| 0 <= j < p.len() implies (#[trigger] p[j]).parent == b[j].parent && (j != c ==> p[j].removed
            == b[j].removed) by {}
        model::lemma_attached_same_links_above(p, b, c, id as int);
    }
}

/// Once no child is left, all that remains is to mark the directory as unread.
proof fn lemma_emptied_done(a: Seq<Node>, p: Seq<Node>, b: Seq<Node>, id: int)
    requires
        model::shape(p),
        aggregate::coherent(p),
        0 <= id < a.len(),
        model::attached(p, id),
        part_nodes(a, p, id, 0),
        b.len() == p.len(),
        b[id] == (Node { read: false, ..p[id] }),
        forall|k: int| 0 <= k < p.len() && k != id ==> #[trigger] b[k] == p[k],
    ensures
        model::shape(b),
        aggregate::coherent(b),
        model::attached(b, id),
        emptied(a, b, id),
{
    let kids = a[id].children@;
    assert(kids.skip(0) =~= kids);
    model::lemma_shape_same_links(p, b);
    aggregate::lemma_coherent_same_weights(p, b);
    model::lemma_attached_same_links(p, b, id);
    assert forall|k: int| 0 <= k < a.len() && k != id implies #[trigger] b[k] == (if model::above(a, k, id) {
        model::raised(a[k], Tally::zero().minus(aggregate::shares(a, kids)))
    } else if kids.contains(k as u32) {
        Node { removed: true, ..a[k] }
    } else {
        a[k]
    }) by {
        assert(p[k] == part_of(a, id, 0, k));
    }
}

/// What the children from the `m`-th on add.
proof fn lemma_gone_shares(a: Seq<Node>, kids: Seq<u32>, m: int)
    requires
        0 <= m < kids.len(),
    ensures
        aggregate::shares(a, kids.skip(m)) == model::share(a[kids[m] as int]).plus(aggregate::shares(a, kids.skip(m + 1))),
{
    let one = seq![kids[m]];
    assert(kids.skip(m) =~= one + kids.skip(m + 1));
    aggregate::lemma_shares_concat(a, one, kids.skip(m + 1));
    assert(one.drop_last() =~= Seq::<u32>::empty());
    assert(aggregate::shares(a, one.drop_last()) == Tally::zero());
    assert(one.last() == kids[m]);
}

/// The child that goes next is as it was in the beginning, and still listed.
proof fn lemma_child_untouched(a: Seq<Node>, p: Seq<Node>, id: int, m: int)
    requires
        model::shape(a),
        model::shape(p),
        0 <= id < a.len(),
        0 <= m < a[id].children@.len(),
        model::attached(p, id),
        part_nodes(a, p, id, m + 1),
    ensures
        ({
            let c = a[id].children@[m] as int;
            &&& id < c < a.len()
            &&& p[c] == a[c]
            &&& p[c].parent == id
            &&& p[id].children@[m] == c
            &&& model::attached(p, c)
            &&& !model::above(a, c, id)
            &&& !a[id].children@.skip(m + 1).contains(c as u32)
        }),
{
    let kids = a[id].children@;
    let c = kids[m] as int;
    let gone = kids.skip(m + 1);
    assert(model::listed(a, id, a[id].children@[m]));
    assert(a[id].children@.no_duplicates());
    assert(!gone.contains(kids[m])) by {
        if gone.contains(kids[m]) {
            let j = gone.index_of(kids[m]);
            assert(kids[m + 1 + j] == kids[m]);
        }
    }
    assert(!model::above(a, c, id)) by {
        if model::above(a, c, id) {
            model::lemma_above_bounds(a, c, id);
        }
    }
    assert(p[c] == part_of(a, id, m + 1, c));
    assert(p[id].children@[m] == kids.take(m + 1)[m]);
    assert(model::listed(p, id, p[id].children@[m]));
}

/// Removing the last remaining child, seen on the nodes alone.
#[verifier::rlimit(30)]
proof fn lemma_nodes_step(a: Seq<Node>, p: Seq<Node>, b: Seq<Node>, id: int, m: int)
    requires
        model::shape(a),
        model::shape(p),
        aggregate::coherent(p),
        0 <= id < a.len(),
        0 <= m < a[id].children@.len(),
        model::attached(p, id),
        part_nodes(a, p, id, m + 1),
        model::uprooted(p, b, a[id].children@[m] as int),
    ensures
        part_nodes(a, b, id, m),
{
    let kids = a[id].children@;
    let c = kids[m] as int;
    lemma_child_untouched(a, p, id, m);
    lemma_gone_shares(a, kids, m);
    aggregate::lemma_removal_is_share(p, c);
    let share = model::share(a[c]);
    let d1 = Tally::zero().minus(aggregate::shares(a, kids.skip(m + 1)));
    let d = Tally::zero().minus(aggregate::shares(a, kids.skip(m)));
    assert(d == d1.plus(Tally::zero().minus(share)));
    assert forall|k: int| 0 <= k < p.len() implies (#[trigger] a[k]).parent == p[k].parent by {
        if k != id {
            assert(p[k] == part_of(a, id, m + 1, k));
        }
    }
    assert forall|k: int| 0 <= k < a.len() && k != id implies #[trigger] b[k] == part_of(a, id, m, k) by {
        assert(p[k] == part_of(a, id, m + 1, k));
        model::lemma_above_same_links(a, p, k, id);
        lemma_gone_contains(kids, m, k as u32);
        if k != c && model::above(a, k, id) {
            model::lemma_above_bounds(a, k, id);
            lemma_step_down(p, b, id, c, k, share);
            lemma_raised_twice(a[k], d1, Tally::zero().minus(share));
        }
    }
    assert forall|k: int| 0 <= k < a.len() && #[trigger] model::above(a, k, id) implies model::tally(b[k]) == model::tally(
        a[k],
    ).plus(d) by {
        model::lemma_above_bounds(a, k, id);
        model::lemma_above_same_links(a, p, k, id);
        lemma_step_down(p, b, id, c, k, share);
    }
    assert(model::above(a, id, id));
    assert(model::above(p, id, id));
    lemma_step_down(p, b, id, c, id, share);
    lemma_raised_twice(a[id], d1, Tally::zero().minus(share));
    assert(p[id].children@.no_duplicates());
    model::lemma_without_at(p[id].children@, kids[m], m);
    assert(kids.take(m + 1).remove(m) =~= kids.take(m));
}

proof fn lemma_gone_contains(kids: Seq<u32>, m: int, x: u32)
    requires
        0 <= m < kids.len(),
    ensures
        kids.skip(m).contains(x) == (kids[m] == x || kids.skip(m + 1).contains(x)),
{
    let gone = kids.skip(m);
    let rest = kids.skip(m + 1);
    if gone.contains(x) {
        let j = gone.index_of(x);
        assert(gone[j] == x);
        if j > 0 {
            assert(rest[j - 1] == x);
        }
    }
    if rest.contains(x) {
        let j = rest.index_of(x);
        assert(gone[j + 1] == x);
    }
    assert(gone[0] == kids[m]);
}

/// On the way up from `id`, a node gets lighter by the share of the removed
/// child.
proof fn lemma_step_down(p: Seq<Node>, b: Seq<Node>, id: int, c: int, k: int, share: Tally)
    requires
        model::shape(p),
        aggregate::coherent(p),
        0 <= id < c < p.len(),
        0 <= k <= id,
        model::above(p, k, id),
        p[c].parent == id,
        model::attached(p, c),
        share == model::share(p[c]),
        model::removal(p[c]) == share,
        model::uprooted(p, b, c),
    ensures
        k != id ==> b[k] == model::raised(p[k], Tally::zero().minus(share)),
        k == id ==> b[k] == (Node { children: b[k].children, ..model::raised(p[k], Tally::zero().minus(share)) }),
        model::tally(b[k]) == model::tally(p[k]).minus(share),
{
    assert(model::above(p, k, c));
    aggregate::law_ancestors_cover(p, k, c);
    lemma_lowered_is_raised(p[k], share);
}

/// Node `k` after the children of `id` from the `m`-th on were removed.
pub open spec fn part_of(nodes: Seq<Node>, id: int, m: int, k: int) -> Node {
    let gone = nodes[id].children@.skip(m);
    let d = Tally::zero().minus(aggregate::shares(nodes, gone));
    if model::above(nodes, k, id) {
        model::raised(nodes[k], d)
    } else if gone.contains(k as u32) {
        Node { removed: true, ..nodes[k] }
    } else {
        nodes[k]
    }
}

/// The nodes `b` are `a` after the children of `id` from the `m`-th on were
/// removed.
spec fn part_nodes(a: Seq<Node>, b: Seq<Node>, id: int, m: int) -> bool {
    let kids = a[id].children@;
    let d = Tally::zero().minus(aggregate::shares(a, kids.skip(m)));
    &&& b.len() == a.len()
    &&& b[id] == (Node { children: b[id].children, ..model::raised(a[id], d) })
    &&& b[id].children@ == kids.take(m)
    &&& forall|k: int| 0 <= k < a.len() && k != id ==> #[trigger] b[k] == part_of(a, id, m, k)
    &&& forall|k: int| 0 <= k < a.len() && #[trigger] model::above(a, k, id) ==> model::tally(b[k]) == model::tally(a[k]).plus(
        d,
    )
}

/// `t` is `from` after the children of `id` from the `m`-th on were removed.
spec fn part_emptied(from: Tree, t: Tree, id: u32, m: int) -> bool {
    let kids = from.nodes@[id as int].children@;
    let d = Tally::zero().minus(aggregate::shares(from.nodes@, kids.skip(m)));
    &&& t.wf()
    &&& t.coherent()
    &&& t.reaches(id)
    &&& part_nodes(from.nodes@, t.nodes@, id as int, m)
    &&& t == (Tree {
        nodes: t.nodes,
        version: (from.version + (kids.len() - m)) as u64,
        stats: shifted(from.stats, d),
        ..from
    })
    &&& t.stats.files == from.stats.files + d.files
    &&& t.stats.dirs == from.stats.dirs + d.dirs
    &&& t.stats.size == from.stats.size + d.size
    &&& t.stats.alloc == from.stats.alloc + d.alloc
}

} // verus!
