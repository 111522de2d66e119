//! Parallel filesystem walker.
//!
//! Directories are read elsewhere, on many threads; each finished listing takes
//! the tree just long enough to insert its children. Every insert aggregates
//! sizes up to the root, so the browser can render a coherent view of a scan
//! that is still running.

pub mod laws;
pub mod walk;

use vstd::prelude::*;

use crate::excludes::Excludes;
use crate::scan::walk::Meta;
use crate::scan::walk::Rules;
use crate::tree::aggregate;
use crate::tree::model;
use crate::tree::model::Tally;
use crate::tree::rescan;
use crate::tree::Kind;
use crate::tree::Node;
use crate::tree::ScanError;
use crate::tree::Stats;
use crate::tree::Tree;
use crate::tree::MAX_KEPT_ERRORS;
use crate::tree::ROOT;

verus! {

pub struct ScanOpts {
    pub root: String,
    pub one_file_system: bool,
    pub dereference: bool,
    pub count_links: bool,
    pub max_depth: Option<u16>,
    pub exclude: Excludes,
    pub threads: Option<usize>,
    pub local_only: bool,
}

/// How many threads walk; at least one.
pub open spec fn threads_for(asked: Option<usize>) -> Option<usize> {
    match asked {
        Some(n) => Some(if n < 1 {
            1
        } else {
            n
        }),
        None => None,
    }
}

impl ScanOpts {
    /// The rules of a walk below a directory at `depth`.
    pub fn rules(&self, root_device: u64, depth: u16) -> (r: Rules)
        ensures
            r.recurse == walk::goes_on(self.max_depth, depth),
            r == (Rules {
                local_only: self.local_only,
                one_file_system: self.one_file_system,
                count_links: self.count_links,
                root_device,
                recurse: match self.max_depth {
                    Some(max) => depth < max,
                    None => true,
                },
            }),
    {
        Rules {
            local_only: self.local_only,
            one_file_system: self.one_file_system,
            count_links: self.count_links,
            root_device,
            recurse: walk::recurses(self.max_depth, depth),
        }
    }

    /// How many threads were asked for; at least one.
    pub fn thread_count(&self) -> (r: Option<usize>)
        ensures
            r == threads_for(self.threads),
            r == (match self.threads {
                Some(n) => Some(if n < 1 {
                    1
                } else {
                    n
                }),
                None => None,
            }),
    {
        match self.threads {
            Some(n) => Some(if n < 1 {
                1
            } else {
                n
            }),
            None => None,
        }
    }
}

/// How far the walks have come. Times are milliseconds since the scanner was
/// made.
pub struct Scanner {
    pub cancelled: bool,
    pub done: bool,
    /// Set while a subtree rescan is running; the initial walk uses `done`.
    pub busy: bool,
    /// Start of the current rescan, so elapsed time keeps moving.
    pub rescan_start: Option<u64>,
    /// Wall time of finished walks; only meaningful once `done` is set.
    pub final_ms: u64,
}

impl Scanner {
    /// A rescan runs only after the initial walk, and its clock only while it
    /// runs.
    pub open spec fn wf(self) -> bool {
        (self.rescan_start is Some ==> self.busy) && (self.busy ==> self.done)
    }

    /// The clock has not gone backwards, and the time spent fits a number.
    pub open spec fn in_time(self, now: u64) -> bool {
        self.rescan_start is Some ==> self.rescan_start->0 <= now && self.final_ms + (now - self.rescan_start->0) <= u64::MAX
    }

    /// The time spent scanning.
    pub open spec fn elapsed(self, now: u64) -> int {
        match self.rescan_start {
            Some(start) => self.final_ms + (now - start),
            None => if self.done {
                self.final_ms as int
            } else {
                now as int
            },
        }
    }

    pub fn new() -> (s: Self)
        ensures
            s.wf(),
            s == (Scanner { cancelled: false, done: false, busy: false, rescan_start: None, final_ms: 0 }),
    {
        Scanner { cancelled: false, done: false, busy: false, rescan_start: None, final_ms: 0 }
    }

    pub fn is_done(&self) -> (r: bool)
        ensures
            r == self.done,
    {
        self.done
    }

    /// True from construction until the initial walk finishes, and again while
    /// a subtree rescan is running.
    pub fn is_busy(&self) -> (r: bool)
        ensures
            forall|now: u64| r == (#[trigger] begun_again(*self, now) == *self),
            r == (!self.done || self.busy),
    {
        !self.done || self.busy
    }

    /// Time spent scanning; stops advancing once every walk is over.
    pub fn elapsed_ms(&self, now: u64) -> (r: u64)
        requires
            self.in_time(now),
        ensures
            r == self.elapsed(now),
    {
        if let Some(start) = self.rescan_start {
            return self.final_ms + (now - start);
        }
        if self.done {
            self.final_ms
        } else {
            now
        }
    }

    pub fn is_cancelled(&self) -> (r: bool)
        ensures
            r == self.cancelled,
    {
        self.cancelled
    }

    pub fn cancel(&mut self)
        ensures
            *final(self) == (Scanner { cancelled: true, ..*old(self) }),
            old(self).wf() ==> final(self).wf(),
    {
        self.cancelled = true;
    }

    /// Begins to walk one node again. Returns false when another walk owns the
    /// scanner.
    pub fn rescan(&mut self, now: u64) -> (r: bool)
        requires
            old(self).wf(),
        ensures
            r <==> old(self).done && !old(self).busy,
            *final(self) == begun_again(*old(self), now),
            final(self).wf(),
            r == (old(self).done && !old(self).busy),
            *final(self) == (if r {
                Scanner { busy: true, cancelled: false, rescan_start: Some(now), ..*old(self) }
            } else {
                *old(self)
            }),
    {
        if !self.done || self.busy {
            return false;
        }
        self.busy = true;
        self.cancelled = false;
        self.rescan_start = Some(now);
        true
    }

    /// Stops the clock of a rescan: the time it took is added to the time spent.
    pub fn stop_clock(&mut self, now: u64)
        requires
            old(self).wf(),
            old(self).in_time(now),
        ensures
            *final(self) == clock_stopped(*old(self), now),
            final(self).wf(),
            *final(self) == (Scanner {
                rescan_start: None,
                final_ms: match old(self).rescan_start {
                    Some(start) => (old(self).final_ms + (now - start)) as u64,
                    None => old(self).final_ms,
                },
                ..*old(self)
            }),
    {
        if let Some(start) = self.rescan_start {
            self.final_ms = self.final_ms + (now - start);
        }
        self.rescan_start = None;
    }

    /// Ends a rescan whose clock was stopped: the scanner is idle again.
    pub fn finish_rescan(&mut self)
        requires
            old(self).wf(),
            old(self).rescan_start is None,
        ensures
            *final(self) == idle_again(*old(self)),
            final(self).wf(),
            *final(self) == (Scanner { busy: false, ..*old(self) }),
    {
        self.busy = false;
    }

    /// Ends the initial walk.
    pub fn finish(&mut self, now: u64)
        requires
            old(self).wf(),
        ensures
            *final(self) == finished(*old(self), now),
            final(self).wf(),
            *final(self) == (Scanner { final_ms: now, done: true, ..*old(self) }),
    {
        self.final_ms = now;
        self.done = true;
    }
}

/// The scanner after the first walk is over.
pub open spec fn finished(s: Scanner, now: u64) -> Scanner {
    Scanner { final_ms: now, done: true, ..s }
}

/// The scanner after a rescan was asked for: it begins if no walk owns the
/// scanner.
pub open spec fn begun_again(s: Scanner, now: u64) -> Scanner {
    if s.done && !s.busy {
        Scanner { busy: true, cancelled: false, rescan_start: Some(now), ..s }
    } else {
        s
    }
}

/// The scanner after the clock of a rescan was stopped.
pub open spec fn clock_stopped(s: Scanner, now: u64) -> Scanner {
    Scanner {
        rescan_start: None,
        final_ms: match s.rescan_start {
            Some(start) => (s.final_ms + (now - start)) as u64,
            None => s.final_ms,
        },
        ..s
    }
}

/// The scanner after a rescan is over.
pub open spec fn idle_again(s: Scanner) -> Scanner {
    Scanner { busy: false, ..s }
}

/// The time spent does not move once every walk is over, whatever the clock
/// says.
pub proof fn law_elapsed_time_stops(s: Scanner, earlier: u64, later: u64)
    requires
        s.wf(),
        s.done,
        !s.busy,
    ensures
        s.elapsed(earlier) == s.elapsed(later),
{
}

/// A rescan adds exactly the time between its start and its end.
pub proof fn law_rescans_add_their_time(before: Scanner, started: Scanner, ended: Scanner, start: u64, end: u64, later: u64)
    requires
        before.wf(),
        before.done,
        !before.busy,
        start <= end,
        before.final_ms + (end - start) <= u64::MAX,
        started == (Scanner { busy: true, cancelled: false, rescan_start: Some(start), ..before }),
        ended == (Scanner {
            busy: false,
            rescan_start: None,
            final_ms: (started.final_ms + (end - start)) as u64,
            ..started
        }),
    ensures
        started.elapsed(end) == ended.elapsed(later),
        ended.elapsed(later) == before.elapsed(start) + (end - start),
{
}

/// Ends a walk in the tree: no directory is current any more, and the UI is
/// told to refetch.
pub fn end_walk(tree: &mut Tree)
    requires
        old(tree).wf(),
        old(tree).version < u64::MAX,
    ensures
        final(tree).wf(),
        final(tree).current@.len() == 0,
        *final(tree) == (Tree {
            current: final(tree).current,
            version: (old(tree).version + 1) as u64,
            ..*old(tree)
        }),
        old(tree).coherent() ==> final(tree).coherent(),
{
    tree.current = String::new();
    tree.version = tree.version + 1;
}

/// The path is one of those above it: following it again would never end.
pub open spec fn is_cycle(ancestors: Seq<Vec<u8>>, path: Seq<u8>) -> bool {
    exists|k: int| 0 <= k < ancestors.len() && (#[trigger] ancestors[k])@ == path
}

fn same_bytes(a: &Vec<u8>, b: &Vec<u8>) -> (r: bool)
    ensures
        r == (a@ == b@),
{
    if a.len() != b.len() {
        return false;
    }
    let mut i: usize = 0;
    while i < a.len()
        invariant
            i <= a@.len(),
            a@.len() == b@.len(),
            forall|j: int| 0 <= j < i ==> a@[j] == b@[j],
        decreases a.len() - i,
    {
        if a[i] != b[i] {
            return false;
        }
        i = i + 1;
    }
    assert(a@ =~= b@);
    true
}

/// Enters a directory while links are followed: unless its resolved path is one
/// of those above it, it joins them.
pub fn enter(ancestors: &mut Vec<Vec<u8>>, resolved: Vec<u8>) -> (entered: bool)
    ensures
        entered == !is_cycle(old(ancestors)@, resolved@),
        final(ancestors)@ == (if entered {
            old(ancestors)@.push(resolved)
        } else {
            old(ancestors)@
        }),
{
    let mut k: usize = 0;
    while k < ancestors.len()
        invariant
            k <= ancestors@.len(),
            ancestors@ == old(ancestors)@,
            forall|j: int| 0 <= j < k ==> (#[trigger] ancestors@[j])@ != resolved@,
        decreases ancestors.len() - k,
    {
        if same_bytes(&ancestors[k], &resolved) {
            assert(ancestors@[k as int]@ == resolved@);
            return false;
        }
        k = k + 1;
    }
    ancestors.push(resolved);
    true
}

/// The nodes after a directory was marked as read with an error.
pub open spec fn failed_at(nodes: Seq<Node>, id: int) -> Seq<Node> {
    nodes.update(id, Node { read: true, err: true, ..nodes[id] })
}

pub open spec fn one_more(kept: Seq<ScanError>, path: String, message: String) -> Seq<ScanError> {
    if kept.len() < MAX_KEPT_ERRORS {
        kept.push(ScanError { path, message })
    } else {
        kept
    }
}

/// Notes that a directory could not be read.
pub fn note_unreadable(tree: &mut Tree, id: u32, path: String, message: String)
    requires
        old(tree).wf(),
        old(tree).holds(id),
        old(tree).version < u64::MAX,
        old(tree).stats.errors < u64::MAX,
    ensures
        final(tree).wf(),
        final(tree).nodes@ == failed_at(old(tree).nodes@, id as int),
        final(tree).errors@ == one_more(old(tree).errors@, path, message),
        *final(tree) == (Tree {
            nodes: final(tree).nodes,
            errors: final(tree).errors,
            version: (old(tree).version + 1) as u64,
            stats: Stats { errors: (old(tree).stats.errors + 1) as u64, ..old(tree).stats },
            ..*old(tree)
        }),
        old(tree).coherent() ==> final(tree).coherent(),
{
    tree.mark_read(id, true);
    tree.record_error(path, message);
}

/// Notes a directory that was reached through a link to one above it.
pub fn note_cycle(tree: &mut Tree, id: u32, path: String)
    requires
        old(tree).wf(),
        old(tree).holds(id),
        old(tree).version < u64::MAX,
        old(tree).stats.errors < u64::MAX,
        old(tree).stats.skipped < u64::MAX,
    ensures
        final(tree).wf(),
        final(tree).nodes@ == failed_at(old(tree).nodes@, id as int),
        old(tree).errors@.len() < MAX_KEPT_ERRORS ==> final(tree).errors@.len() == old(tree).errors@.len() + 1
            && final(tree).errors@.last().path == path && final(tree).errors@.last().message@ == "symbolic link cycle"@
            && final(tree).errors@.drop_last() == old(tree).errors@,
        old(tree).errors@.len() >= MAX_KEPT_ERRORS ==> final(tree).errors@ == old(tree).errors@,
        *final(tree) == (Tree {
            nodes: final(tree).nodes,
            errors: final(tree).errors,
            version: (old(tree).version + 1) as u64,
            stats: Stats {
                errors: (old(tree).stats.errors + 1) as u64,
                skipped: (old(tree).stats.skipped + 1) as u64,
                ..old(tree).stats
            },
            ..*old(tree)
        }),
        old(tree).coherent() ==> final(tree).coherent(),
{
    tree.mark_read(id, true);
    tree.stats.skipped = tree.stats.skipped + 1;
    tree.record_error(path, "symbolic link cycle".to_owned());
}

/// A readable label for the root node: the last path component, falling back to
/// the whole path for drive roots such as `C:\`.
pub fn display_root(file_name: Option<String>, whole: String) -> (r: String)
    ensures
        r == (match file_name {
            Some(n) => n,
            None => whole,
        }),
{
    match file_name {
        Some(n) => n,
        None => whole,
    }
}

/// What a fresh look at a node gave.
pub enum Look {
    Seen(Meta),
    /// It no longer exists.
    Gone,
    /// It could not be looked at; walking it will show what is wrong.
    Failed,
}

/// What a node weighs after a fresh look.
pub open spec fn weight_seen(m: Meta, hidden: bool) -> (u64, u64) {
    if hidden {
        (0, 0)
    } else {
        (m.size, m.alloc)
    }
}

/// Whether the node counts as a cloud placeholder; of a directory that is only
/// asked when the filter is on.
pub open spec fn seen_cloud(kind: Kind, m: Meta, local_only: bool) -> bool {
    m.cloud && walk::asked(kind, local_only)
}

/// Takes on a fresh look at an attached node that is still there. Says whether
/// the node is hidden.
fn look_again(tree: &mut Tree, id: u32, local_only: bool, m: Meta) -> (hidden: bool)
    requires
        old(tree).wf(),
        old(tree).coherent(),
        old(tree).reaches(id),
        old(tree).version < u64::MAX,
        model::tally(old(tree).nodes@[0]).plus(
            rescan::own_change(
                old(tree).nodes@[id as int],
                weight_seen(m, seen_cloud(old(tree).nodes@[id as int].kind, m, local_only) && local_only).0,
                weight_seen(m, seen_cloud(old(tree).nodes@[id as int].kind, m, local_only) && local_only).1,
            ),
        ).fits(),
    ensures
        final(tree).wf(),
        final(tree).coherent(),
        final(tree).reaches(id),
        hidden == (seen_cloud(old(tree).nodes@[id as int].kind, m, local_only) && local_only),
        rescan::restated(
            old(tree).nodes@,
            final(tree).nodes@,
            id as int,
            weight_seen(m, hidden).0,
            weight_seen(m, hidden).1,
            m.mtime,
            false,
            seen_cloud(old(tree).nodes@[id as int].kind, m, local_only),
        ),
        *final(tree) == (Tree {
            nodes: final(tree).nodes,
            version: (old(tree).version + 1) as u64,
            stats: if id == ROOT {
                old(tree).stats
            } else {
                rescan::shifted(
                    old(tree).stats,
                    rescan::own_change(
                        old(tree).nodes@[id as int],
                        weight_seen(m, hidden).0,
                        weight_seen(m, hidden).1,
                    ),
                )
            },
            ..*old(tree)
        }),
{
    let ghost before = tree.nodes@;
    let cloud = m.cloud && (tree.nodes[id as usize].kind != Kind::Dir || local_only);
    let hidden = cloud && local_only;
    let size: u64 = if hidden {
        0
    } else {
        m.size
    };
    let alloc: u64 = if hidden {
        0
    } else {
        m.alloc
    };
    tree.restat(id, size, alloc, m.mtime, false, cloud);
    proof {
        assert forall|j: int| 0 <= j < before.len() implies (#[trigger] before[j]).parent == tree.nodes@[j].parent
            && before[j].removed == tree.nodes@[j].removed by {}
        model::lemma_attached_same_links(before, tree.nodes@, id as int);
    }
    hidden
}

/// What is to be done with a node that is scanned again.
#[derive(Clone, Copy, PartialEq, Eq, Debug, Structural)]
pub enum Again {
    /// Nothing more.
    Settled,
    /// Its contents are to be walked, from this depth on.
    Walk(u16),
}

/// The changes that a fresh look needs have room in the tree.
pub open spec fn look_fits(t: Tree, id: u32, local_only: bool, look: Look) -> bool {
    let n = t.nodes@[id as int];
    &&& t.version + n.children@.len() + 3 <= u64::MAX
    &&& look matches Look::Seen(m) ==> {
        let w = weight_seen(m, seen_cloud(n.kind, m, local_only) && local_only);
        model::tally(t.nodes@[0]).plus(rescan::own_change(n, w.0, w.1)).fits()
    }
}

/// `total - was + is`, if it fits.
fn shifted(total: u64, was: u64, is: u64) -> (r: bool)
    ensures
        r == (total + (is - was) <= u64::MAX),
{
    let sum: u128 = total as u128 + is as u128;
    sum <= u64::MAX as u128 + was as u128
}

/// Whether the changes that a fresh look needs have room in the tree.
pub fn look_has_room(tree: &Tree, id: u32, local_only: bool, look: &Look) -> (r: bool)
    requires
        tree.wf(),
        tree.holds(id),
    ensures
        r == look_fits(*tree, id, local_only, *look),
{
    let n = &tree.nodes[id as usize];
    let root = &tree.nodes[0];
    let changes: u128 = tree.version as u128 + n.children.len() as u128 + 3;
    if changes > u64::MAX as u128 {
        return false;
    }
    match look {
        Look::Seen(m) => {
            let hidden = m.cloud && (n.kind != Kind::Dir || local_only) && local_only;
            let size: u64 = if hidden {
                0
            } else {
                m.size
            };
            let alloc: u64 = if hidden {
                0
            } else {
                m.alloc
            };
            shifted(root.total_size, n.self_size, size) && shifted(root.total_alloc, n.self_alloc, alloc)
        },
        _ => true,
    }
}

/// The node turns out to be hidden.
pub open spec fn hidden_now(n: Node, local_only: bool, look: Look) -> bool {
    look matches Look::Seen(m) && seen_cloud(n.kind, m, local_only) && local_only
}

/// The nodes after a fresh look at one that is still there.
pub open spec fn looked(a: Seq<Node>, b: Seq<Node>, id: int, local_only: bool, look: Look) -> bool {
    match look {
        Look::Seen(m) => rescan::restated(
            a,
            b,
            id,
            weight_seen(m, hidden_now(a[id], local_only, look)).0,
            weight_seen(m, hidden_now(a[id], local_only, look)).1,
            m.mtime,
            false,
            seen_cloud(a[id].kind, m, local_only),
        ),
        _ => b == a,
    }
}

/// The nodes after a directory was emptied; it counts as read if it is not
/// going to be walked.
pub open spec fn emptied_as(a: Seq<Node>, b: Seq<Node>, id: int, read: bool) -> bool {
    b[id].read == read && rescan::emptied(a, b.update(id, Node { read: false, ..b[id] }), id)
}

/// How often the version moves on while a directory is emptied.
pub open spec fn changes_to_empty(n: Node, hidden: bool) -> int {
    n.children@.len() + if hidden {
        2int
    } else {
        1int
    }
}

/// What everything above loses when a directory is emptied, as a change.
pub open spec fn contents_lost(nodes: Seq<Node>, id: int) -> Tally {
    Tally::zero().minus(aggregate::shares(nodes, nodes[id].children@))
}

/// Empties a directory before it is walked again. One that is hidden is never
/// descended into, so it must not keep a "scanning" mark.
fn make_room(tree: &mut Tree, id: u32, hidden: bool)
    requires
        old(tree).wf(),
        old(tree).coherent(),
        old(tree).reaches(id),
        old(tree).version + old(tree).nodes@[id as int].children@.len() + 2 <= u64::MAX,
    ensures
        final(tree).wf(),
        final(tree).coherent(),
        final(tree).reaches(id),
        emptied_as(old(tree).nodes@, final(tree).nodes@, id as int, hidden),
        *final(tree) == (Tree {
            nodes: final(tree).nodes,
            version: (old(tree).version + changes_to_empty(old(tree).nodes@[id as int], hidden)) as u64,
            stats: rescan::shifted(old(tree).stats, contents_lost(old(tree).nodes@, id as int)),
            ..*old(tree)
        }),
{
    tree.reset_children(id);
    let ghost mid = tree.nodes@;
    if hidden {
        tree.mark_read(id, false);
    }
    proof {
        let b = tree.nodes@;
        assert(b.update(id as int, Node { read: false, ..b[id as int] }) =~= mid);
        assert forall|j: int| 0 <= j < mid.len() implies (#[trigger] mid[j]).parent == b[j].parent && mid[j].removed
            == b[j].removed by {}
        model::lemma_attached_same_links(mid, b, id as int);
    }
}

/// The nodes after a node that is still there was scanned again, up to the walk
/// of its contents.
pub open spec fn scanned_again(a: Seq<Node>, b: Seq<Node>, id: int, local_only: bool, look: Look) -> bool {
    exists|mid: Seq<Node>|
        {
            &&& #[trigger] looked(a, mid, id, local_only, look)
            &&& if a[id].kind == Kind::Dir {
                emptied_as(mid, b, id, hidden_now(a[id], local_only, look))
            } else {
                b == mid
            }
        }
}

/// The errors that are kept once those at a node were cleared.
pub open spec fn errors_left(errors: Seq<ScanError>, prefix: Option<&str>, backslash: bool) -> Seq<ScanError> {
    match prefix {
        Some(p) => errors.filter(rescan::kept_error(p@, backslash)),
        None => errors,
    }
}

/// How often the version moves on while a node is scanned again.
pub open spec fn changes_again(n: Node, is_root: bool, local_only: bool, look: Look) -> int {
    let first: int = match look {
        Look::Seen(_) => 1,
        Look::Gone => if is_root {
            0
        } else {
            1
        },
        Look::Failed => 0,
    };
    if n.kind == Kind::Dir && !(look is Gone) {
        first + changes_to_empty(n, hidden_now(n, local_only, look))
    } else {
        first
    }
}

/// The counters once those errors at a node were cleared that are no longer
/// kept.
pub open spec fn errors_uncounted(t: Tree, prefix: Option<&str>, backslash: bool) -> Stats {
    Stats {
        errors: model::less(t.stats.errors as int, t.errors@.len() - errors_left(t.errors@, prefix, backslash).len()) as u64,
        ..t.stats
    }
}

/// The counters once a node was scanned again, up to the walk of its contents.
pub open spec fn stats_again(
    t: Tree,
    id: u32,
    local_only: bool,
    prefix: Option<&str>,
    backslash: bool,
    look: Look,
) -> Stats {
    let n = t.nodes@[id as int];
    let cleared = errors_uncounted(t, prefix, backslash);
    if look is Gone {
        if id == ROOT {
            cleared
        } else {
            rescan::lessened(cleared, model::removal(n))
        }
    } else {
        let seen = match look {
            Look::Seen(m) => if id == ROOT {
                cleared
            } else {
                let w = weight_seen(m, hidden_now(n, local_only, look));
                rescan::shifted(cleared, rescan::own_change(n, w.0, w.1))
            },
            _ => cleared,
        };
        if n.kind == Kind::Dir {
            rescan::shifted(seen, contents_lost(t.nodes@, id as int))
        } else {
            seen
        }
    }
}

/// What is to be done with a node once a fresh look was taken.
pub open spec fn again_of(n: Node, local_only: bool, look: Look) -> Again {
    if look is Gone || n.kind != Kind::Dir || hidden_now(n, local_only, look) {
        Again::Settled
    } else {
        Again::Walk(n.depth)
    }
}

/// The first half of scanning a node again: refresh the node itself and, for a
/// directory, make room for its contents. `prefix` is where its errors were
/// recorded; `backslash` says whether backslashes separate the parts of a path.
pub fn scan_again(
    tree: &mut Tree,
    id: u32,
    local_only: bool,
    prefix: Option<&str>,
    backslash: bool,
    look: Look,
) -> (r: Again)
    requires
        old(tree).wf(),
        old(tree).coherent(),
        old(tree).reaches(id) ==> look_fits(*old(tree), id, local_only, look),
    ensures
        final(tree).wf(),
        final(tree).coherent(),
        !old(tree).reaches(id) ==> r == Again::Settled && *final(tree) == *old(tree),
        old(tree).reaches(id) ==> {
            let n = old(tree).nodes@[id as int];
            &&& final(tree).errors@ == errors_left(old(tree).errors@, prefix, backslash)
            &&& r == again_of(n, local_only, look)
            &&& *final(tree) == (Tree {
                nodes: final(tree).nodes,
                errors: final(tree).errors,
                version: (old(tree).version + changes_again(n, id == ROOT, local_only, look)) as u64,
                stats: stats_again(*old(tree), id, local_only, prefix, backslash, look),
                ..*old(tree)
            })
            &&& look is Gone && id == ROOT ==> final(tree).nodes == old(tree).nodes
            &&& look is Gone && id != ROOT ==> model::uprooted(old(tree).nodes@, final(tree).nodes@, id as int)
            &&& !(look is Gone) ==> final(tree).reaches(id) && scanned_again(
                old(tree).nodes@,
                final(tree).nodes@,
                id as int,
                local_only,
                look,
            )
        },
{
    let (kind, depth) = match tree.get(id) {
        Some(n) => (n.kind, n.depth),
        None => {
            return Again::Settled;
        },
    };
    let ghost before = tree.nodes@;
    if let Some(p) = prefix {
        tree.clear_errors_under(p, backslash);
    }
    assert(tree.stats == errors_uncounted(*old(tree), prefix, backslash));
    let mut hidden = false;
    match look {
        Look::Seen(m) => {
            hidden = look_again(tree, id, local_only, m);
        },
        Look::Gone => {
            proof {
                lemma_dirs_below_max(*tree, id);
            }
            tree.remove(id);
            return Again::Settled;
        },
        Look::Failed => {},
    }
    let ghost mid = tree.nodes@;
    assert(looked(before, mid, id as int, local_only, look));
    if kind != Kind::Dir {
        return Again::Settled;
    }
    proof {
        lemma_contents_untouched(before, mid, id as int, local_only, look);
    }
    make_room(tree, id, hidden);
    if hidden {
        return Again::Settled;
    }
    Again::Walk(depth)
}

/// A fresh look at a directory does not change what its children weigh.
proof fn lemma_contents_untouched(a: Seq<Node>, b: Seq<Node>, id: int, local_only: bool, look: Look)
    requires
        model::shape(a),
        0 <= id < a.len(),
        !(look is Gone),
        looked(a, b, id, local_only, look),
    ensures
        b[id].children == a[id].children,
        contents_lost(b, id) == contents_lost(a, id),
{
    let kids = a[id].children@;
    assert forall|k: int| 0 <= k < kids.len() implies model::share(a[(#[trigger] kids[k]) as int]) == model::share(
        b[kids[k] as int],
    ) by {
        let c = kids[k] as int;
        assert(model::listed(a, id, a[id].children@[k]));
        if model::above(a, c, id) {
            model::lemma_above_bounds(a, c, id);
        }
    }
    aggregate::lemma_shares_same(a, b, kids);
}

/// In a coherent tree the count of directories below a node that can be removed
/// leaves room for the node itself.
proof fn lemma_dirs_below_max(t: Tree, id: u32)
    requires
        t.wf(),
        t.coherent(),
        t.reaches(id),
    ensures
        id != ROOT && t.nodes@[id as int].kind == Kind::Dir ==> t.nodes@[id as int].dirs < u32::MAX,
{
    if id != ROOT {
        model::lemma_root_above(t.nodes@, id as int);
        aggregate::law_ancestors_cover(t.nodes@, 0, id as int);
    }
}

} // verus!
