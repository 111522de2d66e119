//! Duplicate detection.
//!
//! Three stages, each one only looking at what survived the previous:
//!
//! 1. refresh metadata and group by current size,
//! 2. hash a small window at each end of the file, which separates files that
//!    merely share a header,
//! 3. hash the whole file.
//!
//! In a typical tree the first stage decides almost everything, so the number
//! of files actually read is a small fraction of the number scanned. Digests
//! are recomputed on each run so a rescan also observes changed file contents.
//!
//! Files are read elsewhere. What is kept here is what a run has found, which
//! run may still report, and how candidates become groups.

pub mod digest;
pub mod grouping;
pub mod laws;
pub mod stages;

use vstd::prelude::*;

use crate::dupes::grouping::Digested;
use crate::order;
use crate::order::Ranking;
use crate::sums;
use crate::tree::candidates::Candidate;
use crate::tree::Tree;

verus! {

#[derive(Clone, Copy, PartialEq, Eq, Debug, Structural)]
pub enum Phase {
    /// Never run for the current scope.
    Idle,
    Grouping,
    Windowing,
    Hashing,
    Done,
    Cancelled,
}

#[derive(Clone, Copy, Debug)]
pub struct DupeProgress {
    pub phase: Phase,
    pub scope: u32,
    pub min_size: u64,
    /// Files that survived the size grouping.
    pub candidates: u64,
    pub read: u64,
    pub bytes_read: u64,
    pub bytes_total: u64,
    pub groups: u64,
    /// Bytes that would come back if every group kept one copy.
    pub wasted: u64,
    pub elapsed_ms: u64,
    /// Bumped on every new run so the UI can tell results apart.
    pub generation: u64,
}

/// Progress before anything has happened.
pub open spec fn idle() -> DupeProgress {
    DupeProgress {
        phase: Phase::Idle,
        scope: 0,
        min_size: 0,
        candidates: 0,
        read: 0,
        bytes_read: 0,
        bytes_total: 0,
        groups: 0,
        wasted: 0,
        elapsed_ms: 0,
        generation: 0,
    }
}

impl Default for DupeProgress {
    fn default() -> (p: Self)
        ensures
            p == idle(),
    {
        DupeProgress {
            phase: Phase::Idle,
            scope: 0,
            min_size: 0,
            candidates: 0,
            read: 0,
            bytes_read: 0,
            bytes_total: 0,
            groups: 0,
            wasted: 0,
            elapsed_ms: 0,
            generation: 0,
        }
    }
}

pub struct DupeFile {
    pub id: u32,
    pub path: String,
}

pub struct DupeGroup {
    pub size: u64,
    /// `(copies - 1) * size`, what deleting all but one would free.
    pub wasted: u64,
    pub files: Vec<DupeFile>,
}

/// What a group says: the size of a copy, and where the copies are.
pub struct Copies {
    pub size: u64,
    pub files: Seq<DupeFile>,
}

impl Copies {
    /// What deleting all but one would free.
    pub open spec fn wasted(self) -> int {
        if self.files.len() == 0 {
            0
        } else {
            self.size * (self.files.len() - 1)
        }
    }
}

pub open spec fn copies(g: DupeGroup) -> Copies {
    Copies { size: g.size, files: g.files@ }
}

pub open spec fn all_copies(v: Seq<DupeGroup>) -> Seq<Copies> {
    v.map_values(|g: DupeGroup| copies(g))
}

pub open spec fn waste() -> spec_fn(Copies) -> int {
    |c: Copies| c.wasted()
}

/// Every group says truly what it wastes, and together they waste no more than
/// a number holds.
pub open spec fn honest(v: Seq<DupeGroup>) -> bool {
    &&& forall|k: int| 0 <= k < v.len() ==> (#[trigger] v[k]).wasted == copies(v[k]).wasted()
    &&& sums::total(all_copies(v), waste()) <= u64::MAX
}

/// What has been found, and by which run.
pub struct Dupes {
    pub progress: DupeProgress,
    pub groups: Vec<DupeGroup>,
    /// Incremented per run; a worker whose generation is stale gives up.
    pub generation: u64,
}

/// A change that a running worker reports.
pub enum Update {
    /// The candidates were grouped by size.
    Grouped { candidates: u64, bytes_total: u64 },
    /// Whole files are being hashed.
    Hashing,
    /// The run reached this phase.
    Reached(Phase),
}

/// Progress after an update.
pub open spec fn updated(p: DupeProgress, u: Update) -> DupeProgress {
    match u {
        Update::Grouped { candidates, bytes_total } => DupeProgress {
            candidates,
            bytes_total,
            phase: Phase::Windowing,
            ..p
        },
        Update::Hashing => DupeProgress { phase: Phase::Hashing, ..p },
        Update::Reached(phase) => DupeProgress { phase, ..p },
    }
}

/// Progress at the start of a run.
pub open spec fn begun(generation: u64, scope: u32, min_size: u64) -> DupeProgress {
    DupeProgress { phase: Phase::Grouping, scope, min_size, generation, ..idle() }
}

/// The phase after a cancellation: what is done stays done.
pub open spec fn cancelled(phase: Phase) -> Phase {
    if phase == Phase::Done {
        Phase::Done
    } else {
        Phase::Cancelled
    }
}

/// Progress after the run `generation` has ended; that of a later run is not its
/// business.
pub open spec fn ended(p: DupeProgress, generation: u64, outcome: bool, elapsed_ms: u64) -> DupeProgress {
    if p.generation == generation {
        DupeProgress {
            phase: if outcome {
                Phase::Done
            } else {
                Phase::Cancelled
            },
            elapsed_ms,
            ..p
        }
    } else {
        p
    }
}

/// Progress after the run `generation` has read one more file.
pub open spec fn one_more_read(p: DupeProgress, generation: u64, bytes: u64) -> DupeProgress {
    if p.generation == generation {
        DupeProgress { read: (p.read + 1) as u64, bytes_read: (p.bytes_read + bytes) as u64, ..p }
    } else {
        p
    }
}

/// A run that had not come to an end cannot come to one any more.
pub open spec fn interrupted(phase: Phase) -> Phase {
    match phase {
        Phase::Grouping | Phase::Windowing | Phase::Hashing => Phase::Cancelled,
        Phase::Done | Phase::Cancelled | Phase::Idle => phase,
    }
}

pub open spec fn in_tree(t: Tree) -> spec_fn(DupeFile) -> bool {
    |f: DupeFile| t.reaches(f.id)
}

/// A group without the files that are gone from the tree.
pub open spec fn surviving(t: Tree) -> spec_fn(Copies) -> Copies {
    |c: Copies| Copies { size: c.size, files: c.files.filter(in_tree(t)) }
}

pub open spec fn still_shared() -> spec_fn(Copies) -> bool {
    |c: Copies| c.files.len() > 1
}

/// The groups that are left once files have gone from the tree.
pub open spec fn survivors(t: Tree, v: Seq<Copies>) -> Seq<Copies> {
    v.map_values(surviving(t)).filter(still_shared())
}

impl Dupes {
    /// What every operation keeps: progress belongs to the current generation,
    /// and the groups are honest.
    pub open spec fn wf(self) -> bool {
        self.progress.generation == self.generation && honest(self.groups@)
    }

    pub fn new() -> (d: Self)
        ensures
            d.wf(),
            d.progress == idle(),
            d.groups@.len() == 0,
            d.generation == 0,
    {
        Dupes { progress: DupeProgress::default(), groups: Vec::new(), generation: 0 }
    }

    pub fn progress(&self) -> (p: DupeProgress)
        ensures
            p == self.progress,
    {
        self.progress
    }

    pub fn groups(&self) -> (r: Vec<DupeGroup>)
        ensures
            r@.len() == self.groups@.len(),
            forall|k: int|
                0 <= k < r@.len() ==> (#[trigger] r@[k]).size == self.groups@[k].size && r@[k].wasted == self.groups@[k].wasted
                    && r@[k].files@ == self.groups@[k].files@,
    {
        let mut out: Vec<DupeGroup> = Vec::new();
        let mut i: usize = 0;
        while i < self.groups.len()
            invariant
                i <= self.groups@.len(),
                out@.len() == i,
                forall|k: int|
                    0 <= k < i ==> (#[trigger] out@[k]).size == self.groups@[k].size && out@[k].wasted == self.groups@[k].wasted
                        && out@[k].files@ == self.groups@[k].files@,
            decreases self.groups.len() - i,
        {
            let g = &self.groups[i];
            let mut files: Vec<DupeFile> = Vec::new();
            let mut j: usize = 0;
            while j < g.files.len()
                invariant
                    j <= g.files@.len(),
                    files@ == g.files@.take(j as int),
                decreases g.files.len() - j,
            {
                files.push(DupeFile { id: g.files[j].id, path: g.files[j].path.clone() });
                j = j + 1;
                assert(g.files@.take(j as int) =~= g.files@.take(j - 1).push(g.files@[j - 1]));
            }
            assert(g.files@.take(j as int) =~= g.files@);
            out.push(DupeGroup { size: g.size, wasted: g.wasted, files });
            i = i + 1;
        }
        out
    }

    /// Begins a run, replacing whatever was running. Returns the generation
    /// number of the new run.
    pub fn start(&mut self, scope: u32, min_size: u64) -> (generation: u64)
        requires
            old(self).wf(),
            old(self).generation < u64::MAX,
        ensures
            final(self).progress == begun(generation, scope, min_size),
            final(self).wf(),
            generation == old(self).generation + 1,
            final(self).generation == generation,
            final(self).progress == (DupeProgress { phase: Phase::Grouping, scope, min_size, generation, ..idle() }),
            final(self).groups@.len() == 0,
    {
        let generation: u64 = self.generation + 1;
        self.generation = generation;
        self.progress = DupeProgress { phase: Phase::Grouping, scope, min_size, generation, ..DupeProgress::default() };
        self.groups = Vec::new();
        generation
    }

    /// Stops whatever is running. Moving the generation on is enough: the
    /// worker checks it constantly.
    pub fn cancel(&mut self)
        requires
            old(self).wf(),
            old(self).generation < u64::MAX,
        ensures
            final(self).progress.phase == cancelled(old(self).progress.phase),
            final(self).wf(),
            final(self).generation == old(self).generation + 1,
            final(self).groups == old(self).groups,
            final(self).progress == (DupeProgress {
                generation: (old(self).generation + 1) as u64,
                phase: if old(self).progress.phase == Phase::Done {
                    Phase::Done
                } else {
                    Phase::Cancelled
                },
                ..old(self).progress
            }),
    {
        self.generation = self.generation + 1;
        self.progress.generation = self.generation;
        if self.progress.phase != Phase::Done {
            self.progress.phase = Phase::Cancelled;
        }
    }

    /// Drops removed files, including descendants of trashed directories,
    /// and publishes a new revision so the UI refetches its result list.
    pub fn forget_removed(&mut self, tree: &Tree)
        requires
            old(self).wf(),
            old(self).generation < u64::MAX,
            tree.wf(),
        ensures
            final(self).wf(),
            final(self).generation == old(self).generation + 1,
            all_copies(final(self).groups@) == survivors(*tree, all_copies(old(self).groups@)),
            final(self).progress == (DupeProgress {
                generation: (old(self).generation + 1) as u64,
                groups: final(self).groups@.len() as u64,
                wasted: sums::total(all_copies(final(self).groups@), waste()) as u64,
                phase: interrupted(old(self).progress.phase),
                ..old(self).progress
            }),
    {
        self.generation = self.generation + 1;
        self.progress.generation = self.generation;
        let mut before: Vec<DupeGroup> = Vec::new();
        std::mem::swap(&mut before, &mut self.groups);
        let groups = remaining(tree, before);
        self.progress.groups = groups.len() as u64;
        self.progress.wasted = total_wasted(&groups);
        self.groups = groups;
        match self.progress.phase {
            // The inputs changed under the running scan, so it cannot finish
            // coherently. Marking it cancelled also stops the worker, whose
            // generation no longer matches.
            Phase::Grouping | Phase::Windowing | Phase::Hashing => {
                self.progress.phase = Phase::Cancelled;
            },
            // Force the UI to refetch the now smaller result list.
            Phase::Done | Phase::Cancelled | Phase::Idle => {},
        }
    }

    /// Whether a run has been superseded or cancelled.
    pub fn stale(&self, generation: u64) -> (r: bool)
        ensures
            r == (self.generation != generation),
    {
        self.generation != generation
    }

    /// Ends a run. A superseded run changes nothing.
    pub fn finish(&mut self, generation: u64, outcome: bool, elapsed_ms: u64)
        requires
            old(self).wf(),
        ensures
            final(self).progress == ended(old(self).progress, generation, outcome, elapsed_ms),
            final(self).wf(),
            final(self).generation == old(self).generation,
            final(self).groups == old(self).groups,
            final(self).progress == (if old(self).generation == generation {
                DupeProgress {
                    phase: if outcome {
                        Phase::Done
                    } else {
                        Phase::Cancelled
                    },
                    elapsed_ms,
                    ..old(self).progress
                }
            } else {
                old(self).progress
            }),
    {
        if self.progress.generation != generation {
            return ;
        }
        self.progress.phase = if outcome {
            Phase::Done
        } else {
            Phase::Cancelled
        };
        self.progress.elapsed_ms = elapsed_ms;
    }

    /// Publishes what a run has found, unless the run was superseded: a
    /// superseded run must not overwrite the list of the one that replaced it.
    pub fn publish(&mut self, generation: u64, groups: Vec<DupeGroup>, elapsed_ms: u64) -> (published: bool)
        requires
            old(self).wf(),
            honest(groups@),
        ensures
            final(self).wf(),
            final(self).generation == old(self).generation,
            published == (old(self).generation == generation),
            !published ==> *final(self) == *old(self),
            published ==> {
                &&& final(self).groups == groups
                &&& final(self).progress == (DupeProgress {
                    groups: groups@.len() as u64,
                    wasted: sums::total(all_copies(groups@), waste()) as u64,
                    elapsed_ms,
                    ..old(self).progress
                })
            },
    {
        if self.stale(generation) {
            return false;
        }
        self.progress.groups = groups.len() as u64;
        self.progress.wasted = total_wasted(&groups);
        self.progress.elapsed_ms = elapsed_ms;
        self.groups = groups;
        true
    }

    /// Counts a file that was read. A superseded run must not pollute the
    /// counters of the one that replaced it.
    pub fn record_read(&mut self, generation: u64, bytes: u64)
        requires
            old(self).wf(),
            old(self).generation == generation ==> old(self).progress.read < u64::MAX && old(self).progress.bytes_read + bytes
                <= u64::MAX,
        ensures
            final(self).progress == one_more_read(old(self).progress, generation, bytes),
            final(self).wf(),
            final(self).generation == old(self).generation,
            final(self).groups == old(self).groups,
            final(self).progress == (if old(self).generation == generation {
                DupeProgress {
                    read: (old(self).progress.read + 1) as u64,
                    bytes_read: (old(self).progress.bytes_read + bytes) as u64,
                    ..old(self).progress
                }
            } else {
                old(self).progress
            }),
    {
        if self.progress.generation == generation {
            self.progress.read = self.progress.read + 1;
            self.progress.bytes_read = self.progress.bytes_read + bytes;
        }
    }

    /// Takes on what a worker reports, unless its run was superseded.
    pub fn update(&mut self, generation: u64, update: Update)
        requires
            old(self).wf(),
        ensures
            final(self).wf(),
            final(self).generation == old(self).generation,
            final(self).groups == old(self).groups,
            final(self).progress == (if old(self).generation == generation {
                updated(old(self).progress, update)
            } else {
                old(self).progress
            }),
    {
        if self.progress.generation == generation {
            match update {
                Update::Grouped { candidates, bytes_total } => {
                    self.progress.candidates = candidates;
                    self.progress.bytes_total = bytes_total;
                    self.progress.phase = Phase::Windowing;
                },
                Update::Hashing => {
                    self.progress.phase = Phase::Hashing;
                },
                Update::Reached(phase) => {
                    self.progress.phase = phase;
                },
            }
        }
    }
}

/// What all groups waste together.
fn total_wasted(groups: &Vec<DupeGroup>) -> (r: u64)
    requires
        honest(groups@),
    ensures
        r == sums::total(all_copies(groups@), waste()),
{
    let ghost all = all_copies(groups@);
    let mut sum: u64 = 0;
    let mut i: usize = 0;
    assert(all.take(0) =~= Seq::<Copies>::empty());
    while i < groups.len()
        invariant
            i <= groups@.len(),
            all == all_copies(groups@),
            honest(groups@),
            sum == sums::total(all.take(i as int), waste()),
        decreases groups.len() - i,
    {
        proof {
            assert(all.take(i + 1) =~= all.take(i as int).push(all[i as int]));
            sums::lemma_total_push(all.take(i as int), all[i as int], waste());
            lemma_waste_nonneg(all);
            sums::lemma_total_part(all, i + 1, waste());
            assert(groups@[i as int].wasted == copies(groups@[i as int]).wasted());
        }
        sum = sum + groups[i].wasted;
        i = i + 1;
    }
    assert(all.take(i as int) =~= all);
    sum
}

proof fn lemma_waste_nonneg(v: Seq<Copies>)
    ensures
        forall|k: int| 0 <= k < v.len() ==> waste()(#[trigger] v[k]) >= 0,
{
    assert forall|k: int| 0 <= k < v.len() implies waste()(#[trigger] v[k]) >= 0 by {
        let c = v[k];
        if c.files.len() > 0 {
            assert(c.size * (c.files.len() - 1) >= 0) by (nonlinear_arith)
                requires
                    c.size >= 0,
                    c.files.len() - 1 >= 0,
            ;
        }
    }
}

/// Fewer files waste less.
proof fn lemma_less_waste(c: Copies, d: Copies)
    requires
        c.size == d.size,
        d.files.len() <= c.files.len(),
    ensures
        0 <= d.wasted() <= c.wasted(),
{
    if d.files.len() > 0 {
        let x = d.files.len() - 1;
        let y = c.files.len() - 1;
        assert(0 <= d.size * x <= c.size * y) by (nonlinear_arith)
            requires
                c.size == d.size,
                0 <= x <= y,
                c.size >= 0,
        ;
    } else if c.files.len() > 0 {
        let y = c.files.len() - 1;
        assert(0 <= c.size * y) by (nonlinear_arith)
            requires
                0 <= y,
                c.size >= 0,
        ;
    }
}

/// The files of a group that are still in the tree.
fn remaining_files(tree: &Tree, files: Vec<DupeFile>) -> (r: Vec<DupeFile>)
    requires
        tree.wf(),
    ensures
        r@ == files@.filter(in_tree(*tree)),
{
    let ghost keep = in_tree(*tree);
    let mut out: Vec<DupeFile> = Vec::new();
    proof {
        reveal(Seq::filter);
    }
    for f in it: files
        invariant
            tree.wf(),
            keep == in_tree(*tree),
            it.seq() == files@,
            out@ == it.seq().take(it.index() as int).filter(keep),
    {
        proof {
            reveal(Seq::filter);
            assert(it.seq().take(it.index() + 1).drop_last() =~= it.seq().take(it.index() as int));
        }
        if tree.get(f.id).is_some() {
            out.push(f);
        }
    }
    assert(files@.take(files@.len() as int) =~= files@);
    out
}

/// The groups that are left once files have gone from the tree.
fn remaining(tree: &Tree, groups: Vec<DupeGroup>) -> (r: Vec<DupeGroup>)
    requires
        tree.wf(),
        honest(groups@),
    ensures
        all_copies(r@) == survivors(*tree, all_copies(groups@)),
        honest(r@),
{
    let ghost all = all_copies(groups@);
    let ghost thin = surviving(*tree);
    let ghost mapped = all.map_values(thin);
    let ghost many = still_shared();
    let mut out: Vec<DupeGroup> = Vec::new();
    proof {
        reveal(Seq::filter);
        assert(all_copies(out@) =~= mapped.take(0).filter(many));
        assert(all.take(0) =~= Seq::<Copies>::empty());
    }
    for g in it: groups
        invariant
            tree.wf(),
            honest(it.seq()),
            all == all_copies(it.seq()),
            thin == surviving(*tree),
            mapped == all.map_values(thin),
            many == still_shared(),
            all_copies(out@) == mapped.take(it.index() as int).filter(many),
            forall|k: int| 0 <= k < out@.len() ==> (#[trigger] out@[k]).wasted == copies(out@[k]).wasted(),
            sums::total(all_copies(out@), waste()) <= sums::total(all.take(it.index() as int), waste()),
    {
        let ghost i = it.index() as int;
        let ghost g0 = g;
        proof {
            reveal(Seq::filter);
            assert(mapped.take(i + 1).drop_last() =~= mapped.take(i));
            assert(all[i] == copies(g));
            assert(all.take(i + 1) =~= all.take(i).push(all[i]));
            sums::lemma_total_push(all.take(i), all[i], waste());
            lemma_waste_nonneg(all);
            lemma_waste_nonneg(all.take(i + 1));
            assert(waste()(all[i]) >= 0);
            assert(g0.wasted == copies(g0).wasted());
        }
        let size: u64 = g.size;
        let files = remaining_files(tree, g.files);
        let ghost c = Copies { size, files: files@ };
        proof {
            assert(mapped.take(i + 1).last() == c);
            g0.files@.lemma_filter_len(in_tree(*tree));
            lemma_less_waste(copies(g0), c);
        }
        if files.len() > 1 {
            let extra: u64 = files.len() as u64 - 1;
            assert(c.wasted() == size * extra);
            let wasted: u64 = size * extra;
            let ghost o0 = out@;
            let kept = DupeGroup { size, wasted, files };
            out.push(kept);
            proof {
                assert(all_copies(out@) =~= all_copies(o0).push(c));
                sums::lemma_total_push(all_copies(o0), c, waste());
            }
        }
    }
    proof {
        assert(mapped.take(mapped.len() as int) =~= mapped);
        assert(all.take(all.len() as int) =~= all);
    }
    out
}

/// What a fresh look at a file gave.
#[derive(Clone, Copy, Debug)]
pub struct FileStat {
    pub len: u64,
    pub is_file: bool,
    /// Its bytes live in the cloud, not here.
    pub cloud: bool,
}

/// Whether a file is still worth comparing: a file of at least `min` bytes, and
/// of one at least, that are on this disk.
pub open spec fn comparable(s: FileStat, min: u64) -> bool {
    s.is_file && !s.cloud && s.len >= min && s.len >= 1
}

/// A candidate with its current size, if it is still worth comparing. Files
/// that can no longer be looked at drop out.
pub fn refreshed(c: Candidate, stat: Option<FileStat>, min_size: u64) -> (r: Option<Candidate>)
    ensures
        r == (match stat {
            Some(s) => if comparable(s, min_size) {
                Some(Candidate { size: s.len, ..c })
            } else {
                None
            },
            None => None,
        }),
        r is Some <==> stat is Some && stat->0.is_file && !stat->0.cloud && stat->0.len >= min_size && stat->0.len > 0,
        r is Some ==> r->0.id == c.id && r->0.path == c.path && r->0.size == stat->0.len,
{
    match stat {
        Some(s) => if !s.is_file || s.cloud || s.len < min_size || s.len < 1 {
            None
        } else {
            Some(Candidate { id: c.id, size: s.len, path: c.path })
        },
        None => None,
    }
}

/// Those of the first `n` candidates that are still worth comparing, with their
/// current sizes.
pub open spec fn refreshed_of(all: Seq<Candidate>, stats: Seq<Option<FileStat>>, min: u64, n: nat) -> Seq<Candidate>
    decreases n,
{
    if n == 0 {
        Seq::empty()
    } else {
        let before = refreshed_of(all, stats, min, (n - 1) as nat);
        match stats[n - 1] {
            Some(s) => if comparable(s, min) {
                before.push(Candidate { size: s.len, ..all[n - 1] })
            } else {
                before
            },
            None => before,
        }
    }
}

/// The first stage: candidates grouped by the size that a fresh look gave.
/// `stats` holds what was seen, one for each candidate.
pub fn survey(candidates: Vec<Candidate>, stats: &Vec<Option<FileStat>>, min_size: u64) -> (r: Vec<Vec<Candidate>>)
    requires
        stats@.len() == candidates@.len(),
    ensures
        grouping::lists(r@) == grouping::members(
            grouping::groups(
                refreshed_of(candidates@, stats@, min_size, candidates@.len()),
                grouping::size_of(),
            ),
        ),
        forall|k: int| 0 <= k < r@.len() ==> (#[trigger] r@[k])@.len() > 0,
{
    let ghost all = candidates@;
    let count: usize = stats.len();
    let mut kept: Vec<Candidate> = Vec::new();
    let mut i: usize = 0;
    for c in it: candidates
        invariant
            it.seq() == all,
            count == stats@.len(),
            stats@.len() == all.len(),
            i == it.index(),
            kept@ == refreshed_of(all, stats@, min_size, i as nat),
    {
        match refreshed(c, stats[i], min_size) {
            Some(x) => {
                kept.push(x);
            },
            None => {},
        }
        i = i + 1;
    }
    let ghost items = kept@;
    let r = grouping::by_size(kept);
    proof {
        grouping::law_groups_share_their_key(items, grouping::size_of());
        let g = grouping::groups(items, grouping::size_of());
        assert(grouping::lists(r@).len() == r@.len());
        assert(grouping::members(g).len() == g.len());
        assert forall|k: int| 0 <= k < r@.len() implies (#[trigger] r@[k])@.len() > 0 by {
            assert(grouping::lists(r@)[k] == r@[k]@);
            assert(grouping::members(g)[k] == g[k].1);
        }
    }
    r
}

/// Those of the first `n` members of a group that have a digest, each with it.
pub open spec fn digested_of(group: Seq<Candidate>, digests: Seq<Option<[u8; 32]>>, n: nat) -> Seq<Digested>
    decreases n,
{
    if n == 0 {
        Seq::empty()
    } else {
        let before = digested_of(group, digests, (n - 1) as nat);
        match digests[n - 1] {
            Some(d) => before.push(Digested { digest: d, candidate: group[n - 1] }),
            None => before,
        }
    }
}

/// The later stages: a group split by digest, keeping what still has more than
/// one member. Files without a digest drop out silently: a file we cannot open
/// is not a duplicate we can report on.
pub fn refine(group: Vec<Candidate>, digests: &Vec<Option<[u8; 32]>>) -> (r: Vec<Vec<Candidate>>)
    requires
        digests@.len() == group@.len(),
    ensures
        grouping::lists(r@) == grouping::candidate_lists(
            grouping::groups(digested_of(group@, digests@, group@.len()), grouping::digest_of()),
        ),
{
    let ghost all = group@;
    let count: usize = digests.len();
    let mut kept: Vec<Digested> = Vec::new();
    let mut i: usize = 0;
    for c in it: group
        invariant
            it.seq() == all,
            count == digests@.len(),
            digests@.len() == all.len(),
            i == it.index(),
            kept@ == digested_of(all, digests@, i as nat),
    {
        match digests[i] {
            Some(d) => {
                kept.push(Digested { digest: d, candidate: c });
            },
            None => {},
        }
        i = i + 1;
    }
    grouping::split_by(kept)
}

pub open spec fn count_of() -> spec_fn(Seq<Candidate>) -> int {
    |g: Seq<Candidate>| g.len() as int
}

/// The bytes of a group of equally large files.
pub open spec fn bytes_of() -> spec_fn(Seq<Candidate>) -> int {
    |g: Seq<Candidate>| g[0].size * g.len()
}

proof fn lemma_bytes_nonneg(v: Seq<Seq<Candidate>>)
    ensures
        forall|k: int| 0 <= k < v.len() ==> bytes_of()(#[trigger] v[k]) >= 0,
{
    assert forall|k: int| 0 <= k < v.len() implies bytes_of()(#[trigger] v[k]) >= 0 by {
        let a = v[k][0].size as int;
        let b = v[k].len() as int;
        assert(a * b >= 0) by (nonlinear_arith)
            requires
                a >= 0,
                b >= 0,
        ;
    }
}

/// How many files the groups hold, and how many bytes; nothing if that is more
/// than a number holds.
pub fn weigh(groups: &Vec<Vec<Candidate>>) -> (r: Option<(u64, u64)>)
    requires
        forall|k: int| 0 <= k < groups@.len() ==> (#[trigger] groups@[k])@.len() > 0,
    ensures
        ({
            let all = grouping::lists(groups@);
            let files = sums::total(all, count_of());
            let bytes = sums::total(all, bytes_of());
            match r {
                Some(w) => w.0 == files && w.1 == bytes,
                None => files > u64::MAX || bytes > u64::MAX,
            }
        }),
{
    let ghost all = grouping::lists(groups@);
    let mut files: u64 = 0;
    let mut bytes: u64 = 0;
    let mut i: usize = 0;
    assert(all.take(0) =~= Seq::<Seq<Candidate>>::empty());
    while i < groups.len()
        invariant
            i <= groups@.len(),
            all == grouping::lists(groups@),
            forall|k: int| 0 <= k < groups@.len() ==> (#[trigger] groups@[k])@.len() > 0,
            files == sums::total(all.take(i as int), count_of()),
            bytes == sums::total(all.take(i as int), bytes_of()),
        decreases groups.len() - i,
    {
        let g = &groups[i];
        let n: u64 = g.len() as u64;
        proof {
            assert(g@.len() > 0);
            assert(all.take(i + 1) =~= all.take(i as int).push(all[i as int]));
            assert(all[i as int] == g@);
            sums::lemma_total_push(all.take(i as int), all[i as int], count_of());
            sums::lemma_total_push(all.take(i as int), all[i as int], bytes_of());
            lemma_bytes_nonneg(all);
            sums::lemma_total_part(all, i + 1, count_of());
            sums::lemma_total_part(all, i + 1, bytes_of());
            assert(bytes_of()(all[i as int]) == g@[0].size * g@.len());
        }
        let here: u64 = match g[0].size.checked_mul(n) {
            Some(x) => x,
            None => {
                return None;
            },
        };
        files = match files.checked_add(n) {
            Some(x) => x,
            None => {
                return None;
            },
        };
        bytes = match bytes.checked_add(here) {
            Some(x) => x,
            None => {
                return None;
            },
        };
        i = i + 1;
    }
    assert(all.take(i as int) =~= all);
    Some((files, bytes))
}

/// Whether the windows of a group are hashed first. Files small enough that the
/// windows would cover them are hashed whole right away.
pub fn windowed(size: u64) -> (r: bool)
    ensures
        r == (size > digest::SMALL_FILE),
{
    size > digest::SMALL_FILE
}

/// The group that a bucket of equal files becomes.
pub open spec fn copies_of(g: Seq<Candidate>) -> Copies {
    Copies { size: g[0].size, files: g.map_values(|c: Candidate| DupeFile { id: c.id, path: c.path }) }
}

pub open spec fn reported(v: Seq<Seq<Candidate>>) -> Seq<Copies> {
    v.map_values(|g: Seq<Candidate>| copies_of(g))
}

/// More wasted bytes first; among equals, larger files first.
pub open spec fn worse_first() -> spec_fn(DupeGroup, DupeGroup) -> bool {
    |a: DupeGroup, b: DupeGroup| a.wasted > b.wasted || (a.wasted == b.wasted && a.size >= b.size)
}

struct Worse;

impl Ranking<DupeGroup> for Worse {
    closed spec fn order(&self) -> spec_fn(DupeGroup, DupeGroup) -> bool {
        worse_first()
    }

    closed spec fn covers(&self, x: DupeGroup) -> bool {
        true
    }

    proof fn order_is_total(&self) {
    }

    fn leads(&self, a: &DupeGroup, b: &DupeGroup) -> bool {
        a.wasted > b.wasted || (a.wasted == b.wasted && a.size >= b.size)
    }
}

/// The group that a bucket of equal files becomes.
fn group_of(bucket: Vec<Candidate>) -> (g: DupeGroup)
    requires
        bucket@.len() > 0,
        copies_of(bucket@).wasted() <= u64::MAX,
    ensures
        copies(g) == copies_of(bucket@),
        g.wasted == copies(g).wasted(),
{
    let ghost all = bucket@;
    let size: u64 = bucket[0].size;
    let extra: u64 = bucket.len() as u64 - 1;
    proof {
        let c = copies_of(all);
        assert(c.wasted() == size * extra);
        lemma_waste_nonneg(seq![c]);
        assert(waste()(seq![c][0]) >= 0);
    }
    let wasted: u64 = size * extra;
    let mut files: Vec<DupeFile> = Vec::new();
    for c in it: bucket
        invariant
            it.seq() == all,
            files@ == all.take(it.index() as int).map_values(|c: Candidate| DupeFile { id: c.id, path: c.path }),
    {
        proof {
            assert(all.take(it.index() + 1).map_values(|c: Candidate| DupeFile { id: c.id, path: c.path }) =~= all.take(
                it.index() as int,
            ).map_values(|c: Candidate| DupeFile { id: c.id, path: c.path }).push(DupeFile { id: c.id, path: c.path }));
        }
        files.push(DupeFile { id: c.id, path: c.path });
    }
    assert(all.take(all.len() as int) =~= all);
    DupeGroup { size, wasted, files }
}

/// The final report: a group for each bucket of equal files, those that waste
/// most first.
pub fn report(buckets: Vec<Vec<Candidate>>) -> (r: Vec<DupeGroup>)
    requires
        forall|k: int| 0 <= k < buckets@.len() ==> (#[trigger] buckets@[k])@.len() > 0,
        sums::total(reported(grouping::lists(buckets@)), waste()) <= u64::MAX,
    ensures
        all_copies(r@).to_multiset() == reported(grouping::lists(buckets@)).to_multiset(),
        vstd::relations::sorted_by(r@, worse_first()),
        honest(r@),
        r@.len() == buckets@.len(),
        forall|i: int, j: int|
            0 <= i < j < r@.len() ==> (#[trigger] r@[i]).wasted >= (#[trigger] r@[j]).wasted && (r@[i].wasted == r@[j].wasted
                ==> r@[i].size >= r@[j].size),
{
    let ghost all = reported(grouping::lists(buckets@));
    let mut out: Vec<DupeGroup> = Vec::new();
    assert(all_copies(out@) =~= all.take(0));
    for b in it: buckets
        invariant
            all == reported(grouping::lists(it.seq())),
            forall|k: int| 0 <= k < it.seq().len() ==> (#[trigger] it.seq()[k])@.len() > 0,
            sums::total(all, waste()) <= u64::MAX,
            all_copies(out@) == all.take(it.index() as int),
            forall|k: int| 0 <= k < out@.len() ==> (#[trigger] out@[k]).wasted == copies(out@[k]).wasted(),
    {
        let ghost i = it.index() as int;
        proof {
            assert(it.seq()[i]@.len() > 0);
            assert(all[i] == copies_of(b@));
            lemma_waste_nonneg(all);
            sums::lemma_total_member(all, i, waste());
            assert(waste()(all[i]) == all[i].wasted());
        }
        let ghost o0 = out@;
        let g = group_of(b);
        out.push(g);
        assert(all_copies(out@) =~= all_copies(o0).push(all[i]));
        assert(all.take(i + 1) =~= all.take(i).push(all[i]));
    }
    assert(all.take(all.len() as int) =~= all);
    let ghost found = out@;
    let r = order::rank(&Worse, out);
    proof {
        let say = |g: DupeGroup| copies(g);
        order::lemma_mapped_same_items(found, r@, say);
        assert(all_copies(found) =~= found.map_values(say));
        assert(all_copies(r@) =~= r@.map_values(say));
        sums::lemma_total_permuted(all_copies(r@), all, waste());
        order::lemma_same_items(found, r@);
        assert forall|k: int| 0 <= k < r@.len() implies (#[trigger] r@[k]).wasted == copies(r@[k]).wasted() by {
            assert(found.contains(r@[k]));
        }
        assert forall|i: int, j: int| 0 <= i < j < r@.len() implies (#[trigger] r@[i]).wasted >= (#[trigger] r@[j]).wasted && (
        r@[i].wasted == r@[j].wasted ==> r@[i].size >= r@[j].size) by {
            assert(worse_first()(r@[i], r@[j]));
        }
    }
    r
}

/// Forgetting twice is forgetting once: what survives once survives again.
pub proof fn law_forgetting_is_final(t: Tree, v: Seq<Copies>)
    ensures
        survivors(t, survivors(t, v)) == survivors(t, v),
    decreases v.len(),
{
    reveal(Seq::filter);
    let thin = surviving(t);
    let many = still_shared();
    let once = survivors(t, v);
    assert forall|k: int| 0 <= k < once.len() implies thin(#[trigger] once[k]) == once[k] by {
        let mapped = v.map_values(thin);
        assert(once.contains(once[k]));
        mapped.lemma_filter_contains_rev(many, once[k]);
        let j = mapped.index_of(once[k]);
        assert(once[k] == thin(v[j]));
        lemma_filter_twice(v[j].files, in_tree(t));
    }
    assert(once.map_values(thin) =~= once);
    assert forall|k: int| 0 <= k < once.len() implies many(#[trigger] once[k]) by {
        v.map_values(thin).lemma_filter_pred(many, k);
    }
    lemma_filter_all(once, many);
}

proof fn lemma_filter_all<T>(s: Seq<T>, p: spec_fn(T) -> bool)
    requires
        forall|k: int| 0 <= k < s.len() ==> p(#[trigger] s[k]),
    ensures
        s.filter(p) == s,
    decreases s.len(),
{
    reveal(Seq::filter);
    if s.len() > 0 {
        let front = s.drop_last();
        assert forall|k: int| 0 <= k < front.len() implies p(#[trigger] front[k]) by {
            assert(front[k] == s[k]);
        }
        lemma_filter_all(front, p);
        assert(p(s[s.len() - 1]));
        assert(front.push(s.last()) =~= s);
    } else {
        assert(s.filter(p) =~= s);
    }
}

proof fn lemma_filter_twice<T>(s: Seq<T>, p: spec_fn(T) -> bool)
    ensures
        s.filter(p).filter(p) == s.filter(p),
{
    let f = s.filter(p);
    assert forall|k: int| 0 <= k < f.len() implies p(#[trigger] f[k]) by {
        s.lemma_filter_pred(p, k);
    }
    lemma_filter_all(f, p);
}

/// Nothing that is gone from the tree is left in a group, and every group that
/// is left still has something to tell apart.
pub proof fn law_survivors_are_in_the_tree(t: Tree, v: Seq<Copies>)
    ensures
        forall|k: int| 0 <= k < survivors(t, v).len() ==> (#[trigger] survivors(t, v)[k]).files.len() > 1,
        forall|k: int, j: int|
            0 <= k < survivors(t, v).len() && 0 <= j < survivors(t, v)[k].files.len() ==> t.reaches(
                (#[trigger] survivors(t, v)[k].files[j]).id,
            ),
{
    let thin = surviving(t);
    let many = still_shared();
    let mapped = v.map_values(thin);
    let left = survivors(t, v);
    assert forall|k: int| 0 <= k < left.len() implies (#[trigger] left[k]).files.len() > 1 by {
        mapped.lemma_filter_pred(many, k);
    }
    assert forall|k: int, j: int| 0 <= k < left.len() && 0 <= j < left[k].files.len() implies t.reaches(
        (#[trigger] left[k].files[j]).id,
    ) by {
        assert(left.contains(left[k]));
        mapped.lemma_filter_contains_rev(many, left[k]);
        let i = mapped.index_of(left[k]);
        assert(left[k] == thin(v[i]));
        v[i].files.lemma_filter_pred(in_tree(t), j);
    }
}

/// Buckets that can be weighed can be reported.
pub proof fn law_weighed_buckets_can_be_reported(v: Seq<Seq<Candidate>>)
    requires
        forall|k: int| 0 <= k < v.len() ==> (#[trigger] v[k]).len() > 0,
        sums::total(v, bytes_of()) <= u64::MAX,
    ensures
        sums::total(reported(v), waste()) <= u64::MAX,
{
    lemma_waste_within_bytes(v);
}

proof fn lemma_waste_within_bytes(v: Seq<Seq<Candidate>>)
    requires
        forall|k: int| 0 <= k < v.len() ==> (#[trigger] v[k]).len() > 0,
    ensures
        sums::total(reported(v), waste()) <= sums::total(v, bytes_of()),
    decreases v.len(),
{
    if v.len() > 0 {
        let front = v.drop_last();
        assert forall|k: int| 0 <= k < front.len() implies (#[trigger] front[k]).len() > 0 by {
            assert(front[k] == v[k]);
        }
        lemma_waste_within_bytes(front);
        assert(reported(v).drop_last() =~= reported(front));
        let g = v.last();
        assert(v[v.len() - 1] == g);
        let size = g[0].size as int;
        let n = g.len() as int;
        assert(size * (n - 1) <= size * n) by (nonlinear_arith)
            requires
                size >= 0,
                n >= 1,
        ;
        assert(copies_of(g).wasted() == size * (n - 1));
    }
}

} // verus!
