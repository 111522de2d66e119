//! What a search for duplicates promises of the files that it is given and of
//! the groups that it reports.

use vstd::prelude::*;

use crate::dupes;
use crate::dupes::digest;
use crate::dupes::digest::FileHash;
use crate::dupes::digest::FileStamp;
use crate::dupes::digest::Next;
use crate::dupes::digest::Read;
use crate::dupes::grouping;
use crate::dupes::stages;
use crate::dupes::stages::Stage;
use crate::dupes::Copies;
use crate::dupes::DupeFile;
use crate::dupes::DupeGroup;
use crate::dupes::DupeProgress;
use crate::dupes::FileStat;
use crate::dupes::Phase;
use crate::dupes::Update;
use crate::order;
use crate::sums;
use crate::tree::candidates::Candidate;
use crate::tree::Tree;

verus! {

/// In a report no group is followed by one that wastes more, nor by one of
/// larger files that wastes the same.
pub proof fn law_the_worst_groups_come_first(r: Seq<DupeGroup>, i: int, j: int)
    requires
        vstd::relations::sorted_by(r, dupes::worse_first()),
        0 <= i < j < r.len(),
    ensures
        r[i].wasted >= r[j].wasted,
        r[i].wasted == r[j].wasted ==> r[i].size >= r[j].size,
{
    assert(dupes::worse_first()(r[i], r[j]));
}

/// A group wastes what all its files but one take up, and a group of one file
/// wastes nothing.
pub proof fn law_all_copies_but_one_are_wasted(r: Seq<DupeGroup>, k: int)
    requires
        dupes::honest(r),
        0 <= k < r.len(),
        r[k].files@.len() > 0,
    ensures
        r[k].wasted == (r[k].files@.len() - 1) * r[k].size,
{
    let a = r[k].size as int;
    let b = r[k].files@.len() - 1;
    assert(a * b == b * a) by (nonlinear_arith);
}

/// What is wasted altogether is the sum of what the groups waste.
pub proof fn law_waste_adds_up(r: Seq<DupeGroup>)
    requires
        dupes::honest(r),
    ensures
        sums::total(dupes::all_copies(r), dupes::waste()) == sums::total(r, |g: DupeGroup| g.wasted as int),
{
    let f = |g: DupeGroup| g.wasted as int;
    let all = dupes::all_copies(r);
    assert forall|i: int| 0 <= i < all.len() implies dupes::waste()(#[trigger] all[i]) == f(r[i]) by {
        assert(r[i].wasted == dupes::copies(r[i]).wasted());
    }
    sums::lemma_total_same(all, r, dupes::waste(), f);
}

/// The group shows the files of the bucket, in their order, each with its id and
/// its path, and their size.
pub open spec fn shows(g: DupeGroup, bucket: Seq<Candidate>) -> bool {
    &&& g.size == bucket[0].size
    &&& g.files@.len() == bucket.len()
    &&& forall|j: int|
        0 <= j < bucket.len() ==> (#[trigger] g.files@[j]).id == bucket[j].id && g.files@[j].path == bucket[j].path
}

pub open spec fn is_shown(r: Seq<DupeGroup>, bucket: Seq<Candidate>) -> bool {
    exists|i: int| 0 <= i < r.len() && shows(#[trigger] r[i], bucket)
}

pub open spec fn shows_one(g: DupeGroup, v: Seq<Seq<Candidate>>) -> bool {
    exists|k: int| 0 <= k < v.len() && shows(g, #[trigger] v[k])
}

/// A report shows every bucket, and nothing but buckets.
pub proof fn law_reports_show_all_buckets(r: Seq<DupeGroup>, v: Seq<Seq<Candidate>>)
    requires
        dupes::all_copies(r).to_multiset() == dupes::reported(v).to_multiset(),
    ensures
        r.len() == v.len(),
        forall|k: int| 0 <= k < v.len() ==> is_shown(r, #[trigger] v[k]),
        forall|i: int| 0 <= i < r.len() ==> shows_one(#[trigger] r[i], v),
{
    let a = dupes::all_copies(r);
    let b = dupes::reported(v);
    order::lemma_same_items(a, b);
    assert forall|k: int| 0 <= k < v.len() implies is_shown(r, #[trigger] v[k]) by {
        assert(b[k] == dupes::copies_of(v[k]));
        assert(a.contains(b[k]));
        let i = a.index_of(b[k]);
        assert(a[i] == dupes::copies(r[i]));
        lemma_shows(r[i], v[k]);
    }
    assert forall|i: int| 0 <= i < r.len() implies shows_one(#[trigger] r[i], v) by {
        assert(a[i] == dupes::copies(r[i]));
        assert(b.contains(a[i]));
        let k = b.index_of(a[i]);
        assert(b[k] == dupes::copies_of(v[k]));
        lemma_shows(r[i], v[k]);
    }
}

proof fn lemma_shows(g: DupeGroup, bucket: Seq<Candidate>)
    requires
        dupes::copies(g) == dupes::copies_of(bucket),
    ensures
        shows(g, bucket),
{
    let files = dupes::copies_of(bucket).files;
    assert forall|j: int| 0 <= j < bucket.len() implies (#[trigger] g.files@[j]).id == bucket[j].id && g.files@[j].path
        == bucket[j].path by {
        assert(g.files@[j] == files[j]);
    }
}

/// A fresh look found a regular file, whose bytes are here, with at least `min`
/// of them and not none.
pub open spec fn fit(stat: Option<FileStat>, min: u64) -> bool {
    stat is Some && stat->0.is_file && !stat->0.cloud && stat->0.len >= min && stat->0.len > 0
}

/// The file of `c`, with the size that a fresh look gave.
pub open spec fn freshened(c: Candidate, stat: Option<FileStat>, x: Candidate) -> bool {
    x.id == c.id && x.path == c.path && x.size == stat->0.len
}

pub open spec fn comes_from(all: Seq<Candidate>, stats: Seq<Option<FileStat>>, min: u64, n: nat, x: Candidate) -> bool {
    exists|i: int| 0 <= i < n && fit(#[trigger] stats[i], min) && freshened(all[i], stats[i], x)
}

pub open spec fn goes_on(kept: Seq<Candidate>, c: Candidate, stat: Option<FileStat>) -> bool {
    exists|k: int| 0 <= k < kept.len() && freshened(c, stat, #[trigger] kept[k])
}

/// What the first stage compares are the regular files on this disk that are
/// large enough and not empty, with the sizes that they have now: no other
/// file, and none of these is missing.
pub proof fn law_only_real_files_are_compared(all: Seq<Candidate>, stats: Seq<Option<FileStat>>, min: u64, n: nat)
    requires
        n <= all.len(),
        all.len() == stats.len(),
    ensures
        ({
            let kept = dupes::refreshed_of(all, stats, min, n);
            &&& forall|k: int| 0 <= k < kept.len() ==> comes_from(all, stats, min, n, #[trigger] kept[k])
            &&& forall|i: int| 0 <= i < n && fit(#[trigger] stats[i], min) ==> goes_on(kept, all[i], stats[i])
        }),
    decreases n,
{
    if n > 0 {
        let m = (n - 1) as nat;
        law_only_real_files_are_compared(all, stats, min, m);
        let before = dupes::refreshed_of(all, stats, min, m);
        let kept = dupes::refreshed_of(all, stats, min, n);
        assert forall|k: int| 0 <= k < kept.len() implies comes_from(all, stats, min, n, #[trigger] kept[k]) by {
            if k < before.len() {
                assert(kept[k] == before[k]);
                let i = choose|i: int| 0 <= i < m && fit(#[trigger] stats[i], min) && freshened(all[i], stats[i], before[k]);
                assert(fit(stats[i], min));
            } else {
                assert(fit(stats[n - 1], min) && freshened(all[n - 1], stats[n - 1], kept[k]));
            }
        }
        assert forall|i: int| 0 <= i < n && fit(#[trigger] stats[i], min) implies goes_on(kept, all[i], stats[i]) by {
            if i < m {
                let k = choose|k: int| 0 <= k < before.len() && freshened(all[i], stats[i], #[trigger] before[k]);
                assert(kept[k] == before[k]);
            } else {
                assert(freshened(all[i], stats[i], kept[before.len() as int]));
            }
        }
    }
}

/// All files of a group have the same size and the same contents, as far as
/// digests tell; of files over 64 KiB the windows are the same too. No group
/// holds fewer than two.
pub proof fn law_groups_hold_the_same_contents(
    files: Seq<Candidate>,
    windows: Seq<Vec<Option<[u8; 32]>>>,
    contents: Seq<Vec<Option<[u8; 32]>>>,
    window: spec_fn(Candidate) -> Option<[u8; 32]>,
    content: spec_fn(Candidate) -> Option<[u8; 32]>,
    p: int,
    i: int,
    j: int,
)
    requires
        stages::read_through(files, windows, contents, window, content),
        0 <= p < stages::found(files, windows, contents).len(),
        0 <= i < stages::found(files, windows, contents)[p].len(),
        0 <= j < stages::found(files, windows, contents)[p].len(),
    ensures
        ({
            let b = stages::found(files, windows, contents)[p];
            &&& b.len() >= 2
            &&& b[i].size == b[j].size
            &&& content(b[i]) is Some && content(b[j]) is Some && content(b[i])->0@ == content(b[j])->0@
            &&& b[i].size > 65536 ==> window(b[i]) is Some && window(b[j]) is Some && window(b[i])->0@ == window(b[j])->0@
        }),
{
    stages::law_groups_hold_equal_files(files, windows, contents, window, content, p);
    let b = stages::found(files, windows, contents)[p];
    assert(stages::alike(Stage::Contents, content, b[i], b[j]));
    assert(stages::alike(Stage::Windows, window, b[i], b[j]));
}

/// Two files of one size and the same contents end up in one group.
pub proof fn law_the_same_contents_are_grouped(
    files: Seq<Candidate>,
    windows: Seq<Vec<Option<[u8; 32]>>>,
    contents: Seq<Vec<Option<[u8; 32]>>>,
    window: spec_fn(Candidate) -> Option<[u8; 32]>,
    content: spec_fn(Candidate) -> Option<[u8; 32]>,
    c: Candidate,
    d: Candidate,
)
    requires
        stages::read_through(files, windows, contents, window, content),
        files.contains(c),
        files.contains(d),
        c != d,
        c.size == d.size,
        c.size > 65536 ==> window(c) is Some && window(d) is Some && window(c)->0@ == window(d)->0@,
        content(c) is Some && content(d) is Some && content(c)->0@ == content(d)->0@,
    ensures
        exists|p: int|
            0 <= p < stages::found(files, windows, contents).len() && (#[trigger] stages::found(
                files,
                windows,
                contents,
            )[p]).contains(c) && stages::found(files, windows, contents)[p].contains(d),
{
    stages::law_equal_files_are_grouped(files, windows, contents, window, content, c, d);
}

/// Once files are gone from the tree a group keeps those that are not, in their
/// order, as long as two of them are left.
pub proof fn law_groups_lose_only_what_is_gone(t: Tree, v: Seq<Copies>, k: int)
    requires
        0 <= k < v.len(),
        v[k].files.filter(|f: DupeFile| t.reaches(f.id)).len() >= 2,
    ensures
        exists|i: int|
            0 <= i < dupes::survivors(t, v).len() && (#[trigger] dupes::survivors(t, v)[i]).size == v[k].size
                && dupes::survivors(t, v)[i].files == v[k].files.filter(|f: DupeFile| t.reaches(f.id)),
{
    let here = |f: DupeFile| t.reaches(f.id);
    let thin = dupes::surviving(t);
    let many = dupes::still_shared();
    let mapped = v.map_values(thin);
    let left = dupes::survivors(t, v);
    order::lemma_filter_agrees(v[k].files, here, dupes::in_tree(t));
    let c = mapped[k];
    assert(c == thin(v[k]));
    assert(many(c));
    mapped.lemma_filter_contains(many, k);
    assert(left.contains(c));
    let i = left.index_of(c);
    assert(left[i] == c);
}

/// A search that runs is cancelled when files are gone from the tree; one that
/// is over, or never ran, stays as it is.
pub proof fn law_only_a_running_search_is_cut_off(p: Phase)
    ensures
        p == Phase::Grouping || p == Phase::Windowing || p == Phase::Hashing ==> dupes::interrupted(p) == Phase::Cancelled,
        p == Phase::Done || p == Phase::Cancelled || p == Phase::Idle ==> dupes::interrupted(p) == p,
{
}

/// A report of progress leaves alone what the run is about and what was found:
/// only the first one sets the counts, and each moves the phase on.
pub proof fn law_updates_move_the_phase(p: DupeProgress, u: Update)
    ensures
        ({
            let q = dupes::updated(p, u);
            &&& q.scope == p.scope && q.min_size == p.min_size && q.generation == p.generation
            &&& q.read == p.read && q.bytes_read == p.bytes_read && q.elapsed_ms == p.elapsed_ms
            &&& q.groups == p.groups && q.wasted == p.wasted
            &&& match u {
                Update::Grouped { candidates, bytes_total } => q.phase == Phase::Windowing && q.candidates == candidates
                    && q.bytes_total == bytes_total,
                Update::Hashing => q.phase == Phase::Hashing && q.candidates == p.candidates && q.bytes_total == p.bytes_total,
                Update::Reached(phase) => q.phase == phase && q.candidates == p.candidates && q.bytes_total == p.bytes_total,
            }
        }),
{
}

/// The weight of groups of equally large files: all their files, and all their
/// bytes.
pub proof fn law_weight_is_the_sum_of_sizes(v: Seq<Seq<Candidate>>)
    requires
        forall|k: int, i: int| 0 <= k < v.len() && 0 <= i < v[k].len() ==> (#[trigger] v[k][i]).size == v[k][0].size,
    ensures
        sums::total(v, dupes::bytes_of()) == sums::total(
            v,
            |g: Seq<Candidate>| sums::total(g, |c: Candidate| c.size as int),
        ),
        sums::total(v, dupes::count_of()) == sums::total(v, |g: Seq<Candidate>| g.len() as int),
{
    let size = |c: Candidate| c.size as int;
    let f = |g: Seq<Candidate>| sums::total(g, |c: Candidate| c.size as int);
    let n = |g: Seq<Candidate>| g.len() as int;
    assert forall|k: int| 0 <= k < v.len() implies dupes::bytes_of()(#[trigger] v[k]) == f(v[k]) by {
        let g = v[k];
        assert forall|i: int| 0 <= i < g.len() implies (#[trigger] g[i]).size == g[0].size by {
            assert(v[k][i].size == v[k][0].size);
        }
        lemma_equal_sizes(g, g[0].size as int);
    }
    sums::lemma_total_same(v, v, dupes::bytes_of(), f);
    sums::lemma_total_same(v, v, dupes::count_of(), n);
}

proof fn lemma_equal_sizes(g: Seq<Candidate>, size: int)
    requires
        forall|i: int| 0 <= i < g.len() ==> (#[trigger] g[i]).size == size,
    ensures
        sums::total(g, |c: Candidate| c.size as int) == size * g.len(),
    decreases g.len(),
{
    if g.len() > 0 {
        let front = g.drop_last();
        assert forall|i: int| 0 <= i < front.len() implies (#[trigger] front[i]).size == size by {
            assert(front[i] == g[i]);
        }
        lemma_equal_sizes(front, size);
        let n = front.len() as int;
        assert(g[g.len() - 1].size == size);
        assert(size * n + size == size * (n + 1)) by (nonlinear_arith);
    } else {
        assert(size * 0 == 0) by (nonlinear_arith);
    }
}

/// The size that goes into a window digest is written as its eight bytes, the
/// least significant first, so it can be read back.
pub proof fn law_sizes_can_be_read_back(n: u64)
    ensures
        digest::le_bytes(n).len() == 8,
        ({
            let b = digest::le_bytes(n);
            n == b[0] + 0x100 * b[1] + 0x1_0000 * b[2] + 0x100_0000 * b[3] + 0x1_0000_0000 * b[4] + 0x100_0000_0000 * b[5]
                + 0x1_0000_0000_0000 * b[6] + 0x100_0000_0000_0000 * b[7]
        }),
{
    reveal_with_fuel(digest::le_byte, 9);
    let b = digest::le_bytes(n);
    let n1 = n / 256;
    let n2 = n1 / 256;
    let n3 = n2 / 256;
    let n4 = n3 / 256;
    let n5 = n4 / 256;
    let n6 = n5 / 256;
    let n7 = n6 / 256;
    assert(b[0] == n % 256);
    assert(b[1] == n1 % 256);
    assert(b[2] == n2 % 256);
    assert(b[3] == n3 % 256);
    assert(b[4] == n4 % 256);
    assert(b[5] == n5 % 256);
    assert(b[6] == n6 % 256);
    assert(b[7] == n7 % 256);
    assert(n7 < 256);
}

/// What is hashed of two files is the same only if their sizes and both their
/// windows are.
pub proof fn law_window_inputs_tell_files_apart(
    size: u64,
    head: Seq<u8>,
    tail: Seq<u8>,
    other: u64,
    other_head: Seq<u8>,
    other_tail: Seq<u8>,
)
    requires
        head.len() == other_head.len(),
        digest::window_input(size, head, tail) == digest::window_input(other, other_head, other_tail),
    ensures
        size == other,
        head == other_head,
        tail == other_tail,
{
    let x = digest::window_input(size, head, tail);
    let y = digest::window_input(other, other_head, other_tail);
    law_sizes_can_be_read_back(size);
    law_sizes_can_be_read_back(other);
    assert(digest::le_bytes(size) =~= x.take(8));
    assert(digest::le_bytes(other) =~= y.take(8));
    assert(head =~= x.subrange(8, (8 + head.len()) as int));
    assert(other_head =~= y.subrange(8, (8 + head.len()) as int));
    assert(tail =~= x.skip((8 + head.len()) as int));
    assert(other_tail =~= y.skip((8 + head.len()) as int));
}

/// A new run begins with nothing found, read or counted, in the folder and from
/// the size that were asked for.
pub proof fn law_runs_begin_from_nothing(generation: u64, scope: u32, min_size: u64)
    ensures
        ({
            let p = dupes::begun(generation, scope, min_size);
            &&& p.phase == Phase::Grouping && p.scope == scope && p.min_size == min_size && p.generation == generation
            &&& p.candidates == 0 && p.read == 0 && p.bytes_read == 0 && p.bytes_total == 0
            &&& p.groups == 0 && p.wasted == 0 && p.elapsed_ms == 0
        }),
{
}

/// What is done cannot be cancelled; everything else can.
pub proof fn law_done_stays_done(p: Phase)
    ensures
        p == Phase::Done ==> dupes::cancelled(p) == Phase::Done,
        p != Phase::Done ==> dupes::cancelled(p) == Phase::Cancelled,
{
}

/// A run that was superseded ends nothing and counts nothing; the current one is
/// done if it came to its end and cancelled if it did not, and counts every file
/// that it reads, with its bytes.
pub proof fn law_only_the_current_run_counts(
    p: DupeProgress,
    generation: u64,
    outcome: bool,
    elapsed_ms: u64,
    bytes: u64,
)
    requires
        p.read < u64::MAX,
        p.bytes_read + bytes <= u64::MAX,
    ensures
        p.generation != generation ==> dupes::ended(p, generation, outcome, elapsed_ms) == p,
        p.generation != generation ==> dupes::one_more_read(p, generation, bytes) == p,
        p.generation == generation ==> {
            let e = dupes::ended(p, generation, outcome, elapsed_ms);
            &&& e.phase == Phase::Done <==> outcome
            &&& e.phase == Phase::Cancelled <==> !outcome
            &&& e.elapsed_ms == elapsed_ms
            &&& e.groups == p.groups && e.wasted == p.wasted && e.read == p.read && e.bytes_read == p.bytes_read
            &&& e.scope == p.scope && e.generation == p.generation
        },
        p.generation == generation ==> {
            let r = dupes::one_more_read(p, generation, bytes);
            &&& r.read == p.read + 1 && r.bytes_read == p.bytes_read + bytes
            &&& r.phase == p.phase && r.groups == p.groups && r.wasted == p.wasted && r.candidates == p.candidates
        },
{
}

/// The last window of a file ends where the file does; a file that is shorter
/// than a window has none. Files are hashed whole right away up to four windows.
pub proof fn law_windows_end_with_the_file(size: u64)
    ensures
        size >= 16384 ==> digest::tail_at(size) is Some && digest::tail_at(size)->0 + 16384 == size,
        size < 16384 ==> digest::tail_at(size) is None,
        digest::WINDOW == 16384,
        digest::SMALL_FILE == 4 * digest::WINDOW,
        Stage::Windows.looks_at(size) <==> size > 65536,
        Stage::Contents.looks_at(size),
{
}

/// A file is hashed only if it still has the size that it was grouped by and its
/// bytes are here, and its digest counts only if neither its size nor its time
/// changed meanwhile.
pub proof fn law_changed_files_have_no_digest(before: FileStamp, after: FileStamp, size: u64)
    ensures
        digest::fit_to_read(before, size) <==> before.len == size && !before.cloud,
        before.len != after.len ==> !digest::same_stamp(before, after),
        before.modified != after.modified ==> !digest::same_stamp(before, after),
        before.len == after.len && before.modified == after.modified ==> digest::same_stamp(before, after),
{
}

/// Reading a file ends with its end and fails with a failure or a cancellation;
/// an interruption only asks for another read, and so do bytes, as long as their
/// number can be counted.
pub proof fn law_reading_goes_on_until_the_end(f: FileHash, read: Read)
    ensures
        digest::step_outcome(f, true, read) == Next::GiveUp,
        digest::step_outcome(f, false, Read::End) == Next::Finish,
        digest::step_outcome(f, false, Read::Interrupted) == Next::ReadMore,
        digest::step_outcome(f, false, Read::Failed) == Next::GiveUp,
        read is Bytes && f.fed + read->0@.len() <= u64::MAX ==> digest::step_outcome(f, false, read) == Next::ReadMore,
        read is Bytes && f.fed + read->0@.len() > u64::MAX ==> digest::step_outcome(f, false, read) == Next::GiveUp,
{
}

} // verus!
