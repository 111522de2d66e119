//! What a walk makes of the entries it meets, and what scanning a node again
//! makes of it, in terms of their metadata.

use vstd::prelude::*;

use crate::excludes;
use crate::scan;
use crate::scan::walk;
use crate::scan::walk::Batch;
use crate::scan::walk::Gathered;
use crate::scan::walk::Met;
use crate::scan::walk::Meta;
use crate::scan::walk::Rules;
use crate::scan::Again;
use crate::scan::Look;
use crate::scan::Scanner;
use crate::sums;
use crate::tree::model;
use crate::tree::rescan;
use crate::tree::totals;
use crate::tree::Kind;
use crate::tree::NewEntry;
use crate::tree::Node;
use crate::tree::ScanError;
use crate::tree::Tree;

verus! {

/// With one filesystem asked for, a directory on any other device than that of
/// the scan root is not listed and not walked: it only counts as skipped.
pub proof fn law_other_devices_are_skipped(g: Gathered, patterns: Seq<Seq<char>>, r: Rules, x: Met, m: Meta)
    requires
        x.meta == Some(m),
        m.is_dir,
        r.one_file_system,
        m.device != r.root_device,
    ensures
        ({
            let after = walk::taken_in(g, patterns, r, x);
            &&& after.entries == g.entries
            &&& after.walks == g.walks
            &&& after.links == g.links
            &&& after.errors == g.errors
            &&& after.skipped == g.skipped + 1
        }),
{
}

/// An entry whose name or whole path some pattern matches is not listed and not
/// walked: it only counts as skipped.
pub proof fn law_excluded_entries_are_skipped(g: Gathered, patterns: Seq<Seq<char>>, r: Rules, x: Met, k: int)
    requires
        0 <= k < patterns.len(),
        excludes::glob_matches(patterns[k], vstd::utf8::encode_utf8(x.name@)) || excludes::glob_matches(patterns[k], x.path),
    ensures
        ({
            let after = walk::taken_in(g, patterns, r, x);
            &&& after.entries == g.entries
            &&& after.walks == g.walks
            &&& after.links == g.links
            &&& after.errors == g.errors
            &&& after.skipped == g.skipped + 1
        }),
{
}

/// Every other entry is listed: one that no pattern matches, and that is no
/// directory, or lies on the device of the scan root, or is met by a walk that
/// crosses devices.
pub proof fn law_other_entries_are_listed(g: Gathered, patterns: Seq<Seq<char>>, r: Rules, x: Met)
    requires
        forall|k: int|
            0 <= k < patterns.len() ==> !excludes::glob_matches(
                #[trigger] patterns[k],
                vstd::utf8::encode_utf8(x.name@),
            ) && !excludes::glob_matches(patterns[k], x.path),
        x.meta is Some ==> !x.meta->0.is_dir || x.meta->0.device == r.root_device || !r.one_file_system,
    ensures
        ({
            let after = walk::taken_in(g, patterns, r, x);
            &&& after.entries.len() == g.entries.len() + 1
            &&& after.entries.drop_last() == g.entries
            &&& after.entries.last().name == x.name
            &&& after.entries.last().err == (x.meta is None)
            &&& after.skipped == g.skipped
            &&& after.errors == g.errors + (if x.meta is None {
                1int
            } else {
                0
            })
        }),
{
    let after = walk::taken_in(g, patterns, r, x);
    assert(after.entries.drop_last() =~= g.entries);
}

/// An entry without metadata is listed as something else than a file or a
/// directory, with nothing known of it, and is not walked.
pub proof fn law_unread_entries_weigh_nothing(g: Gathered, patterns: Seq<Seq<char>>, r: Rules, x: Met)
    requires
        x.meta is None,
        walk::taken_in(g, patterns, r, x).entries != g.entries,
    ensures
        ({
            let after = walk::taken_in(g, patterns, r, x);
            let e = after.entries.last();
            &&& e.kind == Kind::Other && e.size == 0 && e.alloc == 0 && e.mtime == 0 && !e.cloud
            &&& after.walks == g.walks
            &&& after.links == g.links
        }),
{
}

/// A listed entry is what its metadata says: a directory before a link, a link
/// before a file, and anything else is other. It keeps its time, and it is
/// marked as a placeholder where placeholders matter.
pub proof fn law_listed_entries_show_their_metadata(g: Gathered, patterns: Seq<Seq<char>>, r: Rules, x: Met, m: Meta)
    requires
        x.meta == Some(m),
        walk::taken_in(g, patterns, r, x).entries != g.entries,
    ensures
        ({
            let e = walk::taken_in(g, patterns, r, x).entries.last();
            &&& e.mtime == m.mtime
            &&& m.is_dir ==> e.kind == Kind::Dir
            &&& !m.is_dir && m.is_symlink ==> e.kind == Kind::Link
            &&& !m.is_dir && !m.is_symlink && m.is_file ==> e.kind == Kind::File
            &&& !m.is_dir && !m.is_symlink && !m.is_file ==> e.kind == Kind::Other
            &&& !m.cloud ==> !e.cloud
            &&& m.cloud && !m.is_dir ==> e.cloud
            &&& m.cloud && m.is_dir ==> e.cloud == r.local_only
        }),
{
}

/// While only local bytes count, a placeholder weighs nothing, is not walked and
/// counts for no link.
pub proof fn law_hidden_placeholders_weigh_nothing(g: Gathered, patterns: Seq<Seq<char>>, r: Rules, x: Met, m: Meta)
    requires
        x.meta == Some(m),
        m.cloud,
        r.local_only,
        walk::taken_in(g, patterns, r, x).entries != g.entries,
    ensures
        ({
            let after = walk::taken_in(g, patterns, r, x);
            &&& after.entries.last().size == 0
            &&& after.entries.last().alloc == 0
            &&& after.walks == g.walks
            &&& after.links == g.links
        }),
{
}

/// A listed directory is walked if the walk goes on below it, unless it is a
/// placeholder while only local bytes count; nothing else is ever walked.
pub proof fn law_listed_directories_are_walked(g: Gathered, patterns: Seq<Seq<char>>, r: Rules, x: Met, m: Meta)
    requires
        x.meta == Some(m),
        walk::taken_in(g, patterns, r, x).entries != g.entries,
    ensures
        ({
            let after = walk::taken_in(g, patterns, r, x);
            &&& m.is_dir && r.recurse && !(m.cloud && r.local_only) ==> after.walks == g.walks.push(x.path)
            &&& !m.is_dir ==> after.walks == g.walks
            &&& !r.recurse ==> after.walks == g.walks
        }),
{
}

/// What is not a placeholder, or is one while placeholders count, weighs what
/// its metadata says, in bytes and in bytes on disk, unless it is a regular file
/// with several links and links count once.
pub proof fn law_listed_entries_weigh_their_size(g: Gathered, patterns: Seq<Seq<char>>, r: Rules, x: Met, m: Meta)
    requires
        x.meta == Some(m),
        !m.cloud || !r.local_only,
        m.is_dir || m.is_symlink || !m.is_file || r.count_links || m.link is None,
        walk::taken_in(g, patterns, r, x).entries != g.entries,
    ensures
        ({
            let after = walk::taken_in(g, patterns, r, x);
            &&& after.entries.last().size == m.size
            &&& after.entries.last().alloc == m.alloc
            &&& after.links == g.links
        }),
{
}

/// A regular file whose links count once.
pub open spec fn linked(r: Rules, m: Meta, k: (u64, u64)) -> bool {
    &&& !m.is_dir && !m.is_symlink && m.is_file
    &&& !m.cloud || !r.local_only
    &&& !r.count_links
    &&& m.link == Some(k)
}

/// Met again, right after it was met, a file with several links weighs nothing;
/// met after a file that it shares no link with, it weighs what it would have
/// weighed without that file.
pub proof fn law_only_the_same_link_counts_once(
    g: Gathered,
    patterns: Seq<Seq<char>>,
    r: Rules,
    x: Met,
    y: Met,
    j: (u64, u64),
    k: (u64, u64),
)
    requires
        x.meta is Some,
        y.meta is Some,
        linked(r, x.meta->0, j),
        linked(r, y.meta->0, k),
        walk::taken_in(g, patterns, r, x).entries != g.entries,
        walk::taken_in(g, patterns, r, y).entries != g.entries,
    ensures
        ({
            let alone = walk::taken_in(g, patterns, r, y);
            let twice = walk::taken_in(walk::taken_in(g, patterns, r, x), patterns, r, y);
            &&& twice.entries.len() == g.entries.len() + 2
            &&& j == k ==> twice.entries.last().size == 0 && twice.entries.last().alloc == 0
            &&& j != k ==> twice.entries.last() == alone.entries.last()
        }),
{
    if j != k && walk::link_number(j) == walk::link_number(k) {
        walk::law_link_numbers_are_unique(j, k);
    }
}

/// The first file of a scan that has several links weighs what its metadata
/// says.
pub proof fn law_the_first_link_weighs_its_size(g: Gathered, patterns: Seq<Seq<char>>, r: Rules, x: Met, k: (u64, u64))
    requires
        x.meta is Some,
        linked(r, x.meta->0, k),
        g.links == Set::<u128>::empty(),
        walk::taken_in(g, patterns, r, x).entries != g.entries,
    ensures
        ({
            let e = walk::taken_in(g, patterns, r, x).entries.last();
            &&& e.size == x.meta->0.size
            &&& e.alloc == x.meta->0.alloc
        }),
{
}

/// A whole directory: with one filesystem asked for, whatever is walked is a
/// directory on the device of the scan root, and so is every listed directory.
pub proof fn law_walks_stay_on_the_device(
    patterns: Seq<Seq<char>>,
    r: Rules,
    items: Seq<Met>,
    links: Set<u128>,
    w: int,
)
    requires
        r.one_file_system,
        0 <= w < walk::gathered(patterns, r, items, links).walks.len(),
    ensures
        exists|k: int|
            0 <= k < items.len() && (#[trigger] items[k]).path == walk::gathered(patterns, r, items, links).walks[w]
                && items[k].meta is Some && items[k].meta->0.is_dir && items[k].meta->0.device == r.root_device,
    decreases items.len(),
{
    let front = items.drop_last();
    let before = walk::gathered(patterns, r, front, links);
    let after = walk::gathered(patterns, r, items, links);
    if w < before.walks.len() {
        law_walks_stay_on_the_device(patterns, r, front, links, w);
        let k = choose|k: int|
            0 <= k < front.len() && (#[trigger] front[k]).path == before.walks[w] && front[k].meta is Some
                && front[k].meta->0.is_dir && front[k].meta->0.device == r.root_device;
        assert(items[k] == front[k]);
        assert(after.walks[w] == before.walks[w]);
    } else {
        let last = items.len() - 1;
        assert(items[last] == items.last());
        assert(after.walks[w] == items.last().path);
    }
}

/// Errors are kept in the order in which they came, each with its path and its
/// message, until two hundred are kept; later ones are dropped, never earlier
/// ones.
pub proof fn law_the_first_errors_are_kept(kept: Seq<ScanError>, more: Seq<(String, String)>)
    requires
        kept.len() <= 200,
    ensures
        ({
            let r = walk::recorded(kept, more);
            &&& r.len() == (if kept.len() + more.len() <= 200 {
                kept.len() + more.len()
            } else {
                200
            })
            &&& forall|k: int| 0 <= k < kept.len() ==> #[trigger] r[k] == kept[k]
            &&& forall|k: int|
                kept.len() <= k < r.len() ==> (#[trigger] r[k]).path == more[k - kept.len()].0 && r[k].message == more[k
                    - kept.len()].1
        }),
    decreases more.len(),
{
    if more.len() > 0 {
        law_the_first_errors_are_kept(kept, more.drop_last());
        let before = walk::recorded(kept, more.drop_last());
        let r = walk::recorded(kept, more);
        assert forall|k: int| 0 <= k < r.len() implies if k < kept.len() {
            #[trigger] r[k] == kept[k]
        } else {
            r[k].path == more[k - kept.len()].0 && r[k].message == more[k - kept.len()].1
        } by {
            if k < before.len() {
                assert(r[k] == before[k]);
            }
        }
    }
}

/// One error more is the last of those kept, unless two hundred are kept
/// already.
pub proof fn law_one_more_error_is_the_last(kept: Seq<ScanError>, path: String, message: String)
    ensures
        kept.len() < 200 ==> scan::one_more(kept, path, message) == kept.push(ScanError { path, message }),
        kept.len() >= 200 ==> scan::one_more(kept, path, message) == kept,
{
}

/// The directories that are walked in turn are those among the entries that are
/// no hidden placeholders, by the ids that the entries get, in their order.
pub proof fn law_directories_are_walked_by_id(entries: Seq<NewEntry>, first: int, x: u32)
    requires
        0 <= first,
        first + entries.len() <= u32::MAX,
    ensures
        model::walk_ids(entries, first).contains(x) == (first <= x < first + entries.len() && entries[x - first].kind
            == Kind::Dir && !entries[x - first].cloud),
        forall|i: int, j: int|
            0 <= i < j < model::walk_ids(entries, first).len() ==> (#[trigger] model::walk_ids(entries, first)[i])
                < #[trigger] model::walk_ids(entries, first)[j],
    decreases entries.len(),
{
    if entries.len() > 0 {
        let front = entries.drop_last();
        let before = model::walk_ids(front, first);
        let now = model::walk_ids(entries, first);
        let last = (first + entries.len() - 1) as u32;
        law_directories_are_walked_by_id(front, first, x);
        assert(entries[entries.len() - 1] == entries.last());
        assert forall|i: int| 0 <= i < before.len() implies #[trigger] before[i] < last by {
            law_directories_are_walked_by_id(front, first, before[i]);
            assert(before.contains(before[i]));
        }
        if before.contains(x) {
            let k = before.index_of(x);
            assert(now[k] == x);
        }
        if now.contains(x) {
            let k = now.index_of(x);
            if k < before.len() {
                assert(before[k] == x);
            }
        }
        if entries.last().kind == Kind::Dir && !entries.last().cloud {
            assert(now[before.len() as int] == last);
        }
        if first <= x < first + front.len() {
            assert(front[x - first] == entries[x - first]);
        }
    }
}

/// A node that is scanned again is hidden only if a fresh look finds a
/// placeholder while only local bytes count.
pub proof fn law_only_placeholders_are_hidden(n: Node, local_only: bool, look: Look)
    ensures
        scan::hidden_now(n, local_only, look) == (match look {
            Look::Seen(m) => m.cloud && local_only,
            _ => false,
        }),
{
}

/// A node that is scanned again takes on what a fresh look saw: its time, and
/// its size and bytes on disk, or none of either if it is hidden. A directory
/// loses its children, and counts as read only if it is hidden and so not
/// walked.
pub proof fn law_scanning_again_takes_on_what_was_seen(a: Seq<Node>, b: Seq<Node>, id: int, local_only: bool, m: Meta)
    requires
        0 <= id < a.len(),
        id < b.len(),
        scan::scanned_again(a, b, id, local_only, Look::Seen(m)),
    ensures
        b.len() == a.len(),
        b[id].name == a[id].name,
        b[id].kind == a[id].kind,
        b[id].mtime == m.mtime,
        !b[id].err,
        m.cloud && local_only ==> b[id].self_size == 0 && b[id].self_alloc == 0,
        !(m.cloud && local_only) ==> b[id].self_size == m.size && b[id].self_alloc == m.alloc,
        a[id].kind != Kind::Dir ==> b[id].cloud == m.cloud,
        a[id].kind == Kind::Dir ==> b[id].cloud == (m.cloud && local_only),
        a[id].kind == Kind::Dir ==> b[id].children@.len() == 0 && b[id].read == (m.cloud && local_only),
        a[id].kind != Kind::Dir ==> b[id].children == a[id].children && b[id].read == a[id].read,
{
    let look = Look::Seen(m);
    let mid = choose|mid: Seq<Node>|
        {
            &&& #[trigger] scan::looked(a, mid, id, local_only, look)
            &&& if a[id].kind == Kind::Dir {
                scan::emptied_as(mid, b, id, scan::hidden_now(a[id], local_only, look))
            } else {
                b == mid
            }
        };
    assert(mid[id].mtime == m.mtime);
    if a[id].kind == Kind::Dir {
        let c = b.update(id, Node { read: false, ..b[id] });
        assert(rescan::emptied(mid, c, id));
        assert(c[id] == Node { read: false, ..b[id] });
    }
}

/// Where a fresh look failed a node keeps what is known of it; a directory loses
/// its children all the same, and is to be walked.
pub proof fn law_a_failed_look_changes_nothing_of_the_node(a: Seq<Node>, b: Seq<Node>, id: int, local_only: bool)
    requires
        0 <= id < a.len(),
        id < b.len(),
        scan::scanned_again(a, b, id, local_only, Look::Failed),
    ensures
        a[id].kind != Kind::Dir ==> b == a,
        a[id].kind == Kind::Dir ==> b[id].children@.len() == 0 && !b[id].read && b[id].mtime == a[id].mtime && b[id].self_size
            == a[id].self_size && b[id].self_alloc == a[id].self_alloc && b[id].err == a[id].err,
{
    let look = Look::Failed;
    let mid = choose|mid: Seq<Node>|
        {
            &&& #[trigger] scan::looked(a, mid, id, local_only, look)
            &&& if a[id].kind == Kind::Dir {
                scan::emptied_as(mid, b, id, scan::hidden_now(a[id], local_only, look))
            } else {
                b == mid
            }
        };
    if a[id].kind == Kind::Dir {
        let c = b.update(id, Node { read: false, ..b[id] });
        assert(rescan::emptied(mid, c, id));
        assert(c[id] == Node { read: false, ..b[id] });
    }
}

/// Whatever changes when a node is scanned again moves the version on.
pub proof fn law_changes_are_announced(n: Node, is_root: bool, local_only: bool, look: Look)
    ensures
        look is Seen ==> scan::changes_again(n, is_root, local_only, look) >= 1,
        look is Gone && !is_root ==> scan::changes_again(n, is_root, local_only, look) >= 1,
        n.kind == Kind::Dir && !(look is Gone) ==> scan::changes_again(n, is_root, local_only, look) > n.children@.len(),
{
}

/// The errors that go when a node is scanned again are those of its path and of
/// paths below it: no others, and none of these stays.
pub proof fn law_errors_below_are_cleared(errors: Seq<ScanError>, dir: &str, backslash: bool, e: ScanError)
    ensures
        scan::errors_left(errors, Some(dir), backslash).contains(e) == (errors.contains(e) && !rescan::path_under(
            e.path@,
            dir@,
            backslash,
        )),
        scan::errors_left(errors, None, backslash) == errors,
{
    let keep = rescan::kept_error(dir@, backslash);
    let left = errors.filter(keep);
    if left.contains(e) {
        let k = left.index_of(e);
        errors.lemma_filter_pred(keep, k);
        errors.lemma_filter_contains_rev(keep, e);
    }
    if errors.contains(e) && keep(e) {
        let k = errors.index_of(e);
        errors.lemma_filter_contains(keep, k);
    }
}

/// A path stands below a directory if it goes on behind the path of the
/// directory with a separator: a slash, or a backslash where that separates.
/// Another name that merely begins alike does not.
pub proof fn law_paths_below_go_on_with_a_separator(dir: Seq<char>, c: char, rest: Seq<char>, backslash: bool)
    requires
        dir.len() > 0,
        dir.last() != '/',
        dir.last() != '\\',
    ensures
        rescan::path_under(dir, dir, backslash),
        rescan::path_under(dir + seq!['/'] + rest, dir, backslash),
        rescan::path_under(dir + seq!['\\'] + rest, dir, backslash) == backslash,
        c != '/' && c != '\\' ==> !rescan::path_under(dir + seq![c] + rest, dir, backslash),
        rescan::path_under(dir + seq!['/', c] + rest, dir + seq!['/'], backslash),
        !rescan::path_under(dir, dir + seq!['/', c] + rest, backslash),
{
    let n = dir.len() as int;
    assert(dir.take(n) =~= dir);
    assert((dir + seq!['/'] + rest).take(n) =~= dir);
    assert((dir + seq!['\\'] + rest).take(n) =~= dir);
    assert((dir + seq![c] + rest).take(n) =~= dir);
    assert((dir + seq!['/', c] + rest).take(n + 1) =~= dir + seq!['/']);
}

/// A path that does not begin with the path of a directory is not below it.
pub proof fn law_other_paths_are_not_below(path: Seq<char>, dir: Seq<char>, backslash: bool, k: int)
    requires
        0 <= k < dir.len(),
        k >= path.len() || path[k] != dir[k],
    ensures
        !rescan::path_under(path, dir, backslash),
{
    if path.len() >= dir.len() {
        assert(path.take(dir.len() as int)[k] == path[k]);
    }
}

/// The clock of a scan runs while the first walk does and while a rescan does,
/// and shows the time of all finished walks otherwise.
pub proof fn law_the_clock_runs_with_the_walks(s: Scanner, earlier: u64, later: u64)
    requires
        s.wf(),
    ensures
        !s.done ==> s.elapsed(later) == later,
        s.rescan_start is Some || !s.done ==> s.elapsed(later) - s.elapsed(earlier) == later - earlier,
        s.rescan_start is Some ==> s.elapsed(s.rescan_start->0) == s.final_ms,
        s.done && s.rescan_start is None ==> s.elapsed(later) == s.final_ms,
{
}

/// A walk that is not limited goes on everywhere; one that is limited to `max`
/// levels goes on from each level above that one, and stops there.
pub proof fn law_limited_walks_stop(max: u16, depth: u16)
    ensures
        walk::goes_on(None, depth),
        depth < max ==> walk::goes_on(Some(max), depth),
        depth >= max ==> !walk::goes_on(Some(max), depth),
{
}

/// At least one thread walks, and as many as asked for otherwise.
pub proof fn law_some_thread_walks(n: usize)
    ensures
        scan::threads_for(None) is None,
        n > 0 ==> scan::threads_for(Some(n)) == Some(n),
        n == 0 ==> scan::threads_for(Some(n)) == Some(1usize),
{
}

/// A directory that is there and not hidden is walked again from its own depth;
/// nothing else is walked.
pub proof fn law_directories_are_walked_again(n: Node, local_only: bool, m: Meta)
    ensures
        n.kind != Kind::Dir ==> scan::again_of(n, local_only, Look::Seen(m)) == Again::Settled,
        n.kind == Kind::Dir && m.cloud && local_only ==> scan::again_of(n, local_only, Look::Seen(m)) == Again::Settled,
        n.kind == Kind::Dir && !(m.cloud && local_only) ==> scan::again_of(n, local_only, Look::Seen(m)) == Again::Walk(n.depth),
        scan::again_of(n, local_only, Look::Gone) == Again::Settled,
        n.kind == Kind::Dir ==> scan::again_of(n, local_only, Look::Failed) == Again::Walk(n.depth),
{
}

/// A rescan begins only once the first walk is over and no other rescan runs; it
/// takes back an earlier cancellation, and once it is over the time it took was
/// added to the time spent, and the next one may begin.
pub proof fn law_one_rescan_at_a_time(s: Scanner, start: u64, end: u64, later: u64)
    requires
        s.wf(),
        s.done,
        !s.busy,
        start <= end,
        s.final_ms + (end - start) <= u64::MAX,
    ensures
        ({
            let running = scan::begun_again(s, start);
            let over = scan::idle_again(scan::clock_stopped(running, end));
            &&& running.busy && running.done && !running.cancelled && running.wf()
            &&& scan::begun_again(running, later) == running
            &&& running.elapsed(end) == s.elapsed(start) + (end - start)
            &&& over.done && !over.busy && over.wf()
            &&& over.elapsed(later) == s.elapsed(start) + (end - start)
            &&& scan::begun_again(over, later).busy
        }),
{
}

/// No rescan begins before the first walk is over; when it is, the clock stops.
pub proof fn law_the_first_walk_comes_first(s: Scanner, now: u64, later: u64)
    requires
        s.wf(),
        !s.done,
    ensures
        scan::begun_again(s, now) == s,
        scan::finished(s, now).done,
        scan::finished(s, now).elapsed(later) == now,
        scan::finished(s, now).cancelled == s.cancelled,
{
}

/// A directory that cannot be read is marked as read, with an error; nothing else
/// changes.
pub proof fn law_unreadable_directories_are_marked(nodes: Seq<Node>, id: int, k: int)
    requires
        0 <= id < nodes.len(),
        0 <= k < nodes.len(),
    ensures
        ({
            let after = scan::failed_at(nodes, id);
            &&& after.len() == nodes.len()
            &&& k != id ==> after[k] == nodes[k]
            &&& after[id].read && after[id].err
            &&& after[id].name == nodes[id].name && after[id].children == nodes[id].children
            &&& after[id].total_size == nodes[id].total_size && after[id].total_alloc == nodes[id].total_alloc
        }),
{
}

/// At the depth limit the directories that were found count as read, and no
/// others do that did not before.
pub proof fn law_unwalked_directories_count_as_read(nodes: Seq<Node>, ids: Seq<u32>, k: int)
    requires
        nodes.len() <= u32::MAX,
        0 <= k < nodes.len(),
    ensures
        walk::all_marked(nodes, ids).len() == nodes.len(),
        walk::all_marked(nodes, ids)[k].read == (nodes[k].read || ids.contains(k as u32)),
        walk::all_marked(nodes, ids)[k] == (Node { read: walk::all_marked(nodes, ids)[k].read, ..nodes[k] }),
{
}

/// The counter of errors goes down by as many as were cleared, but not below
/// zero; the other counters stay.
pub proof fn law_cleared_errors_are_uncounted(t: Tree, prefix: Option<&str>, backslash: bool)
    ensures
        ({
            let left = scan::errors_left(t.errors@, prefix, backslash);
            let stats = scan::errors_uncounted(t, prefix, backslash);
            &&& left.len() <= t.errors@.len()
            &&& t.stats.errors >= t.errors@.len() - left.len() ==> stats.errors == t.stats.errors - (t.errors@.len() - left.len())
            &&& t.stats.errors < t.errors@.len() - left.len() ==> stats.errors == 0
            &&& stats.files == t.stats.files && stats.dirs == t.stats.dirs && stats.size == t.stats.size
            &&& stats.alloc == t.stats.alloc && stats.skipped == t.stats.skipped && stats.hardlinks == t.stats.hardlinks
        }),
{
    match prefix {
        Some(p) => {
            t.errors@.lemma_filter_len(rescan::kept_error(p@, backslash));
        },
        None => {},
    }
}

/// Entering a directory again below itself is a cycle, however far below;
/// entering another is not.
pub proof fn law_only_a_directory_above_makes_a_cycle(ancestors: Seq<Vec<u8>>, path: Seq<u8>, k: int)
    ensures
        0 <= k < ancestors.len() && ancestors[k]@ == path ==> scan::is_cycle(ancestors, path),
        (forall|j: int| 0 <= j < ancestors.len() ==> (#[trigger] ancestors[j])@ != path) ==> !scan::is_cycle(ancestors, path),
{
}

/// A listing adds to the counters what its entries weigh and how many they are,
/// and what was skipped, failed or was counted before.
pub proof fn law_listings_are_counted<P>(t: Tree, id: u32, b: Batch<P>)
    requires
        t.has_room(id, b.entries@),
        walk::counters_fit(t.stats, b),
    ensures
        ({
            let s = walk::counted(t.stats, b);
            &&& s.size == t.stats.size + sums::total(b.entries@, |e: NewEntry| e.size as int)
            &&& s.alloc == t.stats.alloc + sums::total(b.entries@, |e: NewEntry| e.alloc as int)
            &&& s.files == t.stats.files + sums::total(b.entries@, |e: NewEntry| totals::file(e.kind))
            &&& s.dirs == t.stats.dirs + sums::total(b.entries@, |e: NewEntry| totals::dir(e.kind))
            &&& s.errors == t.stats.errors + b.errors@.len()
            &&& s.skipped == t.stats.skipped + b.skipped
            &&& s.hardlinks == t.stats.hardlinks + b.hardlinks
        }),
{
    totals::lemma_weigh(b.entries@);
    model::lemma_weigh_part(b.entries@, 0);
}

} // verus!
