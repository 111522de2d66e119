//! What one directory listing contributes to the tree.

use std::collections::HashSet;

use vstd::prelude::*;

use crate::excludes;
use crate::excludes::Excludes;
use crate::tree::model;
use crate::tree::Kind;
use crate::tree::NewEntry;
use crate::tree::Node;
use crate::tree::ScanError;
use crate::tree::Stats;
use crate::tree::Tree;
use crate::tree::MAX_KEPT_ERRORS;

verus! {

broadcast use vstd::std_specs::hash::group_hash_axioms;

/// What the metadata of an entry says.
#[derive(Clone, Copy, Debug)]
pub struct Meta {
    pub is_dir: bool,
    pub is_symlink: bool,
    pub is_file: bool,
    pub size: u64,
    pub alloc: u64,
    pub mtime: i64,
    pub device: u64,
    /// Device and inode of a file with more than one link.
    pub link: Option<(u64, u64)>,
    /// The entry reports a size but its bytes are not on this disk.
    pub cloud: bool,
}

/// What kind of entry the metadata describes.
pub open spec fn kind_of(m: Meta) -> Kind {
    if m.is_dir {
        Kind::Dir
    } else if m.is_symlink {
        Kind::Link
    } else if m.is_file {
        Kind::File
    } else {
        Kind::Other
    }
}

/// The rules of a walk below one directory.
#[derive(Clone, Copy, Debug)]
pub struct Rules {
    pub local_only: bool,
    pub one_file_system: bool,
    pub count_links: bool,
    pub root_device: u64,
    /// Directories found here are walked in turn.
    pub recurse: bool,
}

/// The walk goes on below what is found in a directory at `depth`.
pub open spec fn goes_on(max_depth: Option<u16>, depth: u16) -> bool {
    match max_depth {
        Some(max) => depth < max,
        None => true,
    }
}

/// Whether the directories at `depth` are walked in turn.
pub fn recurses(max_depth: Option<u16>, depth: u16) -> (r: bool)
    ensures
        r == goes_on(max_depth, depth),
        r == (match max_depth {
            Some(max) => depth < max,
            None => true,
        }),
{
    match max_depth {
        Some(max) => depth < max,
        None => true,
    }
}

/// Files are always classified as cloud placeholders or not, because the
/// duplicate scanner must never read one: that would make the sync filter
/// download it. Directories only need the check when the filter is on, and it
/// costs a system call.
pub open spec fn asked(kind: Kind, local_only: bool) -> bool {
    kind != Kind::Dir || local_only
}

/// Whether it matters if an entry is a cloud placeholder.
pub fn asks_cloud(is_dir: bool, local_only: bool) -> (r: bool)
    ensures
        r == asked(if is_dir { Kind::Dir } else { Kind::File }, local_only),
        r == (!is_dir || local_only),
{
    !is_dir || local_only
}

/// The entry counts as a cloud placeholder.
pub open spec fn clouded(m: Meta, local_only: bool) -> bool {
    m.cloud && asked(kind_of(m), local_only)
}

/// The entry is hidden: a placeholder, while only local bytes count.
pub open spec fn filtered(m: Meta, local_only: bool) -> bool {
    clouded(m, local_only) && local_only
}

/// The entry is on another filesystem and left out.
pub open spec fn elsewhere(r: Rules, m: Meta) -> bool {
    kind_of(m) == Kind::Dir && r.one_file_system && m.device != r.root_device
}

/// One number for the device and inode of a file.
pub open spec fn link_number(k: (u64, u64)) -> u128 {
    (k.0 * 0x1_0000_0000_0000_0000 + k.1) as u128
}

/// Different files have different numbers.
pub proof fn law_link_numbers_are_unique(a: (u64, u64), b: (u64, u64))
    requires
        link_number(a) == link_number(b),
    ensures
        a == b,
{
}

/// Links of this file count only once.
pub open spec fn counts_once(r: Rules, m: Meta) -> bool {
    !filtered(m, r.local_only) && kind_of(m) == Kind::File && !r.count_links && m.link is Some
}

/// The file was already counted through another link.
pub open spec fn counted_before(r: Rules, m: Meta, links: Set<u128>) -> bool {
    counts_once(r, m) && links.contains(link_number(m.link->0))
}

/// The directory is to be walked.
pub open spec fn walked(r: Rules, m: Meta) -> bool {
    kind_of(m) == Kind::Dir && r.recurse && !filtered(m, r.local_only)
}

/// What the entry becomes in the tree. What is hidden, and what was counted
/// before, weighs nothing.
pub open spec fn entry_for(r: Rules, m: Meta, links: Set<u128>, name: String) -> NewEntry {
    let weightless = filtered(m, r.local_only) || counted_before(r, m, links);
    NewEntry {
        name,
        kind: kind_of(m),
        size: if weightless {
            0
        } else {
            m.size
        },
        alloc: if weightless {
            0
        } else {
            m.alloc
        },
        mtime: m.mtime,
        err: false,
        cloud: clouded(m, r.local_only),
    }
}

/// The files that were counted once the first `n` entries are taken in.
pub open spec fn links_after(r: Rules, ms: Seq<Meta>, links: Set<u128>, n: nat) -> Set<u128>
    decreases n,
{
    if n == 0 {
        links
    } else {
        let before = links_after(r, ms, links, (n - 1) as nat);
        if counts_once(r, ms[n - 1]) {
            before.insert(link_number(ms[n - 1].link->0))
        } else {
            before
        }
    }
}

/// What was counted is one of the first `n` entries, unless it was counted
/// before them all.
proof fn lemma_links_after(r: Rules, ms: Seq<Meta>, links: Set<u128>, n: nat)
    requires
        n <= ms.len(),
    ensures
        forall|i: int|
            0 <= i < n && counts_once(r, #[trigger] ms[i]) ==> links_after(r, ms, links, n).contains(
                link_number(ms[i].link->0),
            ),
        forall|x: u128| #[trigger]
            links_after(r, ms, links, n).contains(x) ==> links.contains(x) || exists|i: int|
                0 <= i < n && counts_once(r, #[trigger] ms[i]) && link_number(ms[i].link->0) == x,
    decreases n,
{
    if n > 0 {
        lemma_links_after(r, ms, links, (n - 1) as nat);
        let last = ms[n - 1];
        assert forall|x: u128| #[trigger] links_after(r, ms, links, n).contains(x) implies links.contains(x) || exists|i: int|
            0 <= i < n && counts_once(r, #[trigger] ms[i]) && link_number(ms[i].link->0) == x by {
            if counts_once(r, last) && link_number(last.link->0) == x {
                assert(counts_once(r, ms[n - 1]));
            } else {
                assert(links_after(r, ms, links, (n - 1) as nat).contains(x));
            }
        }
    }
}

/// A file with several links counts once: it weighs what it weighs where it is
/// met first, and nothing wherever it is met again.
pub proof fn law_hard_links_count_once(r: Rules, ms: Seq<Meta>, links: Set<u128>, j: int, name: String)
    requires
        0 <= j < ms.len(),
        counts_once(r, ms[j]),
        !links.contains(link_number(ms[j].link->0)),
    ensures
        ({
            let e = entry_for(r, ms[j], links_after(r, ms, links, j as nat), name);
            if exists|i: int| 0 <= i < j && counts_once(r, #[trigger] ms[i]) && ms[i].link == ms[j].link {
                e.size == 0 && e.alloc == 0
            } else {
                e.size == ms[j].size && e.alloc == ms[j].alloc
            }
        }),
{
    lemma_links_after(r, ms, links, j as nat);
    let x = link_number(ms[j].link->0);
    if links_after(r, ms, links, j as nat).contains(x) {
        let i = choose|i: int| 0 <= i < j && counts_once(r, #[trigger] ms[i]) && link_number(ms[i].link->0) == x;
        law_link_numbers_are_unique(ms[i].link->0, ms[j].link->0);
        assert(ms[i].link == ms[j].link);
    }
}

/// How many of the entries are directories that may be walked.
pub open spec fn walkable(entries: Seq<NewEntry>) -> nat
    decreases entries.len(),
{
    if entries.len() == 0 {
        0
    } else {
        let before = walkable(entries.drop_last());
        if entries.last().kind == Kind::Dir && !entries.last().cloud {
            before + 1
        } else {
            before
        }
    }
}

pub proof fn lemma_walkable_push(entries: Seq<NewEntry>, e: NewEntry)
    ensures
        walkable(entries.push(e)) == walkable(entries) + (if e.kind == Kind::Dir && !e.cloud {
            1nat
        } else {
            0nat
        }),
{
    assert(entries.push(e).drop_last() =~= entries);
}

proof fn lemma_walk_ids_len(entries: Seq<NewEntry>, first: int)
    ensures
        model::walk_ids(entries, first).len() == walkable(entries),
    decreases entries.len(),
{
    if entries.len() > 0 {
        lemma_walk_ids_len(entries.drop_last(), first);
    }
}

proof fn lemma_walk_ids_in_range(entries: Seq<NewEntry>, first: int)
    requires
        0 <= first,
        first + entries.len() <= u32::MAX,
    ensures
        forall|k: int|
            0 <= k < model::walk_ids(entries, first).len() ==> first <= #[trigger] model::walk_ids(entries, first)[k] < first
                + entries.len(),
    decreases entries.len(),
{
    if entries.len() > 0 {
        let front = entries.drop_last();
        lemma_walk_ids_in_range(front, first);
        let before = model::walk_ids(front, first);
        let now = model::walk_ids(entries, first);
        assert forall|k: int| 0 <= k < now.len() implies first <= #[trigger] now[k] < first + entries.len() by {
            if k < before.len() {
                assert(now[k] == before[k]);
            }
        }
    }
}

/// What has been found in one directory. `P` is how a path is written.
pub struct Batch<P> {
    pub entries: Vec<NewEntry>,
    pub subdirs: Vec<P>,
    pub errors: Vec<(String, String)>,
    pub skipped: u64,
    pub hardlinks: u64,
}

impl<P> Batch<P> {
    /// The directories to be walked line up with the entries that the tree
    /// will hand out ids for.
    pub open spec fn lines_up(self, recurse: bool) -> bool {
        if recurse {
            self.subdirs@.len() == walkable(self.entries@)
        } else {
            self.subdirs@.len() == 0
        }
    }

    /// This is what is known of the directory once `links` were counted.
    pub open spec fn tells(self, links: Set<u128>, g: Gathered) -> bool {
        &&& self.entries@ == g.entries
        &&& self.skipped == g.skipped
        &&& self.errors@.len() == g.errors
        &&& self.subdirs@.len() == g.walks.len()
        &&& links == g.links
    }

    pub fn new() -> (b: Self)
        ensures
            b.entries@.len() == 0,
            b.subdirs@.len() == 0,
            b.errors@.len() == 0,
            b.skipped == 0,
            b.hardlinks == 0,
            b.lines_up(true),
            b.lines_up(false),
    {
        Batch { entries: Vec::new(), subdirs: Vec::new(), errors: Vec::new(), skipped: 0, hardlinks: 0 }
    }

    /// Leaves an excluded entry out.
    pub fn skip(&mut self)
        requires
            old(self).skipped < u64::MAX,
        ensures
            *final(self) == (Batch { skipped: (old(self).skipped + 1) as u64, ..*old(self) }),
    {
        self.skipped = self.skipped + 1;
    }

    /// Whether an entry is to be looked at. One that a pattern matches is not: it
    /// counts as skipped and is never listed.
    pub fn consider(&mut self, excludes: &Excludes, name: &str, path: &[u8]) -> (look: bool)
        requires
            old(self).skipped < u64::MAX,
        ensures
            look == !excludes::left_out(excludes.patterns(), name@, path@),
            *final(self) == (if look {
                *old(self)
            } else {
                Batch { skipped: (old(self).skipped + 1) as u64, ..*old(self) }
            }),
            !look ==> forall|links: Set<u128>, g: Gathered, r: Rules, x: Met|
                old(self).tells(links, g) && x.name@ == name@ && x.path == path@ ==> #[trigger] final(self).tells(
                    links,
                    taken_in(g, excludes.patterns(), r, x),
                ),
    {
        if excludes.excluded(name, path) {
            self.skip();
            return false;
        }
        true
    }

    /// Notes that part of the listing could not be read.
    pub fn fail(&mut self, path: String, message: String)
        ensures
            final(self).errors@ == old(self).errors@.push((path, message)),
            *final(self) == (Batch { errors: final(self).errors, ..*old(self) }),
    {
        self.errors.push((path, message));
    }

    /// Lists an entry whose metadata could not be read.
    pub fn unreadable(&mut self, name: String, path: String, message: String)
        ensures
            final(self).errors@ == old(self).errors@.push((path, message)),
            final(self).entries@ == old(self).entries@.push(unread_entry(name)),
            *final(self) == (Batch { errors: final(self).errors, entries: final(self).entries, ..*old(self) }),
            forall|recurse: bool| #[trigger] old(self).lines_up(recurse) ==> final(self).lines_up(recurse),
            forall|links: Set<u128>, g: Gathered, patterns: Seq<Seq<char>>, r: Rules, x: Met|
                old(self).tells(links, g) && x.name == name && x.meta is None && !excludes::left_out(patterns, x.name@, x.path)
                    ==> #[trigger] final(self).tells(links, taken_in(g, patterns, r, x)),
    {
        self.errors.push((path, message));
        let e = NewEntry { name, kind: Kind::Other, size: 0, alloc: 0, mtime: 0, err: true, cloud: false };
        proof {
            lemma_walkable_push(self.entries@, e);
        }
        self.entries.push(e);
    }

    /// Takes in an entry. `links` are the files that were counted before.
    pub fn add(&mut self, rules: &Rules, links: &mut HashSet<u128>, name: String, path: P, m: Meta)
        requires
            old(self).skipped < u64::MAX,
            old(self).hardlinks < u64::MAX,
        ensures
            elsewhere(*rules, m) ==> {
                &&& *final(self) == (Batch { skipped: (old(self).skipped + 1) as u64, ..*old(self) })
                &&& final(links)@ == old(links)@
            },
            !elsewhere(*rules, m) ==> {
                &&& final(self).entries@ == old(self).entries@.push(entry_for(*rules, m, old(links)@, name))
                &&& final(self).subdirs@ == (if walked(*rules, m) {
                    old(self).subdirs@.push(path)
                } else {
                    old(self).subdirs@
                })
                &&& final(self).errors == old(self).errors
                &&& final(self).skipped == old(self).skipped
                &&& final(self).hardlinks == (if counted_before(*rules, m, old(links)@) {
                    old(self).hardlinks + 1
                } else {
                    old(self).hardlinks as int
                })
                &&& final(links)@ == (if counts_once(*rules, m) {
                    old(links)@.insert(link_number(m.link->0))
                } else {
                    old(links)@
                })
            },
            m.is_dir && rules.one_file_system && m.device != rules.root_device ==> {
                &&& final(self).entries@ == old(self).entries@
                &&& final(self).subdirs@ == old(self).subdirs@
                &&& final(self).skipped == old(self).skipped + 1
            },
            !m.is_dir || !rules.one_file_system || m.device == rules.root_device ==> {
                &&& final(self).entries@.len() == old(self).entries@.len() + 1
                &&& final(self).entries@.last().name == name
                &&& final(self).entries@.last().mtime == m.mtime
                &&& final(self).subdirs@ == (if m.is_dir && rules.recurse && !(m.cloud && rules.local_only) {
                    old(self).subdirs@.push(path)
                } else {
                    old(self).subdirs@
                })
                &&& final(self).skipped == old(self).skipped
            },
            final(self).hardlinks != old(self).hardlinks ==> {
                &&& final(self).hardlinks == old(self).hardlinks + 1
                &&& !m.is_dir && !m.is_symlink && m.is_file && m.link is Some && !rules.count_links
                &&& final(self).entries@.last().size == 0 && final(self).entries@.last().alloc == 0
                &&& final(links)@ == old(links)@
            },
            final(links)@ != old(links)@ ==> {
                &&& final(self).hardlinks == old(self).hardlinks
                &&& final(self).entries@.last().size == m.size && final(self).entries@.last().alloc == m.alloc
            },
            old(self).lines_up(rules.recurse) ==> final(self).lines_up(rules.recurse),
            forall|g: Gathered, patterns: Seq<Seq<char>>, x: Met|
                old(self).tells(old(links)@, g) && x.name == name && x.meta == Some(m) && !excludes::left_out(
                    patterns,
                    x.name@,
                    x.path,
                ) ==> final(self).tells(final(links)@, #[trigger] taken_in(g, patterns, *rules, x)),
    {
        let kind = if m.is_dir {
            Kind::Dir
        } else if m.is_symlink {
            Kind::Link
        } else if m.is_file {
            Kind::File
        } else {
            Kind::Other
        };
        let cloud = m.cloud && (kind != Kind::Dir || rules.local_only);
        let hidden = cloud && rules.local_only;
        let ghost entry = entry_for(*rules, m, links@, name);
        proof {
            lemma_walkable_push(self.entries@, entry);
        }
        if kind == Kind::Dir {
            if rules.one_file_system && m.device != rules.root_device {
                self.skipped = self.skipped + 1;
                return;
            }
            if rules.recurse && !hidden {
                self.subdirs.push(path);
            }
        }
        if hidden {
            self.entries.push(NewEntry { name, kind, size: 0, alloc: 0, mtime: m.mtime, err: false, cloud: true });
            return;
        }
        let mut size: u64 = m.size;
        let mut alloc: u64 = m.alloc;
        if kind == Kind::File && !rules.count_links {
            if let Some(key) = m.link {
                let number: u128 = key.0 as u128 * 0x1_0000_0000_0000_0000 + key.1 as u128;
                if !links.insert(number) {
                    // Already counted through another link.
                    size = 0;
                    alloc = 0;
                    self.hardlinks = self.hardlinks + 1;
                    assert(links@ =~= old(links)@);
                }
            }
        }
        self.entries.push(NewEntry { name, kind, size, alloc, mtime: m.mtime, err: false, cloud });
    }
}

/// What an entry becomes whose metadata could not be read.
pub open spec fn unread_entry(name: String) -> NewEntry {
    NewEntry { name, kind: Kind::Other, size: 0, alloc: 0, mtime: 0, err: true, cloud: false }
}

/// An entry of a directory as it was met: its name, the bytes of its path, and
/// its metadata, unless that could not be read.
pub struct Met {
    pub name: String,
    pub path: Seq<u8>,
    pub meta: Option<Meta>,
}

/// The entry is left out: a pattern matches it, or it is a directory on another
/// filesystem.
pub open spec fn passed_over(patterns: Seq<Seq<char>>, r: Rules, x: Met) -> bool {
    excludes::left_out(patterns, x.name@, x.path) || (x.meta is Some && elsewhere(r, x.meta->0))
}

pub open spec fn is_passed_over(patterns: Seq<Seq<char>>, r: Rules) -> spec_fn(Met) -> bool {
    |x: Met| passed_over(patterns, r, x)
}

pub open spec fn is_kept(patterns: Seq<Seq<char>>, r: Rules) -> spec_fn(Met) -> bool {
    |x: Met| !passed_over(patterns, r, x)
}

pub open spec fn is_unread() -> spec_fn(Met) -> bool {
    |x: Met| x.meta is None
}

pub open spec fn is_walked(r: Rules) -> spec_fn(Met) -> bool {
    |x: Met| x.meta is Some && walked(r, x.meta->0)
}

pub open spec fn path_of() -> spec_fn(Met) -> Seq<u8> {
    |x: Met| x.path
}

/// What is known of a directory once some of its entries were taken in.
pub struct Gathered {
    pub entries: Seq<NewEntry>,
    pub skipped: nat,
    pub errors: nat,
    /// The paths of the directories to be walked.
    pub walks: Seq<Seq<u8>>,
    /// The files that were counted.
    pub links: Set<u128>,
}

/// What taking in one more entry makes of it: `consider` comes first, then `add`
/// or `unreadable`.
pub open spec fn taken_in(g: Gathered, patterns: Seq<Seq<char>>, r: Rules, x: Met) -> Gathered {
    if passed_over(patterns, r, x) {
        Gathered { skipped: g.skipped + 1, ..g }
    } else {
        match x.meta {
            Some(m) => Gathered {
                entries: g.entries.push(entry_for(r, m, g.links, x.name)),
                walks: if walked(r, m) {
                    g.walks.push(x.path)
                } else {
                    g.walks
                },
                links: if counts_once(r, m) {
                    g.links.insert(link_number(m.link->0))
                } else {
                    g.links
                },
                ..g
            },
            None => Gathered { entries: g.entries.push(unread_entry(x.name)), errors: g.errors + 1, ..g },
        }
    }
}

/// What is known of a directory once all these entries were taken in.
pub open spec fn gathered(patterns: Seq<Seq<char>>, r: Rules, items: Seq<Met>, links: Set<u128>) -> Gathered
    decreases items.len(),
{
    if items.len() == 0 {
        Gathered { entries: Seq::empty(), skipped: 0, errors: 0, walks: Seq::empty(), links }
    } else {
        taken_in(gathered(patterns, r, items.drop_last(), links), patterns, r, items.last())
    }
}

/// Nothing of a directory is lost and nothing is listed that was left out: what
/// is left out is counted as skipped, every other entry becomes one entry of
/// the tree under its name, and one that could not be read becomes an entry of
/// no weight, marked and with one error. Only what is listed is walked.
pub proof fn law_entries_are_listed_or_skipped(patterns: Seq<Seq<char>>, r: Rules, items: Seq<Met>, links: Set<u128>)
    ensures
        ({
            let g = gathered(patterns, r, items, links);
            let kept = items.filter(is_kept(patterns, r));
            &&& g.skipped == items.filter(is_passed_over(patterns, r)).len()
            &&& g.skipped + g.entries.len() == items.len()
            &&& g.errors == kept.filter(is_unread()).len()
            &&& g.walks == kept.filter(is_walked(r)).map_values(path_of())
            &&& g.entries.len() == kept.len()
            &&& forall|k: int|
                0 <= k < kept.len() ==> (#[trigger] g.entries[k]).name == kept[k].name && match kept[k].meta {
                    Some(m) => g.entries[k].kind == kind_of(m) && !g.entries[k].err,
                    None => g.entries[k] == unread_entry(kept[k].name),
                }
        }),
    decreases items.len(),
{
    reveal(Seq::filter);
    let g = gathered(patterns, r, items, links);
    let kept = items.filter(is_kept(patterns, r));
    if items.len() == 0 {
        assert(kept.filter(is_unread()).len() == 0);
        assert(g.walks =~= kept.filter(is_walked(r)).map_values(path_of()));
    } else {
        let front = items.drop_last();
        let x = items.last();
        law_entries_are_listed_or_skipped(patterns, r, front, links);
        let g0 = gathered(patterns, r, front, links);
        let kept0 = front.filter(is_kept(patterns, r));
        if !passed_over(patterns, r, x) {
            assert(kept == kept0.push(x));
            assert(kept.drop_last() =~= kept0);
            assert(g.walks =~= kept.filter(is_walked(r)).map_values(path_of()));
            assert forall|k: int| 0 <= k < kept.len() implies (#[trigger] g.entries[k]).name == kept[k].name && match kept[k].meta {
                Some(m) => g.entries[k].kind == kind_of(m) && !g.entries[k].err,
                None => g.entries[k] == unread_entry(kept[k].name),
            } by {
                if k < kept0.len() {
                    assert(g.entries[k] == g0.entries[k]);
                }
            }
        }
    }
}

/// The kept errors after more of them were recorded.
pub open spec fn recorded(kept: Seq<ScanError>, more: Seq<(String, String)>) -> Seq<ScanError>
    decreases more.len(),
{
    if more.len() == 0 {
        kept
    } else {
        let before = recorded(kept, more.drop_last());
        if before.len() < MAX_KEPT_ERRORS {
            before.push(ScanError { path: more.last().0, message: more.last().1 })
        } else {
            before
        }
    }
}

/// The counters have room for a batch.
pub open spec fn counters_fit<P>(s: Stats, b: Batch<P>) -> bool {
    &&& s.skipped + b.skipped <= u64::MAX
    &&& s.hardlinks + b.hardlinks <= u64::MAX
    &&& s.errors + b.errors@.len() <= u64::MAX
}

/// Whether the counters have room for a batch.
pub fn counters_have_room<P>(s: &Stats, b: &Batch<P>) -> (r: bool)
    ensures
        r == counters_fit(*s, *b),
{
    s.skipped <= u64::MAX - b.skipped && s.hardlinks <= u64::MAX - b.hardlinks && s.errors <= u64::MAX - b.errors.len() as u64
}

/// The counters of a scan once a listing was put into the tree.
pub open spec fn counted<P>(s: Stats, b: Batch<P>) -> Stats {
    Stats {
        files: (s.files + model::weigh(b.entries@).files) as u64,
        dirs: (s.dirs + model::weigh(b.entries@).dirs) as u64,
        size: (s.size + model::weigh(b.entries@).size) as u64,
        alloc: (s.alloc + model::weigh(b.entries@).alloc) as u64,
        errors: (s.errors + b.errors@.len()) as u64,
        skipped: (s.skipped + b.skipped) as u64,
        hardlinks: (s.hardlinks + b.hardlinks) as u64,
    }
}

/// Puts a finished listing of `id` into the tree. Gives the directories that
/// are to be walked, by id and by path, in the same order.
pub fn settle<P>(tree: &mut Tree, id: u32, batch: Batch<P>, dir: String) -> (r: (Vec<u32>, Vec<P>))
    requires
        old(tree).wf(),
        old(tree).holds(id),
        old(tree).has_room(id, batch.entries@),
        counters_fit(old(tree).stats, batch),
    ensures
        final(tree).stats == counted(old(tree).stats, batch),
        final(tree).wf(),
        r.0@ == model::walk_ids(batch.entries@, old(tree).nodes@.len() as int),
        r.1 == batch.subdirs,
        batch.lines_up(true) ==> r.0@.len() == r.1@.len(),
        forall|k: int| 0 <= k < r.0@.len() ==> #[trigger] r.0@[k] < final(tree).nodes@.len(),
        model::grown(old(tree).nodes@, final(tree).nodes@, id as int, batch.entries@, model::names_of(final(tree).exts@)),
        model::names_of(final(tree).exts@) == model::intern_all(model::names_of(old(tree).exts@), batch.entries@),
        final(tree).stats == (Stats {
            files: (old(tree).stats.files + model::weigh(batch.entries@).files) as u64,
            dirs: (old(tree).stats.dirs + model::weigh(batch.entries@).dirs) as u64,
            size: (old(tree).stats.size + model::weigh(batch.entries@).size) as u64,
            alloc: (old(tree).stats.alloc + model::weigh(batch.entries@).alloc) as u64,
            errors: (old(tree).stats.errors + batch.errors@.len()) as u64,
            skipped: (old(tree).stats.skipped + batch.skipped) as u64,
            hardlinks: (old(tree).stats.hardlinks + batch.hardlinks) as u64,
        }),
        final(tree).errors@ == recorded(old(tree).errors@, batch.errors@),
        final(tree).current == dir,
        final(tree).version == old(tree).version + 1,
        old(tree).coherent() && old(tree).reaches(id) && old(tree).nodes@[id as int].kind == Kind::Dir
            ==> final(tree).coherent(),
{
    let ghost more = batch.errors@;
    let Batch { entries, subdirs, errors, skipped, hardlinks } = batch;
    proof {
        lemma_walk_ids_len(entries@, tree.nodes@.len() as int);
        lemma_walk_ids_in_range(entries@, tree.nodes@.len() as int);
    }
    let ids = tree.add_children(id, entries);
    tree.stats.skipped = tree.stats.skipped + skipped;
    tree.stats.hardlinks = tree.stats.hardlinks + hardlinks;
    let ghost grown = *tree;
    for e in it: errors
        invariant
            it.seq() == more,
            grown.stats.errors + more.len() <= u64::MAX,
            *tree == (Tree { stats: tree.stats, errors: tree.errors, ..grown }),
            tree.stats == (Stats { errors: (grown.stats.errors + it.index()) as u64, ..grown.stats }),
            tree.errors@ == recorded(grown.errors@, more.take(it.index() as int)),
    {
        proof {
            assert(more.take(it.index() + 1).drop_last() =~= more.take(it.index() as int));
            assert(more.take(it.index() + 1).last() == e);
        }
        let (path, message) = e;
        tree.record_error(path, message);
    }
    assert(more.take(more.len() as int) =~= more);
    tree.current = dir;
    (ids, subdirs)
}

/// Marks directories at the depth limit as read: they will never be walked, and
/// the UI would show a permanent "scanning" marker on them.
pub fn mark_all_read(tree: &mut Tree, ids: &Vec<u32>)
    requires
        old(tree).wf(),
        old(tree).version + ids@.len() <= u64::MAX,
        forall|k: int| 0 <= k < ids@.len() ==> #[trigger] ids@[k] < old(tree).nodes@.len(),
    ensures
        final(tree).wf(),
        final(tree).nodes@.len() == old(tree).nodes@.len(),
        forall|k: int|
            0 <= k < old(tree).nodes@.len() ==> #[trigger] final(tree).nodes@[k] == (if ids@.contains(k as u32) {
                Node { read: true, ..old(tree).nodes@[k] }
            } else {
                old(tree).nodes@[k]
            }),
        *final(tree) == (Tree {
            nodes: final(tree).nodes,
            version: (old(tree).version + ids@.len()) as u64,
            ..*old(tree)
        }),
        old(tree).coherent() ==> final(tree).coherent(),
{
    let ghost before = *tree;
    let mut i: usize = 0;
    assert(forall|x: u32| !ids@.take(0).contains(x));
    while i < ids.len()
        invariant
            i <= ids@.len(),
            before == *old(tree),
            tree.wf(),
            before.version + ids@.len() <= u64::MAX,
            forall|k: int| 0 <= k < ids@.len() ==> #[trigger] ids@[k] < before.nodes@.len(),
            tree.nodes@.len() == before.nodes@.len(),
            forall|k: int|
                0 <= k < before.nodes@.len() ==> #[trigger] tree.nodes@[k] == (if ids@.take(i as int).contains(k as u32) {
                    Node { read: true, ..before.nodes@[k] }
                } else {
                    before.nodes@[k]
                }),
            *tree == (Tree { nodes: tree.nodes, version: (before.version + i) as u64, ..before }),
            before.coherent() ==> tree.coherent(),
        decreases ids.len() - i,
    {
        let id: u32 = ids[i];
        let ghost now = ids@.take(i as int);
        let ghost then = ids@.take(i + 1);
        tree.mark_read(id, false);
        proof {
            assert(then =~= now.push(id));
            assert forall|x: u32| then.contains(x) == (now.contains(x) || x == id) by {
                if now.contains(x) {
                    let j = now.index_of(x);
                    assert(then[j] == x);
                }
                if then.contains(x) {
                    let j = then.index_of(x);
                    if j < i {
                        assert(now[j] == x);
                    }
                }
                assert(then[i as int] == id);
            }
        }
        i = i + 1;
    }
    assert(ids@.take(i as int) =~= ids@);
}

/// The nodes with these marked as read.
pub open spec fn all_marked(nodes: Seq<Node>, ids: Seq<u32>) -> Seq<Node> {
    Seq::new(
        nodes.len(),
        |k: int|
            if ids.contains(k as u32) {
                Node { read: true, ..nodes[k] }
            } else {
                nodes[k]
            },
    )
}

/// The last step of reading a directory: the walks to start below it, by id and
/// by path. At the depth limit there are none, and the directories found are
/// marked as read; a walk that was cancelled starts no more.
pub fn next_walks<P>(tree: &mut Tree, ids: Vec<u32>, subdirs: Vec<P>, recurse: bool, cancelled: bool) -> (r: Vec<(u32, P)>)
    requires
        old(tree).wf(),
        !recurse ==> old(tree).version + ids@.len() <= u64::MAX,
        forall|k: int| 0 <= k < ids@.len() ==> #[trigger] ids@[k] < old(tree).nodes@.len(),
    ensures
        final(tree).wf(),
        recurse ==> *final(tree) == *old(tree),
        !recurse ==> {
            &&& final(tree).nodes@ == all_marked(old(tree).nodes@, ids@)
            &&& *final(tree) == (Tree {
                nodes: final(tree).nodes,
                version: (old(tree).version + ids@.len()) as u64,
                ..*old(tree)
            })
        },
        old(tree).coherent() ==> final(tree).coherent(),
        recurse && !cancelled ==> {
            &&& r@.len() == if ids@.len() <= subdirs@.len() {
                ids@.len()
            } else {
                subdirs@.len()
            }
            &&& forall|k: int| 0 <= k < r@.len() ==> #[trigger] r@[k] == (ids@[k], subdirs@[k])
        },
        !recurse || cancelled ==> r@.len() == 0,
{
    let mut out: Vec<(u32, P)> = Vec::new();
    if !recurse {
        mark_all_read(tree, &ids);
        assert(tree.nodes@ =~= all_marked(old(tree).nodes@, ids@));
        return out;
    }
    if cancelled {
        return out;
    }
    let mut i: usize = 0;
    for p in it: subdirs
        invariant
            it.seq() == subdirs@,
            i <= ids@.len(),
            i == if it.index() <= ids@.len() {
                it.index() as int
            } else {
                ids@.len() as int
            },
            out@.len() == i,
            forall|k: int| 0 <= k < out@.len() ==> #[trigger] out@[k] == (ids@[k], subdirs@[k]),
    {
        if i < ids.len() {
            out.push((ids[i], p));
            i = i + 1;
        }
    }
    out
}

} // verus!
