//! In-memory arena of the scanned filesystem tree.
//!
//! The scanner is the single writer, request handlers are readers. Sizes are
//! aggregated upwards as soon as a directory is read, so a partially scanned
//! tree is always coherent: that is what makes streaming to the browser
//! possible.

pub mod aggregate;
pub mod candidates;
pub mod extensions;
pub mod filtered;
pub mod largest;
pub mod laws;
pub mod leaves;
pub mod listing;
pub mod model;
pub mod paths;
pub mod rescan;
pub mod room;
pub mod search;
pub mod slice;
pub mod totals;
pub mod undo;
pub mod visit;

pub use crate::tree::candidates::Candidate;
pub use crate::tree::extensions::ExtStat;
pub use crate::tree::largest::LargeFile;
pub use crate::tree::leaves::SnapEntry;
pub use crate::tree::listing::ChildrenView;
pub use crate::tree::listing::Rollup;
pub use crate::tree::listing::SortKey;
pub use crate::tree::paths::Crumb;
pub use crate::tree::paths::Entry;
pub use crate::tree::search::SearchFilter;
pub use crate::tree::search::SearchHit;
pub use crate::tree::slice::SubtreeNode;

use vstd::hash_map::StringHashMap;
use vstd::prelude::*;

use crate::text;
use crate::tree::model::Tally;

verus! {

pub const ROOT: u32 = 0;

/// Sentinel for "this node has no extension".
pub const NO_EXT: u32 = 0xffff_ffff;

#[derive(Clone, Copy, PartialEq, Eq, Debug, Structural)]
pub enum Kind {
    Dir,
    File,
    Link,
    Other,
}

pub struct Node {
    pub parent: u32,
    pub name: String,
    pub kind: Kind,
    /// Size of the entry itself.
    pub self_size: u64,
    pub self_alloc: u64,
    /// Size of the whole subtree, including `self_size`.
    pub total_size: u64,
    pub total_alloc: u64,
    pub files: u32,
    pub dirs: u32,
    pub mtime: i64,
    pub ext: u32,
    pub depth: u16,
    /// Directory has had its own listing completed.
    pub read: bool,
    /// Reading this entry failed.
    pub err: bool,
    /// Moved to the trash from the UI; its subtree is no longer reachable.
    pub removed: bool,
    /// Filtered out as cloud-backed: its bytes live in the cloud, not here.
    pub cloud: bool,
    pub children: Vec<u32>,
}

/// A freshly discovered entry, handed over by the scanner.
pub struct NewEntry {
    pub name: String,
    pub kind: Kind,
    pub size: u64,
    pub alloc: u64,
    pub mtime: i64,
    pub err: bool,
    pub cloud: bool,
}

#[derive(Clone, Copy, Debug)]
pub struct Stats {
    pub files: u64,
    pub dirs: u64,
    pub size: u64,
    pub alloc: u64,
    pub errors: u64,
    pub skipped: u64,
    pub hardlinks: u64,
}

impl Default for Stats {
    fn default() -> (r: Self)
        ensures
            r == (Stats { files: 0, dirs: 0, size: 0, alloc: 0, errors: 0, skipped: 0, hardlinks: 0 }),
    {
        Stats { files: 0, dirs: 0, size: 0, alloc: 0, errors: 0, skipped: 0, hardlinks: 0 }
    }
}

pub struct Tree {
    pub nodes: Vec<Node>,
    pub exts: Vec<String>,
    /// Position of each of `exts`.
    pub ext_ids: StringHashMap<u32>,
    /// Bumped on every mutation so the UI knows when to refetch.
    pub version: u64,
    pub stats: Stats,
    /// Directory the scanner most recently finished reading.
    pub current: String,
    pub errors: Vec<ScanError>,
}

#[derive(Clone, Debug)]
pub struct ScanError {
    pub path: String,
    pub message: String,
}

pub const MAX_KEPT_ERRORS: usize = 200;

/// Position of the last dot, or -1.
pub open spec fn last_dot(s: Seq<char>) -> int
    decreases s.len(),
{
    if s.len() == 0 {
        -1
    } else if s.last() == '.' {
        s.len() - 1
    } else {
        last_dot(s.drop_last())
    }
}

/// Characters an extension is made of.
pub open spec fn ext_char(c: char) -> bool {
    ||| '0' <= c && c <= '9'
    ||| 'a' <= c && c <= 'z'
    ||| 'A' <= c && c <= 'Z'
    ||| c == '_'
    ||| c == '-'
}

/// Lowercased extension of a file name: what follows the last dot, if that is
/// one to sixteen extension characters and something stands before the dot.
pub open spec fn extension(name: Seq<char>) -> Option<Seq<char>> {
    let dot = last_dot(name);
    let ext = name.skip(dot + 1);
    if dot > 0 && 1 <= ext.len() <= 16 && (forall|i: int| 0 <= i < ext.len() ==> ext_char(#[trigger] ext[i])) {
        Some(text::lower_all(ext))
    } else {
        None
    }
}

/// Lowercased extension of a file name, or `None` for dotfiles and names
/// without a usable suffix.
pub fn extension_of(name: &str) -> (r: Option<String>)
    ensures
        match r {
            Some(x) => extension(name@) == Some(x@),
            None => extension(name@) is None,
        },
{
    let cs = text::chars_of(name);
    let n: usize = cs.len();
    let mut dot: usize = n;
    assert(cs@.take(n as int) =~= cs@);
    while dot > 0 && cs[dot - 1] != '.'
        invariant
            dot <= n,
            n == cs@.len(),
            last_dot(cs@) == last_dot(cs@.take(dot as int)),
            forall|i: int| dot <= i < n ==> cs@[i] != '.',
        decreases dot,
    {
        assert(cs@.take(dot as int).drop_last() =~= cs@.take(dot - 1));
        dot = dot - 1;
    }
    assert(last_dot(cs@) == dot - 1) by {
        if dot > 0 {
            assert(cs@.take(dot as int).last() == cs@[dot - 1]);
        }
    }
    let ghost ext = cs@.skip(dot as int);
    if dot <= 1 || dot == n || n - dot > 16 {
        return None;
    }
    let mut i: usize = dot;
    while i < n
        invariant
            1 < dot <= i <= n,
            n == cs@.len(),
            cs@ == name@,
            ext == cs@.skip(dot as int),
            last_dot(cs@) == dot - 1,
            forall|j: int| 0 <= j < i - dot ==> ext_char(#[trigger] ext[j]),
        decreases n - i,
    {
        let c = cs[i];
        assert(ext[i - dot] == c);
        let good = ('0' <= c && c <= '9') || ('a' <= c && c <= 'z') || ('A' <= c && c <= 'Z') || c == '_' || c == '-';
        if !good {
            return None;
        }
        i = i + 1;
    }
    assert(cs@.subrange(dot as int, n as int) =~= ext);
    Some(text::lowered_range(&cs, dot, n))
}

/// What inserting `entries` below `parent` makes of a tree.
pub open spec fn inserted(before: Tree, after: Tree, parent: u32, entries: Seq<NewEntry>) -> bool {
    &&& model::grown(before.nodes@, after.nodes@, parent as int, entries, model::names_of(after.exts@))
    &&& model::names_of(after.exts@) == model::intern_all(model::names_of(before.exts@), entries)
    &&& after.stats == rescan::shifted(before.stats, model::weigh(entries))
    &&& after.version == before.version + 1
    &&& after.current == before.current
    &&& after.errors == before.errors
}

/// What removing `id` makes of a tree.
pub open spec fn taken_out(before: Tree, after: Tree, id: u32) -> bool {
    &&& model::uprooted(before.nodes@, after.nodes@, id as int)
    &&& after == (Tree {
        nodes: after.nodes,
        version: (before.version + 1) as u64,
        stats: rescan::lessened(before.stats, model::removal(before.nodes@[id as int])),
        ..before
    })
}

impl Tree {
    /// No extension is empty, and their index lists each of them once, under its
    /// position.
    pub open spec fn index_ok(self) -> bool {
        &&& forall|k: int| 0 <= k < self.exts@.len() ==> (#[trigger] self.exts@[k])@.len() > 0
        &&& forall|k: int| 0 <= k < self.exts@.len() ==> self.ext_ids@.contains_key(#[trigger] self.exts@[k]@)
            && self.ext_ids@[self.exts@[k]@] == k
        &&& forall|x: Seq<char>| #[trigger]
            self.ext_ids@.contains_key(x) ==> self.ext_ids@[x] < self.exts@.len() && self.exts@[self.ext_ids@[x] as int]@ == x
    }

    /// What every operation keeps: parents stand before their children, child
    /// lists and parent links agree, depths count the levels, and extension ids
    /// are in range.
    pub open spec fn wf(self) -> bool {
        &&& model::shape(self.nodes@)
        &&& model::levels(self.nodes@)
        &&& self.exts@.len() < self.nodes@.len()
        &&& forall|i: int| 0 <= i < self.nodes@.len() ==> (#[trigger] self.nodes@[i]).ext == NO_EXT || self.nodes@[i].ext
            < self.exts@.len()
        &&& self.index_ok()
    }

    pub open spec fn holds(self, id: u32) -> bool {
        id < self.nodes@.len()
    }

    /// `id` is in the tree and neither it nor a directory above it was removed.
    pub open spec fn reaches(self, id: u32) -> bool {
        id < self.nodes@.len() && model::attached(self.nodes@, id as int)
    }

    pub fn new(root_name: String, size: u64, alloc: u64, mtime: i64) -> (t: Self)
        ensures
            t.wf(),
            t.coherent(),
            t.nodes@.len() == 1,
            model::fresh(
                t.nodes@[0],
                ROOT,
                0,
                (NewEntry { name: root_name, kind: Kind::Dir, size, alloc, mtime, err: false, cloud: false }),
                NO_EXT,
            ),
            t.exts@.len() == 0,
            t.version == 0,
            t.stats == (Stats { files: 0, dirs: 0, size: 0, alloc: 0, errors: 0, skipped: 0, hardlinks: 0 }),
            t.current@.len() == 0,
            t.errors@.len() == 0,
    {
        let root = Node {
            parent: ROOT,
            name: root_name,
            kind: Kind::Dir,
            self_size: size,
            self_alloc: alloc,
            total_size: size,
            total_alloc: alloc,
            files: 0,
            dirs: 0,
            mtime,
            ext: NO_EXT,
            depth: 0,
            read: false,
            err: false,
            removed: false,
            cloud: false,
            children: Vec::new(),
        };
        let mut nodes: Vec<Node> = Vec::new();
        nodes.push(root);
        let t = Tree {
            nodes,
            exts: Vec::new(),
            ext_ids: StringHashMap::new(),
            version: 0,
            stats: Stats::default(),
            current: String::new(),
            errors: Vec::new(),
        };
        assert(aggregate::balanced(t.nodes@, 0));
        t
    }

    /// The position of `ext` among the known extensions, which it joins if it
    /// is new.
    fn intern_ext(&mut self, ext: String) -> (id: u32)
        requires
            old(self).index_ok(),
            ext@.len() > 0,
            old(self).exts@.len() < NO_EXT,
        ensures
            final(self).index_ok(),
            model::names_of(final(self).exts@) == model::interned(model::names_of(old(self).exts@), ext@),
            model::names_of(final(self).exts@).no_duplicates(),
            id < final(self).exts@.len(),
            final(self).exts@[id as int]@ == ext@,
            final(self).nodes == old(self).nodes,
            final(self).version == old(self).version,
            final(self).stats == old(self).stats,
            final(self).current == old(self).current,
            final(self).errors == old(self).errors,
    {
        if let Some(id) = self.ext_ids.get(ext.as_str()) {
            let found: u32 = *id;
            proof {
                assert(self.exts@[found as int]@ == ext@);
                assert(model::names_of(self.exts@)[found as int] == ext@);
                assert(model::names_of(self.exts@).contains(ext@));
                self.lemma_exts_distinct();
            }
            return found;
        }
        let id: u32 = self.exts.len() as u32;
        let ghost before = self.exts@;
        let ghost ids0 = self.ext_ids@;
        let key = ext.clone();
        self.exts.push(ext);
        self.ext_ids.insert(key, id);
        proof {
            assert forall|k: int| 0 <= k < self.exts@.len() implies self.ext_ids@.contains_key(#[trigger] self.exts@[k]@)
                && self.ext_ids@[self.exts@[k]@] == k by {
                if k < before.len() {
                    assert(before[k] == self.exts@[k]);
                    assert(ids0.contains_key(before[k]@));
                }
            }
            assert forall|x: Seq<char>| #[trigger] self.ext_ids@.contains_key(x) implies self.ext_ids@[x] < self.exts@.len()
                && self.exts@[self.ext_ids@[x] as int]@ == x by {
                if x != ext@ {
                    assert(ids0.contains_key(x));
                }
            }
            self.lemma_exts_distinct();
            assert(!model::names_of(before).contains(ext@)) by {
                if model::names_of(before).contains(ext@) {
                    let k = choose|k: int| 0 <= k < model::names_of(before).len() && model::names_of(before)[k] == ext@;
                    assert(before[k]@ == ext@);
                    assert(ids0.contains_key(before[k]@));
                }
            }
            assert(model::names_of(self.exts@) =~= model::names_of(before).push(ext@));
        }
        id
    }

    proof fn lemma_exts_distinct(&self)
        requires
            self.index_ok(),
        ensures
            model::names_of(self.exts@).no_duplicates(),
    {
        assert forall|i: int, j: int| 0 <= i < j < self.exts@.len() implies model::names_of(self.exts@)[i] != model::names_of(
            self.exts@,
        )[j] by {
            assert(self.ext_ids@[self.exts@[i]@] == i);
            assert(self.ext_ids@[self.exts@[j]@] == j);
        }
    }

    /// Adds to the totals of `from` and of everything above it.
    fn propagate(&mut self, from: u32, size: u64, alloc: u64, files: u32, dirs: u32)
        requires
            model::shape(old(self).nodes@),
            from < old(self).nodes@.len(),
            forall|a: int|
                0 <= a < old(self).nodes@.len() && #[trigger] model::above(old(self).nodes@, a, from as int) ==> model::tally(
                    old(self).nodes@[a],
                ).plus(Tally { size: size as int, alloc: alloc as int, files: files as int, dirs: dirs as int }).fits(),
        ensures
            model::path_raised(
                old(self).nodes@,
                final(self).nodes@,
                from as int,
                (Tally { size: size as int, alloc: alloc as int, files: files as int, dirs: dirs as int }),
            ),
            *final(self) == (Tree { nodes: final(self).nodes, ..*old(self) }),
    {
        let ghost before = self.nodes@;
        let ghost d = Tally { size: size as int, alloc: alloc as int, files: files as int, dirs: dirs as int };
        let mut id: u32 = from;
        assert forall|k: int| 0 <= k < before.len() && k > id implies !model::above(before, k, from as int) by {
            if model::above(before, k, from as int) {
                model::lemma_above_bounds(before, k, from as int);
            }
        }
        loop
            invariant_except_break
                forall|k: int|
                    0 <= k < before.len() ==> #[trigger] self.nodes@[k] == (if k > id && model::above(before, k, from as int) {
                        model::raised(before[k], d)
                    } else {
                        before[k]
                    }),
            invariant
                before == old(self).nodes@,
                *self == (Tree { nodes: self.nodes, ..*old(self) }),
                d == (Tally { size: size as int, alloc: alloc as int, files: files as int, dirs: dirs as int }),
                model::shape(before),
                from < before.len(),
                id <= from,
                model::above(before, id as int, from as int),
                self.nodes@.len() == before.len(),
                forall|a: int|
                    0 <= a < before.len() && #[trigger] model::above(before, a, from as int) ==> model::tally(before[a]).plus(
                        d,
                    ).fits(),
            ensures
                self.nodes@.len() == before.len(),
                *self == (Tree { nodes: self.nodes, ..*old(self) }),
                forall|k: int|
                    0 <= k < before.len() ==> #[trigger] self.nodes@[k] == (if model::above(before, k, from as int) {
                        model::raised(before[k], d)
                    } else {
                        before[k]
                    }),
            decreases id,
        {
            let i: usize = id as usize;
            assert(model::tally(before[id as int]).plus(d).fits());
            let n = &mut self.nodes[i];
            n.total_size = n.total_size + size;
            n.total_alloc = n.total_alloc + alloc;
            n.files = n.files + files;
            n.dirs = n.dirs + dirs;
            let next: u32 = n.parent;
            proof {
                assert(self.nodes@[id as int] == model::raised(before[id as int], d));
                assert forall|k: int| 0 <= k < before.len() implies #[trigger] self.nodes@[k] == (if k >= id && model::above(
                    before,
                    k,
                    from as int,
                ) {
                    model::raised(before[k], d)
                } else {
                    before[k]
                }) by {}
            }
            if id == ROOT {
                break;
            }
            proof {
                model::lemma_above_parent(before, id as int, from as int);
                assert forall|k: int| 0 <= k < before.len() && k > next && k < id implies !model::above(
                    before,
                    k,
                    from as int,
                ) by {
                    if model::above(before, k, from as int) {
                        model::lemma_path_gap(before, from as int, id as int, k);
                    }
                }
            }
            id = next;
        }
    }

    /// Takes from the totals of `from` and of everything above it; none falls
    /// below zero.
    fn subtract(&mut self, from: u32, size: u64, alloc: u64, files: u32, dirs: u32)
        requires
            model::shape(old(self).nodes@),
            from < old(self).nodes@.len(),
        ensures
            model::path_lowered(
                old(self).nodes@,
                final(self).nodes@,
                from as int,
                (Tally { size: size as int, alloc: alloc as int, files: files as int, dirs: dirs as int }),
            ),
            *final(self) == (Tree { nodes: final(self).nodes, ..*old(self) }),
    {
        let ghost before = self.nodes@;
        let ghost d = Tally { size: size as int, alloc: alloc as int, files: files as int, dirs: dirs as int };
        let mut id: u32 = from;
        assert forall|k: int| 0 <= k < before.len() && k > id implies !model::above(before, k, from as int) by {
            if model::above(before, k, from as int) {
                model::lemma_above_bounds(before, k, from as int);
            }
        }
        loop
            invariant_except_break
                forall|k: int|
                    0 <= k < before.len() ==> #[trigger] self.nodes@[k] == (if k > id && model::above(before, k, from as int) {
                        model::lowered(before[k], d)
                    } else {
                        before[k]
                    }),
            invariant
                before == old(self).nodes@,
                *self == (Tree { nodes: self.nodes, ..*old(self) }),
                d == (Tally { size: size as int, alloc: alloc as int, files: files as int, dirs: dirs as int }),
                model::shape(before),
                from < before.len(),
                id <= from,
                model::above(before, id as int, from as int),
                self.nodes@.len() == before.len(),
            ensures
                self.nodes@.len() == before.len(),
                *self == (Tree { nodes: self.nodes, ..*old(self) }),
                forall|k: int|
                    0 <= k < before.len() ==> #[trigger] self.nodes@[k] == (if model::above(before, k, from as int) {
                        model::lowered(before[k], d)
                    } else {
                        before[k]
                    }),
            decreases id,
        {
            let i: usize = id as usize;
            let n = &mut self.nodes[i];
            n.total_size = n.total_size.saturating_sub(size);
            n.total_alloc = n.total_alloc.saturating_sub(alloc);
            n.files = n.files.saturating_sub(files);
            n.dirs = n.dirs.saturating_sub(dirs);
            let next: u32 = n.parent;
            proof {
                assert(self.nodes@[id as int] == model::lowered(before[id as int], d));
                assert forall|k: int| 0 <= k < before.len() implies #[trigger] self.nodes@[k] == (if k >= id && model::above(
                    before,
                    k,
                    from as int,
                ) {
                    model::lowered(before[k], d)
                } else {
                    before[k]
                }) by {}
            }
            if id == ROOT {
                break;
            }
            proof {
                model::lemma_above_parent(before, id as int, from as int);
                assert forall|k: int| 0 <= k < before.len() && k > next && k < id implies !model::above(
                    before,
                    k,
                    from as int,
                ) by {
                    if model::above(before, k, from as int) {
                        model::lemma_path_gap(before, from as int, id as int, k);
                    }
                }
            }
            id = next;
        }
    }

    /// The totals of `parent` and of everything above it, and the counters,
    /// have room for `entries`.
    pub open spec fn has_room(self, parent: u32, entries: Seq<NewEntry>) -> bool {
        let w = model::weigh(entries);
        &&& self.nodes@.len() + entries.len() <= u32::MAX
        &&& forall|a: int|
            0 <= a < self.nodes@.len() && #[trigger] model::above(self.nodes@, a, parent as int) ==> model::tally(
                self.nodes@[a],
            ).plus(w).fits()
        &&& self.stats.files + w.files <= u64::MAX
        &&& self.stats.dirs + w.dirs <= u64::MAX
        &&& self.stats.size + w.size <= u64::MAX
        &&& self.stats.alloc + w.alloc <= u64::MAX
        &&& self.version < u64::MAX
    }

    /// Insert the children of `parent`, returning the ids of the child
    /// directories that should be walked, in the order they appeared in
    /// `entries`. Cloud placeholders are left out: they are listed, but their
    /// contents are never opened.
    #[verifier::rlimit(40)]
    pub fn add_children(&mut self, parent: u32, entries: Vec<NewEntry>) -> (dir_ids: Vec<u32>)
        requires
            old(self).wf(),
            old(self).holds(parent),
            old(self).has_room(parent, entries@),
        ensures
            final(self).wf(),
            inserted(*old(self), *final(self), parent, entries@),
            dir_ids@ == model::walk_ids(entries@, old(self).nodes@.len() as int),
            old(self).coherent() && old(self).reaches(parent) && old(self).nodes@[parent as int].kind == Kind::Dir
                ==> final(self).coherent(),
    {
        let ghost before = self.nodes@;
        let ghost exts0 = self.exts@;
        let ghost list = entries@;
        let depth: u16 = self.nodes[parent as usize].depth.saturating_add(1);
        let mut d_size: u64 = 0;
        let mut d_alloc: u64 = 0;
        let mut d_files: u32 = 0;
        let mut d_dirs: u32 = 0;
        let mut dir_ids: Vec<u32> = Vec::new();
        let first: u32 = self.nodes.len() as u32;
        proof {
            assert(list.take(0) =~= Seq::<NewEntry>::empty());
            assert(self.nodes@.take(before.len() as int) =~= before);
        }
        for e in it: entries
            invariant
                it.seq() == list,
                before == old(self).nodes@,
                exts0 == old(self).exts@,
                model::shape(before),
                first == before.len(),
                parent < before.len(),
                depth == model::below(before[parent as int].depth),
                before.len() + list.len() <= u32::MAX,
                model::weigh(list).size <= u64::MAX,
                model::weigh(list).alloc <= u64::MAX,
                self.nodes@.len() == before.len() + it.index(),
                self.nodes@.take(before.len() as int) == before,
                self.exts@.len() < self.nodes@.len(),
                self.index_ok(),
                model::names_of(self.exts@) == model::intern_all(model::names_of(exts0), list.take(it.index() as int)),
                model::settled(
                    self.nodes@,
                    before.len() as int,
                    parent as int,
                    depth,
                    list.take(it.index() as int),
                    model::names_of(self.exts@),
                ),
                forall|i: int|
                    0 <= i < self.nodes@.len() ==> (#[trigger] self.nodes@[i]).ext == NO_EXT || self.nodes@[i].ext
                        < self.exts@.len(),
                d_size == model::weigh(list.take(it.index() as int)).size,
                d_alloc == model::weigh(list.take(it.index() as int)).alloc,
                d_files == model::weigh(list.take(it.index() as int)).files,
                d_dirs == model::weigh(list.take(it.index() as int)).dirs,
                dir_ids@ == model::walk_ids(list.take(it.index() as int), before.len() as int),
                self.stats == old(self).stats,
                self.version == old(self).version,
                self.current == old(self).current,
                self.errors == old(self).errors,
        {
            let ghost at = it.index() as int;
            proof {
                assert(e == list[at]);
                assert(list.take(at + 1).drop_last() =~= list.take(at));
                assert(list.take(at + 1).last() == e);
                model::lemma_weigh_part(list, at + 1);
                model::lemma_weigh_part(list.take(at), at);
                model::lemma_weigh_part(list.take(at + 1), at + 1);
            }
            let ghost nodes0 = self.nodes@;
            let ghost names0 = model::names_of(self.exts@);
            let id: u32 = self.nodes.len() as u32;
            let ext: u32 = if e.kind == Kind::File {
                match extension_of(e.name.as_str()) {
                    Some(x) => self.intern_ext(x),
                    None => NO_EXT,
                }
            } else {
                NO_EXT
            };
            proof {
                assert(model::ext_slot(model::names_of(self.exts@), model::entry_ext(e), ext));
                assert(names0.is_prefix_of(model::names_of(self.exts@)));
                assert(model::names_of(self.exts@) == model::intern_all(model::names_of(exts0), list.take(at + 1)));
            }
            if e.kind == Kind::Dir {
                d_dirs = d_dirs + 1;
                if !e.cloud {
                    dir_ids.push(id);
                }
            } else {
                d_files = d_files + 1;
            }
            d_size = d_size + e.size;
            d_alloc = d_alloc + e.alloc;
            let node = Node {
                parent,
                name: e.name,
                kind: e.kind,
                self_size: e.size,
                self_alloc: e.alloc,
                total_size: e.size,
                total_alloc: e.alloc,
                files: 0,
                dirs: 0,
                mtime: e.mtime,
                ext,
                depth,
                // A filtered directory is never descended into, so calling it
                // unread would leave a permanent "scanning" marker on it.
                read: e.cloud,
                err: e.err,
                removed: false,
                cloud: e.cloud,
                children: Vec::new(),
            };
            self.nodes.push(node);
            proof {
                assert(self.nodes@ == nodes0.push(node));
                assert(self.nodes@.take(before.len() as int) =~= nodes0.take(before.len() as int));
                assert forall|j: int| 0 <= j < at + 1 implies model::fresh(
                    #[trigger] self.nodes@[before.len() + j],
                    parent,
                    depth,
                    list.take(at + 1)[j],
                    self.nodes@[before.len() + j].ext,
                ) && model::ext_slot(
                    model::names_of(self.exts@),
                    model::entry_ext(list.take(at + 1)[j]),
                    self.nodes@[before.len() + j].ext,
                ) by {
                    if j < at {
                        assert(self.nodes@[before.len() + j] == nodes0[before.len() + j]);
                        assert(list.take(at + 1)[j] == list.take(at)[j]);
                    }
                }
            }
        }
        proof {
            assert(list.take(list.len() as int) =~= list);
        }
        let ghost middle = self.nodes@;
        let ghost joined = *self;
        let last: u32 = self.nodes.len() as u32;
        let at: usize = parent as usize;
        let mut id: u32 = first;
        while id < last
            invariant
                first <= id <= last,
                at == parent,
                at < before.len(),
                before.len() == first,
                last == middle.len(),
                self.nodes@.len() == middle.len(),
                forall|k: int| 0 <= k < middle.len() && k != at ==> self.nodes@[k] == middle[k],
                self.nodes@[at as int] == (Node { children: self.nodes@[at as int].children, ..middle[at as int] }),
                self.nodes@[at as int].children@ == middle[at as int].children@ + model::id_range(
                    first as int,
                    (id - first) as nat,
                ),
                *self == (Tree { nodes: self.nodes, ..joined }),
            decreases last - id,
        {
            self.nodes[at].children.push(id);
            assert(self.nodes@[at as int].children@ =~= middle[at as int].children@ + model::id_range(
                first as int,
                (id + 1 - first) as nat,
            ));
            id = id + 1;
        }
        self.nodes[at].read = true;
        let ghost w = model::weigh(list);
        let ghost grafted = self.nodes@;
        proof {
            assert forall|k: int| 0 <= k < before.len() implies middle[k] == before[k] by {
                assert(middle.take(before.len() as int)[k] == middle[k]);
            }
            assert forall|k: int| before.len() <= k < grafted.len() implies (#[trigger] grafted[k]).parent == parent
                && !grafted[k].removed && grafted[k].children@.len() == 0 by {
                let j = k - before.len();
                assert(grafted[k] == middle[before.len() + j]);
            }
            model::lemma_shape_grown(before, grafted, parent as int, list.len());
            assert forall|a: int| 0 <= a < grafted.len() && #[trigger] model::above(grafted, a, parent as int) implies model::tally(
                grafted[a],
            ).plus(w).fits() by {
                model::lemma_above_same_links(before, grafted, a, parent as int);
                model::lemma_above_bounds(grafted, a, parent as int);
            }
        }
        self.propagate(parent, d_size, d_alloc, d_files, d_dirs);
        proof {
            assert(w == (Tally { size: d_size as int, alloc: d_alloc as int, files: d_files as int, dirs: d_dirs as int }));
            assert forall|k: int| 0 <= k < grafted.len() implies model::above(grafted, k, parent as int) == model::above(
                before,
                k,
                parent as int,
            ) by {
                model::lemma_above_same_links(before, grafted, k, parent as int);
            }
            assert(model::above(before, parent as int, parent as int));
            model::lemma_shape_same_links(grafted, self.nodes@);
            assert forall|j: int| 0 <= j < list.len() implies #[trigger] self.nodes@[before.len() + j] == middle[before.len() + j] by {
                if model::above(grafted, before.len() + j, parent as int) {
                    model::lemma_above_bounds(grafted, before.len() + j, parent as int);
                }
            }
        }
        self.stats.files = self.stats.files + d_files as u64;
        self.stats.dirs = self.stats.dirs + d_dirs as u64;
        self.stats.size = self.stats.size + d_size;
        self.stats.alloc = self.stats.alloc + d_alloc;
        self.version = self.version + 1;
        proof {
            assert(model::grown(before, self.nodes@, parent as int, list, model::names_of(self.exts@)));
            model::lemma_levels_grown(before, self.nodes@, parent as int, list, model::names_of(self.exts@));
            if old(self).coherent() && old(self).reaches(parent) && before[parent as int].kind == Kind::Dir {
                aggregate::law_insertion_is_coherent(before, self.nodes@, parent as int, list, model::names_of(self.exts@));
                model::lemma_root_above(before, parent as int);
                model::lemma_weigh_part(list, list.len() as int);
                assert(model::tally(before[0]).plus(w).fits());
            }
        }
        dir_ids
    }

    /// Mark a directory as read even though it produced no children (empty or
    /// permission denied).
    pub fn mark_read(&mut self, id: u32, err: bool)
        requires
            old(self).wf(),
            old(self).holds(id),
            old(self).version < u64::MAX,
        ensures
            final(self).wf(),
            final(self).nodes@ == old(self).nodes@.update(
                id as int,
                (Node { read: true, err: old(self).nodes@[id as int].err || err, ..old(self).nodes@[id as int] }),
            ),
            *final(self) == (Tree {
                nodes: final(self).nodes,
                version: (old(self).version + 1) as u64,
                ..*old(self)
            }),
            old(self).coherent() ==> final(self).coherent(),
    {
        let n = &mut self.nodes[id as usize];
        n.read = true;
        n.err = n.err || err;
        self.version = self.version + 1;
        proof {
            model::lemma_shape_same_links(old(self).nodes@, self.nodes@);
            model::lemma_levels_same(old(self).nodes@, self.nodes@);
            if old(self).coherent() {
                aggregate::lemma_coherent_same_weights(old(self).nodes@, self.nodes@);
            }
        }
    }

    /// Counts an error; the first ones are kept for display.
    pub fn record_error(&mut self, path: String, message: String)
        requires
            old(self).stats.errors < u64::MAX,
        ensures
            *final(self) == (Tree {
                stats: final(self).stats,
                errors: final(self).errors,
                ..*old(self)
            }),
            final(self).stats == (Stats { errors: (old(self).stats.errors + 1) as u64, ..old(self).stats }),
            final(self).errors@ == (if old(self).errors@.len() < MAX_KEPT_ERRORS {
                old(self).errors@.push(ScanError { path, message })
            } else {
                old(self).errors@
            }),
    {
        self.stats.errors = self.stats.errors + 1;
        if self.errors.len() < MAX_KEPT_ERRORS {
            self.errors.push(ScanError { path, message });
        }
    }

    /// Whether neither `id` nor anything above it was removed.
    fn is_attached(&self, id: u32) -> (r: bool)
        requires
            model::shape(self.nodes@),
            self.holds(id),
        ensures
            r == model::attached(self.nodes@, id as int),
    {
        let mut cur: u32 = id;
        loop
            invariant
                model::shape(self.nodes@),
                self.holds(cur),
                model::attached(self.nodes@, cur as int) == model::attached(self.nodes@, id as int),
            decreases cur,
        {
            if self.nodes[cur as usize].removed {
                return false;
            }
            if cur == ROOT {
                return true;
            }
            assert(self.nodes@[cur as int].parent < cur);
            cur = self.nodes[cur as usize].parent;
        }
    }

    /// The node with this id, unless it or a directory above it was removed.
    pub fn get(&self, id: u32) -> (r: Option<&Node>)
        requires
            self.wf(),
        ensures
            match r {
                Some(n) => self.reaches(id) && *n == self.nodes@[id as int],
                None => !self.reaches(id),
            },
    {
        if (id as usize) < self.nodes.len() && self.is_attached(id) {
            Some(&self.nodes[id as usize])
        } else {
            None
        }
    }

    /// Detaches `id` after it was moved to the trash, subtracting its subtree
    /// from every ancestor so the totals stay coherent. Returns false for the
    /// root, an already removed node, or a node whose ancestor is gone.
    pub fn remove(&mut self, id: u32) -> (r: bool)
        requires
            old(self).wf(),
            old(self).holds(id),
            id != ROOT && old(self).reaches(id) ==> old(self).version < u64::MAX,
            id != ROOT && old(self).reaches(id) && old(self).nodes@[id as int].kind == Kind::Dir ==> old(
                self,
            ).nodes@[id as int].dirs < u32::MAX,
        ensures
            final(self).wf(),
            r == (id != ROOT && old(self).reaches(id)),
            !r ==> *final(self) == *old(self),
            r ==> taken_out(*old(self), *final(self), id),
            old(self).coherent() ==> final(self).coherent(),
    {
        if id == ROOT || !self.is_attached(id) {
            return false;
        }
        let ghost before = self.nodes@;
        let at: usize = id as usize;
        let parent: u32 = self.nodes[at].parent;
        let p: usize = parent as usize;
        proof {
            assert(before[id as int].parent < id);
            assert(!before[id as int].removed);
            assert(model::kept(before, id as int));
        }
        let count: usize = self.nodes[p].children.len();
        let mut pos: usize = 0;
        while self.nodes[p].children[pos] != id
            invariant
                self.nodes@ == before,
                p < before.len(),
                count == before[p as int].children@.len(),
                pos < count,
                before[p as int].children@.contains(id),
                forall|j: int| 0 <= j < pos ==> before[p as int].children@[j] != id,
            decreases count - pos,
        {
            proof {
                let j = choose|j: int| 0 <= j < before[p as int].children@.len() && before[p as int].children@[j] == id;
                assert(j > pos);
            }
            pos = pos + 1;
        }
        proof {
            assert(before[p as int].children@.no_duplicates());
            model::lemma_without_at(before[p as int].children@, id, pos as int);
        }
        self.nodes[p].children.remove(pos);
        let n = &self.nodes[at];
        let size: u64 = n.total_size;
        let alloc: u64 = n.total_alloc;
        let is_dir = n.kind == Kind::Dir;
        let files: u32 = if is_dir {
            n.files
        } else {
            1
        };
        let dirs: u32 = if is_dir {
            n.dirs + 1
        } else {
            0
        };
        self.nodes[at].removed = true;
        let ghost cut = self.nodes@;
        proof {
            model::lemma_shape_uprooted(before, cut, id as int);
        }
        self.subtract(parent, size, alloc, files, dirs);
        proof {
            assert forall|k: int| 0 <= k < cut.len() implies model::above(cut, k, parent as int) == model::above(
                before,
                k,
                parent as int,
            ) by {
                model::lemma_above_same_links(before, cut, k, parent as int);
            }
            assert(model::above(before, parent as int, parent as int));
            assert(!model::above(before, id as int, parent as int)) by {
                if model::above(before, id as int, parent as int) {
                    model::lemma_above_bounds(before, id as int, parent as int);
                }
            }
            model::lemma_shape_same_links(cut, self.nodes@);
            model::lemma_levels_same(before, self.nodes@);
        }
        self.stats.files = self.stats.files.saturating_sub(files as u64);
        self.stats.dirs = self.stats.dirs.saturating_sub(dirs as u64);
        self.stats.size = self.stats.size.saturating_sub(size);
        self.stats.alloc = self.stats.alloc.saturating_sub(alloc);
        self.version = self.version + 1;
        proof {
            if old(self).coherent() {
                aggregate::law_removal_is_coherent(before, self.nodes@, id as int);
                aggregate::lemma_removal_is_share(before, id as int);
                model::lemma_root_above(before, id as int);
                aggregate::law_ancestors_cover(before, 0, id as int);
                aggregate::lemma_shares_nonneg(before, before[0].children@);
                aggregate::lemma_root_carries(before, id as int);
            }
        }
        true
    }
}

} // verus!
