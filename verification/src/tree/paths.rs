//! Where a node stands: its path, its trail of ancestors, its extension.

use vstd::prelude::*;

use crate::tree::model;
use crate::tree::Kind;
use crate::tree::Node;
use crate::tree::Tree;
use crate::tree::NO_EXT;
use crate::tree::ROOT;

verus! {

pub struct Crumb {
    pub id: u32,
    pub name: String,
}

pub struct Entry {
    pub id: u32,
    pub name: String,
    pub kind: Kind,
    pub size: u64,
    pub alloc: u64,
    pub files: u32,
    pub dirs: u32,
    pub mtime: i64,
    pub read: bool,
    pub err: bool,
    pub cloud: bool,
    pub ext: Option<String>,
}

/// The ids from the root down to `i`.
pub open spec fn trail(nodes: Seq<Node>, i: int) -> Seq<u32>
    decreases i,
{
    if i <= 0 || nodes[i].parent >= i {
        seq![ROOT]
    } else {
        trail(nodes, nodes[i].parent as int).push(i as u32)
    }
}

/// The names from below the root down to `i`, joined by slashes.
pub open spec fn path(nodes: Seq<Node>, i: int) -> Seq<char>
    decreases i,
{
    if i <= 0 || nodes[i].parent >= i {
        Seq::empty()
    } else if nodes[i].parent == ROOT {
        nodes[i].name@
    } else {
        path(nodes, nodes[i].parent as int).push('/') + nodes[i].name@
    }
}

/// The extension with the id `ext`.
pub open spec fn ext_text(exts: Seq<String>, ext: u32) -> Option<Seq<char>> {
    if ext != NO_EXT && ext < exts.len() {
        Some(exts[ext as int]@)
    } else {
        None
    }
}

/// `x` holds the text `t`, or both hold nothing.
pub open spec fn says(x: Option<String>, t: Option<Seq<char>>) -> bool {
    match x {
        Some(s) => t == Some(s@),
        None => t is None,
    }
}

/// `e` shows the node `id` of `t`.
pub open spec fn shows(t: Tree, e: Entry, id: u32) -> bool {
    let n = t.nodes@[id as int];
    &&& e.id == id
    &&& e.name == n.name
    &&& e.kind == n.kind
    &&& e.size == n.total_size
    &&& e.alloc == n.total_alloc
    &&& e.files == n.files
    &&& e.dirs == n.dirs
    &&& e.mtime == n.mtime
    &&& e.read == n.read
    &&& e.err == n.err
    &&& e.cloud == n.cloud
    &&& says(e.ext, ext_text(t.exts@, n.ext))
}

impl Tree {
    /// `id`, its parent, and so on up to the root.
    fn ascent(&self, id: u32) -> (chain: Vec<u32>)
        requires
            model::shape(self.nodes@),
            self.holds(id),
        ensures
            chain@.reverse() == trail(self.nodes@, id as int),
            chain@.len() >= 1,
            chain@[0] == id,
            chain@.last() == ROOT,
            forall|k: int| 0 <= k < chain@.len() ==> #[trigger] chain@[k] < self.nodes@.len(),
            forall|k: int|
                0 <= k < chain@.len() - 1 ==> (#[trigger] chain@[k]) != ROOT && chain@[k + 1] == self.nodes@[chain@[k] as int].parent,
    {
        let mut chain: Vec<u32> = Vec::new();
        let mut cur: u32 = id;
        assert(trail(self.nodes@, id as int) =~= trail(self.nodes@, cur as int) + chain@.reverse());
        while cur != ROOT
            invariant
                model::shape(self.nodes@),
                cur < self.nodes@.len(),
                trail(self.nodes@, id as int) == trail(self.nodes@, cur as int) + chain@.reverse(),
                chain@.len() == 0 ==> cur == id,
                chain@.len() > 0 ==> chain@[0] == id && cur == self.nodes@[chain@.last() as int].parent,
                forall|k: int| 0 <= k < chain@.len() ==> #[trigger] chain@[k] < self.nodes@.len() && chain@[k] != ROOT,
                forall|k: int|
                    0 <= k < chain@.len() - 1 ==> chain@[k + 1] == self.nodes@[(#[trigger] chain@[k]) as int].parent,
            decreases cur,
        {
            let ghost so_far = chain@;
            chain.push(cur);
            proof {
                assert(self.nodes@[cur as int].parent < cur);
                assert(chain@.reverse() =~= seq![cur] + so_far.reverse());
                assert(trail(self.nodes@, cur as int) + so_far.reverse() =~= trail(
                    self.nodes@,
                    self.nodes@[cur as int].parent as int,
                ) + chain@.reverse());
            }
            cur = self.nodes[cur as usize].parent;
        }
        let ghost so_far = chain@;
        chain.push(ROOT);
        assert(chain@.reverse() =~= seq![ROOT] + so_far.reverse());
        chain
    }

    /// Root -> `id` chain, root included.
    pub fn breadcrumb(&self, id: u32) -> (r: Vec<Crumb>)
        requires
            self.wf(),
            self.holds(id),
        ensures
            r@.len() == trail(self.nodes@, id as int).len(),
            forall|k: int|
                0 <= k < r@.len() ==> (#[trigger] r@[k]).id == trail(self.nodes@, id as int)[k] && r@[k].name
                    == self.nodes@[r@[k].id as int].name,
    {
        let chain = self.ascent(id);
        let mut out: Vec<Crumb> = Vec::new();
        let mut k: usize = chain.len();
        while k > 0
            invariant
                k <= chain@.len(),
                out@.len() + k == chain@.len(),
                forall|j: int| 0 <= j < chain@.len() ==> #[trigger] chain@[j] < self.nodes@.len(),
                forall|j: int|
                    0 <= j < out@.len() ==> (#[trigger] out@[j]).id == chain@[chain@.len() - 1 - j] && out@[j].name
                        == self.nodes@[out@[j].id as int].name,
            decreases k,
        {
            k = k - 1;
            let at: u32 = chain[k];
            out.push(Crumb { id: at, name: self.nodes[at as usize].name.clone() });
        }
        out
    }

    /// Path of `id` relative to the scan root (empty for the root itself).
    pub fn rel_path(&self, id: u32) -> (r: String)
        requires
            self.wf(),
            self.holds(id),
        ensures
            r@ == path(self.nodes@, id as int),
    {
        let chain = self.ascent(id);
        let mut k: usize = chain.len() - 1;
        let mut out = String::new();
        while k > 0
            invariant
                k < chain@.len(),
                model::shape(self.nodes@),
                chain@.last() == ROOT,
                forall|j: int| 0 <= j < chain@.len() ==> #[trigger] chain@[j] < self.nodes@.len(),
                forall|j: int|
                    0 <= j < chain@.len() - 1 ==> (#[trigger] chain@[j]) != ROOT && chain@[j + 1]
                        == self.nodes@[chain@[j] as int].parent,
                out@ == path(self.nodes@, chain@[k as int] as int),
            decreases k,
        {
            let above: u32 = chain[k];
            k = k - 1;
            let at: u32 = chain[k];
            proof {
                assert(chain@[k as int] != ROOT);
                assert(self.nodes@[at as int].parent < at);
                assert(self.nodes@[at as int].parent == above);
            }
            if above != ROOT {
                out.push('/');
            }
            out.append(self.nodes[at as usize].name.as_str());
            assert(out@ =~= path(self.nodes@, at as int));
        }
        out
    }

    pub fn ext_name(&self, ext: u32) -> (r: Option<&str>)
        ensures
            match r {
                Some(s) => ext_text(self.exts@, ext) == Some(s@),
                None => ext_text(self.exts@, ext) is None,
            },
    {
        if ext != NO_EXT && (ext as usize) < self.exts.len() {
            Some(self.exts[ext as usize].as_str())
        } else {
            None
        }
    }

    /// The extension with this id, as a string of its own.
    pub(crate) fn ext_owned(&self, ext: u32) -> (r: Option<String>)
        ensures
            says(r, ext_text(self.exts@, ext)),
    {
        match self.ext_name(ext) {
            Some(s) => Some(s.to_owned()),
            None => None,
        }
    }

    pub fn entry_of(&self, id: u32) -> (e: Entry)
        requires
            self.holds(id),
        ensures
            shows(*self, e, id),
    {
        let n = &self.nodes[id as usize];
        Entry {
            id,
            name: n.name.clone(),
            kind: n.kind,
            size: n.total_size,
            alloc: n.total_alloc,
            files: n.files,
            dirs: n.dirs,
            mtime: n.mtime,
            read: n.read,
            err: n.err,
            cloud: n.cloud,
            ext: self.ext_owned(n.ext),
        }
    }
}

} // verus!
