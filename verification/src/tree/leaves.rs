//! The flat list of leaf entries that a snapshot keeps.

use vstd::prelude::*;

use crate::order;
use crate::order::Ranking;
use crate::tree::paths;
use crate::tree::visit;
use crate::tree::Kind;
use crate::tree::Tree;
use crate::tree::ROOT;

verus! {

/// A leaf entry of a saved scan.
pub struct SnapEntry {
    /// Path relative to the scan root.
    pub path: String,
    pub kind: Kind,
    pub size: u64,
    pub alloc: u64,
    pub mtime: i64,
}

/// `e` records node `id`.
pub open spec fn records(t: Tree, e: SnapEntry, id: u32) -> bool {
    let n = t.nodes@[id as int];
    &&& e.path@ == paths::path(t.nodes@, id as int)
    &&& e.kind == n.kind
    &&& e.size == n.self_size
    &&& e.alloc == n.self_alloc
    &&& e.mtime == n.mtime
}

pub open spec fn path_bytes(e: SnapEntry) -> Seq<u8> {
    vstd::utf8::encode_utf8(e.path@)
}

pub open spec fn path_order() -> spec_fn(SnapEntry, SnapEntry) -> bool {
    |a: SnapEntry, b: SnapEntry| order::lex_leq(path_bytes(a), path_bytes(b))
}

/// `v` records the nodes `ids`, one for one.
pub open spec fn records_all(t: Tree, v: Seq<SnapEntry>, ids: Seq<u32>) -> bool {
    v.len() == ids.len() && forall|k: int| 0 <= k < v.len() ==> records(t, #[trigger] v[k], ids[k])
}

/// Ranks entries by path.
struct ByPath;

impl Ranking<SnapEntry> for ByPath {
    closed spec fn order(&self) -> spec_fn(SnapEntry, SnapEntry) -> bool {
        path_order()
    }

    closed spec fn covers(&self, x: SnapEntry) -> bool {
        true
    }

    proof fn order_is_total(&self) {
        let leq = path_order();
        assert forall|a: SnapEntry, b: SnapEntry| #[trigger] leq(a, b) || leq(b, a) by {
            order::lemma_lex_total(path_bytes(a), path_bytes(b));
        }
        assert forall|a: SnapEntry, b: SnapEntry, c: SnapEntry| #[trigger] leq(a, b) && #[trigger] leq(b, c) implies leq(a, c) by {
            order::lemma_lex_transitive(path_bytes(a), path_bytes(b), path_bytes(c));
        }
    }

    fn leads(&self, a: &SnapEntry, b: &SnapEntry) -> bool {
        order::bytes_leq(a.path.as_str().as_bytes(), b.path.as_str().as_bytes())
    }
}

impl Tree {
    /// Every leaf entry under the root, sorted by path.
    pub fn sorted_files(&self) -> (r: Vec<SnapEntry>)
        requires
            self.wf(),
        ensures
            vstd::relations::sorted_by(r@, path_order()),
            exists|v: Seq<SnapEntry>| #[trigger]
                v.to_multiset() == r@.to_multiset() && records_all(*self, v, visit::leaves(self.nodes@, ROOT as int)),
            r@.len() == visit::leaves(self.nodes@, ROOT as int).len(),
    {
        let ids = self.files_under(ROOT);
        let mut v: Vec<SnapEntry> = Vec::new();
        let mut k: usize = 0;
        while k < ids.len()
            invariant
                self.wf(),
                k <= ids@.len(),
                forall|j: int| 0 <= j < ids@.len() ==> #[trigger] ids@[j] < self.nodes@.len(),
                v@.len() == k,
                forall|j: int| 0 <= j < k ==> records(*self, #[trigger] v@[j], ids@[j]),
            decreases ids.len() - k,
        {
            let id: u32 = ids[k];
            let n = &self.nodes[id as usize];
            v.push(
                SnapEntry {
                    path: self.rel_path(id),
                    kind: n.kind,
                    size: n.self_size,
                    alloc: n.self_alloc,
                    mtime: n.mtime,
                },
            );
            k = k + 1;
        }
        let ghost all = v@;
        assert(records_all(*self, all, ids@));
        order::rank(&ByPath, v)
    }
}

} // verus!
