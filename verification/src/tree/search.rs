//! Looking for entries by name, extension, size and age.

pub mod laws;

use vstd::prelude::*;

use crate::text;
use crate::tree::listing;
use crate::tree::listing::SortKey;
use crate::tree::model;
use crate::tree::paths;
use crate::tree::visit;
use crate::tree::Kind;
use crate::tree::Node;
use crate::tree::Tree;

verus! {

/// Filter for [`Tree::search`]. An empty query or extension list and the
/// extreme size bounds mean "no restriction".
pub struct SearchFilter<'a> {
    /// Lowercased substring the name must contain.
    pub query: &'a str,
    /// Lowercased extensions a file must have; empty means any.
    pub exts: &'a [String],
    pub min: u64,
    pub max: u64,
    /// Only entries modified at or before this unix time.
    pub max_mtime: Option<i64>,
}

/// What a filter asks for.
pub struct Wanted {
    pub query: Seq<char>,
    pub exts: Seq<Seq<char>>,
    pub min: u64,
    pub max: u64,
    pub max_mtime: Option<i64>,
}

pub struct SearchHit {
    pub id: u32,
    pub parent: u32,
    pub name: String,
    pub kind: Kind,
    pub path: String,
    pub size: u64,
    pub alloc: u64,
    pub mtime: i64,
    pub ext: Option<String>,
}

/// An ASCII letter in lower case; any other byte as it is.
pub open spec fn fold(b: u8) -> u8 {
    if 65 <= b <= 90 {
        (b + 32) as u8
    } else {
        b
    }
}

/// `ned` stands at `o` in `hay`, whatever the case of the letters.
pub open spec fn folds_at(hay: Seq<u8>, ned: Seq<u8>, o: int) -> bool {
    &&& 0 <= o
    &&& o + ned.len() <= hay.len()
    &&& forall|j: int| 0 <= j < ned.len() ==> fold(#[trigger] ned[j]) == fold(hay[o + j])
}

/// `ned` stands somewhere in `hay`, whatever the case of the letters.
pub open spec fn folds_in(hay: Seq<u8>, ned: Seq<u8>) -> bool {
    exists|o: int| #[trigger] folds_at(hay, ned, o)
}

fn folded(b: u8) -> (r: u8)
    ensures
        r == fold(b),
{
    if 65 <= b && b <= 90 {
        b + 32
    } else {
        b
    }
}

/// ASCII case-insensitive `contains`, avoiding an allocation per entry.
pub fn contains_fold(haystack: &str, needle: &str) -> (r: bool)
    ensures
        r == folds_in(vstd::utf8::encode_utf8(haystack@), vstd::utf8::encode_utf8(needle@)),
{
    let hay = haystack.as_bytes();
    let ned = needle.as_bytes();
    let n: usize = ned.len();
    let h: usize = hay.len();
    if n > h {
        return false;
    }
    let mut o: usize = 0;
    while o <= h - n
        invariant
            hay@ == vstd::utf8::encode_utf8(haystack@),
            ned@ == vstd::utf8::encode_utf8(needle@),
            n == ned@.len(),
            h == hay@.len(),
            n <= h,
            o <= h - n + 1,
            forall|p: int| 0 <= p < o ==> !folds_at(hay@, ned@, p),
        decreases h - n + 1 - o,
    {
        let mut j: usize = 0;
        while j < n && folded(ned[j]) == folded(hay[o + j])
            invariant
                n == ned@.len(),
                h == hay@.len(),
                o + n <= h,
                j <= n,
                forall|k: int| 0 <= k < j ==> fold(#[trigger] ned@[k]) == fold(hay@[o + k]),
            decreases n - j,
        {
            j = j + 1;
        }
        if j == n {
            assert(folds_at(hay@, ned@, o as int));
            return true;
        }
        assert(!folds_at(hay@, ned@, o as int)) by {
            assert(fold(ned@[j as int]) != fold(hay@[o + j]));
        }
        if o == h - n {
            assert forall|p: int| !folds_at(hay@, ned@, p) by {}
            return false;
        }
        o = o + 1;
    }
    false
}

/// The extension of a node, empty if it has none.
pub open spec fn ext_or_empty(t: Tree, n: Node) -> Seq<char> {
    match paths::ext_text(t.exts@, n.ext) {
        Some(x) => x,
        None => Seq::empty(),
    }
}

/// `n` passes the filter `f`.
pub open spec fn passes(t: Tree, f: Wanted, n: Node, by_alloc: bool) -> bool {
    &&& folds_in(vstd::utf8::encode_utf8(n.name@), vstd::utf8::encode_utf8(f.query))
    &&& f.exts.len() == 0 || f.exts.contains(ext_or_empty(t, n))
    &&& f.min <= listing::metric(n, by_alloc) <= f.max
    &&& match f.max_mtime {
        Some(m) => n.mtime <= m,
        None => true,
    }
}

pub open spec fn passing(t: Tree, f: Wanted, by_alloc: bool) -> spec_fn(u32) -> bool {
    |i: u32| passes(t, f, t.nodes@[i as int], by_alloc)
}

impl<'a> SearchFilter<'a> {
    pub open spec fn wanted(self) -> Wanted {
        Wanted {
            query: self.query@,
            exts: model::names_of(self.exts@),
            min: self.min,
            max: self.max,
            max_mtime: self.max_mtime,
        }
    }

    pub fn matches(&self, tree: &Tree, n: &Node, by_alloc: bool) -> (r: bool)
        ensures
            r == passes(*tree, self.wanted(), *n, by_alloc),
            r <==> {
                &&& folds_in(vstd::utf8::encode_utf8(n.name@), vstd::utf8::encode_utf8(self.query@))
                &&& self.exts@.len() > 0 ==> exists|j: int|
                    0 <= j < self.exts@.len() && (#[trigger] self.exts@[j])@ == ext_or_empty(*tree, *n)
                &&& by_alloc ==> self.min <= n.total_alloc <= self.max
                &&& !by_alloc ==> self.min <= n.total_size <= self.max
                &&& self.max_mtime is Some ==> n.mtime <= self.max_mtime->0
            },
    {
        proof {
            let x = ext_or_empty(*tree, *n);
            let names = model::names_of(self.exts@);
            assert forall|j: int| 0 <= j < self.exts@.len() && (#[trigger] self.exts@[j])@ == x implies names.contains(x) by {
                assert(names[j] == x);
            }
            if names.contains(x) {
                let j = names.index_of(x);
                assert(self.exts@[j]@ == x);
            }
        }
        if !contains_fold(n.name.as_str(), self.query) {
            return false;
        }
        if self.exts.len() > 0 {
            proof {
                reveal_strlit("");
                assert(""@ =~= Seq::<char>::empty());
            }
            let ext = match tree.ext_name(n.ext) {
                Some(x) => x,
                None => "",
            };
            let mut found = false;
            let mut k: usize = 0;
            while k < self.exts.len() && !found
                invariant
                    k <= self.exts@.len(),
                    found ==> model::names_of(self.exts@).contains(ext@),
                    !found ==> forall|j: int| 0 <= j < k ==> (#[trigger] self.exts@[j])@ != ext@,
                decreases self.exts.len() - k + (if found {
                    0int
                } else {
                    1int
                }),
            {
                if text::same_text(self.exts[k].as_str(), ext) {
                    assert(model::names_of(self.exts@)[k as int] == ext@);
                    found = true;
                } else {
                    k = k + 1;
                }
            }
            if !found {
                proof {
                    let names = model::names_of(self.exts@);
                    if names.contains(ext@) {
                        let j = names.index_of(ext@);
                        assert(self.exts@[j]@ == ext@);
                    }
                }
                return false;
            }
        }
        let size: u64 = n.metric(by_alloc);
        if size < self.min || size > self.max {
            return false;
        }
        if let Some(t) = self.max_mtime {
            if n.mtime > t {
                return false;
            }
        }
        true
    }
}

/// `h` shows node `id`.
pub open spec fn hits(t: Tree, h: SearchHit, id: u32) -> bool {
    let n = t.nodes@[id as int];
    &&& h.id == id
    &&& h.parent == n.parent
    &&& h.name == n.name
    &&& h.kind == n.kind
    &&& h.path@ == paths::path(t.nodes@, id as int)
    &&& h.size == n.total_size
    &&& h.alloc == n.total_alloc
    &&& h.mtime == n.mtime
    &&& paths::says(h.ext, paths::ext_text(t.exts@, n.ext))
}

/// Everything below `id`, in visiting order.
pub open spec fn below(nodes: Seq<Node>, id: u32) -> Seq<u32> {
    visit::visits_of(nodes, id as int, nodes[id as int].children@)
}

/// The first entries below `id` that pass the filter: `cap` of them, or one.
pub open spec fn found(t: Tree, id: u32, f: Wanted, by_alloc: bool, cap: usize) -> Seq<u32> {
    let all = below(t.nodes@, id).filter(passing(t, f, by_alloc));
    all.take(listing::cut(all.len(), if cap == 0 {
        1
    } else {
        cap
    }))
}

/// `r` shows the `limit` largest of the entries found below `id`.
pub open spec fn hits_of(t: Tree, id: u32, f: Wanted, by_alloc: bool, limit: usize, cap: usize, r: Seq<SearchHit>) -> bool {
    let ids = found(t, id, f, by_alloc, cap).sort_by(listing::list_order(t.nodes@, by_alloc, SortKey::Size, false));
    &&& r.len() == listing::cut(ids.len(), limit)
    &&& forall|k: int| 0 <= k < r.len() ==> hits(t, #[trigger] r[k], ids[k])
}

impl Tree {
    fn hit(&self, id: u32) -> (h: SearchHit)
        requires
            self.wf(),
            self.holds(id),
        ensures
            hits(*self, h, id),
    {
        let n = &self.nodes[id as usize];
        SearchHit {
            id,
            parent: n.parent,
            name: n.name.clone(),
            kind: n.kind,
            path: self.rel_path(id),
            size: n.total_size,
            alloc: n.total_alloc,
            mtime: n.mtime,
            ext: self.ext_owned(n.ext),
        }
    }

    /// The first `cap` entries below `id` that pass the filter.
    fn find(&self, id: u32, filter: &SearchFilter<'_>, by_alloc: bool, cap: usize) -> (ids: Vec<u32>)
        requires
            self.wf(),
            self.holds(id),
        ensures
            ids@ == found(*self, id, filter.wanted(), by_alloc, cap),
            forall|k: int| 0 <= k < ids@.len() ==> #[trigger] ids@[k] < self.nodes@.len(),
    {
        let ghost all = below(self.nodes@, id);
        let ghost keep = passing(*self, filter.wanted(), by_alloc);
        let ghost most: usize = if cap == 0 {
            1
        } else {
            cap
        };
        let mut ids: Vec<u32> = Vec::new();
        let mut stack = listing::copied_ids(&self.nodes[id as usize].children);
        let ghost mut seen: Seq<u32> = Seq::empty();
        proof {
            let kids = self.nodes@[id as int].children@;
            assert forall|k: int| 0 <= k < kids.len() implies id < #[trigger] kids[k] < self.nodes@.len() by {
                assert(model::listed(self.nodes@, id as int, self.nodes@[id as int].children@[k]));
            }
            visit::lemma_visits_of_any(self.nodes@, id as int, -1, kids);
            assert(seen + visit::pending(self.nodes@, stack@) =~= all);
            reveal(Seq::filter);
        }
        while stack.len() > 0
            invariant
                self.wf(),
                keep == passing(*self, filter.wanted(), by_alloc),
                all == below(self.nodes@, id),
                most == (if cap == 0 {
                    1
                } else {
                    cap
                }),
                seen + visit::pending(self.nodes@, stack@) == all,
                ids@ == seen.filter(keep),
                ids@.len() < most,
                forall|k: int| 0 <= k < stack@.len() ==> #[trigger] stack@[k] < self.nodes@.len(),
                forall|k: int| 0 <= k < ids@.len() ==> #[trigger] ids@[k] < self.nodes@.len(),
            decreases visit::pending(self.nodes@, stack@).len(),
        {
            let ghost before = stack@;
            let cur: u32 = stack[stack.len() - 1];
            stack.pop();
            let n = &self.nodes[cur as usize];
            proof {
                visit::lemma_pending_step(self.nodes@, before);
                assert forall|k: int| 0 <= k < n.children@.len() implies #[trigger] n.children@[k] < self.nodes@.len() by {
                    assert(model::listed(self.nodes@, cur as int, self.nodes@[cur as int].children@[k]));
                }
            }
            visit::open(&mut stack, n);
            proof {
                reveal(Seq::filter);
                assert(seen.push(cur).drop_last() =~= seen);
                assert(seen + visit::pending(self.nodes@, before) =~= seen.push(cur) + visit::pending(self.nodes@, stack@));
                seen = seen.push(cur);
            }
            if filter.matches(self, n, by_alloc) {
                ids.push(cur);
                if ids.len() >= cap {
                    proof {
                        let rest = visit::pending(self.nodes@, stack@);
                        Seq::filter_distributes_over_add(seen, rest, keep);
                        assert(all.filter(keep).take(ids@.len() as int) =~= ids@);
                    }
                    return ids;
                }
            }
        }
        proof {
            assert(seen =~= all);
            assert(ids@.take(ids@.len() as int) =~= ids@);
        }
        ids
    }

    /// Entries anywhere under `id` that match `filter`, biggest first. Matching
    /// nodes are collected up to `cap` before sorting, which keeps a query that
    /// matches half the tree from growing without bound.
    pub fn search(&self, id: u32, filter: &SearchFilter<'_>, by_alloc: bool, limit: usize, cap: usize) -> (r: Vec<SearchHit>)
        requires
            self.wf(),
        ensures
            !self.reaches(id) ==> r@.len() == 0,
            self.reaches(id) ==> hits_of(*self, id, filter.wanted(), by_alloc, limit, cap, r@),
    {
        let mut out: Vec<SearchHit> = Vec::new();
        if self.get(id).is_none() {
            return out;
        }
        let ids = self.find(id, filter, by_alloc, cap);
        let ids = self.ranked(ids, by_alloc, SortKey::Size, false);
        let mut k: usize = 0;
        while k < ids.len() && k < limit
            invariant
                self.wf(),
                k <= ids@.len(),
                k <= limit,
                out@.len() == k,
                forall|j: int| 0 <= j < ids@.len() ==> #[trigger] ids@[j] < self.nodes@.len(),
                forall|j: int| 0 <= j < k ==> hits(*self, #[trigger] out@[j], ids@[j]),
            decreases ids.len() - k,
        {
            out.push(self.hit(ids[k]));
            k = k + 1;
        }
        out
    }
}

/// A search gives only entries below `id` that pass the filter, biggest first,
/// and no more than `limit`.
pub proof fn law_hits_pass_the_filter(
    t: Tree,
    id: u32,
    f: Wanted,
    by_alloc: bool,
    limit: usize,
    cap: usize,
    r: Seq<SearchHit>,
)
    requires
        t.wf(),
        t.reaches(id),
        hits_of(t, id, f, by_alloc, limit, cap, r),
    ensures
        r.len() <= limit,
        r.len() <= (if cap == 0 {
            1
        } else {
            cap
        }),
        forall|k: int|
            0 <= k < r.len() ==> t.holds((#[trigger] r[k]).id) && id < r[k].id && below(t.nodes@, id).contains(r[k].id) && passes(
                t,
                f,
                t.nodes@[r[k].id as int],
                by_alloc,
            ),
        forall|i: int, j: int|
            0 <= i < j < r.len() ==> listing::metric(t.nodes@[(#[trigger] r[i]).id as int], by_alloc) >= listing::metric(
                t.nodes@[(#[trigger] r[j]).id as int],
                by_alloc,
            ),
{
    let keep = passing(t, f, by_alloc);
    let leq = listing::list_order(t.nodes@, by_alloc, SortKey::Size, false);
    let all = below(t.nodes@, id);
    let base = found(t, id, f, by_alloc, cap);
    let ids = base.sort_by(leq);
    listing::lemma_list_order(t.nodes@, by_alloc, SortKey::Size, false);
    base.lemma_sort_by_ensures(leq);
    crate::order::lemma_same_items(base, ids);
    assert forall|k: int| 0 <= k < r.len() implies t.holds((#[trigger] r[k]).id) && id < r[k].id && all.contains(r[k].id) && passes(
        t,
        f,
        t.nodes@[r[k].id as int],
        by_alloc,
    ) by {
        assert(hits(t, r[k], ids[k]));
        assert(base.contains(ids[k]));
        let j = base.index_of(ids[k]);
        assert(all.filter(keep)[j] == ids[k]);
        all.lemma_filter_pred(keep, j);
        assert(all.filter(keep).contains(ids[k]));
        all.lemma_filter_contains_rev(keep, ids[k]);
        let x = all.index_of(ids[k]);
        visit::lemma_visits_of_in_range(t.nodes@, id as int, t.nodes@[id as int].children@, x);
    }
    assert forall|i: int, j: int| 0 <= i < j < r.len() implies listing::metric(t.nodes@[(#[trigger] r[i]).id as int], by_alloc)
        >= listing::metric(t.nodes@[(#[trigger] r[j]).id as int], by_alloc) by {
        assert(hits(t, r[i], ids[i]) && hits(t, r[j], ids[j]));
        assert(leq(ids[i], ids[j]));
    }
}

} // verus!
