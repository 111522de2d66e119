//! The answers, as plain values.

use vstd::prelude::*;

use crate::dupes;
use crate::dupes::DupeGroup;
use crate::dupes::DupeProgress;
use crate::dupes::Dupes;
use crate::dupes::Phase;
use crate::server::query;
use crate::server::query::Metric;
use crate::server::query::SearchParams;
use crate::server::query::Sort;
use crate::text;
use crate::tree::extensions;
use crate::tree::extensions::ExtStat;
use crate::tree::filtered;
use crate::tree::largest;
use crate::tree::largest::LargeFile;
use crate::tree::listing;
use crate::tree::listing::ChildrenView;
use crate::tree::listing::Rollup;
use crate::tree::listing::SortKey;
use crate::tree::model;
use crate::tree::paths;
use crate::tree::paths::Crumb;
use crate::tree::paths::Entry;
use crate::tree::search;
use crate::tree::search::SearchHit;
use crate::tree::slice;
use crate::tree::slice::SubtreeNode;
use crate::tree::visit;
use crate::tree::Stats;
use crate::tree::Tree;

verus! {

/// Upper bound on the rectangles a single treemap request may produce.
pub const TREEMAP_BUDGET: usize = 4000;

/// How many matches a search collects before it sorts them.
pub const SEARCH_CAP: usize = 20_000;

pub struct Progress {
    pub version: u64,
    pub scanning: bool,
    pub cancelled: bool,
    pub elapsed_ms: u64,
    pub current: String,
    pub stats: Stats,
    pub root_size: u64,
    pub root_alloc: u64,
    pub dupes: DupeProgress,
}

/// How far scan and duplicate search have come.
pub open spec fn progress_at(t: Tree, done: bool, cancelled: bool, elapsed_ms: u64, found: DupeProgress) -> Progress {
    Progress {
        version: t.version,
        scanning: !done,
        cancelled,
        elapsed_ms,
        current: t.current,
        stats: t.stats,
        root_size: t.nodes@[0].total_size,
        root_alloc: t.nodes@[0].total_alloc,
        dupes: found,
    }
}

/// What was found belongs to this folder.
pub open spec fn belongs(p: DupeProgress, id: u32) -> bool {
    p.scope == id && p.phase != Phase::Idle
}

/// How far scan and duplicate search have come.
pub fn progress_of(tree: &Tree, done: bool, cancelled: bool, elapsed_ms: u64, found: &Dupes) -> (p: Progress)
    requires
        tree.wf(),
    ensures
        p == progress_at(*tree, done, cancelled, elapsed_ms, found.progress),
        p == (Progress {
            version: tree.version,
            scanning: !done,
            cancelled,
            elapsed_ms,
            current: tree.current,
            stats: tree.stats,
            root_size: tree.nodes@[0].total_size,
            root_alloc: tree.nodes@[0].total_alloc,
            dupes: found.progress,
        }),
{
    let root = &tree.nodes[0];
    Progress {
        version: tree.version,
        scanning: !done,
        cancelled,
        elapsed_ms,
        current: tree.current.clone(),
        stats: tree.stats,
        root_size: root.total_size,
        root_alloc: root.total_alloc,
        dupes: found.progress(),
    }
}

/// The name of a progress event.
pub fn event_name(scanning: bool) -> (r: &'static str)
    ensures
        r@ == (if scanning {
            "progress"@
        } else {
            "done"@
        }),
{
    if scanning {
        "progress"
    } else {
        "done"
    }
}

pub struct NodeResponse {
    pub id: u32,
    pub name: String,
    pub path: String,
    pub breadcrumb: Vec<Crumb>,
    pub size: u64,
    pub alloc: u64,
    pub files: u32,
    pub dirs: u32,
    pub mtime: i64,
    pub read: bool,
    pub children: Vec<Entry>,
    pub other: Rollup,
    pub version: u64,
    pub scanning: bool,
}

/// The answer describes node `id`, with its children in listing order.
pub open spec fn describes(t: Tree, r: NodeResponse, id: u32, by_alloc: bool, key: SortKey, asc: bool, limit: usize) -> bool {
    let n = t.nodes@[id as int];
    &&& r.id == id
    &&& r.name == n.name
    &&& r.path@ == paths::path(t.nodes@, id as int)
    &&& r.breadcrumb@.len() == paths::trail(t.nodes@, id as int).len()
    &&& forall|k: int|
        0 <= k < r.breadcrumb@.len() ==> (#[trigger] r.breadcrumb@[k]).id == paths::trail(t.nodes@, id as int)[k]
            && r.breadcrumb@[k].name == t.nodes@[r.breadcrumb@[k].id as int].name
    &&& r.size == n.total_size
    &&& r.alloc == n.total_alloc
    &&& r.files == n.files
    &&& r.dirs == n.dirs
    &&& r.mtime == n.mtime
    &&& r.read == n.read
    &&& r.version == t.version
    &&& listing::lists(
        t,
        (ChildrenView { children: r.children, other: r.other }),
        listing::ranked_children(t.nodes@, id as int, by_alloc, key, asc),
        limit,
    )
}

/// One directory and its children.
pub fn node(tree: &Tree, id: u32, metric: Metric, sort: Sort, asc: bool, limit: Option<usize>, done: bool) -> (r: Option<
    NodeResponse,
>)
    requires
        tree.wf(),
        tree.coherent(),
    ensures
        match r {
            Some(x) => tree.reaches(id) && x.scanning == !done && describes(
                *tree,
                x,
                id,
                metric == Metric::Alloc,
                query::key_of(sort),
                asc,
                query::entry_limit(limit),
            ),
            None => !tree.reaches(id),
        },
{
    let n = match tree.get(id) {
        Some(n) => n,
        None => {
            return None;
        },
    };
    proof {
        listing::law_coherent_sums_fit(*tree, id);
    }
    let view = match tree.children_sorted(id, metric.by_alloc(), sort.key(), asc, query::clamp_limit(limit)) {
        Some(v) => v,
        None => {
            return None;
        },
    };
    Some(
        NodeResponse {
            id,
            name: n.name.clone(),
            path: tree.rel_path(id),
            breadcrumb: tree.breadcrumb(id),
            size: n.total_size,
            alloc: n.total_alloc,
            files: n.files,
            dirs: n.dirs,
            mtime: n.mtime,
            read: n.read,
            children: view.children,
            other: view.other,
            version: tree.version,
            scanning: !done,
        },
    )
}

pub struct TreeResponse {
    pub root: SubtreeNode,
    pub version: u64,
    pub truncated: bool,
}

/// What the nodes of a treemap weigh: what matches, if there is a filter.
pub open spec fn treemap_weights(t: Tree, p: SearchParams, now: u64) -> Seq<(u64, u64)> {
    if p.q is Some || p.ext is Some || p.min is Some || p.max is Some || p.age is Some {
        filtered::matched(t, query::wanted_by(p, now), p.metric == Metric::Alloc)
    } else {
        slice::totals(t.nodes@)
    }
}

/// How many levels a treemap shows.
pub open spec fn treemap_depth(p: SearchParams) -> nat {
    match p.depth {
        Some(d) => if d < 1 {
            1
        } else if d > 8 {
            8
        } else {
            d as nat
        },
        None => 3,
    }
}

/// A nested slice for the treemap, at the time `now`.
pub fn treemap(tree: &Tree, id: u32, p: &SearchParams, now: u64) -> (r: Option<TreeResponse>)
    requires
        tree.wf(),
        tree.coherent(),
    ensures
        match r {
            Some(x) => tree.reaches(id) && {
                let w = treemap_weights(*tree, *p, now);
                let s = slice::slice(
                    tree.nodes@,
                    w,
                    id,
                    p.metric == Metric::Alloc,
                    treemap_depth(*p),
                    query::rectangle_limit(p.limit),
                    TREEMAP_BUDGET as nat,
                );
                &&& slice::pictures(tree.nodes@, w, x.root, s.0)
                &&& x.truncated == (s.1 == 0)
                &&& x.version == tree.version
            },
            None => !tree.reaches(id),
        },
{
    let depth: u16 = query::clamp_depth(p.depth);
    let limit: usize = query::bound(p.limit, 60, 1, 500);
    let mut budget: usize = TREEMAP_BUDGET;
    let by_alloc = p.metric.by_alloc();
    let root = if p.has_filter() {
        let prepared = p.with_filter(now);
        tree.filtered_subtree(id, &prepared.filter(), by_alloc, depth, limit, &mut budget)
    } else {
        tree.subtree(id, by_alloc, depth, limit, &mut budget)
    };
    match root {
        Some(root) => Some(TreeResponse { root, version: tree.version, truncated: budget == 0 }),
        None => None,
    }
}

pub struct TypesResponse {
    pub types: Vec<ExtStat>,
    pub version: u64,
}

/// The files below a node, by extension.
pub fn types(tree: &Tree, id: u32) -> (r: Option<TypesResponse>)
    requires
        tree.wf(),
        tree.coherent(),
    ensures
        match r {
            Some(x) => tree.reaches(id) && x.version == tree.version && {
                let files = visit::leaves(tree.nodes@, id as int);
                let slots = extensions::ranked_slots(*tree, files);
                &&& x.types@.len() == slots.len()
                &&& forall|k: int|
                    0 <= k < x.types@.len() ==> extensions::sums_up(*tree, files, #[trigger] x.types@[k], slots[k] as int)
            },
            None => !tree.reaches(id),
        },
{
    if tree.get(id).is_none() {
        return None;
    }
    proof {
        extensions::law_coherent_own_sizes_fit(*tree, id);
    }
    Some(TypesResponse { types: tree.by_extension(id), version: tree.version })
}

pub struct LargestResponse {
    pub files: Vec<LargeFile>,
    pub version: u64,
}

/// The largest files below a node.
pub fn largest(tree: &Tree, id: u32, metric: Metric, limit: Option<usize>) -> (r: Option<LargestResponse>)
    requires
        tree.wf(),
    ensures
        match r {
            Some(x) => tree.reaches(id) && x.version == tree.version && {
                &&& largest::largest_of(
                    tree.nodes@,
                    metric == Metric::Alloc,
                    largest::files_below(tree.nodes@, id),
                    query::file_limit(limit),
                    x.files@.map_values(|f: LargeFile| f.id),
                )
                &&& forall|k: int|
                    0 <= k < x.files@.len() ==> largest::reports(
                        *tree,
                        #[trigger] x.files@[k],
                        x.files@[k].id,
                        metric == Metric::Alloc,
                    )
            },
            None => !tree.reaches(id),
        },
{
    if tree.get(id).is_none() {
        return None;
    }
    let limit: usize = query::bound(limit, 100, 1, 1000);
    Some(LargestResponse { files: tree.largest_files(id, metric.by_alloc(), limit), version: tree.version })
}

pub struct SearchResponse {
    pub hits: Vec<SearchHit>,
    pub version: u64,
    pub truncated: bool,
}

/// The ids of what a search finds, in order.
pub open spec fn found_by(t: Tree, id: u32, p: SearchParams, now: u64) -> Seq<u32> {
    let by_alloc = p.metric == Metric::Alloc;
    search::found(t, id, query::wanted_by(p, now), by_alloc, SEARCH_CAP).sort_by(
        listing::list_order(t.nodes@, by_alloc, SortKey::Size, false),
    )
}

/// Entries matching a filter anywhere under `id`, at the time `now`. The list
/// panel uses this while a filter is active, so a search reaches the whole
/// subtree rather than just the folder in view.
pub fn search(tree: &Tree, id: u32, p: &SearchParams, now: u64) -> (r: Option<SearchResponse>)
    requires
        tree.wf(),
    ensures
        match r {
            Some(x) => tree.reaches(id) && x.version == tree.version && {
                let ids = found_by(*tree, id, *p, now);
                let limit = query::hit_limit(p.limit);
                &&& x.hits@.len() == listing::cut(ids.len(), limit)
                &&& x.truncated == (ids.len() > limit)
                &&& forall|k: int| 0 <= k < x.hits@.len() ==> search::hits(*tree, #[trigger] x.hits@[k], ids[k])
            },
            None => !tree.reaches(id),
        },
{
    if tree.get(id).is_none() {
        return None;
    }
    let limit: usize = query::bound(p.limit, 500, 1, query::MAX_LIMIT);
    let prepared = p.with_filter(now);
    let mut hits = tree.search(id, &prepared.filter(), p.metric.by_alloc(), limit + 1, SEARCH_CAP);
    let truncated = hits.len() > limit;
    hits.truncate(limit);
    Some(SearchResponse { hits, version: tree.version, truncated })
}

/// The parts of the path from the scan root to a node.
pub open spec fn parts_of(t: Tree, id: u32) -> Seq<Seq<char>> {
    text::pieces(paths::path(t.nodes@, id as int), '/').filter(query::not_empty())
}

/// The parts of the path that leads to a node from the scan root. Removed
/// entries and descendants of removed directories have none.
pub fn path_parts(tree: &Tree, id: u32) -> (r: Option<Vec<String>>)
    requires
        tree.wf(),
    ensures
        match r {
            Some(v) => tree.reaches(id) && model::names_of(v@) == parts_of(*tree, id),
            None => !tree.reaches(id),
        },
{
    if tree.get(id).is_none() {
        return None;
    }
    let path = tree.rel_path(id);
    let cs = text::chars_of(path.as_str());
    Some(non_empty_parts(&cs))
}

/// The parts between slashes that are not empty.
pub fn non_empty_parts(cs: &Vec<char>) -> (out: Vec<String>)
    ensures
        model::names_of(out@) == text::pieces(cs@, '/').filter(query::not_empty()),
{
    let parts = text::split(cs, '/');
    let ghost all = text::pieces(cs@, '/');
    let mut out: Vec<String> = Vec::new();
    let mut i: usize = 0;
    proof {
        reveal(Seq::filter);
        assert(model::names_of(out@) =~= all.take(0).filter(query::not_empty()));
    }
    while i < parts.len()
        invariant
            i <= parts@.len(),
            text::texts(parts@) == all,
            model::names_of(out@) == all.take(i as int).filter(query::not_empty()),
        decreases parts.len() - i,
    {
        let ghost o0 = out@;
        let p = &parts[i];
        proof {
            reveal(Seq::filter);
            assert(text::texts(parts@)[i as int] == p@);
            assert(all.take(i + 1).drop_last() =~= all.take(i as int));
            assert(p@.subrange(0, p@.len() as int) =~= p@);
        }
        if p.len() > 0 {
            let x = text::string_of(p, 0, p.len());
            let ghost xv = x@;
            out.push(x);
            assert(model::names_of(out@) =~= model::names_of(o0).push(xv));
        }
        i = i + 1;
    }
    assert(all.take(i as int) =~= all);
    out
}

pub struct DupesResponse {
    pub progress: DupeProgress,
    pub groups: Vec<DupeGroup>,
    pub total_groups: usize,
    pub truncated: bool,
}

/// Whatever the duplicate scanner has produced so far for a folder. The results
/// belong to whatever scope produced them: asking for another folder must not
/// surface the previous folder's groups.
pub fn duplicates(tree: &Tree, found: &Dupes, id: u32, limit: Option<usize>) -> (r: Option<DupesResponse>)
    requires
        tree.wf(),
    ensures
        match r {
            Some(x) => tree.reaches(id) && {
                let all = if belongs(found.progress, id) {
                    dupes::all_copies(found.groups@)
                } else {
                    Seq::empty()
                };
                let most = query::group_limit(limit);
                &&& x.progress == found.progress
                &&& dupes::all_copies(x.groups@) == all.take(listing::cut(all.len(), most))
                &&& forall|k: int| 0 <= k < x.groups@.len() ==> (#[trigger] x.groups@[k]).wasted == found.groups@[k].wasted
                &&& x.total_groups == all.len()
                &&& x.truncated == (all.len() > most)
            },
            None => !tree.reaches(id),
        },
{
    if tree.get(id).is_none() {
        return None;
    }
    let limit: usize = query::bound(limit, 200, 1, 5000);
    let progress = found.progress();
    let mut groups: Vec<DupeGroup> = Vec::new();
    let mut total_groups: usize = 0;
    proof {
        assert(dupes::all_copies(groups@) =~= Seq::<dupes::Copies>::empty().take(0));
    }
    if progress.scope == id && progress.phase != Phase::Idle {
        groups = found.groups();
        total_groups = groups.len();
        let ghost all = dupes::all_copies(found.groups@);
        assert(dupes::all_copies(groups@) =~= all);
        groups.truncate(limit);
        assert(dupes::all_copies(groups@) =~= all.take(listing::cut(all.len(), limit)));
    }
    Some(DupesResponse { progress, groups, total_groups, truncated: total_groups > limit })
}

} // verus!
