//! What requests ask for, and what they are answered, in plain terms.

use vstd::prelude::*;

use crate::dupes::DupeProgress;
use crate::dupes::Phase;
use crate::server::answers;
use crate::server::answers::NodeResponse;
use crate::server::guard;
use crate::server::guard::Refusal;
use crate::server::query;
use crate::server::query::Metric;
use crate::server::query::SearchParams;
use crate::server::query::Sort;
use crate::text;
use crate::tree::listing;
use crate::tree::listing::SortKey;
use crate::tree::paths;
use crate::tree::search;
use crate::tree::search::SearchHit;
use crate::tree::Kind;
use crate::tree::Tree;

verus! {

/// A number that was asked for is granted if it is within the bounds, and
/// brought to the nearer bound if it is not; nothing asked for is the default.
pub proof fn law_bounds_are_kept(asked: Option<usize>, default: usize, least: usize, most: usize)
    requires
        least <= most,
    ensures
        least <= query::bounded(asked, default, least, most) <= most,
        asked is Some && least <= asked->0 <= most ==> query::bounded(asked, default, least, most) == asked->0,
        asked is Some && asked->0 < least ==> query::bounded(asked, default, least, most) == least,
        asked is Some && asked->0 > most ==> query::bounded(asked, default, least, most) == most,
        asked is None && least <= default <= most ==> query::bounded(asked, default, least, most) == default,
{
}

/// How much an answer shows if nothing is asked for, and at most: a listing 400
/// entries and 5000, a treemap 60 rectangles side by side and 500, the largest
/// files 100 and 1000, a search 500 hits and 5000, duplicates 200 groups and 5000.
/// What is asked for between one and the most is granted.
pub proof fn law_answers_are_limited(asked: usize)
    ensures
        query::entry_limit(None) == 400,
        query::rectangle_limit(None) == 60,
        query::file_limit(None) == 100,
        query::hit_limit(None) == 500,
        query::group_limit(None) == 200,
        1 <= asked <= 5000 ==> query::entry_limit(Some(asked)) == asked && query::hit_limit(Some(asked)) == asked
            && query::group_limit(Some(asked)) == asked,
        1 <= asked <= 500 ==> query::rectangle_limit(Some(asked)) == asked,
        1 <= asked <= 1000 ==> query::file_limit(Some(asked)) == asked,
        asked > 5000 ==> query::entry_limit(Some(asked)) == 5000 && query::hit_limit(Some(asked)) == 5000
            && query::group_limit(Some(asked)) == 5000,
        asked > 500 ==> query::rectangle_limit(Some(asked)) == 500,
        asked > 1000 ==> query::file_limit(Some(asked)) == 1000,
        asked == 0 ==> query::entry_limit(Some(asked)) == 1 && query::hit_limit(Some(asked)) == 1
            && query::group_limit(Some(asked)) == 1 && query::rectangle_limit(Some(asked)) == 1 && query::file_limit(
            Some(asked),
        ) == 1,
        answers::TREEMAP_BUDGET == 4000,
        answers::SEARCH_CAP == 20_000,
{
}

/// A listing is sorted by what was asked for.
pub proof fn law_listings_are_sorted_as_asked(sort: Sort)
    ensures
        query::key_of(sort) == SortKey::Size <==> sort == Sort::Size,
        query::key_of(sort) == SortKey::Name <==> sort == Sort::Name,
        query::key_of(sort) == SortKey::Mtime <==> sort == Sort::Mtime,
        query::key_of(sort) == SortKey::Count <==> sort == Sort::Count,
{
}

/// Whatever is below `assets/` may be kept for a year; nothing else is kept.
pub proof fn law_only_assets_are_cached(path: Seq<char>)
    ensures
        query::cached("assets/"@ + path) == "public, max-age=31536000, immutable"@,
        !text::begins_with(path, "assets/"@) ==> query::cached(path) == "no-cache"@,
{
    text::laws::law_beginning_is_being_followed(path, "assets/"@, path);
}

/// A list of extensions goes on behind a comma: what is named on either side is
/// named in the order of the sides.
pub proof fn law_extension_lists_go_on_behind_commas(a: Seq<char>, b: Seq<char>)
    ensures
        query::ext_list(a.push(',') + b) == query::ext_list(a) + query::ext_list(b),
{
    text::laws::law_a_separator_splits(a, b, ',');
    let x = text::pieces(a, ',').map_values(query::one_ext());
    let y = text::pieces(b, ',').map_values(query::one_ext());
    assert(text::pieces(a.push(',') + b, ',').map_values(query::one_ext()) =~= x + y);
    Seq::filter_distributes_over_add(x, y, query::not_empty());
}

/// A word names itself as an extension, in lower case, with or without a dot in
/// front; nothing, white space and dots name none.
pub proof fn law_a_word_names_an_extension(w: Seq<char>)
    requires
        w.len() > 0,
        w[0] != '.',
        !text::is_space(w[0]),
        !text::is_space(w.last()),
        forall|i: int| 0 <= i < w.len() ==> #[trigger] w[i] != ',',
    ensures
        query::ext_list(w) == seq![text::lower_all(w)],
        query::ext_list(seq!['.'] + w) == seq![text::lower_all(w)],
        query::ext_list(seq![' '] + w) == seq![text::lower_all(w)],
        query::ext_list(w.push(' ')) == seq![text::lower_all(w)],
        query::ext_list(Seq::empty()) == Seq::<Seq<char>>::empty(),
        query::ext_list(seq!['.']) == Seq::<Seq<char>>::empty(),
{
    let dotted = seq!['.'] + w;
    let spaced = seq![' '] + w;
    let followed = w.push(' ');
    assert(dotted.last() == w.last() && spaced.last() == w.last());
    lemma_one_piece(w, w);
    assert(dotted =~= w.insert(0, '.'));
    text::laws::law_stripping_takes_away_the_front(w, '.');
    assert(text::trim(dotted) == dotted);
    lemma_one_piece(dotted, w);
    assert(spaced.drop_first() =~= w);
    assert(text::trim_start(spaced) == text::trim_start(w));
    lemma_one_piece(spaced, w);
    assert(followed.drop_last() =~= w);
    assert(text::trim_start(followed) == followed);
    assert(text::trim_end(followed) == text::trim_end(w));
    lemma_one_piece(followed, w);
    lemma_one_piece(Seq::empty(), Seq::empty());
    assert(seq!['.'].drop_first() =~= Seq::<char>::empty());
    assert(text::trim(seq!['.']) == seq!['.']);
    assert(text::strip_front(seq!['.'], '.') =~= Seq::<char>::empty()) by {
        assert(text::strip_front(seq!['.'], '.') == text::strip_front(Seq::<char>::empty(), '.'));
    }
    lemma_one_piece(seq!['.'], Seq::empty());
}

proof fn lemma_one_piece(s: Seq<char>, e: Seq<char>)
    requires
        forall|i: int| 0 <= i < s.len() ==> #[trigger] s[i] != ',',
        text::strip_front(text::trim(s), '.') == e,
    ensures
        e.len() > 0 ==> query::ext_list(s) == seq![text::lower_all(e)],
        e.len() == 0 ==> query::ext_list(s) == Seq::<Seq<char>>::empty(),
{
    reveal(Seq::filter);
    text::laws::law_no_separator_one_piece(s, ',');
    let all = text::pieces(s, ',').map_values(query::one_ext());
    assert(all =~= seq![text::lower_all(e)]);
    let none = all.drop_last();
    assert(none =~= Seq::<Seq<char>>::empty());
    assert(none.filter(query::not_empty()) =~= Seq::<Seq<char>>::empty());
    assert(all.last() == text::lower_all(e));
    assert(query::not_empty()(all.last()) == (e.len() > 0));
    if e.len() > 0 {
        assert(all.filter(query::not_empty()) =~= none.filter(query::not_empty()).push(all.last()));
    }
}

/// What is not asked for restricts nothing, and what is asked for restricts as
/// it says: the query in lower case and without white space around it, the
/// bounds on the size, and an age in days, counted back from now.
pub proof fn law_parameters_become_restrictions(p: SearchParams, now: u64)
    ensures
        ({
            let f = query::wanted_by(p, now);
            &&& p.q is None ==> f.query.len() == 0
            &&& p.q is Some ==> f.query == text::lower_all(text::trim(p.q->0@))
            &&& p.ext is None ==> f.exts.len() == 0
            &&& p.ext is Some ==> f.exts == query::ext_list(p.ext->0@)
            &&& p.min is None ==> f.min == 0
            &&& p.min is Some ==> f.min == p.min->0
            &&& p.max is None ==> f.max == u64::MAX
            &&& p.max is Some ==> f.max == p.max->0
            &&& p.age is None ==> f.max_mtime is None
            &&& p.age is Some ==> f.max_mtime is Some
            &&& p.age is Some && now <= i64::MAX && p.age->0 * 86_400 <= i64::MAX ==> f.max_mtime->0 == now - p.age->0 * 24 * 60
                * 60
        }),
{
    lemma_one_piece(Seq::empty(), Seq::empty());
    if p.age is Some {
        let days = p.age->0 as int;
        assert(days * 24 * 60 * 60 == days * 86_400) by (nonlinear_arith);
    }
}

/// An asset is asked for with or without slashes in front; nothing but slashes
/// asks for the entry point.
pub proof fn law_assets_are_asked_for_by_path(s: Seq<char>)
    ensures
        query::asset_text(s.insert(0, '/')) == query::asset_text(s),
        s.len() > 0 && s[0] != '/' ==> query::asset_text(s) == s,
        s.len() == 0 ==> query::asset_text(s) == "index.html"@,
{
    text::laws::law_stripping_takes_away_the_front(s, '/');
}

/// An origin that names no scheme, such as `null`, is never that of this site.
pub proof fn law_opaque_origins_are_foreign(origin: Seq<char>, host: Option<Seq<char>>)
    requires
        forall|i: int| 0 <= i < origin.len() ==> #[trigger] origin[i] != ':',
    ensures
        guard::foreign(Some(origin), host),
{
    lemma_no_scheme(origin);
}

proof fn lemma_no_scheme(s: Seq<char>)
    requires
        forall|i: int| 0 <= i < s.len() ==> #[trigger] s[i] != ':',
    ensures
        guard::after_scheme(s) is None,
    decreases s.len(),
{
    if s.len() >= 3 {
        let rest = s.drop_first();
        assert forall|i: int| 0 <= i < rest.len() implies #[trigger] rest[i] != ':' by {
            assert(rest[i] == s[i + 1]);
        }
        assert(s[0] != ':');
        lemma_no_scheme(rest);
    }
}

/// The answer for a directory shows what the tree knows of it.
pub proof fn law_answers_show_the_directory(
    t: Tree,
    r: NodeResponse,
    id: u32,
    by_alloc: bool,
    key: SortKey,
    asc: bool,
    limit: usize,
)
    requires
        answers::describes(t, r, id, by_alloc, key, asc, limit),
    ensures
        r.id == id,
        r.name == t.nodes@[id as int].name,
        r.size == t.nodes@[id as int].total_size,
        r.alloc == t.nodes@[id as int].total_alloc,
        r.files == t.nodes@[id as int].files,
        r.dirs == t.nodes@[id as int].dirs,
        r.mtime == t.nodes@[id as int].mtime,
        r.read == t.nodes@[id as int].read,
        r.version == t.version,
        r.path@ == paths::path(t.nodes@, id as int),
        r.breadcrumb@.len() == paths::trail(t.nodes@, id as int).len(),
        forall|k: int|
            0 <= k < r.breadcrumb@.len() ==> (#[trigger] r.breadcrumb@[k]).id == paths::trail(t.nodes@, id as int)[k]
                && r.breadcrumb@[k].name == t.nodes@[r.breadcrumb@[k].id as int].name,
        r.children@.len() <= limit,
{
}

/// Without a filter every node of a treemap weighs what its subtree does; with
/// one, whatever it is, a file weighs all or nothing, as it fits or not.
pub proof fn law_filters_decide_what_files_weigh(t: Tree, p: SearchParams, now: u64, i: u32)
    requires
        t.wf(),
        t.holds(i),
    ensures
        p.q is None && p.ext is None && p.min is None && p.max is None && p.age is None ==> answers::treemap_weights(
            t,
            p,
            now,
        )[i as int] == (t.nodes@[i as int].total_size, t.nodes@[i as int].total_alloc),
        (p.q is Some || p.ext is Some || p.min is Some || p.max is Some || p.age is Some) && t.nodes@[i as int].kind
            != Kind::Dir ==> answers::treemap_weights(t, p, now)[i as int] == (if search::laws::fits(
            t,
            query::wanted_by(p, now),
            i,
            p.metric == Metric::Alloc,
        ) {
            (t.nodes@[i as int].total_size, t.nodes@[i as int].total_alloc)
        } else {
            (0, 0)
        }),
{
    let f = query::wanted_by(p, now);
    let by_alloc = p.metric == Metric::Alloc;
    search::laws::law_matches_are_what_was_asked_for(t, f, i, by_alloc);
}

/// A treemap shows as many levels as asked for, between one and eight, and three
/// if nothing was asked for.
pub proof fn law_treemaps_have_one_to_eight_levels(p: SearchParams)
    ensures
        1 <= answers::treemap_depth(p) <= 8,
        p.depth is None ==> answers::treemap_depth(p) == 3,
        p.depth is Some && 1 <= p.depth->0 <= 8 ==> answers::treemap_depth(p) == p.depth->0,
        p.depth is Some && p.depth->0 > 8 ==> answers::treemap_depth(p) == 8,
        p.depth is Some && p.depth->0 == 0 ==> answers::treemap_depth(p) == 1,
{
}

/// The parts of a path are not empty and hold no slash.
pub proof fn law_parts_hold_no_slash(t: Tree, id: u32, k: int, i: int)
    requires
        0 <= k < answers::parts_of(t, id).len(),
    ensures
        answers::parts_of(t, id)[k].len() > 0,
        0 <= i < answers::parts_of(t, id)[k].len() ==> answers::parts_of(t, id)[k][i] != '/',
{
    let path = paths::path(t.nodes@, id as int);
    let all = text::pieces(path, '/');
    let parts = answers::parts_of(t, id);
    all.lemma_filter_pred(query::not_empty(), k);
    assert(parts.contains(parts[k]));
    all.lemma_filter_contains_rev(query::not_empty(), parts[k]);
    let j = all.index_of(parts[k]);
    text::laws::law_pieces_make_up_the_text(path, '/');
    if 0 <= i < parts[k].len() {
        assert(all[j][i] != '/');
    }
}

/// The answer to a search is what a search of the tree finds, with up to twenty
/// thousand entries collected.
pub proof fn law_search_answers_are_searches(t: Tree, id: u32, p: SearchParams, now: u64, limit: usize, r: Seq<SearchHit>)
    requires
        r.len() == listing::cut(answers::found_by(t, id, p, now).len(), limit),
        forall|k: int| 0 <= k < r.len() ==> search::hits(t, #[trigger] r[k], answers::found_by(t, id, p, now)[k]),
    ensures
        search::hits_of(t, id, query::wanted_by(p, now), p.metric == Metric::Alloc, limit, 20_000, r),
{
}

/// The parts of a path in order, with slashes between them, are the path, if no
/// part of it is empty.
pub proof fn law_parts_make_up_the_path(t: Tree, id: u32)
    requires
        forall|k: int|
            0 <= k < text::pieces(paths::path(t.nodes@, id as int), '/').len() ==> (#[trigger] text::pieces(
                paths::path(t.nodes@, id as int),
                '/',
            )[k]).len() > 0,
    ensures
        text::laws::joined(answers::parts_of(t, id), '/') == paths::path(t.nodes@, id as int),
{
    let path = paths::path(t.nodes@, id as int);
    let all = text::pieces(path, '/');
    text::laws::law_pieces_make_up_the_text(path, '/');
    lemma_keep_all(all);
}

proof fn lemma_keep_all(v: Seq<Seq<char>>)
    requires
        forall|k: int| 0 <= k < v.len() ==> (#[trigger] v[k]).len() > 0,
    ensures
        v.filter(query::not_empty()) == v,
    decreases v.len(),
{
    reveal(Seq::filter);
    if v.len() > 0 {
        let front = v.drop_last();
        assert forall|k: int| 0 <= k < front.len() implies (#[trigger] front[k]).len() > 0 by {
            assert(front[k] == v[k]);
        }
        lemma_keep_all(front);
        assert(v[v.len() - 1].len() > 0);
        assert(front.push(v.last()) =~= v);
    } else {
        assert(v.filter(query::not_empty()) =~= v);
    }
}

/// The age of entries counts back from now; times and ages beyond what a signed
/// number holds count as the largest that it does.
pub proof fn law_ages_count_back(now: u64, days: u64, more: u64)
    requires
        days <= more,
    ensures
        query::cutoff(now, more) <= query::cutoff(now, days),
        now <= i64::MAX ==> query::cutoff(now, 0) == now,
        now > i64::MAX ==> query::cutoff(now, 0) == i64::MAX,
        now <= i64::MAX && days * 86_400 <= i64::MAX ==> query::cutoff(now, days) == now - days * 86_400,
        now <= i64::MAX && days * 86_400 > i64::MAX ==> query::cutoff(now, days) == now - i64::MAX,
{
    assert(days * 86_400 <= more * 86_400) by (nonlinear_arith)
        requires
            days <= more,
    ;
}

/// Progress shows the totals of the root, the counters and the version of the
/// tree, and that a scan runs until it is done.
pub proof fn law_progress_shows_the_root(t: Tree, done: bool, cancelled: bool, elapsed_ms: u64, found: DupeProgress)
    ensures
        ({
            let p = answers::progress_at(t, done, cancelled, elapsed_ms, found);
            &&& p.root_size == t.nodes@[0].total_size
            &&& p.root_alloc == t.nodes@[0].total_alloc
            &&& p.scanning != done
            &&& p.cancelled == cancelled
            &&& p.version == t.version && p.stats == t.stats && p.current == t.current
            &&& p.elapsed_ms == elapsed_ms && p.dupes == found
        }),
{
}

/// The groups of one folder are not shown for another, and nothing is shown
/// before a search was begun.
pub proof fn law_groups_belong_to_their_folder(p: DupeProgress, id: u32)
    ensures
        p.scope != id ==> !answers::belongs(p, id),
        p.phase == Phase::Idle ==> !answers::belongs(p, id),
        p.scope == id && p.phase != Phase::Idle ==> answers::belongs(p, id),
{
}

/// Reading is allowed to every site; anything else only to this one.
pub proof fn law_reading_is_always_allowed(foreign_site: bool)
    ensures
        guard::passed(true, foreign_site) is Ok,
        guard::passed(false, false) is Ok,
        guard::passed(false, true) == Err::<(), Refusal>(Refusal::CrossSite),
{
}

} // verus!
