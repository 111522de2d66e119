//! What a search finds, in terms of the entries and of what was asked for.

use vstd::prelude::*;

use crate::order;
use crate::tree::extensions;
use crate::tree::listing;
use crate::tree::listing::SortKey;
use crate::tree::paths;
use crate::tree::search;
use crate::tree::search::SearchHit;
use crate::tree::search::Wanted;
use crate::tree::Node;
use crate::tree::Tree;

verus! {

/// The same byte, or the same ASCII letter in the other case.
pub open spec fn same_letter(a: u8, b: u8) -> bool {
    ||| a == b
    ||| 'A' as u8 <= a <= 'Z' as u8 && b == a + 32
    ||| 'A' as u8 <= b <= 'Z' as u8 && a == b + 32
}

/// `part` stands in `whole` from position `o` on, but for the case of letters.
pub open spec fn stands_at(whole: Seq<u8>, part: Seq<u8>, o: int) -> bool {
    &&& 0 <= o <= whole.len() - part.len()
    &&& forall|j: int| 0 <= j < part.len() ==> same_letter(#[trigger] part[j], whole[o + j])
}

/// `part` stands somewhere in `whole`, but for the case of letters.
pub open spec fn stands_in(whole: Seq<u8>, part: Seq<u8>) -> bool {
    exists|o: int| #[trigger] stands_at(whole, part, o)
}

/// The entry has one of the extensions, if any are named: none in particular
/// has to be that of the entry.
pub open spec fn named(t: Tree, f: Wanted, i: u32) -> bool {
    f.exts.len() > 0 ==> exists|j: int| 0 <= j < f.exts.len() && #[trigger] f.exts[j] == extensions::laws::type_of(t, i)
}

/// The entry is as large and as old as asked for, both ends included.
pub open spec fn sized(f: Wanted, n: Node, by_alloc: bool) -> bool {
    &&& by_alloc ==> f.min <= n.total_alloc && n.total_alloc <= f.max
    &&& !by_alloc ==> f.min <= n.total_size && n.total_size <= f.max
    &&& f.max_mtime is Some ==> n.mtime <= f.max_mtime->0
}

/// The entry is one that was asked for.
pub open spec fn fits(t: Tree, f: Wanted, i: u32, by_alloc: bool) -> bool {
    let n = t.nodes@[i as int];
    &&& stands_in(vstd::utf8::encode_utf8(n.name@), vstd::utf8::encode_utf8(f.query))
    &&& named(t, f, i)
    &&& sized(f, n, by_alloc)
}

proof fn lemma_folds(a: u8, b: u8)
    ensures
        (search::fold(a) == search::fold(b)) == same_letter(a, b),
{
}

proof fn lemma_stands(whole: Seq<u8>, part: Seq<u8>)
    ensures
        search::folds_in(whole, part) == stands_in(whole, part),
{
    assert forall|o: int| search::folds_at(whole, part, o) == stands_at(whole, part, o) by {
        assert forall|j: int| 0 <= j < part.len() implies (search::fold(#[trigger] part[j]) == search::fold(whole[o + j]))
            == same_letter(part[j], whole[o + j]) by {
            lemma_folds(part[j], whole[o + j]);
        }
    }
    if search::folds_in(whole, part) {
        let o = choose|o: int| #[trigger] search::folds_at(whole, part, o);
        assert(stands_at(whole, part, o));
    }
    if stands_in(whole, part) {
        let o = choose|o: int| #[trigger] stands_at(whole, part, o);
        assert(search::folds_at(whole, part, o));
    }
}

/// An entry is a match exactly if its name holds the query, whatever the case,
/// one of the extensions is its own, wherever it stands in the list, and size
/// and age are within the bounds.
pub proof fn law_matches_are_what_was_asked_for(t: Tree, f: Wanted, i: u32, by_alloc: bool)
    requires
        t.wf(),
        t.holds(i),
    ensures
        search::passing(t, f, by_alloc)(i) == fits(t, f, i, by_alloc),
{
    let n = t.nodes@[i as int];
    let x = extensions::laws::type_of(t, i);
    lemma_stands(vstd::utf8::encode_utf8(n.name@), vstd::utf8::encode_utf8(f.query));
    assert(search::ext_or_empty(t, n) =~= x);
    if f.exts.contains(x) {
        let j = f.exts.index_of(x);
        assert(f.exts[j] == x);
    }
}

/// An entry of a name, size and age that was asked for is a match whenever some
/// entry of the extension list is its extension.
pub proof fn law_any_listed_extension_will_do(t: Tree, f: Wanted, i: u32, by_alloc: bool, j: int)
    requires
        t.wf(),
        t.holds(i),
        0 <= j < f.exts.len(),
        f.exts[j] == extensions::laws::type_of(t, i),
        stands_in(vstd::utf8::encode_utf8(t.nodes@[i as int].name@), vstd::utf8::encode_utf8(f.query)),
        sized(f, t.nodes@[i as int], by_alloc),
    ensures
        search::passing(t, f, by_alloc)(i),
{
    law_matches_are_what_was_asked_for(t, f, i, by_alloc);
}

/// A list of extensions that leaves out that of an entry keeps the entry out.
pub proof fn law_unlisted_extensions_do_not_match(t: Tree, f: Wanted, i: u32, by_alloc: bool)
    requires
        t.wf(),
        t.holds(i),
        f.exts.len() > 0,
        forall|j: int| 0 <= j < f.exts.len() ==> #[trigger] f.exts[j] != extensions::laws::type_of(t, i),
    ensures
        !search::passing(t, f, by_alloc)(i),
{
    law_matches_are_what_was_asked_for(t, f, i, by_alloc);
}

/// A search does not depend on the order of the extensions, nor on how often one
/// is named.
pub proof fn law_extensions_have_no_order(
    t: Tree,
    id: u32,
    f: Wanted,
    g: Wanted,
    by_alloc: bool,
    limit: usize,
    cap: usize,
    r: Seq<SearchHit>,
)
    requires
        t.wf(),
        t.holds(id),
        g == (Wanted { exts: g.exts, ..f }),
        f.exts.len() > 0,
        g.exts.len() > 0,
        forall|j: int| 0 <= j < f.exts.len() ==> g.exts.contains(#[trigger] f.exts[j]),
        forall|j: int| 0 <= j < g.exts.len() ==> f.exts.contains(#[trigger] g.exts[j]),
    ensures
        search::hits_of(t, id, f, by_alloc, limit, cap, r) == search::hits_of(t, id, g, by_alloc, limit, cap, r),
{
    let all = search::below(t.nodes@, id);
    let p = search::passing(t, f, by_alloc);
    let q = search::passing(t, g, by_alloc);
    assert forall|i: int| 0 <= i < all.len() implies p(#[trigger] all[i]) == q(all[i]) by {
        let x = search::ext_or_empty(t, t.nodes@[all[i] as int]);
        assert(f.exts.contains(x) == g.exts.contains(x)) by {
            if f.exts.contains(x) {
                let j = f.exts.index_of(x);
                assert(g.exts.contains(f.exts[j]));
            }
            if g.exts.contains(x) {
                let j = g.exts.index_of(x);
                assert(f.exts.contains(g.exts[j]));
            }
        }
    }
    order::lemma_filter_agrees(all, p, q);
}

/// Every hit is an entry below the node that fits what was asked for, shown with
/// its name, its path, its parent, its time and the totals of its subtree.
pub proof fn law_hits_are_what_was_asked_for(
    t: Tree,
    id: u32,
    f: Wanted,
    by_alloc: bool,
    limit: usize,
    cap: usize,
    r: Seq<SearchHit>,
    k: int,
)
    requires
        t.wf(),
        t.reaches(id),
        search::hits_of(t, id, f, by_alloc, limit, cap, r),
        0 <= k < r.len(),
    ensures
        t.holds(r[k].id),
        search::below(t.nodes@, id).contains(r[k].id),
        fits(t, f, r[k].id, by_alloc),
        ({
            let n = t.nodes@[r[k].id as int];
            &&& r[k].name == n.name && r[k].kind == n.kind && r[k].parent == n.parent && r[k].mtime == n.mtime
            &&& r[k].size == n.total_size && r[k].alloc == n.total_alloc
            &&& r[k].path@ == paths::path(t.nodes@, r[k].id as int)
            &&& r[k].ext is Some ==> r[k].ext->0@ == extensions::laws::type_of(t, r[k].id)
            &&& r[k].ext is None ==> extensions::laws::type_of(t, r[k].id).len() == 0
        }),
        by_alloc ==> f.min <= r[k].alloc <= f.max,
        !by_alloc ==> f.min <= r[k].size <= f.max,
{
    search::law_hits_pass_the_filter(t, id, f, by_alloc, limit, cap, r);
    let leq = listing::list_order(t.nodes@, by_alloc, SortKey::Size, false);
    let ids = search::found(t, id, f, by_alloc, cap).sort_by(leq);
    assert(search::hits(t, r[k], ids[k]));
    assert(search::passing(t, f, by_alloc)(r[k].id));
    law_matches_are_what_was_asked_for(t, f, r[k].id, by_alloc);
}

/// Hits stand in descending order of what is asked for, bytes on disk with
/// `by_alloc` and bytes without, and among equals in the byte order of their
/// names.
pub proof fn law_larger_hits_come_first(
    t: Tree,
    id: u32,
    f: Wanted,
    by_alloc: bool,
    limit: usize,
    cap: usize,
    r: Seq<SearchHit>,
    i: int,
    j: int,
)
    requires
        t.wf(),
        t.reaches(id),
        search::hits_of(t, id, f, by_alloc, limit, cap, r),
        0 <= i < j < r.len(),
    ensures
        by_alloc ==> r[i].alloc >= r[j].alloc,
        !by_alloc ==> r[i].size >= r[j].size,
        (by_alloc && r[i].alloc == r[j].alloc) || (!by_alloc && r[i].size == r[j].size) ==> order::lex_leq(
            vstd::utf8::encode_utf8(r[i].name@),
            vstd::utf8::encode_utf8(r[j].name@),
        ),
{
    let leq = listing::list_order(t.nodes@, by_alloc, SortKey::Size, false);
    let base = search::found(t, id, f, by_alloc, cap);
    let ids = base.sort_by(leq);
    listing::lemma_list_order(t.nodes@, by_alloc, SortKey::Size, false);
    base.lemma_sort_by_ensures(leq);
    assert(search::hits(t, r[i], ids[i]));
    assert(search::hits(t, r[j], ids[j]));
    assert(leq(ids[i], ids[j]));
    order::lemma_lex_total(listing::name_bytes(t.nodes@, ids[i]), listing::name_bytes(t.nodes@, ids[j]));
}

/// Where fewer entries fit than a search collects, none of them is left out
/// without need: each is a hit, unless `limit` others are, none of which has
/// less of what is asked for.
pub proof fn law_nothing_that_fits_is_missed(
    t: Tree,
    id: u32,
    f: Wanted,
    by_alloc: bool,
    limit: usize,
    cap: usize,
    r: Seq<SearchHit>,
    x: u32,
)
    requires
        t.wf(),
        t.reaches(id),
        search::hits_of(t, id, f, by_alloc, limit, cap, r),
        search::below(t.nodes@, id).filter(|i: u32| fits(t, f, i, by_alloc)).len() <= cap,
        search::below(t.nodes@, id).contains(x),
        t.holds(x),
        fits(t, f, x, by_alloc),
    ensures
        (exists|k: int| 0 <= k < r.len() && (#[trigger] r[k]).id == x) || r.len() == limit,
        (exists|k: int| 0 <= k < r.len() && (#[trigger] r[k]).id == x) || forall|k: int|
            0 <= k < r.len() ==> if by_alloc {
                (#[trigger] r[k]).alloc >= t.nodes@[x as int].total_alloc
            } else {
                r[k].size >= t.nodes@[x as int].total_size
            },
{
    let all = search::below(t.nodes@, id);
    let p = search::passing(t, f, by_alloc);
    let q = |i: u32| fits(t, f, i, by_alloc);
    assert forall|i: int| 0 <= i < all.len() implies p(#[trigger] all[i]) == q(all[i]) by {
        crate::tree::visit::lemma_visits_of_in_range(t.nodes@, id as int, t.nodes@[id as int].children@, i);
        law_matches_are_what_was_asked_for(t, f, all[i], by_alloc);
    }
    order::lemma_filter_agrees(all, p, q);
    let base = search::found(t, id, f, by_alloc, cap);
    let leq = listing::list_order(t.nodes@, by_alloc, SortKey::Size, false);
    let ids = base.sort_by(leq);
    listing::lemma_list_order(t.nodes@, by_alloc, SortKey::Size, false);
    base.lemma_sort_by_ensures(leq);
    order::lemma_same_items(base, ids);
    let a = all.index_of(x);
    assert(q(all[a]));
    all.lemma_filter_contains(q, a);
    assert(all.filter(p).contains(x));
    assert(all.filter(p).len() <= cap);
    assert(base =~= all.filter(p));
    assert(base.contains(x));
    assert(ids.contains(x));
    let pos = ids.index_of(x);
    if pos < r.len() {
        assert(search::hits(t, r[pos], ids[pos]));
    } else {
        assert forall|k: int| 0 <= k < r.len() implies if by_alloc {
            (#[trigger] r[k]).alloc >= t.nodes@[x as int].total_alloc
        } else {
            r[k].size >= t.nodes@[x as int].total_size
        } by {
            assert(search::hits(t, r[k], ids[k]));
            assert(leq(ids[k], ids[pos]));
        }
    }
}

/// Where more entries fit than a search collects, the hits are among those that
/// come first on the way through the tree; at least one is collected.
pub proof fn law_searches_stop_at_the_cap(
    t: Tree,
    id: u32,
    f: Wanted,
    by_alloc: bool,
    limit: usize,
    cap: usize,
    r: Seq<SearchHit>,
    k: int,
)
    requires
        t.wf(),
        t.reaches(id),
        search::hits_of(t, id, f, by_alloc, limit, cap, r),
        0 <= k < r.len(),
    ensures
        ({
            let all = search::below(t.nodes@, id).filter(|i: u32| fits(t, f, i, by_alloc));
            let most = if cap == 0 {
                1
            } else {
                cap as int
            };
            exists|j: int| 0 <= j < most && j < all.len() && #[trigger] all[j] == r[k].id
        }),
{
    let below = search::below(t.nodes@, id);
    let p = search::passing(t, f, by_alloc);
    let q = |i: u32| fits(t, f, i, by_alloc);
    assert forall|i: int| 0 <= i < below.len() implies p(#[trigger] below[i]) == q(below[i]) by {
        crate::tree::visit::lemma_visits_of_in_range(t.nodes@, id as int, t.nodes@[id as int].children@, i);
        law_matches_are_what_was_asked_for(t, f, below[i], by_alloc);
    }
    order::lemma_filter_agrees(below, p, q);
    let all = below.filter(q);
    let base = search::found(t, id, f, by_alloc, cap);
    let leq = listing::list_order(t.nodes@, by_alloc, SortKey::Size, false);
    let ids = base.sort_by(leq);
    listing::lemma_list_order(t.nodes@, by_alloc, SortKey::Size, false);
    base.lemma_sort_by_ensures(leq);
    order::lemma_same_items(base, ids);
    assert(search::hits(t, r[k], ids[k]));
    assert(base.contains(ids[k]));
    let j = base.index_of(ids[k]);
    assert(all[j] == r[k].id);
}

} // verus!
