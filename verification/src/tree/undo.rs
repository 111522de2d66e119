//! Removing what was just inserted: the tree is as it was, and nothing that
//! reads it shows a difference.

use vstd::prelude::*;

use crate::order;
use crate::sums;
use crate::tree;
use crate::tree::aggregate;
use crate::tree::extensions;
use crate::tree::extensions::ExtStat;
use crate::tree::laws;
use crate::tree::listing;
use crate::tree::listing::ChildrenView;
use crate::tree::listing::SortKey;
use crate::tree::model;
use crate::tree::model::Tally;
use crate::tree::paths;
use crate::tree::paths::Entry;
use crate::tree::search;
use crate::tree::search::SearchHit;
use crate::tree::search::Wanted;
use crate::tree::visit;
use crate::tree::NewEntry;
use crate::tree::Node;
use crate::tree::Tree;

verus! {

/// `after` is `before` two versions on: every node that was there is as it was,
/// but that `parent` counts as read, and so are the counters.
pub open spec fn restored(before: Tree, after: Tree, parent: u32) -> bool {
    let p = parent as int;
    &&& before.nodes@.len() <= after.nodes@.len()
    &&& forall|k: int| 0 <= k < before.nodes@.len() && k != p ==> #[trigger] after.nodes@[k] == before.nodes@[k]
    &&& after.nodes@[p] == (Node { read: true, children: after.nodes@[p].children, ..before.nodes@[p] })
    &&& after.nodes@[p].children@ == before.nodes@[p].children@
    &&& after.stats == before.stats
    &&& after.version == before.version + 2
    &&& after.current == before.current
    &&& after.errors == before.errors
    &&& before.exts@.len() <= after.exts@.len()
    &&& forall|j: int| 0 <= j < before.exts@.len() ==> (#[trigger] after.exts@[j])@ == before.exts@[j]@
}

/// Taking away what was added gives back what there was.
proof fn lemma_raised_and_lowered(n: Node, d: Tally)
    requires
        d.covers(Tally::zero()),
        model::tally(n).plus(d).fits(),
    ensures
        model::lowered(model::raised(n, d), d) == n,
{
}

/// Removing the one entry that was inserted undoes the insertion: the removal
/// succeeds, the entry is gone, and everything else is as before, but that the
/// directory counts as read.
pub proof fn law_removal_undoes_insertion(before: Tree, with: Tree, after: Tree, parent: u32, e: NewEntry)
    requires
        before.wf(),
        before.reaches(parent),
        before.has_room(parent, seq![e]),
        with.wf(),
        with.version < u64::MAX,
        tree::inserted(before, with, parent, seq![e]),
        tree::taken_out(with, after, before.nodes@.len() as u32),
    ensures
        with.reaches(before.nodes@.len() as u32),
        restored(before, after, parent),
        after.nodes@.len() == before.nodes@.len() + 1,
        !after.reaches(before.nodes@.len() as u32),
        forall|i: u32| before.holds(i) ==> #[trigger] after.reaches(i) == before.reaches(i),
{
    let a = before.nodes@;
    let b = with.nodes@;
    let c = after.nodes@;
    let p = parent as int;
    let id = a.len() as int;
    let list = seq![e];
    let names = model::names_of(with.exts@);
    let w = model::weigh(list);
    assert(list.drop_last() =~= Seq::<NewEntry>::empty());
    assert(model::weigh(Seq::<NewEntry>::empty()) == Tally::zero());
    assert(list.last() == e);
    assert(w == model::entry_share(e));
    model::lemma_weigh_part(list, 1);
    assert(list.take(1) =~= list);
    assert(model::fresh(b[id + 0], parent, model::below(a[p].depth), list[0], b[id + 0].ext));
    assert(b[id].parent == parent);
    assert(model::removal(b[id]) == w);
    assert(model::above(a, p, p));
    lemma_raised_and_lowered(a[p], w);
    assert forall|k: int| 0 <= k < a.len() && k != p implies #[trigger] c[k] == a[k] by {
        assert(b[k] == (if model::above(a, k, p) {
            model::raised(a[k], w)
        } else {
            a[k]
        }));
        model::lemma_above_same_links(a, b, k, p);
        if model::above(a, k, p) {
            lemma_raised_and_lowered(a[k], w);
        }
    }
    let kids = a[p].children@;
    assert(b[p].children@ =~= kids.push(id as u32));
    assert(b[p].children@.no_duplicates());
    model::lemma_without_at(b[p].children@, id as u32, kids.len() as int);
    assert(b[p].children@.remove(kids.len() as int) =~= kids);
    lemma_names_kept(before, with, list);
    laws::law_insertion_keeps_reach(a, b, p, list, names, id);
    laws::law_removal_detaches_the_subtree(b, c, id, id);
    assert(model::above(b, id, id));
    assert forall|i: u32| before.holds(i) implies #[trigger] after.reaches(i) == before.reaches(i) by {
        laws::law_insertion_keeps_reach(a, b, p, list, names, i as int);
        laws::law_removal_detaches_the_subtree(b, c, id, i as int);
        if model::above(b, id, i as int) {
            model::lemma_above_bounds(b, id, i as int);
        }
    }
}

/// Known extensions keep their ids.
proof fn lemma_names_kept(before: Tree, with: Tree, entries: Seq<NewEntry>)
    requires
        model::names_of(with.exts@) == model::intern_all(model::names_of(before.exts@), entries),
    ensures
        before.exts@.len() <= with.exts@.len(),
        forall|j: int| 0 <= j < before.exts@.len() ==> (#[trigger] with.exts@[j])@ == before.exts@[j]@,
{
    lemma_interned_prefix(model::names_of(before.exts@), entries);
    assert forall|j: int| 0 <= j < before.exts@.len() implies (#[trigger] with.exts@[j])@ == before.exts@[j]@ by {
        assert(model::names_of(with.exts@)[j] == model::names_of(before.exts@)[j]);
    }
}

proof fn lemma_interned_prefix(exts: Seq<Seq<char>>, entries: Seq<NewEntry>)
    ensures
        exts.len() <= model::intern_all(exts, entries).len(),
        forall|j: int| 0 <= j < exts.len() ==> #[trigger] model::intern_all(exts, entries)[j] == exts[j],
    decreases entries.len(),
{
    if entries.len() > 0 {
        lemma_interned_prefix(exts, entries.drop_last());
    }
}

/// Nodes that differ in nothing but whether they were read.
spec fn twins(m: Node, n: Node) -> bool {
    &&& n == (Node { read: n.read, children: n.children, ..m })
    &&& n.children@ == m.children@
}

proof fn lemma_twins(before: Tree, after: Tree, parent: u32)
    requires
        before.holds(parent),
        restored(before, after, parent),
    ensures
        forall|k: int| 0 <= k < before.nodes@.len() ==> twins(#[trigger] before.nodes@[k], after.nodes@[k]),
{
    assert forall|k: int| 0 <= k < before.nodes@.len() implies twins(#[trigger] before.nodes@[k], after.nodes@[k]) by {
        if k != parent {
            assert(after.nodes@[k] == before.nodes@[k]);
        }
    }
}

/// Listings rank the same nodes the same way.
proof fn lemma_same_ranking(a: Seq<Node>, b: Seq<Node>, ids: Seq<u32>, by_alloc: bool, key: SortKey, asc: bool)
    requires
        a.len() <= b.len(),
        forall|k: int| 0 <= k < a.len() ==> twins(#[trigger] a[k], b[k]),
        forall|k: int| 0 <= k < ids.len() ==> #[trigger] ids[k] < a.len(),
    ensures
        ids.sort_by(listing::list_order(b, by_alloc, key, asc)) == ids.sort_by(listing::list_order(a, by_alloc, key, asc)),
{
    let f = listing::list_order(b, by_alloc, key, asc);
    let g = listing::list_order(a, by_alloc, key, asc);
    listing::lemma_list_order(a, by_alloc, key, asc);
    listing::lemma_list_order(b, by_alloc, key, asc);
    assert forall|i: int, j: int| 0 <= i < ids.len() && 0 <= j < ids.len() implies f(ids[i], ids[j]) == #[trigger] g(ids[i], ids[j]) by {
        assert(twins(a[ids[i] as int], b[ids[i] as int]));
        assert(twins(a[ids[j] as int], b[ids[j] as int]));
    }
    order::lemma_ranking_agrees(ids, f, g);
}

/// Two entries show the same, but for a read mark that `marked` may have got.
pub open spec fn same_entry(x: Entry, y: Entry, marked: u32) -> bool {
    &&& y.id == x.id
    &&& y.name == x.name
    &&& y.kind == x.kind
    &&& y.size == x.size
    &&& y.alloc == x.alloc
    &&& y.files == x.files
    &&& y.dirs == x.dirs
    &&& y.mtime == x.mtime
    &&& y.read == (x.read || x.id == marked)
    &&& y.err == x.err
    &&& y.cloud == x.cloud
    &&& same_text(x.ext, y.ext)
}

pub open spec fn same_text(x: Option<String>, y: Option<String>) -> bool {
    match x {
        Some(s) => y is Some && y->0@ == s@,
        None => y is None,
    }
}

/// Once the insertion is undone, a listing shows what it showed before, but for
/// the read mark.
pub proof fn law_undone_listings_are_the_same(
    before: Tree,
    after: Tree,
    parent: u32,
    id: u32,
    by_alloc: bool,
    key: SortKey,
    asc: bool,
    limit: usize,
    v: ChildrenView,
    w: ChildrenView,
)
    requires
        before.wf(),
        before.holds(parent),
        before.holds(id),
        restored(before, after, parent),
        listing::lists(before, v, listing::ranked_children(before.nodes@, id as int, by_alloc, key, asc), limit),
        listing::lists(after, w, listing::ranked_children(after.nodes@, id as int, by_alloc, key, asc), limit),
    ensures
        w.children@.len() == v.children@.len(),
        forall|k: int| 0 <= k < v.children@.len() ==> same_entry(#[trigger] v.children@[k], w.children@[k], parent),
        w.other == v.other,
{
    let a = before.nodes@;
    let b = after.nodes@;
    let kids = a[id as int].children@;
    lemma_twins(before, after, parent);
    assert(twins(a[id as int], b[id as int]));
    assert forall|k: int| 0 <= k < kids.len() implies #[trigger] kids[k] < a.len() by {
        assert(model::listed(a, id as int, a[id as int].children@[k]));
    }
    lemma_same_ranking(a, b, kids, by_alloc, key, asc);
    let ids = listing::ranked_children(a, id as int, by_alloc, key, asc);
    listing::lemma_list_order(a, by_alloc, key, asc);
    kids.lemma_sort_by_ensures(listing::list_order(a, by_alloc, key, asc));
    order::lemma_same_items(kids, ids);
    assert forall|k: int| 0 <= k < ids.len() implies #[trigger] ids[k] < a.len() by {
        let j = kids.index_of(ids[k]);
        assert(kids[j] == ids[k]);
    }
    let n = listing::cut(ids.len(), limit);
    assert forall|k: int| 0 <= k < n implies same_entry(#[trigger] v.children@[k], w.children@[k], parent) by {
        assert(paths::shows(before, v.children@[k], ids[k]));
        assert(paths::shows(after, w.children@[k], ids[k]));
        let i = ids[k] as int;
        assert(twins(a[i], b[i]));
        assert(a[i].ext == tree::NO_EXT || a[i].ext < before.exts@.len());
        if i != parent {
            assert(b[i] == a[i]);
        }
    }
    let tail = ids.skip(n);
    assert forall|k: int| 0 <= k < tail.len() implies model::share(a[(#[trigger] tail[k]) as int]) == model::share(
        b[tail[k] as int],
    ) by {
        assert(tail[k] == ids[n + k]);
        assert(twins(a[tail[k] as int], b[tail[k] as int]));
    }
    aggregate::lemma_shares_same(a, b, tail);
}

/// A visit depends on kinds and child lists alone.
proof fn lemma_same_visits(a: Seq<Node>, b: Seq<Node>, i: int)
    requires
        model::shape(a),
        a.len() <= b.len(),
        forall|k: int| 0 <= k < a.len() ==> twins(#[trigger] a[k], b[k]),
        0 <= i < a.len(),
    ensures
        visit::visits(b, i) == visit::visits(a, i),
    decreases a.len() - i, 1int, 0nat,
{
    assert(twins(a[i], b[i]));
    let kids = a[i].children@;
    assert(kids.take(kids.len() as int) =~= kids);
    lemma_same_visits_of(a, b, i, kids.len() as int);
}

proof fn lemma_same_visits_of(a: Seq<Node>, b: Seq<Node>, i: int, n: int)
    requires
        model::shape(a),
        a.len() <= b.len(),
        forall|k: int| 0 <= k < a.len() ==> twins(#[trigger] a[k], b[k]),
        0 <= i < a.len(),
        0 <= n <= a[i].children@.len(),
    ensures
        visit::visits_of(b, i, a[i].children@.take(n)) == visit::visits_of(a, i, a[i].children@.take(n)),
    decreases a.len() - i, 0int, n as nat,
{
    let ids = a[i].children@.take(n);
    if n > 0 {
        assert(ids.drop_last() =~= a[i].children@.take(n - 1));
        assert(model::listed(a, i, a[i].children@[n - 1]));
        lemma_same_visits(a, b, ids.last() as int);
        lemma_same_visits_of(a, b, i, n - 1);
    }
}

/// Paths depend on names and parent links alone.
proof fn lemma_same_path(a: Seq<Node>, b: Seq<Node>, i: int)
    requires
        a.len() <= b.len(),
        forall|k: int| 0 <= k < a.len() ==> twins(#[trigger] a[k], b[k]),
        0 <= i < a.len(),
    ensures
        paths::path(b, i) == paths::path(a, i),
    decreases i,
{
    assert(twins(a[i], b[i]));
    if i > 0 && a[i].parent < i {
        lemma_same_path(a, b, a[i].parent as int);
    }
}

/// Two hits show the same.
pub open spec fn same_hit(x: SearchHit, y: SearchHit) -> bool {
    &&& y.id == x.id
    &&& y.parent == x.parent
    &&& y.name == x.name
    &&& y.kind == x.kind
    &&& y.path@ == x.path@
    &&& y.size == x.size
    &&& y.alloc == x.alloc
    &&& y.mtime == x.mtime
    &&& same_text(x.ext, y.ext)
}

/// Once the insertion is undone, a search finds what it found before.
pub proof fn law_undone_searches_are_the_same(
    before: Tree,
    after: Tree,
    parent: u32,
    id: u32,
    f: Wanted,
    by_alloc: bool,
    limit: usize,
    cap: usize,
    r: Seq<SearchHit>,
    q: Seq<SearchHit>,
)
    requires
        before.wf(),
        before.holds(parent),
        before.holds(id),
        restored(before, after, parent),
        search::hits_of(before, id, f, by_alloc, limit, cap, r),
        search::hits_of(after, id, f, by_alloc, limit, cap, q),
    ensures
        q.len() == r.len(),
        forall|k: int| 0 <= k < r.len() ==> same_hit(#[trigger] r[k], q[k]),
{
    let a = before.nodes@;
    let b = after.nodes@;
    let kids = a[id as int].children@;
    lemma_twins(before, after, parent);
    assert(twins(a[id as int], b[id as int]));
    assert(kids.take(kids.len() as int) =~= kids);
    lemma_same_visits_of(a, b, id as int, kids.len() as int);
    let all = search::below(a, id);
    assert(search::below(b, id) == all);
    assert forall|k: int| 0 <= k < all.len() implies #[trigger] all[k] < a.len() by {
        visit::lemma_visits_of_in_range(a, id as int, kids, k);
    }
    let fa = search::passing(before, f, by_alloc);
    let fb = search::passing(after, f, by_alloc);
    assert forall|k: int| 0 <= k < all.len() implies fb(#[trigger] all[k]) == fa(all[k]) by {
        let i = all[k] as int;
        assert(twins(a[i], b[i]));
        assert(a[i].ext == tree::NO_EXT || a[i].ext < before.exts@.len());
    }
    order::lemma_filter_agrees(all, fb, fa);
    let base = search::found(before, id, f, by_alloc, cap);
    assert(search::found(after, id, f, by_alloc, cap) == base);
    assert forall|k: int| 0 <= k < base.len() implies #[trigger] base[k] < a.len() by {
        let kept = all.filter(fa);
        assert(base[k] == kept[k]);
        assert(kept.contains(kept[k]));
        all.lemma_filter_contains_rev(fa, kept[k]);
        let j = all.index_of(kept[k]);
        assert(all[j] == kept[k]);
    }
    lemma_same_ranking(a, b, base, by_alloc, SortKey::Size, false);
    let order_a = listing::list_order(a, by_alloc, SortKey::Size, false);
    let ids = base.sort_by(order_a);
    listing::lemma_list_order(a, by_alloc, SortKey::Size, false);
    base.lemma_sort_by_ensures(order_a);
    order::lemma_same_items(base, ids);
    assert forall|k: int| 0 <= k < r.len() implies same_hit(#[trigger] r[k], q[k]) by {
        assert(search::hits(before, r[k], ids[k]));
        assert(search::hits(after, q[k], ids[k]));
        let j = base.index_of(ids[k]);
        assert(base[j] == ids[k]);
        let i = ids[k] as int;
        assert(twins(a[i], b[i]));
        assert(a[i].ext == tree::NO_EXT || a[i].ext < before.exts@.len());
        lemma_same_path(a, b, i);
    }
}

/// Where a slot of `before` stands in `after`: the one for files without an
/// extension comes behind all extensions.
spec fn moved(before: Tree, after: Tree, s: u32) -> u32 {
    if s < before.exts@.len() {
        s
    } else {
        after.exts@.len() as u32
    }
}

spec fn mover(before: Tree, after: Tree) -> spec_fn(u32) -> u32 {
    |s: u32| moved(before, after, s)
}

/// The files are the same, and each counts for the slot that stands for its
/// extension.
proof fn lemma_same_files(before: Tree, after: Tree, parent: u32, id: u32)
    requires
        before.wf(),
        before.holds(parent),
        before.holds(id),
        restored(before, after, parent),
    ensures
        visit::leaves(after.nodes@, id as int) == visit::leaves(before.nodes@, id as int),
        forall|k: int|
            0 <= k < visit::leaves(before.nodes@, id as int).len() ==> #[trigger] visit::leaves(before.nodes@, id as int)[k]
                < before.nodes@.len(),
{
    let a = before.nodes@;
    let b = after.nodes@;
    lemma_twins(before, after, parent);
    lemma_same_visits(a, b, id as int);
    let all = visit::visits(a, id as int);
    let fa = visit::is_leaf(a);
    let fb = visit::is_leaf(b);
    assert forall|k: int| 0 <= k < all.len() implies #[trigger] all[k] < a.len() by {
        visit::lemma_visits_in_range(a, id as int, k);
    }
    assert forall|k: int| 0 <= k < all.len() implies fb(#[trigger] all[k]) == fa(all[k]) by {
        assert(twins(a[all[k] as int], b[all[k] as int]));
    }
    order::lemma_filter_agrees(all, fb, fa);
    let kept = all.filter(fa);
    assert forall|k: int| 0 <= k < kept.len() implies #[trigger] kept[k] < a.len() by {
        assert(kept.contains(kept[k]));
        all.lemma_filter_contains_rev(fa, kept[k]);
        let j = all.index_of(kept[k]);
        assert(all[j] == kept[k]);
    }
}

/// A slot that moved holds the same files, with the same text and totals.
proof fn lemma_same_slot(before: Tree, after: Tree, parent: u32, ids: Seq<u32>, s: u32)
    requires
        before.wf(),
        before.holds(parent),
        restored(before, after, parent),
        after.exts@.len() <= u32::MAX,
        s <= before.exts@.len(),
        forall|k: int| 0 <= k < ids.len() ==> #[trigger] ids[k] < before.nodes@.len(),
    ensures
        ({
            let m = moved(before, after, s) as int;
            &&& extensions::of_slot(after, ids, m) == extensions::of_slot(before, ids, s as int)
            &&& extensions::slot_text(after, m) == extensions::slot_text(before, s as int)
            &&& extensions::slot_size(after, ids, m) == extensions::slot_size(before, ids, s as int)
            &&& extensions::slot_alloc(after, ids, m) == extensions::slot_alloc(before, ids, s as int)
        }),
{
    let m = moved(before, after, s) as int;
    let fa = extensions::in_slot(before, s as int);
    let fb = extensions::in_slot(after, m);
    lemma_twins(before, after, parent);
    assert forall|k: int| 0 <= k < ids.len() implies fb(#[trigger] ids[k]) == fa(ids[k]) by {
        let i = ids[k] as int;
        assert(twins(before.nodes@[i], after.nodes@[i]));
        assert(before.nodes@[i].ext == tree::NO_EXT || before.nodes@[i].ext < before.exts@.len());
    }
    order::lemma_filter_agrees(ids, fb, fa);
    let some = extensions::of_slot(before, ids, s as int);
    assert forall|k: int| 0 <= k < some.len() implies twins(
        before.nodes@[(#[trigger] some[k]) as int],
        after.nodes@[some[k] as int],
    ) by {
        assert(some.contains(some[k]));
        ids.lemma_filter_contains_rev(fa, some[k]);
        let j = ids.index_of(some[k]);
        assert(ids[j] == some[k]);
    }
    lemma_same_total(some, extensions::size_in(after.nodes@), extensions::size_in(before.nodes@));
    lemma_same_total(some, extensions::alloc_in(after.nodes@), extensions::alloc_in(before.nodes@));
}

proof fn lemma_same_total(ids: Seq<u32>, f: spec_fn(u32) -> int, g: spec_fn(u32) -> int)
    requires
        forall|k: int| 0 <= k < ids.len() ==> f(#[trigger] ids[k]) == g(ids[k]),
    ensures
        sums::total(ids, f) == sums::total(ids, g),
    decreases ids.len(),
{
    if ids.len() > 0 {
        let front = ids.drop_last();
        assert forall|k: int| 0 <= k < front.len() implies f(#[trigger] front[k]) == g(front[k]) by {
            assert(front[k] == ids[k]);
        }
        lemma_same_total(front, f, g);
        assert(f(ids[ids.len() - 1]) == g(ids[ids.len() - 1]));
    }
}

/// The same slots are used below the extensions that both know.
proof fn lemma_same_used(before: Tree, after: Tree, parent: u32, ids: Seq<u32>, n: nat)
    requires
        before.wf(),
        before.holds(parent),
        restored(before, after, parent),
        after.exts@.len() <= u32::MAX,
        n <= before.exts@.len(),
        forall|k: int| 0 <= k < ids.len() ==> #[trigger] ids[k] < before.nodes@.len(),
    ensures
        extensions::used_slots(after, ids, n) == extensions::used_slots(before, ids, n),
    decreases n,
{
    if n > 0 {
        lemma_same_used(before, after, parent, ids, (n - 1) as nat);
        lemma_same_slot(before, after, parent, ids, (n - 1) as u32);
    }
}

/// No file counts for an extension that only `after` knows.
proof fn lemma_none_new(before: Tree, after: Tree, parent: u32, ids: Seq<u32>, n: nat)
    requires
        before.wf(),
        before.holds(parent),
        restored(before, after, parent),
        after.exts@.len() < u32::MAX,
        before.exts@.len() <= n <= after.exts@.len(),
        forall|k: int| 0 <= k < ids.len() ==> #[trigger] ids[k] < before.nodes@.len(),
    ensures
        extensions::used_slots(after, ids, n) == extensions::used_slots(after, ids, before.exts@.len()),
    decreases n,
{
    if n > before.exts@.len() {
        lemma_none_new(before, after, parent, ids, (n - 1) as nat);
        lemma_twins(before, after, parent);
        let s = n - 1;
        let some = extensions::of_slot(after, ids, s);
        let f = extensions::in_slot(after, s);
        if some.len() > 0 {
            ids.lemma_filter_pred(f, 0);
            assert(some.contains(some[0]));
            ids.lemma_filter_contains_rev(f, some[0]);
            let j = ids.index_of(some[0]);
            let i = ids[j] as int;
            assert(twins(before.nodes@[i], after.nodes@[i]));
            assert(before.nodes@[i].ext == tree::NO_EXT || before.nodes@[i].ext < before.exts@.len());
            assert(f(some[0]));
        }
    }
}

/// The used slots of `after` are those of `before`, moved.
proof fn lemma_used_moved(before: Tree, after: Tree, parent: u32, ids: Seq<u32>)
    requires
        before.wf(),
        before.holds(parent),
        restored(before, after, parent),
        after.exts@.len() < u32::MAX,
        forall|k: int| 0 <= k < ids.len() ==> #[trigger] ids[k] < before.nodes@.len(),
    ensures
        extensions::used_slots(after, ids, (after.exts@.len() + 1) as nat) == extensions::used_slots(
            before,
            ids,
            (before.exts@.len() + 1) as nat,
        ).map_values(mover(before, after)),
{
    let m = before.exts@.len();
    let n = after.exts@.len();
    let go = mover(before, after);
    lemma_same_used(before, after, parent, ids, m);
    lemma_none_new(before, after, parent, ids, n);
    lemma_same_slot(before, after, parent, ids, m as u32);
    extensions::lemma_used_below(before, ids, m);
    let known = extensions::used_slots(before, ids, m);
    assert(known.map_values(go) =~= known);
    let a = extensions::used_slots(before, ids, (m + 1) as nat);
    let b = extensions::used_slots(after, ids, (n + 1) as nat);
    if extensions::of_slot(before, ids, m as int).len() > 0 {
        assert(a == known.push(m as u32));
        assert(b =~= a.map_values(go));
    } else {
        assert(b =~= a.map_values(go));
    }
}

/// Two totals say the same.
pub open spec fn same_stat(x: ExtStat, y: ExtStat) -> bool {
    y.ext@ == x.ext@ && y.size == x.size && y.alloc == x.alloc && y.count == x.count
}

/// Once the insertion is undone, the totals per extension are what they were
/// before.
pub proof fn law_undone_types_are_the_same(
    before: Tree,
    after: Tree,
    parent: u32,
    id: u32,
    r: Seq<ExtStat>,
    q: Seq<ExtStat>,
)
    requires
        before.wf(),
        after.wf(),
        before.holds(parent),
        before.holds(id),
        restored(before, after, parent),
        extensions::types_of(before, id, r),
        extensions::types_of(after, id, q),
    ensures
        q.len() == r.len(),
        forall|k: int| 0 <= k < r.len() ==> same_stat(#[trigger] r[k], q[k]),
{
    let ids = visit::leaves(before.nodes@, id as int);
    lemma_same_files(before, after, parent, id);
    lemma_used_moved(before, after, parent, ids);
    let go = mover(before, after);
    let m = before.exts@.len();
    let used_a = extensions::used_slots(before, ids, (m + 1) as nat);
    let used_b = extensions::used_slots(after, ids, (after.exts@.len() + 1) as nat);
    let fa = extensions::slot_order(before, ids);
    let fb = extensions::slot_order(after, ids);
    extensions::lemma_slot_order(before, ids);
    extensions::lemma_slot_order(after, ids);
    used_a.lemma_sort_by_ensures(fa);
    let slots = used_a.sort_by(fa);
    let there = slots.map_values(go);
    order::lemma_same_items(used_a, slots);
    order::lemma_mapped_same_items(slots, used_a, go);
    extensions::lemma_used_below(before, ids, (m + 1) as nat);
    assert forall|k: int| 0 <= k < slots.len() implies #[trigger] slots[k] <= m by {
        let j = used_a.index_of(slots[k]);
        assert(used_a[j] == slots[k]);
    }
    assert forall|i: int, j: int| 0 <= i < j < there.len() implies #[trigger] fb(there[i], there[j]) by {
        assert(fa(slots[i], slots[j]));
        lemma_same_slot(before, after, parent, ids, slots[i]);
        lemma_same_slot(before, after, parent, ids, slots[j]);
    }
    order::law_ranking_is_unique(used_b, there, fb);
    assert forall|k: int| 0 <= k < r.len() implies same_stat(#[trigger] r[k], q[k]) by {
        assert(extensions::sums_up(before, ids, r[k], slots[k] as int));
        assert(extensions::sums_up(after, ids, q[k], there[k] as int));
        lemma_same_slot(before, after, parent, ids, slots[k]);
    }
}

} // verus!
