//! What a listing shows of a directory, in terms of its children.

use vstd::prelude::*;

use crate::order;
use crate::sums;
use crate::tree::aggregate;
use crate::tree::extensions;
use crate::tree::listing;
use crate::tree::listing::ChildrenView;
use crate::tree::listing::SortKey;
use crate::tree::model;
use crate::tree::paths::Entry;
use crate::tree::Node;
use crate::tree::Tree;

verus! {

/// What the nodes of a list weigh together is the sum of their totals.
proof fn lemma_shares_are_sums(nodes: Seq<Node>, ids: Seq<u32>)
    ensures
        aggregate::shares(nodes, ids).size == sums::total(ids, |i: u32| nodes[i as int].total_size as int),
        aggregate::shares(nodes, ids).alloc == sums::total(ids, |i: u32| nodes[i as int].total_alloc as int),
    decreases ids.len(),
{
    if ids.len() > 0 {
        lemma_shares_are_sums(nodes, ids.drop_last());
    }
}

proof fn lemma_ranked(t: Tree, id: u32, by_alloc: bool, key: SortKey, asc: bool)
    requires
        t.wf(),
        t.holds(id),
    ensures
        ({
            let kids = t.nodes@[id as int].children@;
            let ids = listing::ranked_children(t.nodes@, id as int, by_alloc, key, asc);
            &&& ids.to_multiset() == kids.to_multiset()
            &&& ids.no_duplicates()
            &&& forall|i: int, j: int|
                0 <= i < j < ids.len() ==> listing::listed_first(t.nodes@, by_alloc, key, asc, #[trigger] ids[i], #[trigger] ids[j])
            &&& forall|k: int| 0 <= k < ids.len() ==> #[trigger] ids[k] < t.nodes@.len() && kids.contains(ids[k])
        }),
{
    let kids = t.nodes@[id as int].children@;
    let leq = listing::list_order(t.nodes@, by_alloc, key, asc);
    let ids = listing::ranked_children(t.nodes@, id as int, by_alloc, key, asc);
    listing::lemma_list_order(t.nodes@, by_alloc, key, asc);
    kids.lemma_sort_by_ensures(leq);
    order::lemma_same_items(kids, ids);
    assert(kids.no_duplicates());
    kids.lemma_multiset_has_no_duplicates();
    ids.lemma_multiset_has_no_duplicates_conv();
    assert forall|i: int, j: int| 0 <= i < j < ids.len() implies listing::listed_first(
        t.nodes@,
        by_alloc,
        key,
        asc,
        #[trigger] ids[i],
        #[trigger] ids[j],
    ) by {
        assert(leq(ids[i], ids[j]));
    }
    assert forall|k: int| 0 <= k < ids.len() implies #[trigger] ids[k] < t.nodes@.len() && kids.contains(ids[k]) by {
        let j = kids.index_of(ids[k]);
        assert(model::listed(t.nodes@, id as int, t.nodes@[id as int].children@[j]));
    }
}

/// Every entry of a listing is a child of the directory, none is listed twice,
/// and each shows what the tree knows of it.
pub proof fn law_entries_show_children(
    t: Tree,
    v: ChildrenView,
    id: u32,
    by_alloc: bool,
    key: SortKey,
    asc: bool,
    limit: usize,
    k: int,
)
    requires
        t.wf(),
        t.reaches(id),
        listing::lists(t, v, listing::ranked_children(t.nodes@, id as int, by_alloc, key, asc), limit),
        0 <= k < v.children@.len(),
    ensures
        ({
            let e = v.children@[k];
            let n = t.nodes@[e.id as int];
            &&& t.nodes@[id as int].children@.contains(e.id)
            &&& e.name == n.name && e.kind == n.kind && e.mtime == n.mtime
            &&& e.size == n.total_size && e.alloc == n.total_alloc && e.files == n.files && e.dirs == n.dirs
            &&& e.read == n.read && e.err == n.err && e.cloud == n.cloud
            &&& e.ext is Some ==> e.ext->0@ == extensions::laws::type_of(t, e.id)
            &&& e.ext is None ==> extensions::laws::type_of(t, e.id).len() == 0
        }),
        forall|j: int| 0 <= j < v.children@.len() && j != k ==> (#[trigger] v.children@[j]).id != v.children@[k].id,
        v.children@.len() <= limit,
{
    lemma_ranked(t, id, by_alloc, key, asc);
    let ids = listing::ranked_children(t.nodes@, id as int, by_alloc, key, asc);
    assert(crate::tree::paths::shows(t, v.children@[k], ids[k]));
}

/// Entries are sorted by what was asked for, descending unless ascending order
/// was asked for: bytes, or bytes on disk with `by_alloc`, names in byte order,
/// times, or numbers of files.
pub proof fn law_listings_are_sorted(
    t: Tree,
    v: ChildrenView,
    id: u32,
    by_alloc: bool,
    key: SortKey,
    asc: bool,
    limit: usize,
    i: int,
    j: int,
)
    requires
        t.wf(),
        t.reaches(id),
        listing::lists(t, v, listing::ranked_children(t.nodes@, id as int, by_alloc, key, asc), limit),
        0 <= i < j < v.children@.len(),
    ensures
        ({
            let a = v.children@[i];
            let b = v.children@[j];
            let x = vstd::utf8::encode_utf8(a.name@);
            let y = vstd::utf8::encode_utf8(b.name@);
            &&& key == SortKey::Size && by_alloc && !asc ==> a.alloc >= b.alloc
            &&& key == SortKey::Size && by_alloc && asc ==> a.alloc <= b.alloc
            &&& key == SortKey::Size && !by_alloc && !asc ==> a.size >= b.size
            &&& key == SortKey::Size && !by_alloc && asc ==> a.size <= b.size
            &&& key == SortKey::Name && !asc ==> order::lex_leq(y, x)
            &&& key == SortKey::Name && asc ==> order::lex_leq(x, y)
            &&& key == SortKey::Mtime && !asc ==> a.mtime >= b.mtime
            &&& key == SortKey::Mtime && asc ==> a.mtime <= b.mtime
            &&& key == SortKey::Count && !asc ==> a.files >= b.files
            &&& key == SortKey::Count && asc ==> a.files <= b.files
            &&& key == SortKey::Size && by_alloc && a.alloc == b.alloc ==> order::lex_leq(x, y)
            &&& key == SortKey::Size && !by_alloc && a.size == b.size ==> order::lex_leq(x, y)
            &&& key == SortKey::Mtime && a.mtime == b.mtime ==> order::lex_leq(x, y)
            &&& key == SortKey::Count && a.files == b.files ==> order::lex_leq(x, y)
        }),
{
    lemma_ranked(t, id, by_alloc, key, asc);
    let ids = listing::ranked_children(t.nodes@, id as int, by_alloc, key, asc);
    assert(crate::tree::paths::shows(t, v.children@[i], ids[i]));
    assert(crate::tree::paths::shows(t, v.children@[j], ids[j]));
    assert(listing::listed_first(t.nodes@, by_alloc, key, asc, ids[i], ids[j]));
    order::lemma_lex_total(listing::name_bytes(t.nodes@, ids[i]), listing::name_bytes(t.nodes@, ids[j]));
}

/// A child is left out only if `limit` others are listed, and none of them comes
/// after it in what was asked for.
pub proof fn law_only_the_last_are_left_out(
    t: Tree,
    v: ChildrenView,
    id: u32,
    by_alloc: bool,
    key: SortKey,
    asc: bool,
    limit: usize,
    c: u32,
    k: int,
)
    requires
        t.wf(),
        t.reaches(id),
        listing::lists(t, v, listing::ranked_children(t.nodes@, id as int, by_alloc, key, asc), limit),
        t.nodes@[id as int].children@.contains(c),
        forall|j: int| 0 <= j < v.children@.len() ==> (#[trigger] v.children@[j]).id != c,
        0 <= k < v.children@.len(),
    ensures
        v.children@.len() == limit,
        ({
            let a = v.children@[k];
            let n = t.nodes@[c as int];
            &&& key == SortKey::Size && by_alloc && !asc ==> a.alloc >= n.total_alloc
            &&& key == SortKey::Size && by_alloc && asc ==> a.alloc <= n.total_alloc
            &&& key == SortKey::Size && !by_alloc && !asc ==> a.size >= n.total_size
            &&& key == SortKey::Size && !by_alloc && asc ==> a.size <= n.total_size
            &&& key == SortKey::Mtime && !asc ==> a.mtime >= n.mtime
            &&& key == SortKey::Mtime && asc ==> a.mtime <= n.mtime
            &&& key == SortKey::Count && !asc ==> a.files >= n.files
            &&& key == SortKey::Count && asc ==> a.files <= n.files
            &&& key == SortKey::Name && !asc ==> order::lex_leq(
                vstd::utf8::encode_utf8(n.name@),
                vstd::utf8::encode_utf8(a.name@),
            )
            &&& key == SortKey::Name && asc ==> order::lex_leq(
                vstd::utf8::encode_utf8(a.name@),
                vstd::utf8::encode_utf8(n.name@),
            )
        }),
{
    lemma_ranked(t, id, by_alloc, key, asc);
    let kids = t.nodes@[id as int].children@;
    let ids = listing::ranked_children(t.nodes@, id as int, by_alloc, key, asc);
    order::lemma_same_items(kids, ids);
    assert(ids.contains(c));
    let p = ids.index_of(c);
    if p < v.children@.len() {
        assert(crate::tree::paths::shows(t, v.children@[p], ids[p]));
    }
    assert(crate::tree::paths::shows(t, v.children@[k], ids[k]));
    assert(listing::listed_first(t.nodes@, by_alloc, key, asc, ids[k], ids[p]));
    order::lemma_lex_total(listing::name_bytes(t.nodes@, ids[k]), listing::name_bytes(t.nodes@, ids[p]));
}

/// What is listed and what is left out make up the directory: in bytes, in bytes
/// on disk and in number.
pub proof fn law_the_rest_is_summed_up(
    t: Tree,
    v: ChildrenView,
    id: u32,
    by_alloc: bool,
    key: SortKey,
    asc: bool,
    limit: usize,
)
    requires
        t.wf(),
        t.reaches(id),
        listing::lists(t, v, listing::ranked_children(t.nodes@, id as int, by_alloc, key, asc), limit),
    ensures
        sums::total(v.children@, |e: Entry| e.size as int) + v.other.size == sums::total(
            t.nodes@[id as int].children@,
            |i: u32| t.nodes@[i as int].total_size as int,
        ),
        sums::total(v.children@, |e: Entry| e.alloc as int) + v.other.alloc == sums::total(
            t.nodes@[id as int].children@,
            |i: u32| t.nodes@[i as int].total_alloc as int,
        ),
        v.children@.len() + v.other.count == t.nodes@[id as int].children@.len(),
{
    lemma_ranked(t, id, by_alloc, key, asc);
    let kids = t.nodes@[id as int].children@;
    let ids = listing::ranked_children(t.nodes@, id as int, by_alloc, key, asc);
    let n = listing::cut(ids.len(), limit);
    let size = |i: u32| t.nodes@[i as int].total_size as int;
    let alloc = |i: u32| t.nodes@[i as int].total_alloc as int;
    order::lemma_same_items(kids, ids);
    sums::lemma_total_permuted(ids, kids, size);
    sums::lemma_total_permuted(ids, kids, alloc);
    let head = ids.take(n);
    let tail = ids.skip(n);
    assert(ids =~= head + tail);
    sums::lemma_total_concat(head, tail, size);
    sums::lemma_total_concat(head, tail, alloc);
    lemma_shares_are_sums(t.nodes@, tail);
    assert forall|k: int| 0 <= k < v.children@.len() implies (#[trigger] v.children@[k]).size as int == size(head[k])
        && v.children@[k].alloc as int == alloc(head[k]) by {
        assert(crate::tree::paths::shows(t, v.children@[k], ids[k]));
    }
    sums::lemma_total_same(v.children@, head, |e: Entry| e.size as int, size);
    sums::lemma_total_same(v.children@, head, |e: Entry| e.alloc as int, alloc);
}

} // verus!
