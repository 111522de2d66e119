//! What the totals per extension say of the files, in terms of their sizes.

use vstd::prelude::*;

use crate::order;
use crate::sums;
use crate::text;
use crate::tree;
use crate::tree::extensions;
use crate::tree::extensions::ExtStat;
use crate::tree::visit;
use crate::tree::Tree;

verus! {

/// The extension of node `i` as text; empty where it has none.
pub open spec fn type_of(t: Tree, i: u32) -> Seq<char> {
    if t.nodes@[i as int].ext < t.exts@.len() {
        t.exts@[t.nodes@[i as int].ext as int]@
    } else {
        Seq::empty()
    }
}

/// The sizes of all types add up to the sizes of everything under the node that
/// is not a directory, and so do their bytes on disk; each of these counts once.
pub proof fn law_types_add_up(t: Tree, id: u32, r: Seq<ExtStat>)
    requires
        t.wf(),
        t.holds(id),
        extensions::types_of(t, id, r),
    ensures
        sums::total(r, |e: ExtStat| e.size as int) == sums::total(
            visit::leaves(t.nodes@, id as int),
            |i: u32| t.nodes@[i as int].self_size as int,
        ),
        sums::total(r, |e: ExtStat| e.alloc as int) == sums::total(
            visit::leaves(t.nodes@, id as int),
            |i: u32| t.nodes@[i as int].self_alloc as int,
        ),
        sums::total(r, |e: ExtStat| e.count as int) == visit::leaves(t.nodes@, id as int).len(),
{
    let files = visit::leaves(t.nodes@, id as int);
    extensions::law_types_cover_all_files(t, id, r);
    sums::lemma_total_same(
        files,
        files,
        extensions::size_in(t.nodes@),
        |i: u32| t.nodes@[i as int].self_size as int,
    );
    sums::lemma_total_same(
        files,
        files,
        extensions::alloc_in(t.nodes@),
        |i: u32| t.nodes@[i as int].self_alloc as int,
    );
}

/// Two slots that stand for the same text are the same slot.
proof fn lemma_slot_by_text(t: Tree, i: u32, s: int)
    requires
        t.wf(),
        0 <= s <= t.exts@.len(),
    ensures
        (extensions::slot(t, i) == s) == (type_of(t, i) == extensions::slot_text(t, s)),
        type_of(t, i) == extensions::slot_text(t, extensions::slot(t, i)),
{
    let a = extensions::slot(t, i);
    if a < t.exts@.len() {
        assert(t.exts@[a]@.len() > 0);
        assert(t.ext_ids@[t.exts@[a]@] == a);
    }
    if s < t.exts@.len() {
        assert(t.exts@[s]@.len() > 0);
        assert(t.ext_ids@[t.exts@[s]@] == s);
    }
}

proof fn lemma_slots(t: Tree, id: u32)
    requires
        t.wf(),
    ensures
        ({
            let files = visit::leaves(t.nodes@, id as int);
            let slots = extensions::ranked_slots(t, files);
            &&& forall|k: int|
                0 <= k < slots.len() ==> 0 <= (#[trigger] slots[k]) <= t.exts@.len() && extensions::of_slot(
                    t,
                    files,
                    slots[k] as int,
                ).len() > 0
            &&& forall|s: u32|
                s <= t.exts@.len() && (#[trigger] extensions::of_slot(t, files, s as int)).len() > 0 ==> slots.contains(s)
            &&& forall|i: int, j: int|
                0 <= i < j < slots.len() ==> extensions::slot_first(t, files, #[trigger] slots[i], #[trigger] slots[j])
        }),
{
    let files = visit::leaves(t.nodes@, id as int);
    let n = (t.exts@.len() + 1) as nat;
    let used = extensions::used_slots(t, files, n);
    let slots = extensions::ranked_slots(t, files);
    let leq = extensions::slot_order(t, files);
    extensions::lemma_slot_order(t, files);
    used.lemma_sort_by_ensures(leq);
    order::lemma_same_items(used, slots);
    extensions::lemma_used_below(t, files, n);
    lemma_used(t, files, n);
    assert forall|k: int| 0 <= k < slots.len() implies 0 <= (#[trigger] slots[k]) <= t.exts@.len() && extensions::of_slot(
        t,
        files,
        slots[k] as int,
    ).len() > 0 by {
        assert(used.contains(slots[k]));
        let j = used.index_of(slots[k]);
        assert(used[j] < n);
    }
    assert forall|i: int, j: int| 0 <= i < j < slots.len() implies extensions::slot_first(
        t,
        files,
        #[trigger] slots[i],
        #[trigger] slots[j],
    ) by {
        assert(leq(slots[i], slots[j]));
    }
}

proof fn lemma_used(t: Tree, ids: Seq<u32>, n: nat)
    requires
        n <= u32::MAX,
    ensures
        forall|k: int|
            0 <= k < extensions::used_slots(t, ids, n).len() ==> extensions::of_slot(
                t,
                ids,
                (#[trigger] extensions::used_slots(t, ids, n)[k]) as int,
            ).len() > 0,
        forall|s: u32|
            s < n && (#[trigger] extensions::of_slot(t, ids, s as int)).len() > 0 ==> extensions::used_slots(t, ids, n).contains(
                s,
            ),
    decreases n,
{
    if n > 0 {
        let m = (n - 1) as nat;
        lemma_used(t, ids, m);
        let before = extensions::used_slots(t, ids, m);
        let now = extensions::used_slots(t, ids, n);
        assert forall|k: int| 0 <= k < now.len() implies extensions::of_slot(t, ids, (#[trigger] now[k]) as int).len() > 0 by {
            if k < before.len() {
                assert(now[k] == before[k]);
            }
        }
        assert forall|s: u32| s < n && (#[trigger] extensions::of_slot(t, ids, s as int)).len() > 0 implies now.contains(s) by {
            if s < m {
                assert(before.contains(s));
                let k = before.index_of(s);
                assert(now[k] == s);
            } else {
                assert(now[before.len() as int] == s);
            }
        }
    }
}

/// A type sums up the files with its extension, and no others: their sizes,
/// their bytes on disk and how many they are. No type is listed without a file.
pub proof fn law_types_sum_up_their_files(t: Tree, id: u32, r: Seq<ExtStat>, k: int)
    requires
        t.wf(),
        t.holds(id),
        extensions::types_of(t, id, r),
        0 <= k < r.len(),
    ensures
        ({
            let files = visit::leaves(t.nodes@, id as int).filter(|i: u32| type_of(t, i) == r[k].ext@);
            &&& r[k].size == sums::total(files, |i: u32| t.nodes@[i as int].self_size as int)
            &&& r[k].alloc == sums::total(files, |i: u32| t.nodes@[i as int].self_alloc as int)
            &&& r[k].count == files.len()
            &&& r[k].count > 0
        }),
{
    let all = visit::leaves(t.nodes@, id as int);
    let s = extensions::ranked_slots(t, all)[k] as int;
    let p = |i: u32| type_of(t, i) == r[k].ext@;
    let size = |i: u32| t.nodes@[i as int].self_size as int;
    let alloc = |i: u32| t.nodes@[i as int].self_alloc as int;
    lemma_slots(t, id);
    assert(extensions::sums_up(t, all, r[k], s));
    assert forall|i: int| 0 <= i < all.len() implies p(#[trigger] all[i]) == extensions::in_slot(t, s)(all[i]) by {
        lemma_slot_by_text(t, all[i], s);
    }
    order::lemma_filter_agrees(all, p, extensions::in_slot(t, s));
    let files = all.filter(p);
    sums::lemma_total_same(files, files, extensions::size_in(t.nodes@), size);
    sums::lemma_total_same(files, files, extensions::alloc_in(t.nodes@), alloc);
}

/// The extension of every file under the node is listed.
pub proof fn law_every_type_is_listed(t: Tree, id: u32, r: Seq<ExtStat>, f: u32)
    requires
        t.wf(),
        t.holds(id),
        extensions::types_of(t, id, r),
        visit::leaves(t.nodes@, id as int).contains(f),
    ensures
        exists|k: int| 0 <= k < r.len() && (#[trigger] r[k]).ext@ == type_of(t, f),
{
    let all = visit::leaves(t.nodes@, id as int);
    let slots = extensions::ranked_slots(t, all);
    let s = extensions::slot(t, f) as u32;
    lemma_slots(t, id);
    lemma_slot_by_text(t, f, s as int);
    let i = all.index_of(f);
    assert(extensions::in_slot(t, s as int)(all[i]));
    all.lemma_filter_contains(extensions::in_slot(t, s as int), i);
    assert(extensions::of_slot(t, all, s as int).contains(f));
    assert(slots.contains(s));
    let k = slots.index_of(s);
    assert(extensions::sums_up(t, all, r[k], s as int));
}

/// The types with the most bytes come first; among equals they stand in the byte
/// order of their names.
pub proof fn law_larger_types_come_first(t: Tree, id: u32, r: Seq<ExtStat>, i: int, j: int)
    requires
        t.wf(),
        t.holds(id),
        extensions::types_of(t, id, r),
        0 <= i < j < r.len(),
    ensures
        r[i].size >= r[j].size,
        r[i].size == r[j].size ==> order::lex_leq(
            vstd::utf8::encode_utf8(r[i].ext@),
            vstd::utf8::encode_utf8(r[j].ext@),
        ),
{
    let all = visit::leaves(t.nodes@, id as int);
    let slots = extensions::ranked_slots(t, all);
    lemma_slots(t, id);
    assert(extensions::sums_up(t, all, r[i], slots[i] as int));
    assert(extensions::sums_up(t, all, r[j], slots[j] as int));
    assert(extensions::slot_first(t, all, slots[i], slots[j]));
    order::lemma_lex_total(extensions::slot_bytes(t, slots[i]), extensions::slot_bytes(t, slots[j]));
}

/// A character that an extension may be made of: an ASCII letter or digit, an
/// underscore or a dash.
pub open spec fn plain(c: char) -> bool {
    ||| 'a' <= c <= 'z'
    ||| 'A' <= c <= 'Z'
    ||| '0' <= c <= '9'
    ||| c == '_'
    ||| c == '-'
}

/// The extension of a name is what follows its last dot, in lower case, if that
/// is one to sixteen plain characters and anything stands before the dot.
pub proof fn law_extensions_follow_the_last_dot(stem: Seq<char>, ext: Seq<char>)
    requires
        stem.len() > 0,
        1 <= ext.len() <= 16,
        forall|i: int| 0 <= i < ext.len() ==> plain(#[trigger] ext[i]),
    ensures
        tree::extension(stem.push('.') + ext) == Some(text::lower_all(ext)),
{
    let name = stem.push('.') + ext;
    assert forall|i: int| 0 <= i < ext.len() implies #[trigger] ext[i] != '.' by {
        assert(plain(ext[i]));
    }
    lemma_last_dot(stem, ext);
    assert(name.skip((stem.len() + 1) as int) =~= ext);
    assert forall|i: int| 0 <= i < ext.len() implies tree::ext_char(#[trigger] ext[i]) by {
        assert(plain(ext[i]));
    }
}

/// A name has no extension if it has no dot, or only one in front, or if what
/// follows the last dot is empty, longer than sixteen characters or not plain.
pub proof fn law_other_names_have_no_extension(stem: Seq<char>, ext: Seq<char>, k: int)
    requires
        forall|i: int| 0 <= i < ext.len() ==> #[trigger] ext[i] != '.',
    ensures
        tree::extension(ext) is None,
        tree::extension(seq!['.'] + ext) is None,
        ext.len() == 0 || ext.len() > 16 ==> tree::extension(stem.push('.') + ext) is None,
        0 <= k < ext.len() && !plain(ext[k]) ==> tree::extension(stem.push('.') + ext) is None,
{
    let name = stem.push('.') + ext;
    lemma_last_dot(stem, ext);
    assert(name.skip((stem.len() + 1) as int) =~= ext);
    lemma_no_dot(ext);
    assert(seq!['.'] + ext =~= Seq::<char>::empty().push('.') + ext);
    lemma_last_dot(Seq::empty(), ext);
    if 0 <= k < ext.len() && !plain(ext[k]) {
        assert(!tree::ext_char(ext[k]));
    }
}

proof fn lemma_no_dot(s: Seq<char>)
    requires
        forall|i: int| 0 <= i < s.len() ==> #[trigger] s[i] != '.',
    ensures
        tree::last_dot(s) == -1,
    decreases s.len(),
{
    if s.len() > 0 {
        let front = s.drop_last();
        assert forall|i: int| 0 <= i < front.len() implies #[trigger] front[i] != '.' by {
            assert(front[i] == s[i]);
        }
        assert(s[s.len() - 1] != '.');
        lemma_no_dot(front);
    }
}

proof fn lemma_last_dot(stem: Seq<char>, ext: Seq<char>)
    requires
        forall|i: int| 0 <= i < ext.len() ==> #[trigger] ext[i] != '.',
    ensures
        tree::last_dot(stem.push('.') + ext) == stem.len(),
    decreases ext.len(),
{
    let name = stem.push('.') + ext;
    if ext.len() == 0 {
        assert(name =~= stem.push('.'));
    } else {
        let front = ext.drop_last();
        assert forall|i: int| 0 <= i < front.len() implies #[trigger] front[i] != '.' by {
            assert(front[i] == ext[i]);
        }
        assert(name.last() == ext[ext.len() - 1]);
        assert(name.drop_last() =~= stem.push('.') + front);
        lemma_last_dot(stem, front);
    }
}

} // verus!
