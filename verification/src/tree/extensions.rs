//! Totals per file extension.

pub mod laws;

use vstd::prelude::*;

use crate::order;
use crate::order::Ranking;
use crate::sums;
use crate::tree::aggregate;
use crate::tree::model;
use crate::tree::visit;
use crate::tree::Kind;
use crate::tree::Node;
use crate::tree::Tree;

verus! {

pub struct ExtStat {
    pub ext: String,
    pub size: u64,
    pub alloc: u64,
    pub count: u64,
}

/// What has been counted for one extension.
struct ExtAcc {
    size: u64,
    alloc: u64,
    count: u64,
}

/// The slot that node `i` counts for: that of its extension, or one past the
/// last for files without one.
pub open spec fn slot(t: Tree, i: u32) -> int {
    if t.nodes@[i as int].ext < t.exts@.len() {
        t.nodes@[i as int].ext as int
    } else {
        t.exts@.len() as int
    }
}

pub open spec fn in_slot(t: Tree, s: int) -> spec_fn(u32) -> bool {
    |i: u32| slot(t, i) == s
}

/// The files of `ids` that count for slot `s`.
pub open spec fn of_slot(t: Tree, ids: Seq<u32>, s: int) -> Seq<u32> {
    ids.filter(in_slot(t, s))
}

pub open spec fn size_in(nodes: Seq<Node>) -> spec_fn(u32) -> int {
    |i: u32| nodes[i as int].self_size as int
}

pub open spec fn alloc_in(nodes: Seq<Node>) -> spec_fn(u32) -> int {
    |i: u32| nodes[i as int].self_alloc as int
}

/// The sizes of these nodes can be summed up.
pub open spec fn own_sizes_fit(nodes: Seq<Node>, ids: Seq<u32>) -> bool {
    sums::total(ids, size_in(nodes)) <= u64::MAX && sums::total(ids, alloc_in(nodes)) <= u64::MAX
}

/// The extension of a slot; empty for files without one.
pub open spec fn slot_text(t: Tree, s: int) -> Seq<char> {
    if 0 <= s < t.exts@.len() {
        t.exts@[s]@
    } else {
        Seq::empty()
    }
}

/// The slots below `n` that any of `ids` counts for.
pub open spec fn used_slots(t: Tree, ids: Seq<u32>, n: nat) -> Seq<u32>
    decreases n,
{
    if n == 0 {
        Seq::empty()
    } else {
        let before = used_slots(t, ids, (n - 1) as nat);
        if of_slot(t, ids, n - 1).len() > 0 {
            before.push((n - 1) as u32)
        } else {
            before
        }
    }
}

pub open spec fn slot_size(t: Tree, ids: Seq<u32>, s: int) -> int {
    sums::total(of_slot(t, ids, s), size_in(t.nodes@))
}

pub open spec fn slot_alloc(t: Tree, ids: Seq<u32>, s: int) -> int {
    sums::total(of_slot(t, ids, s), alloc_in(t.nodes@))
}

pub open spec fn slot_bytes(t: Tree, s: u32) -> Seq<u8> {
    vstd::utf8::encode_utf8(slot_text(t, s as int))
}

/// Slot `a` comes before slot `b`: the larger total first, and among equals in
/// the byte order of the extensions.
pub open spec fn slot_first(t: Tree, ids: Seq<u32>, a: u32, b: u32) -> bool {
    let x = slot_size(t, ids, a as int);
    let y = slot_size(t, ids, b as int);
    if x != y {
        x > y
    } else if slot_bytes(t, a) == slot_bytes(t, b) {
        a <= b
    } else {
        order::lex_leq(slot_bytes(t, a), slot_bytes(t, b))
    }
}

pub open spec fn slot_order(t: Tree, ids: Seq<u32>) -> spec_fn(u32, u32) -> bool {
    |a: u32, b: u32| slot_first(t, ids, a, b)
}

/// The used slots, in order.
pub open spec fn ranked_slots(t: Tree, ids: Seq<u32>) -> Seq<u32> {
    used_slots(t, ids, (t.exts@.len() + 1) as nat).sort_by(slot_order(t, ids))
}

/// `r` are the totals of the files under `id`, one for each extension.
pub open spec fn types_of(t: Tree, id: u32, r: Seq<ExtStat>) -> bool {
    let files = visit::leaves(t.nodes@, id as int);
    let slots = ranked_slots(t, files);
    &&& r.len() == slots.len()
    &&& forall|k: int| 0 <= k < r.len() ==> sums_up(t, files, #[trigger] r[k], slots[k] as int)
}

/// `e` is the total of slot `s` over `ids`.
pub open spec fn sums_up(t: Tree, ids: Seq<u32>, e: ExtStat, s: int) -> bool {
    &&& e.ext@ == slot_text(t, s)
    &&& e.size == slot_size(t, ids, s)
    &&& e.alloc == slot_alloc(t, ids, s)
    &&& e.count == of_slot(t, ids, s).len()
}

pub proof fn lemma_slot_order(t: Tree, ids: Seq<u32>)
    ensures
        vstd::relations::total_ordering(slot_order(t, ids)),
{
    let leq = slot_order(t, ids);
    assert forall|a: u32, b: u32| #[trigger] leq(a, b) || leq(b, a) by {
        order::lemma_lex_total(slot_bytes(t, a), slot_bytes(t, b));
    }
    assert forall|a: u32, b: u32| #[trigger] leq(a, b) && #[trigger] leq(b, a) implies a == b by {
        order::lemma_lex_total(slot_bytes(t, a), slot_bytes(t, b));
    }
    assert forall|a: u32, b: u32, c: u32| #[trigger] leq(a, b) && #[trigger] leq(b, c) implies leq(a, c) by {
        let x = slot_bytes(t, a);
        let y = slot_bytes(t, b);
        let z = slot_bytes(t, c);
        order::lemma_lex_total(x, y);
        order::lemma_lex_total(y, z);
        order::lemma_lex_total(x, z);
        if order::lex_leq(x, y) && order::lex_leq(y, z) {
            order::lemma_lex_transitive(x, y, z);
        }
    }
    assert forall|a: u32| #[trigger] leq(a, a) by {
        assert(leq(a, a) || leq(a, a));
    }
}

pub proof fn lemma_used_below(t: Tree, ids: Seq<u32>, n: nat)
    requires
        n <= u32::MAX,
    ensures
        forall|k: int| 0 <= k < used_slots(t, ids, n).len() ==> #[trigger] used_slots(t, ids, n)[k] < n,
    decreases n,
{
    if n > 0 {
        lemma_used_below(t, ids, (n - 1) as nat);
        let before = used_slots(t, ids, (n - 1) as nat);
        assert forall|k: int| 0 <= k < used_slots(t, ids, n).len() implies #[trigger] used_slots(t, ids, n)[k] < n by {
            if k < before.len() {
                assert(used_slots(t, ids, n)[k] == before[k]);
            }
        }
    }
}

/// What has been counted is what the files so far add up to.
spec fn counted(t: Tree, ids: Seq<u32>, acc: Seq<ExtAcc>) -> bool {
    &&& acc.len() == t.exts@.len() + 1
    &&& forall|s: int|
        0 <= s < acc.len() ==> (#[trigger] acc[s]).size == slot_size(t, ids, s) && acc[s].alloc == slot_alloc(t, ids, s)
            && acc[s].count == of_slot(t, ids, s).len()
}

/// Ranks slots by what was counted for them.
struct SlotOrder<'a> {
    tree: &'a Tree,
    acc: &'a Vec<ExtAcc>,
    ids: Ghost<Seq<u32>>,
}

impl<'a> Ranking<u32> for SlotOrder<'a> {
    closed spec fn order(&self) -> spec_fn(u32, u32) -> bool {
        slot_order(*self.tree, self.ids@)
    }

    closed spec fn covers(&self, x: u32) -> bool {
        &&& counted(*self.tree, self.ids@, self.acc@)
        &&& x < self.acc@.len()
    }

    proof fn order_is_total(&self) {
        lemma_slot_order(*self.tree, self.ids@);
    }

    fn leads(&self, a: &u32, b: &u32) -> bool {
        let x: u64 = self.acc[*a as usize].size;
        let y: u64 = self.acc[*b as usize].size;
        if x != y {
            return x > y;
        }
        let p = self.tree.slot_name(*a).as_bytes();
        let q = self.tree.slot_name(*b).as_bytes();
        proof {
            order::lemma_lex_total(p@, q@);
        }
        let up = order::bytes_leq(p, q);
        let down = order::bytes_leq(q, p);
        if up && down {
            *a <= *b
        } else {
            up
        }
    }
}

impl Tree {
    fn slot_name(&self, s: u32) -> (r: &str)
        ensures
            r@ == slot_text(*self, s as int),
    {
        if (s as usize) < self.exts.len() {
            self.exts[s as usize].as_str()
        } else {
            proof {
                reveal_strlit("");
                assert(""@ =~= Seq::<char>::empty());
            }
            ""
        }
    }

    /// Counts the files of `ids` by extension.
    fn count_by_ext(&self, ids: &Vec<u32>) -> (acc: Vec<ExtAcc>)
        requires
            self.wf(),
            forall|k: int| 0 <= k < ids@.len() ==> #[trigger] ids@[k] < self.nodes@.len(),
            own_sizes_fit(self.nodes@, ids@),
        ensures
            counted(*self, ids@, acc@),
    {
        let slots: usize = self.exts.len();
        let mut acc: Vec<ExtAcc> = Vec::new();
        let mut k: usize = 0;
        assert(self.exts@.len() < self.nodes@.len());
        assert(self.nodes@.len() == self.nodes.len());
        while k < slots + 1
            invariant
                k <= slots + 1,
                slots < usize::MAX,
                acc@.len() == k,
                forall|s: int| 0 <= s < k ==> (#[trigger] acc@[s]).size == 0 && acc@[s].alloc == 0 && acc@[s].count == 0,
            decreases slots + 1 - k,
        {
            acc.push(ExtAcc { size: 0, alloc: 0, count: 0 });
            k = k + 1;
        }
        let ghost size = size_in(self.nodes@);
        let ghost alloc = alloc_in(self.nodes@);
        proof {
            reveal(Seq::filter);
            assert(ids@.take(0) =~= Seq::<u32>::empty());
        }
        let mut i: usize = 0;
        while i < ids.len()
            invariant
                self.wf(),
                i <= ids@.len(),
                slots == self.exts@.len(),
                size == size_in(self.nodes@),
                alloc == alloc_in(self.nodes@),
                forall|k: int| 0 <= k < ids@.len() ==> #[trigger] ids@[k] < self.nodes@.len(),
                own_sizes_fit(self.nodes@, ids@),
                counted(*self, ids@.take(i as int), acc@),
            decreases ids.len() - i,
        {
            let id: u32 = ids[i];
            let n = &self.nodes[id as usize];
            let s: usize = if (n.ext as usize) < slots {
                n.ext as usize
            } else {
                slots
            };
            let ghost seen = ids@.take(i as int);
            let ghost now = ids@.take(i + 1);
            let ghost before = acc@;
            proof {
                assert(now =~= seen.push(id));
                assert(slot(*self, id) == s);
                sums::lemma_total_part(ids@, i + 1, size);
                sums::lemma_total_part(ids@, i + 1, alloc);
                sums::lemma_total_filter(now, in_slot(*self, s as int), size);
                sums::lemma_total_filter(now, in_slot(*self, s as int), alloc);
                now.lemma_filter_len(in_slot(*self, s as int));
                assert forall|x: int| 0 <= x < before.len() implies of_slot(*self, now, x) == (if x == s {
                    of_slot(*self, seen, x).push(id)
                } else {
                    of_slot(*self, seen, x)
                }) by {
                    reveal(Seq::filter);
                    assert(now.drop_last() =~= seen);
                }
                sums::lemma_total_push(of_slot(*self, seen, s as int), id, size);
                sums::lemma_total_push(of_slot(*self, seen, s as int), id, alloc);
                assert(of_slot(*self, now, s as int) == of_slot(*self, seen, s as int).push(id));
                assert(size(id) == n.self_size && alloc(id) == n.self_alloc);
                assert(slot_size(*self, now, s as int) <= u64::MAX && slot_alloc(*self, now, s as int) <= u64::MAX);
                assert(before[s as int].size == slot_size(*self, seen, s as int));
            }
            acc[s].size = acc[s].size + n.self_size;
            acc[s].alloc = acc[s].alloc + n.self_alloc;
            acc[s].count = acc[s].count + 1;
            proof {
                assert forall|x: int| 0 <= x < acc@.len() implies (#[trigger] acc@[x]).size == slot_size(*self, now, x)
                    && acc@[x].alloc == slot_alloc(*self, now, x) && acc@[x].count == of_slot(*self, now, x).len() by {
                    assert(before[x].size == slot_size(*self, seen, x));
                }
            }
            i = i + 1;
        }
        assert(ids@.take(i as int) =~= ids@);
        acc
    }

    /// Aggregate the whole subtree of `id` by file extension.
    pub fn by_extension(&self, id: u32) -> (r: Vec<ExtStat>)
        requires
            self.wf(),
            self.holds(id),
            own_sizes_fit(self.nodes@, visit::leaves(self.nodes@, id as int)),
        ensures
            types_of(*self, id, r@),
    {
        let files = self.files_under(id);
        let acc = self.count_by_ext(&files);
        let ghost ids = files@;
        let count: usize = acc.len();
        let mut used: Vec<u32> = Vec::new();
        let mut s: usize = 0;
        while s < count
            invariant
                s <= count,
                count == acc@.len(),
                count <= u32::MAX,
                ids == files@,
                counted(*self, ids, acc@),
                used@ == used_slots(*self, ids, s as nat),
            decreases count - s,
        {
            if acc[s].count > 0 {
                used.push(s as u32);
            }
            s = s + 1;
        }
        let ghost base = used@;
        let ranking = SlotOrder { tree: self, acc: &acc, ids: Ghost(ids) };
        proof {
            lemma_used_below(*self, ids, count as nat);
            assert forall|k: int| 0 <= k < used@.len() implies ranking.covers(#[trigger] used@[k]) by {}
        }
        let used = order::rank(&ranking, used);
        proof {
            lemma_slot_order(*self, ids);
            order::law_ranking_is_unique(base, used@, ranking.order());
            order::lemma_same_items(base, used@);
            assert forall|k: int| 0 <= k < used@.len() implies #[trigger] used@[k] < count by {
                assert(base.contains(used@[k]));
            }
        }
        let mut out: Vec<ExtStat> = Vec::new();
        let mut k: usize = 0;
        while k < used.len()
            invariant
                k <= used@.len(),
                count == acc@.len(),
                counted(*self, ids, acc@),
                forall|j: int| 0 <= j < used@.len() ==> #[trigger] used@[j] < count,
                out@.len() == k,
                forall|j: int| 0 <= j < k ==> sums_up(*self, ids, #[trigger] out@[j], used@[j] as int),
            decreases used.len() - k,
        {
            let at: u32 = used[k];
            let a = &acc[at as usize];
            out.push(ExtStat { ext: self.slot_name(at).to_owned(), size: a.size, alloc: a.alloc, count: a.count });
            k = k + 1;
        }
        out
    }
}

spec fn slots_upto(t: Tree, n: int) -> spec_fn(u32) -> bool {
    |i: u32| slot(t, i) < n
}

proof fn lemma_filter_twice(t: Tree, ids: Seq<u32>, n: int)
    ensures
        ids.filter(slots_upto(t, n + 1)).filter(in_slot(t, n)) == of_slot(t, ids, n),
        ids.filter(slots_upto(t, n + 1)).filter(slots_upto(t, n)) == ids.filter(slots_upto(t, n)),
    decreases ids.len(),
{
    reveal(Seq::filter);
    if ids.len() > 0 {
        let front = ids.drop_last();
        lemma_filter_twice(t, front, n);
        let some = front.filter(slots_upto(t, n + 1));
        assert(some.push(ids.last()).drop_last() =~= some);
    }
}

proof fn lemma_used_sum(t: Tree, ids: Seq<u32>, n: nat, f: spec_fn(u32) -> int, g: spec_fn(u32) -> int)
    requires
        n <= u32::MAX,
        forall|s: u32| #[trigger] g(s) == sums::total(of_slot(t, ids, s as int), f),
    ensures
        sums::total(used_slots(t, ids, n), g) == sums::total(ids.filter(slots_upto(t, n as int)), f),
    decreases n,
{
    reveal(Seq::filter);
    if n == 0 {
        lemma_nothing_below(t, ids);
    } else {
        let m = (n - 1) as nat;
        lemma_used_sum(t, ids, m, f, g);
        let some = ids.filter(slots_upto(t, n as int));
        lemma_filter_twice(t, ids, m as int);
        assert forall|k: int| 0 <= k < some.len() implies in_slot(t, m as int)(#[trigger] some[k]) != slots_upto(t, m as int)(
            some[k],
        ) by {
            ids.lemma_filter_pred(slots_upto(t, n as int), k);
        }
        sums::lemma_total_split(some, in_slot(t, m as int), slots_upto(t, m as int), f);
        assert(g(m as u32) == sums::total(of_slot(t, ids, m as int), f));
        if of_slot(t, ids, m as int).len() > 0 {
            sums::lemma_total_push(used_slots(t, ids, m), m as u32, g);
        }
    }
}

proof fn lemma_nothing_below(t: Tree, ids: Seq<u32>)
    ensures
        ids.filter(slots_upto(t, 0)).len() == 0,
    decreases ids.len(),
{
    reveal(Seq::filter);
    if ids.len() > 0 {
        lemma_nothing_below(t, ids.drop_last());
    }
}

proof fn lemma_everything_below(t: Tree, ids: Seq<u32>)
    ensures
        ids.filter(slots_upto(t, (t.exts@.len() + 1) as int)) == ids,
    decreases ids.len(),
{
    reveal(Seq::filter);
    if ids.len() > 0 {
        lemma_everything_below(t, ids.drop_last());
        assert(ids.drop_last().push(ids.last()) =~= ids);
    }
}

/// The totals per extension add up to the files under `id`: no file is left
/// out and none counts twice.
pub proof fn law_types_cover_all_files(t: Tree, id: u32, r: Seq<ExtStat>)
    requires
        t.wf(),
        t.holds(id),
        types_of(t, id, r),
    ensures
        sums::total(r, |e: ExtStat| e.size as int) == sums::total(visit::leaves(t.nodes@, id as int), size_in(t.nodes@)),
        sums::total(r, |e: ExtStat| e.alloc as int) == sums::total(visit::leaves(t.nodes@, id as int), alloc_in(t.nodes@)),
        sums::total(r, |e: ExtStat| e.count as int) == visit::leaves(t.nodes@, id as int).len(),
{
    let files = visit::leaves(t.nodes@, id as int);
    let n = (t.exts@.len() + 1) as nat;
    let base = used_slots(t, files, n);
    let slots = ranked_slots(t, files);
    let one = |i: u32| 1int;
    lemma_slot_order(t, files);
    base.lemma_sort_by_ensures(slot_order(t, files));
    lemma_everything_below(t, files);
    let size = |s: u32| slot_size(t, files, s as int);
    let alloc = |s: u32| slot_alloc(t, files, s as int);
    let count = |s: u32| sums::total(of_slot(t, files, s as int), one);
    lemma_used_sum(t, files, n, size_in(t.nodes@), size);
    lemma_used_sum(t, files, n, alloc_in(t.nodes@), alloc);
    lemma_used_sum(t, files, n, one, count);
    sums::lemma_total_permuted(base, slots, size);
    sums::lemma_total_permuted(base, slots, alloc);
    sums::lemma_total_permuted(base, slots, count);
    assert forall|k: int| 0 <= k < r.len() implies (#[trigger] r[k]).count as int == count(slots[k]) by {
        lemma_count_is_len(of_slot(t, files, slots[k] as int), one);
    }
    lemma_count_is_len(files, one);
    sums::lemma_total_same(r, slots, |e: ExtStat| e.size as int, size);
    sums::lemma_total_same(r, slots, |e: ExtStat| e.alloc as int, alloc);
    sums::lemma_total_same(r, slots, |e: ExtStat| e.count as int, count);
}

proof fn lemma_used_distinct(t: Tree, ids: Seq<u32>, n: nat)
    requires
        n <= u32::MAX,
    ensures
        used_slots(t, ids, n).no_duplicates(),
    decreases n,
{
    if n > 0 {
        lemma_used_distinct(t, ids, (n - 1) as nat);
        lemma_used_below(t, ids, (n - 1) as nat);
    }
}

/// No extension is listed twice, and neither are the files without one.
pub proof fn law_types_are_distinct(t: Tree, id: u32, r: Seq<ExtStat>)
    requires
        t.wf(),
        types_of(t, id, r),
    ensures
        forall|i: int, j: int| 0 <= i < j < r.len() ==> (#[trigger] r[i]).ext@ != (#[trigger] r[j]).ext@,
{
    broadcast use vstd::seq_lib::group_to_multiset_ensures;
    let files = visit::leaves(t.nodes@, id as int);
    let n = (t.exts@.len() + 1) as nat;
    let used = used_slots(t, files, n);
    let slots = ranked_slots(t, files);
    lemma_used_distinct(t, files, n);
    lemma_used_below(t, files, n);
    lemma_slot_order(t, files);
    used.lemma_sort_by_ensures(slot_order(t, files));
    order::lemma_same_items(used, slots);
    used.lemma_multiset_has_no_duplicates();
    slots.lemma_multiset_has_no_duplicates_conv();
    assert forall|i: int, j: int| 0 <= i < j < r.len() implies (#[trigger] r[i]).ext@ != (#[trigger] r[j]).ext@ by {
        let a = slots[i] as int;
        let b = slots[j] as int;
        assert(sums_up(t, files, r[i], a));
        assert(sums_up(t, files, r[j], b));
        assert(used.contains(slots[i]) && used.contains(slots[j]));
        let x = used.index_of(slots[i]);
        let y = used.index_of(slots[j]);
        assert(used[x] < n && used[y] < n);
        assert(a != b);
        if a < t.exts@.len() {
            assert(t.exts@[a]@.len() > 0);
            assert(t.ext_ids@[t.exts@[a]@] == a);
        }
        if b < t.exts@.len() {
            assert(t.exts@[b]@.len() > 0);
            assert(t.ext_ids@[t.exts@[b]@] == b);
        }
    }
}

proof fn lemma_count_is_len(ids: Seq<u32>, one: spec_fn(u32) -> int)
    requires
        forall|i: u32| #[trigger] one(i) == 1,
    ensures
        sums::total(ids, one) == ids.len(),
    decreases ids.len(),
{
    if ids.len() > 0 {
        lemma_count_is_len(ids.drop_last(), one);
    }
}

/// In a coherent tree the sizes of the files under any node can be summed up.
pub proof fn law_coherent_own_sizes_fit(t: Tree, id: u32)
    requires
        t.wf(),
        t.coherent(),
        t.holds(id),
    ensures
        own_sizes_fit(t.nodes@, visit::leaves(t.nodes@, id as int)),
{
    let all = visit::visits(t.nodes@, id as int);
    aggregate::law_totals_are_subtree_sums(t.nodes@, id as int);
    lemma_visited_sizes(t.nodes@, id as int);
    sums::lemma_total_filter(all, visit::is_leaf(t.nodes@), size_in(t.nodes@));
    sums::lemma_total_filter(all, visit::is_leaf(t.nodes@), alloc_in(t.nodes@));
}

/// What is visited weighs no more than the subtree.
proof fn lemma_visited_sizes(nodes: Seq<Node>, i: int)
    requires
        model::shape(nodes),
        0 <= i < nodes.len(),
    ensures
        sums::total(visit::visits(nodes, i), size_in(nodes)) <= aggregate::weight(nodes, i).size,
        sums::total(visit::visits(nodes, i), alloc_in(nodes)) <= aggregate::weight(nodes, i).alloc,
    decreases nodes.len() - i, nodes[i].children@.len() + 1,
{
    let below = visit::visits_of(nodes, i, nodes[i].children@);
    lemma_visited_below(nodes, i, nodes[i].children@.len() as int);
    assert(nodes[i].children@.take(nodes[i].children@.len() as int) =~= nodes[i].children@);
    let head = seq![i as u32];
    assert(head =~= Seq::<u32>::empty().push(i as u32));
    sums::lemma_total_push(Seq::<u32>::empty(), i as u32, size_in(nodes));
    sums::lemma_total_push(Seq::<u32>::empty(), i as u32, alloc_in(nodes));
    sums::lemma_total_concat(head, below, size_in(nodes));
    sums::lemma_total_concat(head, below, alloc_in(nodes));
    if nodes[i].kind != Kind::Dir {
        assert(forall|k: int| 0 <= k < below.len() ==> size_in(nodes)(#[trigger] below[k]) >= 0);
        assert(forall|k: int| 0 <= k < below.len() ==> alloc_in(nodes)(#[trigger] below[k]) >= 0);
        sums::lemma_total_part(below, below.len() as int, size_in(nodes));
        sums::lemma_total_part(below, below.len() as int, alloc_in(nodes));
        assert(below.take(below.len() as int) =~= below);
    }
}

proof fn lemma_visited_below(nodes: Seq<Node>, i: int, n: int)
    requires
        model::shape(nodes),
        0 <= i < nodes.len(),
        0 <= n <= nodes[i].children@.len(),
    ensures
        ({
            let ids = nodes[i].children@.take(n);
            let below = visit::visits_of(nodes, i, ids);
            &&& sums::total(below, size_in(nodes)) <= aggregate::weights(nodes, i, ids).size
            &&& sums::total(below, alloc_in(nodes)) <= aggregate::weights(nodes, i, ids).alloc
        }),
    decreases nodes.len() - i, n,
{
    if n > 0 {
        let ids = nodes[i].children@.take(n);
        assert(ids.drop_last() =~= nodes[i].children@.take(n - 1));
        lemma_visited_below(nodes, i, n - 1);
        assert(model::listed(nodes, i, nodes[i].children@[n - 1]));
        let c = ids.last() as int;
        lemma_visited_sizes(nodes, c);
        let first = visit::visits(nodes, c);
        let rest = visit::visits_of(nodes, i, ids.drop_last());
        sums::lemma_total_concat(first, rest, size_in(nodes));
        sums::lemma_total_concat(first, rest, alloc_in(nodes));
    }
}

} // verus!
