//! Ranking: a merge sort over any total preorder, and the byte-wise order of
//! strings that names are ranked by.

use vstd::prelude::*;

verus! {

/// A way to rank values of type `T`.
pub trait Ranking<T> {
    /// `order()(a, b)` holds when `a` may stand before `b`.
    spec fn order(&self) -> spec_fn(T, T) -> bool;

    /// The values that `leads` can look at.
    spec fn covers(&self, x: T) -> bool;

    /// Any two values can be ranked, and ranks chain.
    proof fn order_is_total(&self)
        ensures
            vstd::relations::strongly_connected(self.order()),
            vstd::relations::transitive(self.order()),
    ;

    /// Decides whether `a` may stand before `b`.
    fn leads(&self, a: &T, b: &T) -> (r: bool)
        requires
            self.covers(*a),
            self.covers(*b),
        ensures
            r == (self.order())(*a, *b),
    ;
}

/// The items of `v` in reverse order.
pub fn reversed<T>(v: Vec<T>) -> (out: Vec<T>)
    ensures
        out@ == v@.reverse(),
{
    let ghost all = v@;
    let mut rest = v;
    let mut out: Vec<T> = Vec::new();
    while rest.len() > 0
        invariant
            rest@ == all.take(rest@.len() as int),
            rest@.len() + out@.len() == all.len(),
            forall|i: int| 0 <= i < out@.len() ==> out@[i] == all[all.len() - 1 - i],
        decreases rest.len(),
    {
        if let Some(x) = rest.pop() {
            out.push(x);
        }
    }
    assert(out@ =~= all.reverse());
    out
}

/// Merges two ranked lists into one ranked list.
fn merged<T, R: Ranking<T>>(r: &R, left: Vec<T>, right: Vec<T>) -> (out: Vec<T>)
    requires
        forall|i: int| 0 <= i < left@.len() ==> r.covers(#[trigger] left@[i]),
        forall|i: int| 0 <= i < right@.len() ==> r.covers(#[trigger] right@[i]),
        vstd::relations::sorted_by(left@, r.order()),
        vstd::relations::sorted_by(right@, r.order()),
    ensures
        out@.to_multiset() == left@.to_multiset().add(right@.to_multiset()),
        vstd::relations::sorted_by(out@, r.order()),
        out@.len() == left@.len() + right@.len(),
{
    let ghost leq = r.order();
    let ghost all = left@.to_multiset().add(right@.to_multiset());
    let ghost total = left@.len() + right@.len();
    let mut a = left;
    let mut b = right;
    // The merged items, last one first.
    let mut tail: Vec<T> = Vec::new();
    proof {
        r.order_is_total();
        lemma_no_items(tail@);
        assert(all =~= a@.to_multiset().add(b@.to_multiset()).add(tail@.to_multiset()));
    }
    while a.len() > 0 || b.len() > 0
        invariant
            leq == r.order(),
            vstd::relations::strongly_connected(leq),
            vstd::relations::transitive(leq),
            forall|i: int| 0 <= i < a@.len() ==> r.covers(#[trigger] a@[i]),
            forall|i: int| 0 <= i < b@.len() ==> r.covers(#[trigger] b@[i]),
            vstd::relations::sorted_by(a@, leq),
            vstd::relations::sorted_by(b@, leq),
            forall|i: int, j: int| 0 <= i < j < tail@.len() ==> leq(#[trigger] tail@[j], #[trigger] tail@[i]),
            forall|i: int, j: int| 0 <= i < a@.len() && 0 <= j < tail@.len() ==> leq(#[trigger] a@[i], #[trigger] tail@[j]),
            forall|i: int, j: int| 0 <= i < b@.len() && 0 <= j < tail@.len() ==> leq(#[trigger] b@[i], #[trigger] tail@[j]),
            all == a@.to_multiset().add(b@.to_multiset()).add(tail@.to_multiset()),
            a@.len() + b@.len() + tail@.len() == total,
        decreases a.len() + b.len(),
    {
        let from_left = if b.len() == 0 {
            true
        } else if a.len() == 0 {
            false
        } else {
            !r.leads(&a[a.len() - 1], &b[b.len() - 1])
        };
        let ghost a0 = a@;
        let ghost b0 = b@;
        let ghost t0 = tail@;
        if from_left {
            assert(b0.len() > 0 ==> leq(b0.last(), a0.last()));
            if let Some(x) = a.pop() {
                tail.push(x);
                proof {
                    assert(a0 =~= a@.push(x));
                    broadcast use vstd::seq_lib::to_multiset_build;
                    assert(a0.to_multiset() =~= a@.to_multiset().insert(x));
                    assert(tail@.to_multiset() =~= t0.to_multiset().insert(x));
                    assert(all =~= a@.to_multiset().add(b@.to_multiset()).add(tail@.to_multiset()));
                    assert forall|i: int| 0 <= i < b@.len() implies leq(#[trigger] b@[i], x) by {
                        if i < b0.len() - 1 {
                            assert(leq(b0[i], b0[b0.len() - 1]));
                        }
                    }
                }
            }
        } else {
            assert(a0.len() > 0 ==> leq(a0.last(), b0.last()));
            if let Some(x) = b.pop() {
                tail.push(x);
                proof {
                    assert(b0 =~= b@.push(x));
                    broadcast use vstd::seq_lib::to_multiset_build;
                    assert(b0.to_multiset() =~= b@.to_multiset().insert(x));
                    assert(tail@.to_multiset() =~= t0.to_multiset().insert(x));
                    assert(all =~= a@.to_multiset().add(b@.to_multiset()).add(tail@.to_multiset()));
                    assert forall|i: int| 0 <= i < a@.len() implies leq(#[trigger] a@[i], x) by {
                        if i < a0.len() - 1 {
                            assert(leq(a0[i], a0[a0.len() - 1]));
                        }
                    }
                }
            }
        }
    }
    proof {
        lemma_no_items(a@);
        lemma_no_items(b@);
        assert(all =~= tail@.to_multiset());
        tail@.lemma_reverse_to_multiset();
    }
    let out = reversed(tail);
    out
}

/// `items` ranked by `r`.
pub fn rank<T, R: Ranking<T>>(r: &R, items: Vec<T>) -> (out: Vec<T>)
    requires
        forall|i: int| 0 <= i < items@.len() ==> r.covers(#[trigger] items@[i]),
    ensures
        out@.to_multiset() == items@.to_multiset(),
        vstd::relations::sorted_by(out@, r.order()),
        out@.len() == items@.len(),
    decreases items.len(),
{
    let mut left = items;
    if left.len() <= 1 {
        return left;
    }
    let half: usize = left.len() / 2;
    let right = left.split_off(half);
    proof {
        assert(items@ =~= left@ + right@);
        vstd::seq_lib::lemma_multiset_commutative(left@, right@);
    }
    let ghost l0 = left@;
    let ghost r0 = right@;
    let left = rank(r, left);
    let right = rank(r, right);
    proof {
        lemma_same_items(l0, left@);
        lemma_same_items(r0, right@);
    }
    merged(r, left, right)
}

proof fn lemma_no_items<T>(s: Seq<T>)
    requires
        s.len() == 0,
    ensures
        s.to_multiset() == vstd::multiset::Multiset::<T>::empty(),
{
    assert forall|x: T| s.to_multiset().count(x) == 0 by {
        vstd::seq_lib::to_multiset_contains(s, x);
    }
    assert(s.to_multiset() =~= vstd::multiset::Multiset::<T>::empty());
}

/// Two lists with the same items, counted with repetition, hold the same
/// values.
pub proof fn lemma_same_items<T>(a: Seq<T>, b: Seq<T>)
    requires
        a.to_multiset() == b.to_multiset(),
    ensures
        a.len() == b.len(),
        forall|x: T| a.contains(x) == b.contains(x),
        forall|i: int| 0 <= i < b.len() ==> a.contains(#[trigger] b[i]),
        forall|i: int| 0 <= i < a.len() ==> b.contains(#[trigger] a[i]),
{
    broadcast use vstd::seq_lib::group_to_multiset_ensures;
    vstd::seq_lib::to_multiset_len(a);
    vstd::seq_lib::to_multiset_len(b);
    assert forall|x: T| a.contains(x) == b.contains(x) by {
        assert(a.contains(x) <==> a.to_multiset().count(x) > 0);
        assert(b.contains(x) <==> b.to_multiset().count(x) > 0);
    }
}

/// Applying a function to each item of a list does not depend on the order of
/// the list.
pub proof fn lemma_mapped_same_items<T, U>(a: Seq<T>, b: Seq<T>, f: spec_fn(T) -> U)
    requires
        a.to_multiset() == b.to_multiset(),
    ensures
        a.map_values(f).to_multiset() == b.map_values(f).to_multiset(),
    decreases a.len(),
{
    broadcast use vstd::seq_lib::to_multiset_build;

    lemma_same_items(a, b);
    if a.len() == 0 {
        assert(a.map_values(f) =~= b.map_values(f));
    } else {
        let x = a.last();
        assert(a[a.len() - 1] == x);
        assert(b.contains(x));
        let pos = b.index_of(x);
        let front = a.drop_last();
        let rest = b.remove(pos);
        assert(front =~= a.remove(a.len() - 1));
        vstd::seq_lib::to_multiset_remove(a, a.len() - 1);
        vstd::seq_lib::to_multiset_remove(b, pos);
        lemma_mapped_same_items(front, rest, f);
        assert(a.map_values(f) =~= front.map_values(f).push(f(x)));
        assert(b.map_values(f) =~= rest.map_values(f).insert(pos, f(x)));
        vstd::seq_lib::to_multiset_insert(rest.map_values(f), pos, f(x));
    }
}

/// Under an order without ties there is only one way to rank a list.
pub proof fn law_ranking_is_unique<T>(items: Seq<T>, ranked: Seq<T>, leq: spec_fn(T, T) -> bool)
    requires
        vstd::relations::total_ordering(leq),
        vstd::relations::sorted_by(ranked, leq),
        ranked.to_multiset() == items.to_multiset(),
    ensures
        ranked == items.sort_by(leq),
{
    items.lemma_sort_by_ensures(leq);
    vstd::seq_lib::lemma_sorted_unique(ranked, items.sort_by(leq), leq);
}

/// Two orders that agree on the items of a list rank it the same way.
pub proof fn lemma_ranking_agrees<T>(items: Seq<T>, f: spec_fn(T, T) -> bool, g: spec_fn(T, T) -> bool)
    requires
        vstd::relations::total_ordering(f),
        vstd::relations::total_ordering(g),
        forall|i: int, j: int| 0 <= i < items.len() && 0 <= j < items.len() ==> f(items[i], items[j]) == #[trigger] g(items[i], items[j]),
    ensures
        items.sort_by(f) == items.sort_by(g),
{
    let ranked = items.sort_by(g);
    items.lemma_sort_by_ensures(g);
    lemma_same_items(items, ranked);
    assert forall|i: int, j: int| 0 <= i < j < ranked.len() implies #[trigger] f(ranked[i], ranked[j]) by {
        assert(g(ranked[i], ranked[j]));
        let a = items.index_of(ranked[i]);
        let b = items.index_of(ranked[j]);
        assert(f(items[a], items[b]) == g(items[a], items[b]));
    }
    law_ranking_is_unique(items, ranked, f);
}

/// Tests that agree on the items of a list keep the same ones.
pub proof fn lemma_filter_agrees<T>(items: Seq<T>, f: spec_fn(T) -> bool, g: spec_fn(T) -> bool)
    requires
        forall|i: int| 0 <= i < items.len() ==> f(#[trigger] items[i]) == g(items[i]),
    ensures
        items.filter(f) == items.filter(g),
    decreases items.len(),
{
    reveal(Seq::filter);
    if items.len() > 0 {
        let front = items.drop_last();
        assert forall|i: int| 0 <= i < front.len() implies f(#[trigger] front[i]) == g(front[i]) by {
            assert(front[i] == items[i]);
        }
        lemma_filter_agrees(front, f, g);
        assert(f(items[items.len() - 1]) == g(items[items.len() - 1]));
    }
}

/// Byte strings in lexicographic order: `a` stands before `b` or equals it.
pub open spec fn lex_leq(a: Seq<u8>, b: Seq<u8>) -> bool
    decreases a.len(),
{
    if a.len() == 0 {
        true
    } else if b.len() == 0 {
        false
    } else if a[0] != b[0] {
        a[0] < b[0]
    } else {
        lex_leq(a.drop_first(), b.drop_first())
    }
}

/// Lexicographic order is total and antisymmetric.
pub proof fn lemma_lex_total(a: Seq<u8>, b: Seq<u8>)
    ensures
        lex_leq(a, b) || lex_leq(b, a),
        lex_leq(a, b) && lex_leq(b, a) ==> a == b,
    decreases a.len(),
{
    if a.len() > 0 && b.len() > 0 {
        lemma_lex_total(a.drop_first(), b.drop_first());
        if a[0] == b[0] && a.drop_first() == b.drop_first() {
            assert(a =~= seq![a[0]] + a.drop_first());
            assert(b =~= seq![b[0]] + b.drop_first());
        }
    } else if a.len() == 0 && b.len() == 0 {
        assert(a =~= b);
    }
}

/// Lexicographic order is transitive.
pub proof fn lemma_lex_transitive(a: Seq<u8>, b: Seq<u8>, c: Seq<u8>)
    requires
        lex_leq(a, b),
        lex_leq(b, c),
    ensures
        lex_leq(a, c),
    decreases a.len(),
{
    if a.len() > 0 && b.len() > 0 && c.len() > 0 && a[0] == b[0] && b[0] == c[0] {
        lemma_lex_transitive(a.drop_first(), b.drop_first(), c.drop_first());
    }
}

/// Byte order: what begins with `a` does not stand before `a`, and where two
/// strings first differ the smaller byte decides.
pub proof fn law_the_first_difference_decides(a: Seq<u8>, b: Seq<u8>, n: int)
    requires
        0 <= n <= a.len(),
        n <= b.len(),
        a.take(n) == b.take(n),
    ensures
        n == a.len() ==> lex_leq(a, b),
        n < a.len() && n == b.len() ==> !lex_leq(a, b),
        n < a.len() && n < b.len() && a[n] < b[n] ==> lex_leq(a, b) && !lex_leq(b, a),
    decreases n,
{
    if n > 0 {
        assert(a[0] == a.take(n)[0] && b[0] == b.take(n)[0]);
        assert(a.drop_first().take(n - 1) =~= a.take(n).drop_first());
        assert(b.drop_first().take(n - 1) =~= b.take(n).drop_first());
        law_the_first_difference_decides(a.drop_first(), b.drop_first(), n - 1);
    }
}

/// Whether `a` stands before `b` or equals it in lexicographic order.
pub fn bytes_leq(a: &[u8], b: &[u8]) -> (r: bool)
    ensures
        r == lex_leq(a@, b@),
{
    let mut i: usize = 0;
    assert(a@.skip(0) =~= a@);
    assert(b@.skip(0) =~= b@);
    while i < a.len() && i < b.len()
        invariant
            i <= a@.len(),
            i <= b@.len(),
            lex_leq(a@, b@) == lex_leq(a@.skip(i as int), b@.skip(i as int)),
        decreases a.len() - i,
    {
        proof {
            assert(a@.skip(i as int).drop_first() =~= a@.skip(i + 1));
            assert(b@.skip(i as int).drop_first() =~= b@.skip(i + 1));
            assert(a@.skip(i as int)[0] == a@[i as int]);
            assert(b@.skip(i as int)[0] == b@[i as int]);
        }
        if a[i] != b[i] {
            return a[i] < b[i];
        }
        i = i + 1;
    }
    i == a.len()
}

} // verus!
