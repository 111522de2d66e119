//! Sums over lists.

use vstd::prelude::*;

use crate::order;

verus! {

/// The sum of `f` over `s`.
pub open spec fn total<T>(s: Seq<T>, f: spec_fn(T) -> int) -> int
    decreases s.len(),
{
    if s.len() == 0 {
        0
    } else {
        total(s.drop_last(), f) + f(s.last())
    }
}

pub proof fn lemma_total_push<T>(s: Seq<T>, x: T, f: spec_fn(T) -> int)
    ensures
        total(s.push(x), f) == total(s, f) + f(x),
{
    assert(s.push(x).drop_last() =~= s);
}

pub proof fn lemma_total_concat<T>(a: Seq<T>, b: Seq<T>, f: spec_fn(T) -> int)
    ensures
        total(a + b, f) == total(a, f) + total(b, f),
    decreases b.len(),
{
    if b.len() == 0 {
        assert(a + b =~= a);
    } else {
        assert((a + b).drop_last() =~= a + b.drop_last());
        lemma_total_concat(a, b.drop_last(), f);
    }
}

pub proof fn lemma_total_remove<T>(s: Seq<T>, pos: int, f: spec_fn(T) -> int)
    requires
        0 <= pos < s.len(),
    ensures
        total(s.remove(pos), f) == total(s, f) - f(s[pos]),
{
    let a = s.take(pos);
    let b = s.skip(pos + 1);
    assert(s.remove(pos) =~= a + b);
    assert(s =~= a.push(s[pos]) + b);
    lemma_total_concat(a, b, f);
    lemma_total_concat(a.push(s[pos]), b, f);
    lemma_total_push(a, s[pos], f);
}

/// A sum does not depend on the order of the list.
pub proof fn lemma_total_permuted<T>(a: Seq<T>, b: Seq<T>, f: spec_fn(T) -> int)
    requires
        a.to_multiset() == b.to_multiset(),
    ensures
        total(a, f) == total(b, f),
    decreases a.len(),
{
    order::lemma_same_items(a, b);
    if a.len() > 0 {
        let x = a.last();
        assert(a[a.len() - 1] == x);
        assert(b.contains(x));
        let pos = b.index_of(x);
        assert(a.drop_last() =~= a.remove(a.len() - 1));
        vstd::seq_lib::to_multiset_remove(a, a.len() - 1);
        vstd::seq_lib::to_multiset_remove(b, pos);
        lemma_total_permuted(a.drop_last(), b.remove(pos), f);
        lemma_total_remove(b, pos, f);
    }
}

/// A part of a list sums up to no more than the list, if nothing in it is
/// negative.
pub proof fn lemma_total_part<T>(s: Seq<T>, k: int, f: spec_fn(T) -> int)
    requires
        0 <= k <= s.len(),
        forall|i: int| 0 <= i < s.len() ==> f(#[trigger] s[i]) >= 0,
    ensures
        0 <= total(s.take(k), f) <= total(s, f),
    decreases s.len(),
{
    if k == s.len() {
        assert(s.take(k) =~= s);
        if k > 0 {
            let front = s.drop_last();
            assert forall|i: int| 0 <= i < front.len() implies f(#[trigger] front[i]) >= 0 by {
                assert(front[i] == s[i]);
            }
            lemma_total_part(front, k - 1, f);
            assert(front.take(k - 1) =~= front);
            assert(f(s[k - 1]) >= 0);
        }
    } else {
        let front = s.drop_last();
        assert forall|i: int| 0 <= i < front.len() implies f(#[trigger] front[i]) >= 0 by {
            assert(front[i] == s[i]);
        }
        lemma_total_part(front, k, f);
        assert(front.take(k) =~= s.take(k));
        assert(f(s[s.len() - 1]) >= 0);
    }
}

/// No item of a list is more than the sum of the list, if none is negative.
pub proof fn lemma_total_member<T>(s: Seq<T>, k: int, f: spec_fn(T) -> int)
    requires
        0 <= k < s.len(),
        forall|i: int| 0 <= i < s.len() ==> f(#[trigger] s[i]) >= 0,
    ensures
        f(s[k]) <= total(s, f),
{
    lemma_total_part(s, k + 1, f);
    assert(s.take(k + 1).drop_last() =~= s.take(k));
    lemma_total_part(s, k, f);
}

/// The items that satisfy `p` and those that do not sum up to the whole.
pub proof fn lemma_total_split<T>(s: Seq<T>, p: spec_fn(T) -> bool, q: spec_fn(T) -> bool, f: spec_fn(T) -> int)
    requires
        forall|i: int| 0 <= i < s.len() ==> p(#[trigger] s[i]) != q(s[i]),
    ensures
        total(s, f) == total(s.filter(p), f) + total(s.filter(q), f),
        s.len() == s.filter(p).len() + s.filter(q).len(),
    decreases s.len(),
{
    reveal(Seq::filter);
    if s.len() > 0 {
        let front = s.drop_last();
        assert forall|i: int| 0 <= i < front.len() implies p(#[trigger] front[i]) != q(front[i]) by {
            assert(front[i] == s[i]);
        }
        lemma_total_split(front, p, q, f);
        assert(p(s[s.len() - 1]) != q(s[s.len() - 1]));
        if p(s.last()) {
            lemma_total_push(front.filter(p), s.last(), f);
        } else {
            lemma_total_push(front.filter(q), s.last(), f);
        }
    }
}

/// Filtered items sum up to no more than the list, if nothing in it is
/// negative.
pub proof fn lemma_total_filter<T>(s: Seq<T>, p: spec_fn(T) -> bool, f: spec_fn(T) -> int)
    requires
        forall|i: int| 0 <= i < s.len() ==> f(#[trigger] s[i]) >= 0,
    ensures
        0 <= total(s.filter(p), f) <= total(s, f),
    decreases s.len(),
{
    reveal(Seq::filter);
    if s.len() > 0 {
        let front = s.drop_last();
        assert forall|i: int| 0 <= i < front.len() implies f(#[trigger] front[i]) >= 0 by {
            assert(front[i] == s[i]);
        }
        lemma_total_filter(front, p, f);
        assert(f(s[s.len() - 1]) >= 0);
        if p(s.last()) {
            lemma_total_push(front.filter(p), s.last(), f);
        }
    }
}

/// Lists that give the same numbers one by one give the same sum.
pub proof fn lemma_total_same<A, B>(a: Seq<A>, b: Seq<B>, f: spec_fn(A) -> int, g: spec_fn(B) -> int)
    requires
        a.len() == b.len(),
        forall|i: int| 0 <= i < a.len() ==> f(#[trigger] a[i]) == g(b[i]),
    ensures
        total(a, f) == total(b, g),
    decreases a.len(),
{
    if a.len() > 0 {
        let x = a.drop_last();
        let y = b.drop_last();
        assert forall|i: int| 0 <= i < x.len() implies f(#[trigger] x[i]) == g(y[i]) by {
            assert(x[i] == a[i]);
        }
        lemma_total_same(x, y, f, g);
        assert(f(a[a.len() - 1]) == g(b[a.len() - 1]));
    }
}

} // verus!
