//! Sums over lists.

use vstd::prelude::*;
use crate::filters::{lemma_contains_multiset, lemma_filter_empty, lemma_filter_last};

verus! {

broadcast use vstd::seq_lib::group_to_multiset_ensures;

/// The sum of what `f` gives for each item of a list.
pub open spec fn total<A>(s: Seq<A>, f: spec_fn(A) -> int) -> int
    decreases s.len(),
{
    if s.len() == 0 {
        0
    } else {
        total(s.drop_last(), f) + f(s.last())
    }
}

/// Sums add up over two lists.
pub proof fn lemma_total_of_both<A>(a: Seq<A>, b: Seq<A>, f: spec_fn(A) -> int)
    ensures
        total(a + b, f) == total(a, f) + total(b, f),
    decreases b.len(),
{
    if b.len() == 0 {
        assert(a + b =~= a);
    } else {
        assert((a + b).drop_last() =~= a + b.drop_last());
        lemma_total_of_both(a, b.drop_last(), f);
    }
}

/// One more item adds what it is given.
pub proof fn lemma_total_push<A>(s: Seq<A>, x: A, f: spec_fn(A) -> int)
    ensures
        total(s.push(x), f) == total(s, f) + f(x),
{
    assert(s.push(x).drop_last() =~= s);
}

/// A list of one item sums to what it is given.
pub proof fn lemma_total_of_one<A>(x: A, f: spec_fn(A) -> int)
    ensures
        total(seq![x], f) == f(x),
{
    assert(seq![x] =~= Seq::<A>::empty().push(x));
    lemma_total_push(Seq::<A>::empty(), x, f);
}

proof fn lemma_total_remove<A>(s: Seq<A>, j: int, f: spec_fn(A) -> int)
    requires
        0 <= j < s.len(),
    ensures
        total(s, f) == total(s.remove(j), f) + f(s[j]),
{
    let head = s.take(j + 1);
    let tail = s.skip(j + 1);
    assert(s =~= head + tail);
    assert(head =~= s.take(j).push(s[j]));
    assert(s.remove(j) =~= s.take(j) + tail);
    lemma_total_push(s.take(j), s[j], f);
    lemma_total_of_both(head, tail, f);
    lemma_total_of_both(s.take(j), tail, f);
}

/// A sum does not depend on the order of the items.
pub proof fn lemma_total_multiset<A>(a: Seq<A>, b: Seq<A>, f: spec_fn(A) -> int)
    requires
        a.to_multiset() == b.to_multiset(),
    ensures
        total(a, f) == total(b, f),
    decreases a.len(),
{
    assert(a.len() == a.to_multiset().len() == b.len());
    if a.len() > 0 {
        let x = a.last();
        assert(a.contains(x));
        lemma_contains_multiset(a, b, x);
        let j = choose|j: int| 0 <= j < b.len() && b[j] == x;
        let a1 = a.remove(a.len() - 1);
        let b1 = b.remove(j);
        lemma_total_remove(a, a.len() - 1, f);
        lemma_total_remove(b, j, f);
        assert(a1.to_multiset() =~= b1.to_multiset());
        lemma_total_multiset(a1, b1, f);
    }
}

/// A sum of what a map gives is a sum over the mapped list.
pub proof fn lemma_total_mapped<A, B>(s: Seq<A>, g: spec_fn(A) -> B, f: spec_fn(B) -> int)
    ensures
        total(s.map_values(g), f) == total(s, |x: A| f(g(x))),
    decreases s.len(),
{
    if s.len() > 0 {
        assert(s.map_values(g).drop_last() =~= s.drop_last().map_values(g));
        lemma_total_mapped(s.drop_last(), g, f);
    }
}

/// A sum over what a filter keeps leaves out what the other items are given.
pub proof fn lemma_total_filter<A>(s: Seq<A>, p: spec_fn(A) -> bool, f: spec_fn(A) -> int)
    ensures
        total(s.filter(p), f) == total(s, |x: A| if p(x) { f(x) } else { 0 }),
    decreases s.len(),
{
    if s.len() == 0 {
        assert(s =~= Seq::empty());
        lemma_filter_empty(p);
    } else {
        lemma_total_filter(s.drop_last(), p, f);
        lemma_filter_last(s, p);
        if p(s.last()) {
            lemma_total_push(s.drop_last().filter(p), s.last(), f);
        }
    }
}

/// What a filter keeps and what it leaves out sum to the whole, and are as many.
pub proof fn lemma_total_parts<A>(s: Seq<A>, p: spec_fn(A) -> bool, f: spec_fn(A) -> int)
    ensures
        total(s.filter(p), f) + total(s.filter(|x: A| !p(x)), f) == total(s, f),
        s.filter(p).len() + s.filter(|x: A| !p(x)).len() == s.len(),
    decreases s.len(),
{
    let q = |x: A| !p(x);
    if s.len() == 0 {
        assert(s =~= Seq::empty());
        lemma_filter_empty(p);
        lemma_filter_empty(q);
    } else {
        lemma_total_parts(s.drop_last(), p, f);
        lemma_filter_last(s, p);
        lemma_filter_last(s, q);
        if p(s.last()) {
            lemma_total_push(s.drop_last().filter(p), s.last(), f);
        } else {
            lemma_total_push(s.drop_last().filter(q), s.last(), f);
        }
    }
}

} // verus!
