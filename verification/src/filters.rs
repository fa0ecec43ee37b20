//! Facts about lists that some items are left out of.

use vstd::prelude::*;
use crate::order::{all_valid, sorted, strictly_sorted, Wire};

verus! {

broadcast use vstd::seq_lib::group_to_multiset_ensures;

/// Unfolds the filter of a list at its last item.
pub proof fn lemma_filter_last<A>(s: Seq<A>, p: spec_fn(A) -> bool)
    requires
        s.len() > 0,
    ensures
        s.filter(p) == (if p(s.last()) {
            s.drop_last().filter(p).push(s.last())
        } else {
            s.drop_last().filter(p)
        }),
{
    s.drop_last().lemma_filter_push(s.last(), p);
    assert(s =~= s.drop_last().push(s.last()));
}

/// An empty list stays empty.
pub proof fn lemma_filter_empty<A>(p: spec_fn(A) -> bool)
    ensures
        Seq::<A>::empty().filter(p) == Seq::<A>::empty(),
{
    reveal(Seq::filter);
}

/// A filter keeps an item as often as it occurs, or not at all.
pub proof fn lemma_filter_count<A>(s: Seq<A>, p: spec_fn(A) -> bool, v: A)
    ensures
        s.filter(p).to_multiset().count(v) == (if p(v) {
            s.to_multiset().count(v)
        } else {
            0
        }),
    decreases s.len(),
{
    if s.len() == 0 {
        lemma_filter_empty(p);
        assert(s =~= Seq::empty());
    } else {
        lemma_filter_count(s.drop_last(), p, v);
        lemma_filter_last(s, p);
        assert(s =~= s.drop_last().push(s.last()));
    }
}

/// A filter keeps just what it lets pass.
pub proof fn lemma_filter_contains<A>(s: Seq<A>, p: spec_fn(A) -> bool, v: A)
    ensures
        s.filter(p).contains(v) <==> (s.contains(v) && p(v)),
{
    lemma_filter_count(s, p, v);
    assert(s.contains(v) <==> s.to_multiset().count(v) > 0);
    assert(s.filter(p).contains(v) <==> s.filter(p).to_multiset().count(v) > 0);
}

/// Of two lists with the same items, a filter keeps the same items.
pub proof fn lemma_filter_multiset<A>(a: Seq<A>, b: Seq<A>, p: spec_fn(A) -> bool)
    requires
        a.to_multiset() == b.to_multiset(),
    ensures
        a.filter(p).to_multiset() == b.filter(p).to_multiset(),
{
    assert forall|v: A|
        a.filter(p).to_multiset().count(v) == b.filter(p).to_multiset().count(v) by {
        lemma_filter_count(a, p, v);
        lemma_filter_count(b, p, v);
    }
    assert(a.filter(p).to_multiset() =~= b.filter(p).to_multiset());
}

/// Two filters that agree on the items of a list keep the same list.
pub proof fn lemma_filter_agree<A>(s: Seq<A>, p: spec_fn(A) -> bool, q: spec_fn(A) -> bool)
    requires
        forall|i: int| 0 <= i < s.len() ==> p(#[trigger] s[i]) == q(s[i]),
    ensures
        s.filter(p) == s.filter(q),
    decreases s.len(),
{
    if s.len() == 0 {
        assert(s =~= Seq::empty());
        lemma_filter_empty(p);
        lemma_filter_empty(q);
    } else {
        assert(p(s[s.len() - 1]) == q(s[s.len() - 1]));
        assert forall|i: int| 0 <= i < s.drop_last().len() implies p(#[trigger] s.drop_last()[i])
            == q(s.drop_last()[i]) by {
            assert(s.drop_last()[i] == s[i]);
        }
        lemma_filter_agree(s.drop_last(), p, q);
        lemma_filter_last(s, p);
        lemma_filter_last(s, q);
    }
}

/// A filter that lets all items pass keeps the list.
pub proof fn lemma_filter_all<A>(s: Seq<A>, p: spec_fn(A) -> bool)
    requires
        forall|i: int| 0 <= i < s.len() ==> p(#[trigger] s[i]),
    ensures
        s.filter(p) == s,
    decreases s.len(),
{
    if s.len() == 0 {
        assert(s =~= Seq::empty());
        lemma_filter_empty(p);
    } else {
        assert(p(s[s.len() - 1]));
        assert forall|i: int| 0 <= i < s.drop_last().len() implies p(
            #[trigger] s.drop_last()[i],
        ) by {
            assert(s.drop_last()[i] == s[i]);
        }
        lemma_filter_all(s.drop_last(), p);
        lemma_filter_last(s, p);
        assert(s =~= s.drop_last().push(s.last()));
    }
}

/// A filter that lets no item pass keeps nothing.
pub proof fn lemma_filter_none<A>(s: Seq<A>, p: spec_fn(A) -> bool)
    requires
        forall|i: int| 0 <= i < s.len() ==> !p(#[trigger] s[i]),
    ensures
        s.filter(p) == Seq::<A>::empty(),
    decreases s.len(),
{
    if s.len() == 0 {
        assert(s =~= Seq::empty());
        lemma_filter_empty(p);
    } else {
        assert(!p(s[s.len() - 1]));
        assert forall|i: int| 0 <= i < s.drop_last().len() implies !p(
            #[trigger] s.drop_last()[i],
        ) by {
            assert(s.drop_last()[i] == s[i]);
        }
        lemma_filter_none(s.drop_last(), p);
        lemma_filter_last(s, p);
    }
}

/// Filtering twice is filtering by both.
pub proof fn lemma_filter_twice<A>(s: Seq<A>, p: spec_fn(A) -> bool, q: spec_fn(A) -> bool)
    ensures
        s.filter(p).filter(q) == s.filter(|v: A| p(v) && q(v)),
    decreases s.len(),
{
    let both = |v: A| p(v) && q(v);
    if s.len() == 0 {
        assert(s =~= Seq::empty());
        lemma_filter_empty(p);
        lemma_filter_empty(q);
        lemma_filter_empty(both);
    } else {
        let front = s.drop_last();
        lemma_filter_twice(front, p, q);
        lemma_filter_last(s, p);
        lemma_filter_last(s, both);
        if p(s.last()) {
            front.filter(p).lemma_filter_push(s.last(), q);
        }
    }
}

/// A filter keeps a list in order.
pub proof fn lemma_filter_sorted<T: Wire>(s: Seq<T::V>, p: spec_fn(T::V) -> bool)
    requires
        sorted::<T>(s),
    ensures
        sorted::<T>(s.filter(p)),
    decreases s.len(),
{
    if s.len() == 0 {
        assert(s =~= Seq::empty());
        lemma_filter_empty(p);
    } else {
        let front = s.drop_last();
        let kept = front.filter(p);
        lemma_filter_sorted::<T>(front, p);
        lemma_filter_last(s, p);
        let r = s.filter(p);
        assert forall|i: int, j: int| 0 <= i < j < r.len() implies crate::order::lex_le(
            #[trigger] T::encode(r[i]),
            #[trigger] T::encode(r[j]),
        ) by {
            if j == kept.len() {
                assert(kept.contains(kept[i]));
                lemma_filter_contains(front, p, kept[i]);
                let k = choose|k: int| 0 <= k < front.len() && front[k] == kept[i];
                assert(front[k] == s[k]);
                assert(crate::order::lex_le(T::encode(s[k]), T::encode(s[s.len() - 1])));
            } else {
                assert(r[i] == kept[i] && r[j] == kept[j]);
            }
        }
    }
}

/// A filter leaves valid items valid.
pub proof fn lemma_filter_valid<T: Wire>(s: Seq<T::V>, p: spec_fn(T::V) -> bool)
    requires
        all_valid::<T>(s),
    ensures
        all_valid::<T>(s.filter(p)),
{
    assert forall|i: int| 0 <= i < s.filter(p).len() implies T::valid(
        #[trigger] s.filter(p)[i],
    ) by {
        let v = s.filter(p)[i];
        assert(s.filter(p).contains(v));
        lemma_filter_contains(s, p, v);
        let k = choose|k: int| 0 <= k < s.len() && s[k] == v;
        assert(T::valid(s[k]));
    }
}

/// A filter of a list that holds nothing twice holds nothing twice.
pub proof fn lemma_filter_no_duplicates<A>(s: Seq<A>, p: spec_fn(A) -> bool)
    requires
        s.no_duplicates(),
    ensures
        s.filter(p).no_duplicates(),
    decreases s.len(),
{
    if s.len() == 0 {
        assert(s =~= Seq::empty());
        lemma_filter_empty(p);
    } else {
        let front = s.drop_last();
        lemma_filter_no_duplicates(front, p);
        lemma_filter_last(s, p);
        lemma_filter_contains(front, p, s.last());
        if front.contains(s.last()) {
            let k = choose|k: int| 0 <= k < front.len() && front[k] == s.last();
            assert(s[k] == s[s.len() - 1]);
        }
        assert(s.filter(p).no_duplicates());
    }
}

/// Lists that hold the same, and nothing twice, hold it as often.
pub proof fn lemma_same_multiset<A>(a: Seq<A>, b: Seq<A>)
    requires
        a.no_duplicates(),
        b.no_duplicates(),
        forall|v: A| #[trigger] a.contains(v) <==> b.contains(v),
    ensures
        a.to_multiset() == b.to_multiset(),
        a.len() == b.len(),
{
    a.lemma_multiset_has_no_duplicates();
    b.lemma_multiset_has_no_duplicates();
    assert forall|v: A| a.to_multiset().count(v) == b.to_multiset().count(v) by {
        assert(a.contains(v) <==> b.contains(v));
        assert(a.contains(v) <==> a.to_multiset().count(v) > 0);
        assert(b.contains(v) <==> b.to_multiset().count(v) > 0);
    }
    assert(a.to_multiset() =~= b.to_multiset());
    assert(a.len() == a.to_multiset().len());
    assert(b.len() == b.to_multiset().len());
}

/// A filter of a list that `f` maps to distinct values is mapped to distinct values.
pub proof fn lemma_filter_distinct<A, B>(s: Seq<A>, p: spec_fn(A) -> bool, f: spec_fn(A) -> B)
    requires
        s.map_values(f).no_duplicates(),
    ensures
        s.filter(p).map_values(f).no_duplicates(),
    decreases s.len(),
{
    if s.len() == 0 {
        assert(s =~= Seq::empty());
        lemma_filter_empty(p);
    } else {
        let front = s.drop_last();
        assert(front.map_values(f) =~= s.map_values(f).drop_last());
        lemma_filter_distinct(front, p, f);
        lemma_filter_last(s, p);
        let kept = front.filter(p);
        assert forall|i: int| 0 <= i < kept.len() implies f(#[trigger] kept[i]) != f(s.last()) by {
            assert(kept.contains(kept[i]));
            lemma_filter_contains(front, p, kept[i]);
            let k = choose|k: int| 0 <= k < front.len() && front[k] == kept[i];
            assert(s.map_values(f)[k] == f(kept[i]));
            assert(s.map_values(f)[s.len() - 1] == f(s.last()));
        }
        let r = s.filter(p).map_values(f);
        assert forall|i: int, j: int| 0 <= i < r.len() && 0 <= j < r.len() && i != j implies r[i]
            != r[j] by {
            if i < kept.len() && j < kept.len() {
                assert(kept.map_values(f)[i] != kept.map_values(f)[j]);
            }
        }
    }
}

/// A list holds what either part of it holds.
pub proof fn lemma_contains_of_both<A>(a: Seq<A>, b: Seq<A>, v: A)
    ensures
        (a + b).contains(v) <==> (a.contains(v) || b.contains(v)),
{
    if a.contains(v) {
        let i = choose|i: int| 0 <= i < a.len() && a[i] == v;
        assert((a + b)[i] == v);
    }
    if b.contains(v) {
        let i = choose|i: int| 0 <= i < b.len() && b[i] == v;
        assert((a + b)[a.len() + i] == v);
    }
}

/// Lists with the same items hold the same.
pub proof fn lemma_contains_multiset<A>(a: Seq<A>, b: Seq<A>, v: A)
    requires
        a.to_multiset() == b.to_multiset(),
    ensures
        a.contains(v) <==> b.contains(v),
{
    assert(a.contains(v) <==> a.to_multiset().count(v) > 0);
    assert(b.contains(v) <==> b.to_multiset().count(v) > 0);
}

/// A list in order that holds nothing twice is strictly in order, and the other way round.
pub proof fn lemma_strictly_sorted<T: Wire>(s: Seq<T::V>)
    ensures
        strictly_sorted::<T>(s) <==> sorted::<T>(s) && s.no_duplicates(),
{
    if strictly_sorted::<T>(s) {
        assert forall|i: int, j: int| 0 <= i < s.len() && 0 <= j < s.len() && i != j implies s[i]
            != s[j] by {
            if i < j {
                assert(s[i] != s[j]);
            } else {
                assert(s[j] != s[i]);
            }
        }
    }
}

/// A list with the items of one that holds nothing twice holds nothing twice.
pub proof fn lemma_no_duplicates_multiset<A>(a: Seq<A>, b: Seq<A>)
    requires
        a.to_multiset() == b.to_multiset(),
        a.no_duplicates(),
    ensures
        b.no_duplicates(),
    decreases b.len(),
{
    a.lemma_multiset_has_no_duplicates();
    assert forall|i: int, j: int| 0 <= i < j < b.len() implies b[i] != b[j] by {
        if b[i] == b[j] {
            let v = b[i];
            let r = b.remove(j);
            assert(r[i] == v);
            assert(r.contains(v));
            assert(r.to_multiset().count(v) > 0);
            assert(b =~= r.insert(j, v));
            assert(b.to_multiset() =~= r.to_multiset().insert(v));
            assert(b.to_multiset().count(v) >= 2);
            assert(a.to_multiset().contains(v));
            assert(a.to_multiset().count(v) == 1);
        }
    }
}

} // verus!
