//! Lists of items in the lexicographic order of their binary form.

use vstd::prelude::*;
use crate::consensus::ConsensusError;
use crate::ser::{Reader, SerError, Writer};

verus! {

broadcast use vstd::seq_lib::group_to_multiset_ensures;

/// A value with a binary form of its own, which tells where it ends.
pub trait Wire: View + Sized {
    /// Whether `v` is the view of some value of this type.
    spec fn valid(v: Self::V) -> bool;

    /// The binary form of `v`.
    spec fn encode(v: Self::V) -> Seq<u8>;

    /// The value whose binary form `s` starts with, and what follows it.
    spec fn parse(s: Seq<u8>) -> Result<(Self::V, Seq<u8>), SerError>;

    /// A value is read back from its binary form, whatever follows it.
    proof fn lemma_parse_of_encode(v: Self::V, rest: Seq<u8>)
        requires
            Self::valid(v),
        ensures
            Self::parse(Self::encode(v) + rest) == Ok::<(Self::V, Seq<u8>), SerError>((v, rest)),
    ;

    /// What was read is written back as the same bytes.
    proof fn lemma_encode_of_parse(s: Seq<u8>)
        ensures
            Self::parse(s) matches Ok((v, rest)) ==> Self::valid(v) && s == Self::encode(v) + rest,
    ;

    /// Appends the binary form.
    fn write(&self, writer: &mut Writer)
        ensures
            Self::valid(self@),
            final(writer)@ == old(writer)@ + Self::encode(self@),
            final(writer).purpose() == old(writer).purpose(),
    ;

    /// Takes a value from the front of what is still to be read.
    fn read(reader: &mut Reader) -> (r: Result<Self, SerError>)
        ensures
            match r {
                Ok(x) => Self::parse(old(reader)@) == Ok::<(Self::V, Seq<u8>), SerError>(
                    (x@, final(reader)@),
                ),
                Err(e) => Self::parse(old(reader)@) == Err::<(Self::V, Seq<u8>), SerError>(e),
            },
    ;

    /// Another value with the same view.
    fn duplicate(&self) -> (r: Self)
        ensures
            r@ == self@,
    ;
}

/// The views of the items of a list.
pub open spec fn views<T: View>(items: Seq<T>) -> Seq<T::V> {
    Seq::new(items.len(), |i: int| items[i]@)
}

/// Whether `a` does not come after `b` in lexicographic order.
pub open spec fn lex_le(a: Seq<u8>, b: Seq<u8>) -> bool
    decreases a.len(),
{
    if a.len() == 0 {
        true
    } else if b.len() == 0 {
        false
    } else if a[0] != b[0] {
        a[0] < b[0]
    } else {
        lex_le(a.skip(1), b.skip(1))
    }
}

pub proof fn lemma_lex_reflexive(a: Seq<u8>)
    ensures
        lex_le(a, a),
    decreases a.len(),
{
    if a.len() > 0 {
        lemma_lex_reflexive(a.skip(1));
    }
}

pub proof fn lemma_lex_total(a: Seq<u8>, b: Seq<u8>)
    ensures
        lex_le(a, b) || lex_le(b, a),
    decreases a.len(),
{
    if a.len() > 0 && b.len() > 0 {
        lemma_lex_total(a.skip(1), b.skip(1));
    }
}

pub proof fn lemma_lex_antisymmetric(a: Seq<u8>, b: Seq<u8>)
    requires
        lex_le(a, b),
        lex_le(b, a),
    ensures
        a == b,
    decreases a.len(),
{
    if a.len() > 0 && b.len() > 0 {
        lemma_lex_antisymmetric(a.skip(1), b.skip(1));
        assert(a =~= seq![a[0]] + a.skip(1));
        assert(b =~= seq![b[0]] + b.skip(1));
    } else {
        assert(a =~= b);
    }
}

pub proof fn lemma_lex_transitive(a: Seq<u8>, b: Seq<u8>, c: Seq<u8>)
    requires
        lex_le(a, b),
        lex_le(b, c),
    ensures
        lex_le(a, c),
    decreases a.len(),
{
    if a.len() > 0 && a[0] == b[0] && b[0] == c[0] {
        lemma_lex_transitive(a.skip(1), b.skip(1), c.skip(1));
    }
}

/// Whether no item comes after a later one.
pub open spec fn sorted<T: Wire>(s: Seq<T::V>) -> bool {
    forall|i: int, j: int|
        0 <= i < j < s.len() ==> lex_le(#[trigger] T::encode(s[i]), #[trigger] T::encode(s[j]))
}

/// Whether every item comes before all later ones.
pub open spec fn strictly_sorted<T: Wire>(s: Seq<T::V>) -> bool {
    &&& sorted::<T>(s)
    &&& forall|i: int, j: int| 0 <= i < j < s.len() ==> #[trigger] s[i] != #[trigger] s[j]
}

/// Whether all items of the list are views of values of the type.
pub open spec fn all_valid<T: Wire>(s: Seq<T::V>) -> bool {
    forall|i: int| 0 <= i < s.len() ==> T::valid(#[trigger] s[i])
}

/// Whether `t` holds the items of `s`, each as often, in order.
pub open spec fn is_sorted_form<T: Wire>(s: Seq<T::V>, t: Seq<T::V>) -> bool {
    &&& sorted::<T>(t)
    &&& t.to_multiset() == s.to_multiset()
}

/// The items of `s`, each as often, in order.
pub open spec fn sorted_form<T: Wire>(s: Seq<T::V>) -> Seq<T::V> {
    choose|t: Seq<T::V>| is_sorted_form::<T>(s, t)
}

/// Whether `t` holds the items of `s`, each once, in order.
pub open spec fn is_set_form<T: Wire>(s: Seq<T::V>, t: Seq<T::V>) -> bool {
    &&& strictly_sorted::<T>(t)
    &&& forall|v: T::V| #[trigger] t.contains(v) <==> s.contains(v)
}

/// The items of `s`, each once, in order.
pub open spec fn set_form<T: Wire>(s: Seq<T::V>) -> Seq<T::V> {
    choose|t: Seq<T::V>| is_set_form::<T>(s, t)
}

/// Items with the same binary form are equal.
pub proof fn lemma_encode_injective<T: Wire>(a: T::V, b: T::V)
    requires
        T::valid(a),
        T::valid(b),
        T::encode(a) == T::encode(b),
    ensures
        a == b,
{
    T::lemma_parse_of_encode(a, Seq::empty());
    T::lemma_parse_of_encode(b, Seq::empty());
}

/// A list has one sorted form only.
pub proof fn lemma_sorted_form_unique<T: Wire>(a: Seq<T::V>, b: Seq<T::V>)
    requires
        sorted::<T>(a),
        sorted::<T>(b),
        a.to_multiset() == b.to_multiset(),
        all_valid::<T>(a),
    ensures
        a == b,
    decreases a.len(),
{
    assert(a.len() == a.to_multiset().len() == b.len());
    if a.len() == 0 {
        assert(a =~= b);
    } else {
        assert(a.contains(a[0]) && b.contains(b[0]));
        assert(a.to_multiset().count(a[0]) > 0 && b.to_multiset().count(b[0]) > 0);
        let i = choose|i: int| 0 <= i < a.len() && a[i] == b[0];
        let j = choose|j: int| 0 <= j < b.len() && b[j] == a[0];
        lemma_lex_reflexive(T::encode(a[0]));
        lemma_lex_reflexive(T::encode(b[0]));
        lemma_lex_antisymmetric(T::encode(a[0]), T::encode(b[0]));
        assert(T::valid(a[i]));
        lemma_encode_injective::<T>(a[0], b[0]);
        let a1 = a.remove(0);
        let b1 = b.remove(0);
        assert forall|k: int| 0 <= k < a1.len() implies a1[k] == a[k + 1] && b1[k] == b[k + 1] by {}
        lemma_sorted_form_unique::<T>(a1, b1);
        assert(a =~= seq![a[0]] + a1);
        assert(b =~= seq![b[0]] + b1);
    }
}

/// The items of a list, each once and in order, are one list only.
pub proof fn lemma_set_form_unique<T: Wire>(a: Seq<T::V>, b: Seq<T::V>)
    requires
        strictly_sorted::<T>(a),
        strictly_sorted::<T>(b),
        forall|v: T::V| a.contains(v) <==> b.contains(v),
        all_valid::<T>(a),
    ensures
        a == b,
{
    a.lemma_multiset_has_no_duplicates();
    b.lemma_multiset_has_no_duplicates();
    assert forall|v: T::V| a.to_multiset().count(v) == b.to_multiset().count(v) by {
        assert(a.contains(v) <==> b.contains(v));
        assert(a.contains(v) <==> a.to_multiset().count(v) > 0);
        assert(b.contains(v) <==> b.to_multiset().count(v) > 0);
    }
    assert(a.to_multiset() =~= b.to_multiset());
    lemma_sorted_form_unique::<T>(a, b);
}

/// A list that is a sorted form of `s` is its sorted form.
pub proof fn lemma_is_the_sorted_form<T: Wire>(s: Seq<T::V>, t: Seq<T::V>)
    requires
        is_sorted_form::<T>(s, t),
        all_valid::<T>(s),
    ensures
        t == sorted_form::<T>(s),
        all_valid::<T>(t),
{
    assert forall|i: int| 0 <= i < t.len() implies T::valid(#[trigger] t[i]) by {
        assert(t.contains(t[i]));
        assert(s.to_multiset().count(t[i]) > 0);
        assert(s.contains(t[i]));
    }
    lemma_sorted_form_unique::<T>(t, sorted_form::<T>(s));
}

/// A list that holds the items of `s`, each once and in order, is its set form.
pub proof fn lemma_is_the_set_form<T: Wire>(s: Seq<T::V>, t: Seq<T::V>)
    requires
        is_set_form::<T>(s, t),
        all_valid::<T>(s),
    ensures
        t == set_form::<T>(s),
        all_valid::<T>(t),
{
    assert forall|i: int| 0 <= i < t.len() implies T::valid(#[trigger] t[i]) by {
        assert(t.contains(t[i]));
        assert(s.contains(t[i]));
    }
    let u = set_form::<T>(s);
    assert forall|v: T::V| t.contains(v) <==> u.contains(v) by {
        assert(t.contains(v) <==> s.contains(v));
        assert(u.contains(v) <==> s.contains(v));
    }
    lemma_set_form_unique::<T>(t, u);
}

/// The list `t` with `x` put behind all items that do not come after it.
pub open spec fn insert_sorted<T: Wire>(t: Seq<T::V>, x: T::V) -> Seq<T::V>
    decreases t.len(),
{
    if t.len() == 0 || lex_le(T::encode(t.last()), T::encode(x)) {
        t.push(x)
    } else {
        insert_sorted::<T>(t.drop_last(), x).push(t.last())
    }
}

proof fn lemma_insert_sorted<T: Wire>(t: Seq<T::V>, x: T::V)
    requires
        sorted::<T>(t),
    ensures
        sorted::<T>(insert_sorted::<T>(t, x)),
        insert_sorted::<T>(t, x).to_multiset() == t.to_multiset().insert(x),
        forall|v: T::V|
            #[trigger] insert_sorted::<T>(t, x).contains(v) <==> (t.contains(v) || v == x),
        t.no_duplicates() && !t.contains(x) ==> insert_sorted::<T>(t, x).no_duplicates(),
    decreases t.len(),
{
    let r = insert_sorted::<T>(t, x);
    if t.len() == 0 || lex_le(T::encode(t.last()), T::encode(x)) {
        assert forall|i: int, j: int| 0 <= i < j < r.len() implies lex_le(
            #[trigger] T::encode(r[i]),
            #[trigger] T::encode(r[j]),
        ) by {
            if j == t.len() && i < t.len() - 1 {
                assert(lex_le(T::encode(t[i]), T::encode(t.last())));
                lemma_lex_transitive(T::encode(t[i]), T::encode(t.last()), T::encode(x));
            }
        }
        assert forall|v: T::V| #[trigger] r.contains(v) <==> (t.contains(v) || v == x) by {
            lemma_contains_push(t, x, v);
        }
        assert(t.no_duplicates() && !t.contains(x) ==> r.no_duplicates());
    } else {
        let front = t.drop_last();
        let inner = insert_sorted::<T>(front, x);
        lemma_insert_sorted::<T>(front, x);
        lemma_lex_total(T::encode(t.last()), T::encode(x));
        assert(t =~= front.push(t.last()));
        assert forall|i: int, j: int| 0 <= i < j < r.len() implies lex_le(
            #[trigger] T::encode(r[i]),
            #[trigger] T::encode(r[j]),
        ) by {
            if j == inner.len() {
                assert(inner.contains(inner[i]));
                if inner[i] != x {
                    let k = choose|k: int| 0 <= k < front.len() && front[k] == inner[i];
                    assert(lex_le(T::encode(t[k]), T::encode(t.last())));
                }
            }
        }
        assert(r.to_multiset() =~= t.to_multiset().insert(x));
        assert forall|v: T::V| #[trigger] r.contains(v) <==> (t.contains(v) || v == x) by {
            lemma_contains_push(inner, t.last(), v);
            lemma_contains_push(front, t.last(), v);
            assert(inner.contains(v) <==> (front.contains(v) || v == x));
        }
        if t.no_duplicates() && !t.contains(x) {
            assert forall|v: T::V| front.contains(v) implies #[trigger] t.contains(v) by {
                lemma_contains_push(front, t.last(), v);
            }
            assert(!inner.contains(t.last())) by {
                if front.contains(t.last()) {
                    let k = choose|k: int| 0 <= k < front.len() && front[k] == t.last();
                    assert(t[k] == t.last());
                }
                assert(t.contains(t.last()));
            }
            assert(front.no_duplicates());
            assert(!front.contains(x));
            assert(r.no_duplicates());
        }
    }
}

/// Every list of valid items has a sorted form.
pub proof fn lemma_sorted_form<T: Wire>(s: Seq<T::V>)
    requires
        all_valid::<T>(s),
    ensures
        is_sorted_form::<T>(s, sorted_form::<T>(s)),
        all_valid::<T>(sorted_form::<T>(s)),
        sorted_form::<T>(s).len() == s.len(),
    decreases s.len(),
{
    if s.len() == 0 {
        lemma_is_the_sorted_form::<T>(s, s);
    } else {
        let front = s.drop_last();
        lemma_sorted_form::<T>(front);
        let t = insert_sorted::<T>(sorted_form::<T>(front), s.last());
        lemma_insert_sorted::<T>(sorted_form::<T>(front), s.last());
        assert(s =~= front.push(s.last()));
        assert(t.to_multiset() =~= s.to_multiset());
        lemma_is_the_sorted_form::<T>(s, t);
    }
    assert(sorted_form::<T>(s).len() == sorted_form::<T>(s).to_multiset().len());
    assert(s.len() == s.to_multiset().len());
}

/// The items of every list of valid items can be put in order, each once.
pub proof fn lemma_set_form<T: Wire>(s: Seq<T::V>)
    requires
        all_valid::<T>(s),
    ensures
        is_set_form::<T>(s, set_form::<T>(s)),
        all_valid::<T>(set_form::<T>(s)),
    decreases s.len(),
{
    if s.len() == 0 {
        lemma_is_the_set_form::<T>(s, s);
    } else {
        let front = s.drop_last();
        let inner = set_form::<T>(front);
        lemma_set_form::<T>(front);
        assert(s =~= front.push(s.last()));
        let t = if front.contains(s.last()) {
            inner
        } else {
            insert_sorted::<T>(inner, s.last())
        };
        lemma_insert_sorted::<T>(inner, s.last());
        assert forall|v: T::V| #[trigger] t.contains(v) <==> s.contains(v) by {
            lemma_contains_push(front, s.last(), v);
            assert(inner.contains(v) <==> front.contains(v));
            if !front.contains(s.last()) {
                assert(insert_sorted::<T>(inner, s.last()).contains(v) <==> (inner.contains(v) || v
                    == s.last()));
            }
        }
        assert(inner.contains(s.last()) <==> front.contains(s.last()));
        assert(inner.no_duplicates());
        assert(strictly_sorted::<T>(t));
        lemma_is_the_set_form::<T>(s, t);
    }
}

/// Lists with the same items are mapped to lists with the same items.
pub proof fn lemma_map_keeps_multisets<A, B>(a: Seq<A>, b: Seq<A>, f: spec_fn(A) -> B)
    requires
        a.to_multiset() == b.to_multiset(),
    ensures
        a.map_values(f).to_multiset() == b.map_values(f).to_multiset(),
    decreases a.len(),
{
    assert(a.len() == a.to_multiset().len() == b.len());
    if a.len() == 0 {
        assert(a.map_values(f) =~= b.map_values(f));
    } else {
        let x = a.last();
        assert(a.contains(x));
        assert(b.to_multiset().count(x) > 0);
        let j = choose|j: int| 0 <= j < b.len() && b[j] == x;
        let a1 = a.remove(a.len() - 1);
        let b1 = b.remove(j);
        lemma_map_keeps_multisets(a1, b1, f);
        assert(a.map_values(f) =~= a1.map_values(f).insert(a.len() - 1, f(x)));
        assert(b.map_values(f) =~= b1.map_values(f).insert(j, f(x)));
    }
}

/// Whether the bytes of `a` do not come after those of `b`.
pub fn bytes_le(a: &[u8], b: &[u8]) -> (r: bool)
    ensures
        r == lex_le(a@, b@),
        r <==> (a@.len() <= b@.len() && b@.take(a@.len() as int) == a@) || exists|k: int|
            0 <= k < a@.len() && k < b@.len() && #[trigger] a@[k] < b@[k] && a@.take(k) == b@.take(
                k,
            ),
{
    proof {
        crate::laws::lists::law_order_is_lexicographic(a@, b@);
    }
    let mut i: usize = 0;
    assert(a@.skip(0) =~= a@ && b@.skip(0) =~= b@);
    while i < a.len() && i < b.len()
        invariant
            i <= a@.len(),
            i <= b@.len(),
            lex_le(a@, b@) == lex_le(a@.skip(i as int), b@.skip(i as int)),
        decreases a@.len() - i,
    {
        assert(a@.skip(i as int)[0] == a@[i as int]);
        assert(b@.skip(i as int)[0] == b@[i as int]);
        if a[i] != b[i] {
            proof {
                crate::laws::lists::law_order_is_lexicographic(a@, b@);
            }
            return a[i] < b[i];
        }
        assert(a@.skip(i as int).skip(1) =~= a@.skip(i + 1));
        assert(b@.skip(i as int).skip(1) =~= b@.skip(i + 1));
        i += 1;
    }
    i == a.len()
}

/// The binary form of an item.
pub fn wire_bytes<T: Wire>(item: &T) -> (bytes: Vec<u8>)
    ensures
        bytes@ == T::encode(item@),
        T::valid(item@),
{
    let mut writer = Writer::new(crate::ser::SerializationMode::Full);
    item.write(&mut writer);
    assert(Seq::<u8>::empty() + T::encode(item@) =~= T::encode(item@));
    writer.into_bytes()
}

fn wire_keys<T: Wire>(items: &Vec<T>) -> (keys: Vec<Vec<u8>>)
    ensures
        keys@.len() == items@.len(),
        forall|i: int| 0 <= i < keys@.len() ==> (#[trigger] keys@[i])@ == T::encode(items@[i]@),
        all_valid::<T>(views(items@)),
{
    let mut keys: Vec<Vec<u8>> = Vec::new();
    let mut i: usize = 0;
    while i < items.len()
        invariant
            i <= items@.len(),
            keys@.len() == i,
            forall|k: int| 0 <= k < i ==> (#[trigger] keys@[k])@ == T::encode(items@[k]@),
            forall|k: int| 0 <= k < i ==> T::valid(#[trigger] items@[k]@),
        decreases items@.len() - i,
    {
        keys.push(wire_bytes(&items[i]));
        i += 1;
    }
    keys
}

/// Whether the items are in order.
pub fn verify_sort_order<T: Wire>(items: &Vec<T>) -> (r: Result<(), ConsensusError>)
    ensures
        r == (if sorted::<T>(views(items@)) {
            Ok::<(), ConsensusError>(())
        } else {
            Err(ConsensusError::SortError)
        }),
        r is Ok <==> forall|i: int, j: int|
            0 <= i < j < views(items@).len() ==> lex_le(
                #[trigger] T::encode(views(items@)[i]),
                #[trigger] T::encode(views(items@)[j]),
            ),
        r is Err ==> r == Err::<(), ConsensusError>(ConsensusError::SortError),
{
    let keys = wire_keys(items);
    let ghost s = views(items@);
    let mut i: usize = 1;
    while i < keys.len()
        invariant
            1 <= i,
            i <= keys@.len() || keys@.len() == 0,
            s == views(items@),
            keys@.len() == s.len(),
            forall|k: int| 0 <= k < s.len() ==> (#[trigger] keys@[k])@ == T::encode(s[k]),
            forall|j: int, k: int|
                0 <= j < k < i && k < s.len() ==> lex_le(
                    #[trigger] T::encode(s[j]),
                    #[trigger] T::encode(s[k]),
                ),
        decreases keys@.len() - i,
    {
        if !bytes_le(keys[i - 1].as_slice(), keys[i].as_slice()) {
            assert(!lex_le(T::encode(s[i - 1]), T::encode(s[i as int])));
            return Err(ConsensusError::SortError);
        }
        assert forall|j: int, k: int| 0 <= j < k < i + 1 && k < s.len() implies lex_le(
            #[trigger] T::encode(s[j]),
            #[trigger] T::encode(s[k]),
        ) by {
            if k == i && j < i - 1 {
                lemma_lex_transitive(T::encode(s[j]), T::encode(s[i - 1]), T::encode(s[i as int]));
            }
        }
        i += 1;
    }
    Ok(())
}

spec fn indices_in_order(keys: Seq<Vec<u8>>, idx: Seq<usize>) -> bool {
    &&& forall|i: int| 0 <= i < idx.len() ==> 0 <= #[trigger] idx[i] < keys.len()
    &&& forall|i: int, j: int|
        0 <= i < j < idx.len() ==> lex_le(
            keys[#[trigger] idx[i] as int]@,
            keys[#[trigger] idx[j] as int]@,
        )
}

spec fn index_range(lo: usize, hi: usize) -> Seq<usize> {
    Seq::new((hi - lo) as nat, |i: int| (lo + i) as usize)
}

fn merge_indices(keys: &Vec<Vec<u8>>, a: &Vec<usize>, b: &Vec<usize>) -> (r: Vec<usize>)
    requires
        indices_in_order(keys@, a@),
        indices_in_order(keys@, b@),
    ensures
        indices_in_order(keys@, r@),
        r@.to_multiset() == (a@ + b@).to_multiset(),
{
    let mut r: Vec<usize> = Vec::new();
    let mut i: usize = 0;
    let mut j: usize = 0;
    assert(a@.take(0) + b@.take(0) =~= Seq::empty());
    assert(r@ =~= Seq::empty());
    while i < a.len() || j < b.len()
        invariant
            i <= a@.len(),
            j <= b@.len(),
            indices_in_order(keys@, a@),
            indices_in_order(keys@, b@),
            indices_in_order(keys@, r@),
            r@.to_multiset() == (a@.take(i as int) + b@.take(j as int)).to_multiset(),
            forall|k: int, m: int|
                0 <= k < r@.len() && i <= m < a@.len() ==> lex_le(
                    keys@[#[trigger] r@[k] as int]@,
                    keys@[#[trigger] a@[m] as int]@,
                ),
            forall|k: int, m: int|
                0 <= k < r@.len() && j <= m < b@.len() ==> lex_le(
                    keys@[#[trigger] r@[k] as int]@,
                    keys@[#[trigger] b@[m] as int]@,
                ),
        decreases a@.len() - i + b@.len() - j,
    {
        let left: bool = if i == a.len() {
            false
        } else if j == b.len() {
            true
        } else {
            bytes_le(&keys[a[i]], &keys[b[j]])
        };
        let ghost r0 = r@;
        if left {
            let x: usize = a[i];
            proof {
                lemma_lex_reflexive(keys@[x as int]@);
                assert forall|m: int| j <= m < b@.len() implies lex_le(
                    keys@[x as int]@,
                    keys@[#[trigger] b@[m] as int]@,
                ) by {
                    if m > j {
                        lemma_lex_transitive(
                            keys@[x as int]@,
                            keys@[b@[j as int] as int]@,
                            keys@[b@[m] as int]@,
                        );
                    }
                }
                assert(a@.take(i + 1) + b@.take(j as int) =~= (a@.take(i as int) + b@.take(
                    j as int,
                )).insert(i as int, x));
            }
            r.push(x);
            i += 1;
        } else {
            let x: usize = b[j];
            proof {
                lemma_lex_reflexive(keys@[x as int]@);
                if i < a@.len() {
                    lemma_lex_total(keys@[a@[i as int] as int]@, keys@[x as int]@);
                }
                assert forall|m: int| i <= m < a@.len() implies lex_le(
                    keys@[x as int]@,
                    keys@[#[trigger] a@[m] as int]@,
                ) by {
                    if m > i {
                        lemma_lex_transitive(
                            keys@[x as int]@,
                            keys@[a@[i as int] as int]@,
                            keys@[a@[m] as int]@,
                        );
                    }
                }
                assert(a@.take(i as int) + b@.take(j + 1) =~= (a@.take(i as int) + b@.take(
                    j as int,
                )).push(x));
            }
            r.push(x);
            j += 1;
        }
    }
    assert(a@.take(i as int) + b@.take(j as int) =~= a@ + b@);
    r
}

fn sort_indices(keys: &Vec<Vec<u8>>, lo: usize, hi: usize) -> (r: Vec<usize>)
    requires
        lo <= hi <= keys@.len(),
    ensures
        indices_in_order(keys@, r@),
        r@.to_multiset() == index_range(lo, hi).to_multiset(),
    decreases hi - lo,
{
    if hi - lo <= 1 {
        let mut r: Vec<usize> = Vec::new();
        if lo < hi {
            r.push(lo);
        }
        assert(r@ =~= index_range(lo, hi));
        r
    } else {
        let mid: usize = lo + (hi - lo) / 2;
        let a = sort_indices(keys, lo, mid);
        let b = sort_indices(keys, mid, hi);
        proof {
            vstd::seq_lib::lemma_multiset_commutative(a@, b@);
            vstd::seq_lib::lemma_multiset_commutative(index_range(lo, mid), index_range(mid, hi));
            assert(index_range(lo, mid) + index_range(mid, hi) =~= index_range(lo, hi));
        }
        merge_indices(keys, &a, &b)
    }
}

/// The items in order.
pub fn sort<T: Wire>(items: &Vec<T>) -> (r: Vec<T>)
    ensures
        is_sorted_form::<T>(views(items@), views(r@)),
        views(r@) == sorted_form::<T>(views(items@)),
        views(r@).to_multiset() == views(items@).to_multiset(),
        forall|i: int, j: int|
            0 <= i < j < views(r@).len() ==> lex_le(
                #[trigger] T::encode(views(r@)[i]),
                #[trigger] T::encode(views(r@)[j]),
            ),
        all_valid::<T>(views(items@)),
        all_valid::<T>(views(r@)),
{
    let keys = wire_keys(items);
    let idx = sort_indices(&keys, 0, items.len());
    let mut r: Vec<T> = Vec::new();
    let mut i: usize = 0;
    while i < idx.len()
        invariant
            i <= idx@.len(),
            keys@.len() == items@.len(),
            indices_in_order(keys@, idx@),
            r@.len() == i,
            forall|k: int| 0 <= k < i ==> (#[trigger] r@[k])@ == items@[idx@[k] as int]@,
        decreases idx@.len() - i,
    {
        assert(idx@[i as int] < keys@.len());
        r.push(items[idx[i]].duplicate());
        i += 1;
    }
    proof {
        let s = views(items@);
        let t = views(r@);
        let range = index_range(0, items@.len() as usize);
        let pick = |k: usize| s[k as int];
        lemma_map_keeps_multisets(idx@, range, pick);
        assert forall|k: int| 0 <= k < t.len() implies t[k] == #[trigger] idx@.map_values(pick)[k] by {
            assert(idx@[k] < keys@.len());
        }
        assert(t =~= idx@.map_values(pick));
        assert(s =~= range.map_values(pick));
        assert forall|a: int, b: int| 0 <= a < b < t.len() implies lex_le(
            #[trigger] T::encode(t[a]),
            #[trigger] T::encode(t[b]),
        ) by {
            assert(lex_le(keys@[idx@[a] as int]@, keys@[idx@[b] as int]@));
        }
        lemma_is_the_sorted_form::<T>(s, t);
    }
    r
}

/// The items in order, each once.
pub fn sort_distinct<T: Wire>(items: &Vec<T>) -> (r: Vec<T>)
    ensures
        is_set_form::<T>(views(items@), views(r@)),
        views(r@) == set_form::<T>(views(items@)),
        forall|v: T::V| #[trigger] views(r@).contains(v) <==> views(items@).contains(v),
        views(r@).no_duplicates(),
        forall|i: int, j: int|
            0 <= i < j < views(r@).len() ==> lex_le(
                #[trigger] T::encode(views(r@)[i]),
                #[trigger] T::encode(views(r@)[j]),
            ),
        all_valid::<T>(views(items@)),
        all_valid::<T>(views(r@)),
{
    let all = sort(items);
    let keys = wire_keys(&all);
    let ghost s = views(all@);
    let mut r: Vec<T> = Vec::new();
    let mut i: usize = 0;
    while i < all.len()
        invariant
            i <= all@.len(),
            s == views(all@),
            sorted::<T>(s),
            all_valid::<T>(s),
            keys@.len() == s.len(),
            forall|k: int| 0 <= k < s.len() ==> (#[trigger] keys@[k])@ == T::encode(s[k]),
            strictly_sorted::<T>(views(r@)),
            forall|v: T::V| #[trigger] views(r@).contains(v) <==> s.take(i as int).contains(v),
            i > 0 ==> r@.len() > 0 && views(r@).last() == s[i - 1],
        decreases all@.len() - i,
    {
        let ghost before = views(r@);
        let ghost x = s[i as int];
        assert(s.take(i + 1) =~= s.take(i as int).push(x));
        if i == 0 || !bytes_le(keys[i].as_slice(), keys[i - 1].as_slice()) {
            proof {
                if i > 0 {
                    lemma_lex_reflexive(T::encode(x));
                }
                assert forall|j: int| 0 <= j < before.len() implies before[j] != x && lex_le(
                    T::encode(#[trigger] before[j]),
                    T::encode(x),
                ) by {
                    assert(before.contains(before[j]));
                    let k = choose|k: int| 0 <= k < s.take(i as int).len() && s.take(i as int)[k] == before[j];
                    assert(lex_le(T::encode(s[k]), T::encode(s[i as int])));
                    if before[j] == x {
                        // an equal item would stand between its two places
                        if k < i - 1 {
                            assert(lex_le(T::encode(s[k]), T::encode(s[i - 1])));
                        }
                        assert(lex_le(T::encode(s[i - 1]), T::encode(s[i as int])));
                        lemma_lex_reflexive(T::encode(s[i - 1]));
                        lemma_lex_antisymmetric(T::encode(s[i - 1]), T::encode(x));
                        assert(false);
                    }
                }
            }
            r.push(all[i].duplicate());
            assert(views(r@) =~= before.push(x));
            assert forall|v: T::V| #[trigger] views(r@).contains(v) <==> s.take(i + 1).contains(v) by {
                lemma_contains_push(before, x, v);
                lemma_contains_push(s.take(i as int), x, v);
                assert(before.contains(v) <==> s.take(i as int).contains(v));
            }
        } else {
            proof {
                assert(lex_le(T::encode(s[i - 1]), T::encode(s[i as int])));
                lemma_lex_antisymmetric(T::encode(s[i - 1]), T::encode(x));
                lemma_encode_injective::<T>(s[i - 1], x);
                assert forall|v: T::V| #[trigger] views(r@).contains(v) <==> s.take(i + 1).contains(v) by {
                    lemma_contains_push(s.take(i as int), x, v);
                    assert(s.take(i as int)[i - 1] == x);
                }
            }
        }
        i += 1;
    }
    proof {
        assert(s.take(i as int) =~= s);
        let given = views(items@);
        assert forall|v: T::V| #[trigger] views(r@).contains(v) <==> given.contains(v) by {
            assert(s.contains(v) <==> s.to_multiset().count(v) > 0);
            assert(given.contains(v) <==> given.to_multiset().count(v) > 0);
        }
        lemma_is_the_set_form::<T>(given, views(r@));
    }
    r
}

proof fn lemma_contains_push<A>(s: Seq<A>, x: A, v: A)
    ensures
        s.push(x).contains(v) <==> (s.contains(v) || v == x),
{
    if s.contains(v) {
        let k = choose|k: int| 0 <= k < s.len() && s[k] == v;
        assert(s.push(x)[k] == v);
    }
    if v == x {
        assert(s.push(x)[s.len() as int] == v);
    }
}

/// Appends the items of a list to another.
pub fn append_all<T: Wire>(list: &mut Vec<T>, items: &Vec<T>)
    ensures
        views(final(list)@) == views(old(list)@) + views(items@),
{
    let mut i: usize = 0;
    while i < items.len()
        invariant
            i <= items@.len(),
            views(list@) == views(old(list)@) + views(items@).take(i as int),
        decreases items@.len() - i,
    {
        let ghost before = views(list@);
        list.push(items[i].duplicate());
        assert(views(list@) =~= before.push(items@[i as int]@));
        i += 1;
    }
    assert(views(items@).take(i as int) =~= views(items@));
}

/// Another list of items with the same views.
pub fn duplicate_all<T: Wire>(items: &Vec<T>) -> (r: Vec<T>)
    ensures
        views(r@) == views(items@),
{
    let mut r: Vec<T> = Vec::new();
    append_all(&mut r, items);
    assert(views(r@) =~= views(items@));
    r
}

/// Whether an item with the binary form of `item` is in a list that is in order.
pub fn among<T: Wire>(items: &Vec<T>, item: &T) -> (r: bool)
    requires
        sorted::<T>(views(items@)),
        all_valid::<T>(views(items@)),
    ensures
        r == views(items@).contains(item@),
{
    let ghost all = views(items@);
    let key = wire_bytes(item);
    let mut lo: usize = 0;
    let mut hi: usize = items.len();
    while lo < hi
        invariant
            lo <= hi <= items@.len(),
            all == views(items@),
            sorted::<T>(all),
            key@ == T::encode(item@),
            forall|k: int| 0 <= k < lo ==> !lex_le(key@, T::encode(#[trigger] all[k])),
            forall|k: int| hi <= k < all.len() ==> lex_le(key@, T::encode(#[trigger] all[k])),
        decreases hi - lo,
    {
        let mid: usize = lo + (hi - lo) / 2;
        let at = wire_bytes(&items[mid]);
        assert(at@ == T::encode(all[mid as int]));
        if bytes_le(key.as_slice(), at.as_slice()) {
            proof {
                assert forall|k: int| mid <= k < all.len() implies lex_le(
                    key@,
                    T::encode(#[trigger] all[k]),
                ) by {
                    if k > mid {
                        assert(lex_le(T::encode(all[mid as int]), T::encode(all[k])));
                        lemma_lex_transitive(key@, T::encode(all[mid as int]), T::encode(all[k]));
                    }
                }
            }
            hi = mid;
        } else {
            proof {
                assert forall|k: int| 0 <= k <= mid implies !lex_le(
                    key@,
                    T::encode(#[trigger] all[k]),
                ) by {
                    if k < mid && lex_le(key@, T::encode(all[k])) {
                        assert(lex_le(T::encode(all[k]), T::encode(all[mid as int])));
                        lemma_lex_transitive(key@, T::encode(all[k]), T::encode(all[mid as int]));
                    }
                }
            }
            lo = mid + 1;
        }
    }
    proof {
        lemma_lex_reflexive(key@);
        if all.contains(item@) {
            let k = choose|k: int| 0 <= k < all.len() && all[k] == item@;
            assert(lo <= k);
            if lo < k {
                assert(lex_le(T::encode(all[lo as int]), T::encode(all[k])));
                lemma_lex_antisymmetric(key@, T::encode(all[lo as int]));
            }
        }
    }
    if lo == items.len() {
        return false;
    }
    let at = wire_bytes(&items[lo]);
    let found = crate::ser::same_bytes(key.as_slice(), at.as_slice());
    proof {
        if found {
            lemma_encode_injective::<T>(all[lo as int], item@);
        }
    }
    found
}

/// The binary forms of the items, one after the other.
pub open spec fn encode_all<T: Wire>(s: Seq<T::V>) -> Seq<u8>
    decreases s.len(),
{
    if s.len() == 0 {
        Seq::empty()
    } else {
        T::encode(s.first()) + encode_all::<T>(s.drop_first())
    }
}

/// The `n` items that `s` starts with, and what follows them.
pub open spec fn parse_all<T: Wire>(s: Seq<u8>, n: nat) -> Result<(Seq<T::V>, Seq<u8>), SerError>
    decreases n,
{
    if n == 0 {
        Ok((Seq::empty(), s))
    } else {
        match T::parse(s) {
            Err(e) => Err(e),
            Ok((v, rest)) => match parse_all::<T>(rest, (n - 1) as nat) {
                Err(e) => Err(e),
                Ok((vs, end)) => Ok((seq![v] + vs, end)),
            },
        }
    }
}

/// The `n` items that `s` starts with, if they are in order, and what follows them.
pub open spec fn parse_sorted<T: Wire>(s: Seq<u8>, n: nat) -> Result<(Seq<T::V>, Seq<u8>), SerError> {
    match parse_all::<T>(s, n) {
        Err(e) => Err(e),
        Ok((vs, end)) => if sorted::<T>(vs) {
            Ok((vs, end))
        } else {
            Err(SerError::Consensus(ConsensusError::SortError))
        },
    }
}

pub proof fn lemma_encode_all_push<T: Wire>(s: Seq<T::V>, v: T::V)
    ensures
        encode_all::<T>(s.push(v)) == encode_all::<T>(s) + T::encode(v),
    decreases s.len(),
{
    let p = s.push(v);
    if s.len() == 0 {
        assert(p.drop_first() =~= Seq::empty());
        assert(encode_all::<T>(p.drop_first()) =~= Seq::empty());
        assert(encode_all::<T>(p) =~= encode_all::<T>(s) + T::encode(v));
    } else {
        assert(p.drop_first() =~= s.drop_first().push(v));
        lemma_encode_all_push::<T>(s.drop_first(), v);
        assert(encode_all::<T>(p) =~= encode_all::<T>(s) + T::encode(v));
    }
}

/// Items are read back from their binary forms, whatever follows them.
pub proof fn lemma_parse_all_of_encode_all<T: Wire>(s: Seq<T::V>, rest: Seq<u8>)
    requires
        all_valid::<T>(s),
    ensures
        parse_all::<T>(encode_all::<T>(s) + rest, s.len()) == Ok::<(Seq<T::V>, Seq<u8>), SerError>(
            (s, rest),
        ),
    decreases s.len(),
{
    if s.len() == 0 {
        assert(encode_all::<T>(s) + rest =~= rest);
        assert(s =~= Seq::empty());
    } else {
        let tail = s.drop_first();
        assert forall|i: int| 0 <= i < tail.len() implies T::valid(#[trigger] tail[i]) by {
            assert(tail[i] == s[i + 1]);
        }
        lemma_parse_all_of_encode_all::<T>(tail, rest);
        assert(T::valid(s[0]));
        T::lemma_parse_of_encode(s[0], encode_all::<T>(tail) + rest);
        assert(encode_all::<T>(s) + rest =~= T::encode(s[0]) + (encode_all::<T>(tail) + rest));
        assert(seq![s[0]] + tail =~= s);
    }
}

/// Items that were read are written back as the same bytes.
pub proof fn lemma_encode_all_of_parse_all<T: Wire>(s: Seq<u8>, n: nat)
    ensures
        parse_all::<T>(s, n) matches Ok((vs, rest)) ==> {
            &&& vs.len() == n
            &&& all_valid::<T>(vs)
            &&& s == encode_all::<T>(vs) + rest
        },
    decreases n,
{
    if n == 0 {
        assert(encode_all::<T>(Seq::<T::V>::empty()) + s =~= s);
    } else {
        T::lemma_encode_of_parse(s);
        match T::parse(s) {
            Err(_) => {},
            Ok((v, rest)) => {
                lemma_encode_all_of_parse_all::<T>(rest, (n - 1) as nat);
                match parse_all::<T>(rest, (n - 1) as nat) {
                    Err(_) => {},
                    Ok((vs, end)) => {
                        let all = seq![v] + vs;
                        assert(all.drop_first() =~= vs);
                        assert(T::encode(v) + (encode_all::<T>(vs) + end) =~= encode_all::<T>(all)
                            + end);
                        assert forall|i: int| 0 <= i < all.len() implies T::valid(
                            #[trigger] all[i],
                        ) by {
                            if i > 0 {
                                assert(all[i] == vs[i - 1]);
                            }
                        }
                    },
                }
            },
        }
    }
}

/// Appends the items in order.
pub fn write_sorted<T: Wire>(items: &Vec<T>, writer: &mut Writer)
    ensures
        final(writer)@ == old(writer)@ + encode_all::<T>(sorted_form::<T>(views(items@))),
        final(writer).purpose() == old(writer).purpose(),
        all_valid::<T>(views(items@)),
{
    let list = sort(items);
    let ghost s = views(list@);
    let mut i: usize = 0;
    assert(encode_all::<T>(s.take(0)) =~= Seq::empty());
    while i < list.len()
        invariant
            i <= list@.len(),
            s == views(list@),
            writer@ == old(writer)@ + encode_all::<T>(s.take(i as int)),
            writer.purpose() == old(writer).purpose(),
        decreases list@.len() - i,
    {
        list[i].write(writer);
        proof {
            lemma_encode_all_push::<T>(s.take(i as int), s[i as int]);
            assert(s.take(i + 1) =~= s.take(i as int).push(s[i as int]));
        }
        i += 1;
    }
    assert(s.take(i as int) =~= s);
}

/// Takes `count` items, which have to be in order.
pub fn read_and_verify_sorted<T: Wire>(reader: &mut Reader, count: u64) -> (r: Result<
    Vec<T>,
    SerError,
>)
    ensures
        match r {
            Ok(items) => parse_sorted::<T>(old(reader)@, count as nat) == Ok::<
                (Seq<T::V>, Seq<u8>),
                SerError,
            >((views(items@), final(reader)@)),
            Err(e) => parse_sorted::<T>(old(reader)@, count as nat) == Err::<
                (Seq<T::V>, Seq<u8>),
                SerError,
            >(e),
        },
{
    let ghost start = reader@;
    let mut items: Vec<T> = Vec::new();
    let mut i: u64 = 0;
    assert(views(items@) =~= Seq::empty());
    proof {
        match parse_all::<T>(start, count as nat) {
            Ok((vs, end)) => {
                assert(Seq::empty() + vs =~= vs);
            },
            Err(_) => {},
        }
    }
    while i < count
        invariant
            i <= count,
            parse_all::<T>(start, count as nat) == (match parse_all::<T>(
                reader@,
                (count - i) as nat,
            ) {
                Ok((vs, end)) => Ok::<(Seq<T::V>, Seq<u8>), SerError>((views(items@) + vs, end)),
                Err(e) => Err(e),
            }),
            start == old(reader)@,
        decreases count - i,
    {
        let ghost before = views(items@);
        match T::read(reader) {
            Ok(item) => {
                let ghost v = item@;
                items.push(item);
                assert(views(items@) =~= before.push(v));
                proof {
                    match parse_all::<T>(reader@, (count - i - 1) as nat) {
                        Ok((vs, end)) => {
                            assert(before + (seq![v] + vs) =~= before.push(v) + vs);
                        },
                        Err(_) => {},
                    }
                }
            },
            Err(e) => return Err(e),
        }
        i += 1;
    }
    assert(views(items@) + Seq::empty() =~= views(items@));
    match verify_sort_order(&items) {
        Ok(()) => Ok(items),
        Err(e) => Err(SerError::Consensus(e)),
    }
}

} // verus!
