//! Stable sorting.

use vstd::prelude::*;

use crate::text;
use crate::text::less;

verus! {

/// What can be sorted: a strict order in which no two things that are not below
/// one another are told apart by a third.
pub trait Sortable: Sized {
    /// Whether `self` belongs before `other`.
    spec fn below(self, other: Self) -> bool;

    /// Nothing is below itself, nor below what is below it.
    proof fn below_is_asymmetric(a: Self, b: Self)
        requires
            a.below(b),
        ensures
            !b.below(a),
    ;

    /// What is not below `b` is not below `c` either, if `b` is not.
    proof fn not_below_is_transitive(a: Self, b: Self, c: Self)
        requires
            !a.below(b),
            !b.below(c),
        ensures
            !a.below(c),
    ;

    /// Whether `self` belongs before `other`.
    fn is_below(&self, other: &Self) -> (r: bool)
        ensures
            r == self.below(*other),
    ;
}

/// `rest` with `x` before the first item that is not below it.
pub open spec fn placed<T: Sortable>(x: T, rest: Seq<T>) -> Seq<T>
    decreases rest.len(),
{
    if rest.len() == 0 {
        seq![x]
    } else if rest[0].below(x) {
        seq![rest[0]] + placed(x, rest.skip(1))
    } else {
        seq![x] + rest
    }
}

/// `s` in order; what is not told apart keeps its order.
pub open spec fn sorted<T: Sortable>(s: Seq<T>) -> Seq<T>
    decreases s.len(),
{
    if s.len() == 0 {
        s
    } else {
        placed(s[0], sorted(s.skip(1)))
    }
}

/// Whether nothing is below what stands before it.
pub open spec fn in_order<T: Sortable>(s: Seq<T>) -> bool {
    forall|i: int, j: int| 0 <= i < j < s.len() ==> !(#[trigger] s[j]).below(#[trigger] s[i])
}

/// Where `x` is placed among `rest`.
pub open spec fn place<T: Sortable>(x: T, rest: Seq<T>) -> nat
    decreases rest.len(),
{
    if rest.len() == 0 || !rest[0].below(x) {
        0
    } else {
        1 + place(x, rest.skip(1))
    }
}

/// Where `x` is placed, and that the rest stays as it is.
pub proof fn lemma_place<T: Sortable>(x: T, rest: Seq<T>)
    ensures
        place(x, rest) <= rest.len(),
        placed(x, rest) == rest.insert(place(x, rest) as int, x),
    decreases rest.len(),
{
    if rest.len() == 0 || !rest[0].below(x) {
        assert(placed(x, rest) =~= rest.insert(0, x));
    } else {
        lemma_place(x, rest.skip(1));
        let p = place(x, rest.skip(1)) as int;
        assert(seq![rest[0]] + rest.skip(1).insert(p, x) =~= rest.insert(p + 1, x));
    }
}

/// Sorts a list, stably.
#[verifier::loop_isolation(false)]
pub fn sort<T: Sortable>(items: Vec<T>) -> (out: Vec<T>)
    ensures
        out@ == sorted(items@),
{
    let ghost all = items@;
    let mut left = items;
    let mut out: Vec<T> = Vec::new();
    assert(all.skip(all.len() as int) =~= Seq::empty());
    while left.len() > 0
        invariant
            left@.len() <= all.len(),
            left@ == all.take(left@.len() as int),
            out@ == sorted(all.skip(left@.len() as int)),
        decreases left@.len(),
    {
        let ghost n = left@.len();
        let ghost rest = out@;
        if let Some(x) = left.pop() {
            assert(x == all[n - 1]);
            assert(all.skip(n - 1).skip(1) =~= all.skip(n as int));
            assert(all.skip(n - 1)[0] == x);
            let mut p: usize = 0;
            assert(rest.skip(0) =~= rest);
            while p < out.len() && out[p].is_below(&x)
                invariant
                    p <= out@.len(),
                    out@ == rest,
                    place(x, rest) == p + place(x, rest.skip(p as int)),
                decreases out@.len() - p,
            {
                assert(rest.skip(p as int).skip(1) =~= rest.skip(p + 1));
                p += 1;
            }
            proof {
                lemma_place(x, rest);
            }
            out.insert(p, x);
        }
    }
    assert(all.skip(0) =~= all);
    out
}

/// Inserting an item adds it, and nothing else.
pub proof fn lemma_insert_adds<T>(s: Seq<T>, p: int, x: T)
    requires
        0 <= p <= s.len(),
    ensures
        s.insert(p, x).to_multiset() == s.to_multiset().insert(x),
{
    broadcast use vstd::seq_lib::group_to_multiset_ensures;

    assert(s.insert(p, x) =~= s.take(p).push(x) + s.skip(p));
    assert(s =~= s.take(p) + s.skip(p));
    vstd::seq_lib::lemma_multiset_commutative(s.take(p).push(x), s.skip(p));
    vstd::seq_lib::lemma_multiset_commutative(s.take(p), s.skip(p));
    assert(s.insert(p, x).to_multiset() =~= s.to_multiset().insert(x));
}

/// Sorting keeps every item, and adds none.
pub proof fn sorting_keeps_items<T: Sortable>(s: Seq<T>)
    ensures
        sorted(s).to_multiset() == s.to_multiset(),
        sorted(s).len() == s.len(),
    decreases s.len(),
{
    if s.len() > 0 {
        let rest = sorted(s.skip(1));
        sorting_keeps_items(s.skip(1));
        lemma_place(s[0], rest);
        lemma_insert_adds(rest, place(s[0], rest) as int, s[0]);
        lemma_insert_adds(s.skip(1), 0, s[0]);
        assert(s.skip(1).insert(0, s[0]) =~= s);
    }
}

proof fn lemma_placed_in_order<T: Sortable>(x: T, rest: Seq<T>)
    requires
        in_order(rest),
    ensures
        in_order(placed(x, rest)),
    decreases rest.len(),
{
    let out = placed(x, rest);
    lemma_place(x, rest);
    let p = place(x, rest) as int;
    assert(forall|k: int| 0 <= k < p ==> rest[k].below(x)) by {
        lemma_before_place(x, rest);
    }
    assert(p < rest.len() ==> !rest[p].below(x)) by {
        lemma_before_place(x, rest);
    }
    assert forall|i: int, j: int| 0 <= i < j < out.len() implies !(#[trigger] out[j]).below(
        #[trigger] out[i],
    ) by {
        if j < p {
            assert(out[i] == rest[i] && out[j] == rest[j]);
        } else if j == p {
            assert(out[i] == rest[i] && out[j] == x);
            T::below_is_asymmetric(rest[i], x);
        } else if i < p {
            assert(out[i] == rest[i] && out[j] == rest[j - 1]);
        } else if i == p {
            assert(out[i] == x && out[j] == rest[j - 1]);
            if j - 1 > p {
                assert(!rest[j - 1].below(rest[p]));
                T::not_below_is_transitive(rest[j - 1], rest[p], x);
            }
        } else {
            assert(out[i] == rest[i - 1] && out[j] == rest[j - 1]);
        }
    }
}

proof fn lemma_before_place<T: Sortable>(x: T, rest: Seq<T>)
    ensures
        forall|k: int| 0 <= k < place(x, rest) ==> (#[trigger] rest[k]).below(x),
        place(x, rest) < rest.len() ==> !rest[place(x, rest) as int].below(x),
    decreases rest.len(),
{
    if rest.len() > 0 && rest[0].below(x) {
        let tail = rest.skip(1);
        lemma_before_place(x, tail);
        lemma_place(x, tail);
        assert forall|k: int| 0 <= k < place(x, rest) implies (#[trigger] rest[k]).below(x) by {
            if k > 0 {
                assert(rest[k] == tail[k - 1]);
            }
        }
        if place(x, tail) < tail.len() {
            assert(tail[place(x, tail) as int] == rest[place(x, tail) as int + 1]);
        }
    }
}

/// What sorting gives is in order.
pub proof fn sorting_orders<T: Sortable>(s: Seq<T>)
    ensures
        in_order(sorted(s)),
    decreases s.len(),
{
    if s.len() > 0 {
        sorting_orders(s.skip(1));
        lemma_placed_in_order(s[0], sorted(s.skip(1)));
    }
}

proof fn lemma_placed_before<T: Sortable>(x: T, s: Seq<T>, tail: Seq<T>)
    requires
        tail.len() > 0 ==> !tail[0].below(x),
    ensures
        placed(x, s + tail) == placed(x, s) + tail,
    decreases s.len(),
{
    if s.len() == 0 {
        assert(s + tail =~= tail);
        if tail.len() == 0 {
            assert(seq![x] + tail =~= seq![x]);
        }
    } else {
        assert((s + tail)[0] == s[0]);
        assert((s + tail).skip(1) =~= s.skip(1) + tail);
        if s[0].below(x) {
            lemma_placed_before(x, s.skip(1), tail);
            assert(seq![s[0]] + (placed(x, s.skip(1)) + tail) =~= seq![s[0]] + placed(x, s.skip(1))
                + tail);
        } else {
            assert(seq![x] + (s + tail) =~= seq![x] + s + tail);
        }
    }
}

/// Every item of a sorted list is one of the list.
pub proof fn lemma_sorted_within<T: Sortable>(s: Seq<T>)
    ensures
        forall|i: int| 0 <= i < sorted(s).len() ==> s.contains(#[trigger] sorted(s)[i]),
{
    broadcast use vstd::seq_lib::group_to_multiset_ensures;

    sorting_keeps_items(s);
    assert forall|i: int| 0 <= i < sorted(s).len() implies s.contains(#[trigger] sorted(s)[i]) by {
        assert(sorted(s).contains(sorted(s)[i]));
        assert(sorted(s).to_multiset().count(sorted(s)[i]) > 0);
    }
}

/// Where everything in one list belongs before everything in another, both sorted
/// together are one sorted after the other.
pub proof fn sorting_keeps_parts<T: Sortable>(a: Seq<T>, b: Seq<T>)
    requires
        forall|i: int, j: int|
            0 <= i < a.len() && 0 <= j < b.len() ==> (#[trigger] a[i]).below(#[trigger] b[j]),
    ensures
        sorted(a + b) == sorted(a) + sorted(b),
    decreases a.len(),
{
    if a.len() == 0 {
        assert(a + b =~= b);
        assert(sorted(a) + sorted(b) =~= sorted(b));
    } else {
        let rest = a.skip(1);
        assert forall|i: int, j: int| 0 <= i < rest.len() && 0 <= j < b.len() implies (
        #[trigger] rest[i]).below(#[trigger] b[j]) by {
            assert(rest[i] == a[i + 1]);
        }
        sorting_keeps_parts(rest, b);
        assert((a + b).skip(1) =~= rest + b);
        assert((a + b)[0] == a[0]);
        let tail = sorted(b);
        if tail.len() > 0 {
            lemma_sorted_within(b);
            assert(b.contains(tail[0]));
            let j = choose|j: int| 0 <= j < b.len() && b[j] == tail[0];
            T::below_is_asymmetric(a[0], b[j]);
        }
        lemma_placed_before(a[0], sorted(rest), tail);
    }
}

proof fn lemma_distinct_chars(a: char, b: char)
    requires
        a != b,
    ensures
        a as u32 != b as u32,
{
}

/// Two texts are in one order, in the other, or the same.
pub proof fn lemma_text_order(a: Seq<char>, b: Seq<char>)
    ensures
        !text::sorts_before(a, b) && !text::sorts_before(b, a) <==> a == b,
        !(text::sorts_before(a, b) && text::sorts_before(b, a)),
    decreases a.len(),
{
    if a.len() > 0 && b.len() > 0 {
        if a[0] == b[0] {
            lemma_text_order(a.skip(1), b.skip(1));
            if a.skip(1) == b.skip(1) {
                assert(a =~= seq![a[0]] + a.skip(1));
                assert(b =~= seq![b[0]] + b.skip(1));
            }
        } else {
            lemma_distinct_chars(a[0], b[0]);
            assert(a != b);
        }
    } else {
        if a.len() == 0 && b.len() == 0 {
            assert(a =~= b);
        }
    }
}

/// The order of texts is transitive.
pub proof fn lemma_text_order_transitive(a: Seq<char>, b: Seq<char>, c: Seq<char>)
    requires
        text::sorts_before(a, b),
        text::sorts_before(b, c),
    ensures
        text::sorts_before(a, c),
    decreases a.len(),
{
    if a.len() > 0 && b.len() > 0 && c.len() > 0 {
        if a[0] == b[0] && b[0] == c[0] {
            lemma_text_order_transitive(a.skip(1), b.skip(1), c.skip(1));
        }
    }
}

impl Sortable for String {
    open spec fn below(self, other: String) -> bool {
        text::sorts_before(self@, other@)
    }

    proof fn below_is_asymmetric(a: String, b: String) {
        lemma_text_order(a@, b@);
    }

    proof fn not_below_is_transitive(a: String, b: String, c: String) {
        lemma_text_order(a@, b@);
        lemma_text_order(b@, c@);
        if a.below(c) {
            if text::sorts_before(b@, a@) {
                lemma_text_order_transitive(b@, a@, c@);
            }
        }
    }

    fn is_below(&self, other: &String) -> (r: bool) {
        less(self.as_str(), other.as_str())
    }
}

} // verus!
