//! Orders and stable sorting.
use crate::text::chars_of;
use vstd::prelude::*;

verus! {

/// Whether `a` comes before `b` in the lexicographic order of code points.
pub open spec fn lex_before(a: Seq<char>, b: Seq<char>) -> bool
    decreases a.len(),
{
    if b.len() == 0 {
        false
    } else if a.len() == 0 {
        true
    } else if a.first() != b.first() {
        (a.first() as u32) < (b.first() as u32)
    } else {
        lex_before(a.drop_first(), b.drop_first())
    }
}

/// Different characters have different code points.
proof fn lemma_code_injective(p: char, q: char)
    ensures
        (p as u32 == q as u32) == (p == q),
{
}

/// The lexicographic order is transitive.
pub proof fn lemma_lex_transitive(a: Seq<char>, b: Seq<char>, c: Seq<char>)
    requires
        lex_before(a, b),
        lex_before(b, c),
    ensures
        lex_before(a, c),
    decreases a.len(),
{
    if a.len() > 0 && a.first() == b.first() && b.first() == c.first() {
        lemma_lex_transitive(a.drop_first(), b.drop_first(), c.drop_first());
    }
}

/// Of two texts exactly one comes first, unless they are equal.
pub proof fn lemma_lex_total(a: Seq<char>, b: Seq<char>)
    ensures
        a == b ==> !lex_before(a, b),
        a != b ==> lex_before(a, b) != lex_before(b, a),
    decreases a.len(),
{
    if a.len() > 0 && b.len() > 0 {
        if a.first() == b.first() {
            lemma_lex_total(a.drop_first(), b.drop_first());
            if a.drop_first() == b.drop_first() {
                assert(a =~= seq![a.first()] + a.drop_first());
                assert(b =~= seq![b.first()] + b.drop_first());
            }
        } else {
            lemma_code_injective(a.first(), b.first());
        }
    } else if a.len() == 0 && b.len() == 0 {
        assert(a =~= b);
    }
}

/// Whether `a` comes before `b` in the lexicographic order of code points.
pub fn str_before(a: &str, b: &str) -> (r: bool)
    ensures
        r == lex_before(a@, b@),
{
    let x = chars_of(a);
    let y = chars_of(b);
    let mut i: usize = 0;
    proof {
        assert(x@.skip(0) =~= x@);
        assert(y@.skip(0) =~= y@);
    }
    while i < x.len() && i < y.len()
        invariant
            i <= x@.len(),
            i <= y@.len(),
            x@ == a@,
            y@ == b@,
            lex_before(x@, y@) == lex_before(x@.skip(i as int), y@.skip(i as int)),
        decreases x@.len() - i,
    {
        if x[i] != y[i] {
            let p: char = x[i];
            let q: char = y[i];
            proof {
                assert(x@.skip(i as int).first() == p);
                assert(y@.skip(i as int).first() == q);
            }
            return (p as u32) < (q as u32);
        }
        proof {
            assert(x@.skip(i as int).drop_first() =~= x@.skip(i + 1));
            assert(y@.skip(i as int).drop_first() =~= y@.skip(i + 1));
        }
        i = i + 1;
    }
    i < y.len()
}

/// A type with an order to sort by.
pub trait Ranked: DeepView + Sized {
    /// Whether `a` has to come before `b`.
    spec fn before(a: Self::V, b: Self::V) -> bool;

    /// Whether `self` has to come before `other`.
    fn is_before(&self, other: &Self) -> (r: bool)
        ensures
            r == Self::before(self.deep_view(), other.deep_view()),
    ;
}

impl Ranked for String {
    open spec fn before(a: Seq<char>, b: Seq<char>) -> bool {
        lex_before(a, b)
    }

    fn is_before(&self, other: &Self) -> (r: bool) {
        str_before(self.as_str(), other.as_str())
    }
}

impl Ranked for u16 {
    open spec fn before(a: u16, b: u16) -> bool {
        a < b
    }

    fn is_before(&self, other: &Self) -> (r: bool) {
        *self < *other
    }
}

/// Puts `x` into `s` behind every item that `x` does not have to come before.
pub open spec fn placed<T: Ranked>(s: Seq<T::V>, x: T::V) -> Seq<T::V>
    decreases s.len(),
{
    if s.len() > 0 && T::before(x, s.last()) {
        placed::<T>(s.drop_last(), x).push(s.last())
    } else {
        s.push(x)
    }
}

/// The items of `s` in order, those of equal rank as they stood.
pub open spec fn sorted<T: Ranked>(s: Seq<T::V>) -> Seq<T::V>
    decreases s.len(),
{
    if s.len() == 0 {
        s
    } else {
        placed::<T>(sorted::<T>(s.drop_last()), s.last())
    }
}

/// Placing `x` into `s` is placing it among the first `n` items, if `x` has to
/// come before all later ones.
proof fn lemma_placed_prefix<T: Ranked>(s: Seq<T::V>, x: T::V, n: int)
    requires
        0 <= n <= s.len(),
        forall|i: int| n <= i < s.len() ==> T::before(x, s[i]),
    ensures
        placed::<T>(s, x) == placed::<T>(s.take(n), x) + s.skip(n),
    decreases s.len(),
{
    if n < s.len() {
        lemma_placed_prefix::<T>(s.drop_last(), x, n);
        assert(s.drop_last().take(n) =~= s.take(n));
        assert((placed::<T>(s.take(n), x) + s.drop_last().skip(n)).push(s.last()) =~= placed::<T>(
            s.take(n),
            x,
        ) + s.skip(n));
    } else {
        assert(s.take(n) =~= s);
        assert(placed::<T>(s, x) + s.skip(n) =~= placed::<T>(s, x));
    }
}

/// Puts `x` into `v` behind every item that `x` does not have to come before.
pub fn place<T: Ranked>(v: &mut Vec<T>, x: T)
    ensures
        final(v).deep_view() == placed::<T>(old(v).deep_view(), x.deep_view()),
{
    let ghost s = v.deep_view();
    let ghost e = x.deep_view();
    let mut n: usize = v.len();
    while n > 0 && x.is_before(&v[n - 1])
        invariant
            n <= v@.len(),
            s == v.deep_view(),
            e == x.deep_view(),
            forall|i: int| n <= i < s.len() ==> T::before(e, s[i]),
        decreases n,
    {
        n = n - 1;
    }
    proof {
        lemma_placed_prefix::<T>(s, e, n as int);
        assert(n > 0 ==> s.take(n as int).last() == v@[n - 1].deep_view());
        assert(placed::<T>(s.take(n as int), e) == s.take(n as int).push(e));
    }
    v.insert(n, x);
    proof {
        assert(v.deep_view() =~= s.take(n as int).push(e) + s.skip(n as int));
    }
}

/// The items of `v` in order, those of equal rank as they stood.
pub fn stable_sort<T: Ranked>(v: Vec<T>) -> (r: Vec<T>)
    ensures
        r.deep_view() == sorted::<T>(v.deep_view()),
{
    let ghost all = v@;
    let ghost s = v.deep_view();
    let mut out: Vec<T> = Vec::new();
    proof {
        assert(out.deep_view() =~= sorted::<T>(s.take(0)));
    }
    for x in it: v
        invariant
            it.seq() == all,
            s.len() == all.len(),
            forall|i: int| 0 <= i < all.len() ==> s[i] == all[i].deep_view(),
            out.deep_view() == sorted::<T>(s.take(it.index() as int)),
    {
        proof {
            assert(s.take(it.index() + 1).drop_last() =~= s.take(it.index() as int));
            assert(s.take(it.index() + 1).last() == x.deep_view());
        }
        place(&mut out, x);
    }
    proof {
        assert(s.take(s.len() as int) =~= s);
    }
    out
}

/// Whether no item of `s` has to come before an earlier one.
pub open spec fn in_order<T: Ranked>(s: Seq<T::V>) -> bool {
    forall|i: int, j: int| 0 <= i < j < s.len() ==> !T::before(#[trigger] s[j], #[trigger] s[i])
}

/// Whether `before` is an order: what comes before something does not come
/// after it, and neither "before" nor "not before" breaks along a chain.
pub open spec fn is_order<T: Ranked>() -> bool {
    &&& forall|a: T::V, b: T::V| #[trigger] T::before(a, b) ==> !T::before(b, a)
    &&& forall|a: T::V, b: T::V, c: T::V|
        #[trigger] T::before(a, b) && #[trigger] T::before(b, c) ==> T::before(a, c)
    &&& forall|a: T::V, b: T::V, c: T::V|
        !(#[trigger] T::before(a, b)) && !(#[trigger] T::before(b, c)) ==> !T::before(a, c)
}

/// Placing keeps the items: `placed` has those of `s`, and `x`.
pub proof fn lemma_placed_items<T: Ranked>(s: Seq<T::V>, x: T::V)
    ensures
        placed::<T>(s, x).to_multiset() == s.to_multiset().insert(x),
        placed::<T>(s, x).len() == s.len() + 1,
    decreases s.len(),
{
    broadcast use vstd::seq_lib::group_to_multiset_ensures;

    if s.len() > 0 && T::before(x, s.last()) {
        lemma_placed_items::<T>(s.drop_last(), x);
        assert(s.drop_last().push(s.last()) =~= s);
        assert(placed::<T>(s, x).to_multiset() =~= s.to_multiset().insert(x));
    } else {
        assert(placed::<T>(s, x).to_multiset() =~= s.to_multiset().insert(x));
    }
}

/// Sorting keeps the items: none is lost, none is added.
pub proof fn law_sorted_is_permutation<T: Ranked>(s: Seq<T::V>)
    ensures
        sorted::<T>(s).to_multiset() == s.to_multiset(),
        sorted::<T>(s).len() == s.len(),
    decreases s.len(),
{
    broadcast use vstd::seq_lib::group_to_multiset_ensures;

    if s.len() > 0 {
        law_sorted_is_permutation::<T>(s.drop_last());
        lemma_placed_items::<T>(sorted::<T>(s.drop_last()), s.last());
        assert(s.drop_last().push(s.last()) =~= s);
    }
}

/// Placing an item keeps the order.
pub proof fn lemma_placed_in_order<T: Ranked>(s: Seq<T::V>, x: T::V)
    requires
        is_order::<T>(),
        in_order::<T>(s),
    ensures
        in_order::<T>(placed::<T>(s, x)),
        forall|y: T::V| #[trigger] placed::<T>(s, x).contains(y) ==> y == x || s.contains(y),
    decreases s.len(),
{
    let p = placed::<T>(s, x);
    if s.len() > 0 && T::before(x, s.last()) {
        let q = placed::<T>(s.drop_last(), x);
        lemma_placed_in_order::<T>(s.drop_last(), x);
        assert(p == q.push(s.last()));
        assert forall|i: int, j: int| 0 <= i < j < p.len() implies !T::before(
            #[trigger] p[j],
            #[trigger] p[i],
        ) by {
            if j == p.len() - 1 {
                assert(q.contains(q[i]));
                if p[i] != x {
                    assert(s.drop_last().contains(p[i]));
                    let k = choose|k: int| 0 <= k < s.drop_last().len() && s.drop_last()[k] == p[i];
                    assert(!T::before(s[s.len() - 1], s[k]));
                }
            } else {
                assert(!T::before(q[j], q[i]));
            }
        }
        assert forall|y: T::V| #[trigger] p.contains(y) implies y == x || s.contains(y) by {
            let k = choose|k: int| 0 <= k < p.len() && p[k] == y;
            if k < p.len() - 1 {
                assert(q[k] == y);
                assert(q.contains(y));
                if y != x {
                    let m = choose|m: int| 0 <= m < s.drop_last().len() && s.drop_last()[m] == y;
                    assert(s[m] == y);
                }
            } else {
                assert(s[s.len() - 1] == y);
            }
        }
    } else {
        assert forall|i: int, j: int| 0 <= i < j < p.len() implies !T::before(
            #[trigger] p[j],
            #[trigger] p[i],
        ) by {
            if j == p.len() - 1 {
                assert(!T::before(x, s[s.len() - 1]));
                if i < s.len() - 1 {
                    assert(!T::before(s[s.len() - 1], s[i]));
                }
            } else {
                assert(!T::before(s[j], s[i]));
            }
        }
        assert forall|y: T::V| #[trigger] p.contains(y) implies y == x || s.contains(y) by {
            let k = choose|k: int| 0 <= k < p.len() && p[k] == y;
            if k < s.len() {
                assert(s[k] == y);
            }
        }
    }
}

/// Sorting puts the items in order.
pub proof fn law_sorted_in_order<T: Ranked>(s: Seq<T::V>)
    requires
        is_order::<T>(),
    ensures
        in_order::<T>(sorted::<T>(s)),
    decreases s.len(),
{
    if s.len() > 0 {
        law_sorted_in_order::<T>(s.drop_last());
        lemma_placed_in_order::<T>(sorted::<T>(s.drop_last()), s.last());
    }
}

/// Text is ordered.
pub proof fn lemma_text_order()
    ensures
        is_order::<String>(),
{
    assert forall|a: Seq<char>, b: Seq<char>| #[trigger] String::before(
        a,
        b,
    ) implies !String::before(b, a) by {
        lemma_lex_total(a, b);
    }
    assert forall|a: Seq<char>, b: Seq<char>, c: Seq<char>| #[trigger]
        String::before(a, b) && #[trigger] String::before(b, c) implies String::before(a, c) by {
        lemma_lex_transitive(a, b, c);
    }
    assert forall|a: Seq<char>, b: Seq<char>, c: Seq<char>|
        !(#[trigger] String::before(a, b)) && !(#[trigger] String::before(b, c)) implies !String::before(
        a, c) by {
        lemma_lex_total(a, b);
        lemma_lex_total(b, c);
        lemma_lex_total(a, c);
        if lex_before(a, c) && a != b && b != c {
            lemma_lex_transitive(c, b, a);
        }
    }
}

/// Two lists with the same items have the same images.
pub proof fn lemma_map_permutation<A, B>(a: Seq<A>, b: Seq<A>, f: spec_fn(A) -> B)
    requires
        a.to_multiset() == b.to_multiset(),
    ensures
        a.map_values(f).to_multiset() == b.map_values(f).to_multiset(),
    decreases a.len(),
{
    broadcast use vstd::seq_lib::group_to_multiset_ensures;

    if a.len() == 0 {
        if b.len() > 0 {
            assert(b.to_multiset().count(b[0]) > 0);
            assert(a.to_multiset().count(b[0]) > 0);
        }
        assert(a.map_values(f) =~= b.map_values(f));
    } else {
        let x = a.last();
        assert(a[a.len() - 1] == x);
        assert(a.contains(x));
        assert(b.to_multiset().count(x) > 0);
        let k = choose|k: int| 0 <= k < b.len() && b[k] == x;
        let c = b.remove(k);
        assert(a.drop_last().push(x) =~= a);
        assert(c.insert(k, x) =~= b);
        assert(a.to_multiset() =~= a.drop_last().to_multiset().insert(x));
        assert(b.to_multiset() =~= c.to_multiset().insert(x));
        assert(a.drop_last().to_multiset() =~= c.to_multiset());
        lemma_map_permutation(a.drop_last(), c, f);
        assert(a.map_values(f) =~= a.drop_last().map_values(f).push(f(x)));
        assert(b.map_values(f) =~= c.map_values(f).insert(k, f(x)));
        assert(a.map_values(f).to_multiset() =~= b.map_values(f).to_multiset());
    }
}

/// Two lists with the same items have the same items.
pub proof fn lemma_permutation_contains<A>(a: Seq<A>, b: Seq<A>, x: A)
    requires
        a.to_multiset() == b.to_multiset(),
    ensures
        a.contains(x) == b.contains(x),
{
    broadcast use vstd::seq_lib::group_to_multiset_ensures;

    assert(a.to_multiset().count(x) > 0 <==> a.contains(x));
    assert(b.to_multiset().count(x) > 0 <==> b.contains(x));
}

/// Of two lists with the same items, both repeat none or both repeat one.
pub proof fn lemma_permutation_distinct<A>(a: Seq<A>, b: Seq<A>)
    requires
        a.to_multiset() == b.to_multiset(),
        a.no_duplicates(),
    ensures
        b.no_duplicates(),
{
    a.lemma_multiset_has_no_duplicates();
    b.lemma_multiset_has_no_duplicates_conv();
}

/// Whether two items may stand in any order.
pub open spec fn alike<T: Ranked>(a: T::V, b: T::V) -> bool {
    !T::before(a, b) && !T::before(b, a)
}

/// The items that rank like `x`.
pub open spec fn peers<T: Ranked>(s: Seq<T::V>, x: T::V) -> Seq<T::V> {
    s.filter(|y: T::V| alike::<T>(x, y))
}

/// Placing an item puts it behind its peers.
proof fn lemma_placed_peers<T: Ranked>(s: Seq<T::V>, y: T::V, x: T::V)
    requires
        is_order::<T>(),
        in_order::<T>(s),
    ensures
        peers::<T>(placed::<T>(s, y), x) == peers::<T>(s.push(y), x),
    decreases s.len(),
{
    reveal(Seq::filter);
    let p = |z: T::V| alike::<T>(x, z);
    assert(s.push(y).drop_last() =~= s);
    if s.len() > 0 && T::before(y, s.last()) {
        let rest = s.drop_last();
        assert forall|i: int, j: int| 0 <= i < j < rest.len() implies !T::before(
            #[trigger] rest[j],
            #[trigger] rest[i],
        ) by {
            assert(!T::before(s[j], s[i]));
        }
        lemma_placed_peers::<T>(rest, y, x);
        let q = placed::<T>(rest, y);
        assert(q.push(s.last()).drop_last() =~= q);
        assert(rest.push(y).drop_last() =~= rest);
        // `y` and the last item cannot both rank like `x`.
        assert(!(p(y) && p(s.last())));
        assert(s.filter(p) == if p(s.last()) {
            rest.filter(p).push(s.last())
        } else {
            rest.filter(p)
        });
    }
}

/// Sorting is stable: items that rank alike stay in the order they had.
pub proof fn law_sorted_stable<T: Ranked>(s: Seq<T::V>, x: T::V)
    requires
        is_order::<T>(),
    ensures
        peers::<T>(sorted::<T>(s), x) == peers::<T>(s, x),
    decreases s.len(),
{
    reveal(Seq::filter);
    if s.len() > 0 {
        let rest = s.drop_last();
        law_sorted_stable::<T>(rest, x);
        law_sorted_in_order::<T>(rest);
        lemma_placed_peers::<T>(sorted::<T>(rest), s.last(), x);
        assert(sorted::<T>(rest).push(s.last()).drop_last() =~= sorted::<T>(rest));
        assert(s.drop_last() =~= rest);
    }
}

/// Of two texts, the one with the smaller code point where they first differ comes
/// first; a text comes before what it is the beginning of.
pub proof fn law_text_order(p: Seq<char>, c: char, x: Seq<char>, d: char, y: Seq<char>)
    ensures
        c != d ==> (lex_before(p + seq![c] + x, p + seq![d] + y) <==> (c as u32) < (d as u32)),
        lex_before(p, p + seq![c] + x),
        !lex_before(p + x, p),
    decreases p.len(),
{
    let (a, b) = (p + seq![c] + x, p + seq![d] + y);
    if p.len() == 0 {
        assert(a.first() == c && b.first() == d);
    } else {
        let q = p.drop_first();
        law_text_order(q, c, x, d, y);
        assert(a.drop_first() =~= q + seq![c] + x);
        assert(b.drop_first() =~= q + seq![d] + y);
        assert((p + x).drop_first() =~= q + x);
    }
}

/// Texts are ranked by that order, and numbers by their size.
pub proof fn law_ranks(a: Seq<char>, b: Seq<char>, m: u16, n: u16)
    ensures
        String::before(a, b) <==> lex_before(a, b),
        u16::before(m, n) <==> m < n,
{
}

} // verus!
