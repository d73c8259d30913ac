//! Text as sequences of characters.
//!
//! The executable functions work on `&str` or on slices of `char`; every
//! contract speaks of the sequence of characters that the text holds.
use crate::deep::deep_chars;
use vstd::prelude::*;
use vstd::string::*;
use vstd::utf8::*;

verus! {

broadcast use deep_chars;

/// `String::push` appends one character.
pub assume_specification[ String::push ](s: &mut String, c: char)
    ensures
        final(s)@ == old(s)@.push(c),
;

/// The characters of `s`, in order.
pub fn chars_of(s: &str) -> (r: Vec<char>)
    ensures
        r@ == s@,
{
    let mut r: Vec<char> = Vec::new();
    for c in it: s.chars()
        invariant
            r@ == it.seq().take(it.index()),
            it.seq() == s@,
    {
        r.push(c);
        proof {
            assert(r@ =~= it.seq().take(it.index() + 1));
        }
    }
    proof {
        assert(r@ =~= s@);
    }
    r
}

/// The text that holds the characters of `v`.
pub fn string_of(v: &[char]) -> (r: String)
    ensures
        r@ == v@,
{
    let mut r: String = String::new();
    let mut i: usize = 0;
    while i < v.len()
        invariant
            i <= v@.len(),
            r@ == v@.take(i as int),
        decreases v@.len() - i,
    {
        r.push(v[i]);
        i = i + 1;
        proof {
            assert(r@ =~= v@.take(i as int));
        }
    }
    proof {
        assert(r@ =~= v@);
    }
    r
}

/// Two texts hold the same bytes exactly when they hold the same characters.
pub proof fn lemma_utf8_injective(a: Seq<char>, b: Seq<char>)
    requires
        encode_utf8(a) == encode_utf8(b),
    ensures
        a == b,
{
    encode_utf8_decode_utf8(a);
    encode_utf8_decode_utf8(b);
}

/// Whether two texts hold the same characters.
pub fn str_eq(a: &str, b: &str) -> (r: bool)
    ensures
        r == (a@ == b@),
{
    let x = a.as_bytes();
    let y = b.as_bytes();
    if x.len() != y.len() {
        return false;
    }
    let mut i: usize = 0;
    while i < x.len()
        invariant
            x@.len() == y@.len(),
            i <= x@.len(),
            x@ == encode_utf8(a@),
            y@ == encode_utf8(b@),
            forall|j: int| 0 <= j < i ==> x@[j] == y@[j],
        decreases x@.len() - i,
    {
        if x[i] != y[i] {
            return false;
        }
        i = i + 1;
    }
    proof {
        assert(x@ =~= y@);
        lemma_utf8_injective(a@, b@);
    }
    true
}

/// A class of characters.
#[derive(Clone, Copy)]
pub enum Class {
    /// One character.
    Only(char),
    /// Unicode white space.
    Space,
    /// The decimal digits of ASCII.
    Digit,
}

/// The characters with the Unicode property White_Space.
pub open spec fn is_space(c: char) -> bool {
    let n = c as u32;
    ||| 0x09 <= n <= 0x0d
    ||| n == 0x20
    ||| n == 0x85
    ||| n == 0xa0
    ||| n == 0x1680
    ||| 0x2000 <= n <= 0x200a
    ||| n == 0x2028
    ||| n == 0x2029
    ||| n == 0x202f
    ||| n == 0x205f
    ||| n == 0x3000
}

/// `0` to `9`.
pub open spec fn is_digit(c: char) -> bool {
    0x30 <= c as u32 <= 0x39
}

impl Class {
    /// Whether the class has the character `c`.
    pub open spec fn has(self, c: char) -> bool {
        match self {
            Class::Only(x) => c == x,
            Class::Space => is_space(c),
            Class::Digit => is_digit(c),
        }
    }

    /// Whether the class has the character `c`.
    pub fn contains(self, c: char) -> (r: bool)
        ensures
            r == self.has(c),
    {
        match self {
            Class::Only(x) => c == x,
            Class::Space => {
                let n: u32 = c as u32;
                (0x09 <= n && n <= 0x0d) || n == 0x20 || n == 0x85 || n == 0xa0 || n == 0x1680 || (
                0x2000 <= n && n <= 0x200a) || n == 0x2028 || n == 0x2029 || n == 0x202f || n
                    == 0x205f || n == 0x3000
            },
            Class::Digit => {
                let n: u32 = c as u32;
                0x30 <= n && n <= 0x39
            },
        }
    }
}

/// `s` without its leading characters of class `k`.
pub open spec fn strip_start(s: Seq<char>, k: Class) -> Seq<char>
    decreases s.len(),
{
    if s.len() > 0 && k.has(s.first()) {
        strip_start(s.drop_first(), k)
    } else {
        s
    }
}

/// `s` without its trailing characters of class `k`.
pub open spec fn strip_end(s: Seq<char>, k: Class) -> Seq<char>
    decreases s.len(),
{
    if s.len() > 0 && k.has(s.last()) {
        strip_end(s.drop_last(), k)
    } else {
        s
    }
}

/// `s` without its leading and trailing characters of class `k`.
pub open spec fn strip(s: Seq<char>, k: Class) -> Seq<char> {
    strip_end(strip_start(s, k), k)
}

/// The leading characters of class `k`.
pub open spec fn leading(s: Seq<char>, k: Class) -> Seq<char> {
    s.take(s.len() - strip_start(s, k).len())
}

/// `v` without its leading characters of class `k`.
pub fn trim_start(v: &[char], k: Class) -> (r: &[char])
    ensures
        r@ == strip_start(v@, k),
        r@.len() <= v@.len(),
        r@ == v@.skip(v@.len() - r@.len()),
{
    let mut i: usize = 0;
    proof {
        assert(v@.skip(0) =~= v@);
    }
    while i < v.len() && k.contains(v[i])
        invariant
            i <= v@.len(),
            strip_start(v@, k) == strip_start(v@.skip(i as int), k),
        decreases v@.len() - i,
    {
        proof {
            assert(v@.skip(i as int).drop_first() =~= v@.skip(i + 1));
        }
        i = i + 1;
    }
    proof {
        assert(i < v@.len() ==> v@.skip(i as int).first() == v@[i as int]);
    }
    vstd::slice::slice_subrange(v, i, v.len())
}

/// `v` without its trailing characters of class `k`.
pub fn trim_end(v: &[char], k: Class) -> (r: &[char])
    ensures
        r@ == strip_end(v@, k),
        r@.len() <= v@.len(),
        r@ == v@.take(r@.len() as int),
{
    let mut n: usize = v.len();
    proof {
        assert(v@.take(n as int) =~= v@);
    }
    while n > 0 && k.contains(v[n - 1])
        invariant
            n <= v@.len(),
            strip_end(v@, k) == strip_end(v@.take(n as int), k),
        decreases n,
    {
        proof {
            assert(v@.take(n as int).drop_last() =~= v@.take(n - 1));
        }
        n = n - 1;
    }
    proof {
        assert(n > 0 ==> v@.take(n as int).last() == v@[n - 1]);
    }
    vstd::slice::slice_subrange(v, 0, n)
}

/// `v` without its leading and trailing characters of class `k`.
pub fn trim(v: &[char], k: Class) -> (r: &[char])
    ensures
        r@ == strip(v@, k),
{
    trim_end(trim_start(v, k), k)
}

/// The leading characters of class `k`.
pub fn take_class(v: &[char], k: Class) -> (r: &[char])
    ensures
        r@ == leading(v@, k),
{
    let n: usize = v.len() - trim_start(v, k).len();
    vstd::slice::slice_subrange(v, 0, n)
}

/// The pieces of `s` between the characters of class `k`: one more than there
/// are such characters.
pub open spec fn split(s: Seq<char>, k: Class) -> Seq<Seq<char>>
    decreases s.len(),
{
    if s.len() == 0 {
        seq![Seq::empty()]
    } else {
        let before = split(s.drop_last(), k);
        if k.has(s.last()) {
            before.push(Seq::empty())
        } else {
            before.drop_last().push(before.last().push(s.last()))
        }
    }
}

/// The pieces of `v` between the characters of class `k`.
pub fn split_at_class(v: &[char], k: Class) -> (r: Vec<Vec<char>>)
    ensures
        r.deep_view() == split(v@, k),
        r@.len() > 0,
{
    let mut out: Vec<Vec<char>> = Vec::new();
    let mut cur: Vec<char> = Vec::new();
    let mut i: usize = 0;
    proof {
        assert(out.deep_view().push(cur@) =~= split(v@.take(0), k));
    }
    while i < v.len()
        invariant
            i <= v@.len(),
            out.deep_view().push(cur@) == split(v@.take(i as int), k),
        decreases v@.len() - i,
    {
        let c: char = v[i];
        let ghost before = out.deep_view();
        let ghost piece = cur@;
        proof {
            assert(v@.take(i + 1).drop_last() =~= v@.take(i as int));
            assert(before.push(piece).drop_last() =~= before);
        }
        if k.contains(c) {
            out.push(cur);
            cur = Vec::new();
            proof {
                assert(out.deep_view() =~= before.push(piece));
                assert(cur@ =~= Seq::<char>::empty());
            }
        } else {
            cur.push(c);
        }
        i = i + 1;
    }
    let ghost before = out.deep_view();
    let ghost piece = cur@;
    out.push(cur);
    proof {
        assert(out.deep_view() =~= before.push(piece));
        assert(v@.take(i as int) =~= v@);
    }
    out
}

/// The maximal runs of `s` without white space.
pub open spec fn words(s: Seq<char>) -> Seq<Seq<char>> {
    split(s, Class::Space).filter(|w: Seq<char>| w.len() > 0)
}

/// The maximal runs of `v` without white space.
pub fn split_words(v: &[char]) -> (r: Vec<Vec<char>>)
    ensures
        r.deep_view() == words(v@),
{
    let pieces = split_at_class(v, Class::Space);
    let ghost all = pieces.deep_view();
    let ghost keep = |w: Seq<char>| w.len() > 0;
    let mut out: Vec<Vec<char>> = Vec::new();
    let mut i: usize = 0;
    proof {
        reveal(Seq::filter);
        assert(out.deep_view() =~= all.take(0).filter(keep));
    }
    while i < pieces.len()
        invariant
            i <= pieces@.len(),
            all == pieces.deep_view(),
            keep == (|w: Seq<char>| w.len() > 0),
            out.deep_view() == all.take(i as int).filter(keep),
        decreases pieces@.len() - i,
    {
        let ghost before = out.deep_view();
        proof {
            reveal(Seq::filter);
            assert(all.take(i + 1).drop_last() =~= all.take(i as int));
            assert(all.take(i + 1).last() == pieces@[i as int]@);
        }
        if pieces[i].len() > 0 {
            let copy = vstd::slice::slice_to_vec(pieces[i].as_slice());
            out.push(copy);
            proof {
                assert(out.deep_view() =~= before.push(pieces@[i as int]@));
            }
        }
        i = i + 1;
    }
    proof {
        assert(all.take(i as int) =~= all);
    }
    out
}

/// `s` without one trailing carriage return.
pub open spec fn chop_return(s: Seq<char>) -> Seq<char> {
    if s.len() > 0 && s.last() == '\r' {
        s.drop_last()
    } else {
        s
    }
}

/// The lines of a text: each ends in a line feed, or a carriage return and a
/// line feed; what follows the last line feed is a line if it is not empty.
pub open spec fn lines(s: Seq<char>) -> Seq<Seq<char>> {
    let pieces = split(s, Class::Only('\n'));
    let ended = pieces.drop_last().map_values(|l: Seq<char>| chop_return(l));
    if pieces.last().len() > 0 {
        ended.push(pieces.last())
    } else {
        ended
    }
}

/// The lines of `v`.
pub fn split_lines(v: &[char]) -> (r: Vec<Vec<char>>)
    ensures
        r.deep_view() == lines(v@),
{
    let pieces = split_at_class(v, Class::Only('\n'));
    let ghost all = pieces.deep_view();
    let ghost ended = all.drop_last().map_values(|l: Seq<char>| chop_return(l));
    let mut out: Vec<Vec<char>> = Vec::new();
    let last: usize = pieces.len() - 1;
    let mut i: usize = 0;
    while i < last
        invariant
            i <= last,
            last == pieces@.len() - 1,
            all == pieces.deep_view(),
            ended == all.drop_last().map_values(|l: Seq<char>| chop_return(l)),
            out.deep_view() =~= ended.take(i as int),
        decreases last - i,
    {
        let ghost before = out.deep_view();
        let mut l = vstd::slice::slice_to_vec(pieces[i].as_slice());
        if l.len() > 0 && l[l.len() - 1] == '\r' {
            l.pop();
        }
        proof {
            assert(l@ =~= ended[i as int]);
        }
        let ghost line = l@;
        out.push(l);
        proof {
            assert(out.deep_view() =~= before.push(line));
        }
        i = i + 1;
    }
    proof {
        assert(all.last() == pieces@[last as int]@);
        assert(ended.take(i as int) =~= ended);
    }
    if pieces[last].len() > 0 {
        let ghost before = out.deep_view();
        let l = vstd::slice::slice_to_vec(pieces[last].as_slice());
        out.push(l);
        proof {
            assert(out.deep_view() =~= before.push(all.last()));
        }
    }
    out
}

/// Whether `pat` stands in `s` at index `i`.
pub open spec fn occurs_at<T>(s: Seq<T>, pat: Seq<T>, i: int) -> bool {
    0 <= i && i + pat.len() <= s.len() && s.subrange(i, i + pat.len()) == pat
}

/// The least index from `from` on at which `pat` stands in `s`.
pub open spec fn find<T>(s: Seq<T>, pat: Seq<T>, from: int) -> Option<int>
    decreases s.len() - from + 1,
{
    if from < 0 || from + pat.len() > s.len() {
        None
    } else if occurs_at(s, pat, from) {
        Some(from)
    } else {
        find(s, pat, from + 1)
    }
}

/// `find` finds the least index, if there is one.
pub proof fn lemma_find_least<T>(s: Seq<T>, pat: Seq<T>, from: int)
    requires
        0 <= from,
    ensures
        match find(s, pat, from) {
            Some(i) => from <= i && occurs_at(s, pat, i) && forall|j: int|
                from <= j < i ==> !occurs_at(s, pat, j),
            None => forall|j: int| from <= j ==> !occurs_at(s, pat, j),
        },
    decreases s.len() - from + 1,
{
    if from + pat.len() <= s.len() && !occurs_at(s, pat, from) {
        lemma_find_least(s, pat, from + 1);
    }
}

/// Whether `pat` stands in `v` at index `i`.
pub fn stands_at(v: &[char], pat: &[char], i: usize) -> (r: bool)
    ensures
        r == occurs_at(v@, pat@, i as int),
{
    if i > v.len() || pat.len() > v.len() - i {
        return false;
    }
    let n: usize = v.len();
    let mut j: usize = 0;
    while j < pat.len()
        invariant
            j <= pat@.len(),
            n == v@.len(),
            i + pat@.len() <= v@.len(),
            v@.subrange(i as int, i + j) =~= pat@.take(j as int),
        decreases pat@.len() - j,
    {
        if v[i + j] != pat[j] {
            proof {
                assert(v@.subrange(i as int, i + pat@.len())[j as int] != pat@[j as int]);
            }
            return false;
        }
        j = j + 1;
    }
    proof {
        assert(pat@.take(j as int) =~= pat@);
    }
    true
}

/// The least index from `from` on at which `pat` stands in `v`.
pub fn find_chars(v: &[char], pat: &[char], from: usize) -> (r: Option<usize>)
    ensures
        match r {
            Some(i) => find(v@, pat@, from as int) == Some(i as int),
            None => find(v@, pat@, from as int) is None,
        },
        r matches Some(i) ==> occurs_at(v@, pat@, i as int) && from <= i,
{
    let mut i: usize = from;
    while i <= v.len() && pat.len() <= v.len() - i
        invariant
            from <= i,
            i <= v@.len() || i == from,
            find(v@, pat@, from as int) == find(v@, pat@, i as int),
        decreases v@.len() - i,
    {
        if stands_at(v, pat, i) {
            return Some(i);
        }
        if i == v.len() {
            proof {
                assert(find(v@, pat@, i + 1) is None);
            }
            return None;
        }
        i = i + 1;
    }
    None
}

/// Whether `v` starts with `pat`.
pub fn starts_with(v: &[char], pat: &[char]) -> (r: bool)
    ensures
        r == pat@.is_prefix_of(v@),
{
    let r = stands_at(v, pat, 0);
    r
}

/// Whether `v` ends with `pat`.
pub fn ends_with(v: &[char], pat: &[char]) -> (r: bool)
    ensures
        r == pat@.is_suffix_of(v@),
{
    if pat.len() > v.len() {
        return false;
    }
    stands_at(v, pat, v.len() - pat.len())
}

/// The texts before and after the first character `c`.
pub open spec fn split_once(s: Seq<char>, c: char) -> Option<(Seq<char>, Seq<char>)> {
    match find(s, seq![c], 0) {
        Some(i) => Some((s.take(i), s.skip(i + 1))),
        None => None,
    }
}

/// The texts before and after the first character `c`.
pub fn cut_once(v: &[char], c: char) -> (r: Option<(&[char], &[char])>)
    ensures
        match r {
            Some(p) => split_once(v@, c) == Some((p.0@, p.1@)),
            None => split_once(v@, c) is None,
        },
{
    let pat: [char; 1] = [c];
    proof {
        assert(pat@ =~= seq![c]);
    }
    match find_chars(v, pat.as_slice(), 0) {
        Some(i) => {
            let n: usize = v.len();
            let a = vstd::slice::slice_subrange(v, 0, i);
            let b = vstd::slice::slice_subrange(v, i + 1, n);
            Some((a, b))
        },
        None => None,
    }
}

/// The text after the last character `c`.
pub open spec fn after_last(s: Seq<char>, c: char) -> Option<Seq<char>>
    decreases s.len(),
{
    if s.len() == 0 {
        None
    } else if s.last() == c {
        Some(Seq::empty())
    } else {
        match after_last(s.drop_last(), c) {
            Some(t) => Some(t.push(s.last())),
            None => None,
        }
    }
}

/// The text after the last character `c`.
pub fn tail_after_last(v: &[char], c: char) -> (r: Option<&[char]>)
    ensures
        match r {
            Some(t) => after_last(v@, c) == Some(t@),
            None => after_last(v@, c) is None,
        },
{
    let mut at: Option<usize> = None;
    let mut i: usize = 0;
    while i < v.len()
        invariant
            i <= v@.len(),
            match at {
                Some(p) => p <= i && after_last(v@.take(i as int), c) == Some(
                    v@.subrange(p as int, i as int),
                ),
                None => after_last(v@.take(i as int), c) is None,
            },
        decreases v@.len() - i,
    {
        proof {
            assert(v@.take(i + 1).drop_last() =~= v@.take(i as int));
        }
        if v[i] == c {
            at = Some(i + 1);
            proof {
                assert(v@.subrange(i + 1, i + 1) =~= Seq::empty());
            }
        } else {
            proof {
                if let Some(p) = at {
                    assert(v@.subrange(p as int, i as int).push(v@[i as int]) =~= v@.subrange(
                        p as int,
                        i + 1,
                    ));
                }
            }
        }
        i = i + 1;
    }
    proof {
        assert(v@.take(i as int) =~= v@);
    }
    match at {
        Some(p) => Some(vstd::slice::slice_subrange(v, p, v.len())),
        None => None,
    }
}

/// The lower case of an ASCII letter; any other character as it is.
pub open spec fn lower(c: char) -> char {
    if 0x41 <= c as u32 <= 0x5a {
        ((c as u8) + 32) as u8 as char
    } else {
        c
    }
}

/// Whether two texts differ at most in the case of ASCII letters.
pub open spec fn same_ignoring_case(a: Seq<char>, b: Seq<char>) -> bool {
    a.map_values(|c: char| lower(c)) == b.map_values(|c: char| lower(c))
}

/// The lower case of an ASCII letter; any other character as it is.
pub fn to_lower(c: char) -> (r: char)
    ensures
        r == lower(c),
{
    let n: u32 = c as u32;
    if 0x41 <= n && n <= 0x5a {
        (c as u8 + 32) as char
    } else {
        c
    }
}

/// Whether two texts differ at most in the case of ASCII letters.
pub fn eq_ignoring_case(a: &[char], b: &[char]) -> (r: bool)
    ensures
        r == same_ignoring_case(a@, b@),
{
    let ghost la = a@.map_values(|c: char| lower(c));
    let ghost lb = b@.map_values(|c: char| lower(c));
    if a.len() != b.len() {
        proof {
            assert(la.len() != lb.len());
        }
        return false;
    }
    let mut i: usize = 0;
    while i < a.len()
        invariant
            i <= a@.len(),
            a@.len() == b@.len(),
            la == a@.map_values(|c: char| lower(c)),
            lb == b@.map_values(|c: char| lower(c)),
            forall|j: int| 0 <= j < i ==> la[j] == lb[j],
        decreases a@.len() - i,
    {
        if to_lower(a[i]) != to_lower(b[i]) {
            proof {
                assert(la[i as int] != lb[i as int]);
            }
            return false;
        }
        i = i + 1;
    }
    proof {
        assert(la =~= lb);
    }
    true
}

/// The value of a text of decimal digits; nothing if another character is in it.
pub open spec fn digits_value(s: Seq<char>) -> Option<nat>
    decreases s.len(),
{
    if s.len() == 0 {
        Some(0)
    } else {
        match digits_value(s.drop_last()) {
            Some(n) if is_digit(s.last()) => Some(10 * n + (s.last() as u32 - 0x30) as nat),
            _ => None,
        }
    }
}

/// The number that a text writes: a sign `+` or none, and one or more decimal
/// digits with a value of at most 65535.
pub open spec fn u16_value(s: Seq<char>) -> Option<u16> {
    let digits = if s.len() > 0 && s.first() == '+' {
        s.drop_first()
    } else {
        s
    };
    match digits_value(digits) {
        Some(n) if digits.len() > 0 && n <= 0xffff => Some(n as u16),
        _ => None,
    }
}

/// The number that a text writes, if it is one of 16 bits.
pub fn parse_u16(v: &[char]) -> (r: Option<u16>)
    ensures
        r == u16_value(v@),
{
    let digits = if v.len() > 0 && v[0] == '+' {
        vstd::slice::slice_subrange(v, 1, v.len())
    } else {
        v
    };
    proof {
        if v@.len() > 0 {
            assert(v@.drop_first() =~= v@.subrange(1, v@.len() as int));
        }
    }
    let mut acc: u32 = 0;
    let mut over: bool = false;
    let mut i: usize = 0;
    while i < digits.len()
        invariant
            i <= digits@.len(),
            acc <= 0xffff,
            !over ==> digits_value(digits@.take(i as int)) == Some(acc as nat),
            over ==> match digits_value(digits@.take(i as int)) {
                Some(n) => n > 0xffff,
                None => true,
            },
        decreases digits@.len() - i,
    {
        let c: char = digits[i];
        proof {
            assert(digits@.take(i + 1).drop_last() =~= digits@.take(i as int));
        }
        if !Class::Digit.contains(c) {
            over = true;
        } else if !over {
            let next: u32 = 10 * acc + (c as u32 - 0x30);
            if next > 0xffff {
                over = true;
            } else {
                acc = next;
            }
        }
        i = i + 1;
    }
    proof {
        assert(digits@.take(i as int) =~= digits@);
    }
    if digits.len() == 0 || over {
        None
    } else {
        Some(acc as u16)
    }
}

/// The digit that writes `n`.
pub open spec fn digit_char(n: nat) -> char {
    (0x30 + n) as u8 as char
}

/// The shortest decimal numeral of `n`.
pub open spec fn decimal(n: nat) -> Seq<char>
    decreases n,
{
    if n < 10 {
        seq![digit_char(n)]
    } else {
        decimal(n / 10).push(digit_char(n % 10))
    }
}

/// Appends the decimal numeral of `n`.
pub fn push_decimal(s: &mut String, n: u64)
    ensures
        final(s)@ == old(s)@ + decimal(n as nat),
    decreases n,
{
    if n >= 10 {
        push_decimal(s, n / 10);
    }
    let d: u8 = (n % 10) as u8;
    s.push((0x30 + d) as char);
    proof {
        assert(s@ =~= old(s)@ + decimal(n as nat));
    }
}

/// The text of bytes that are no valid UTF-8, with what is invalid replaced, as
/// `String::from_utf8_lossy` reads it.
pub uninterp spec fn replaced_text(bytes: Seq<u8>) -> Seq<char>;

/// The text of bytes: what they encode, or with what is invalid replaced.
pub open spec fn lossy_text(bytes: Seq<u8>) -> Seq<char> {
    if valid_utf8(bytes) {
        decode_utf8(bytes)
    } else {
        replaced_text(bytes)
    }
}

/// Calls `String::from_utf8_lossy`, whose result depends on the bytes alone.
/// Valid UTF-8 gives the text that it encodes.
#[verifier::external_body]
pub(crate) fn text_lossy(bytes: &[u8]) -> (r: String)
    ensures
        valid_utf8(bytes@) ==> r@ == decode_utf8(bytes@),
        !valid_utf8(bytes@) ==> r@ == replaced_text(bytes@),
{
    String::from_utf8_lossy(bytes).into_owned()
}

/// Calls `String::from_utf8`, which succeeds exactly on valid UTF-8 and gives the
/// text that it encodes.
#[verifier::external_body]
pub(crate) fn text_strict(bytes: Vec<u8>) -> (r: Option<String>)
    ensures
        r.deep_view() == (if valid_utf8(bytes@) {
            Some(decode_utf8(bytes@))
        } else {
            None
        }),
{
    String::from_utf8(bytes).ok()
}

/// Text without separators goes to the last piece.
pub proof fn lemma_split_append(a: Seq<char>, b: Seq<char>, k: Class)
    requires
        forall|i: int| 0 <= i < b.len() ==> !k.has(#[trigger] b[i]),
    ensures
        split(a, k).len() > 0,
        split(a + b, k) == split(a, k).drop_last().push(split(a, k).last() + b),
    decreases b.len(),
{
    lemma_split_pieces(a, k);
    if b.len() > 0 {
        let c = b.drop_last();
        assert forall|i: int| 0 <= i < c.len() implies !k.has(#[trigger] c[i]) by {
            assert(c[i] == b[i]);
        }
        lemma_split_append(a, c, k);
        assert((a + b).drop_last() =~= a + c);
        assert(!k.has(b[b.len() - 1]));
        let p = split(a, k);
        assert(p.drop_last().push(p.last() + c).drop_last() =~= p.drop_last());
        assert((p.last() + c).push(b.last()) =~= p.last() + b);
    } else {
        assert(a + b =~= a);
        let p = split(a, k);
        assert(p.last() + b =~= p.last());
        assert(p.drop_last().push(p.last()) =~= p);
    }
}

/// A text has at least one piece.
pub proof fn lemma_split_pieces(s: Seq<char>, k: Class)
    ensures
        split(s, k).len() > 0,
    decreases s.len(),
{
    if s.len() > 0 {
        lemma_split_pieces(s.drop_last(), k);
    }
}

/// Nothing is stripped from a text that neither starts nor ends with space.
pub proof fn lemma_strip_nothing(s: Seq<char>)
    requires
        s.len() > 0,
        !is_space(s.first()),
        !is_space(s.last()),
    ensures
        strip(s, Class::Space) == s,
        strip(" "@ + s, Class::Space) == s,
{
    reveal_strlit(" ");
    let t = " "@ + s;
    assert(t.drop_first() =~= s);
    assert(strip_start(s, Class::Space) == s);
    assert(strip_start(t, Class::Space) == strip_start(t.drop_first(), Class::Space));
}

/// A digit is a digit, and tells the number that it writes.
proof fn lemma_digit_char(a: nat, b: nat)
    requires
        a < 10,
        b < 10,
    ensures
        is_digit(digit_char(a)),
        digit_char(a) == digit_char(b) ==> a == b,
{
    let x = (0x30 + a) as u8;
    let y = (0x30 + b) as u8;
    assert(x == 0x30 + a && y == 0x30 + b);
    assert(x as char as u32 == x as u32);
    assert(y as char as u32 == y as u32);
}

/// A numeral is made of digits.
pub proof fn lemma_decimal_digits(n: nat)
    ensures
        decimal(n).len() > 0,
        forall|i: int| 0 <= i < decimal(n).len() ==> is_digit(#[trigger] decimal(n)[i]),
    decreases n,
{
    lemma_digit_char(n % 10, n % 10);
    if n >= 10 {
        lemma_decimal_digits(n / 10);
    }
}

/// Different numbers have different numerals.
pub proof fn lemma_decimal_injective(a: nat, b: nat)
    requires
        decimal(a) == decimal(b),
    ensures
        a == b,
    decreases a,
{
    let x = decimal(a);
    let y = decimal(b);
    lemma_digit_char(a % 10, b % 10);
    assert(x.last() == digit_char(a % 10));
    assert(y.last() == digit_char(b % 10));
    if a >= 10 && b >= 10 {
        assert(x.drop_last() =~= decimal(a / 10));
        assert(y.drop_last() =~= decimal(b / 10));
        lemma_decimal_injective(a / 10, b / 10);
    } else if a >= 10 {
        lemma_decimal_digits(a / 10);
        assert(x.len() > 1);
    } else if b >= 10 {
        lemma_decimal_digits(b / 10);
        assert(y.len() > 1);
    }
}

/// The first place of `pat` from `from` on.
pub proof fn lemma_first_place<T>(s: Seq<T>, pat: Seq<T>, from: int, n: int)
    requires
        0 <= from <= n,
        occurs_at(s, pat, n),
        forall|i: int| from <= i < n ==> !#[trigger] occurs_at(s, pat, i),
    ensures
        find(s, pat, from) == Some(n),
{
    lemma_find_least(s, pat, from);
}

/// A text is cut at the first of a character.
pub proof fn lemma_cut(a: Seq<char>, c: char, b: Seq<char>)
    requires
        forall|i: int| 0 <= i < a.len() ==> #[trigger] a[i] != c,
    ensures
        split_once(a + (seq![c] + b), c) == Some((a, b)),
{
    let s = a + (seq![c] + b);
    let n = a.len() as int;
    assert(s.subrange(n, n + 1) =~= seq![c]);
    assert forall|i: int| 0 <= i < n implies !#[trigger] occurs_at(s, seq![c], i) by {
        assert(s.subrange(i, i + 1)[0] == a[i]);
    }
    lemma_first_place(s, seq![c], 0, n);
    assert(s.take(n) =~= a);
    assert(s.skip(n + 1) =~= b);
}

/// A text without a character is not cut at it.
pub proof fn lemma_no_cut(a: Seq<char>, c: char)
    requires
        forall|i: int| 0 <= i < a.len() ==> #[trigger] a[i] != c,
    ensures
        split_once(a, c) is None,
{
    lemma_find_least(a, seq![c], 0);
    if let Some(i) = find(a, seq![c], 0) {
        assert(a.subrange(i, i + 1)[0] == a[i]);
    }
}

/// A text without separators is one piece.
pub proof fn lemma_one_piece(s: Seq<char>, k: Class)
    requires
        forall|i: int| 0 <= i < s.len() ==> !k.has(#[trigger] s[i]),
    ensures
        split(s, k) == seq![s],
{
    let empty = Seq::<char>::empty();
    lemma_split_append(empty, s, k);
    assert(empty + s =~= s);
    assert(split(empty, k) =~= seq![empty]);
    assert(split(s, k) =~= seq![s]);
}

/// A number of 16 bits is read back from its numeral.
pub proof fn law_number_read_back(n: u16)
    ensures
        u16_value(decimal(n as nat)) == Some(n),
{
    lemma_decimal_value(n as nat);
    lemma_decimal_digits(n as nat);
    assert(is_digit(decimal(n as nat)[0]));
}

/// A numeral has the value of its number.
pub proof fn lemma_decimal_value(n: nat)
    ensures
        digits_value(decimal(n)) == Some(n),
    decreases n,
{
    let d = n % 10;
    lemma_digit_char(d, d);
    let x = (0x30 + d) as u8;
    assert(x == 0x30 + d);
    assert(x as char as u32 == x as u32);
    assert(digit_char(d) as u32 - 0x30 == d);
    if n < 10 {
        assert(decimal(n).drop_last() =~= Seq::empty());
        assert(digits_value(decimal(n).drop_last()) == Some(0nat));
    } else {
        lemma_decimal_value(n / 10);
        assert(decimal(n).drop_last() =~= decimal(n / 10));
    }
}

/// What is read as a number is digits, with a sign or none in front.
pub proof fn law_numbers_are_digits(s: Seq<char>, i: int)
    requires
        u16_value(s) is Some,
        0 <= i < s.len(),
    ensures
        '0' <= s[i] <= '9' || (i == 0 && s[i] == '+' && s.len() > 1),
{
    let digits = if s.first() == '+' {
        s.drop_first()
    } else {
        s
    };
    let k = if s.first() == '+' {
        i - 1
    } else {
        i
    };
    if k >= 0 {
        lemma_value_digits(digits, k);
        assert(digits[k] == s[i]);
    }
}

/// A text with a value is made of digits.
proof fn lemma_value_digits(s: Seq<char>, i: int)
    requires
        digits_value(s) is Some,
        0 <= i < s.len(),
    ensures
        '0' <= s[i] <= '9',
    decreases s.len(),
{
    if i < s.len() - 1 {
        lemma_value_digits(s.drop_last(), i);
    } else {
        lemma_is_digit(s.last());
    }
}

/// The digits are the characters from `0` to `9`.
pub proof fn lemma_is_digit(c: char)
    ensures
        is_digit(c) <==> '0' <= c <= '9',
{
}

/// The white space of ASCII.
pub proof fn law_ascii_space(c: char)
    requires
        c as u32 <= 0x7f,
    ensures
        is_space(c) <==> c == ' ' || c == '\t' || c == '\n' || c == '\r' || c as u32 == 11 || c as u32
            == 12,
{
}

/// Stripping takes nothing but characters of the class, from the ends, and all of
/// them.
pub proof fn law_stripped(s: Seq<char>, k: Class) -> (r: (Seq<char>, Seq<char>))
    ensures
        s == r.0 + strip(s, k) + r.1,
        forall|i: int| 0 <= i < r.0.len() ==> k.has(#[trigger] r.0[i]),
        forall|i: int| 0 <= i < r.1.len() ==> k.has(#[trigger] r.1[i]),
        strip(s, k).len() > 0 ==> !k.has(strip(s, k).first()) && !k.has(strip(s, k).last()),
{
    let a = lemma_strip_start(s, k);
    let t = strip_start(s, k);
    let b = lemma_strip_end(t, k);
    assert(s =~= a + strip(s, k) + b);
    if strip(s, k).len() > 0 {
        assert(strip(s, k).first() == t.first());
    }
    (a, b)
}

/// What is stripped at the start.
proof fn lemma_strip_start(s: Seq<char>, k: Class) -> (a: Seq<char>)
    ensures
        s == a + strip_start(s, k),
        forall|i: int| 0 <= i < a.len() ==> k.has(#[trigger] a[i]),
        strip_start(s, k).len() > 0 ==> !k.has(strip_start(s, k).first()),
    decreases s.len(),
{
    if s.len() > 0 && k.has(s.first()) {
        let b = lemma_strip_start(s.drop_first(), k);
        let a = seq![s.first()] + b;
        assert(s =~= seq![s.first()] + s.drop_first());
        assert(s =~= a + strip_start(s, k));
        assert forall|i: int| 0 <= i < a.len() implies k.has(#[trigger] a[i]) by {
            if i > 0 {
                assert(a[i] == b[i - 1]);
            }
        }
        a
    } else {
        assert(s =~= Seq::<char>::empty() + s);
        Seq::empty()
    }
}

/// What is stripped at the end.
proof fn lemma_strip_end(s: Seq<char>, k: Class) -> (b: Seq<char>)
    ensures
        s == strip_end(s, k) + b,
        forall|i: int| 0 <= i < b.len() ==> k.has(#[trigger] b[i]),
        strip_end(s, k).len() > 0 ==> !k.has(strip_end(s, k).last()) && strip_end(s, k).first()
            == s.first(),
    decreases s.len(),
{
    if s.len() > 0 && k.has(s.last()) {
        let a = lemma_strip_end(s.drop_last(), k);
        let b = a.push(s.last());
        assert(s =~= s.drop_last().push(s.last()));
        assert(s =~= strip_end(s, k) + b);
        b
    } else {
        assert(s =~= s + Seq::<char>::empty());
        Seq::empty()
    }
}

/// Text between characters of a class is stripped of them.
pub proof fn law_strip_frame(a: Seq<char>, s: Seq<char>, b: Seq<char>, k: Class)
    requires
        forall|i: int| 0 <= i < a.len() ==> k.has(#[trigger] a[i]),
        forall|i: int| 0 <= i < b.len() ==> k.has(#[trigger] b[i]),
        s.len() > 0 ==> !k.has(s.first()) && !k.has(s.last()),
    ensures
        strip(a + s + b, k) == s,
    decreases a.len() + b.len(),
{
    let t = a + s + b;
    if a.len() > 0 {
        let c = a.drop_first();
        assert forall|i: int| 0 <= i < c.len() implies k.has(#[trigger] c[i]) by {
            assert(c[i] == a[i + 1]);
        }
        law_strip_frame(c, s, b, k);
        assert(t.drop_first() =~= c + s + b);
        assert(k.has(a[0]));
    } else if s.len() > 0 {
        assert(t =~= s + b);
        assert(strip_start(t, k) == t);
        lemma_strip_tail(s, b, k);
    } else {
        assert(t =~= b);
        lemma_strip_all(b, k);
    }
}

/// A tail of characters of the class is stripped.
proof fn lemma_strip_tail(s: Seq<char>, b: Seq<char>, k: Class)
    requires
        s.len() > 0,
        !k.has(s.last()),
        forall|i: int| 0 <= i < b.len() ==> k.has(#[trigger] b[i]),
    ensures
        strip_end(s + b, k) == s,
    decreases b.len(),
{
    if b.len() > 0 {
        let c = b.drop_last();
        assert forall|i: int| 0 <= i < c.len() implies k.has(#[trigger] c[i]) by {
            assert(c[i] == b[i]);
        }
        lemma_strip_tail(s, c, k);
        assert((s + b).drop_last() =~= s + c);
        assert(k.has(b[b.len() - 1]));
    } else {
        assert(s + b =~= s);
    }
}

/// Nothing is left of characters of the class.
proof fn lemma_strip_all(b: Seq<char>, k: Class)
    requires
        forall|i: int| 0 <= i < b.len() ==> k.has(#[trigger] b[i]),
    ensures
        strip(b, k) == Seq::<char>::empty(),
    decreases b.len(),
{
    if b.len() > 0 {
        let c = b.drop_first();
        assert(k.has(b[0]));
        assert forall|i: int| 0 <= i < c.len() implies k.has(#[trigger] c[i]) by {
            assert(c[i] == b[i + 1]);
        }
        lemma_strip_all(c, k);
    } else {
        assert(b =~= Seq::empty());
    }
}

/// A text is cut round the first occurrence of a character.
pub proof fn law_split_once(s: Seq<char>, c: char)
    ensures
        match split_once(s, c) {
            Some((a, b)) => s == a + seq![c] + b && !a.contains(c),
            None => !s.contains(c),
        },
{
    lemma_find_least(s, seq![c], 0);
    match find(s, seq![c], 0) {
        Some(i) => {
            let (a, b) = (s.take(i), s.skip(i + 1));
            assert(s.subrange(i, i + 1)[0] == c);
            assert(s =~= a + seq![c] + b);
            if a.contains(c) {
                let j = choose|j: int| 0 <= j < a.len() && a[j] == c;
                assert(s.subrange(j, j + 1) =~= seq![c]);
                assert(occurs_at(s, seq![c], j));
            }
        },
        None => {
            if s.contains(c) {
                let j = choose|j: int| 0 <= j < s.len() && s[j] == c;
                assert(s.subrange(j, j + 1) =~= seq![c]);
                assert(occurs_at(s, seq![c], j));
            }
        },
    }
}

/// The text after the last occurrence of a character.
pub proof fn law_after_last(a: Seq<char>, c: char, b: Seq<char>)
    requires
        !b.contains(c),
    ensures
        after_last(a + seq![c] + b, c) == Some(b),
        after_last(b, c) is None,
    decreases b.len(),
{
    let s = a + seq![c] + b;
    if b.len() > 0 {
        let d = b.drop_last();
        assert(b[b.len() - 1] == b.last());
        assert(b.contains(b.last()));
        assert(!d.contains(c)) by {
            if d.contains(c) {
                let j = choose|j: int| 0 <= j < d.len() && d[j] == c;
                assert(b[j] == c);
            }
        }
        law_after_last(a, c, d);
        assert(s.drop_last() =~= a + seq![c] + d);
        assert(d.push(b.last()) =~= b);
    } else {
        assert(b =~= Seq::empty());
        assert(s.last() == c);
    }
}

/// Pieces are split at one character of the class after the other: splitting two
/// texts round one is splitting each.
pub proof fn law_split_round(a: Seq<char>, c: char, b: Seq<char>, k: Class)
    requires
        k.has(c),
    ensures
        split(a + seq![c] + b, k) == split(a, k) + split(b, k),
    decreases b.len(),
{
    let s = a + seq![c] + b;
    lemma_split_pieces(a, k);
    if b.len() > 0 {
        let d = b.drop_last();
        law_split_round(a, c, d, k);
        lemma_split_pieces(d, k);
        assert(s.drop_last() =~= a + seq![c] + d);
        assert(s.last() == b.last());
        let before = split(a, k) + split(d, k);
        assert(before.last() == split(d, k).last());
        if k.has(b.last()) {
            assert(before.push(Seq::empty()) =~= split(a, k) + split(d, k).push(Seq::empty()));
        } else {
            let p = split(d, k).drop_last().push(split(d, k).last().push(b.last()));
            assert(before.drop_last().push(before.last().push(b.last())) =~= split(a, k) + p);
        }
    } else {
        assert(s.drop_last() =~= a);
        let empty = Seq::<char>::empty();
        assert(b =~= empty);
        assert(split(b, k) =~= seq![empty]);
        assert(split(a, k).push(empty) =~= split(a, k) + seq![empty]);
    }
}

/// Words are split at white space: the words of two texts with white space between
/// them are those of each, and a text without white space is one word.
pub proof fn law_words_round(a: Seq<char>, c: char, b: Seq<char>)
    requires
        is_space(c),
    ensures
        words(a + seq![c] + b) == words(a) + words(b),
{
    let keep = |w: Seq<char>| w.len() > 0;
    law_split_round(a, c, b, Class::Space);
    lemma_filter_concat(split(a, Class::Space), split(b, Class::Space), keep);
}

/// Filtering two lists.
pub proof fn lemma_filter_concat<T>(a: Seq<T>, b: Seq<T>, keep: spec_fn(T) -> bool)
    ensures
        (a + b).filter(keep) == a.filter(keep) + b.filter(keep),
    decreases b.len(),
{
    reveal(Seq::filter);
    if b.len() > 0 {
        lemma_filter_concat(a, b.drop_last(), keep);
        assert((a + b).drop_last() =~= a + b.drop_last());
        assert((a + b).filter(keep) =~= a.filter(keep) + b.filter(keep));
    } else {
        assert(a + b =~= a);
        assert(a.filter(keep) + b.filter(keep) =~= a.filter(keep));
    }
}

/// A text without white space is one word, or none if it is empty.
pub proof fn law_one_word(w: Seq<char>)
    requires
        forall|i: int| 0 <= i < w.len() ==> !is_space(#[trigger] w[i]),
    ensures
        words(w) == if w.len() > 0 {
            seq![w]
        } else {
            Seq::empty()
        },
{
    let keep = |x: Seq<char>| x.len() > 0;
    lemma_one_piece(w, Class::Space);
    reveal(Seq::filter);
    let one = seq![w];
    assert(one.drop_last() =~= Seq::empty());
    assert(one.drop_last().filter(keep) =~= Seq::empty());
    assert(one.filter(keep) =~= if w.len() > 0 {
        seq![w]
    } else {
        Seq::empty()
    });
}

/// Lines end in a line feed, with or without a carriage return before it; what
/// follows are the lines of the rest.
pub proof fn law_lines(l: Seq<char>, rest: Seq<char>)
    requires
        !l.contains('\n'),
    ensures
        lines(l + seq!['\n'] + rest) == seq![
            if l.len() > 0 && l.last() == '\r' {
                l.drop_last()
            } else {
                l
            },
        ] + lines(rest),
        lines(l) == if l.len() > 0 {
            seq![l]
        } else {
            Seq::empty()
        },
{
    let k = Class::Only('\n');
    let f = |x: Seq<char>| chop_return(x);
    assert forall|i: int| 0 <= i < l.len() implies !k.has(#[trigger] l[i]) by {
        assert(l.contains(l[i]));
    }
    lemma_one_piece(l, k);
    law_split_round(l, '\n', rest, k);
    lemma_split_pieces(rest, k);
    let p = seq![l] + split(rest, k);
    let q = split(rest, k);
    assert(p.last() == q.last());
    assert(p.drop_last() =~= seq![l] + q.drop_last());
    assert(p.drop_last().map_values(f) =~= seq![chop_return(l)] + q.drop_last().map_values(f));
    assert(lines(l + seq!['\n'] + rest) =~= seq![chop_return(l)] + lines(rest));
    assert(seq![l].drop_last().map_values(f) =~= Seq::empty());
    assert(lines(l) =~= if l.len() > 0 {
        seq![l]
    } else {
        Seq::empty()
    });
}

/// Lower case is the case of capital letters alone.
pub proof fn law_lower(c: char)
    ensures
        'A' <= c <= 'Z' ==> 'a' <= lower(c) <= 'z' && lower(c) as u32 == c as u32 + 32,
        !('A' <= c <= 'Z') ==> lower(c) == c,
{
}

/// Texts are the same up to case if, character by character, they are equal or one
/// is the other in lower case.
pub proof fn law_same_ignoring_case(a: Seq<char>, b: Seq<char>)
    ensures
        same_ignoring_case(a, b) <==> a.len() == b.len() && forall|i: int|
            0 <= i < a.len() ==> #[trigger] a[i] == b[i] || lower(a[i]) == b[i] || a[i] == lower(
                b[i],
            ),
{
    let f = |c: char| lower(c);
    let (x, y) = (a.map_values(f), b.map_values(f));
    if same_ignoring_case(a, b) {
        assert(x.len() == a.len() && y.len() == b.len());
        assert forall|i: int| 0 <= i < a.len() implies #[trigger] a[i] == b[i] || lower(a[i]) == b[i]
            || a[i] == lower(b[i]) by {
            assert(x[i] == y[i]);
            lemma_lower_pair(a[i], b[i]);
        }
    } else if a.len() == b.len() && forall|i: int|
        0 <= i < a.len() ==> #[trigger] a[i] == b[i] || lower(a[i]) == b[i] || a[i] == lower(b[i]) {
        assert forall|i: int| 0 <= i < a.len() implies x[i] == y[i] by {
            assert(a[i] == b[i] || lower(a[i]) == b[i] || a[i] == lower(b[i]));
            lemma_lower_pair(a[i], b[i]);
        }
        assert(x =~= y);
    }
}

/// Characters with the same lower case.
proof fn lemma_lower_pair(p: char, q: char)
    ensures
        lower(p) == lower(q) <==> p == q || lower(p) == q || p == lower(q),
{
    law_lower(p);
    law_lower(q);
    law_lower(lower(p));
    law_lower(lower(q));
}

} // verus!
