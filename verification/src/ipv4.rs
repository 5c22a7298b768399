//! Recognition of IPv4 addresses written in dotted-decimal form.
//!
//! The accepted form is that of `std::net::Ipv4Addr`'s `FromStr`: exactly
//! four decimal octets separated by dots, each octet made of one to three
//! ASCII digits, without a leading zero unless the octet is `0` itself, and
//! with a value of at most 255.

use vstd::prelude::*;

use crate::text::chars_of;

verus! {

/// An ASCII decimal digit.
pub open spec fn is_digit(c: char) -> bool {
    '0' <= c && c <= '9'
}

/// Every character of `s` is an ASCII decimal digit.
pub open spec fn all_digits(s: Seq<char>) -> bool {
    forall|i: int| 0 <= i < s.len() ==> is_digit(#[trigger] s[i])
}

/// The number that a run of decimal digits denotes.
pub open spec fn digits_value(s: Seq<char>) -> int
    decreases s.len(),
{
    if s.len() == 0 {
        0
    } else {
        digits_value(s.drop_last()) * 10 + ((s.last() as int) - ('0' as int))
    }
}

/// One octet of a dotted-decimal address.
pub open spec fn is_octet(s: Seq<char>) -> bool {
    &&& 1 <= s.len() <= 3
    &&& all_digits(s)
    &&& (s.len() > 1 ==> s[0] != '0')
    &&& digits_value(s) <= 255
}

/// `s` has dots at `i < j < k` and an octet before, between and after them.
pub open spec fn dotted_quad_at(s: Seq<char>, i: int, j: int, k: int) -> bool {
    &&& 0 <= i < j < k < s.len()
    &&& s[i] == '.' && s[j] == '.' && s[k] == '.'
    &&& is_octet(s.subrange(0, i))
    &&& is_octet(s.subrange(i + 1, j))
    &&& is_octet(s.subrange(j + 1, k))
    &&& is_octet(s.subrange(k + 1, s.len() as int))
}

/// `s` is the dotted-decimal text of an IPv4 address.
pub open spec fn is_ipv4_text(s: Seq<char>) -> bool {
    exists|i: int, j: int, k: int| #[trigger] dotted_quad_at(s, i, j, k)
}

/// The value of a decimal digit.
pub open spec fn digit(c: char) -> int {
    (c as int) - ('0' as int)
}

/// One to three digits without a leading zero form an octet exactly when
/// the number they write is at most 255.
pub proof fn lemma_octet_by_value(s: Seq<char>)
    requires
        1 <= s.len() <= 3,
        all_digits(s),
        s.len() > 1 ==> s[0] != '0',
    ensures
        is_octet(s) <==> (if s.len() == 1 {
            digit(s[0])
        } else if s.len() == 2 {
            10 * digit(s[0]) + digit(s[1])
        } else {
            100 * digit(s[0]) + 10 * digit(s[1]) + digit(s[2])
        }) <= 255,
{
    let s1 = s.take(1);
    assert(s1.drop_last() =~= Seq::<char>::empty());
    assert(digits_value(Seq::<char>::empty()) == 0);
    assert(s1.last() == s[0]);
    assert(digits_value(s1) == digit(s[0]));
    if s.len() >= 2 {
        let s2 = s.take(2);
        assert(s2.drop_last() =~= s1);
        assert(s2.last() == s[1]);
        assert(digits_value(s2) == 10 * digit(s[0]) + digit(s[1]));
        if s.len() == 3 {
            assert(s.drop_last() =~= s2);
            assert(s.last() == s[2]);
        } else {
            assert(s =~= s2);
        }
    } else {
        assert(s =~= s1);
    }
}

/// Four octets joined by dots form an IPv4 address.
pub proof fn lemma_dotted_quad(a: Seq<char>, b: Seq<char>, c: Seq<char>, d: Seq<char>)
    requires
        is_octet(a),
        is_octet(b),
        is_octet(c),
        is_octet(d),
    ensures
        is_ipv4_text(a + seq!['.'] + b + seq!['.'] + c + seq!['.'] + d),
{
    let s = a + seq!['.'] + b + seq!['.'] + c + seq!['.'] + d;
    let i = a.len() as int;
    let j = i + 1 + b.len();
    let k = j + 1 + c.len();
    assert(s.subrange(0, i) =~= a);
    assert(s.subrange(i + 1, j) =~= b);
    assert(s.subrange(j + 1, k) =~= c);
    assert(s.subrange(k + 1, s.len() as int) =~= d);
    assert(s[i] == '.' && s[j] == '.' && s[k] == '.');
    assert(dotted_quad_at(s, i, j, k));
}

/// The end of the run of digits that starts at `start`.
fn digit_run_end(v: &Vec<char>, start: usize) -> (e: usize)
    requires
        start <= v.len(),
    ensures
        start <= e <= v.len(),
        all_digits(v@.subrange(start as int, e as int)),
        e == v.len() || !is_digit(v@[e as int]),
{
    let mut e: usize = start;
    while e < v.len() && '0' <= v[e] && v[e] <= '9'
        invariant
            start <= e <= v.len(),
            all_digits(v@.subrange(start as int, e as int)),
        decreases v.len() - e,
    {
        assert(v@.subrange(start as int, e + 1) == v@.subrange(start as int, e as int).push(v@[e as int]));
        e += 1;
    }
    e
}

/// Whether the digits in `v[start..end]` form an octet.
fn octet_between(v: &Vec<char>, start: usize, end: usize) -> (r: bool)
    requires
        start <= end <= v.len(),
        all_digits(v@.subrange(start as int, end as int)),
    ensures
        r == is_octet(v@.subrange(start as int, end as int)),
{
    let ghost s = v@.subrange(start as int, end as int);
    if end == start || end - start > 3 {
        return false;
    }
    if end - start > 1 && v[start] == '0' {
        assert(s[0] == v@[start as int]);
        return false;
    }
    assert(s.len() > 1 ==> s[0] != '0') by {
        if s.len() > 1 {
            assert(s[0] == v@[start as int]);
        }
    }
    let mut value: u32 = 0;
    let mut p: usize = start;
    assert(v@.subrange(start as int, start as int) =~= Seq::<char>::empty());
    while p < end
        invariant
            start <= p <= end,
            end - start <= 3,
            end <= v.len(),
            all_digits(v@.subrange(start as int, end as int)),
            value == digits_value(v@.subrange(start as int, p as int)),
            p - start == 0 ==> value == 0,
            p - start == 1 ==> value <= 9,
            p - start == 2 ==> value <= 99,
            p - start == 3 ==> value <= 999,
        decreases end - p,
    {
        let c = v[p];
        assert(is_digit(v@.subrange(start as int, end as int)[p - start]));
        let d = (c as u32) - ('0' as u32);
        assert(v@.subrange(start as int, p + 1).drop_last() =~= v@.subrange(start as int, p as int));
        value = value * 10 + d;
        p += 1;
    }
    value <= 255
}

/// Whether `s` is the dotted-decimal text of an IPv4 address.
pub fn is_ipv4_address(s: &str) -> (r: bool)
    ensures
        r == is_ipv4_text(s@),
{
    let v = chars_of(s);
    let ghost t = v@;
    let e1 = digit_run_end(&v, 0);
    if !octet_between(&v, 0, e1) || e1 >= v.len() || v[e1] != '.' {
        proof { lemma_no_quad_first(t, e1); }
        return false;
    }
    let e2 = digit_run_end(&v, e1 + 1);
    if !octet_between(&v, e1 + 1, e2) || e2 >= v.len() || v[e2] != '.' {
        proof { lemma_no_quad_second(t, e1, e2); }
        return false;
    }
    let e3 = digit_run_end(&v, e2 + 1);
    if !octet_between(&v, e2 + 1, e3) || e3 >= v.len() || v[e3] != '.' {
        proof { lemma_no_quad_third(t, e1, e2, e3); }
        return false;
    }
    let e4 = digit_run_end(&v, e3 + 1);
    if !octet_between(&v, e3 + 1, e4) || e4 != v.len() {
        proof { lemma_no_quad_fourth(t, e1, e2, e3, e4); }
        return false;
    }
    assert(dotted_quad_at(t, e1 as int, e2 as int, e3 as int));
    true
}

/// A digit run that starts at `a` and ends at a non-digit (or the end) is
/// the longest run of digits from `a`.
proof fn lemma_run_unique(t: Seq<char>, a: int, b: int, e: int)
    requires
        0 <= a <= b <= t.len(),
        a <= e <= t.len(),
        all_digits(t.subrange(a, b)),
        b == t.len() || !is_digit(t[b]),
        all_digits(t.subrange(a, e)),
        e == t.len() || !is_digit(t[e]),
    ensures
        b == e,
{
    if e < b {
        assert(is_digit(t.subrange(a, b)[e - a]));
    }
    if b < e {
        assert(is_digit(t.subrange(a, e)[b - a]));
    }
}

proof fn lemma_no_quad_first(t: Seq<char>, e1: usize)
    requires
        e1 <= t.len(),
        all_digits(t.subrange(0, e1 as int)),
        e1 == t.len() || !is_digit(t[e1 as int]),
        !is_octet(t.subrange(0, e1 as int)) || e1 >= t.len() || t[e1 as int] != '.',
    ensures
        !is_ipv4_text(t),
{
    if is_ipv4_text(t) {
        let (i, j, k) = choose|i: int, j: int, k: int| #[trigger] dotted_quad_at(t, i, j, k);
        lemma_run_unique(t, 0, i, e1 as int);
    }
}

proof fn lemma_no_quad_second(t: Seq<char>, e1: usize, e2: usize)
    requires
        e1 < t.len(),
        t[e1 as int] == '.',
        e1 + 1 <= e2 <= t.len(),
        all_digits(t.subrange(0, e1 as int)),
        all_digits(t.subrange(e1 + 1, e2 as int)),
        e2 == t.len() || !is_digit(t[e2 as int]),
        !is_octet(t.subrange(e1 + 1, e2 as int)) || e2 >= t.len() || t[e2 as int] != '.',
    ensures
        !is_ipv4_text(t),
{
    if is_ipv4_text(t) {
        let (i, j, k) = choose|i: int, j: int, k: int| #[trigger] dotted_quad_at(t, i, j, k);
        lemma_run_unique(t, 0, i, e1 as int);
        lemma_run_unique(t, i + 1, j, e2 as int);
    }
}

proof fn lemma_no_quad_third(t: Seq<char>, e1: usize, e2: usize, e3: usize)
    requires
        e1 < e2 < t.len(),
        t[e1 as int] == '.',
        t[e2 as int] == '.',
        e2 + 1 <= e3 <= t.len(),
        all_digits(t.subrange(0, e1 as int)),
        all_digits(t.subrange(e1 + 1, e2 as int)),
        all_digits(t.subrange(e2 + 1, e3 as int)),
        e3 == t.len() || !is_digit(t[e3 as int]),
        !is_octet(t.subrange(e2 + 1, e3 as int)) || e3 >= t.len() || t[e3 as int] != '.',
    ensures
        !is_ipv4_text(t),
{
    if is_ipv4_text(t) {
        let (i, j, k) = choose|i: int, j: int, k: int| #[trigger] dotted_quad_at(t, i, j, k);
        lemma_run_unique(t, 0, i, e1 as int);
        lemma_run_unique(t, i + 1, j, e2 as int);
        lemma_run_unique(t, j + 1, k, e3 as int);
    }
}

proof fn lemma_no_quad_fourth(t: Seq<char>, e1: usize, e2: usize, e3: usize, e4: usize)
    requires
        e1 < e2 < e3 < t.len(),
        t[e1 as int] == '.',
        t[e2 as int] == '.',
        t[e3 as int] == '.',
        e3 + 1 <= e4 <= t.len(),
        all_digits(t.subrange(0, e1 as int)),
        all_digits(t.subrange(e1 + 1, e2 as int)),
        all_digits(t.subrange(e2 + 1, e3 as int)),
        all_digits(t.subrange(e3 + 1, e4 as int)),
        e4 == t.len() || !is_digit(t[e4 as int]),
        !is_octet(t.subrange(e3 + 1, e4 as int)) || e4 != t.len(),
    ensures
        !is_ipv4_text(t),
{
    if is_ipv4_text(t) {
        let (i, j, k) = choose|i: int, j: int, k: int| #[trigger] dotted_quad_at(t, i, j, k);
        lemma_run_unique(t, 0, i, e1 as int);
        lemma_run_unique(t, i + 1, j, e2 as int);
        lemma_run_unique(t, j + 1, k, e3 as int);
        lemma_run_unique(t, k + 1, t.len() as int, e4 as int);
    }
}

} // verus!
