//! Text helpers: string equality, code-point order, whitespace trimming
//! and tab-separated fields.

use vstd::prelude::*;

verus! {

/// Lexicographic order on character sequences, comparing characters by
/// code point. For Rust strings this is the order of `Ord for str`, since
/// UTF-8 byte order coincides with code-point order.
pub open spec fn lex_le(a: Seq<char>, b: Seq<char>) -> bool
    decreases a.len(),
{
    if a.len() == 0 {
        true
    } else if b.len() == 0 {
        false
    } else if a[0] != b[0] {
        (a[0] as int) < (b[0] as int)
    } else {
        lex_le(a.drop_first(), b.drop_first())
    }
}

/// Where `a` and `b` agree before index `k` and differ at `k`, `a` comes
/// first exactly when its character at `k` has the smaller code point.
pub proof fn lemma_lex_le_first_difference(a: Seq<char>, b: Seq<char>, k: int)
    requires
        0 <= k < a.len(),
        k < b.len(),
        a.take(k) == b.take(k),
        a[k] != b[k],
    ensures
        lex_le(a, b) == ((a[k] as int) < (b[k] as int)),
    decreases k,
{
    if k > 0 {
        assert(a[0] == a.take(k)[0] && b[0] == b.take(k)[0]);
        assert(a.drop_first().take(k - 1) =~= a.take(k).drop_first());
        assert(b.drop_first().take(k - 1) =~= b.take(k).drop_first());
        lemma_lex_le_first_difference(a.drop_first(), b.drop_first(), k - 1);
    }
}

/// A sequence comes before every sequence that it is a prefix of, and after
/// every proper prefix of it.
pub proof fn lemma_lex_le_prefix(a: Seq<char>, b: Seq<char>)
    requires
        a.len() <= b.len(),
        b.take(a.len() as int) == a,
    ensures
        lex_le(a, b),
        a.len() < b.len() ==> !lex_le(b, a),
    decreases a.len(),
{
    if a.len() > 0 {
        assert(a[0] == b.take(a.len() as int)[0]);
        assert(b.drop_first().take(a.len() - 1) =~= a.drop_first());
        lemma_lex_le_prefix(a.drop_first(), b.drop_first());
    }
}

/// Every sequence is below or equal to itself.
pub proof fn lemma_lex_reflexive(a: Seq<char>)
    ensures
        lex_le(a, a),
    decreases a.len(),
{
    if a.len() > 0 {
        lemma_lex_reflexive(a.drop_first());
    }
}

/// Any two sequences are comparable.
pub proof fn lemma_lex_total(a: Seq<char>, b: Seq<char>)
    ensures
        lex_le(a, b) || lex_le(b, a),
    decreases a.len(),
{
    if a.len() > 0 && b.len() > 0 && a[0] == b[0] {
        lemma_lex_total(a.drop_first(), b.drop_first());
    }
}

/// Sequences below or equal to each other are equal.
pub proof fn lemma_lex_antisymmetric(a: Seq<char>, b: Seq<char>)
    requires
        lex_le(a, b),
        lex_le(b, a),
    ensures
        a == b,
    decreases a.len(),
{
    if a.len() > 0 && b.len() > 0 {
        lemma_lex_antisymmetric(a.drop_first(), b.drop_first());
        assert(a =~= seq![a[0]] + a.drop_first());
        assert(b =~= seq![b[0]] + b.drop_first());
    }
    assert(a =~= b);
}

/// The order is transitive.
pub proof fn lemma_lex_transitive(a: Seq<char>, b: Seq<char>, c: Seq<char>)
    requires
        lex_le(a, b),
        lex_le(b, c),
    ensures
        lex_le(a, c),
    decreases a.len(),
{
    if a.len() > 0 && b.len() > 0 && c.len() > 0 && a[0] == b[0] && b[0] == c[0] {
        lemma_lex_transitive(a.drop_first(), b.drop_first(), c.drop_first());
    }
}

/// Copies the characters of `s` into a vector.
pub fn chars_of(s: &str) -> (v: Vec<char>)
    ensures
        v@ == s@,
{
    let mut v: Vec<char> = Vec::new();
    for c in it: s.chars()
        invariant
            it.seq() == s@,
            v@ == s@.take(it.index() as int),
    {
        v.push(c);
        assert(s@.take(it.index() + 1) =~= v@);
    }
    assert(v@ =~= s@);
    v
}

/// Compares two character vectors in code-point order.
pub fn chars_le(a: &Vec<char>, b: &Vec<char>) -> (r: bool)
    ensures
        r == lex_le(a@, b@),
{
    let mut i: usize = 0;
    assert(a@.skip(0) =~= a@);
    assert(b@.skip(0) =~= b@);
    while i < a.len() && i < b.len()
        invariant
            i <= a.len(),
            i <= b.len(),
            lex_le(a@, b@) == lex_le(a@.skip(i as int), b@.skip(i as int)),
        decreases a.len() - i,
    {
        if a[i] != b[i] {
            assert(a@.skip(i as int)[0] == a@[i as int]);
            assert(b@.skip(i as int)[0] == b@[i as int]);
            return a[i] < b[i];
        }
        assert(a@.skip(i as int).drop_first() =~= a@.skip(i + 1));
        assert(b@.skip(i as int).drop_first() =~= b@.skip(i + 1));
        i += 1;
    }
    i == a.len()
}

/// Whether two string slices hold the same characters.
pub fn str_eq(a: &str, b: &str) -> (r: bool)
    ensures
        r == (a@ == b@),
{
    a.to_string() == b.to_string()
}

/// The characters with the Unicode `White_Space` property.
pub open spec fn is_white_space(c: char) -> bool {
    let n = c as int;
    ||| 0x09 <= n <= 0x0D
    ||| n == 0x20
    ||| n == 0x85
    ||| n == 0xA0
    ||| n == 0x1680
    ||| 0x2000 <= n <= 0x200A
    ||| n == 0x2028
    ||| n == 0x2029
    ||| n == 0x202F
    ||| n == 0x205F
    ||| n == 0x3000
}

/// Whether `c` has the Unicode `White_Space` property, as
/// `char::is_whitespace` tells.
pub fn char_is_whitespace(c: char) -> (r: bool)
    ensures
        r == is_white_space(c),
{
    let n = c as u32;
    (0x09 <= n && n <= 0x0D) || n == 0x20 || n == 0x85 || n == 0xA0 || n == 0x1680 || (0x2000
        <= n && n <= 0x200A) || n == 0x2028 || n == 0x2029 || n == 0x202F || n == 0x205F || n
        == 0x3000
}

/// `s` without its leading whitespace.
pub open spec fn trim_start(s: Seq<char>) -> Seq<char>
    decreases s.len(),
{
    if s.len() > 0 && is_white_space(s[0]) {
        trim_start(s.drop_first())
    } else {
        s
    }
}

/// `s` without its trailing whitespace.
pub open spec fn trim_end(s: Seq<char>) -> Seq<char>
    decreases s.len(),
{
    if s.len() > 0 && is_white_space(s.last()) {
        trim_end(s.drop_last())
    } else {
        s
    }
}

/// `s` without leading and trailing whitespace, as `str::trim` gives it.
pub open spec fn trim(s: Seq<char>) -> Seq<char> {
    trim_end(trim_start(s))
}

/// Whether `s` holds a character that is not whitespace.
pub open spec fn has_non_white_space(s: Seq<char>) -> bool {
    exists|i: int| 0 <= i < s.len() && !is_white_space(#[trigger] s[i])
}

/// Whether every character of `s` is whitespace.
pub open spec fn all_white_space(s: Seq<char>) -> bool {
    forall|i: int| 0 <= i < s.len() ==> is_white_space(#[trigger] s[i])
}

/// Whether `s` holds no tab.
pub open spec fn tab_free(s: Seq<char>) -> bool {
    forall|i: int| 0 <= i < s.len() ==> #[trigger] s[i] != '\t'
}

/// Trimming the start of `a + b` stays within `a` where `a` holds a
/// non-whitespace character; what is left of `a` is a suffix of it.
pub proof fn lemma_trim_start_within(a: Seq<char>, b: Seq<char>)
    requires
        has_non_white_space(a),
    ensures
        trim_start(a + b) == trim_start(a) + b,
        exists|m: int| 0 <= m < a.len() && trim_start(a) == a.skip(m),
    decreases a.len(),
{
    assert((a + b)[0] == a[0]);
    if is_white_space(a[0]) {
        let w = choose|i: int| 0 <= i < a.len() && !is_white_space(#[trigger] a[i]);
        assert(a.drop_first()[w - 1] == a[w]);
        lemma_trim_start_within(a.drop_first(), b);
        assert((a + b).drop_first() =~= a.drop_first() + b);
        let m = choose|m: int| 0 <= m < a.drop_first().len() && trim_start(a.drop_first()) == a.drop_first().skip(m);
        assert(a.drop_first().skip(m) =~= a.skip(m + 1));
    } else {
        assert(a.skip(0) =~= a);
    }
}

/// Trailing whitespace is trimmed off the end.
pub proof fn lemma_trim_end_white_tail(a: Seq<char>, w: Seq<char>)
    requires
        all_white_space(w),
    ensures
        trim_end(a + w) == trim_end(a),
    decreases w.len(),
{
    if w.len() == 0 {
        assert(a + w =~= a);
    } else {
        assert((a + w).last() == w.last());
        assert((a + w).drop_last() =~= a + w.drop_last());
        lemma_trim_end_white_tail(a, w.drop_last());
    }
}

/// A tab-free prefix followed by a tab is the first field.
pub proof fn lemma_field_len_prefix(a: Seq<char>, b: Seq<char>)
    requires
        tab_free(a),
    ensures
        field_len(a + seq!['\t'] + b) == a.len(),
    decreases a.len(),
{
    if a.len() == 0 {
        assert((a + seq!['\t'] + b)[0] == '\t');
    } else {
        assert((a + seq!['\t'] + b)[0] == a[0]);
        assert((a + seq!['\t'] + b).drop_first() =~= a.drop_first() + seq!['\t'] + b);
        lemma_field_len_prefix(a.drop_first(), b);
    }
}

/// The bounds of `v` once leading and trailing whitespace is cut off.
pub fn trim_bounds(v: &Vec<char>) -> (r: (usize, usize))
    ensures
        r.0 <= r.1 <= v.len(),
        v@.subrange(r.0 as int, r.1 as int) == trim(v@),
{
    let mut i: usize = 0;
    assert(v@.skip(0) =~= v@);
    while i < v.len() && char_is_whitespace(v[i])
        invariant
            i <= v.len(),
            trim_start(v@) == trim_start(v@.skip(i as int)),
        decreases v.len() - i,
    {
        assert(v@.skip(i as int).drop_first() =~= v@.skip(i + 1));
        i += 1;
    }
    let ghost start = v@.skip(i as int);
    assert(trim_start(start) == start);
    let mut j: usize = v.len();
    assert(v@.subrange(i as int, j as int) =~= start);
    while j > i && char_is_whitespace(v[j - 1])
        invariant
            i <= j <= v.len(),
            trim_end(start) == trim_end(v@.subrange(i as int, j as int)),
        decreases j,
    {
        assert(v@.subrange(i as int, j as int).drop_last() =~= v@.subrange(i as int, j - 1));
        j -= 1;
    }
    (i, j)
}

/// Length of the longest prefix of `s` that holds no tab.
pub open spec fn field_len(s: Seq<char>) -> nat
    decreases s.len(),
{
    if s.len() == 0 || s[0] == '\t' {
        0
    } else {
        1 + field_len(s.drop_first())
    }
}

/// The second tab-separated field of `s`, as `s.split('\t').nth(1)` gives
/// it; `None` where `s` holds no tab.
pub open spec fn second_field(s: Seq<char>) -> Option<Seq<char>> {
    let n = field_len(s);
    if n < s.len() {
        let rest = s.skip(n as int + 1);
        Some(rest.take(field_len(rest) as int))
    } else {
        None
    }
}

/// The position of the first tab in `v[from..to]`, or `to` where there is none.
pub fn field_end(v: &Vec<char>, from: usize, to: usize) -> (e: usize)
    requires
        from <= to <= v.len(),
    ensures
        from <= e <= to,
        e == from + field_len(v@.subrange(from as int, to as int)),
{
    let mut e: usize = from;
    while e < to && v[e] != '\t'
        invariant
            from <= e <= to,
            to <= v.len(),
            field_len(v@.subrange(from as int, to as int)) == (e - from) + field_len(
                v@.subrange(e as int, to as int),
            ),
        decreases to - e,
    {
        assert(v@.subrange(e as int, to as int).drop_first() =~= v@.subrange(e + 1, to as int));
        e += 1;
    }
    e
}

/// Whether `s` holds no newline.
pub open spec fn newline_free(s: Seq<char>) -> bool {
    forall|i: int| 0 <= i < s.len() ==> #[trigger] s[i] != '\n'
}

/// The lines of `s`, as `s.split('\n')` gives them.
pub open spec fn split_lines(s: Seq<char>) -> Seq<Seq<char>>
    decreases s.len(),
{
    if s.len() == 0 {
        seq![Seq::<char>::empty()]
    } else {
        let rest = split_lines(s.drop_first());
        if s[0] == '\n' {
            seq![Seq::<char>::empty()] + rest
        } else {
            rest.update(0, seq![s[0]] + rest[0])
        }
    }
}

/// There is always at least one line.
pub proof fn lemma_split_lines_nonempty(s: Seq<char>)
    ensures
        split_lines(s).len() >= 1,
    decreases s.len(),
{
    if s.len() > 0 {
        lemma_split_lines_nonempty(s.drop_first());
    }
}

/// Text without a newline is one line.
pub proof fn lemma_split_lines_single(s: Seq<char>)
    requires
        newline_free(s),
    ensures
        split_lines(s) == seq![s],
    decreases s.len(),
{
    if s.len() > 0 {
        assert(newline_free(s.drop_first())) by {
            assert forall|i: int| 0 <= i < s.drop_first().len() implies #[trigger] s.drop_first()[i]
                != '\n' by {
                assert(s.drop_first()[i] == s[i + 1]);
            }
        }
        lemma_split_lines_single(s.drop_first());
        assert(seq![s[0]] + s.drop_first() =~= s);
        assert(split_lines(s) =~= seq![s]);
    } else {
        assert(s =~= Seq::<char>::empty());
    }
}

/// Splitting text joined at a newline gives the lines of both parts.
pub proof fn lemma_split_lines_join(a: Seq<char>, b: Seq<char>)
    ensures
        split_lines(a + seq!['\n'] + b) == split_lines(a) + split_lines(b),
    decreases a.len(),
{
    let j = a + seq!['\n'] + b;
    if a.len() == 0 {
        assert(j =~= seq!['\n'] + b);
        assert(j.drop_first() =~= b);
        assert(split_lines(a) =~= seq![Seq::<char>::empty()]);
        assert(split_lines(j) =~= split_lines(a) + split_lines(b));
    } else {
        assert(j[0] == a[0]);
        assert(j.drop_first() =~= a.drop_first() + seq!['\n'] + b);
        lemma_split_lines_join(a.drop_first(), b);
        lemma_split_lines_nonempty(a.drop_first());
        if a[0] == '\n' {
            assert(split_lines(j) =~= split_lines(a) + split_lines(b));
        } else {
            assert(split_lines(j) =~= split_lines(a) + split_lines(b));
        }
    }
}

} // verus!
