//! Lexical building blocks of the grammar: whitespace runs, case-insensitive
//! keywords and unsigned decimal numbers, each over a byte slice and a position.
use vstd::prelude::*;

verus! {

/// Why a parser refused its input.
#[derive(Clone, Copy, Debug, PartialEq, Eq, Hash)]
pub enum ParseError {
    /// The expected keyword is not at the position.
    Tag,
    /// A keyword is not followed by at least one whitespace byte.
    MultiSpace,
    /// No decimal digit where a number was expected.
    Digit,
    /// The digits denote a number above `u64::MAX`.
    Overflow,
}

/// A space, tab, carriage return or line feed.
pub open spec fn is_sql_space(b: u8) -> bool {
    b == 0x20u8 || b == 0x09u8 || b == 0x0du8 || b == 0x0au8
}

/// An ASCII decimal digit.
pub open spec fn is_ascii_digit(b: u8) -> bool {
    0x30u8 <= b && b <= 0x39u8
}

/// ASCII lowercase of a byte; every other byte is kept.
pub open spec fn lowercase(b: u8) -> u8 {
    if 0x41u8 <= b && b <= 0x5au8 {
        (b + 32) as u8
    } else {
        b
    }
}

/// End of the longest run of whitespace that starts at `p`.
pub open spec fn space_end(s: Seq<u8>, p: int) -> int
    decreases s.len() - p,
{
    if 0 <= p < s.len() && is_sql_space(s[p]) {
        space_end(s, p + 1)
    } else {
        p
    }
}

/// End of the longest run of decimal digits that starts at `p`.
pub open spec fn digit_end(s: Seq<u8>, p: int) -> int
    decreases s.len() - p,
{
    if 0 <= p < s.len() && is_ascii_digit(s[p]) {
        digit_end(s, p + 1)
    } else {
        p
    }
}

/// The bytes of `s` from `p` on begin with `kw`, ASCII case ignored.
pub open spec fn matches_no_case(s: Seq<u8>, p: int, kw: Seq<u8>) -> bool {
    &&& 0 <= p
    &&& p + kw.len() <= s.len()
    &&& forall|k: int| 0 <= k < kw.len() ==> lowercase(s[p + k]) == lowercase(#[trigger] kw[k])
}

/// The number that a sequence of decimal digits denotes.
pub open spec fn decimal_value(d: Seq<u8>) -> nat
    decreases d.len(),
{
    if d.len() == 0 {
        0
    } else {
        decimal_value(d.drop_last()) * 10 + (d.last() - 0x30u8) as nat
    }
}

/// An unsigned decimal number at `p`: its value and the position after it.
pub open spec fn spec_unsigned_number(s: Seq<u8>, p: int) -> Result<(u64, int), ParseError> {
    let q = digit_end(s, p);
    if q == p {
        Err(ParseError::Digit)
    } else if decimal_value(s.subrange(p, q)) > u64::MAX {
        Err(ParseError::Overflow)
    } else {
        Ok((decimal_value(s.subrange(p, q)) as u64, q))
    }
}

/// Optional whitespace, the keyword `kw` in any case, then at least one
/// whitespace byte: the position after that whitespace.
pub open spec fn spec_keyword(s: Seq<u8>, p: int, kw: Seq<u8>) -> Result<int, ParseError> {
    let a = space_end(s, p);
    if !matches_no_case(s, a, kw) {
        Err(ParseError::Tag)
    } else {
        let b = a + kw.len();
        let c = space_end(s, b);
        if c == b {
            Err(ParseError::MultiSpace)
        } else {
            Ok(c)
        }
    }
}

pub proof fn lemma_space_end_bounds(s: Seq<u8>, p: int)
    requires
        0 <= p <= s.len(),
    ensures
        p <= space_end(s, p) <= s.len(),
        forall|k: int| p <= k < space_end(s, p) ==> is_sql_space(#[trigger] s[k]),
        space_end(s, p) < s.len() ==> !is_sql_space(s[space_end(s, p)]),
    decreases s.len() - p,
{
    if p < s.len() && is_sql_space(s[p]) {
        lemma_space_end_bounds(s, p + 1);
    }
}

pub proof fn lemma_digit_end_bounds(s: Seq<u8>, p: int)
    requires
        0 <= p <= s.len(),
    ensures
        p <= digit_end(s, p) <= s.len(),
        forall|k: int| p <= k < digit_end(s, p) ==> is_ascii_digit(#[trigger] s[k]),
        digit_end(s, p) < s.len() ==> !is_ascii_digit(s[digit_end(s, p)]),
    decreases s.len() - p,
{
    if p < s.len() && is_ascii_digit(s[p]) {
        lemma_digit_end_bounds(s, p + 1);
    }
}

/// Skips the whitespace run at `p` (the `multispace0` of the grammar).
pub fn skip_spaces(i: &[u8], p: usize) -> (q: usize)
    requires
        p <= i@.len(),
    ensures
        q == space_end(i@, p as int),
        p <= q <= i@.len(),
{
    let mut q = p;
    while q < i.len() && (i[q] == 0x20u8 || i[q] == 0x09u8 || i[q] == 0x0du8 || i[q] == 0x0au8)
        invariant
            p <= q <= i@.len(),
            space_end(i@, q as int) == space_end(i@, p as int),
        decreases i@.len() - q,
    {
        q = q + 1;
    }
    q
}

/// Skips the digit run at `p`.
pub fn skip_digits(i: &[u8], p: usize) -> (q: usize)
    requires
        p <= i@.len(),
    ensures
        q == digit_end(i@, p as int),
        p <= q <= i@.len(),
{
    let mut q = p;
    while q < i.len() && 0x30u8 <= i[q] && i[q] <= 0x39u8
        invariant
            p <= q <= i@.len(),
            digit_end(i@, q as int) == digit_end(i@, p as int),
        decreases i@.len() - q,
    {
        q = q + 1;
    }
    q
}

fn lowercase_byte(b: u8) -> (r: u8)
    ensures
        r == lowercase(b),
{
    if 0x41u8 <= b && b <= 0x5au8 {
        b + 32
    } else {
        b
    }
}

/// Whether `kw` stands at `p`, ASCII case ignored (the `tag_no_case` of the grammar).
pub fn tag_no_case_at(i: &[u8], p: usize, kw: &[u8]) -> (r: bool)
    requires
        p <= i@.len(),
    ensures
        r == matches_no_case(i@, p as int, kw@),
{
    if kw.len() > i.len() - p {
        return false;
    }
    let mut k: usize = 0;
    while k < kw.len()
        invariant
            p + kw.len() <= i.len(),
            k <= kw.len(),
            forall|j: int| 0 <= j < k ==> lowercase(i@[p + j]) == lowercase(#[trigger] kw@[j]),
        decreases kw@.len() - k,
    {
        if lowercase_byte(i[p + k]) != lowercase_byte(kw[k]) {
            return false;
        }
        k = k + 1;
    }
    true
}

/// Optional whitespace, the keyword `kw` in any case, and at least one
/// whitespace byte, from `p` on; gives the position after that whitespace.
pub fn keyword(i: &[u8], p: usize, kw: &[u8]) -> (r: Result<usize, ParseError>)
    requires
        p <= i@.len(),
    ensures
        match r {
            Ok(c) => spec_keyword(i@, p as int, kw@) == Ok::<int, ParseError>(c as int) && p < c
                <= i@.len(),
            Err(e) => spec_keyword(i@, p as int, kw@) == Err::<int, ParseError>(e),
        },
{
    let a = skip_spaces(i, p);
    if !tag_no_case_at(i, a, kw) {
        return Err(ParseError::Tag);
    }
    let n = i.len();
    assert(a + kw@.len() <= n);
    let b = a + kw.len();
    let c = skip_spaces(i, b);
    if c == b {
        Err(ParseError::MultiSpace)
    } else {
        Ok(c)
    }
}

pub proof fn lemma_decimal_value_push(d: Seq<u8>, x: u8)
    ensures
        decimal_value(d.push(x)) == decimal_value(d) * 10 + (x - 0x30u8) as nat,
{
    assert(d.push(x).drop_last() =~= d);
}

proof fn lemma_decimal_value_monotone(s: Seq<u8>, p: int, q: int, r: int)
    requires
        0 <= p <= q <= r <= s.len(),
        forall|k: int| p <= k < r ==> is_ascii_digit(#[trigger] s[k]),
    ensures
        decimal_value(s.subrange(p, q)) <= decimal_value(s.subrange(p, r)),
    decreases r - q,
{
    if q < r {
        lemma_decimal_value_monotone(s, p, q, r - 1);
        assert(s.subrange(p, r) =~= s.subrange(p, r - 1).push(s[r - 1]));
        lemma_decimal_value_push(s.subrange(p, r - 1), s[r - 1]);
    }
}

/// An unsigned decimal number at `p`: its value and the position after its digits.
pub fn unsigned_number(i: &[u8], p: usize) -> (r: Result<(u64, usize), ParseError>)
    requires
        p <= i@.len(),
    ensures
        match r {
            Ok((v, q)) => spec_unsigned_number(i@, p as int) == Ok::<(u64, int), ParseError>(
                (v, q as int),
            ) && p < q <= i@.len(),
            Err(e) => spec_unsigned_number(i@, p as int) == Err::<(u64, int), ParseError>(e),
        },
{
    let q = skip_digits(i, p);
    proof {
        lemma_digit_end_bounds(i@, p as int);
    }
    if q == p {
        return Err(ParseError::Digit);
    }
    let mut v: u64 = 0;
    let mut k: usize = p;
    while k < q
        invariant
            p <= k <= q <= i@.len(),
            q == digit_end(i@, p as int),
            forall|j: int| p <= j < q ==> is_ascii_digit(#[trigger] i@[j]),
            v as nat == decimal_value(i@.subrange(p as int, k as int)),
        decreases q - k,
    {
        let d: u64 = (i[k] - 0x30u8) as u64;
        proof {
            assert(i@.subrange(p as int, k + 1) =~= i@.subrange(p as int, k as int).push(i@[k as int]));
            lemma_decimal_value_push(i@.subrange(p as int, k as int), i@[k as int]);
        }
        if v > (u64::MAX - d) / 10 {
            proof {
                lemma_decimal_value_monotone(i@, p as int, k + 1, q as int);
            }
            return Err(ParseError::Overflow);
        }
        v = v * 10 + d;
        k = k + 1;
    }
    Ok((v, q))
}

} // verus!

verus! {

/// A run of whitespace from `p` that stops at `q` ends there.
pub proof fn lemma_space_end_at(s: Seq<u8>, p: int, q: int)
    requires
        0 <= p <= q <= s.len(),
        forall|k: int| p <= k < q ==> is_sql_space(#[trigger] s[k]),
        q < s.len() ==> !is_sql_space(s[q]),
    ensures
        space_end(s, p) == q,
    decreases q - p,
{
    if p < q {
        lemma_space_end_at(s, p + 1, q);
    }
}

/// A run of digits from `p` that stops at `q` ends there.
pub proof fn lemma_digit_end_at(s: Seq<u8>, p: int, q: int)
    requires
        0 <= p <= q <= s.len(),
        forall|k: int| p <= k < q ==> is_ascii_digit(#[trigger] s[k]),
        q < s.len() ==> !is_ascii_digit(s[q]),
    ensures
        digit_end(s, p) == q,
    decreases q - p,
{
    if p < q {
        lemma_digit_end_at(s, p + 1, q);
    }
}

} // verus!

verus! {

/// Every byte of `s`, lowercased.
pub open spec fn fold_case(s: Seq<u8>) -> Seq<u8> {
    s.map_values(|b: u8| lowercase(b))
}

proof fn lemma_fold_case_byte(a: u8, b: u8)
    requires
        lowercase(a) == lowercase(b),
    ensures
        is_sql_space(a) == is_sql_space(b),
        is_ascii_digit(a) == is_ascii_digit(b),
        is_ascii_digit(a) ==> a == b,
{
}

proof fn lemma_fold_case_space_end(s: Seq<u8>, t: Seq<u8>, p: int)
    requires
        fold_case(s) == fold_case(t),
    ensures
        space_end(s, p) == space_end(t, p),
    decreases s.len() - p,
{
    assert(s.len() == fold_case(s).len() && t.len() == fold_case(t).len());
    if 0 <= p < s.len() {
        assert(fold_case(s)[p] == lowercase(s[p]) && fold_case(t)[p] == lowercase(t[p]));
        lemma_fold_case_byte(s[p], t[p]);
        lemma_fold_case_space_end(s, t, p + 1);
    }
}

proof fn lemma_fold_case_digit_end(s: Seq<u8>, t: Seq<u8>, p: int)
    requires
        fold_case(s) == fold_case(t),
    ensures
        digit_end(s, p) == digit_end(t, p),
    decreases s.len() - p,
{
    assert(s.len() == fold_case(s).len() && t.len() == fold_case(t).len());
    if 0 <= p < s.len() {
        assert(fold_case(s)[p] == lowercase(s[p]) && fold_case(t)[p] == lowercase(t[p]));
        lemma_fold_case_byte(s[p], t[p]);
        lemma_fold_case_digit_end(s, t, p + 1);
    }
}

/// Inputs equal up to ASCII case read the same keyword.
pub proof fn lemma_fold_case_keyword(s: Seq<u8>, t: Seq<u8>, p: int, kw: Seq<u8>)
    requires
        fold_case(s) == fold_case(t),
    ensures
        spec_keyword(s, p, kw) == spec_keyword(t, p, kw),
{
    assert(s.len() == fold_case(s).len() && t.len() == fold_case(t).len());
    lemma_fold_case_space_end(s, t, p);
    let a = space_end(s, p);
    assert(matches_no_case(s, a, kw) == matches_no_case(t, a, kw)) by {
        if 0 <= a && a + kw.len() <= s.len() {
            assert forall|k: int| 0 <= k < kw.len() implies lowercase(s[a + k]) == lowercase(
                t[a + k],
            ) && #[trigger] kw[k] == kw[k] by {
                assert(fold_case(s)[a + k] == lowercase(s[a + k]));
                assert(fold_case(t)[a + k] == lowercase(t[a + k]));
            }
        }
    }
    lemma_fold_case_space_end(s, t, a + kw.len());
}

/// Inputs equal up to ASCII case read the same number.
pub proof fn lemma_fold_case_number(s: Seq<u8>, t: Seq<u8>, p: int)
    requires
        fold_case(s) == fold_case(t),
    ensures
        spec_unsigned_number(s, p) == spec_unsigned_number(t, p),
{
    assert(s.len() == fold_case(s).len() && t.len() == fold_case(t).len());
    lemma_fold_case_digit_end(s, t, p);
    let q = digit_end(s, p);
    if 0 <= p <= s.len() {
        lemma_digit_end_bounds(s, p);
        assert forall|k: int| p <= k < q implies s[k] == t[k] by {
            assert(fold_case(s)[k] == lowercase(s[k]) && fold_case(t)[k] == lowercase(t[k]));
            lemma_fold_case_byte(s[k], t[k]);
        }
        assert(s.subrange(p, q) =~= t.subrange(p, q));
    }
}

proof fn lemma_shift_space_end(pre: Seq<u8>, s: Seq<u8>, q: int)
    requires
        0 <= q,
    ensures
        space_end(pre + s, q + pre.len()) == space_end(s, q) + pre.len(),
    decreases s.len() - q,
{
    if q < s.len() {
        assert((pre + s)[q + pre.len()] == s[q]);
        lemma_shift_space_end(pre, s, q + 1);
    }
}

proof fn lemma_shift_digit_end(pre: Seq<u8>, s: Seq<u8>, q: int)
    requires
        0 <= q,
    ensures
        digit_end(pre + s, q + pre.len()) == digit_end(s, q) + pre.len(),
    decreases s.len() - q,
{
    if q < s.len() {
        assert((pre + s)[q + pre.len()] == s[q]);
        lemma_shift_digit_end(pre, s, q + 1);
    }
}

/// After a prefix, a keyword reads as it does without the prefix, shifted by its length.
pub proof fn lemma_shift_keyword(pre: Seq<u8>, s: Seq<u8>, q: int, kw: Seq<u8>)
    requires
        0 <= q,
    ensures
        spec_keyword(pre + s, q + pre.len(), kw) == match spec_keyword(s, q, kw) {
            Ok(c) => Ok::<int, ParseError>(c + pre.len()),
            Err(e) => Err::<int, ParseError>(e),
        },
{
    let n = pre.len() as int;
    let t = pre + s;
    lemma_shift_space_end(pre, s, q);
    let a = space_end(s, q);
    assert(a >= q) by {
        if q <= s.len() {
            lemma_space_end_bounds(s, q);
        }
    }
    assert(matches_no_case(t, a + n, kw) == matches_no_case(s, a, kw)) by {
        if matches_no_case(s, a, kw) {
            assert forall|k: int| 0 <= k < kw.len() implies lowercase(t[a + n + k]) == lowercase(
                #[trigger] kw[k],
            ) by {
                assert(t[a + n + k] == s[a + k]);
            }
        }
        if matches_no_case(t, a + n, kw) {
            assert forall|k: int| 0 <= k < kw.len() implies lowercase(s[a + k]) == lowercase(
                #[trigger] kw[k],
            ) by {
                assert(t[a + n + k] == s[a + k]);
            }
        }
    }
    lemma_shift_space_end(pre, s, a + kw.len());
}

/// After a prefix, a number reads as it does without the prefix, shifted by its length.
pub proof fn lemma_shift_number(pre: Seq<u8>, s: Seq<u8>, q: int)
    requires
        0 <= q,
    ensures
        spec_unsigned_number(pre + s, q + pre.len()) == match spec_unsigned_number(s, q) {
            Ok((v, e)) => Ok::<(u64, int), ParseError>((v, e + pre.len())),
            Err(x) => Err::<(u64, int), ParseError>(x),
        },
{
    let n = pre.len() as int;
    lemma_shift_digit_end(pre, s, q);
    let e = digit_end(s, q);
    if q <= s.len() {
        lemma_digit_end_bounds(s, q);
        assert((pre + s).subrange(q + n, e + n) =~= s.subrange(q, e));
    }
}

/// Whitespace before a keyword is skipped.
pub proof fn lemma_leading_space_keyword(ws: Seq<u8>, s: Seq<u8>, kw: Seq<u8>)
    requires
        forall|k: int| 0 <= k < ws.len() ==> is_sql_space(#[trigger] ws[k]),
    ensures
        spec_keyword(ws + s, 0, kw) == spec_keyword(ws + s, ws.len() as int, kw),
{
    let t = ws + s;
    let n = ws.len() as int;
    lemma_space_end_bounds(t, n);
    lemma_space_end_at(t, 0, space_end(t, n));
}

} // verus!

verus! {

/// A run of digits `d` that is not followed by another digit is read as the
/// number it denotes when that fits in a `u64`, and refused as an overflow
/// when it does not; a position without a digit is refused as no number.
pub proof fn law_unsigned_number_reads_digits(d: Seq<u8>, rest: Seq<u8>)
    requires
        forall|k: int| 0 <= k < d.len() ==> 0x30u8 <= #[trigger] d[k] <= 0x39u8,
        rest.len() > 0 ==> !(0x30u8 <= rest[0] <= 0x39u8),
    ensures
        d.len() == 0 ==> spec_unsigned_number(d + rest, 0) == Err::<(u64, int), ParseError>(
            ParseError::Digit,
        ),
        d.len() > 0 && decimal_value(d) <= u64::MAX ==> spec_unsigned_number(d + rest, 0) == Ok::<
            (u64, int),
            ParseError,
        >((decimal_value(d) as u64, d.len() as int)),
        d.len() > 0 && decimal_value(d) > u64::MAX ==> spec_unsigned_number(d + rest, 0) == Err::<
            (u64, int),
            ParseError,
        >(ParseError::Overflow),
{
    let s = d + rest;
    assert forall|k: int| 0 <= k < d.len() implies is_ascii_digit(#[trigger] s[k]) by {
        assert(s[k] == d[k]);
    }
    if rest.len() > 0 {
        assert(s[d.len() as int] == rest[0]);
    }
    lemma_digit_end_at(s, 0, d.len() as int);
    assert(s.subrange(0, d.len() as int) =~= d);
}

} // verus!
