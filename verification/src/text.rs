//! SQL text assembly: decimal numbers and separator-joined lists, with the
//! sequences of characters that they produce.
use vstd::prelude::*;
use crate::lexeme;

verus! {

/// The character of a decimal digit `d < 10`.
pub open spec fn digit_char(d: nat) -> char {
    (d + 48) as char
}

/// The decimal notation of `n`, without leading zeros.
pub open spec fn decimal_text(n: nat) -> Seq<char>
    decreases n,
{
    if n < 10 {
        seq![digit_char(n)]
    } else {
        decimal_text(n / 10).push(digit_char(n % 10))
    }
}

/// The items, in order, with `sep` between each two neighbours.
pub open spec fn join_texts(items: Seq<Seq<char>>, sep: Seq<char>) -> Seq<char>
    decreases items.len(),
{
    if items.len() == 0 {
        Seq::empty()
    } else if items.len() == 1 {
        items[0]
    } else {
        join_texts(items.drop_last(), sep) + sep + items.last()
    }
}

/// The characters of each string of a list.
pub open spec fn texts(v: Seq<String>) -> Seq<Seq<char>> {
    v.map_values(|s: String| s@)
}

/// The bytes of characters that are all ASCII.
pub open spec fn ascii_bytes(t: Seq<char>) -> Seq<u8> {
    t.map_values(|c: char| c as u8)
}

fn digit_str(d: u64) -> (r: &'static str)
    requires
        d < 10,
    ensures
        r@ == seq![digit_char(d as nat)],
{
    if d == 0 {
        proof { reveal_strlit("0"); }
        "0"
    } else if d == 1 {
        proof { reveal_strlit("1"); }
        "1"
    } else if d == 2 {
        proof { reveal_strlit("2"); }
        "2"
    } else if d == 3 {
        proof { reveal_strlit("3"); }
        "3"
    } else if d == 4 {
        proof { reveal_strlit("4"); }
        "4"
    } else if d == 5 {
        proof { reveal_strlit("5"); }
        "5"
    } else if d == 6 {
        proof { reveal_strlit("6"); }
        "6"
    } else if d == 7 {
        proof { reveal_strlit("7"); }
        "7"
    } else if d == 8 {
        proof { reveal_strlit("8"); }
        "8"
    } else {
        proof { reveal_strlit("9"); }
        "9"
    }
}

/// Appends the decimal notation of `n`.
pub fn append_decimal(out: &mut String, n: u64)
    ensures
        final(out)@ == old(out)@ + decimal_text(n as nat),
    decreases n,
{
    if n >= 10 {
        append_decimal(out, n / 10);
    }
    let d = digit_str(n % 10);
    out.append(d);
    proof {
        assert(decimal_text(n as nat) =~= if n < 10 {
            seq![digit_char(n as nat)]
        } else {
            decimal_text((n / 10) as nat) + seq![digit_char((n % 10) as nat)]
        });
    }
}

/// Appends the strings of `items`, `sep` between each two neighbours.
pub fn append_joined(out: &mut String, items: &Vec<String>, sep: &str)
    ensures
        final(out)@ == old(out)@ + join_texts(texts(items@), sep@),
{
    let ghost start = out@;
    let ghost all = texts(items@);
    let n = items.len();
    let mut i: usize = 0;
    while i < n
        invariant
            n == items@.len(),
            all == texts(items@),
            i <= n,
            out@ == start + join_texts(all.take(i as int), sep@),
        decreases n - i,
    {
        if i != 0 {
            out.append(sep);
        }
        out.append(items[i].as_str());
        proof {
            assert(all.take(i + 1).drop_last() =~= all.take(i as int));
            assert(all.take(i + 1).last() == items@[i as int]@);
            if i == 0 {
                assert(all.take(1)[0] == items@[0]@);
                assert(join_texts(all.take(0), sep@) =~= Seq::<char>::empty());
            }
        }
        i = i + 1;
    }
    assert(all.take(n as int) =~= all);
}

} // verus!

verus! {

/// The decimal notation of `n` is a nonempty run of ASCII digits that denotes `n`.
pub proof fn lemma_decimal_text(n: nat)
    ensures
        decimal_text(n).len() >= 1,
        forall|k: int|
            0 <= k < decimal_text(n).len() ==> lexeme::is_ascii_digit(
                #[trigger] ascii_bytes(decimal_text(n))[k],
            ),
        forall|k: int|
            0 <= k < decimal_text(n).len() ==> '0' <= #[trigger] decimal_text(n)[k] <= '9',
        lexeme::decimal_value(ascii_bytes(decimal_text(n))) == n,
    decreases n,
{
    let d = digit_char(n % 10);
    assert(d as u8 == (n % 10) + 48);
    if n < 10 {
        let b = ascii_bytes(decimal_text(n));
        assert(b =~= seq![d as u8]);
        lexeme::lemma_decimal_value_push(Seq::empty(), d as u8);
        assert(seq![d as u8] =~= Seq::<u8>::empty().push(d as u8));
    } else {
        lemma_decimal_text(n / 10);
        let prefix = decimal_text(n / 10);
        assert(ascii_bytes(decimal_text(n)) =~= ascii_bytes(prefix).push(d as u8));
        lexeme::lemma_decimal_value_push(ascii_bytes(prefix), d as u8);
    }
}

} // verus!

verus! {

/// UTF-8 encoding distributes over concatenation.
pub proof fn lemma_encode_utf8_concat(a: Seq<char>, b: Seq<char>)
    ensures
        vstd::utf8::encode_utf8(a + b) == vstd::utf8::encode_utf8(a) + vstd::utf8::encode_utf8(b),
    decreases a.len(),
{
    if a.len() == 0 {
        assert(a + b =~= b);
        assert(vstd::utf8::encode_utf8(a) =~= Seq::<u8>::empty());
        assert(Seq::<u8>::empty() + vstd::utf8::encode_utf8(b) =~= vstd::utf8::encode_utf8(b));
    } else {
        assert((a + b).drop_first() =~= a.drop_first() + b);
        assert((a + b)[0] == a[0]);
        lemma_encode_utf8_concat(a.drop_first(), b);
        let e0 = vstd::utf8::encode_scalar(a[0] as u32);
        assert(e0 + (vstd::utf8::encode_utf8(a.drop_first()) + vstd::utf8::encode_utf8(b)) =~= (e0
            + vstd::utf8::encode_utf8(a.drop_first())) + vstd::utf8::encode_utf8(b));
    }
}

/// The UTF-8 encoding of ASCII characters is their bytes.
pub proof fn lemma_ascii_encoding(t: Seq<char>)
    requires
        vstd::utf8::is_ascii_chars(t),
    ensures
        vstd::utf8::encode_utf8(t) == ascii_bytes(t),
{
    vstd::utf8::is_ascii_chars_encode_utf8(t);
    assert(vstd::utf8::encode_utf8(t) =~= ascii_bytes(t));
}

} // verus!

verus! {

/// `x` stands somewhere in `t`.
pub open spec fn occurs_in(x: Seq<char>, t: Seq<char>) -> bool {
    exists|p: int| 0 <= p && p + x.len() <= t.len() && #[trigger] t.subrange(p, p + x.len()) == x
}

/// A text that stands in `t` stands in `t` with anything around it.
pub proof fn lemma_occurs_in_context(x: Seq<char>, pre: Seq<char>, t: Seq<char>, post: Seq<char>)
    requires
        occurs_in(x, t),
    ensures
        occurs_in(x, pre + t + post),
{
    let p = choose|p: int| 0 <= p && p + x.len() <= t.len() && #[trigger] t.subrange(p, p + x.len()) == x;
    let q = p + pre.len();
    assert((pre + t + post).subrange(q, q + x.len()) =~= t.subrange(p, p + x.len()));
}

/// Joining two nonempty lists is joining each and putting the separator between.
pub proof fn lemma_join_concat(a: Seq<Seq<char>>, b: Seq<Seq<char>>, sep: Seq<char>)
    requires
        a.len() > 0,
        b.len() > 0,
    ensures
        join_texts(a + b, sep) == join_texts(a, sep) + sep + join_texts(b, sep),
    decreases b.len(),
{
    if b.len() == 1 {
        assert((a + b).drop_last() =~= a);
        assert((a + b).last() == b[0]);
    } else {
        assert((a + b).drop_last() =~= a + b.drop_last());
        assert((a + b).last() == b.last());
        lemma_join_concat(a, b.drop_last(), sep);
        assert(join_texts(a + b, sep) =~= join_texts(a, sep) + sep + join_texts(b, sep));
    }
}

/// Every item of a list stands in the list joined.
pub proof fn lemma_join_contains(items: Seq<Seq<char>>, sep: Seq<char>, i: int)
    requires
        0 <= i < items.len(),
    ensures
        occurs_in(items[i], join_texts(items, sep)),
    decreases items.len(),
{
    let j = join_texts(items, sep);
    if items.len() == 1 {
        let p = 0int;
        assert(j.subrange(p, p + items[i].len()) =~= items[i]);
        assert(0 <= p && p + items[i].len() <= j.len() && j.subrange(p, p + items[i].len()) == items[i]);
    } else if i == items.len() - 1 {
        let p = (join_texts(items.drop_last(), sep).len() + sep.len()) as int;
        assert(j.subrange(p, p + items[i].len()) =~= items[i]);
        assert(0 <= p && p + items[i].len() <= j.len() && j.subrange(p, p + items[i].len()) == items[i]);
    } else {
        lemma_join_contains(items.drop_last(), sep, i);
        assert(items.drop_last()[i] == items[i]);
        lemma_occurs_in_context(items[i], Seq::empty(), join_texts(items.drop_last(), sep), sep + items.last());
        assert(Seq::<char>::empty() + join_texts(items.drop_last(), sep) + (sep + items.last()) =~= j);
    }
}

/// The texts of two lists one after the other.
pub proof fn lemma_texts_concat(a: Seq<String>, b: Seq<String>)
    ensures
        texts(a + b) == texts(a) + texts(b),
{
    assert(texts(a + b) =~= texts(a) + texts(b));
}

} // verus!

verus! {

/// The decimal notation of `n` is the shortest run of digits that denotes it:
/// its bytes are digits `0` to `9` that denote `n`, and it starts with `0`
/// only when it is `0` itself.
pub proof fn law_decimal_notation(n: nat)
    ensures
        ({
            let d = ascii_bytes(decimal_text(n));
            &&& d.len() >= 1
            &&& forall|k: int| 0 <= k < d.len() ==> 0x30u8 <= #[trigger] d[k] <= 0x39u8
            &&& lexeme::decimal_value(d) == n
            &&& (d[0] == 0x30u8 ==> n == 0 && d.len() == 1)
        }),
    decreases n,
{
    lemma_decimal_text(n);
    let d = ascii_bytes(decimal_text(n));
    assert(forall|k: int| 0 <= k < d.len() ==> lexeme::is_ascii_digit(#[trigger] d[k]));
    if n >= 10 {
        law_decimal_notation(n / 10);
        let p = ascii_bytes(decimal_text(n / 10));
        assert(d[0] == p[0]);
    } else {
        assert(d[0] == (n + 48) as u8);
    }
}

} // verus!
