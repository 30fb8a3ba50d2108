//! Text primitives of the listing: case folding, the order of folded names,
//! and the test for hidden names.

use vstd::prelude::*;
use vstd::string::StrSliceExecFns;
use vstd::utf8::{
    encode_scalar, encode_utf8, has_width_1_encoding, has_width_2_encoding, has_width_3_encoding,
    has_width_4_encoding, is_scalar, last_continuation_byte, leading_byte_width_1,
    leading_byte_width_2, leading_byte_width_3, leading_byte_width_4,
    second_last_continuation_byte, third_last_continuation_byte,
};

verus! {

/// The lowercase form of a text: every character mapped by the Unicode
/// lowercase rules, where one character may become several.
pub uninterp spec fn lowercase_of(text: Seq<char>) -> Seq<char>;

/// Calls `str::to_lowercase`. Not verified: the contract only gives the
/// returned text the name `lowercase_of`, which it is by being a function of
/// the argument alone.
#[verifier::external_body]
pub(crate) fn to_lowercase(text: &str) -> (lowered: String)
    ensures
        lowered@ == lowercase_of(text@),
{
    text.to_lowercase()
}

/// Lexicographic order of texts by code point: the first differing character
/// decides, and a proper prefix comes before what it is a prefix of.
pub open spec fn text_le(a: Seq<char>, b: Seq<char>) -> bool
    decreases a.len(),
{
    if a.len() == 0 {
        true
    } else if b.len() == 0 {
        false
    } else if a[0] != b[0] {
        (a[0] as u32) < (b[0] as u32)
    } else {
        text_le(a.drop_first(), b.drop_first())
    }
}

/// Lexicographic order of byte strings.
pub open spec fn lex_le(a: Seq<u8>, b: Seq<u8>) -> bool
    decreases a.len(),
{
    if a.len() == 0 {
        true
    } else if b.len() == 0 {
        false
    } else if a[0] != b[0] {
        a[0] < b[0]
    } else {
        lex_le(a.drop_first(), b.drop_first())
    }
}

/// A name is hidden when it begins with a dot.
pub open spec fn hidden(name: Seq<char>) -> bool {
    name.len() > 0 && name[0] == '.'
}

/// Any two texts are ordered one way or the other.
pub proof fn text_le_total(a: Seq<char>, b: Seq<char>)
    ensures
        text_le(a, b) || text_le(b, a),
    decreases a.len(),
{
    if a.len() > 0 && b.len() > 0 {
        if a[0] == b[0] {
            text_le_total(a.drop_first(), b.drop_first());
        } else {
            vstd::utf8::char_u32_cast(a[0], a[0] as u32);
            vstd::utf8::char_u32_cast(b[0], b[0] as u32);
        }
    }
}

/// The order of texts is transitive.
pub proof fn text_le_transitive(a: Seq<char>, b: Seq<char>, c: Seq<char>)
    requires
        text_le(a, b),
        text_le(b, c),
    ensures
        text_le(a, c),
    decreases a.len(),
{
    if a.len() > 0 && b.len() > 0 && c.len() > 0 {
        if a[0] == b[0] && b[0] == c[0] {
            text_le_transitive(a.drop_first(), b.drop_first(), c.drop_first());
        }
    }
}

/// Two texts that are ordered both ways are the same text.
pub proof fn text_le_antisymmetric(a: Seq<char>, b: Seq<char>)
    requires
        text_le(a, b),
        text_le(b, a),
    ensures
        a == b,
    decreases a.len(),
{
    if a.len() > 0 && b.len() > 0 {
        text_le_antisymmetric(a.drop_first(), b.drop_first());
        assert(a =~= seq![a[0]] + a.drop_first());
        assert(b =~= seq![b[0]] + b.drop_first());
    } else {
        assert(a =~= b);
    }
}

/// Of two scalar values, the encoding of the smaller has the smaller byte
/// where the two encodings first differ.
proof fn lemma_scalar_bytes(c: u32, d: u32)
    by (bit_vector)
    requires
        c < d,
        is_scalar(c),
        is_scalar(d),
    ensures
        has_width_1_encoding(c) && has_width_1_encoding(d) ==> leading_byte_width_1(c)
            < leading_byte_width_1(d),
        has_width_1_encoding(c) && has_width_2_encoding(d) ==> leading_byte_width_1(c)
            < leading_byte_width_2(d),
        has_width_1_encoding(c) && has_width_3_encoding(d) ==> leading_byte_width_1(c)
            < leading_byte_width_3(d),
        has_width_1_encoding(c) && has_width_4_encoding(d) ==> leading_byte_width_1(c)
            < leading_byte_width_4(d),
        has_width_2_encoding(c) && has_width_3_encoding(d) ==> leading_byte_width_2(c)
            < leading_byte_width_3(d),
        has_width_2_encoding(c) && has_width_4_encoding(d) ==> leading_byte_width_2(c)
            < leading_byte_width_4(d),
        has_width_3_encoding(c) && has_width_4_encoding(d) ==> leading_byte_width_3(c)
            < leading_byte_width_4(d),
        has_width_2_encoding(c) && has_width_2_encoding(d) ==> {
            ||| leading_byte_width_2(c) < leading_byte_width_2(d)
            ||| leading_byte_width_2(c) == leading_byte_width_2(d) && last_continuation_byte(c)
                < last_continuation_byte(d)
        },
        has_width_3_encoding(c) && has_width_3_encoding(d) ==> {
            ||| leading_byte_width_3(c) < leading_byte_width_3(d)
            ||| leading_byte_width_3(c) == leading_byte_width_3(d) && {
                ||| second_last_continuation_byte(c) < second_last_continuation_byte(d)
                ||| second_last_continuation_byte(c) == second_last_continuation_byte(d)
                    && last_continuation_byte(c) < last_continuation_byte(d)
            }
        },
        has_width_4_encoding(c) && has_width_4_encoding(d) ==> {
            ||| leading_byte_width_4(c) < leading_byte_width_4(d)
            ||| leading_byte_width_4(c) == leading_byte_width_4(d) && {
                ||| third_last_continuation_byte(c) < third_last_continuation_byte(d)
                ||| third_last_continuation_byte(c) == third_last_continuation_byte(d) && {
                    ||| second_last_continuation_byte(c) < second_last_continuation_byte(d)
                    ||| second_last_continuation_byte(c) == second_last_continuation_byte(d)
                        && last_continuation_byte(c) < last_continuation_byte(d)
                }
            }
        },
{
}

/// Where two byte strings agree up to `k` and the first has the smaller
/// byte there, the first comes strictly before the second, whatever follows
/// either.
proof fn lemma_decided_at(x: Seq<u8>, y: Seq<u8>, k: int, s: Seq<u8>, t: Seq<u8>)
    requires
        0 <= k < x.len(),
        k < y.len(),
        forall|j: int| 0 <= j < k ==> x[j] == y[j],
        x[k] < y[k],
    ensures
        lex_le(x + s, y + t),
        !lex_le(y + t, x + s),
    decreases k,
{
    if k > 0 {
        lemma_decided_at(x.drop_first(), y.drop_first(), k - 1, s, t);
        assert((x + s).drop_first() =~= x.drop_first() + s);
        assert((y + t).drop_first() =~= y.drop_first() + t);
    }
}

/// A common beginning does not bear on the order of two byte strings.
proof fn lemma_common_prefix(x: Seq<u8>, s: Seq<u8>, t: Seq<u8>)
    ensures
        lex_le(x + s, x + t) == lex_le(s, t),
    decreases x.len(),
{
    if x.len() > 0 {
        lemma_common_prefix(x.drop_first(), s, t);
        assert((x + s).drop_first() =~= x.drop_first() + s);
        assert((x + t).drop_first() =~= x.drop_first() + t);
    } else {
        assert(x + s =~= s);
        assert(x + t =~= t);
    }
}

/// The encoding of the smaller of two scalar values comes strictly before
/// that of the larger, whatever follows either.
proof fn lemma_scalar_order(c: u32, d: u32, s: Seq<u8>, t: Seq<u8>)
    requires
        c < d,
        is_scalar(c),
        is_scalar(d),
    ensures
        lex_le(encode_scalar(c) + s, encode_scalar(d) + t),
        !lex_le(encode_scalar(d) + t, encode_scalar(c) + s),
{
    lemma_scalar_bytes(c, d);
    let x = encode_scalar(c);
    let y = encode_scalar(d);
    let k: int = if x[0] != y[0] {
        0
    } else if x[1] != y[1] {
        1
    } else if x[2] != y[2] {
        2
    } else {
        3
    };
    lemma_decided_at(x, y, k, s, t);
}

/// Texts are ordered by code point as their UTF-8 encodings are ordered byte
/// by byte.
pub proof fn utf8_keeps_order(a: Seq<char>, b: Seq<char>)
    ensures
        lex_le(encode_utf8(a), encode_utf8(b)) == text_le(a, b),
    decreases a.len(),
{
    if a.len() > 0 && b.len() > 0 {
        let c = a[0] as u32;
        let d = b[0] as u32;
        let s = encode_utf8(a.drop_first());
        let t = encode_utf8(b.drop_first());
        vstd::utf8::char_is_scalar(a[0]);
        vstd::utf8::char_is_scalar(b[0]);
        if a[0] == b[0] {
            lemma_common_prefix(encode_scalar(c), s, t);
            utf8_keeps_order(a.drop_first(), b.drop_first());
        } else {
            vstd::utf8::char_u32_cast(a[0], c);
            vstd::utf8::char_u32_cast(b[0], d);
            if c < d {
                lemma_scalar_order(c, d, s, t);
            } else {
                lemma_scalar_order(d, c, t, s);
            }
        }
    }
}

/// Compares two byte strings lexicographically.
pub fn bytes_le(a: &[u8], b: &[u8]) -> (le: bool)
    ensures
        le == lex_le(a@, b@),
{
    let mut i: usize = 0;
    proof {
        assert(a@.skip(0) =~= a@);
        assert(b@.skip(0) =~= b@);
    }
    while i < a.len() && i < b.len()
        invariant
            i <= a@.len(),
            i <= b@.len(),
            lex_le(a@, b@) == lex_le(a@.skip(i as int), b@.skip(i as int)),
        decreases a@.len() - i,
    {
        if a[i] != b[i] {
            return a[i] < b[i];
        }
        proof {
            assert(a@.skip(i as int).drop_first() =~= a@.skip(i + 1));
            assert(b@.skip(i as int).drop_first() =~= b@.skip(i + 1));
        }
        i += 1;
    }
    i == a.len()
}

/// Compares two texts by code point, on their UTF-8 bytes.
pub fn str_le(a: &str, b: &str) -> (le: bool)
    ensures
        le == text_le(a@, b@),
{
    proof {
        utf8_keeps_order(a@, b@);
    }
    bytes_le(a.as_bytes(), b.as_bytes())
}

/// Tells whether a name is hidden.
pub fn is_hidden(name: &str) -> (h: bool)
    ensures
        h == hidden(name@),
{
    if name.is_empty() {
        false
    } else {
        name.get_char(0) == '.'
    }
}

} // verus!
