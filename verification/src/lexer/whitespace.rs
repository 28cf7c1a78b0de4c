//! Whitespace, character by character.
//!
//! The whitespace rule reads bytes. This shows what it matches in terms of
//! characters: the longest run of whitespace characters.
use super::rules::{whitespace_len, whitespace_width};
use vstd::prelude::*;
use vstd::utf8::{encode_scalar, encode_utf8};

verus! {

/// The whitespace characters: those with Unicode's `White_Space` property.
pub open spec fn is_whitespace(c: char) -> bool {
    let v = c as u32;
    ||| 0x09 <= v <= 0x0d
    ||| v == 0x20
    ||| v == 0x85
    ||| v == 0xa0
    ||| v == 0x1680
    ||| 0x2000 <= v <= 0x200a
    ||| v == 0x2028
    ||| v == 0x2029
    ||| v == 0x202f
    ||| v == 0x205f
    ||| v == 0x3000
}

/// Number of whitespace characters with which `chars` begins.
pub open spec fn leading_whitespace(chars: Seq<char>) -> nat
    decreases chars.len(),
{
    if chars.len() > 0 && is_whitespace(chars[0]) {
        1 + leading_whitespace(chars.drop_first())
    } else {
        0
    }
}

/// What the whitespace rule finds at an index of a text is what it finds at
/// the start of the text from that index on.
pub proof fn lemma_whitespace_from(s: Seq<u8>, i: int)
    requires
        0 <= i <= s.len(),
    ensures
        whitespace_width(s, i) == whitespace_width(s.skip(i), 0),
        whitespace_len(s, i) == whitespace_len(s.skip(i), 0),
    decreases s.len() - i,
{
    let rest = s.skip(i);
    assert(whitespace_width(s, i) == whitespace_width(rest, 0)) by {
        if i < s.len() {
            assert(rest[0] == s[i]);
            if i + 1 < s.len() {
                assert(rest[1] == s[i + 1]);
            }
            if i + 2 < s.len() {
                assert(rest[2] == s[i + 2]);
            }
        }
    }
    let width = whitespace_width(s, i) as int;
    if width > 0 {
        lemma_whitespace_from(s, i + width);
        lemma_whitespace_from(rest, width);
        assert(rest.skip(width) =~= s.skip(i + width));
    }
}

/// The bytes of a scalar value of two bytes are those of a whitespace
/// character only for U+0085 and U+00A0.
proof fn lemma_width_2(v: u32)
    by (bit_vector)
    requires
        0x80 <= v <= 0x7ff,
    ensures
        0xc2 <= (0xc0u8 | ((v >> 6) & 0x1f) as u8) <= 0xdf,
        ((0xc0u8 | ((v >> 6) & 0x1f) as u8) == 0xc2 && (0x80u8 | (v & 0x3f) as u8) == 0x85) <==> v
            == 0x85,
        ((0xc0u8 | ((v >> 6) & 0x1f) as u8) == 0xc2 && (0x80u8 | (v & 0x3f) as u8) == 0xa0) <==> v
            == 0xa0,
{
}

/// The bytes of a scalar value of three bytes are those of a whitespace
/// character only for the whitespace characters from U+1680 on.
proof fn lemma_width_3(v: u32)
    by (bit_vector)
    requires
        0x800 <= v <= 0xffff,
    ensures
        0xe0 <= (0xe0u8 | ((v >> 12) & 0x0f) as u8) <= 0xef,
        ((0xe0u8 | ((v >> 12) & 0x0f) as u8) == 0xe1 && (0x80u8 | ((v >> 6) & 0x3f) as u8) == 0x9a
            && (0x80u8 | (v & 0x3f) as u8) == 0x80) <==> v == 0x1680,
        ((0xe0u8 | ((v >> 12) & 0x0f) as u8) == 0xe2 && (0x80u8 | ((v >> 6) & 0x3f) as u8) == 0x80
            && 0x80 <= (0x80u8 | (v & 0x3f) as u8) <= 0x8a) <==> 0x2000 <= v <= 0x200a,
        ((0xe0u8 | ((v >> 12) & 0x0f) as u8) == 0xe2 && (0x80u8 | ((v >> 6) & 0x3f) as u8) == 0x80
            && (0x80u8 | (v & 0x3f) as u8) == 0xa8) <==> v == 0x2028,
        ((0xe0u8 | ((v >> 12) & 0x0f) as u8) == 0xe2 && (0x80u8 | ((v >> 6) & 0x3f) as u8) == 0x80
            && (0x80u8 | (v & 0x3f) as u8) == 0xa9) <==> v == 0x2029,
        ((0xe0u8 | ((v >> 12) & 0x0f) as u8) == 0xe2 && (0x80u8 | ((v >> 6) & 0x3f) as u8) == 0x80
            && (0x80u8 | (v & 0x3f) as u8) == 0xaf) <==> v == 0x202f,
        ((0xe0u8 | ((v >> 12) & 0x0f) as u8) == 0xe2 && (0x80u8 | ((v >> 6) & 0x3f) as u8) == 0x81
            && (0x80u8 | (v & 0x3f) as u8) == 0x9f) <==> v == 0x205f,
        ((0xe0u8 | ((v >> 12) & 0x0f) as u8) == 0xe3 && (0x80u8 | ((v >> 6) & 0x3f) as u8) == 0x80
            && (0x80u8 | (v & 0x3f) as u8) == 0x80) <==> v == 0x3000,
{
}

/// The only byte of a scalar value of one byte is that value, and the first
/// byte of one of four bytes begins no whitespace character.
proof fn lemma_width_1_and_4(v: u32)
    by (bit_vector)
    ensures
        v <= 0x7f ==> (v & 0x7f) as u8 == v,
        0xf0 <= (0xf0u8 | ((v >> 18) & 0x7) as u8),
{
}

/// At the start of the bytes of a text, the whitespace rule finds the whole
/// first character if it is a whitespace character, and nothing otherwise.
pub proof fn lemma_whitespace_width(chars: Seq<char>)
    requires
        chars.len() > 0,
    ensures
        whitespace_width(encode_utf8(chars), 0) == if is_whitespace(chars[0]) {
            encode_scalar(chars[0] as u32).len()
        } else {
            0
        },
{
    let v = chars[0] as u32;
    let first = encode_scalar(v);
    let bytes = encode_utf8(chars);
    assert(bytes == first + encode_utf8(chars.drop_first()));
    assert(forall|k: int| 0 <= k < first.len() ==> bytes[k] == first[k]);
    lemma_width_1_and_4(v);
    if 0x80 <= v <= 0x7ff {
        lemma_width_2(v);
        assert(bytes[0] == first[0] && bytes[1] == first[1]);
    } else if 0x800 <= v <= 0xffff {
        lemma_width_3(v);
        assert(bytes[0] == first[0] && bytes[1] == first[1] && bytes[2] == first[2]);
    } else {
        assert(bytes[0] == first[0]);
    }
}

/// Maximal run: at the start of the bytes of a text, the whitespace rule
/// matches the whitespace characters with which the text begins, all of them
/// and nothing more.
pub proof fn lemma_whitespace_run(chars: Seq<char>)
    ensures
        whitespace_len(encode_utf8(chars), 0) == encode_utf8(
            chars.take(leading_whitespace(chars) as int),
        ).len(),
        leading_whitespace(chars) <= chars.len(),
    decreases chars.len(),
{
    let bytes = encode_utf8(chars);
    if chars.len() > 0 {
        lemma_whitespace_width(chars);
        let rest = chars.drop_first();
        lemma_whitespace_run(rest);
        if is_whitespace(chars[0]) {
            let first = encode_scalar(chars[0] as u32);
            let width = first.len() as int;
            assert(bytes == first + encode_utf8(rest));
            assert(bytes.skip(width) =~= encode_utf8(rest));
            lemma_whitespace_from(bytes, width);
            let n = leading_whitespace(chars) as int;
            assert(chars.take(n).drop_first() =~= rest.take(n - 1));
            assert(chars.take(n)[0] == chars[0]);
        } else {
            assert(chars.take(0) =~= Seq::<char>::empty());
        }
    } else {
        assert(chars.take(0) =~= Seq::<char>::empty());
    }
}

} // verus!
