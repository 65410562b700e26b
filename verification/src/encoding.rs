//! Encoding of file contents: byte order marks and UTF-16.
//!
//! Contents are normalised before they are tested for being binary: UTF-16 text
//! is full of zero bytes, which its transcoding to UTF-8 removes.

use std::borrow::Cow;
use vstd::prelude::*;
use vstd::slice::slice_subrange;

verus! {

/// Files with a zero byte among this many first bytes are binary.
pub const BINARY_PROBE: usize = 8192;

/// `b` starts with the UTF-8 byte order mark.
pub open spec fn has_utf8_mark(b: Seq<u8>) -> bool {
    b.len() >= 3 && b[0] == 0xEF && b[1] == 0xBB && b[2] == 0xBF
}

/// `b` starts with the little-endian UTF-16 byte order mark.
pub open spec fn has_utf16le_mark(b: Seq<u8>) -> bool {
    b.len() >= 2 && b[0] == 0xFF && b[1] == 0xFE
}

/// `b` starts with the big-endian UTF-16 byte order mark.
pub open spec fn has_utf16be_mark(b: Seq<u8>) -> bool {
    b.len() >= 2 && b[0] == 0xFE && b[1] == 0xFF
}

/// The 16-bit units of `b`; an odd byte at the end is dropped.
pub open spec fn units(b: Seq<u8>, big_endian: bool) -> Seq<u16> {
    Seq::new(
        b.len() / 2,
        |i: int|
            if big_endian {
                (b[2 * i] * 256 + b[2 * i + 1]) as u16
            } else {
                (b[2 * i + 1] * 256 + b[2 * i]) as u16
            },
    )
}

/// The first unit of a surrogate pair.
pub open spec fn is_high(u: u16) -> bool {
    0xD800 <= u <= 0xDBFF
}

/// The second unit of a surrogate pair.
pub open spec fn is_low(u: u16) -> bool {
    0xDC00 <= u <= 0xDFFF
}

/// The scalar value of a surrogate pair.
pub open spec fn pair_value(high: u16, low: u16) -> u32 {
    (0x10000 + (high - 0xD800) * 0x400 + (low - 0xDC00)) as u32
}

/// The text that 16-bit units stand for. A unit that is half of no pair stands
/// for the replacement character.
pub open spec fn text(u: Seq<u16>) -> Seq<char>
    decreases u.len(),
{
    if u.len() == 0 {
        Seq::empty()
    } else if !is_high(u[0]) && !is_low(u[0]) {
        seq![u[0] as char] + text(u.skip(1))
    } else if is_high(u[0]) && u.len() >= 2 && is_low(u[1]) {
        seq![pair_value(u[0], u[1]) as char] + text(u.skip(2))
    } else {
        seq![0xFFFDu32 as char] + text(u.skip(1))
    }
}

/// The content that is indexed: without a UTF-8 mark, UTF-16 as UTF-8.
pub open spec fn normalized(b: Seq<u8>) -> Seq<u8> {
    if has_utf8_mark(b) {
        b.skip(3)
    } else if has_utf16le_mark(b) {
        vstd::utf8::encode_utf8(text(units(b.skip(2), false)))
    } else if has_utf16be_mark(b) {
        vstd::utf8::encode_utf8(text(units(b.skip(2), true)))
    } else {
        b
    }
}

/// The bytes of a borrowed or owned string of bytes.
pub open spec fn cow_bytes(c: Cow<'_, [u8]>) -> Seq<u8> {
    match c {
        Cow::Borrowed(s) => s@,
        Cow::Owned(v) => v@,
    }
}

/// Appends the UTF-8 encoding of a scalar value.
fn push_scalar(out: &mut Vec<u8>, c: u32)
    requires
        vstd::utf8::is_scalar(c),
    ensures
        final(out)@ == old(out)@ + vstd::utf8::encode_scalar(c),
{
    let ghost before = out@;
    if c <= 0x7F {
        out.push((c & 0x7F) as u8);
    } else if c <= 0x7FF {
        out.push(0xC0 | ((c >> 6) & 0x1F) as u8);
        out.push(0x80 | (c & 0x3F) as u8);
    } else if c <= 0xFFFF {
        out.push(0xE0 | ((c >> 12) & 0x0F) as u8);
        out.push(0x80 | ((c >> 6) & 0x3F) as u8);
        out.push(0x80 | (c & 0x3F) as u8);
    } else {
        out.push(0xF0 | ((c >> 18) & 0x7) as u8);
        out.push(0x80 | ((c >> 12) & 0x3F) as u8);
        out.push(0x80 | ((c >> 6) & 0x3F) as u8);
        out.push(0x80 | (c & 0x3F) as u8);
    }
    assert(out@ =~= before + vstd::utf8::encode_scalar(c));
}

proof fn lemma_encode_cons(c: char, rest: Seq<char>)
    ensures
        vstd::utf8::encode_utf8(seq![c] + rest) == vstd::utf8::encode_scalar(c as u32)
            + vstd::utf8::encode_utf8(rest),
{
    let all = seq![c] + rest;
    assert(all[0] == c);
    assert(all.drop_first() =~= rest);
}

/// Unit `i` of `b`.
fn unit_at(b: &[u8], i: usize, big_endian: bool) -> (u: u16)
    requires
        2 * i + 1 < b@.len(),
    ensures
        u == units(b@, big_endian)[i as int],
{
    let _len: usize = b.len();
    let first: u16 = b[2 * i] as u16;
    let second: u16 = b[2 * i + 1] as u16;
    if big_endian {
        first * 256 + second
    } else {
        second * 256 + first
    }
}

/// The UTF-8 encoding of UTF-16 text.
fn decode_utf16(b: &[u8], big_endian: bool) -> (r: Vec<u8>)
    ensures
        r@ == vstd::utf8::encode_utf8(text(units(b@, big_endian))),
{
    let ghost u = units(b@, big_endian);
    let n: usize = b.len() / 2;
    let mut out: Vec<u8> = Vec::new();
    let mut i: usize = 0;
    assert(u.skip(0) =~= u);
    assert(out@ + vstd::utf8::encode_utf8(text(u)) =~= vstd::utf8::encode_utf8(text(u)));
    while i < n
        invariant
            n == b@.len() / 2,
            u == units(b@, big_endian),
            i <= n,
            out@ + vstd::utf8::encode_utf8(text(u.skip(i as int))) == vstd::utf8::encode_utf8(
                text(u),
            ),
        decreases n - i,
    {
        let _len: usize = b.len();
        let first: u16 = unit_at(b, i, big_endian);
        let ghost rest = u.skip(i as int);
        let ghost before = out@;
        assert(rest[0] == first);
        assert(rest.skip(1) =~= u.skip(i + 1));
        if first < 0xD800 || first > 0xDFFF {
            push_scalar(&mut out, first as u32);
            proof {
                lemma_encode_cons(first as char, text(u.skip(i + 1)));
                assert(before + (vstd::utf8::encode_scalar(first as u32)
                    + vstd::utf8::encode_utf8(text(u.skip(i + 1)))) =~= out@
                    + vstd::utf8::encode_utf8(text(u.skip(i + 1))));
            }
            i = i + 1;
        } else {
            let mut low: u16 = 0;
            if first <= 0xDBFF && i + 1 < n {
                low = unit_at(b, i + 1, big_endian);
                assert(rest[1] == low);
            }
            if low >= 0xDC00 && low <= 0xDFFF {
                let c: u32 = 0x10000 + (first as u32 - 0xD800) * 0x400 + (low as u32 - 0xDC00);
                push_scalar(&mut out, c);
                proof {
                    assert(rest.skip(2) =~= u.skip(i + 2));
                    lemma_encode_cons(c as char, text(u.skip(i + 2)));
                    assert(before + (vstd::utf8::encode_scalar(c) + vstd::utf8::encode_utf8(
                        text(u.skip(i + 2)),
                    )) =~= out@ + vstd::utf8::encode_utf8(text(u.skip(i + 2))));
                }
                i = i + 2;
            } else {
                push_scalar(&mut out, 0xFFFD);
                proof {
                    lemma_encode_cons(0xFFFDu32 as char, text(u.skip(i + 1)));
                    assert(before + (vstd::utf8::encode_scalar(0xFFFD) + vstd::utf8::encode_utf8(
                        text(u.skip(i + 1)),
                    )) =~= out@ + vstd::utf8::encode_utf8(text(u.skip(i + 1))));
                }
                i = i + 1;
            }
        }
    }
    assert(u.skip(i as int).len() == 0);
    assert(vstd::utf8::encode_utf8(text(u.skip(i as int))) =~= Seq::<u8>::empty());
    assert(out@ =~= vstd::utf8::encode_utf8(text(u)));
    out
}

/// The UTF-8 encoding of little-endian UTF-16 text without its mark.
pub fn decode_utf16le(bytes: &[u8]) -> (r: Vec<u8>)
    ensures
        r@ == vstd::utf8::encode_utf8(text(units(bytes@, false))),
{
    decode_utf16(bytes, false)
}

/// The UTF-8 encoding of big-endian UTF-16 text without its mark.
pub fn decode_utf16be(bytes: &[u8]) -> (r: Vec<u8>)
    ensures
        r@ == vstd::utf8::encode_utf8(text(units(bytes@, true))),
{
    decode_utf16(bytes, true)
}

/// Normalises file contents: drops a UTF-8 mark, transcodes UTF-16 with a mark
/// to UTF-8, and hands everything else back without copying.
pub fn normalize_encoding(content: &[u8]) -> (r: Cow<'_, [u8]>)
    ensures
        cow_bytes(r) == normalized(content@),
        r is Borrowed <==> has_utf8_mark(content@) || !(has_utf16le_mark(content@)
            || has_utf16be_mark(content@)),
{
    let len: usize = content.len();
    if len >= 3 && content[0] == 0xEF && content[1] == 0xBB && content[2] == 0xBF {
        let rest = slice_subrange(content, 3, len);
        assert(rest@ =~= content@.skip(3));
        return Cow::Borrowed(rest);
    }
    if len >= 2 && content[0] == 0xFF && content[1] == 0xFE {
        let rest = slice_subrange(content, 2, len);
        assert(rest@ =~= content@.skip(2));
        return Cow::Owned(decode_utf16le(rest));
    }
    if len >= 2 && content[0] == 0xFE && content[1] == 0xFF {
        let rest = slice_subrange(content, 2, len);
        assert(rest@ =~= content@.skip(2));
        return Cow::Owned(decode_utf16be(rest));
    }
    Cow::Borrowed(content)
}

/// A zero byte is among the first [`BINARY_PROBE`] bytes.
pub open spec fn binary(b: Seq<u8>) -> bool {
    exists|i: int| 0 <= i < b.len() && i < BINARY_PROBE && b[i] == 0
}

/// Whether contents look binary.
pub fn is_binary(content: &[u8]) -> (r: bool)
    ensures
        r == binary(content@),
{
    let mut i: usize = 0;
    while i < content.len() && i < BINARY_PROBE
        invariant
            i <= content@.len(),
            forall|k: int| 0 <= k < i ==> content@[k] != 0,
        decreases content@.len() - i,
    {
        if content[i] == 0 {
            return true;
        }
        i = i + 1;
    }
    false
}

proof fn lemma_scalar_has_no_zero(c: u32)
    requires
        c != 0,
    ensures
        forall|i: int|
            0 <= i < vstd::utf8::encode_scalar(c).len() ==> #[trigger] vstd::utf8::encode_scalar(
                c,
            )[i] != 0,
{
    assert((0xC0u8 | ((c >> 6) & 0x1F) as u8) != 0) by (bit_vector);
    assert((0xE0u8 | ((c >> 12) & 0x0F) as u8) != 0) by (bit_vector);
    assert((0xF0u8 | ((c >> 18) & 0x7) as u8) != 0) by (bit_vector);
    assert((0x80u8 | (c & 0x3F) as u8) != 0) by (bit_vector);
    assert((0x80u8 | ((c >> 6) & 0x3F) as u8) != 0) by (bit_vector);
    assert((0x80u8 | ((c >> 12) & 0x3F) as u8) != 0) by (bit_vector);
    assert(c != 0 && c <= 0x7F ==> ((c & 0x7F) as u8) != 0) by (bit_vector);
}

/// Text without a zero character has no zero byte in UTF-8.
pub proof fn law_text_has_no_zero_bytes(t: Seq<char>)
    requires
        forall|i: int| 0 <= i < t.len() ==> (#[trigger] t[i]) as u32 != 0,
    ensures
        forall|i: int|
            0 <= i < vstd::utf8::encode_utf8(t).len() ==> #[trigger] vstd::utf8::encode_utf8(t)[i]
                != 0,
        !binary(vstd::utf8::encode_utf8(t)),
    decreases t.len(),
{
    let b = vstd::utf8::encode_utf8(t);
    if t.len() > 0 {
        let rest = t.drop_first();
        law_text_has_no_zero_bytes(rest);
        lemma_scalar_has_no_zero(t[0] as u32);
        let head = vstd::utf8::encode_scalar(t[0] as u32);
        let tail = vstd::utf8::encode_utf8(rest);
        assert forall|i: int| 0 <= i < b.len() implies #[trigger] b[i] != 0 by {
            if i < head.len() {
                assert(b[i] == head[i]);
            } else {
                assert(b[i] == tail[i - head.len()]);
            }
        }
    }
}

/// The UTF-16 encoding of a character.
pub open spec fn char_units(c: char) -> Seq<u16> {
    let v = c as u32;
    if v < 0x10000 {
        seq![v as u16]
    } else {
        seq![(0xD800 + (v - 0x10000) / 0x400) as u16, (0xDC00 + (v - 0x10000) % 0x400) as u16]
    }
}

/// The UTF-16 encoding of a text.
pub open spec fn utf16(t: Seq<char>) -> Seq<u16>
    decreases t.len(),
{
    if t.len() == 0 {
        Seq::empty()
    } else {
        char_units(t[0]) + utf16(t.drop_first())
    }
}

/// The bytes of 16-bit units.
pub open spec fn unit_bytes(u: Seq<u16>, big_endian: bool) -> Seq<u8> {
    Seq::new(
        2 * u.len(),
        |i: int|
            if (i % 2 == 0) == big_endian {
                (u[i / 2] / 256) as u8
            } else {
                (u[i / 2] % 256) as u8
            },
    )
}

/// The byte order mark of UTF-16.
pub open spec fn utf16_mark(big_endian: bool) -> Seq<u8> {
    if big_endian {
        seq![0xFEu8, 0xFF]
    } else {
        seq![0xFFu8, 0xFE]
    }
}

/// Units written as bytes are read back, with or without an odd byte at the end.
proof fn lemma_units_read_back(u: Seq<u16>, big_endian: bool, odd: Seq<u8>)
    requires
        odd.len() <= 1,
    ensures
        units(unit_bytes(u, big_endian) + odd, big_endian) == u,
{
    let b = unit_bytes(u, big_endian) + odd;
    let r = units(b, big_endian);
    assert forall|i: int| 0 <= i < u.len() implies #[trigger] r[i] == u[i] by {
        assert((2 * i) / 2 == i && (2 * i) % 2 == 0);
        assert((2 * i + 1) / 2 == i && (2 * i + 1) % 2 == 1);
        assert(u[i] / 256 * 256 + u[i] % 256 == u[i]);
    }
    assert(r =~= u);
}

/// A character is one unit outside the surrogates, or a surrogate pair.
proof fn lemma_char_units(c: char)
    ensures
        char_units(c).len() == 1 || char_units(c).len() == 2,
        char_units(c).len() == 1 ==> !is_high(char_units(c)[0]) && char_units(c)[0] as char == c,
        char_units(c).len() == 2 ==> is_high(char_units(c)[0]) && is_low(char_units(c)[1])
            && pair_value(char_units(c)[0], char_units(c)[1]) as char == c,
        !is_low(char_units(c)[0]),
{
    vstd::utf8::char_is_scalar(c);
    let v = c as u32;
    if v >= 0x10000 {
        let u = char_units(c);
        assert(u[0] == 0xD800 + (v - 0x10000) / 0x400);
        assert(u[1] == 0xDC00 + (v - 0x10000) % 0x400);
        assert(pair_value(u[0], u[1]) == v);
    }
}

/// An encoded text in front of other units stands for itself.
proof fn lemma_text_concat(t: Seq<char>, rest: Seq<u16>)
    ensures
        text(utf16(t) + rest) == t + text(rest),
    decreases t.len(),
{
    if t.len() == 0 {
        assert(utf16(t) + rest =~= rest);
        assert(t + text(rest) =~= text(rest));
    } else {
        let tail = t.drop_first();
        let u = char_units(t[0]);
        let after = utf16(tail) + rest;
        let all = utf16(t) + rest;
        lemma_text_concat(tail, rest);
        lemma_char_units(t[0]);
        assert(all =~= u + after);
        assert(all[0] == u[0]);
        if u.len() == 1 {
            assert(all.skip(1) =~= after);
        } else {
            assert(all[1] == u[1]);
            assert(all.skip(2) =~= after);
        }
        assert(seq![t[0]] + (tail + text(rest)) =~= t + text(rest));
    }
}

/// UTF-16 text with a byte order mark, in either byte order and with or without
/// an odd byte at the end, is indexed as the UTF-8 encoding of the text.
pub proof fn law_utf16_text_becomes_utf8(t: Seq<char>, big_endian: bool, odd: Seq<u8>)
    requires
        odd.len() <= 1,
    ensures
        normalized(utf16_mark(big_endian) + unit_bytes(utf16(t), big_endian) + odd)
            == vstd::utf8::encode_utf8(t),
{
    let body = unit_bytes(utf16(t), big_endian) + odd;
    let b = utf16_mark(big_endian) + unit_bytes(utf16(t), big_endian) + odd;
    assert(b.skip(2) =~= body);
    assert(b[0] == utf16_mark(big_endian)[0] && b[1] == utf16_mark(big_endian)[1]);
    lemma_units_read_back(utf16(t), big_endian, odd);
    lemma_text_concat(t, Seq::empty());
    assert(utf16(t) + Seq::<u16>::empty() =~= utf16(t));
    assert(t + text(Seq::empty()) =~= t);
}

/// Half a surrogate pair after a text stands for the replacement character.
proof fn lemma_lone_unit(before: Seq<char>, lone: u16, after: Seq<u16>)
    requires
        is_low(lone) || (is_high(lone) && !(after.len() > 0 && is_low(after[0]))),
    ensures
        text(utf16(before) + seq![lone] + after) == before.push('\u{FFFD}') + text(after),
{
    let rest = seq![lone] + after;
    assert(utf16(before) + seq![lone] + after =~= utf16(before) + rest);
    lemma_text_concat(before, rest);
    assert(rest.skip(1) =~= after);
    assert(rest[0] == lone);
    if rest.len() >= 2 {
        assert(rest[1] == after[0]);
    }
    assert(text(rest) == seq!['\u{FFFD}'] + text(after));
    assert(before + text(rest) =~= before.push('\u{FFFD}') + text(after));
}

/// The replacement character in UTF-8.
proof fn lemma_replacement_bytes()
    ensures
        vstd::utf8::encode_utf8(seq!['\u{FFFD}']) == seq![0xEFu8, 0xBF, 0xBD],
{
    let c = 0xFFFDu32;
    assert((0xE0u8 | ((c >> 12) & 0x0F) as u8) == 0xEF && (0x80u8 | ((c >> 6) & 0x3F) as u8) == 0xBF
        && (0x80u8 | (c & 0x3F) as u8) == 0xBD) by (bit_vector)
        requires
            c == 0xFFFDu32,
    ;
    lemma_encode_cons('\u{FFFD}', Seq::empty());
    assert(seq!['\u{FFFD}'] + Seq::<char>::empty() =~= seq!['\u{FFFD}']);
    assert(vstd::utf8::encode_utf8(seq!['\u{FFFD}']) =~= seq![0xEFu8, 0xBF, 0xBD]);
}

/// Half a surrogate pair after a text is indexed as the replacement character
/// after it, whatever units follow.
pub proof fn law_unpaired_surrogate_is_replaced(
    before: Seq<char>,
    lone: u16,
    after: Seq<u16>,
    big_endian: bool,
)
    requires
        is_low(lone) || (is_high(lone) && !(after.len() > 0 && is_low(after[0]))),
    ensures
        normalized(
            utf16_mark(big_endian) + unit_bytes(
                utf16(before) + seq![lone] + after,
                big_endian,
            ),
        ) == vstd::utf8::encode_utf8(before.push('\u{FFFD}') + text(after)),
        vstd::utf8::encode_utf8(seq!['\u{FFFD}']) == seq![0xEFu8, 0xBF, 0xBD],
{
    let u = utf16(before) + seq![lone] + after;
    let b = utf16_mark(big_endian) + unit_bytes(u, big_endian);
    assert(b.skip(2) =~= unit_bytes(u, big_endian) + Seq::<u8>::empty());
    assert(b[0] == utf16_mark(big_endian)[0] && b[1] == utf16_mark(big_endian)[1]);
    lemma_units_read_back(u, big_endian, Seq::empty());
    lemma_lone_unit(before, lone, after);
    lemma_replacement_bytes();
}

/// Content with a UTF-16 mark is indexed as valid UTF-8, whatever its units are.
pub proof fn law_utf16_content_becomes_valid_utf8(b: Seq<u8>)
    requires
        has_utf16le_mark(b) || has_utf16be_mark(b),
    ensures
        vstd::utf8::valid_utf8(normalized(b)),
{
    broadcast use vstd::utf8::encode_utf8_valid_utf8;

}

} // verus!
