//! Encoding-aware reading and writing of text.
//!
//! Decoding tries UTF-8 first and falls back to lossy little-endian UTF-16;
//! encoding writes the text back according to the recorded tag.  UTF-8 is
//! specified by `vstd::utf8`; UTF-16 is specified here by [`utf16_units_of`]
//! and [`utf16_chars_of`], and the 16-bit code units are laid out two bytes
//! each, low byte first, by [`bytes_of_units`] and [`units_of_bytes`].

use vstd::arithmetic::div_mod::{lemma_fundamental_div_mod, lemma_fundamental_div_mod_converse};
use vstd::prelude::*;
use vstd::string::StrSliceExecFns;
use vstd::string::StringSliceAdditionalSpecFns;
use vstd::utf8::{char_is_scalar, char_u32_cast, decode_utf8, decode_utf8_encode_utf8, encode_utf8,
    valid_utf8};

use crate::text::{chars_vec, StrEncoding, StrUtf816};

verus! {

/// True of the 16-bit units reserved for the first half of a surrogate pair.
pub open spec fn is_high_surrogate(u: u16) -> bool {
    0xD800 <= u <= 0xDBFF
}

/// True of the 16-bit units reserved for the second half of a surrogate pair.
pub open spec fn is_low_surrogate(u: u16) -> bool {
    0xDC00 <= u <= 0xDFFF
}

/// True of every 16-bit unit that cannot stand for a scalar on its own.
pub open spec fn is_surrogate(u: u16) -> bool {
    0xD800 <= u <= 0xDFFF
}

/// The UTF-16 code units of one character: itself for the basic plane, a
/// surrogate pair for everything above it.
pub open spec fn units_of_char(c: char) -> Seq<u16> {
    if (c as u32) < 0x10000 {
        seq![(c as u32) as u16]
    } else {
        seq![
            (0xD800 + (c as u32 - 0x10000) / 0x400) as u16,
            (0xDC00 + (c as u32 - 0x10000) % 0x400) as u16,
        ]
    }
}

/// The UTF-16 encoding of a character sequence.
pub open spec fn utf16_units_of(s: Seq<char>) -> Seq<u16>
    decreases s.len(),
{
    if s.len() == 0 {
        Seq::empty()
    } else {
        units_of_char(s[0]) + utf16_units_of(s.drop_first())
    }
}

/// The scalar a surrogate pair stands for.
pub open spec fn combined_scalar(hi: u16, lo: u16) -> u32
    recommends
        is_high_surrogate(hi),
        is_low_surrogate(lo),
{
    (0x10000 + (hi - 0xD800) * 0x400 + (lo - 0xDC00)) as u32
}

/// Lossy UTF-16 decoding: a well-formed unit or surrogate pair yields the
/// scalar it encodes, and any unit that fails to form one yields U+FFFD.
pub open spec fn utf16_chars_of(u: Seq<u16>) -> Seq<char>
    decreases u.len(),
{
    if u.len() == 0 {
        Seq::empty()
    } else if !is_surrogate(u[0]) {
        seq![(u[0] as u32) as char] + utf16_chars_of(u.drop_first())
    } else if is_high_surrogate(u[0]) && u.len() >= 2 && is_low_surrogate(u[1]) {
        seq![combined_scalar(u[0], u[1]) as char] + utf16_chars_of(u.skip(2))
    } else {
        seq!['\u{FFFD}'] + utf16_chars_of(u.drop_first())
    }
}

/// One 16-bit unit read from two bytes, low byte first.
pub open spec fn unit_of_bytes(lo: u8, hi: u8) -> u16 {
    (lo + 0x100 * hi) as u16
}

/// The 16-bit units read from a byte sequence two bytes at a time, low byte
/// first; a dangling final byte is dropped.
pub open spec fn units_of_bytes(b: Seq<u8>) -> Seq<u16>
    decreases b.len(),
{
    if b.len() < 2 {
        Seq::empty()
    } else {
        seq![unit_of_bytes(b[0], b[1])] + units_of_bytes(b.skip(2))
    }
}

/// The two bytes of one 16-bit unit, low byte first.
pub open spec fn bytes_of_unit(u: u16) -> Seq<u8> {
    seq![(u % 0x100) as u8, (u / 0x100) as u8]
}

/// The bytes of a 16-bit unit sequence, each unit low byte first.
pub open spec fn bytes_of_units(u: Seq<u16>) -> Seq<u8>
    decreases u.len(),
{
    if u.len() == 0 {
        Seq::empty()
    } else {
        bytes_of_unit(u[0]) + bytes_of_units(u.drop_first())
    }
}

/// The bytes that [`encode_utf8_utf16`] writes for the given text and tag.
pub open spec fn encoded_bytes(text: Seq<char>, encoding: StrEncoding) -> Seq<u8> {
    match encoding {
        StrEncoding::Utf8 => encode_utf8(text),
        StrEncoding::Utf16 => bytes_of_units(utf16_units_of(text)),
    }
}

/// True of byte sequences that decode to UTF-16 without loss: an even number
/// of bytes whose units are the UTF-16 encoding of some character sequence.
pub open spec fn lossless_utf16_bytes(b: Seq<u8>) -> bool {
    b.len() % 2 == 0 && (exists|s: Seq<char>| units_of_bytes(b) == utf16_units_of(s))
}

/// Reading a unit's two bytes back gives the unit.
proof fn lemma_unit_bytes_unit(u: u16)
    ensures
        unit_of_bytes((u % 0x100) as u8, (u / 0x100) as u8) == u,
{
    lemma_fundamental_div_mod(u as int, 0x100);
}

/// Writing a unit read from two bytes gives the two bytes back.
proof fn lemma_bytes_unit_bytes(lo: u8, hi: u8)
    ensures
        bytes_of_unit(unit_of_bytes(lo, hi)) == seq![lo, hi],
{
    lemma_fundamental_div_mod_converse(lo + 0x100 * hi, 0x100, hi as int, lo as int);
    assert(bytes_of_unit(unit_of_bytes(lo, hi)) =~= seq![lo, hi]);
}

/// Bytes written from units read back as the same units.
pub proof fn lemma_units_bytes_roundtrip(u: Seq<u16>)
    ensures
        units_of_bytes(bytes_of_units(u)) == u,
    decreases u.len(),
{
    if u.len() == 0 {
        assert(units_of_bytes(bytes_of_units(u)) =~= u);
    } else {
        let b = bytes_of_units(u);
        lemma_unit_bytes_unit(u[0]);
        assert(b.skip(2) =~= bytes_of_units(u.drop_first()));
        lemma_units_bytes_roundtrip(u.drop_first());
        assert(units_of_bytes(b) =~= u);
    }
}

/// An even byte sequence, read as units and written again, is unchanged.
pub proof fn lemma_bytes_units_roundtrip(b: Seq<u8>)
    requires
        b.len() % 2 == 0,
    ensures
        bytes_of_units(units_of_bytes(b)) == b,
    decreases b.len(),
{
    if b.len() == 0 {
        assert(bytes_of_units(units_of_bytes(b)) =~= b);
    } else {
        lemma_bytes_unit_bytes(b[0], b[1]);
        lemma_bytes_units_roundtrip(b.skip(2));
        let us = units_of_bytes(b);
        assert(us[0] == unit_of_bytes(b[0], b[1]));
        assert(us.drop_first() =~= units_of_bytes(b.skip(2)));
        assert(us.len() != 0);
        assert(bytes_of_units(us) == bytes_of_unit(us[0]) + bytes_of_units(us.drop_first()));
        assert(bytes_of_units(units_of_bytes(b)) =~= b);
    }
}

/// A dangling final byte changes nothing about the units.
pub proof fn lemma_units_of_bytes_odd(b: Seq<u8>)
    requires
        b.len() % 2 == 1,
    ensures
        units_of_bytes(b) == units_of_bytes(b.drop_last()),
    decreases b.len(),
{
    if b.len() == 1 {
        assert(units_of_bytes(b) =~= units_of_bytes(b.drop_last()));
    } else {
        lemma_units_of_bytes_odd(b.skip(2));
        assert(b.skip(2).drop_last() =~= b.drop_last().skip(2));
        assert(units_of_bytes(b) =~= units_of_bytes(b.drop_last()));
    }
}

/// Appending two bytes appends one unit.
proof fn lemma_units_of_bytes_push2(b: Seq<u8>, x: u8, y: u8)
    requires
        b.len() % 2 == 0,
    ensures
        units_of_bytes(b + seq![x, y]) == units_of_bytes(b) + seq![unit_of_bytes(x, y)],
    decreases b.len(),
{
    let e = b + seq![x, y];
    if b.len() == 0 {
        assert(e[0] == x && e[1] == y);
        assert(e.skip(2) =~= Seq::<u8>::empty());
        assert(units_of_bytes(Seq::<u8>::empty()) =~= Seq::<u16>::empty());
        assert(units_of_bytes(e) =~= units_of_bytes(b) + seq![unit_of_bytes(x, y)]);
    } else {
        lemma_units_of_bytes_push2(b.skip(2), x, y);
        assert(e[0] == b[0] && e[1] == b[1]);
        assert(e.skip(2) =~= b.skip(2) + seq![x, y]);
        assert(units_of_bytes(e) == seq![unit_of_bytes(b[0], b[1])] + units_of_bytes(e.skip(2)));
        assert(units_of_bytes(b) == seq![unit_of_bytes(b[0], b[1])] + units_of_bytes(b.skip(2)));
        assert(units_of_bytes(e) =~= units_of_bytes(b) + seq![unit_of_bytes(x, y)]);
    }
}

/// Appending one unit appends its two bytes.
proof fn lemma_bytes_of_units_push(u: Seq<u16>, x: u16)
    ensures
        bytes_of_units(u + seq![x]) == bytes_of_units(u) + bytes_of_unit(x),
    decreases u.len(),
{
    let e = u + seq![x];
    if u.len() == 0 {
        assert(e[0] == x);
        assert(e.drop_first() =~= Seq::<u16>::empty());
        assert(bytes_of_units(Seq::<u16>::empty()) =~= Seq::<u8>::empty());
        assert(bytes_of_units(e) =~= bytes_of_units(u) + bytes_of_unit(x));
    } else {
        lemma_bytes_of_units_push(u.drop_first(), x);
        assert(e[0] == u[0]);
        assert(e.drop_first() =~= u.drop_first() + seq![x]);
        assert(bytes_of_units(e) == bytes_of_unit(u[0]) + bytes_of_units(e.drop_first()));
        assert(bytes_of_units(u) == bytes_of_unit(u[0]) + bytes_of_units(u.drop_first()));
        assert(bytes_of_units(e) =~= bytes_of_units(u) + bytes_of_unit(x));
    }
}

/// Appending one character appends its units.
proof fn lemma_utf16_units_push(s: Seq<char>, c: char)
    ensures
        utf16_units_of(s + seq![c]) == utf16_units_of(s) + units_of_char(c),
    decreases s.len(),
{
    let e = s + seq![c];
    if s.len() == 0 {
        assert(e[0] == c);
        assert(e.drop_first() =~= Seq::<char>::empty());
        assert(utf16_units_of(Seq::<char>::empty()) =~= Seq::<u16>::empty());
        assert(utf16_units_of(e) =~= utf16_units_of(s) + units_of_char(c));
    } else {
        lemma_utf16_units_push(s.drop_first(), c);
        assert(e[0] == s[0]);
        assert(e.drop_first() =~= s.drop_first() + seq![c]);
        assert(utf16_units_of(e) == units_of_char(s[0]) + utf16_units_of(e.drop_first()));
        assert(utf16_units_of(s) == units_of_char(s[0]) + utf16_units_of(s.drop_first()));
        assert(utf16_units_of(e) =~= utf16_units_of(s) + units_of_char(c));
    }
}

/// UTF-16 round-trip: encoding a character sequence and decoding the units
/// losslessly gives the sequence back.
pub proof fn lemma_utf16_round_trip(s: Seq<char>)
    ensures
        utf16_chars_of(utf16_units_of(s)) == s,
    decreases s.len(),
{
    if s.len() == 0 {
    } else {
        let c = s[0];
        let v = c as u32;
        char_is_scalar(c);
        char_u32_cast(c, v);
        let u = utf16_units_of(s);
        lemma_utf16_round_trip(s.drop_first());
        if v < 0x10000 {
            let unit = v as u16;
            assert(!is_surrogate(unit));
            assert(u[0] == unit);
            assert(u.drop_first() =~= utf16_units_of(s.drop_first()));
            assert((unit as u32) as char == c);
            assert(utf16_chars_of(u) =~= s);
        } else {
            let w = v - 0x10000;
            assert(w / 0x400 < 0x400) by (nonlinear_arith)
                requires
                    0 <= w < 0x100000,
            ;
            let hi = (0xD800 + w / 0x400) as u16;
            let lo = (0xDC00 + w % 0x400) as u16;
            assert(is_high_surrogate(hi) && is_low_surrogate(lo));
            assert(u[0] == hi && u[1] == lo);
            lemma_fundamental_div_mod(w, 0x400);
            assert(combined_scalar(hi, lo) == v);
            assert(combined_scalar(hi, lo) as char == c);
            assert(u.skip(2) =~= utf16_units_of(s.drop_first()));
            assert(utf16_chars_of(u) =~= s);
        }
    }
}

/// Relies on `String::from_utf8`: it succeeds exactly on the byte sequences
/// that are valid UTF-8, and then returns the string of the characters those
/// bytes encode.
#[verifier::external_body]
fn from_utf8_vec(bytes: &Vec<u8>) -> (r: Option<String>)
    ensures
        r is Some <==> valid_utf8(bytes@),
        r matches Some(s) ==> s@ == decode_utf8(bytes@),
{
    String::from_utf8(bytes.clone()).ok()
}

/// Relies on `String::from_utf16_lossy`: a well-formed unit or surrogate pair
/// decodes to the scalar it encodes, and every unit that fails to form one
/// decodes to the replacement character.
#[verifier::external_body]
fn from_utf16_lossy_units(units: &Vec<u16>) -> (r: String)
    ensures
        r@ == utf16_chars_of(units@),
{
    String::from_utf16_lossy(units.as_slice())
}

/// Reads a byte sequence as 16-bit units, two bytes each, low byte first,
/// silently dropping a dangling final byte.
pub fn bytes_to_units(bytes: &Vec<u8>) -> (r: Vec<u16>)
    ensures
        r@ == units_of_bytes(bytes@),
{
    let mut r: Vec<u16> = Vec::new();
    let mut i: usize = 0;
    while i < bytes.len() && i + 1 < bytes.len()
        invariant
            i % 2 == 0,
            i <= bytes.len(),
            r@ == units_of_bytes(bytes@.take(i as int)),
        decreases bytes@.len() - i,
    {
        let lo = bytes[i];
        let hi = bytes[i + 1];
        let unit: u16 = lo as u16 + 0x100 * (hi as u16);
        proof {
            lemma_units_of_bytes_push2(bytes@.take(i as int), lo, hi);
            assert(bytes@.take(i + 2) =~= bytes@.take(i as int) + seq![lo, hi]);
            assert(r@.push(unit_of_bytes(lo, hi)) =~= r@ + seq![unit_of_bytes(lo, hi)]);
        }
        r.push(unit);
        i = i + 2;
    }
    proof {
        if bytes@.len() % 2 == 0 {
            assert(i == bytes@.len());
            assert(bytes@.take(i as int) =~= bytes@);
        } else {
            assert(i == bytes@.len() - 1);
            lemma_units_of_bytes_odd(bytes@);
            assert(bytes@.take(i as int) =~= bytes@.drop_last());
        }
    }
    r
}

/// Writes 16-bit units out as bytes, two per unit, low byte first.
pub fn units_to_bytes(units: &Vec<u16>) -> (r: Vec<u8>)
    ensures
        r@ == bytes_of_units(units@),
{
    let mut r: Vec<u8> = Vec::new();
    let mut i: usize = 0;
    while i < units.len()
        invariant
            i <= units.len(),
            r@ == bytes_of_units(units@.take(i as int)),
        decreases units@.len() - i,
    {
        let u = units[i];
        proof {
            lemma_bytes_of_units_push(units@.take(i as int), u);
            assert(units@.take(i + 1) =~= units@.take(i as int) + seq![u]);
            assert(r@.push((u % 0x100) as u8).push((u / 0x100) as u8) =~= r@ + bytes_of_unit(u));
        }
        r.push((u % 0x100) as u8);
        r.push((u / 0x100) as u8);
        i = i + 1;
    }
    proof {
        assert(units@.take(i as int) =~= units@);
    }
    r
}

/// Encodes characters as UTF-16 code units, one unit for the basic plane and
/// a surrogate pair above it.
pub fn encode_units(chars: &Vec<char>) -> (r: Vec<u16>)
    ensures
        r@ == utf16_units_of(chars@),
{
    let mut r: Vec<u16> = Vec::new();
    let mut i: usize = 0;
    while i < chars.len()
        invariant
            i <= chars.len(),
            r@ == utf16_units_of(chars@.take(i as int)),
        decreases chars@.len() - i,
    {
        let c = chars[i];
        let v: u32 = c as u32;
        proof {
            char_is_scalar(c);
            lemma_utf16_units_push(chars@.take(i as int), c);
            assert(chars@.take(i + 1) =~= chars@.take(i as int) + seq![c]);
        }
        if v < 0x10000 {
            r.push(v as u16);
        } else {
            let w: u32 = v - 0x10000;
            proof {
                assert(w / 0x400 < 0x400) by (nonlinear_arith)
                    requires
                        0 <= w < 0x100000,
                ;
            }
            r.push((0xD800 + w / 0x400) as u16);
            r.push((0xDC00 + w % 0x400) as u16);
        }
        i = i + 1;
    }
    proof {
        assert(chars@.take(i as int) =~= chars@);
    }
    r
}

/// Decodes raw file bytes, choosing UTF-8 when the bytes are valid UTF-8 and
/// falling back to lossy little-endian UTF-16 otherwise.
///
/// The last two clauses are the round-trip guarantees: valid UTF-8 input, and
/// lossless UTF-16 input, both encode back to the exact input bytes.  An odd
/// trailing byte under the UTF-16 fallback is silently dropped.
pub fn decode_utf8_utf16(bytes: &Vec<u8>) -> (r: StrUtf816)
    ensures
        r@.encoding == StrEncoding::Utf8 <==> valid_utf8(bytes@),
        valid_utf8(bytes@) ==> r@.text == decode_utf8(bytes@),
        !valid_utf8(bytes@) ==> r@.text == utf16_chars_of(units_of_bytes(bytes@)),
        valid_utf8(bytes@) ==> encoded_bytes(r@.text, r@.encoding) == bytes@,
        lossless_utf16_bytes(bytes@) ==> encoded_bytes(r@.text, r@.encoding) == bytes@,
{
    match from_utf8_vec(bytes) {
        Some(s) => {
            proof {
                decode_utf8_encode_utf8(bytes@);
            }
            StrUtf816::new(s, StrEncoding::Utf8)
        },
        None => {
            let units = bytes_to_units(bytes);
            let s = from_utf16_lossy_units(&units);
            proof {
                if lossless_utf16_bytes(bytes@) {
                    let s0 = choose|s0: Seq<char>| units_of_bytes(bytes@) == utf16_units_of(s0);
                    lemma_utf16_round_trip(s0);
                    lemma_bytes_units_roundtrip(bytes@);
                }
            }
            StrUtf816::new(s, StrEncoding::Utf16)
        },
    }
}

/// Serializes text back to bytes according to its recorded encoding tag:
/// UTF-8 text as its UTF-8 bytes, UTF-16 text as its code units written two
/// bytes each, low byte first.  No byte-order mark is written.
pub fn encode_utf8_utf16(value: &StrUtf816) -> (r: Vec<u8>)
    ensures
        r@ == encoded_bytes(value@.text, value@.encoding),
{
    match value.encoding() {
        StrEncoding::Utf8 => value.as_str().as_bytes_vec(),
        StrEncoding::Utf16 => {
            let chars = chars_vec(value.as_str());
            let units = encode_units(&chars);
            units_to_bytes(&units)
        },
    }
}

} // verus!
