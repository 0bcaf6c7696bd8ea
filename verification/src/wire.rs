//! Little-endian fixed-width integers on the wire.
//!
//! The byte layout is stated once, arithmetically, by [`le_bytes`] and
//! [`le_value`]. The integers of two, four and eight bytes are written and
//! read by `bincode` under its fixed-width little-endian configuration; the
//! functions that call it carry contracts over the same two spec functions.

use crate::error::FieldError;
use crate::reader::ByteReader;
use vstd::prelude::*;

verus! {

/// The `width` low-order bytes of `v`, least significant first.
pub open spec fn le_bytes(v: nat, width: nat) -> Seq<u8>
    decreases width,
{
    if width == 0 {
        Seq::empty()
    } else {
        seq![(v % 256) as u8] + le_bytes(v / 256, (width - 1) as nat)
    }
}

/// The number whose little-endian bytes are `bytes`.
pub open spec fn le_value(bytes: Seq<u8>) -> nat
    decreases bytes.len(),
{
    if bytes.len() == 0 {
        0
    } else {
        bytes[0] as nat + 256 * le_value(bytes.drop_first())
    }
}

/// 256 to the power `width`: the number of values that fit in `width` bytes.
pub open spec fn span(width: nat) -> nat
    decreases width,
{
    if width == 0 {
        1
    } else {
        256 * span((width - 1) as nat)
    }
}

/// `le_bytes` always yields exactly `width` bytes.
pub proof fn lemma_le_bytes_len(v: nat, width: nat)
    ensures
        le_bytes(v, width).len() == width,
    decreases width,
{
    if width > 0 {
        lemma_le_bytes_len(v / 256, (width - 1) as nat);
    }
}

/// A byte sequence denotes a number below `span` of its length.
pub proof fn lemma_le_value_bound(bytes: Seq<u8>)
    ensures
        le_value(bytes) < span(bytes.len()),
    decreases bytes.len(),
{
    if bytes.len() > 0 {
        lemma_le_value_bound(bytes.drop_first());
    }
}

/// Reading back the bytes of a number that fits gives the number.
pub proof fn lemma_le_value_of_bytes(v: nat, width: nat)
    requires
        v < span(width),
    ensures
        le_value(le_bytes(v, width)) == v,
    decreases width,
{
    if width > 0 {
        let rest = le_bytes(v / 256, (width - 1) as nat);
        lemma_le_value_of_bytes(v / 256, (width - 1) as nat);
        assert(le_bytes(v, width).drop_first() =~= rest);
    }
}

/// `bincode`'s encoding failure, carried through unopened.
#[verifier::external_type_specification]
#[verifier::external_body]
pub struct ExEncodeError(bincode::error::EncodeError);

/// `bincode`'s decoding failure, carried through unopened.
#[verifier::external_type_specification]
#[verifier::external_body]
pub struct ExDecodeError(bincode::error::DecodeError);

/// `bincode::encode_to_vec` on a `u16` with fixed-width little-endian
/// integers. Trusted: the call succeeds and returns the two bytes of `v`,
/// low byte first.
#[verifier::external_body]
fn bincode_encode_u16(v: u16) -> (r: Result<Vec<u8>, bincode::error::EncodeError>)
    ensures
        match r {
            Ok(bytes) => bytes@ == le_bytes(v as nat, 2),
            Err(_) => false,
        },
{
    bincode::encode_to_vec(v, bincode::config::standard().with_fixed_int_encoding())
}

/// `bincode::encode_to_vec` on a `u32` with fixed-width little-endian
/// integers. Trusted: the call succeeds and returns the four bytes of `v`,
/// low byte first.
#[verifier::external_body]
fn bincode_encode_u32(v: u32) -> (r: Result<Vec<u8>, bincode::error::EncodeError>)
    ensures
        match r {
            Ok(bytes) => bytes@ == le_bytes(v as nat, 4),
            Err(_) => false,
        },
{
    bincode::encode_to_vec(v, bincode::config::standard().with_fixed_int_encoding())
}

/// `bincode::encode_to_vec` on a `u64` with fixed-width little-endian
/// integers. Trusted: the call succeeds and returns the eight bytes of `v`,
/// low byte first.
#[verifier::external_body]
fn bincode_encode_u64(v: u64) -> (r: Result<Vec<u8>, bincode::error::EncodeError>)
    ensures
        match r {
            Ok(bytes) => bytes@ == le_bytes(v as nat, 8),
            Err(_) => false,
        },
{
    bincode::encode_to_vec(v, bincode::config::standard().with_fixed_int_encoding())
}

/// `bincode::decode_from_slice` to a `u16` with fixed-width little-endian
/// integers. Trusted: with two bytes or more at hand the call returns the
/// number that the first two denote and reports two bytes read; with fewer
/// it fails.
#[verifier::external_body]
fn bincode_decode_u16(src: &[u8]) -> (r: Result<(u16, usize), bincode::error::DecodeError>)
    ensures
        match r {
            Ok((v, n)) => src@.len() >= 2 && n == 2 && v as nat == le_value(src@.take(2)),
            Err(_) => src@.len() < 2,
        },
{
    bincode::decode_from_slice(src, bincode::config::standard().with_fixed_int_encoding())
}

/// `bincode::decode_from_slice` to a `u32` with fixed-width little-endian
/// integers. Trusted: with four bytes or more at hand the call returns the
/// number that the first four denote and reports four bytes read; with
/// fewer it fails.
#[verifier::external_body]
fn bincode_decode_u32(src: &[u8]) -> (r: Result<(u32, usize), bincode::error::DecodeError>)
    ensures
        match r {
            Ok((v, n)) => src@.len() >= 4 && n == 4 && v as nat == le_value(src@.take(4)),
            Err(_) => src@.len() < 4,
        },
{
    bincode::decode_from_slice(src, bincode::config::standard().with_fixed_int_encoding())
}

/// `bincode::decode_from_slice` to a `u64` with fixed-width little-endian
/// integers. Trusted: with eight bytes or more at hand the call returns the
/// number that the first eight denote and reports eight bytes read; with
/// fewer it fails.
#[verifier::external_body]
fn bincode_decode_u64(src: &[u8]) -> (r: Result<(u64, usize), bincode::error::DecodeError>)
    ensures
        match r {
            Ok((v, n)) => src@.len() >= 8 && n == 8 && v as nat == le_value(src@.take(8)),
            Err(_) => src@.len() < 8,
        },
{
    bincode::decode_from_slice(src, bincode::config::standard().with_fixed_int_encoding())
}

/// How many bytes an integer occupies on the wire.
#[derive(Clone, Copy, Debug, PartialEq, Eq)]
pub enum Width {
    One,
    Two,
    Four,
    Eight,
}

impl Width {
    /// The number of bytes.
    pub open spec fn octets(self) -> nat {
        match self {
            Width::One => 1,
            Width::Two => 2,
            Width::Four => 4,
            Width::Eight => 8,
        }
    }

    /// Whether `v` can be written in this many bytes.
    pub open spec fn holds(self, v: nat) -> bool {
        v < span(self.octets())
    }

    /// The number of bytes.
    pub fn byte_count(self) -> (n: usize)
        ensures
            n == self.octets(),
    {
        match self {
            Width::One => 1,
            Width::Two => 2,
            Width::Four => 4,
            Width::Eight => 8,
        }
    }

    /// Whether `v` can be written in this many bytes.
    pub fn fits(self, v: u64) -> (b: bool)
        ensures
            b == self.holds(v as nat),
    {
        proof {
            lemma_span_values();
        }
        match self {
            Width::One => v <= 0xff,
            Width::Two => v <= 0xffff,
            Width::Four => v <= 0xffff_ffff,
            Width::Eight => true,
        }
    }
}

/// The spans of the four wire widths.
pub proof fn lemma_span_values()
    ensures
        span(1) == 0x100,
        span(2) == 0x1_0000,
        span(4) == 0x1_0000_0000,
        span(8) == 0x1_0000_0000_0000_0000,
{
    reveal_with_fuel(span, 9);
}

/// Appends `v` to `out` in `width` bytes, least significant first. The
/// encoder's contract rules its failure out, so nothing is done for it.
pub(crate) fn write_uint(out: &mut Vec<u8>, v: u64, width: Width)
    requires
        width.holds(v as nat),
    ensures
        final(out)@ == old(out)@ + le_bytes(v as nat, width.octets()),
{
    proof {
        lemma_span_values();
    }
    match width {
        Width::One => {
            assert(le_bytes(v as nat, 1) =~= seq![v as u8]) by {
                reveal_with_fuel(le_bytes, 2);
            }
            out.push(v as u8);
        },
        Width::Two => {
            match bincode_encode_u16(v as u16) {
                Ok(mut bytes) => {
                    out.append(&mut bytes);
                },
                Err(_) => {},
            }
        },
        Width::Four => {
            match bincode_encode_u32(v as u32) {
                Ok(mut bytes) => {
                    out.append(&mut bytes);
                },
                Err(_) => {},
            }
        },
        Width::Eight => {
            match bincode_encode_u64(v) {
                Ok(mut bytes) => {
                    out.append(&mut bytes);
                },
                Err(_) => {},
            }
        },
    }
}

/// What [`read_uint`] makes of the unread bytes `s`: the number in the
/// first `width` bytes, or nothing when there are fewer.
pub open spec fn uint_at(s: Seq<u8>, width: Width) -> Option<nat> {
    if s.len() >= width.octets() {
        Some(le_value(s.take(width.octets() as int)))
    } else {
        None
    }
}

/// A number written in `width` bytes is read back from the front of any
/// buffer that starts with those bytes.
pub proof fn lemma_uint_round_trip(v: nat, width: Width, rest: Seq<u8>)
    requires
        width.holds(v),
    ensures
        uint_at(le_bytes(v, width.octets()) + rest, width) == Some(v),
        (le_bytes(v, width.octets()) + rest).skip(width.octets() as int) == rest,
{
    let bytes = le_bytes(v, width.octets());
    lemma_le_bytes_len(v, width.octets());
    lemma_le_value_of_bytes(v, width.octets());
    assert((bytes + rest).take(width.octets() as int) =~= bytes);
    assert((bytes + rest).skip(width.octets() as int) =~= rest);
}

/// Reads one unsigned integer of `width` bytes, least significant first.
/// Fails with `TruncatedInput`, consuming nothing, when fewer bytes are
/// unread.
pub fn read_uint(r: &mut ByteReader, width: Width) -> (res: Result<u64, FieldError>)
    ensures
        match res {
            Ok(v) => {
                &&& uint_at(old(r)@, width) == Some(v as nat)
                &&& final(r)@ == old(r)@.skip(width.octets() as int)
            },
            Err(e) => {
                &&& uint_at(old(r)@, width) is None
                &&& e == FieldError::TruncatedInput
                &&& final(r)@ == old(r)@
            },
        },
{
    match width {
        Width::One => match r.take_byte() {
            Some(b) => {
                assert(le_value(old(r)@.take(1)) == b as nat) by {
                    reveal_with_fuel(le_value, 2);
                }
                Ok(b as u64)
            },
            None => Err(FieldError::TruncatedInput),
        },
        Width::Two => match bincode_decode_u16(r.rest()) {
            Ok((v, n)) => {
                let _ = r.take(n);
                Ok(v as u64)
            },
            Err(_) => Err(FieldError::TruncatedInput),
        },
        Width::Four => match bincode_decode_u32(r.rest()) {
            Ok((v, n)) => {
                let _ = r.take(n);
                Ok(v as u64)
            },
            Err(_) => Err(FieldError::TruncatedInput),
        },
        Width::Eight => match bincode_decode_u64(r.rest()) {
            Ok((v, n)) => {
                let _ = r.take(n);
                Ok(v)
            },
            Err(_) => Err(FieldError::TruncatedInput),
        },
    }
}

} // verus!
