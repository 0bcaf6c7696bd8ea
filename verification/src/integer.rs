//! Fixed-width integers as typed values.
//!
//! A value travels as its two's-complement bit pattern, in as many
//! little-endian bytes as its type is wide.

use crate::error::FieldError;
use crate::reader::ByteReader;
use crate::wire::{
    le_bytes, lemma_le_bytes_len, lemma_span_values, lemma_uint_round_trip, read_uint, uint_at,
    write_uint, Width,
};
use vstd::prelude::*;

verus! {

/// The type of a fixed-width integer.
#[derive(Clone, Copy, Debug, PartialEq, Eq, Structural)]
pub enum IntKind {
    U8,
    I8,
    U16,
    I16,
    U32,
    I32,
    U64,
    I64,
}

/// A fixed-width integer together with its type.
#[derive(Clone, Copy, Debug, PartialEq, Eq, Structural)]
pub enum IntValue {
    U8(u8),
    I8(i8),
    U16(u16),
    I16(i16),
    U32(u32),
    I32(i32),
    U64(u64),
    I64(i64),
}

/// The bit pattern, as a number, of the signed number `x` in a width of
/// span `span`: `x` itself where it is not negative, else `x` raised by the
/// span.
pub open spec fn unsigned_of(x: int, span: int) -> int {
    if x < 0 {
        x + span
    } else {
        x
    }
}

/// The signed number whose bit pattern in a width of span `span` denotes
/// `low`: `low` itself below half the span, else `low` lowered by the span.
pub open spec fn signed_of(low: int, span: int) -> int {
    if 2 * low < span {
        low
    } else {
        low - span
    }
}

impl IntKind {
    /// The number of bytes that a value of this type occupies.
    pub open spec fn spec_width(self) -> Width {
        match self {
            IntKind::U8 | IntKind::I8 => Width::One,
            IntKind::U16 | IntKind::I16 => Width::Two,
            IntKind::U32 | IntKind::I32 => Width::Four,
            IntKind::U64 | IntKind::I64 => Width::Eight,
        }
    }

    /// The number of bytes that a value of this type occupies.
    #[verifier::when_used_as_spec(spec_width)]
    pub fn width(self) -> (w: Width)
        ensures
            w == self.spec_width(),
    {
        match self {
            IntKind::U8 | IntKind::I8 => Width::One,
            IntKind::U16 | IntKind::I16 => Width::Two,
            IntKind::U32 | IntKind::I32 => Width::Four,
            IntKind::U64 | IntKind::I64 => Width::Eight,
        }
    }

    /// The value of this type whose bit pattern is the low bits of `bits`.
    pub open spec fn spec_from_bits(self, bits: u64) -> IntValue {
        match self {
            IntKind::U8 => IntValue::U8((bits % 0x100) as u8),
            IntKind::I8 => IntValue::I8(signed_of((bits % 0x100) as int, 0x100) as i8),
            IntKind::U16 => IntValue::U16((bits % 0x1_0000) as u16),
            IntKind::I16 => IntValue::I16(signed_of((bits % 0x1_0000) as int, 0x1_0000) as i16),
            IntKind::U32 => IntValue::U32((bits % 0x1_0000_0000) as u32),
            IntKind::I32 => IntValue::I32(
                signed_of((bits % 0x1_0000_0000) as int, 0x1_0000_0000) as i32,
            ),
            IntKind::U64 => IntValue::U64(bits),
            IntKind::I64 => IntValue::I64(signed_of(bits as int, 0x1_0000_0000_0000_0000) as i64),
        }
    }

    /// The value of this type whose bit pattern is the low bits of `bits`.
    #[verifier::when_used_as_spec(spec_from_bits)]
    pub fn from_bits(self, bits: u64) -> (v: IntValue)
        ensures
            v == self.spec_from_bits(bits),
    {
        match self {
            IntKind::U8 => {
                assert(bits as u8 == (bits % 0x100) as u8) by (bit_vector);
                IntValue::U8(#[verifier::truncate] (bits as u8))
            },
            IntKind::I8 => {
                assert(bits as u8 as i8 == signed_of((bits % 0x100) as int, 0x100) as i8)
                    by (bit_vector);
                IntValue::I8(#[verifier::truncate] (#[verifier::truncate] (bits as u8) as i8))
            },
            IntKind::U16 => {
                assert(bits as u16 == (bits % 0x1_0000) as u16) by (bit_vector);
                IntValue::U16(#[verifier::truncate] (bits as u16))
            },
            IntKind::I16 => {
                assert(bits as u16 as i16 == signed_of((bits % 0x1_0000) as int, 0x1_0000) as i16)
                    by (bit_vector);
                IntValue::I16(#[verifier::truncate] (#[verifier::truncate] (bits as u16) as i16))
            },
            IntKind::U32 => {
                assert(bits as u32 == (bits % 0x1_0000_0000) as u32) by (bit_vector);
                IntValue::U32(#[verifier::truncate] (bits as u32))
            },
            IntKind::I32 => {
                assert(bits as u32 as i32 == signed_of(
                    (bits % 0x1_0000_0000) as int,
                    0x1_0000_0000,
                ) as i32) by (bit_vector);
                IntValue::I32(#[verifier::truncate] (#[verifier::truncate] (bits as u32) as i32))
            },
            IntKind::U64 => IntValue::U64(bits),
            IntKind::I64 => {
                assert(bits as i64 == signed_of(bits as int, 0x1_0000_0000_0000_0000) as i64)
                    by (bit_vector);
                IntValue::I64(#[verifier::truncate] (bits as i64))
            },
        }
    }
}

impl IntValue {
    /// The type of the value.
    pub open spec fn spec_kind(self) -> IntKind {
        match self {
            IntValue::U8(_) => IntKind::U8,
            IntValue::I8(_) => IntKind::I8,
            IntValue::U16(_) => IntKind::U16,
            IntValue::I16(_) => IntKind::I16,
            IntValue::U32(_) => IntKind::U32,
            IntValue::I32(_) => IntKind::I32,
            IntValue::U64(_) => IntKind::U64,
            IntValue::I64(_) => IntKind::I64,
        }
    }

    /// The type of the value.
    #[verifier::when_used_as_spec(spec_kind)]
    pub fn kind(self) -> (k: IntKind)
        ensures
            k == self.spec_kind(),
    {
        match self {
            IntValue::U8(_) => IntKind::U8,
            IntValue::I8(_) => IntKind::I8,
            IntValue::U16(_) => IntKind::U16,
            IntValue::I16(_) => IntKind::I16,
            IntValue::U32(_) => IntKind::U32,
            IntValue::I32(_) => IntKind::I32,
            IntValue::U64(_) => IntKind::U64,
            IntValue::I64(_) => IntKind::I64,
        }
    }

    /// The two's-complement bit pattern of the value, zero-extended.
    pub open spec fn spec_bits(self) -> u64 {
        match self {
            IntValue::U8(x) => x as u64,
            IntValue::I8(x) => unsigned_of(x as int, 0x100) as u64,
            IntValue::U16(x) => x as u64,
            IntValue::I16(x) => unsigned_of(x as int, 0x1_0000) as u64,
            IntValue::U32(x) => x as u64,
            IntValue::I32(x) => unsigned_of(x as int, 0x1_0000_0000) as u64,
            IntValue::U64(x) => x,
            IntValue::I64(x) => unsigned_of(x as int, 0x1_0000_0000_0000_0000) as u64,
        }
    }

    /// The two's-complement bit pattern of the value, zero-extended.
    #[verifier::when_used_as_spec(spec_bits)]
    pub fn bits(self) -> (b: u64)
        ensures
            b == self.spec_bits(),
            self.kind().width().holds(b as nat),
    {
        proof {
            lemma_span_values();
        }
        match self {
            IntValue::U8(x) => x as u64,
            IntValue::I8(x) => {
                assert(x as u8 as u64 == unsigned_of(x as int, 0x100) as u64) by (bit_vector);
                (#[verifier::truncate] (x as u8)) as u64
            },
            IntValue::U16(x) => x as u64,
            IntValue::I16(x) => {
                assert(x as u16 as u64 == unsigned_of(x as int, 0x1_0000) as u64) by (bit_vector);
                (#[verifier::truncate] (x as u16)) as u64
            },
            IntValue::U32(x) => x as u64,
            IntValue::I32(x) => {
                assert(x as u32 as u64 == unsigned_of(x as int, 0x1_0000_0000) as u64)
                    by (bit_vector);
                (#[verifier::truncate] (x as u32)) as u64
            },
            IntValue::U64(x) => x,
            IntValue::I64(x) => {
                assert(x as u64 == unsigned_of(x as int, 0x1_0000_0000_0000_0000) as u64)
                    by (bit_vector);
                #[verifier::truncate] (x as u64)
            },
        }
    }

    /// The bytes of the value on the wire.
    pub open spec fn wire_bytes(self) -> Seq<u8> {
        le_bytes(self.spec_bits() as nat, self.spec_kind().spec_width().octets())
    }

    /// Appends the value to `out`.
    pub fn encode(self, out: &mut Vec<u8>)
        ensures
            final(out)@ == old(out)@ + self.wire_bytes(),
    {
        write_uint(out, self.bits(), self.kind().width());
    }

    /// What [`IntValue::decode`] makes of the unread bytes `s`.
    pub open spec fn parse(kind: IntKind, s: Seq<u8>) -> Option<IntValue> {
        match uint_at(s, kind.spec_width()) {
            Some(n) => Some(kind.spec_from_bits(n as u64)),
            None => None,
        }
    }

    /// Reads one value of type `kind`. Fails with `TruncatedInput`,
    /// consuming nothing, when fewer bytes are unread than the type is wide.
    pub fn decode(kind: IntKind, r: &mut ByteReader) -> (res: Result<IntValue, FieldError>)
        ensures
            match res {
                Ok(v) => {
                    &&& Self::parse(kind, old(r)@) == Some(v)
                    &&& final(r)@ == old(r)@.skip(kind.spec_width().octets() as int)
                },
                Err(e) => {
                    &&& Self::parse(kind, old(r)@) is None
                    &&& e == FieldError::TruncatedInput
                    &&& final(r)@ == old(r)@
                },
            },
    {
        match read_uint(r, kind.width()) {
            Ok(bits) => Ok(kind.from_bits(bits)),
            Err(e) => Err(e),
        }
    }
}

/// The bit pattern of a value fits the width of its type.
pub proof fn lemma_bits_fit(v: IntValue)
    ensures
        v.spec_kind().spec_width().holds(v.spec_bits() as nat),
{
    lemma_span_values();
}

/// A value is recovered from its type and its bit pattern.
pub proof fn lemma_from_bits_of_bits(v: IntValue)
    ensures
        v.spec_kind().spec_from_bits(v.spec_bits()) == v,
{
}

/// Round trip of one integer: decoding what `encode` wrote, whatever
/// follows it, gives the value back and leaves what follows unread.
pub proof fn lemma_int_round_trip(v: IntValue, rest: Seq<u8>)
    ensures
        IntValue::parse(v.spec_kind(), v.wire_bytes() + rest) == Some(v),
        v.wire_bytes().len() == v.spec_kind().spec_width().octets(),
        (v.wire_bytes() + rest).skip(v.spec_kind().spec_width().octets() as int) == rest,
{
    let width = v.spec_kind().spec_width();
    lemma_bits_fit(v);
    lemma_from_bits_of_bits(v);
    lemma_le_bytes_len(v.spec_bits() as nat, width.octets());
    lemma_uint_round_trip(v.spec_bits() as nat, width, rest);
}

} // verus!
