//! The tagged address: an addressing mode in one byte, then the address in
//! the shape that the mode selects.

use crate::error::FieldError;
use crate::reader::ByteReader;
use crate::wire::{
    le_bytes, le_value, lemma_le_bytes_len, lemma_le_value_bound, lemma_le_value_of_bytes,
    lemma_span_values, read_uint, write_uint, Width,
};
use vstd::prelude::*;

verus! {

/// How a destination is addressed.
#[derive(Clone, Copy, Debug, PartialEq, Eq, Structural)]
#[allow(clippy::upper_case_acronyms)]
pub enum AddrMode {
    Group,
    NWK,
    IEEE,
    Broadcast,
}

/// An address together with its mode.
#[derive(Clone, Copy, Debug, PartialEq, Eq)]
#[allow(clippy::upper_case_acronyms)]
pub enum AddrModeAddress {
    /// A 16-bit group address.
    Group(u16),
    /// A 16-bit network address.
    NWK(u16),
    /// A 64-bit extended address, in wire order.
    IEEE([u8; 8]),
    /// A 16-bit broadcast address.
    Broadcast(u16),
}

impl AddrMode {
    /// The byte that announces the mode on the wire.
    pub open spec fn spec_tag(self) -> u8 {
        match self {
            AddrMode::Group => 0x01,
            AddrMode::NWK => 0x02,
            AddrMode::IEEE => 0x03,
            AddrMode::Broadcast => 0x0f,
        }
    }

    /// The mode that `tag` announces, if any.
    pub open spec fn spec_from_tag(tag: u8) -> Option<AddrMode> {
        if tag == 0x01 {
            Some(AddrMode::Group)
        } else if tag == 0x02 {
            Some(AddrMode::NWK)
        } else if tag == 0x03 {
            Some(AddrMode::IEEE)
        } else if tag == 0x0f {
            Some(AddrMode::Broadcast)
        } else {
            None
        }
    }

    /// How many bytes of address follow the tag.
    pub open spec fn payload_len(self) -> nat {
        match self {
            AddrMode::IEEE => 8,
            _ => 2,
        }
    }

    /// The byte that announces the mode on the wire.
    #[verifier::when_used_as_spec(spec_tag)]
    pub fn tag(self) -> (t: u8)
        ensures
            t == self.spec_tag(),
    {
        match self {
            AddrMode::Group => 0x01,
            AddrMode::NWK => 0x02,
            AddrMode::IEEE => 0x03,
            AddrMode::Broadcast => 0x0f,
        }
    }

    /// The mode that `tag` announces, if any.
    #[verifier::when_used_as_spec(spec_from_tag)]
    pub fn from_tag(tag: u8) -> (m: Option<AddrMode>)
        ensures
            m == Self::spec_from_tag(tag),
    {
        if tag == 0x01 {
            Some(AddrMode::Group)
        } else if tag == 0x02 {
            Some(AddrMode::NWK)
        } else if tag == 0x03 {
            Some(AddrMode::IEEE)
        } else if tag == 0x0f {
            Some(AddrMode::Broadcast)
        } else {
            None
        }
    }
}

/// The extended address whose bytes are `s`.
pub open spec fn eui64_of(s: Seq<u8>) -> [u8; 8] {
    choose|a: [u8; 8]| a@ == s
}

/// An extended address is the one that its own bytes denote.
pub proof fn lemma_eui64_of_view(a: [u8; 8])
    ensures
        eui64_of(a@) == a,
{
    let b = eui64_of(a@);
    assert(b@ == a@);
    assert forall|i: int| 0 <= i < 8 implies b[i] == a[i] by {
        assert(b@[i] == a@[i]);
    }
    assert(b =~= a);
}

impl AddrModeAddress {
    /// The mode of the address.
    pub open spec fn spec_mode(self) -> AddrMode {
        match self {
            AddrModeAddress::Group(_) => AddrMode::Group,
            AddrModeAddress::NWK(_) => AddrMode::NWK,
            AddrModeAddress::IEEE(_) => AddrMode::IEEE,
            AddrModeAddress::Broadcast(_) => AddrMode::Broadcast,
        }
    }

    /// The address bytes that follow the tag.
    pub open spec fn payload(self) -> Seq<u8> {
        match self {
            AddrModeAddress::Group(a) => le_bytes(a as nat, 2),
            AddrModeAddress::NWK(a) => le_bytes(a as nat, 2),
            AddrModeAddress::IEEE(a) => a@,
            AddrModeAddress::Broadcast(a) => le_bytes(a as nat, 2),
        }
    }

    /// The bytes of the address on the wire: the tag, then the payload.
    pub open spec fn wire_bytes(self) -> Seq<u8> {
        seq![self.spec_mode().spec_tag()] + self.payload()
    }

    /// The address of mode `mode` whose payload is `payload`.
    pub open spec fn from_payload(mode: AddrMode, payload: Seq<u8>) -> AddrModeAddress {
        match mode {
            AddrMode::Group => AddrModeAddress::Group(le_value(payload) as u16),
            AddrMode::NWK => AddrModeAddress::NWK(le_value(payload) as u16),
            AddrMode::IEEE => AddrModeAddress::IEEE(eui64_of(payload)),
            AddrMode::Broadcast => AddrModeAddress::Broadcast(le_value(payload) as u16),
        }
    }

    /// What [`AddrModeAddress::decode`] makes of the unread bytes `s`: the
    /// address and the number of bytes it occupies, or the failure.
    pub open spec fn parse(s: Seq<u8>) -> Result<(AddrModeAddress, nat), FieldError> {
        if s.len() == 0 {
            Err(FieldError::TruncatedInput)
        } else {
            match AddrMode::spec_from_tag(s[0]) {
                None => Err(FieldError::UnknownDiscriminator(s[0])),
                Some(mode) => {
                    let end = 1 + mode.payload_len();
                    if s.len() < end {
                        Err(FieldError::TruncatedInput)
                    } else {
                        Ok((Self::from_payload(mode, s.subrange(1, end as int)), end))
                    }
                },
            }
        }
    }

    /// The mode of the address.
    #[verifier::when_used_as_spec(spec_mode)]
    pub fn mode(self) -> (m: AddrMode)
        ensures
            m == self.spec_mode(),
    {
        match self {
            AddrModeAddress::Group(_) => AddrMode::Group,
            AddrModeAddress::NWK(_) => AddrMode::NWK,
            AddrModeAddress::IEEE(_) => AddrMode::IEEE,
            AddrModeAddress::Broadcast(_) => AddrMode::Broadcast,
        }
    }

    /// Appends the tag and then the address to `out`.
    pub fn encode(&self, out: &mut Vec<u8>)
        ensures
            final(out)@ == old(out)@ + self.wire_bytes(),
    {
        let ghost before = out@;
        out.push(self.mode().tag());
        proof {
            lemma_span_values();
        }
        match self {
            AddrModeAddress::Group(a) => write_uint(out, *a as u64, Width::Two),
            AddrModeAddress::NWK(a) => write_uint(out, *a as u64, Width::Two),
            AddrModeAddress::Broadcast(a) => write_uint(out, *a as u64, Width::Two),
            AddrModeAddress::IEEE(a) => {
                let mut i: usize = 0;
                while i < 8
                    invariant
                        i <= 8,
                        out@ == before.push(self.spec_mode().spec_tag()) + a@.take(i as int),
                    decreases 8 - i,
                {
                    out.push(a[i]);
                    assert(a@.take(i + 1) =~= a@.take(i as int).push(a@[i as int]));
                    i = i + 1;
                }
                assert(a@.take(8) =~= a@);
            },
        }
        assert(out@ =~= before + self.wire_bytes());
    }

    /// Reads the tag and then the address that it announces. Consumes
    /// nothing on failure.
    pub fn decode(r: &mut ByteReader) -> (res: Result<AddrModeAddress, FieldError>)
        ensures
            match res {
                Ok(a) => {
                    &&& Self::parse(old(r)@) matches Ok((b, n))
                    &&& a == b
                    &&& final(r)@ == old(r)@.skip(n as int)
                },
                Err(e) => Self::parse(old(r)@) == Err::<(AddrModeAddress, nat), _>(e) && final(r)@
                    == old(r)@,
            },
    {
        let mut cur = *r;
        let tag = match cur.take_byte() {
            Some(t) => t,
            None => {
                return Err(FieldError::TruncatedInput);
            },
        };
        let mode = match AddrMode::from_tag(tag) {
            Some(m) => m,
            None => {
                return Err(FieldError::UnknownDiscriminator(tag));
            },
        };
        let ghost whole = r@;
        let ghost after_tag = cur@;
        match mode {
            AddrMode::IEEE => {
                let s = match cur.take(8) {
                    Ok(s) => s,
                    Err(e) => {
                        return Err(e);
                    },
                };
                let a: [u8; 8] = [s[0], s[1], s[2], s[3], s[4], s[5], s[6], s[7]];
                proof {
                    assert(a@ =~= s@);
                    assert(s@ =~= whole.subrange(1, 9));
                    lemma_eui64_of_view(a);
                    assert(cur@ =~= whole.skip(9));
                }
                *r = cur;
                Ok(AddrModeAddress::IEEE(a))
            },
            _ => {
                let v = match read_uint(&mut cur, Width::Two) {
                    Ok(v) => v,
                    Err(e) => {
                        return Err(e);
                    },
                };
                proof {
                    lemma_span_values();
                    lemma_le_value_bound(after_tag.take(2));
                    assert(after_tag.take(2) =~= whole.subrange(1, 3));
                    assert(cur@ =~= whole.skip(3));
                }
                *r = cur;
                let a = v as u16;
                Ok(
                    match mode {
                        AddrMode::Group => AddrModeAddress::Group(a),
                        AddrMode::NWK => AddrModeAddress::NWK(a),
                        _ => AddrModeAddress::Broadcast(a),
                    },
                )
            },
        }
    }
}

/// Round trip of one address: decoding what `encode` wrote, whatever
/// follows it, gives the address back and leaves what follows unread.
pub proof fn lemma_address_round_trip(a: AddrModeAddress, rest: Seq<u8>)
    ensures
        AddrModeAddress::parse(a.wire_bytes() + rest) == Ok::<_, FieldError>(
            (a, a.wire_bytes().len()),
        ),
        a.wire_bytes().len() == 1 + a.spec_mode().payload_len(),
{
    let s = a.wire_bytes() + rest;
    let end = 1 + a.spec_mode().payload_len();
    lemma_span_values();
    match a {
        AddrModeAddress::IEEE(x) => {
            assert(s.subrange(1, 9) =~= x@);
            lemma_eui64_of_view(x);
        },
        AddrModeAddress::Group(x) => {
            lemma_le_bytes_len(x as nat, 2);
            assert(s.subrange(1, 3) =~= le_bytes(x as nat, 2));
            lemma_le_value_of_bytes(x as nat, 2);
        },
        AddrModeAddress::NWK(x) => {
            lemma_le_bytes_len(x as nat, 2);
            assert(s.subrange(1, 3) =~= le_bytes(x as nat, 2));
            lemma_le_value_of_bytes(x as nat, 2);
        },
        AddrModeAddress::Broadcast(x) => {
            lemma_le_bytes_len(x as nat, 2);
            assert(s.subrange(1, 3) =~= le_bytes(x as nat, 2));
            lemma_le_value_of_bytes(x as nat, 2);
        },
    }
}

} // verus!
