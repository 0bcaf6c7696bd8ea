//! The header of an encoded command: identifier and type tag, each present
//! or not, in the order that their configured ranks give.

use crate::error::ConfigurationConflict;
use crate::integer::{lemma_int_round_trip, IntKind, IntValue};
use crate::reader::ByteReader;
use vstd::prelude::*;

verus! {

/// The configured header ranks. A component without a rank stays out of the
/// header; of two ranked components the one with the lower rank leads.
#[derive(Clone, Copy, Debug, PartialEq, Eq)]
pub struct HeaderPolicy {
    pub id_rank: Option<u8>,
    pub type_rank: Option<u8>,
}

/// What the header holds, in order.
#[derive(Clone, Copy, Debug, PartialEq, Eq, Structural)]
pub enum HeaderOrder {
    Empty,
    IdOnly,
    TypeOnly,
    IdThenType,
    TypeThenId,
}

impl HeaderPolicy {
    /// The header order that the ranks give, or the conflict when both
    /// components have the same rank.
    pub open spec fn spec_order(self) -> Result<HeaderOrder, ConfigurationConflict> {
        match (self.id_rank, self.type_rank) {
            (None, None) => Ok(HeaderOrder::Empty),
            (Some(_), None) => Ok(HeaderOrder::IdOnly),
            (None, Some(_)) => Ok(HeaderOrder::TypeOnly),
            (Some(i), Some(t)) => if i == t {
                Err(ConfigurationConflict::EqualRanks(i))
            } else if i < t {
                Ok(HeaderOrder::IdThenType)
            } else {
                Ok(HeaderOrder::TypeThenId)
            },
        }
    }

    /// The header order that the ranks give, or the conflict when both
    /// components have the same rank.
    #[verifier::when_used_as_spec(spec_order)]
    pub fn order(self) -> (r: Result<HeaderOrder, ConfigurationConflict>)
        ensures
            r == self.spec_order(),
    {
        match (self.id_rank, self.type_rank) {
            (None, None) => Ok(HeaderOrder::Empty),
            (Some(_), None) => Ok(HeaderOrder::IdOnly),
            (None, Some(_)) => Ok(HeaderOrder::TypeOnly),
            (Some(i), Some(t)) => if i == t {
                Err(ConfigurationConflict::EqualRanks(i))
            } else if i < t {
                Ok(HeaderOrder::IdThenType)
            } else {
                Ok(HeaderOrder::TypeThenId)
            },
        }
    }
}

/// What reading one header component of type `kind` makes of the unread
/// bytes `s`: the component and its width, or nothing and no bytes when `s`
/// is too short.
pub open spec fn component_at(kind: IntKind, s: Seq<u8>) -> (Option<IntValue>, nat) {
    match IntValue::parse(kind, s) {
        Some(v) => (Some(v), kind.spec_width().octets()),
        None => (None, 0),
    }
}

/// What reading two header components one after the other makes of the
/// unread bytes `s`: the first, the second, and the bytes consumed by both.
pub open spec fn pair_at(first: IntKind, second: IntKind, s: Seq<u8>) -> (
    Option<IntValue>,
    Option<IntValue>,
    nat,
) {
    let (a, n) = component_at(first, s);
    let (b, m) = component_at(second, s.skip(n as int));
    (a, b, n + m)
}

/// Reads one header component; one that is cut short is absent and
/// consumes nothing.
fn decode_component(kind: IntKind, r: &mut ByteReader) -> (v: Option<IntValue>)
    ensures
        v == component_at(kind, old(r)@).0,
        component_at(kind, old(r)@).1 <= old(r)@.len(),
        final(r)@ == old(r)@.skip(component_at(kind, old(r)@).1 as int),
{
    match IntValue::decode(kind, r) {
        Ok(v) => Some(v),
        Err(_) => {
            assert(r@ =~= old(r)@.skip(0));
            None
        },
    }
}

impl HeaderOrder {
    /// Whether the header carries the identifier.
    pub open spec fn spec_has_id(self) -> bool {
        self != HeaderOrder::Empty && self != HeaderOrder::TypeOnly
    }

    /// Whether the header carries the identifier.
    #[verifier::when_used_as_spec(spec_has_id)]
    pub fn has_id(self) -> (b: bool)
        ensures
            b == self.spec_has_id(),
    {
        match self {
            HeaderOrder::Empty | HeaderOrder::TypeOnly => false,
            _ => true,
        }
    }

    /// The header bytes of a command with identifier `id` and type tag
    /// `type_tag`.
    pub open spec fn bytes(self, id: IntValue, type_tag: IntValue) -> Seq<u8> {
        match self {
            HeaderOrder::Empty => Seq::empty(),
            HeaderOrder::IdOnly => id.wire_bytes(),
            HeaderOrder::TypeOnly => type_tag.wire_bytes(),
            HeaderOrder::IdThenType => id.wire_bytes() + type_tag.wire_bytes(),
            HeaderOrder::TypeThenId => type_tag.wire_bytes() + id.wire_bytes(),
        }
    }

    /// What [`HeaderOrder::decode`] makes of the unread bytes `s`: the
    /// identifier, the type tag, and the number of bytes consumed. The
    /// components are read in header order; one that is cut short is absent.
    pub open spec fn parse(self, id_kind: IntKind, type_kind: IntKind, s: Seq<u8>) -> (
        Option<IntValue>,
        Option<IntValue>,
        nat,
    ) {
        match self {
            HeaderOrder::Empty => (None, None, 0),
            HeaderOrder::IdOnly => {
                let (id, n) = component_at(id_kind, s);
                (id, None, n)
            },
            HeaderOrder::TypeOnly => {
                let (ty, n) = component_at(type_kind, s);
                (None, ty, n)
            },
            HeaderOrder::IdThenType => pair_at(id_kind, type_kind, s),
            HeaderOrder::TypeThenId => {
                let (ty, id, n) = pair_at(type_kind, id_kind, s);
                (id, ty, n)
            },
        }
    }

    /// Appends the header of a command with identifier `id` and type tag
    /// `type_tag` to `out`.
    pub fn encode(self, id: IntValue, type_tag: IntValue, out: &mut Vec<u8>)
        ensures
            final(out)@ == old(out)@ + self.bytes(id, type_tag),
    {
        match self {
            HeaderOrder::Empty => {
                assert(out@ =~= old(out)@ + Seq::<u8>::empty());
            },
            HeaderOrder::IdOnly => {
                id.encode(out);
            },
            HeaderOrder::TypeOnly => {
                type_tag.encode(out);
            },
            HeaderOrder::IdThenType => {
                id.encode(out);
                type_tag.encode(out);
                assert(out@ =~= old(out)@ + (id.wire_bytes() + type_tag.wire_bytes()));
            },
            HeaderOrder::TypeThenId => {
                type_tag.encode(out);
                id.encode(out);
                assert(out@ =~= old(out)@ + (type_tag.wire_bytes() + id.wire_bytes()));
            },
        }
    }

    /// Reads the header: the identifier and the type tag, each absent when
    /// the header does not carry it or the bytes for it are missing.
    pub fn decode(self, id_kind: IntKind, type_kind: IntKind, r: &mut ByteReader) -> (res: (
        Option<IntValue>,
        Option<IntValue>,
    ))
        ensures
            res.0 == self.parse(id_kind, type_kind, old(r)@).0,
            res.1 == self.parse(id_kind, type_kind, old(r)@).1,
            self.parse(id_kind, type_kind, old(r)@).2 <= old(r)@.len(),
            final(r)@ == old(r)@.skip(self.parse(id_kind, type_kind, old(r)@).2 as int),
    {
        match self {
            HeaderOrder::Empty => {
                assert(r@ =~= old(r)@.skip(0));
                (None, None)
            },
            HeaderOrder::IdOnly => {
                let id = decode_component(id_kind, r);
                (id, None)
            },
            HeaderOrder::TypeOnly => {
                let ty = decode_component(type_kind, r);
                (None, ty)
            },
            HeaderOrder::IdThenType => decode_pair(id_kind, type_kind, r),
            HeaderOrder::TypeThenId => {
                let (ty, id) = decode_pair(type_kind, id_kind, r);
                (id, ty)
            },
        }
    }
}

/// Reads two header components one after the other.
fn decode_pair(first: IntKind, second: IntKind, r: &mut ByteReader) -> (res: (
    Option<IntValue>,
    Option<IntValue>,
))
    ensures
        res.0 == pair_at(first, second, old(r)@).0,
        res.1 == pair_at(first, second, old(r)@).1,
        pair_at(first, second, old(r)@).2 <= old(r)@.len(),
        final(r)@ == old(r)@.skip(pair_at(first, second, old(r)@).2 as int),
{
    let ghost s = r@;
    let a = decode_component(first, r);
    let ghost n = component_at(first, s).1;
    let b = decode_component(second, r);
    let ghost m = component_at(second, s.skip(n as int)).1;
    assert(s.skip(n as int).skip(m as int) =~= s.skip((n + m) as int));
    (a, b)
}

/// The header bytes that `policy` gives a command with identifier `id` and
/// type tag `type_tag`; nothing where the ranks conflict.
pub open spec fn header_bytes(policy: HeaderPolicy, id: IntValue, type_tag: IntValue) -> Option<
    Seq<u8>,
> {
    match policy.spec_order() {
        Ok(order) => Some(order.bytes(id, type_tag)),
        Err(_) => None,
    }
}

/// Header ordering: with both ranks set the component of lower rank leads;
/// with one rank set the header is that component alone; with none it is
/// empty.
pub proof fn lemma_header_follows_ranks(policy: HeaderPolicy, id: IntValue, type_tag: IntValue)
    ensures
        match (policy.id_rank, policy.type_rank) {
            (Some(i), Some(t)) => if i < t {
                header_bytes(policy, id, type_tag) == Some(id.wire_bytes() + type_tag.wire_bytes())
            } else if t < i {
                header_bytes(policy, id, type_tag) == Some(type_tag.wire_bytes() + id.wire_bytes())
            } else {
                header_bytes(policy, id, type_tag) is None
            },
            (Some(_), None) => header_bytes(policy, id, type_tag) == Some(id.wire_bytes()),
            (None, Some(_)) => header_bytes(policy, id, type_tag) == Some(type_tag.wire_bytes()),
            (None, None) => header_bytes(policy, id, type_tag) == Some(Seq::<u8>::empty()),
        },
{
}

/// Round trip of the header: decoding what `encode` wrote, whatever
/// follows it, gives back each component that the header carries and leaves
/// what follows unread.
pub proof fn lemma_header_round_trip(
    order: HeaderOrder,
    id: IntValue,
    type_tag: IntValue,
    rest: Seq<u8>,
)
    ensures
        ({
            let got = order.parse(
                id.spec_kind(),
                type_tag.spec_kind(),
                order.bytes(id, type_tag) + rest,
            );
            &&& got.0 == if order.spec_has_id() {
                Some(id)
            } else {
                None
            }
            &&& got.1 == if order == HeaderOrder::Empty || order == HeaderOrder::IdOnly {
                None
            } else {
                Some(type_tag)
            }
            &&& got.2 == order.bytes(id, type_tag).len()
        }),
{
    let s = order.bytes(id, type_tag) + rest;
    match order {
        HeaderOrder::Empty => {},
        HeaderOrder::IdOnly => {
            lemma_int_round_trip(id, rest);
        },
        HeaderOrder::TypeOnly => {
            lemma_int_round_trip(type_tag, rest);
        },
        HeaderOrder::IdThenType => {
            lemma_int_round_trip(id, type_tag.wire_bytes() + rest);
            lemma_int_round_trip(type_tag, rest);
            assert(s =~= id.wire_bytes() + (type_tag.wire_bytes() + rest));
        },
        HeaderOrder::TypeThenId => {
            lemma_int_round_trip(type_tag, id.wire_bytes() + rest);
            lemma_int_round_trip(id, rest);
            assert(s =~= type_tag.wire_bytes() + (id.wire_bytes() + rest));
        },
    }
}

} // verus!
