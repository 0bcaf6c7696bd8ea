//! Field codecs: what a single field of a payload looks like on the wire.
//!
//! A [`FieldKind`] names the codec and its configuration, a [`FieldValue`]
//! holds what the codec carries. The byte layout of every kind is given by
//! [`FieldKind::wire_bytes`], and what decoding makes of a buffer by
//! [`FieldKind::parse`].

use crate::address::{lemma_address_round_trip, AddrModeAddress};
use crate::bitenum::{BitEnum, BitEnumTrait};
use crate::error::{FieldError, ValueMismatch};
use crate::integer::{lemma_int_round_trip, IntKind, IntValue};
use crate::reader::ByteReader;
use crate::wire::{
    le_bytes, le_value, lemma_le_bytes_len, lemma_le_value_bound, lemma_span_values,
    lemma_uint_round_trip, read_uint, uint_at, write_uint, Width,
};
use vstd::prelude::*;
use vstd::slice::{slice_subrange, slice_to_vec};

verus! {

/// The codec of one field.
#[derive(Clone, Copy, Debug, PartialEq, Eq)]
pub enum FieldKind {
    /// A fixed-width integer.
    Int(IntKind),
    /// A byte array of the given fixed size.
    Array(usize),
    /// Bytes up to and including a zero byte.
    NullTerminated,
    /// A byte count of the given width, then that many bytes.
    Blob(Width),
    /// An element count of the given width, then that many integers.
    List(Width, IntKind),
    /// A bitmask of the given width.
    Flags(Width),
    /// A tagged address.
    Address,
}

/// What one field carries.
#[derive(Debug, PartialEq, Eq)]
pub enum FieldValue {
    Int(IntValue),
    /// The content of an array, a null-terminated string (without its
    /// terminator) or a blob.
    Bytes(Vec<u8>),
    List(Vec<IntValue>),
    Flags(BitEnum),
    Address(AddrModeAddress),
}

/// The mathematical content of a [`FieldValue`].
pub enum FieldModel {
    Int(IntValue),
    Bytes(Seq<u8>),
    List(Seq<IntValue>),
    Flags(u64),
    Address(AddrModeAddress),
}

impl View for FieldValue {
    type V = FieldModel;

    open spec fn view(&self) -> FieldModel {
        match self {
            FieldValue::Int(v) => FieldModel::Int(*v),
            FieldValue::Bytes(b) => FieldModel::Bytes(b@),
            FieldValue::List(items) => FieldModel::List(items@),
            FieldValue::Flags(f) => FieldModel::Flags(f.value()),
            FieldValue::Address(a) => FieldModel::Address(*a),
        }
    }
}

impl Clone for FieldValue {
    fn clone(&self) -> (copy: Self)
        ensures
            copy@ == self@,
    {
        match self {
            FieldValue::Int(v) => FieldValue::Int(*v),
            FieldValue::Bytes(b) => FieldValue::Bytes(slice_to_vec(b.as_slice())),
            FieldValue::List(items) => FieldValue::List(slice_to_vec(items.as_slice())),
            FieldValue::Flags(f) => FieldValue::Flags(*f),
            FieldValue::Address(a) => FieldValue::Address(*a),
        }
    }
}

/// The wire bytes of `items`, one after the other.
pub open spec fn ints_bytes(items: Seq<IntValue>) -> Seq<u8>
    decreases items.len(),
{
    if items.len() == 0 {
        Seq::empty()
    } else {
        ints_bytes(items.drop_last()) + items.last().wire_bytes()
    }
}

/// How many bytes of `s` come before its first zero byte; all of them when
/// it has none.
pub open spec fn until_zero(s: Seq<u8>) -> nat
    decreases s.len(),
{
    if s.len() == 0 || s[0] == 0 {
        0
    } else {
        1 + until_zero(s.drop_first())
    }
}

/// How many bytes a null-terminated string at the front of `s` occupies:
/// its content and, where there is one, the terminator.
pub open spec fn terminated_len(s: Seq<u8>) -> nat {
    if until_zero(s) < s.len() {
        until_zero(s) + 1
    } else {
        until_zero(s)
    }
}

/// The `count` integers of type `kind` that lie side by side at the front
/// of `s`.
pub open spec fn ints_at(kind: IntKind, s: Seq<u8>, count: nat) -> Seq<IntValue> {
    let w = kind.spec_width().octets() as int;
    Seq::new(count, |i: int| kind.spec_from_bits(le_value(s.subrange(i * w, i * w + w)) as u64))
}

/// Whether `bytes` holds no zero byte.
pub fn free_of_zero(bytes: &[u8]) -> (b: bool)
    ensures
        b == !bytes@.contains(0u8),
{
    let mut i: usize = 0;
    while i < bytes.len()
        invariant
            i <= bytes@.len(),
            forall|j: int| 0 <= j < i ==> bytes@[j] != 0,
        decreases bytes@.len() - i,
    {
        if bytes[i] == 0 {
            assert(bytes@[i as int] == 0u8);
            return false;
        }
        i = i + 1;
    }
    true
}

/// Whether every one of `items` is of type `kind`.
pub fn all_of_kind(items: &[IntValue], kind: IntKind) -> (b: bool)
    ensures
        b == forall|i: int| 0 <= i < items@.len() ==> (#[trigger] items@[i]).spec_kind() == kind,
{
    let mut i: usize = 0;
    while i < items.len()
        invariant
            i <= items@.len(),
            forall|j: int| 0 <= j < i ==> (#[trigger] items@[j]).spec_kind() == kind,
        decreases items@.len() - i,
    {
        if items[i].kind() != kind {
            assert(items@[i as int].spec_kind() != kind);
            return false;
        }
        i = i + 1;
    }
    true
}

/// `until_zero` is the index of the first zero byte, or the length when
/// there is none.
pub proof fn lemma_until_zero(s: Seq<u8>, i: int)
    requires
        0 <= i <= s.len(),
        forall|j: int| 0 <= j < i ==> s[j] != 0,
        i == s.len() || s[i] == 0,
    ensures
        until_zero(s) == i,
    decreases i,
{
    if i > 0 {
        let t = s.drop_first();
        assert forall|j: int| 0 <= j < i - 1 implies t[j] != 0 by {
            assert(t[j] == s[j + 1]);
        }
        lemma_until_zero(t, i - 1);
    }
}

/// Reads bytes up to and including the first zero byte, or to the end
/// when there is none, and returns those before the zero.
fn decode_null_terminated(r: &mut ByteReader) -> (content: Vec<u8>)
    ensures
        content@ == old(r)@.take(until_zero(old(r)@) as int),
        final(r)@ == old(r)@.skip(terminated_len(old(r)@) as int),
{
    let rest = r.rest();
    let mut i: usize = 0;
    while i < rest.len() && rest[i] != 0
        invariant
            i <= rest@.len(),
            forall|j: int| 0 <= j < i ==> rest@[j] != 0,
        decreases rest@.len() - i,
    {
        i = i + 1;
    }
    proof {
        lemma_until_zero(rest@, i as int);
    }
    let used = if i < rest.len() {
        i + 1
    } else {
        i
    };
    match r.take(used) {
        Ok(taken) => {
            let content = slice_to_vec(slice_subrange(taken, 0, i));
            assert(content@ =~= old(r)@.take(i as int));
            content
        },
        Err(_) => Vec::new(),
    }
}

/// Reads `count` integers of type `kind` that lie side by side.
fn decode_ints(kind: IntKind, count: usize, r: &mut ByteReader) -> (items: Vec<IntValue>)
    requires
        count * kind.spec_width().octets() <= old(r)@.len(),
    ensures
        items@ == ints_at(kind, old(r)@, count as nat),
        final(r)@ == old(r)@.skip(count * kind.spec_width().octets()),
{
    let ghost body = r@;
    let ghost w = kind.spec_width().octets() as int;
    let mut items: Vec<IntValue> = Vec::new();
    let mut i: usize = 0;
    while i < count
        invariant
            i <= count,
            w == kind.spec_width().octets(),
            count * w <= body.len(),
            r@ == body.skip(i * w),
            items@ == ints_at(kind, body, i as nat),
        decreases count - i,
    {
        proof {
            assert(i * w + w <= count * w) by (nonlinear_arith)
                requires
                    i < count,
                    w >= 0,
            ;
            assert(body.skip(i * w).take(w) =~= body.subrange(i * w, i * w + w));
            assert(body.skip(i * w).skip(w) =~= body.skip((i + 1) * w)) by {
                assert((i + 1) * w == i * w + w) by (nonlinear_arith);
            }
        }
        match IntValue::decode(kind, r) {
            Ok(v) => {
                items.push(v);
            },
            Err(_) => {},
        }
        assert(items@ =~= ints_at(kind, body, (i + 1) as nat));
        i = i + 1;
    }
    items
}

/// Reads a byte count of width `w` and then that many bytes.
fn decode_blob(w: Width, r: &mut ByteReader) -> (res: Result<Vec<u8>, FieldError>)
    ensures
        match res {
            Ok(b) => {
                &&& FieldKind::Blob(w).parse(old(r)@) matches Ok((m, n))
                &&& m == FieldModel::Bytes(b@)
                &&& final(r)@ == old(r)@.skip(n as int)
            },
            Err(e) => FieldKind::Blob(w).parse(old(r)@) == Err::<(FieldModel, nat), _>(e)
                && final(r)@ == old(r)@,
        },
{
    let mut cur = *r;
    let len = match read_uint(&mut cur, w) {
        Ok(len) => len,
        Err(e) => {
            return Err(e);
        },
    };
    if len > cur.remaining() as u64 {
        return Err(FieldError::TruncatedInput);
    }
    match cur.take(len as usize) {
        Ok(s) => {
            assert(s@ =~= old(r)@.subrange(w.octets() as int, (w.octets() + len) as int));
            assert(cur@ =~= old(r)@.skip((w.octets() + len) as int));
            *r = cur;
            Ok(slice_to_vec(s))
        },
        Err(e) => Err(e),
    }
}

/// Reads an element count of width `w` and then that many integers of type
/// `k`. The count is held against the bytes that are left before anything
/// is allocated.
fn decode_list(w: Width, k: IntKind, r: &mut ByteReader) -> (res: Result<Vec<IntValue>, FieldError>)
    ensures
        match res {
            Ok(items) => {
                &&& FieldKind::List(w, k).parse(old(r)@) matches Ok((m, n))
                &&& m == FieldModel::List(items@)
                &&& final(r)@ == old(r)@.skip(n as int)
            },
            Err(e) => FieldKind::List(w, k).parse(old(r)@) == Err::<(FieldModel, nat), _>(e)
                && final(r)@ == old(r)@,
        },
{
    let mut cur = *r;
    let count = match read_uint(&mut cur, w) {
        Ok(count) => count,
        Err(e) => {
            return Err(e);
        },
    };
    let each = k.width().byte_count();
    let room = cur.remaining() / each;
    let ghost size = count * k.spec_width().octets();
    proof {
        let left = cur@.len() as int;
        let e = each as int;
        let c = count as int;
        assert(c > left / e <==> c * e > left) by (nonlinear_arith)
            requires
                e > 0,
                left >= 0,
                c >= 0,
        ;
    }
    if count > room as u64 {
        return Err(FieldError::TruncatedInput);
    }
    let items = decode_ints(k, count as usize, &mut cur);
    assert(cur@ =~= old(r)@.skip((w.octets() + size) as int));
    *r = cur;
    Ok(items)
}

impl FieldKind {
    /// Whether the codec writes `v`: the value is of the codec's shape, its
    /// length fits the declared width or size, and a null-terminated string
    /// holds no zero byte.
    pub open spec fn fits(self, v: FieldModel) -> bool {
        match (self, v) {
            (FieldKind::Int(k), FieldModel::Int(x)) => x.spec_kind() == k,
            (FieldKind::Array(n), FieldModel::Bytes(b)) => b.len() == n,
            (FieldKind::NullTerminated, FieldModel::Bytes(b)) => !b.contains(0u8),
            (FieldKind::Blob(w), FieldModel::Bytes(b)) => w.holds(b.len()),
            (FieldKind::List(w, k), FieldModel::List(items)) => {
                &&& w.holds(items.len())
                &&& forall|i: int| 0 <= i < items.len() ==> (#[trigger] items[i]).spec_kind() == k
            },
            (FieldKind::Flags(w), FieldModel::Flags(x)) => w.holds(x as nat),
            (FieldKind::Address, FieldModel::Address(_)) => true,
            _ => false,
        }
    }

    /// The bytes of `v` on the wire under this codec.
    pub open spec fn wire_bytes(self, v: FieldModel) -> Seq<u8> {
        match (self, v) {
            (FieldKind::Int(_), FieldModel::Int(x)) => x.wire_bytes(),
            (FieldKind::Array(_), FieldModel::Bytes(b)) => b,
            (FieldKind::NullTerminated, FieldModel::Bytes(b)) => b.push(0u8),
            (FieldKind::Blob(w), FieldModel::Bytes(b)) => le_bytes(b.len(), w.octets()) + b,
            (FieldKind::List(w, _), FieldModel::List(items)) => le_bytes(items.len(), w.octets())
                + ints_bytes(items),
            (FieldKind::Flags(w), FieldModel::Flags(x)) => le_bytes(x as nat, w.octets()),
            (FieldKind::Address, FieldModel::Address(a)) => a.wire_bytes(),
            _ => Seq::empty(),
        }
    }

    /// What decoding makes of the unread bytes `s`: the value and the
    /// number of bytes it occupies, or the failure.
    pub open spec fn parse(self, s: Seq<u8>) -> Result<(FieldModel, nat), FieldError> {
        match self {
            FieldKind::Int(k) => match IntValue::parse(k, s) {
                Some(x) => Ok((FieldModel::Int(x), k.spec_width().octets())),
                None => Err(FieldError::TruncatedInput),
            },
            FieldKind::Array(n) => if s.len() >= n {
                Ok((FieldModel::Bytes(s.take(n as int)), n as nat))
            } else {
                Err(FieldError::TruncatedInput)
            },
            FieldKind::NullTerminated => Ok(
                (FieldModel::Bytes(s.take(until_zero(s) as int)), terminated_len(s)),
            ),
            FieldKind::Blob(w) => match uint_at(s, w) {
                Some(len) => if s.len() - w.octets() >= len {
                    Ok(
                        (
                            FieldModel::Bytes(
                                s.subrange(w.octets() as int, (w.octets() + len) as int),
                            ),
                            w.octets() + len,
                        ),
                    )
                } else {
                    Err(FieldError::TruncatedInput)
                },
                None => Err(FieldError::TruncatedInput),
            },
            FieldKind::List(w, k) => match uint_at(s, w) {
                Some(count) => {
                    let size = count * k.spec_width().octets();
                    if s.len() - w.octets() >= size {
                        Ok(
                            (
                                FieldModel::List(ints_at(k, s.skip(w.octets() as int), count)),
                                w.octets() + size,
                            ),
                        )
                    } else {
                        Err(FieldError::TruncatedInput)
                    }
                },
                None => Err(FieldError::TruncatedInput),
            },
            FieldKind::Flags(w) => match uint_at(s, w) {
                Some(x) => Ok((FieldModel::Flags(x as u64), w.octets())),
                None => Err(FieldError::TruncatedInput),
            },
            FieldKind::Address => match AddrModeAddress::parse(s) {
                Ok((a, n)) => Ok((FieldModel::Address(a), n)),
                Err(e) => Err(e),
            },
        }
    }

    /// How many bytes the field at the front of `s` needs, going by its
    /// codec and by what `s` itself declares: a fixed width or size, or the
    /// length prefix and the length that it announces.
    pub open spec fn needed(self, s: Seq<u8>) -> nat {
        match self {
            FieldKind::Int(k) => k.spec_width().octets(),
            FieldKind::Array(n) => n as nat,
            FieldKind::NullTerminated => 0,
            FieldKind::Blob(w) => match uint_at(s, w) {
                Some(len) => w.octets() + len,
                None => w.octets(),
            },
            FieldKind::List(w, k) => match uint_at(s, w) {
                Some(count) => w.octets() + count * k.spec_width().octets(),
                None => w.octets(),
            },
            FieldKind::Flags(w) => w.octets(),
            FieldKind::Address => if s.len() == 0 {
                1
            } else {
                match crate::address::AddrMode::spec_from_tag(s[0]) {
                    Some(mode) => 1 + mode.payload_len(),
                    None => 1,
                }
            },
        }
    }

    /// Reads one value as this codec lays it out. Consumes nothing on
    /// failure.
    pub fn decode(&self, r: &mut ByteReader) -> (res: Result<FieldValue, FieldError>)
        ensures
            match res {
                Ok(v) => {
                    &&& self.parse(old(r)@) matches Ok((m, n))
                    &&& v@ == m
                    &&& self.fits(v@)
                    &&& final(r)@ == old(r)@.skip(n as int)
                },
                Err(e) => self.parse(old(r)@) == Err::<(FieldModel, nat), _>(e) && final(r)@
                    == old(r)@,
            },
    {
        proof {
            lemma_parse_fits(*self, r@);
        }
        match self {
            FieldKind::Int(k) => match IntValue::decode(*k, r) {
                Ok(x) => Ok(FieldValue::Int(x)),
                Err(e) => Err(e),
            },
            FieldKind::Array(n) => match r.take(*n) {
                Ok(s) => Ok(FieldValue::Bytes(slice_to_vec(s))),
                Err(e) => Err(e),
            },
            FieldKind::NullTerminated => Ok(FieldValue::Bytes(decode_null_terminated(r))),
            FieldKind::Blob(w) => match decode_blob(*w, r) {
                Ok(b) => Ok(FieldValue::Bytes(b)),
                Err(e) => Err(e),
            },
            FieldKind::List(w, k) => match decode_list(*w, *k, r) {
                Ok(items) => Ok(FieldValue::List(items)),
                Err(e) => Err(e),
            },
            FieldKind::Flags(w) => match BitEnum::decode(*w, r) {
                Ok(f) => Ok(FieldValue::Flags(f)),
                Err(e) => Err(e),
            },
            FieldKind::Address => match AddrModeAddress::decode(r) {
                Ok(a) => Ok(FieldValue::Address(a)),
                Err(e) => Err(e),
            },
        }
    }

    /// Whether the codec writes `value`.
    pub fn accepts(&self, value: &FieldValue) -> (b: bool)
        ensures
            b == self.fits(value@),
    {
        match (self, value) {
            (FieldKind::Int(k), FieldValue::Int(x)) => x.kind() == *k,
            (FieldKind::Array(n), FieldValue::Bytes(b)) => b.len() == *n,
            (FieldKind::NullTerminated, FieldValue::Bytes(b)) => free_of_zero(b.as_slice()),
            (FieldKind::Blob(w), FieldValue::Bytes(b)) => w.fits(b.len() as u64),
            (FieldKind::List(w, k), FieldValue::List(items)) => w.fits(items.len() as u64)
                && all_of_kind(items.as_slice(), *k),
            (FieldKind::Flags(w), FieldValue::Flags(f)) => w.fits(f.get_val()),
            (FieldKind::Address, FieldValue::Address(_)) => true,
            _ => false,
        }
    }

    /// Appends `value` to `out` as this codec lays it out, or leaves `out`
    /// as it is when the codec does not write such a value.
    pub fn encode(&self, value: &FieldValue, out: &mut Vec<u8>) -> (r: Result<(), ValueMismatch>)
        ensures
            match r {
                Ok(_) => self.fits(value@) && final(out)@ == old(out)@ + self.wire_bytes(value@),
                Err(_) => !self.fits(value@) && final(out)@ == old(out)@,
            },
    {
        if !self.accepts(value) {
            return Err(ValueMismatch);
        }
        let ghost before = out@;
        match (self, value) {
            (FieldKind::Int(_), FieldValue::Int(x)) => {
                x.encode(out);
            },
            (FieldKind::Array(_), FieldValue::Bytes(b)) => {
                out.extend_from_slice(b.as_slice());
            },
            (FieldKind::NullTerminated, FieldValue::Bytes(b)) => {
                out.extend_from_slice(b.as_slice());
                out.push(0);
                assert(out@ =~= before + b@.push(0u8));
            },
            (FieldKind::Blob(w), FieldValue::Bytes(b)) => {
                write_uint(out, b.len() as u64, *w);
                out.extend_from_slice(b.as_slice());
                assert(out@ =~= before + (le_bytes(b@.len(), w.octets()) + b@));
            },
            (FieldKind::List(w, _), FieldValue::List(items)) => {
                write_uint(out, items.len() as u64, *w);
                let ghost head = out@;
                let mut i: usize = 0;
                while i < items.len()
                    invariant
                        i <= items@.len(),
                        out@ == head + ints_bytes(items@.take(i as int)),
                    decreases items@.len() - i,
                {
                    items[i].encode(out);
                    assert(items@.take(i + 1).drop_last() =~= items@.take(i as int));
                    assert(out@ =~= head + ints_bytes(items@.take(i + 1)));
                    i = i + 1;
                }
                assert(items@.take(i as int) =~= items@);
                assert(out@ =~= before + (le_bytes(items@.len(), w.octets()) + ints_bytes(
                    items@,
                )));
            },
            (FieldKind::Flags(w), FieldValue::Flags(f)) => {
                let _ = f.encode(*w, out);
            },
            (FieldKind::Address, FieldValue::Address(a)) => {
                a.encode(out);
            },
            _ => {},
        }
        Ok(())
    }
}

/// The bytes before the first zero byte hold no zero byte.
pub proof fn lemma_until_zero_bounds(s: Seq<u8>)
    ensures
        until_zero(s) <= s.len(),
        forall|j: int| 0 <= j < until_zero(s) ==> s[j] != 0,
        until_zero(s) < s.len() ==> s[until_zero(s) as int] == 0,
    decreases s.len(),
{
    if s.len() > 0 && s[0] != 0 {
        let t = s.drop_first();
        lemma_until_zero_bounds(t);
        assert forall|j: int| 0 <= j < until_zero(s) implies s[j] != 0 by {
            if j > 0 {
                assert(s[j] == t[j - 1]);
            }
        }
        if until_zero(s) < s.len() {
            assert(s[until_zero(s) as int] == t[until_zero(t) as int]);
        }
    }
}

/// Whatever decodes is a value that the same codec writes, and lies within
/// the buffer.
pub proof fn lemma_parse_fits(kind: FieldKind, s: Seq<u8>)
    ensures
        kind.parse(s) matches Ok((v, n)) ==> kind.fits(v) && n <= s.len(),
{
    lemma_span_values();
    match kind {
        FieldKind::NullTerminated => {
            lemma_until_zero_bounds(s);
            let b = s.take(until_zero(s) as int);
            assert forall|j: int| 0 <= j < b.len() implies b[j] != 0 by {
                assert(b[j] == s[j]);
            }
        },
        FieldKind::Blob(w) => {
            if s.len() >= w.octets() {
                lemma_le_value_bound(s.take(w.octets() as int));
            }
        },
        FieldKind::List(w, k) => {
            if s.len() >= w.octets() {
                lemma_le_value_bound(s.take(w.octets() as int));
            }
        },
        FieldKind::Flags(w) => {
            if s.len() >= w.octets() {
                lemma_le_value_bound(s.take(w.octets() as int));
            }
        },
        _ => {},
    }
}

/// Truncated input: decoding fails with `TruncatedInput` exactly when the
/// buffer is shorter than the field needs.
pub proof fn lemma_truncated_iff_short(kind: FieldKind, s: Seq<u8>)
    ensures
        kind.parse(s) == Err::<(FieldModel, nat), _>(FieldError::TruncatedInput) <==> s.len()
            < kind.needed(s),
{
}

/// The integers of a list lie side by side, each in the width of its type,
/// and are read back one by one whatever follows them.
pub proof fn lemma_ints_round_trip(kind: IntKind, items: Seq<IntValue>, rest: Seq<u8>)
    requires
        forall|i: int| 0 <= i < items.len() ==> (#[trigger] items[i]).spec_kind() == kind,
    ensures
        ints_bytes(items).len() == items.len() * kind.spec_width().octets(),
        ints_at(kind, ints_bytes(items) + rest, items.len()) == items,
    decreases items.len(),
{
    let w = kind.spec_width().octets() as int;
    if items.len() == 0 {
        assert(ints_at(kind, ints_bytes(items) + rest, 0) =~= items);
    } else {
        let init = items.drop_last();
        let last = items.last();
        let tail = last.wire_bytes() + rest;
        lemma_ints_round_trip(kind, init, tail);
        lemma_int_round_trip(last, rest);
        let s = ints_bytes(items) + rest;
        assert(s =~= ints_bytes(init) + tail);
        assert(items.len() * w == init.len() * w + w) by (nonlinear_arith)
            requires
                items.len() == init.len() + 1,
        ;
        let got = ints_at(kind, s, items.len());
        assert forall|i: int| 0 <= i < items.len() implies got[i] == items[i] by {
            if i < init.len() {
                assert(ints_at(kind, s, init.len())[i] == init[i]);
            } else {
                assert(s.subrange(i * w, i * w + w) =~= (last.wire_bytes() + rest).take(w));
            }
        }
        assert(got =~= items);
    }
}

proof fn lemma_null_terminated_round_trip(b: Seq<u8>, rest: Seq<u8>)
    requires
        !b.contains(0u8),
    ensures
        until_zero(b.push(0u8) + rest) == b.len(),
        (b.push(0u8) + rest).take(b.len() as int) == b,
        terminated_len(b.push(0u8) + rest) == b.len() + 1,
{
    let s = b.push(0u8) + rest;
    assert forall|j: int| 0 <= j < b.len() implies s[j] != 0 by {
        assert(b.contains(b[j]));
    }
    lemma_until_zero(s, b.len() as int);
    assert(s.take(b.len() as int) =~= b);
}

proof fn lemma_blob_round_trip(w: Width, b: Seq<u8>, rest: Seq<u8>)
    requires
        w.holds(b.len()),
    ensures
        FieldKind::Blob(w).parse(le_bytes(b.len(), w.octets()) + b + rest) == Ok::<_, FieldError>(
            (FieldModel::Bytes(b), w.octets() + b.len()),
        ),
        (le_bytes(b.len(), w.octets()) + b).len() == w.octets() + b.len(),
{
    let head = le_bytes(b.len(), w.octets());
    let s = head + b + rest;
    lemma_le_bytes_len(b.len(), w.octets());
    lemma_uint_round_trip(b.len(), w, b + rest);
    assert(s =~= head + (b + rest));
    assert(s.subrange(w.octets() as int, (w.octets() + b.len()) as int) =~= b);
}

proof fn lemma_list_round_trip(w: Width, k: IntKind, items: Seq<IntValue>, rest: Seq<u8>)
    requires
        w.holds(items.len()),
        forall|i: int| 0 <= i < items.len() ==> (#[trigger] items[i]).spec_kind() == k,
    ensures
        FieldKind::List(w, k).parse(le_bytes(items.len(), w.octets()) + ints_bytes(items) + rest)
            == Ok::<_, FieldError>(
            (FieldModel::List(items), w.octets() + ints_bytes(items).len()),
        ),
        (le_bytes(items.len(), w.octets()) + ints_bytes(items)).len() == w.octets() + ints_bytes(
            items,
        ).len(),
{
    let head = le_bytes(items.len(), w.octets());
    let body = ints_bytes(items) + rest;
    let s = head + ints_bytes(items) + rest;
    lemma_le_bytes_len(items.len(), w.octets());
    lemma_uint_round_trip(items.len(), w, body);
    lemma_ints_round_trip(k, items, rest);
    assert(s =~= head + body);
    assert(s.skip(w.octets() as int) =~= body);
}

/// Round trip of one field: decoding what `encode` wrote, whatever follows
/// it, gives the value back and consumes exactly what was written.
pub proof fn lemma_field_round_trip(kind: FieldKind, v: FieldModel, rest: Seq<u8>)
    requires
        kind.fits(v),
    ensures
        kind.parse(kind.wire_bytes(v) + rest) == Ok::<_, FieldError>(
            (v, kind.wire_bytes(v).len()),
        ),
{
    match (kind, v) {
        (FieldKind::Int(_), FieldModel::Int(x)) => {
            lemma_int_round_trip(x, rest);
        },
        (FieldKind::Array(n), FieldModel::Bytes(b)) => {
            assert((b + rest).take(n as int) =~= b);
        },
        (FieldKind::NullTerminated, FieldModel::Bytes(b)) => {
            lemma_null_terminated_round_trip(b, rest);
        },
        (FieldKind::Blob(w), FieldModel::Bytes(b)) => {
            lemma_blob_round_trip(w, b, rest);
        },
        (FieldKind::List(w, k), FieldModel::List(items)) => {
            lemma_list_round_trip(w, k, items, rest);
        },
        (FieldKind::Flags(w), FieldModel::Flags(x)) => {
            lemma_le_bytes_len(x as nat, w.octets());
            lemma_uint_round_trip(x as nat, w, rest);
        },
        (FieldKind::Address, FieldModel::Address(a)) => {
            lemma_address_round_trip(a, rest);
        },
        _ => {},
    }
}

} // verus!
