//! Bitmask flag sets: an unsigned integer read as a set of single-bit flags.
//!
//! The enumeration of meaningful flags is a [`FlagTable`]. A [`BitEnum`]
//! wraps the integer; composing flags is bitwise OR, and decomposing lists
//! the set bits from the most significant down, refusing a bit that the
//! table does not know.

use crate::error::{ConfigurationConflict, FieldError, UnrecognizedBit, ValueMismatch};
use crate::reader::ByteReader;
use crate::wire::{le_bytes, read_uint, uint_at, write_uint, Width};
use vstd::prelude::*;

verus! {

/// `v` has exactly one bit set.
pub open spec fn is_single_bit(v: u64) -> bool {
    exists|i: u32| i < 64 && v == 1u64 << i
}

/// `b` is the most significant set bit of `y`.
pub open spec fn is_top_bit(b: u64, y: u64) -> bool {
    exists|i: u32| i < 64 && b == 1u64 << i && y >> i == 1
}

/// Bitwise OR of all of `values`; zero for none.
pub open spec fn or_all(values: Seq<u64>) -> u64
    decreases values.len(),
{
    if values.len() == 0 {
        0
    } else {
        or_all(values.drop_last()) | values.last()
    }
}

/// The set bits of `x` at positions below `n`, each as a single-bit value,
/// most significant first.
pub open spec fn set_bits_below(x: u64, n: u32) -> Seq<u64>
    decreases n,
{
    if n == 0 {
        Seq::empty()
    } else {
        let b = 1u64 << ((n - 1) as u32);
        let head = if x & b != 0 {
            seq![b]
        } else {
            Seq::empty()
        };
        head + set_bits_below(x, (n - 1) as u32)
    }
}

/// The set bits of `x`, each as a single-bit value, most significant first.
pub open spec fn set_bits(x: u64) -> Seq<u64> {
    set_bits_below(x, 64)
}

/// The flag values of `items`, where each is one; zero in place of a failure.
pub open spec fn ok_values<E>(items: Seq<Result<u64, E>>) -> Seq<u64> {
    items.map_values(
        |item: Result<u64, E>|
            match item {
                Ok(bit) => bit,
                Err(_) => 0,
            },
    )
}

/// All bits at positions below `n`.
spec fn low_mask(n: u32) -> u64 {
    if n >= 64 {
        0xffff_ffff_ffff_ffffu64
    } else {
        !(0xffff_ffff_ffff_ffffu64 << n)
    }
}

proof fn lemma_or_all_concat(a: Seq<u64>, b: Seq<u64>)
    ensures
        or_all(a + b) == or_all(a) | or_all(b),
    decreases b.len(),
{
    if b.len() == 0 {
        assert(a + b =~= a);
        let x = or_all(a);
        assert(x | 0 == x) by (bit_vector);
    } else {
        assert((a + b).drop_last() =~= a + b.drop_last());
        lemma_or_all_concat(a, b.drop_last());
        let x = or_all(a);
        let y = or_all(b.drop_last());
        let z = b.last();
        assert((x | y) | z == x | (y | z)) by (bit_vector);
    }
}

proof fn lemma_or_all_single(b: u64)
    ensures
        or_all(seq![b]) == b,
{
    let s = seq![b];
    assert(s.drop_last() =~= Seq::<u64>::empty());
    assert(or_all(s.drop_last()) == 0);
    assert(s.last() == b);
    assert(0u64 | b == b) by (bit_vector);
}

proof fn lemma_or_all_set_bits_below(x: u64, n: u32)
    requires
        n <= 64,
    ensures
        or_all(set_bits_below(x, n)) == x & low_mask(n),
    decreases n,
{
    if n == 0 {
        assert(x & low_mask(0) == 0) by (bit_vector);
    } else {
        let m = (n - 1) as u32;
        let b = 1u64 << m;
        let head = if x & b != 0 {
            seq![b]
        } else {
            Seq::<u64>::empty()
        };
        let tail = set_bits_below(x, m);
        lemma_or_all_set_bits_below(x, m);
        lemma_or_all_concat(head, tail);
        lemma_or_all_single(b);
        let h = or_all(head);
        let t = or_all(tail);
        assert(h == if x & b != 0 {
            b
        } else {
            0
        });
        assert(h | t == x & low_mask(n)) by (bit_vector)
            requires
                1 <= n <= 64,
                m == n - 1,
                b == 1u64 << m,
                h == if x & b != 0 {
                    b
                } else {
                    0
                },
                t == x & low_mask(m),
        ;
    }
}

/// Composing the decomposition of an integer gives the integer back.
pub proof fn lemma_compose_decompose(x: u64)
    ensures
        or_all(set_bits(x)) == x,
{
    lemma_or_all_set_bits_below(x, 64);
    assert(x & low_mask(64) == x) by (bit_vector);
}

proof fn lemma_set_bits_below_descend(x: u64, n: u32)
    requires
        n <= 64,
    ensures
        forall|i: int|
            0 <= i < set_bits_below(x, n).len() ==> {
                &&& is_single_bit(#[trigger] set_bits_below(x, n)[i])
                &&& x & set_bits_below(x, n)[i] != 0
                &&& set_bits_below(x, n)[i] <= low_mask(n)
            },
        forall|i: int, j: int|
            0 <= i < j < set_bits_below(x, n).len() ==> set_bits_below(x, n)[i] > set_bits_below(
                x,
                n,
            )[j],
    decreases n,
{
    if n > 0 {
        let m = (n - 1) as u32;
        let b = 1u64 << m;
        let tail = set_bits_below(x, m);
        let s = set_bits_below(x, n);
        lemma_set_bits_below_descend(x, m);
        assert(b <= low_mask(n) && low_mask(m) < b) by (bit_vector)
            requires
                1 <= n <= 64,
                m == n - 1,
                b == 1u64 << m,
        ;
        if x & b != 0 {
            assert(s =~= seq![b] + tail);
            assert forall|i: int| 0 <= i < s.len() implies {
                &&& is_single_bit(#[trigger] s[i])
                &&& x & s[i] != 0
                &&& s[i] <= low_mask(n)
            } by {
                if i > 0 {
                    assert(s[i] == tail[i - 1]);
                }
            }
            assert forall|i: int, j: int| 0 <= i < j < s.len() implies s[i] > s[j] by {
                assert(s[j] == tail[j - 1]);
                if i > 0 {
                    assert(s[i] == tail[i - 1]);
                }
            }
        } else {
            assert(s =~= tail);
        }
    }
}

/// Decomposition order: the decomposition of an integer lists set bits of
/// that integer, each one bit wide and more significant than the next.
pub proof fn lemma_set_bits_descend(x: u64)
    ensures
        forall|i: int|
            0 <= i < set_bits(x).len() ==> is_single_bit(#[trigger] set_bits(x)[i]) && x
                & set_bits(x)[i] != 0,
        forall|i: int, j: int| 0 <= i < j < set_bits(x).len() ==> set_bits(x)[i] > set_bits(x)[j],
{
    lemma_set_bits_below_descend(x, 64);
}

proof fn lemma_or_all_remove(s: Seq<u64>, k: int)
    requires
        0 <= k < s.len(),
    ensures
        or_all(s) == or_all(s.remove(k)) | s[k],
{
    let front = s.take(k);
    let back = s.skip(k + 1);
    assert(s =~= front + seq![s[k]] + back);
    assert(s.remove(k) =~= front + back);
    lemma_or_all_concat(front + seq![s[k]], back);
    lemma_or_all_concat(front, seq![s[k]]);
    lemma_or_all_concat(front, back);
    lemma_or_all_single(s[k]);
    let f = or_all(front);
    let m = s[k];
    let t = or_all(back);
    assert((f | m) | t == (f | t) | m) by (bit_vector);
}

/// Composition does not depend on the order of the flags: two lists with
/// the same flags, each as often, compose to the same integer.
pub proof fn lemma_compose_any_order(a: Seq<u64>, b: Seq<u64>)
    requires
        a.to_multiset() == b.to_multiset(),
    ensures
        or_all(a) == or_all(b),
    decreases a.len(),
{
    a.to_multiset_ensures();
    b.to_multiset_ensures();
    if a.len() > 0 {
        let x = a.last();
        assert(a.contains(x));
        assert(b.to_multiset().count(x) > 0);
        assert(b.contains(x));
        let k = choose|k: int| 0 <= k < b.len() && b[k] == x;
        assert(a.drop_last() =~= a.remove(a.len() - 1));
        assert(a.remove(a.len() - 1).to_multiset() == b.remove(k).to_multiset());
        lemma_compose_any_order(a.drop_last(), b.remove(k));
        lemma_or_all_remove(b, k);
    }
}

/// The first bit, scanning down from position `n - 1`, that is set in
/// `x` and missing from `known`.
spec fn first_unknown_below(x: u64, known: u64, n: u32) -> Option<u64>
    decreases n,
{
    if n == 0 {
        None
    } else {
        let b = 1u64 << ((n - 1) as u32);
        if x & b != 0 && known & b == 0 {
            Some(b)
        } else {
            first_unknown_below(x, known, (n - 1) as u32)
        }
    }
}

proof fn lemma_first_unknown_below(x: u64, known: u64, n: u32)
    requires
        n <= 64,
    ensures
        match first_unknown_below(x, known, n) {
            None => (x & !known) & low_mask(n) == 0,
            Some(b) => is_top_bit(b, (x & !known) & low_mask(n)),
        },
    decreases n,
{
    let y = x & !known;
    if n == 0 {
        assert(y & low_mask(0) == 0) by (bit_vector);
    } else {
        let m = (n - 1) as u32;
        let b = 1u64 << m;
        if x & b != 0 && known & b == 0 {
            assert((y & low_mask(n)) >> m == 1) by (bit_vector)
                requires
                    1 <= n <= 64,
                    m == n - 1,
                    b == 1u64 << m,
                    y == x & !known,
                    x & b != 0,
                    known & b == 0,
            ;
        } else {
            lemma_first_unknown_below(x, known, m);
            assert(y & low_mask(n) == y & low_mask(m)) by (bit_vector)
                requires
                    1 <= n <= 64,
                    m == n - 1,
                    b == 1u64 << m,
                    y == x & !known,
                    !(x & b != 0 && known & b == 0),
            ;
        }
    }
}

/// The scan over all 64 positions finds nothing exactly when every set bit
/// of `x` is in `known`, and otherwise finds the most significant set bit of
/// `x` that is not.
proof fn lemma_first_unknown(x: u64, known: u64)
    ensures
        match first_unknown_below(x, known, 64) {
            None => x & !known == 0,
            Some(b) => is_top_bit(b, x & !known),
        },
{
    lemma_first_unknown_below(x, known, 64);
    let y = x & !known;
    assert(y & low_mask(64) == y) by (bit_vector);
}

/// The enumeration behind a flag set: the single-bit values that have a
/// meaning, held as their union.
#[derive(Clone, Copy, Debug, PartialEq, Eq)]
pub struct FlagTable {
    known: u64,
}

impl FlagTable {
    /// The union of the enumerated flag values.
    pub closed spec fn known(&self) -> u64 {
        self.known
    }

    /// The table of the given flag values. Each must occupy exactly one bit;
    /// the first that does not is reported by its index.
    pub fn new(values: &[u64]) -> (r: Result<FlagTable, ConfigurationConflict>)
        ensures
            match r {
                Ok(t) => {
                    &&& forall|i: int| 0 <= i < values@.len() ==> is_single_bit(#[trigger] values@[i])
                    &&& t.known() == or_all(values@)
                },
                Err(e) => exists|i: int|
                    {
                        &&& 0 <= i < values@.len()
                        &&& !is_single_bit(#[trigger] values@[i])
                        &&& forall|j: int| 0 <= j < i ==> is_single_bit(#[trigger] values@[j])
                        &&& e == ConfigurationConflict::NotSingleBit { index: i as usize }
                    },
            },
    {
        let mut known: u64 = 0;
        let mut i: usize = 0;
        while i < values.len()
            invariant
                i <= values@.len(),
                known == or_all(values@.take(i as int)),
                forall|j: int| 0 <= j < i ==> is_single_bit(#[trigger] values@[j]),
            decreases values@.len() - i,
        {
            let v = values[i];
            if !single_bit(v) {
                return Err(ConfigurationConflict::NotSingleBit { index: i });
            }
            assert(values@.take(i + 1).drop_last() =~= values@.take(i as int));
            known = known | v;
            i = i + 1;
        }
        assert(values@.take(i as int) =~= values@);
        Ok(FlagTable { known })
    }

    /// The table whose flags are the set bits of `mask`.
    pub fn from_mask(mask: u64) -> (t: FlagTable)
        ensures
            t.known() == mask,
    {
        FlagTable { known: mask }
    }

    /// The union of the enumerated flag values.
    pub fn mask(&self) -> (m: u64)
        ensures
            m == self.known(),
    {
        self.known
    }
}

/// Whether `v` has exactly one bit set.
pub fn single_bit(v: u64) -> (b: bool)
    ensures
        b == is_single_bit(v),
{
    let mut i: u32 = 0;
    while i < 64
        invariant
            i <= 64,
            forall|j: u32| j < i ==> v != 1u64 << j,
        decreases 64 - i,
    {
        if v == 1u64 << i {
            return true;
        }
        i = i + 1;
    }
    false
}

/// An unsigned integer read as a set of single-bit flags.
#[derive(Clone, Copy, Debug, PartialEq, Eq)]
pub struct BitEnum {
    data: u64,
}

/// What a bitmask flag set offers.
pub trait BitEnumTrait: Sized {
    /// The backing integer.
    spec fn value(&self) -> u64;

    /// The flags that are set, most significant first. Fails on the most
    /// significant set bit that `table` does not know.
    fn to_vec(&self, table: &FlagTable) -> (r: Result<Vec<u64>, UnrecognizedBit>)
        ensures
            match r {
                Ok(v) => self.value() & !table.known() == 0 && v@ == set_bits(self.value()),
                Err(e) => is_top_bit(e.bit, self.value() & !table.known()),
            },
    ;

    /// The set that holds the union of `bits`.
    fn from_slice(bits: &[u64]) -> (s: Self)
        ensures
            s.value() == or_all(bits@),
    ;

    /// The set that holds the union of what `bits` yields.
    fn from_iter(bits: &Vec<u64>) -> (s: Self)
        ensures
            s.value() == or_all(bits@),
    ;

    /// The set that holds the union of `bits`, or the first failure among
    /// them.
    fn try_from_iter<E>(bits: Vec<Result<u64, E>>) -> (r: Result<Self, E>)
        ensures
            match r {
                Ok(s) => {
                    &&& forall|i: int| 0 <= i < bits@.len() ==> #[trigger] bits@[i] is Ok
                    &&& s.value() == or_all(ok_values(bits@))
                },
                Err(e) => exists|i: int|
                    {
                        &&& 0 <= i < bits@.len()
                        &&& #[trigger] bits@[i] == Err::<u64, E>(e)
                        &&& forall|j: int| 0 <= j < i ==> #[trigger] bits@[j] is Ok
                    },
            },
    ;

    /// The set with backing integer `bits`, provided `table` knows every
    /// set bit. Fails on the most significant one that it does not know.
    fn from_int(bits: u64, table: &FlagTable) -> (r: Result<Self, UnrecognizedBit>)
        ensures
            match r {
                Ok(s) => bits & !table.known() == 0 && s.value() == bits,
                Err(e) => is_top_bit(e.bit, bits & !table.known()),
            },
    ;

    /// The backing integer.
    fn get_val(&self) -> (v: u64)
        ensures
            v == self.value(),
    ;

    /// Whether any bit of `bit` is set.
    fn contains(&self, bit: u64) -> (b: bool)
        ensures
            b == (self.value() & bit != 0),
    ;

    /// The set with the bits of `bit` added.
    fn add_bit(self, bit: u64) -> (s: Self)
        ensures
            s.value() == self.value() | bit,
    ;

    /// The set with the bits of `bit` removed.
    fn remove_bit(self, bit: u64) -> (s: Self)
        ensures
            s.value() == self.value() & !bit,
    ;

    /// The set with the bits of `bit` flipped.
    fn xor_bit(self, bit: u64) -> (s: Self)
        ensures
            s.value() == self.value() ^ bit,
    ;
}

impl BitEnumTrait for BitEnum {
    closed spec fn value(&self) -> u64 {
        self.data
    }

    fn to_vec(&self, table: &FlagTable) -> (r: Result<Vec<u64>, UnrecognizedBit>) {
        let mut v: Vec<u64> = Vec::new();
        let mut i: u32 = 64;
        while i > 0
            invariant
                i <= 64,
                v@ + set_bits_below(self.data, i) == set_bits_below(self.data, 64),
                first_unknown_below(self.data, table.known, i) == first_unknown_below(
                    self.data,
                    table.known,
                    64,
                ),
            decreases i,
        {
            i = i - 1;
            let bit = 1u64 << i;
            if self.data & bit != 0 {
                if table.known & bit == 0 {
                    proof {
                        lemma_first_unknown(self.data, table.known);
                    }
                    return Err(UnrecognizedBit { bit });
                }
                assert(v@.push(bit) + set_bits_below(self.data, i) =~= v@ + set_bits_below(
                    self.data,
                    (i + 1) as u32,
                ));
                v.push(bit);
            }
        }
        assert(v@ + set_bits_below(self.data, 0) =~= v@);
        proof {
            lemma_first_unknown(self.data, table.known);
        }
        Ok(v)
    }

    fn from_slice(bits: &[u64]) -> (s: Self) {
        let mut sum: u64 = 0;
        let mut i: usize = 0;
        while i < bits.len()
            invariant
                i <= bits@.len(),
                sum == or_all(bits@.take(i as int)),
            decreases bits@.len() - i,
        {
            assert(bits@.take(i + 1).drop_last() =~= bits@.take(i as int));
            sum = sum | bits[i];
            i = i + 1;
        }
        assert(bits@.take(i as int) =~= bits@);
        BitEnum { data: sum }
    }

    fn from_iter(bits: &Vec<u64>) -> (s: Self) {
        let mut sum: u64 = 0;
        for bit in it: bits.iter()
            invariant
                it.seq().unref() == bits@,
                sum == or_all(bits@.take(it.index())),
        {
            assert(bits@.take(it.index() + 1).drop_last() =~= bits@.take(it.index()));
            sum = sum | *bit;
        }
        assert(bits@.take(bits@.len() as int) =~= bits@);
        BitEnum { data: sum }
    }

    fn try_from_iter<E>(bits: Vec<Result<u64, E>>) -> (r: Result<Self, E>) {
        let mut sum: u64 = 0;
        let ghost all = bits@;
        for item in it: bits.into_iter()
            invariant
                it.seq() == all,
                forall|j: int| 0 <= j < it.index() ==> #[trigger] all[j] is Ok,
                sum == or_all(ok_values(all.take(it.index()))),
        {
            let ghost k = it.index();
            assert(ok_values(all.take(k + 1)).drop_last() =~= ok_values(all.take(k)));
            match item {
                Ok(bit) => {
                    sum = sum | bit;
                },
                Err(e) => {
                    return Err(e);
                },
            }
        }
        assert(all.take(all.len() as int) =~= all);
        Ok(BitEnum { data: sum })
    }

    fn from_int(bits: u64, table: &FlagTable) -> (r: Result<Self, UnrecognizedBit>) {
        let mut sum: u64 = 0;
        let mut i: u32 = 64;
        assert(0u64 == bits & !low_mask(64)) by (bit_vector);
        while i > 0
            invariant
                i <= 64,
                sum == bits & !low_mask(i),
                first_unknown_below(bits, table.known, i) == first_unknown_below(
                    bits,
                    table.known,
                    64,
                ),
            decreases i,
        {
            let ghost above = i;
            i = i - 1;
            let bit = 1u64 << i;
            if bits & bit != 0 {
                if table.known & bit == 0 {
                    proof {
                        lemma_first_unknown(bits, table.known);
                    }
                    return Err(UnrecognizedBit { bit });
                }
                sum = sum | bit;
            }
            assert(sum == bits & !low_mask(i)) by (bit_vector)
                requires
                    1 <= above <= 64,
                    i == above - 1,
                    bit == 1u64 << i,
                    sum == if bits & bit != 0 {
                        (bits & !low_mask(above)) | bit
                    } else {
                        bits & !low_mask(above)
                    },
            ;
        }
        assert(bits & !low_mask(0) == bits) by (bit_vector);
        proof {
            lemma_first_unknown(bits, table.known);
        }
        Ok(BitEnum { data: sum })
    }

    fn get_val(&self) -> (v: u64) {
        self.data
    }

    fn contains(&self, bit: u64) -> (b: bool) {
        (self.data & bit) != 0
    }

    fn add_bit(self, bit: u64) -> (s: Self) {
        BitEnum { data: self.data | bit }
    }

    fn remove_bit(self, bit: u64) -> (s: Self) {
        BitEnum { data: self.data & !bit }
    }

    fn xor_bit(self, bit: u64) -> (s: Self) {
        BitEnum { data: self.data ^ bit }
    }
}

impl BitEnum {
    /// The set with backing integer `bits`, whatever its bits mean.
    pub fn from_raw(bits: u64) -> (s: Self)
        ensures
            s.value() == bits,
    {
        BitEnum { data: bits }
    }

    /// Appends the backing integer to `out` in `width` bytes, or leaves
    /// `out` as it is when the integer does not fit that width.
    pub fn encode(&self, width: Width, out: &mut Vec<u8>) -> (r: Result<(), ValueMismatch>)
        ensures
            match r {
                Ok(_) => {
                    &&& width.holds(self.value() as nat)
                    &&& final(out)@ == old(out)@ + le_bytes(self.value() as nat, width.octets())
                },
                Err(_) => !width.holds(self.value() as nat) && final(out)@ == old(out)@,
            },
    {
        if !width.fits(self.data) {
            return Err(ValueMismatch);
        }
        write_uint(out, self.data, width);
        Ok(())
    }

    /// Reads a backing integer of `width` bytes. No bit is held against a
    /// flag table here. Fails with `TruncatedInput`, consuming nothing,
    /// when fewer bytes are unread.
    pub fn decode(width: Width, r: &mut ByteReader) -> (res: Result<BitEnum, FieldError>)
        ensures
            match res {
                Ok(s) => {
                    &&& uint_at(old(r)@, width) == Some(s.value() as nat)
                    &&& final(r)@ == old(r)@.skip(width.octets() as int)
                },
                Err(e) => {
                    &&& uint_at(old(r)@, width) is None
                    &&& e == FieldError::TruncatedInput
                    &&& final(r)@ == old(r)@
                },
            },
    {
        match read_uint(r, width) {
            Ok(bits) => Ok(BitEnum { data: bits }),
            Err(e) => Err(e),
        }
    }
}

impl Default for BitEnum {
    /// The empty set.
    fn default() -> (s: Self)
        ensures
            s.value() == 0,
    {
        BitEnum { data: 0 }
    }
}

} // verus!
