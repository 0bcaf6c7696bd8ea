//! Commands and their descriptors.
//!
//! A [`CommandDescriptor`] is the shape of one command: identifier, type
//! tag and the codecs of its fields in declaration order. A [`Command`] is
//! a realized command: the values of the fields, each one that its codec
//! writes.

use crate::error::CommandError;
use crate::field::{
    lemma_field_round_trip, lemma_parse_fits, FieldKind, FieldModel, FieldValue,
};
use crate::integer::IntValue;
use crate::reader::ByteReader;
use vstd::prelude::*;
use vstd::slice::slice_to_vec;

verus! {

/// The shape of one command.
#[derive(Clone, Debug, PartialEq, Eq)]
pub struct CommandDescriptor {
    pub name: String,
    pub id: IntValue,
    pub type_tag: IntValue,
    pub fields: Vec<FieldKind>,
}

/// The mathematical content of a [`CommandDescriptor`].
pub struct DescriptorModel {
    pub name: Seq<char>,
    pub id: IntValue,
    pub type_tag: IntValue,
    pub fields: Seq<FieldKind>,
}

impl View for CommandDescriptor {
    type V = DescriptorModel;

    open spec fn view(&self) -> DescriptorModel {
        DescriptorModel {
            name: self.name@,
            id: self.id,
            type_tag: self.type_tag,
            fields: self.fields@,
        }
    }
}

/// A realized command.
#[derive(Debug, PartialEq, Eq)]
pub struct Command {
    name: String,
    id: IntValue,
    type_tag: IntValue,
    kinds: Vec<FieldKind>,
    values: Vec<FieldValue>,
}

/// The mathematical content of a [`Command`].
pub struct CommandModel {
    pub name: Seq<char>,
    pub id: IntValue,
    pub type_tag: IntValue,
    pub kinds: Seq<FieldKind>,
    pub values: Seq<FieldModel>,
}

/// The contents of `values`, one by one.
pub open spec fn models(values: Seq<FieldValue>) -> Seq<FieldModel> {
    values.map_values(|v: FieldValue| v@)
}

/// The payload of the fields: each value as its codec lays it out, in
/// declaration order. Empty for no fields.
pub open spec fn payload_bytes(kinds: Seq<FieldKind>, values: Seq<FieldModel>) -> Seq<u8>
    decreases kinds.len(),
{
    if kinds.len() == 0 {
        Seq::empty()
    } else {
        payload_bytes(kinds.drop_last(), values.drop_last()) + kinds.last().wire_bytes(
            values.last(),
        )
    }
}

/// What decoding the first `count` fields makes of the unread bytes `s`:
/// their values and the number of bytes they occupy, or the failure of the
/// first field that fails, with its index.
pub open spec fn parse_fields(kinds: Seq<FieldKind>, s: Seq<u8>, count: nat) -> Result<
    (Seq<FieldModel>, nat),
    CommandError,
>
    decreases count,
{
    if count == 0 {
        Ok((Seq::empty(), 0))
    } else {
        let index = (count - 1) as nat;
        match parse_fields(kinds, s, index) {
            Err(e) => Err(e),
            Ok((values, used)) => match kinds[index as int].parse(s.skip(used as int)) {
                Err(cause) => Err(
                    CommandError::FieldDecodeFailure { index: index as usize, cause },
                ),
                Ok((v, n)) => Ok((values.push(v), used + n)),
            },
        }
    }
}

/// The index of the first of the first `count` values that its codec does
/// not write.
pub open spec fn first_misfit(kinds: Seq<FieldKind>, values: Seq<FieldModel>, count: nat) -> Option<
    nat,
>
    decreases count,
{
    if count == 0 {
        None
    } else {
        let index = (count - 1) as nat;
        match first_misfit(kinds, values, index) {
            Some(i) => Some(i),
            None => if kinds[index as int].fits(values[index as int]) {
                None
            } else {
                Some(index)
            },
        }
    }
}

/// Why `values` do not make a command of the shape `kinds`, if they do not:
/// their number differs, or one of them is not written by its codec.
pub open spec fn shape_error(kinds: Seq<FieldKind>, values: Seq<FieldModel>) -> Option<
    CommandError,
> {
    if kinds.len() != values.len() {
        Some(
            CommandError::FieldCount {
                expected: kinds.len() as usize,
                found: values.len() as usize,
            },
        )
    } else {
        match first_misfit(kinds, values, kinds.len()) {
            Some(i) => Some(CommandError::ValueMismatch { index: i as usize }),
            None => None,
        }
    }
}

impl CommandModel {
    /// There is one value for each declared field, and each is one that its
    /// codec writes.
    pub open spec fn wf(self) -> bool {
        &&& self.kinds.len() == self.values.len()
        &&& forall|i: int|
            0 <= i < self.kinds.len() ==> (#[trigger] self.kinds[i]).fits(self.values[i])
    }

    /// The payload bytes of the command.
    pub open spec fn payload(self) -> Seq<u8> {
        payload_bytes(self.kinds, self.values)
    }
}

/// No value among the first `count` misfits exactly when each of them is
/// one that its codec writes; a misfit that is found is the first.
pub proof fn lemma_first_misfit(kinds: Seq<FieldKind>, values: Seq<FieldModel>, count: nat)
    ensures
        match first_misfit(kinds, values, count) {
            None => forall|i: int| 0 <= i < count ==> (#[trigger] kinds[i]).fits(values[i]),
            Some(k) => {
                &&& k < count
                &&& !kinds[k as int].fits(values[k as int])
                &&& forall|i: int| 0 <= i < k ==> (#[trigger] kinds[i]).fits(values[i])
            },
        },
    decreases count,
{
    if count > 0 {
        lemma_first_misfit(kinds, values, (count - 1) as nat);
    }
}

/// A misfit that is the first among some values stays the first among
/// more.
proof fn lemma_first_misfit_stays(
    kinds: Seq<FieldKind>,
    values: Seq<FieldModel>,
    count: nat,
    more: nat,
)
    requires
        count <= more,
        first_misfit(kinds, values, count) is Some,
    ensures
        first_misfit(kinds, values, more) == first_misfit(kinds, values, count),
    decreases more,
{
    if count < more {
        lemma_first_misfit_stays(kinds, values, count, (more - 1) as nat);
    }
}

/// A failure among the first fields is the failure of the whole payload.
proof fn lemma_parse_fields_stays(kinds: Seq<FieldKind>, s: Seq<u8>, count: nat, more: nat)
    requires
        count <= more,
        parse_fields(kinds, s, count) is Err,
    ensures
        parse_fields(kinds, s, more) == parse_fields(kinds, s, count),
    decreases more,
{
    if count < more {
        lemma_parse_fields_stays(kinds, s, count, (more - 1) as nat);
    }
}

/// The bytes of the fields from index `from` on, followed by `rest`.
spec fn tail_from(kinds: Seq<FieldKind>, values: Seq<FieldModel>, rest: Seq<u8>, from: nat) -> Seq<
    u8,
>
    decreases kinds.len() - from,
{
    if from >= kinds.len() {
        rest
    } else {
        kinds[from as int].wire_bytes(values[from as int]) + tail_from(
            kinds,
            values,
            rest,
            from + 1,
        )
    }
}

/// The payload of the first `i + 1` fields is that of the first `i`
/// followed by the bytes of field `i`.
proof fn lemma_payload_step(kinds: Seq<FieldKind>, values: Seq<FieldModel>, i: int)
    requires
        0 <= i < kinds.len(),
        kinds.len() == values.len(),
    ensures
        payload_bytes(kinds.take(i + 1), values.take(i + 1)) == payload_bytes(
            kinds.take(i),
            values.take(i),
        ) + kinds[i].wire_bytes(values[i]),
{
    let k1 = kinds.take(i + 1);
    let v1 = values.take(i + 1);
    assert(k1.drop_last() =~= kinds.take(i));
    assert(v1.drop_last() =~= values.take(i));
    assert(k1.last() == kinds[i]);
    assert(v1.last() == values[i]);
}

proof fn lemma_payload_split(
    kinds: Seq<FieldKind>,
    values: Seq<FieldModel>,
    rest: Seq<u8>,
    i: nat,
)
    requires
        i <= kinds.len(),
        kinds.len() == values.len(),
    ensures
        payload_bytes(kinds, values) + rest == payload_bytes(
            kinds.take(i as int),
            values.take(i as int),
        ) + tail_from(kinds, values, rest, i),
    decreases kinds.len() - i,
{
    if i == kinds.len() {
        assert(kinds.take(i as int) =~= kinds);
        assert(values.take(i as int) =~= values);
    } else {
        lemma_payload_split(kinds, values, rest, i + 1);
        lemma_payload_step(kinds, values, i as int);
        let head = payload_bytes(kinds.take(i as int), values.take(i as int));
        let mid = kinds[i as int].wire_bytes(values[i as int]);
        let tail = tail_from(kinds, values, rest, i + 1);
        assert((head + mid) + tail =~= head + (mid + tail));
    }
}

proof fn lemma_payload_prefix(c: CommandModel, rest: Seq<u8>, i: nat)
    requires
        c.wf(),
        i <= c.kinds.len(),
    ensures
        parse_fields(c.kinds, c.payload() + rest, i) == Ok::<_, CommandError>(
            (
                c.values.take(i as int),
                payload_bytes(c.kinds.take(i as int), c.values.take(i as int)).len(),
            ),
        ),
    decreases i,
{
    let s = c.payload() + rest;
    if i == 0 {
        assert(c.values.take(0) =~= Seq::<FieldModel>::empty());
        assert(c.kinds.take(0) =~= Seq::<FieldKind>::empty());
    } else {
        let j = (i - 1) as nat;
        lemma_payload_prefix(c, rest, j);
        lemma_payload_split(c.kinds, c.values, rest, j);
        lemma_payload_step(c.kinds, c.values, j as int);
        let head = payload_bytes(c.kinds.take(j as int), c.values.take(j as int));
        let after = tail_from(c.kinds, c.values, rest, i);
        let kind = c.kinds[j as int];
        let value = c.values[j as int];
        assert(s.skip(head.len() as int) =~= kind.wire_bytes(value) + after);
        lemma_field_round_trip(kind, value, after);
        assert(c.values.take(j as int).push(value) =~= c.values.take(i as int));
    }
}

/// Round trip of a payload: decoding the fields from what `encode_data`
/// wrote, whatever follows it, gives every value back and consumes exactly
/// the payload.
pub proof fn lemma_payload_round_trip(c: CommandModel, rest: Seq<u8>)
    requires
        c.wf(),
    ensures
        parse_fields(c.kinds, c.payload() + rest, c.kinds.len()) == Ok::<_, CommandError>(
            (c.values, c.payload().len()),
        ),
{
    lemma_payload_prefix(c, rest, c.kinds.len());
    assert(c.values.take(c.kinds.len() as int) =~= c.values);
    assert(c.kinds.take(c.kinds.len() as int) =~= c.kinds);
}

impl Clone for Command {
    fn clone(&self) -> (copy: Self)
        ensures
            copy@ == self@,
    {
        proof {
            use_type_invariant(self);
        }
        let n = self.values.len();
        let mut values: Vec<FieldValue> = Vec::new();
        let mut i: usize = 0;
        while i < n
            invariant
                i <= n,
                n == self.values@.len(),
                models(values@) == models(self.values@).take(i as int),
            decreases n - i,
        {
            let ghost before = models(values@);
            let v = self.values[i].clone();
            values.push(v);
            assert(models(values@) =~= before.push(v@));
            assert(models(self.values@).take(i + 1) =~= models(self.values@).take(i as int).push(
                self.values@[i as int]@,
            ));
            i = i + 1;
        }
        assert(models(self.values@).take(n as int) =~= models(self.values@));
        Command {
            name: self.name.clone(),
            id: self.id,
            type_tag: self.type_tag,
            kinds: slice_to_vec(self.kinds.as_slice()),
            values,
        }
    }
}

impl View for Command {
    type V = CommandModel;

    closed spec fn view(&self) -> CommandModel {
        CommandModel {
            name: self.name@,
            id: self.id,
            type_tag: self.type_tag,
            kinds: self.kinds@,
            values: models(self.values@),
        }
    }
}

impl Command {
    /// Every command is well formed.
    #[verifier::type_invariant]
    pub open spec fn inv(self) -> bool {
        self@.wf()
    }

    /// The command of shape `descriptor` with the given field values, in
    /// declaration order. Fails when their number differs from the number
    /// of declared fields, and else on the first value that its codec does
    /// not write.
    pub fn new(descriptor: &CommandDescriptor, values: Vec<FieldValue>) -> (r: Result<
        Command,
        CommandError,
    >)
        ensures
            match r {
                Ok(c) => {
                    &&& shape_error(descriptor.fields@, models(values@)) is None
                    &&& c@ == CommandModel {
                        name: descriptor.name@,
                        id: descriptor.id,
                        type_tag: descriptor.type_tag,
                        kinds: descriptor.fields@,
                        values: models(values@),
                    }
                    &&& c@.wf()
                },
                Err(e) => shape_error(descriptor.fields@, models(values@)) == Some(e),
            },
    {
        let n = descriptor.fields.len();
        if n != values.len() {
            return Err(CommandError::FieldCount { expected: n, found: values.len() });
        }
        let mut i: usize = 0;
        while i < n
            invariant
                i <= n,
                n == descriptor.fields@.len(),
                n == values@.len(),
                first_misfit(descriptor.fields@, models(values@), i as nat) is None,
            decreases n - i,
        {
            if !descriptor.fields[i].accepts(&values[i]) {
                proof {
                    lemma_first_misfit_stays(
                        descriptor.fields@,
                        models(values@),
                        (i + 1) as nat,
                        n as nat,
                    );
                }
                return Err(CommandError::ValueMismatch { index: i });
            }
            i = i + 1;
        }
        proof {
            lemma_first_misfit(descriptor.fields@, models(values@), n as nat);
        }
        Ok(
            Command {
                name: descriptor.name.clone(),
                id: descriptor.id,
                type_tag: descriptor.type_tag,
                kinds: slice_to_vec(descriptor.fields.as_slice()),
                values,
            },
        )
    }

    /// Reads the payload of a command of shape `descriptor`: its fields in
    /// declaration order. Fails on the first field that fails to decode,
    /// with its index, and then consumes nothing.
    pub fn decode(descriptor: &CommandDescriptor, r: &mut ByteReader) -> (res: Result<
        Command,
        CommandError,
    >)
        ensures
            match res {
                Ok(c) => {
                    &&& parse_fields(descriptor.fields@, old(r)@, descriptor.fields@.len())
                        matches Ok((values, n))
                    &&& c@ == CommandModel {
                        name: descriptor.name@,
                        id: descriptor.id,
                        type_tag: descriptor.type_tag,
                        kinds: descriptor.fields@,
                        values,
                    }
                    &&& c@.wf()
                    &&& n <= old(r)@.len()
                    &&& final(r)@ == old(r)@.skip(n as int)
                },
                Err(e) => {
                    &&& parse_fields(descriptor.fields@, old(r)@, descriptor.fields@.len())
                        == Err::<(Seq<FieldModel>, nat), _>(e)
                    &&& final(r)@ == old(r)@
                },
            },
    {
        let ghost kinds = descriptor.fields@;
        let ghost s = r@;
        let n = descriptor.fields.len();
        let mut cur = *r;
        let mut values: Vec<FieldValue> = Vec::new();
        let mut i: usize = 0;
        let ghost used: nat = 0;
        assert(models(values@) =~= Seq::<FieldModel>::empty());
        assert(cur@ =~= s.skip(0));
        while i < n
            invariant
                i <= n,
                n == kinds.len(),
                kinds == descriptor.fields@,
                r@ == s,
                parse_fields(kinds, s, i as nat) == Ok::<_, CommandError>((models(values@), used)),
                cur@ == s.skip(used as int),
                used <= s.len(),
                values@.len() == i,
                forall|j: int| 0 <= j < i ==> (#[trigger] kinds[j]).fits(models(values@)[j]),
            decreases n - i,
        {
            let ghost before = models(values@);
            proof {
                lemma_parse_fits(kinds[i as int], cur@);
            }
            match descriptor.fields[i].decode(&mut cur) {
                Ok(v) => {
                    proof {
                        let m = kinds[i as int].parse(s.skip(used as int))->Ok_0.1;
                        assert(s.skip(used as int).skip(m as int) =~= s.skip((used + m) as int));
                        used = used + m;
                    }
                    values.push(v);
                    assert(models(values@) =~= before.push(v@));
                },
                Err(cause) => {
                    proof {
                        assert(kinds[i as int].parse(s.skip(used as int)) == Err::<
                            (FieldModel, nat),
                            _,
                        >(cause));
                        assert(parse_fields(kinds, s, (i + 1) as nat) == Err::<
                            (Seq<FieldModel>, nat),
                            _,
                        >(CommandError::FieldDecodeFailure { index: i, cause }));
                        lemma_parse_fields_stays(kinds, s, (i + 1) as nat, n as nat);
                    }
                    return Err(CommandError::FieldDecodeFailure { index: i, cause });
                },
            }
            i = i + 1;
        }
        *r = cur;
        Ok(
            Command {
                name: descriptor.name.clone(),
                id: descriptor.id,
                type_tag: descriptor.type_tag,
                kinds: slice_to_vec(descriptor.fields.as_slice()),
                values,
            },
        )
    }

    /// The name of the command.
    pub fn to_string(&self) -> (name: String)
        ensures
            name@ == self@.name,
    {
        self.name.clone()
    }

    /// The identifier of the command.
    pub fn get_id(&self) -> (id: IntValue)
        ensures
            id == self@.id,
    {
        self.id
    }

    /// The type tag of the command.
    pub fn get_type(&self) -> (t: IntValue)
        ensures
            t == self@.type_tag,
    {
        self.type_tag
    }

    /// The codecs of the fields, in declaration order.
    pub fn kinds(&self) -> (k: &[FieldKind])
        ensures
            k@ == self@.kinds,
    {
        self.kinds.as_slice()
    }

    /// The values of the fields, in declaration order.
    pub fn values(&self) -> (v: &[FieldValue])
        ensures
            models(v@) == self@.values,
            self@.wf(),
    {
        proof {
            use_type_invariant(self);
        }
        self.values.as_slice()
    }

    /// The payload: every field in declaration order, each as its codec
    /// lays it out. A command without fields has an empty payload.
    pub fn encode_data(&self) -> (out: Vec<u8>)
        ensures
            out@ == self@.payload(),
    {
        let mut out: Vec<u8> = Vec::new();
        self.encode_data_into(&mut out);
        out
    }

    /// Appends the payload to `out`.
    pub fn encode_data_into(&self, out: &mut Vec<u8>)
        ensures
            final(out)@ == old(out)@ + self@.payload(),
    {
        proof {
            use_type_invariant(self);
        }
        let ghost before = out@;
        let ghost kinds = self.kinds@;
        let ghost values = models(self.values@);
        let n = self.kinds.len();
        let mut i: usize = 0;
        assert(payload_bytes(kinds.take(0), values.take(0)) =~= Seq::<u8>::empty());
        while i < n
            invariant
                i <= n,
                n == self.kinds@.len(),
                n == self.values@.len(),
                kinds == self.kinds@,
                values == models(self.values@),
                self@.wf(),
                self@.kinds == kinds,
                self@.values == values,
                out@ == before + payload_bytes(kinds.take(i as int), values.take(i as int)),
            decreases n - i,
        {
            let ghost step = out@;
            assert(kinds[i as int].fits(values[i as int]));
            match self.kinds[i].encode(&self.values[i], out) {
                Ok(_) => {},
                Err(_) => {},
            }
            proof {
                let k1 = kinds.take(i + 1);
                let v1 = values.take(i + 1);
                assert(k1.drop_last() =~= kinds.take(i as int));
                assert(v1.drop_last() =~= values.take(i as int));
                assert(k1.last() == kinds[i as int]);
                assert(v1.last() == values[i as int]);
                assert(out@ =~= before + payload_bytes(k1, v1));
            }
            i = i + 1;
        }
        assert(kinds.take(n as int) =~= kinds);
        assert(values.take(n as int) =~= values);
    }
}

} // verus!
