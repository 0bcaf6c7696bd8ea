//! The command catalogue: the dispatch table from identifiers to payload
//! shapes, together with the header layout that all its commands share.
//!
//! A catalogue is validated once, when it is set up: identifiers are unique,
//! every identifier and type tag is of the catalogue's kind, and the two
//! header ranks differ. After that it only reads.

use crate::command::{
    lemma_payload_round_trip, models, parse_fields, Command, CommandDescriptor, CommandModel,
    DescriptorModel,
};
use crate::error::{CommandError, ConfigurationConflict};
use crate::field::FieldValue;
use crate::header::{lemma_header_round_trip, HeaderOrder, HeaderPolicy};
use crate::integer::{IntKind, IntValue};
use crate::reader::ByteReader;
use vstd::prelude::*;

verus! {

/// A validated set of command descriptors with one identifier type, one
/// type-tag type and one header layout.
#[derive(Debug)]
pub struct Catalogue {
    id_kind: IntKind,
    type_kind: IntKind,
    order: HeaderOrder,
    descriptors: Vec<CommandDescriptor>,
}

/// The mathematical content of a [`Catalogue`].
pub struct CatalogueModel {
    pub id_kind: IntKind,
    pub type_kind: IntKind,
    pub order: HeaderOrder,
    pub descriptors: Seq<DescriptorModel>,
}

/// The contents of `descriptors`, one by one.
pub open spec fn descriptor_models(descriptors: Seq<CommandDescriptor>) -> Seq<DescriptorModel> {
    descriptors.map_values(|d: CommandDescriptor| d@)
}

/// The index of the first of the first `count` descriptors whose identifier
/// is `id`.
pub open spec fn find_id(descriptors: Seq<DescriptorModel>, id: IntValue, count: nat) -> Option<
    nat,
>
    decreases count,
{
    if count == 0 {
        None
    } else {
        let index = (count - 1) as nat;
        match find_id(descriptors, id, index) {
            Some(k) => Some(k),
            None => if descriptors[index as int].id == id {
                Some(index)
            } else {
                None
            },
        }
    }
}

/// What rules out the descriptor at `index`, given those before it: an
/// identifier or a type tag of the wrong kind, or an identifier that an
/// earlier descriptor has.
pub open spec fn conflict_at(m: CatalogueModel, index: nat) -> Option<ConfigurationConflict> {
    let d = m.descriptors[index as int];
    if d.id.spec_kind() != m.id_kind {
        Some(ConfigurationConflict::IdentifierKind { index: index as usize })
    } else if d.type_tag.spec_kind() != m.type_kind {
        Some(ConfigurationConflict::TypeTagKind { index: index as usize })
    } else {
        match find_id(m.descriptors, d.id, index) {
            Some(first) => Some(
                ConfigurationConflict::DuplicateId {
                    first: first as usize,
                    second: index as usize,
                },
            ),
            None => None,
        }
    }
}

/// The conflict of the first descriptor, among the first `count`, that has
/// one.
pub open spec fn first_conflict(m: CatalogueModel, count: nat) -> Option<ConfigurationConflict>
    decreases count,
{
    if count == 0 {
        None
    } else {
        match first_conflict(m, (count - 1) as nat) {
            Some(c) => Some(c),
            None => conflict_at(m, (count - 1) as nat),
        }
    }
}

/// What is wrong with a catalogue that is about to be set up, if anything:
/// equal header ranks first, then the first descriptor with a conflict.
pub open spec fn setup_conflict(
    id_kind: IntKind,
    type_kind: IntKind,
    policy: HeaderPolicy,
    descriptors: Seq<DescriptorModel>,
) -> Option<ConfigurationConflict> {
    match policy.spec_order() {
        Err(c) => Some(c),
        Ok(order) => first_conflict(
            CatalogueModel { id_kind, type_kind, order, descriptors },
            descriptors.len(),
        ),
    }
}

/// Whether the first `count` descriptors are of the catalogue's kinds and
/// have identifiers of their own.
pub open spec fn well_formed_up_to(m: CatalogueModel, count: nat) -> bool {
    &&& forall|i: int|
        0 <= i < count ==> {
            &&& (#[trigger] m.descriptors[i]).id.spec_kind() == m.id_kind
            &&& m.descriptors[i].type_tag.spec_kind() == m.type_kind
        }
    &&& forall|i: int, j: int|
        0 <= i < j < count ==> (#[trigger] m.descriptors[i]).id != (#[trigger] m.descriptors[j]).id
}

impl CatalogueModel {
    /// Every identifier and type tag is of the catalogue's kind, and no two
    /// descriptors share an identifier.
    pub open spec fn wf(self) -> bool {
        well_formed_up_to(self, self.descriptors.len())
    }

    /// The index of the descriptor with identifier `id`.
    pub open spec fn position(self, id: IntValue) -> Option<nat> {
        find_id(self.descriptors, id, self.descriptors.len())
    }

    /// Whether `c` is a command of this catalogue: a descriptor has its
    /// identifier, and that descriptor's type tag and field codecs are its
    /// own.
    pub open spec fn describes(self, c: CommandModel) -> bool {
        match self.position(c.id) {
            Some(k) => {
                &&& self.descriptors[k as int].name == c.name
                &&& self.descriptors[k as int].type_tag == c.type_tag
                &&& self.descriptors[k as int].fields == c.kinds
            },
            None => false,
        }
    }

    /// What decoding by identifier makes of the unread bytes `s`: the
    /// command and the number of bytes of its payload, `UnknownCommandId`
    /// when no descriptor has the identifier, or the failure of the first
    /// field that fails.
    pub open spec fn parse_by_id(self, id: IntValue, s: Seq<u8>) -> Result<
        (CommandModel, nat),
        CommandError,
    > {
        match self.position(id) {
            None => Err(CommandError::UnknownCommandId(id)),
            Some(k) => {
                let d = self.descriptors[k as int];
                match parse_fields(d.fields, s, d.fields.len()) {
                    Err(e) => Err(e),
                    Ok((values, n)) => Ok(
                        (
                            CommandModel {
                                name: d.name,
                                id: d.id,
                                type_tag: d.type_tag,
                                kinds: d.fields,
                                values,
                            },
                            n,
                        ),
                    ),
                }
            },
        }
    }

    /// The bytes of a whole command: header, then payload.
    pub open spec fn bytes(self, c: CommandModel) -> Seq<u8> {
        self.order.bytes(c.id, c.type_tag) + c.payload()
    }

    /// What decoding a whole command makes of the unread bytes `s`: the
    /// header is read first; without an identifier from it there is nothing
    /// to dispatch on; else the payload is decoded by that identifier.
    pub open spec fn parse(self, s: Seq<u8>) -> Result<(CommandModel, nat), CommandError> {
        let header = self.order.parse(self.id_kind, self.type_kind, s);
        match header.0 {
            None => Err(CommandError::MissingIdentifier),
            Some(id) => match self.parse_by_id(id, s.skip(header.2 as int)) {
                Err(e) => Err(e),
                Ok((c, n)) => Ok((c, header.2 + n)),
            },
        }
    }
}

/// `find_id` finds nothing exactly when none of the first `count`
/// descriptors has the identifier; what it finds is the first that has it.
pub proof fn lemma_find_id(descriptors: Seq<DescriptorModel>, id: IntValue, count: nat)
    ensures
        match find_id(descriptors, id, count) {
            None => forall|i: int| 0 <= i < count ==> (#[trigger] descriptors[i]).id != id,
            Some(k) => {
                &&& k < count
                &&& descriptors[k as int].id == id
                &&& forall|i: int| 0 <= i < k ==> (#[trigger] descriptors[i]).id != id
            },
        },
    decreases count,
{
    if count > 0 {
        lemma_find_id(descriptors, id, (count - 1) as nat);
    }
}

/// A conflict among the first descriptors is the conflict of the whole
/// catalogue.
proof fn lemma_first_conflict_stays(m: CatalogueModel, count: nat, more: nat)
    requires
        count <= more,
        first_conflict(m, count) is Some,
    ensures
        first_conflict(m, more) == first_conflict(m, count),
    decreases more,
{
    if count < more {
        lemma_first_conflict_stays(m, count, (more - 1) as nat);
    }
}

/// Setup succeeds exactly on well-formed input: among the first `count`
/// descriptors there is no conflict exactly when each is of the catalogue's
/// kinds and no two share an identifier.
pub proof fn lemma_no_conflict_iff_well_formed(m: CatalogueModel, count: nat)
    requires
        count <= m.descriptors.len(),
    ensures
        first_conflict(m, count) is None <==> well_formed_up_to(m, count),
    decreases count,
{
    if count > 0 {
        let last = (count - 1) as nat;
        lemma_no_conflict_iff_well_formed(m, last);
        lemma_find_id(m.descriptors, m.descriptors[last as int].id, last);
        if well_formed_up_to(m, count) {
            assert(well_formed_up_to(m, last));
            assert(conflict_at(m, last) is None);
        }
        if first_conflict(m, count) is None {
            assert(well_formed_up_to(m, count));
        }
    }
}

/// Unknown identifier: decoding by an identifier that no descriptor has
/// fails with `UnknownCommandId`, whatever the bytes.
pub proof fn lemma_unknown_id(m: CatalogueModel, id: IntValue, s: Seq<u8>)
    requires
        forall|i: int| 0 <= i < m.descriptors.len() ==> (#[trigger] m.descriptors[i]).id != id,
    ensures
        m.parse_by_id(id, s) == Err::<(CommandModel, nat), _>(CommandError::UnknownCommandId(id)),
{
    lemma_find_id(m.descriptors, id, m.descriptors.len());
}

/// Round trip by identifier: decoding the payload that `encode_data` wrote
/// for a command of the catalogue, by the command's identifier and whatever
/// follows the payload, gives the command back and consumes exactly the
/// payload.
pub proof fn lemma_decode_by_id_round_trip(m: CatalogueModel, c: CommandModel, rest: Seq<u8>)
    requires
        c.wf(),
        m.describes(c),
    ensures
        m.parse_by_id(c.id, c.payload() + rest) == Ok::<_, CommandError>((c, c.payload().len())),
{
    lemma_find_id(m.descriptors, c.id, m.descriptors.len());
    lemma_payload_round_trip(c, rest);
}

/// Round trip: decoding what `encode` wrote for a command of the
/// catalogue, whatever follows it, gives the command back and consumes
/// exactly what was written, provided the header carries the identifier.
pub proof fn lemma_command_round_trip(m: CatalogueModel, c: CommandModel, rest: Seq<u8>)
    requires
        m.wf(),
        c.wf(),
        m.describes(c),
        m.order.spec_has_id(),
    ensures
        m.parse(m.bytes(c) + rest) == Ok::<_, CommandError>((c, m.bytes(c).len())),
{
    lemma_find_id(m.descriptors, c.id, m.descriptors.len());
    let header = m.order.bytes(c.id, c.type_tag);
    let s = m.bytes(c) + rest;
    assert(s =~= header + (c.payload() + rest));
    lemma_header_round_trip(m.order, c.id, c.type_tag, c.payload() + rest);
    assert(s.skip(header.len() as int) =~= c.payload() + rest);
    lemma_decode_by_id_round_trip(m, c, rest);
}

impl View for Catalogue {
    type V = CatalogueModel;

    closed spec fn view(&self) -> CatalogueModel {
        CatalogueModel {
            id_kind: self.id_kind,
            type_kind: self.type_kind,
            order: self.order,
            descriptors: descriptor_models(self.descriptors@),
        }
    }
}

impl Catalogue {
    /// Every catalogue is well formed.
    #[verifier::type_invariant]
    pub open spec fn inv(self) -> bool {
        self@.wf()
    }

    /// Sets up a catalogue. Fails with the conflict that
    /// [`setup_conflict`] names: equal header ranks, or the first descriptor
    /// whose identifier or type tag is of the wrong kind or whose identifier
    /// is taken.
    pub fn new(
        id_kind: IntKind,
        type_kind: IntKind,
        policy: HeaderPolicy,
        descriptors: Vec<CommandDescriptor>,
    ) -> (r: Result<Catalogue, ConfigurationConflict>)
        ensures
            match r {
                Ok(cat) => {
                    &&& setup_conflict(id_kind, type_kind, policy, descriptor_models(descriptors@))
                        is None
                    &&& policy.spec_order() matches Ok(order)
                    &&& cat@ == CatalogueModel {
                        id_kind,
                        type_kind,
                        order,
                        descriptors: descriptor_models(descriptors@),
                    }
                    &&& cat@.wf()
                },
                Err(c) => setup_conflict(
                    id_kind,
                    type_kind,
                    policy,
                    descriptor_models(descriptors@),
                ) == Some(c),
            },
    {
        let order = match policy.order() {
            Ok(order) => order,
            Err(c) => {
                return Err(c);
            },
        };
        let ghost m = CatalogueModel {
            id_kind,
            type_kind,
            order,
            descriptors: descriptor_models(descriptors@),
        };
        let n = descriptors.len();
        let mut i: usize = 0;
        while i < n
            invariant
                i <= n,
                n == descriptors@.len(),
                policy.spec_order() == Ok::<_, ConfigurationConflict>(order),
                m == (CatalogueModel {
                    id_kind,
                    type_kind,
                    order,
                    descriptors: descriptor_models(descriptors@),
                }),
                first_conflict(m, i as nat) is None,
            decreases n - i,
        {
            let d = &descriptors[i];
            assert(m.descriptors[i as int] == d@);
            if d.id.kind() != id_kind {
                proof {
                    lemma_first_conflict_stays(m, (i + 1) as nat, n as nat);
                }
                return Err(ConfigurationConflict::IdentifierKind { index: i });
            }
            if d.type_tag.kind() != type_kind {
                proof {
                    lemma_first_conflict_stays(m, (i + 1) as nat, n as nat);
                }
                return Err(ConfigurationConflict::TypeTagKind { index: i });
            }
            match find_in(descriptors.as_slice(), d.id, i) {
                Some(first) => {
                    proof {
                        lemma_first_conflict_stays(m, (i + 1) as nat, n as nat);
                    }
                    return Err(ConfigurationConflict::DuplicateId { first, second: i });
                },
                None => {},
            }
            i = i + 1;
        }
        proof {
            lemma_no_conflict_iff_well_formed(m, n as nat);
        }
        Ok(Catalogue { id_kind, type_kind, order, descriptors })
    }

    /// The type of the identifiers.
    pub fn id_kind(&self) -> (k: IntKind)
        ensures
            k == self@.id_kind,
    {
        self.id_kind
    }

    /// The type of the type tags.
    pub fn type_kind(&self) -> (k: IntKind)
        ensures
            k == self@.type_kind,
    {
        self.type_kind
    }

    /// What the header holds, in order.
    pub fn order(&self) -> (o: HeaderOrder)
        ensures
            o == self@.order,
    {
        self.order
    }

    /// The descriptors, in the order in which they were given.
    pub fn descriptors(&self) -> (d: &[CommandDescriptor])
        ensures
            descriptor_models(d@) == self@.descriptors,
            self@.wf(),
    {
        proof {
            use_type_invariant(self);
        }
        self.descriptors.as_slice()
    }

    /// The descriptor with identifier `id`, if the catalogue has one.
    pub fn descriptor(&self, id: IntValue) -> (d: Option<&CommandDescriptor>)
        ensures
            match d {
                Some(d) => self@.position(id) matches Some(k) && self@.descriptors[k as int] == d@,
                None => self@.position(id) is None,
            },
    {
        match find_in(self.descriptors.as_slice(), id, self.descriptors.len()) {
            Some(k) => {
                let d = &self.descriptors[k];
                assert(self@.descriptors[k as int] == d@);
                Some(d)
            },
            None => None,
        }
    }

    /// The command with identifier `id` and the given field values. Fails
    /// with `UnknownCommandId` when no descriptor has the identifier, and
    /// else as [`Command::new`] does.
    pub fn command(&self, id: IntValue, values: Vec<FieldValue>) -> (r: Result<
        Command,
        CommandError,
    >)
        ensures
            match r {
                Ok(c) => {
                    &&& self@.position(id) matches Some(k)
                    &&& crate::command::shape_error(
                        self@.descriptors[k as int].fields,
                        models(values@),
                    ) is None
                    &&& c@ == CommandModel {
                        name: self@.descriptors[k as int].name,
                        id,
                        type_tag: self@.descriptors[k as int].type_tag,
                        kinds: self@.descriptors[k as int].fields,
                        values: models(values@),
                    }
                    &&& c@.wf()
                    &&& self@.describes(c@)
                },
                Err(e) => match self@.position(id) {
                    None => e == CommandError::UnknownCommandId(id),
                    Some(k) => crate::command::shape_error(
                        self@.descriptors[k as int].fields,
                        models(values@),
                    ) == Some(e),
                },
            },
    {
        proof {
            lemma_find_id(self@.descriptors, id, self@.descriptors.len());
        }
        match self.descriptor(id) {
            None => Err(CommandError::UnknownCommandId(id)),
            Some(d) => Command::new(d, values),
        }
    }

    /// The header of `cmd` as this catalogue lays it out.
    pub fn encode_header(&self, cmd: &Command) -> (out: Vec<u8>)
        ensures
            out@ == self@.order.bytes(cmd@.id, cmd@.type_tag),
    {
        let mut out: Vec<u8> = Vec::new();
        self.order.encode(cmd.get_id(), cmd.get_type(), &mut out);
        out
    }

    /// Reads a header as this catalogue lays it out: the identifier and the
    /// type tag, each absent when the header does not carry it or the bytes
    /// for it are missing.
    pub fn decode_header(&self, r: &mut ByteReader) -> (res: (Option<IntValue>, Option<IntValue>))
        ensures
            res.0 == self@.order.parse(self@.id_kind, self@.type_kind, old(r)@).0,
            res.1 == self@.order.parse(self@.id_kind, self@.type_kind, old(r)@).1,
            self@.order.parse(self@.id_kind, self@.type_kind, old(r)@).2 <= old(r)@.len(),
            final(r)@ == old(r)@.skip(
                self@.order.parse(self@.id_kind, self@.type_kind, old(r)@).2 as int,
            ),
    {
        self.order.decode(self.id_kind, self.type_kind, r)
    }

    /// Decodes the payload of the command with identifier `id`. Fails with
    /// `UnknownCommandId` when no descriptor has the identifier, and else
    /// on the first field that fails to decode, with its index. Consumes
    /// nothing on failure.
    pub fn decode_by_id(&self, id: IntValue, r: &mut ByteReader) -> (res: Result<
        Command,
        CommandError,
    >)
        ensures
            match res {
                Ok(c) => {
                    &&& self@.parse_by_id(id, old(r)@) matches Ok((m, n))
                    &&& c@ == m
                    &&& c@.wf()
                    &&& self@.describes(c@)
                    &&& n <= old(r)@.len()
                    &&& final(r)@ == old(r)@.skip(n as int)
                },
                Err(e) => {
                    &&& self@.parse_by_id(id, old(r)@) == Err::<(CommandModel, nat), _>(e)
                    &&& final(r)@ == old(r)@
                },
            },
    {
        proof {
            lemma_find_id(self@.descriptors, id, self@.descriptors.len());
        }
        match self.descriptor(id) {
            None => Err(CommandError::UnknownCommandId(id)),
            Some(d) => Command::decode(d, r),
        }
    }

    /// The bytes of `cmd`: header, then payload.
    pub fn encode(&self, cmd: &Command) -> (out: Vec<u8>)
        ensures
            out@ == self@.bytes(cmd@),
    {
        let mut out: Vec<u8> = Vec::new();
        self.order.encode(cmd.get_id(), cmd.get_type(), &mut out);
        cmd.encode_data_into(&mut out);
        out
    }

    /// Decodes a whole command: the header, then the payload of the command
    /// that the header's identifier names. A type tag in the header is read
    /// and passed over: the command has the type tag of its descriptor.
    /// Fails with `MissingIdentifier` when the header yields no identifier,
    /// and else as [`Catalogue::decode_by_id`] does. Consumes nothing on
    /// failure.
    pub fn decode(&self, r: &mut ByteReader) -> (res: Result<Command, CommandError>)
        ensures
            match res {
                Ok(c) => {
                    &&& self@.parse(old(r)@) matches Ok((m, n))
                    &&& c@ == m
                    &&& c@.wf()
                    &&& self@.describes(c@)
                    &&& final(r)@ == old(r)@.skip(n as int)
                },
                Err(e) => {
                    &&& self@.parse(old(r)@) == Err::<(CommandModel, nat), _>(e)
                    &&& final(r)@ == old(r)@
                },
            },
    {
        let mut cur = *r;
        let (id, _) = self.decode_header(&mut cur);
        let ghost used = self@.order.parse(self@.id_kind, self@.type_kind, r@).2;
        match id {
            None => Err(CommandError::MissingIdentifier),
            Some(id) => match self.decode_by_id(id, &mut cur) {
                Ok(c) => {
                    proof {
                        let n = self@.parse_by_id(id, r@.skip(used as int))->Ok_0.1;
                        assert(r@.skip(used as int).skip(n as int) =~= r@.skip((used + n) as int));
                    }
                    *r = cur;
                    Ok(c)
                },
                Err(e) => Err(e),
            },
        }
    }
}

/// The index of the first of the first `count` descriptors whose identifier
/// is `id`.
fn find_in(descriptors: &[CommandDescriptor], id: IntValue, count: usize) -> (r: Option<usize>)
    requires
        count <= descriptors@.len(),
    ensures
        match r {
            Some(k) => k < count && find_id(descriptor_models(descriptors@), id, count as nat)
                == Some(k as nat),
            None => find_id(descriptor_models(descriptors@), id, count as nat) is None,
        },
{
    let ghost m = descriptor_models(descriptors@);
    let mut i: usize = 0;
    while i < count
        invariant
            i <= count,
            count <= descriptors@.len(),
            m == descriptor_models(descriptors@),
            find_id(m, id, i as nat) is None,
        decreases count - i,
    {
        assert(m[i as int] == descriptors@[i as int]@);
        if descriptors[i].id == id {
            proof {
                lemma_find_id_stays(m, id, (i + 1) as nat, count as nat);
            }
            return Some(i);
        }
        i = i + 1;
    }
    None
}

/// What was found among the first descriptors is what is found among more.
proof fn lemma_find_id_stays(descriptors: Seq<DescriptorModel>, id: IntValue, count: nat, more: nat)
    requires
        count <= more,
        find_id(descriptors, id, count) is Some,
    ensures
        find_id(descriptors, id, more) == find_id(descriptors, id, count),
    decreases more,
{
    if count < more {
        lemma_find_id_stays(descriptors, id, count, (more - 1) as nat);
    }
}

} // verus!
