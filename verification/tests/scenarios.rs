use mzsh_commandenum::bitenum::{BitEnum, BitEnumTrait, FlagTable};
use mzsh_commandenum::catalogue::Catalogue;
use mzsh_commandenum::command::CommandDescriptor;
use mzsh_commandenum::field::{FieldKind, FieldValue};
use mzsh_commandenum::header::HeaderPolicy;
use mzsh_commandenum::integer::{IntKind, IntValue};
use mzsh_commandenum::reader::ByteReader;
use mzsh_commandenum::wire::Width;

#[test]
fn two_flags_compose_and_decompose() {
    let a: u64 = 0x01;
    let b: u64 = 0x02;
    let table = FlagTable::new(&[a, b]).unwrap();
    let set = BitEnum::from_slice(&[a, b]);
    assert_eq!(set.get_val(), 0x03);
    let back = BitEnum::from_int(0x03, &table).unwrap();
    assert_eq!(back.to_vec(&table), Ok(vec![b, a]));
}

#[test]
fn ping_encodes_to_its_identifier() {
    let ping = CommandDescriptor {
        name: String::from("Ping"),
        id: IntValue::U8(1),
        type_tag: IntValue::U8(0),
        fields: vec![],
    };
    let policy = HeaderPolicy { id_rank: Some(1), type_rank: None };
    let cat = Catalogue::new(IntKind::U8, IntKind::U8, policy, vec![ping]).unwrap();
    let cmd = cat.command(IntValue::U8(1), vec![]).unwrap();
    assert_eq!(cat.encode(&cmd), vec![0x01]);
    assert_eq!(cmd.encode_data(), Vec::<u8>::new());
}

#[test]
fn short_blob_round_trip() {
    let kind = FieldKind::Blob(Width::One);
    let value = FieldValue::Bytes(b"hi".to_vec());
    let mut out = Vec::new();
    assert_eq!(kind.encode(&value, &mut out), Ok(()));
    assert_eq!(out, vec![0x02, b'h', b'i']);
    let mut reader = ByteReader::new(&out);
    assert_eq!(kind.decode(&mut reader), Ok(value));
    assert_eq!(reader.remaining(), 0);
}
