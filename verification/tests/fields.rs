use mzsh_commandenum::address::{AddrMode, AddrModeAddress};
use mzsh_commandenum::bitenum::BitEnum;
use mzsh_commandenum::error::{FieldError, ValueMismatch};
use mzsh_commandenum::field::{all_of_kind, free_of_zero, FieldKind, FieldValue};
use mzsh_commandenum::integer::{IntKind, IntValue};
use mzsh_commandenum::reader::ByteReader;
use mzsh_commandenum::wire::{read_uint, Width};

fn encoded(kind: FieldKind, value: &FieldValue) -> Vec<u8> {
    let mut out = Vec::new();
    assert_eq!(kind.encode(value, &mut out), Ok(()));
    out
}

fn decoded(kind: FieldKind, data: &[u8]) -> (Result<FieldValue, FieldError>, usize) {
    let mut reader = ByteReader::new(data);
    let result = kind.decode(&mut reader);
    (result, data.len() - reader.remaining())
}

fn assert_round_trip(kind: FieldKind, value: FieldValue) {
    assert!(kind.accepts(&value));
    let mut data = encoded(kind, &value);
    let written = data.len();
    data.extend_from_slice(&[0xde, 0x00, 0xad]);
    assert_eq!(decoded(kind, &data), (Ok(value), written));
}

#[test]
fn integers_travel_little_endian_at_fixed_width() {
    let cases: [(IntValue, Vec<u8>); 12] = [
        (IntValue::U8(0xab), vec![0xab]),
        (IntValue::I8(-2), vec![0xfe]),
        (IntValue::U16(0x0102), vec![0x02, 0x01]),
        (IntValue::U16(5), vec![0x05, 0x00]),
        (IntValue::I16(-2), vec![0xfe, 0xff]),
        (IntValue::U32(0x01020304), vec![0x04, 0x03, 0x02, 0x01]),
        (IntValue::U32(250), vec![250, 0, 0, 0]),
        (IntValue::I32(-0x01020304), vec![0xfc, 0xfc, 0xfd, 0xfe]),
        (IntValue::U64(0x0102030405060708), vec![8, 7, 6, 5, 4, 3, 2, 1]),
        (IntValue::U64(u64::MAX), vec![0xff; 8]),
        (IntValue::I64(-1), vec![0xff; 8]),
        (IntValue::I64(i64::MIN), vec![0, 0, 0, 0, 0, 0, 0, 0x80]),
    ];
    for (value, bytes) in cases {
        let mut out = Vec::new();
        value.encode(&mut out);
        assert_eq!(out, bytes);
        let mut reader = ByteReader::new(&bytes);
        assert_eq!(IntValue::decode(value.kind(), &mut reader), Ok(value));
        assert_eq!(reader.remaining(), 0);
    }
}

#[test]
fn integers_agree_with_the_numeric_codec() {
    let fixed = bincode::config::standard().with_fixed_int_encoding();
    let mut out = Vec::new();
    IntValue::U16(0xbeef).encode(&mut out);
    assert_eq!(out, bincode::encode_to_vec(0xbeefu16, fixed).unwrap());
    let mut out = Vec::new();
    IntValue::I32(-77).encode(&mut out);
    assert_eq!(out, bincode::encode_to_vec(-77i32, fixed).unwrap());
    let mut out = Vec::new();
    IntValue::I64(-5_000_000_000).encode(&mut out);
    assert_eq!(out, bincode::encode_to_vec(-5_000_000_000i64, fixed).unwrap());
    let mut out = Vec::new();
    IntValue::I8(-128).encode(&mut out);
    assert_eq!(out, bincode::encode_to_vec(-128i8, fixed).unwrap());
}

#[test]
fn integer_kinds_have_their_widths() {
    assert_eq!(IntKind::U8.width(), Width::One);
    assert_eq!(IntKind::I8.width(), Width::One);
    assert_eq!(IntKind::U16.width(), Width::Two);
    assert_eq!(IntKind::I16.width(), Width::Two);
    assert_eq!(IntKind::U32.width(), Width::Four);
    assert_eq!(IntKind::I32.width(), Width::Four);
    assert_eq!(IntKind::U64.width(), Width::Eight);
    assert_eq!(IntKind::I64.width(), Width::Eight);
    assert_eq!(Width::One.byte_count(), 1);
    assert_eq!(Width::Two.byte_count(), 2);
    assert_eq!(Width::Four.byte_count(), 4);
    assert_eq!(Width::Eight.byte_count(), 8);
}

#[test]
fn widths_hold_what_fits_their_bytes() {
    assert!(Width::One.fits(0xff));
    assert!(!Width::One.fits(0x100));
    assert!(Width::Two.fits(0xffff));
    assert!(!Width::Two.fits(0x1_0000));
    assert!(Width::Four.fits(0xffff_ffff));
    assert!(!Width::Four.fits(0x1_0000_0000));
    assert!(Width::Eight.fits(u64::MAX));
}

#[test]
fn bit_patterns_are_twos_complement() {
    assert_eq!(IntValue::I8(-1).bits(), 0xff);
    assert_eq!(IntValue::I16(-1).bits(), 0xffff);
    assert_eq!(IntValue::I32(-1).bits(), 0xffff_ffff);
    assert_eq!(IntValue::I64(-1).bits(), u64::MAX);
    assert_eq!(IntValue::U32(7).bits(), 7);
    assert_eq!(IntKind::I8.from_bits(0x80), IntValue::I8(-128));
    assert_eq!(IntKind::I16.from_bits(0x8000), IntValue::I16(i16::MIN));
    assert_eq!(IntKind::I32.from_bits(0xffff_fffe), IntValue::I32(-2));
    assert_eq!(IntKind::I64.from_bits(u64::MAX), IntValue::I64(-1));
    assert_eq!(IntKind::U8.from_bits(0x1ff), IntValue::U8(0xff));
    assert_eq!(IntKind::U16.from_bits(0x1_0001), IntValue::U16(1));
    assert_eq!(IntKind::U32.from_bits(0x1_0000_0002), IntValue::U32(2));
    assert_eq!(IntKind::U64.from_bits(3), IntValue::U64(3));
}

#[test]
fn unsigned_integers_are_read_at_each_width() {
    let data = [1, 2, 3, 4, 5, 6, 7, 8, 9];
    for (width, value, left) in [
        (Width::One, 0x01u64, 8usize),
        (Width::Two, 0x0201, 7),
        (Width::Four, 0x04030201, 5),
        (Width::Eight, 0x0807060504030201, 1),
    ] {
        let mut reader = ByteReader::new(&data);
        assert_eq!(read_uint(&mut reader, width), Ok(value));
        assert_eq!(reader.remaining(), left);
    }
}

#[test]
fn fixed_width_field_fails_on_a_short_buffer() {
    for (kind, width) in [
        (IntKind::U8, 1usize),
        (IntKind::I8, 1),
        (IntKind::U16, 2),
        (IntKind::I16, 2),
        (IntKind::U32, 4),
        (IntKind::I32, 4),
        (IntKind::U64, 8),
        (IntKind::I64, 8),
    ] {
        let data = vec![0x7f; width];
        for short in 0..width {
            assert_eq!(
                decoded(FieldKind::Int(kind), &data[..short]),
                (Err(FieldError::TruncatedInput), 0)
            );
            assert_eq!(
                decoded(FieldKind::Flags(kind.width()), &data[..short]),
                (Err(FieldError::TruncatedInput), 0)
            );
        }
        assert!(decoded(FieldKind::Int(kind), &data).0.is_ok());
    }
}

#[test]
fn array_is_its_bytes_and_nothing_else() {
    let kind = FieldKind::Array(4);
    assert_eq!(encoded(kind, &FieldValue::Bytes(b"test".to_vec())), b"test".to_vec());
    assert_eq!(decoded(kind, b"tester"), (Ok(FieldValue::Bytes(b"test".to_vec())), 4));
    assert_eq!(decoded(kind, b"tes"), (Err(FieldError::TruncatedInput), 0));
    assert_eq!(decoded(FieldKind::Array(0), b""), (Ok(FieldValue::Bytes(vec![])), 0));
}

#[test]
fn array_of_another_size_is_refused() {
    let mut out = vec![1];
    let kind = FieldKind::Array(4);
    assert_eq!(kind.encode(&FieldValue::Bytes(b"tes".to_vec()), &mut out), Err(ValueMismatch));
    assert_eq!(kind.encode(&FieldValue::Bytes(b"tests".to_vec()), &mut out), Err(ValueMismatch));
    assert_eq!(out, vec![1]);
}

#[test]
fn null_terminated_string_ends_with_its_zero() {
    let kind = FieldKind::NullTerminated;
    assert_eq!(encoded(kind, &FieldValue::Bytes(b"test".to_vec())), b"test\0".to_vec());
    assert_eq!(encoded(kind, &FieldValue::Bytes(vec![])), vec![0]);
    assert_eq!(decoded(kind, b"testd\0asd"), (Ok(FieldValue::Bytes(b"testd".to_vec())), 6));
    assert_eq!(decoded(kind, b"\0asd"), (Ok(FieldValue::Bytes(vec![])), 1));
}

#[test]
fn null_terminated_string_without_zero_runs_to_the_end() {
    let kind = FieldKind::NullTerminated;
    assert_eq!(decoded(kind, b"test"), (Ok(FieldValue::Bytes(b"test".to_vec())), 4));
    assert_eq!(decoded(kind, b""), (Ok(FieldValue::Bytes(vec![])), 0));
}

#[test]
fn null_terminated_string_with_a_zero_inside_is_refused() {
    let mut out = Vec::new();
    let value = FieldValue::Bytes(b"te\0st".to_vec());
    assert!(!FieldKind::NullTerminated.accepts(&value));
    assert_eq!(FieldKind::NullTerminated.encode(&value, &mut out), Err(ValueMismatch));
    assert_eq!(out, Vec::<u8>::new());
    assert!(free_of_zero(b"test"));
    assert!(free_of_zero(b""));
    assert!(!free_of_zero(b"test\0"));
}

#[test]
fn blob_is_prefixed_by_its_length() {
    let hi = FieldValue::Bytes(b"hi".to_vec());
    assert_eq!(encoded(FieldKind::Blob(Width::One), &hi), vec![2, b'h', b'i']);
    assert_eq!(encoded(FieldKind::Blob(Width::Two), &hi), vec![2, 0, b'h', b'i']);
    assert_eq!(encoded(FieldKind::Blob(Width::Four), &hi), vec![2, 0, 0, 0, b'h', b'i']);
    assert_eq!(
        encoded(FieldKind::Blob(Width::Eight), &hi),
        vec![2, 0, 0, 0, 0, 0, 0, 0, b'h', b'i']
    );
    assert_eq!(decoded(FieldKind::Blob(Width::One), &[2, b'h', b'i']), (Ok(hi), 3));
    let long = FieldValue::Bytes(vec![7; 300]);
    let bytes = encoded(FieldKind::Blob(Width::Two), &long);
    assert_eq!(&bytes[..2], &[0x2c, 0x01]);
    assert_eq!(bytes.len(), 302);
    assert_eq!(decoded(FieldKind::Blob(Width::Two), &bytes), (Ok(long), 302));
}

#[test]
fn empty_blob_is_its_length_alone() {
    let empty = FieldValue::Bytes(vec![]);
    assert_eq!(encoded(FieldKind::Blob(Width::One), &empty), vec![0]);
    assert_eq!(encoded(FieldKind::Blob(Width::Two), &empty), vec![0, 0]);
    assert_round_trip(FieldKind::Blob(Width::One), FieldValue::Bytes(vec![]));
    assert_round_trip(FieldKind::Blob(Width::Four), FieldValue::Bytes(vec![]));
}

#[test]
fn blob_longer_than_its_prefix_can_say_is_refused() {
    let mut out = Vec::new();
    let kind = FieldKind::Blob(Width::One);
    assert_eq!(kind.encode(&FieldValue::Bytes(vec![0; 256]), &mut out), Err(ValueMismatch));
    assert_eq!(out, Vec::<u8>::new());
    assert_eq!(kind.encode(&FieldValue::Bytes(vec![0; 255]), &mut out), Ok(()));
    assert_eq!(out.len(), 256);
}

#[test]
fn blob_shorter_than_declared_is_truncated() {
    assert_eq!(
        decoded(FieldKind::Blob(Width::One), &[3, b'h', b'i']),
        (Err(FieldError::TruncatedInput), 0)
    );
    assert_eq!(decoded(FieldKind::Blob(Width::One), &[]), (Err(FieldError::TruncatedInput), 0));
    assert_eq!(decoded(FieldKind::Blob(Width::Two), &[2]), (Err(FieldError::TruncatedInput), 0));
    assert_eq!(
        decoded(FieldKind::Blob(Width::Two), &[6, b't', b'e', b's', b't', b'f', b'a', b's', b'd']),
        (Err(FieldError::TruncatedInput), 0)
    );
    assert_eq!(
        decoded(FieldKind::Blob(Width::Eight), &[0xff; 12]),
        (Err(FieldError::TruncatedInput), 0)
    );
}

#[test]
fn list_is_its_count_and_then_its_elements() {
    let kind = FieldKind::List(Width::One, IntKind::U16);
    let clusters = FieldValue::List(vec![IntValue::U16(0x0006), IntValue::U16(0x0b04)]);
    assert_eq!(encoded(kind, &clusters), vec![2, 0x06, 0x00, 0x04, 0x0b]);
    assert_eq!(decoded(kind, &[2, 0x06, 0x00, 0x04, 0x0b, 0xff]), (Ok(clusters), 5));
    let wide = FieldKind::List(Width::Two, IntKind::I32);
    let numbers = FieldValue::List(vec![IntValue::I32(-1), IntValue::I32(1)]);
    assert_eq!(encoded(wide, &numbers), vec![2, 0, 0xff, 0xff, 0xff, 0xff, 1, 0, 0, 0]);
    assert_round_trip(wide, numbers);
}

#[test]
fn empty_list_is_its_count_alone() {
    let kind = FieldKind::List(Width::Two, IntKind::U32);
    assert_eq!(encoded(kind, &FieldValue::List(vec![])), vec![0, 0]);
    assert_eq!(decoded(kind, &[0, 0, 9]), (Ok(FieldValue::List(vec![])), 2));
}

#[test]
fn list_count_beyond_the_buffer_is_truncated() {
    let kind = FieldKind::List(Width::One, IntKind::U16);
    assert_eq!(decoded(kind, &[2, 0x06, 0x00, 0x04]), (Err(FieldError::TruncatedInput), 0));
    assert_eq!(decoded(kind, &[]), (Err(FieldError::TruncatedInput), 0));
    let huge = FieldKind::List(Width::Eight, IntKind::U64);
    assert_eq!(decoded(huge, &[0xff; 16]), (Err(FieldError::TruncatedInput), 0));
    let many = FieldKind::List(Width::Four, IntKind::U8);
    assert_eq!(
        decoded(many, &[0xff, 0xff, 0xff, 0xff, 1, 2, 3]),
        (Err(FieldError::TruncatedInput), 0)
    );
}

#[test]
fn list_with_an_element_of_another_kind_is_refused() {
    let kind = FieldKind::List(Width::One, IntKind::U16);
    let mixed = FieldValue::List(vec![IntValue::U16(1), IntValue::U8(2)]);
    let mut out = Vec::new();
    assert_eq!(kind.encode(&mixed, &mut out), Err(ValueMismatch));
    assert!(all_of_kind(&[IntValue::U16(1), IntValue::U16(2)], IntKind::U16));
    assert!(!all_of_kind(&[IntValue::U16(1), IntValue::I16(2)], IntKind::U16));
    assert!(all_of_kind(&[], IntKind::I64));
    let long = FieldValue::List(vec![IntValue::U16(0); 256]);
    assert_eq!(kind.encode(&long, &mut out), Err(ValueMismatch));
    assert_eq!(out, Vec::<u8>::new());
}

#[test]
fn value_of_another_shape_is_refused() {
    let mut out = Vec::new();
    let int = FieldValue::Int(IntValue::U8(1));
    let bytes = FieldValue::Bytes(vec![1]);
    assert_eq!(FieldKind::Int(IntKind::U16).encode(&int, &mut out), Err(ValueMismatch));
    assert_eq!(FieldKind::Int(IntKind::U8).encode(&bytes, &mut out), Err(ValueMismatch));
    assert_eq!(FieldKind::Address.encode(&int, &mut out), Err(ValueMismatch));
    assert_eq!(FieldKind::Flags(Width::One).encode(&int, &mut out), Err(ValueMismatch));
    assert_eq!(FieldKind::List(Width::One, IntKind::U8).encode(&bytes, &mut out), Err(ValueMismatch));
    assert_eq!(FieldKind::Blob(Width::One).encode(&int, &mut out), Err(ValueMismatch));
    assert_eq!(out, Vec::<u8>::new());
}

#[test]
fn address_is_its_mode_and_then_its_payload() {
    let cases: [(AddrModeAddress, Vec<u8>); 4] = [
        (AddrModeAddress::Group(0x1234), vec![0x01, 0x34, 0x12]),
        (AddrModeAddress::NWK(0xfffe), vec![0x02, 0xfe, 0xff]),
        (AddrModeAddress::IEEE([1, 2, 3, 4, 5, 6, 7, 8]), vec![0x03, 1, 2, 3, 4, 5, 6, 7, 8]),
        (AddrModeAddress::Broadcast(0xffff), vec![0x0f, 0xff, 0xff]),
    ];
    for (address, bytes) in cases {
        let mut out = Vec::new();
        address.encode(&mut out);
        assert_eq!(out, bytes);
        let mut reader = ByteReader::new(&bytes);
        assert_eq!(AddrModeAddress::decode(&mut reader), Ok(address));
        assert_eq!(reader.remaining(), 0);
        assert_round_trip(FieldKind::Address, FieldValue::Address(address));
    }
}

#[test]
fn address_modes_have_their_tags() {
    assert_eq!(AddrMode::Group.tag(), 0x01);
    assert_eq!(AddrMode::NWK.tag(), 0x02);
    assert_eq!(AddrMode::IEEE.tag(), 0x03);
    assert_eq!(AddrMode::Broadcast.tag(), 0x0f);
    for tag in 0..=255u8 {
        match AddrMode::from_tag(tag) {
            Some(mode) => assert_eq!(mode.tag(), tag),
            None => assert!(![0x01, 0x02, 0x03, 0x0f].contains(&tag)),
        }
    }
    assert_eq!(AddrModeAddress::IEEE([0; 8]).mode(), AddrMode::IEEE);
    assert_eq!(AddrModeAddress::Group(0).mode(), AddrMode::Group);
    assert_eq!(AddrModeAddress::NWK(0).mode(), AddrMode::NWK);
    assert_eq!(AddrModeAddress::Broadcast(0).mode(), AddrMode::Broadcast);
}

#[test]
fn address_with_an_unmapped_tag_is_refused() {
    assert_eq!(
        decoded(FieldKind::Address, &[0x04, 0, 0]),
        (Err(FieldError::UnknownDiscriminator(0x04)), 0)
    );
    assert_eq!(
        decoded(FieldKind::Address, &[0x00]),
        (Err(FieldError::UnknownDiscriminator(0x00)), 0)
    );
}

#[test]
fn address_cut_short_is_truncated() {
    assert_eq!(decoded(FieldKind::Address, &[]), (Err(FieldError::TruncatedInput), 0));
    assert_eq!(decoded(FieldKind::Address, &[0x01, 0x34]), (Err(FieldError::TruncatedInput), 0));
    assert_eq!(
        decoded(FieldKind::Address, &[0x03, 1, 2, 3, 4, 5, 6, 7]),
        (Err(FieldError::TruncatedInput), 0)
    );
}

#[test]
fn every_kind_round_trips() {
    assert_round_trip(FieldKind::Int(IntKind::I16), FieldValue::Int(IntValue::I16(-12345)));
    assert_round_trip(FieldKind::Int(IntKind::U64), FieldValue::Int(IntValue::U64(1 << 40)));
    assert_round_trip(FieldKind::Array(8), FieldValue::Bytes(vec![0, 1, 0, 2, 0, 3, 0, 4]));
    assert_round_trip(FieldKind::Array(0), FieldValue::Bytes(vec![]));
    assert_round_trip(FieldKind::NullTerminated, FieldValue::Bytes(b"name".to_vec()));
    assert_round_trip(FieldKind::NullTerminated, FieldValue::Bytes(vec![]));
    assert_round_trip(FieldKind::Blob(Width::Two), FieldValue::Bytes(vec![0, 0, 0]));
    assert_round_trip(
        FieldKind::List(Width::One, IntKind::I8),
        FieldValue::List(vec![IntValue::I8(-1), IntValue::I8(0), IntValue::I8(1)]),
    );
    assert_round_trip(FieldKind::List(Width::Eight, IntKind::U16), FieldValue::List(vec![]));
    assert_round_trip(FieldKind::Flags(Width::Two), FieldValue::Flags(BitEnum::from_raw(0x8001)));
    assert_round_trip(FieldKind::Flags(Width::Eight), FieldValue::Flags(BitEnum::from_raw(u64::MAX)));
}

#[test]
fn reader_hands_out_exactly_what_is_asked() {
    let data = [1u8, 2, 3, 4, 5];
    let mut reader = ByteReader::new(&data);
    assert_eq!(reader.remaining(), 5);
    assert_eq!(reader.rest(), &data);
    assert_eq!(reader.take(2), Ok(&data[..2]));
    assert_eq!(reader.take_byte(), Some(3));
    assert_eq!(reader.rest(), &data[3..]);
    assert_eq!(reader.take(3), Err(FieldError::TruncatedInput));
    assert_eq!(reader.remaining(), 2);
    assert_eq!(reader.take(0), Ok(&data[..0]));
    assert_eq!(reader.take(2), Ok(&data[3..]));
    assert_eq!(reader.take_byte(), None);
    assert_eq!(reader.remaining(), 0);
}

#[test]
fn cloned_value_equals_its_source() {
    for value in [
        FieldValue::Int(IntValue::I32(-9)),
        FieldValue::Bytes(b"abc".to_vec()),
        FieldValue::List(vec![IntValue::U8(1), IntValue::U8(2)]),
        FieldValue::Flags(BitEnum::from_raw(5)),
        FieldValue::Address(AddrModeAddress::IEEE([9; 8])),
    ] {
        assert_eq!(value.clone(), value);
    }
}
