use mzsh_commandenum::bitenum::{BitEnum, BitEnumTrait, FlagTable};
use mzsh_commandenum::error::{ConfigurationConflict, FieldError, UnrecognizedBit, ValueMismatch};
use mzsh_commandenum::reader::ByteReader;
use mzsh_commandenum::wire::Width;

const CHANNEL_11: u64 = 0x00000800;
const CHANNEL_12: u64 = 0x00001000;
const CHANNEL_13: u64 = 0x00002000;
const CHANNEL_14: u64 = 0x00004000;
const CHANNEL_15: u64 = 0x00008000;
const CHANNEL_16: u64 = 0x00010000;
const CHANNEL_17: u64 = 0x00020000;
const CHANNEL_18: u64 = 0x00040000;
const CHANNEL_19: u64 = 0x00080000;
const CHANNEL_20: u64 = 0x00100000;
const CHANNEL_21: u64 = 0x00200000;
const CHANNEL_22: u64 = 0x00400000;
const CHANNEL_23: u64 = 0x00800000;
const CHANNEL_24: u64 = 0x01000000;
const CHANNEL_25: u64 = 0x02000000;
const CHANNEL_26: u64 = 0x04000000;

fn startup_state_values() -> FlagTable {
    FlagTable::new(&[
        CHANNEL_11, CHANNEL_12, CHANNEL_13, CHANNEL_14, CHANNEL_15, CHANNEL_16, CHANNEL_17,
        CHANNEL_18, CHANNEL_19, CHANNEL_20, CHANNEL_21, CHANNEL_22, CHANNEL_23, CHANNEL_24,
        CHANNEL_25, CHANNEL_26,
    ])
    .unwrap()
}

#[test]
fn test_bitenum_test_macro() {
    let table = startup_state_values();
    let fixed = bincode::config::standard().with_fixed_int_encoding();

    let bitmask1 = BitEnum::from_slice(&vec![CHANNEL_17, CHANNEL_20]);
    println!("test1: {:?}, {:?}", bitmask1, bitmask1.to_vec(&table));
    assert_eq!(bitmask1.get_val(), 0x00120000);
    assert_eq!(bitmask1.to_vec(&table), Ok(vec![CHANNEL_20, CHANNEL_17]));

    let data = bincode::encode_to_vec(&(14 as i32), fixed).unwrap();
    let bitmask2 = BitEnum::decode(Width::Four, &mut ByteReader::new(data.as_slice())).unwrap();
    println!("test2: {:?}, {:?}", bitmask2, bitmask2.to_vec(&table));
    assert_eq!(bitmask2.get_val(), 14);
    assert_eq!(bitmask2.to_vec(&table), Err(UnrecognizedBit { bit: 8 }));

    let data = bincode::encode_to_vec(&(0x00402000 as i32), fixed).unwrap();
    let bitmask3 = BitEnum::decode(Width::Four, &mut ByteReader::new(data.as_slice())).unwrap();
    println!("test3: {:?}, {:?}", bitmask3, bitmask3.to_vec(&table));
    assert_eq!(bitmask3.get_val(), 0x00402000);
    assert_eq!(bitmask3.to_vec(&table), Ok(vec![CHANNEL_22, CHANNEL_13]));
}

#[test]
fn flag_table_is_the_union_of_its_flags() {
    assert_eq!(startup_state_values().mask(), 0x07fff800);
    assert_eq!(FlagTable::new(&[]).unwrap().mask(), 0);
    assert_eq!(FlagTable::from_mask(0x03).mask(), 0x03);
}

#[test]
fn flag_table_refuses_a_value_of_several_bits() {
    assert_eq!(
        FlagTable::new(&[0x01, 0x02, 0x06, 0x00]),
        Err(ConfigurationConflict::NotSingleBit { index: 2 })
    );
}

#[test]
fn flag_table_refuses_zero() {
    assert_eq!(FlagTable::new(&[0]), Err(ConfigurationConflict::NotSingleBit { index: 0 }));
}

#[test]
fn flag_table_takes_the_top_bit() {
    assert_eq!(FlagTable::new(&[1 << 63]).unwrap().mask(), 0x8000_0000_0000_0000);
}

#[test]
fn compose_then_decompose_gives_descending_bits() {
    let table = FlagTable::new(&[0x01, 0x02]).unwrap();
    assert_eq!(BitEnum::from_slice(&[0x01, 0x02]).get_val(), 0x03);
    assert_eq!(BitEnum::from_raw(0x03).to_vec(&table), Ok(vec![0x02, 0x01]));
}

#[test]
fn decompose_then_compose_gives_the_integer_back() {
    let all = FlagTable::from_mask(u64::MAX);
    for x in [0u64, 1, 0x03, 0x18, 0x00120000, 0x8000_0000_0000_0001, u64::MAX, 0xdead_beef_0bad_f00d] {
        let flags = BitEnum::from_raw(x).to_vec(&all).unwrap();
        assert_eq!(flags.len(), x.count_ones() as usize);
        assert_eq!(BitEnum::from_slice(&flags).get_val(), x);
        assert!(flags.windows(2).all(|w| w[0] > w[1]));
    }
}

#[test]
fn composition_does_not_depend_on_order() {
    let orders: [[u64; 3]; 6] = [
        [CHANNEL_11, CHANNEL_20, CHANNEL_26],
        [CHANNEL_11, CHANNEL_26, CHANNEL_20],
        [CHANNEL_20, CHANNEL_11, CHANNEL_26],
        [CHANNEL_20, CHANNEL_26, CHANNEL_11],
        [CHANNEL_26, CHANNEL_11, CHANNEL_20],
        [CHANNEL_26, CHANNEL_20, CHANNEL_11],
    ];
    for order in orders {
        assert_eq!(BitEnum::from_slice(&order).get_val(), 0x04100800);
        assert_eq!(BitEnum::from_iter(&order.to_vec()).get_val(), 0x04100800);
    }
}

#[test]
fn composing_nothing_gives_zero() {
    assert_eq!(BitEnum::from_slice(&[]).get_val(), 0);
    assert_eq!(BitEnum::from_iter(&vec![]).get_val(), 0);
    assert_eq!(BitEnum::try_from_iter::<()>(vec![]).map(|s| s.get_val()), Ok(0));
    assert_eq!(BitEnum::default().get_val(), 0);
    assert_eq!(BitEnum::default().to_vec(&FlagTable::from_mask(0)), Ok(vec![]));
}

#[test]
fn to_vec_reports_the_highest_unknown_bit() {
    let table = FlagTable::new(&[0x01, 0x04, 0x10]).unwrap();
    assert_eq!(BitEnum::from_raw(0x2b).to_vec(&table), Err(UnrecognizedBit { bit: 0x20 }));
    assert_eq!(BitEnum::from_raw(0x0b).to_vec(&table), Err(UnrecognizedBit { bit: 0x08 }));
    assert_eq!(BitEnum::from_raw(0x15).to_vec(&table), Ok(vec![0x10, 0x04, 0x01]));
    assert_eq!(
        BitEnum::from_raw(1 << 63).to_vec(&table),
        Err(UnrecognizedBit { bit: 0x8000_0000_0000_0000 })
    );
}

#[test]
fn from_int_keeps_an_integer_of_known_bits() {
    let table = startup_state_values();
    assert_eq!(BitEnum::from_int(0, &table).map(|s| s.get_val()), Ok(0));
    assert_eq!(BitEnum::from_int(0x00402000, &table).map(|s| s.get_val()), Ok(0x00402000));
    assert_eq!(BitEnum::from_int(0x07fff800, &table).map(|s| s.get_val()), Ok(0x07fff800));
}

#[test]
fn from_int_reports_the_highest_unknown_bit() {
    let table = startup_state_values();
    assert_eq!(BitEnum::from_int(14, &table), Err(UnrecognizedBit { bit: 8 }));
    assert_eq!(BitEnum::from_int(0x08000800, &table), Err(UnrecognizedBit { bit: 0x08000000 }));
}

#[test]
fn try_from_iter_stops_at_the_first_failure() {
    let items: Vec<Result<u64, &str>> = vec![Ok(0x01), Err("first"), Ok(0x04), Err("second")];
    assert_eq!(BitEnum::try_from_iter(items), Err("first"));
    let items: Vec<Result<u64, &str>> = vec![Ok(0x01), Ok(0x04), Ok(0x01)];
    assert_eq!(BitEnum::try_from_iter(items).map(|s| s.get_val()), Ok(0x05));
}

#[test]
fn single_flags_can_be_tested_added_removed_and_flipped() {
    let set = BitEnum::from_slice(&[CHANNEL_17, CHANNEL_20]);
    assert!(set.contains(CHANNEL_17));
    assert!(set.contains(CHANNEL_20));
    assert!(!set.contains(CHANNEL_18));
    assert_eq!(set.add_bit(CHANNEL_18).get_val(), 0x00160000);
    assert_eq!(set.add_bit(CHANNEL_17).get_val(), 0x00120000);
    assert_eq!(set.remove_bit(CHANNEL_17).get_val(), 0x00100000);
    assert_eq!(set.remove_bit(CHANNEL_18).get_val(), 0x00120000);
    assert_eq!(set.xor_bit(CHANNEL_17).get_val(), 0x00100000);
    assert_eq!(set.xor_bit(CHANNEL_18).get_val(), 0x00160000);
    assert_eq!(set.xor_bit(CHANNEL_18).xor_bit(CHANNEL_18), set);
}

#[test]
fn bitmask_travels_at_its_width() {
    let set = BitEnum::from_raw(0x00402000);
    let mut out = Vec::new();
    assert_eq!(set.encode(Width::Four, &mut out), Ok(()));
    assert_eq!(out, vec![0x00, 0x20, 0x40, 0x00]);
    let mut out = Vec::new();
    assert_eq!(set.encode(Width::Eight, &mut out), Ok(()));
    assert_eq!(out, vec![0x00, 0x20, 0x40, 0x00, 0, 0, 0, 0]);
    let mut out = vec![0xff];
    assert_eq!(BitEnum::from_raw(0x18).encode(Width::One, &mut out), Ok(()));
    assert_eq!(out, vec![0xff, 0x18]);
}

#[test]
fn bitmask_wider_than_its_field_is_refused() {
    let mut out = vec![0xaa];
    assert_eq!(BitEnum::from_raw(0x0100).encode(Width::One, &mut out), Err(ValueMismatch));
    assert_eq!(BitEnum::from_raw(0x0001_0000).encode(Width::Two, &mut out), Err(ValueMismatch));
    assert_eq!(
        BitEnum::from_raw(0x0001_0000_0000).encode(Width::Four, &mut out),
        Err(ValueMismatch)
    );
    assert_eq!(out, vec![0xaa]);
}

#[test]
fn bitmask_decoding_needs_the_whole_width() {
    let data = [0x01, 0x02, 0x03];
    let mut reader = ByteReader::new(&data);
    assert_eq!(BitEnum::decode(Width::Four, &mut reader), Err(FieldError::TruncatedInput));
    assert_eq!(reader.remaining(), 3);
    assert_eq!(BitEnum::decode(Width::Two, &mut reader).map(|s| s.get_val()), Ok(0x0201));
    assert_eq!(reader.remaining(), 1);
}
