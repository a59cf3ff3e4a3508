use rusty_beads::bead_type::BeadType::{
    Bytes, FalseFlag, NoneFlag, TrueFlag, Utf8, Vlq, VlqZ, F16, F32, F64, I128, I16, I32, I64, I8,
    U128, U16, U32, U64, U8,
};
use rusty_beads::bead_type::{BeadType, BeadTypeSet};
use rusty_beads::builder::{
    BeadsBuilder, BeadsSequenceBuilder, Candidate, DedupBeadsBuilder, FixedSizeBeadsBuilder,
    FixedSizeBeadsIncrementalUintBuilder, IndexedBeadsBuilder, OwningDedupBeadsBuilder,
};
use rusty_beads::converters::{
    beads_to_dedup_beads, csv_to_indexed_string_beads, parse_i128, string_beads_to_indexed_beads,
    string_beads_to_int_beads, u128_from_slice,
};
use rusty_beads::error::BeadsError;
use rusty_beads::reference::BeadReference;
use rusty_beads::sequence::{DedupBeads, FixedSizeBeads, IndexedBeads, TypedBeads};
use rusty_beads::vlq::{
    add_as_vlq, add_as_vlqz, push_vlq, read_vlq, vlq_byte_size, zigzag_decode, zigzag_encode,
};

fn collect<'a>(beads: &TypedBeads<'a>) -> Vec<BeadReference<'a>> {
    let mut it = beads.iter();
    let mut out = Vec::new();
    while let Some(r) = it.next() {
        out.push(r.unwrap());
    }
    out
}

fn builder(types: &[BeadType]) -> BeadsSequenceBuilder {
    BeadsSequenceBuilder::new(&BeadTypeSet::new(types)).unwrap()
}

fn encoded(builder: &BeadsSequenceBuilder) -> Vec<u8> {
    let mut out = Vec::new();
    builder.encode(&mut out);
    out
}

fn all_types() -> Vec<BeadType> {
    BeadType::cases_by_priority()
}

#[test]
fn vlq_zero_is_one_zero_byte() {
    let mut out = Vec::new();
    push_vlq(&mut out, 0);
    assert_eq!(out, vec![0]);
    assert_eq!(read_vlq(&out), Ok((1, 0)));
}

#[test]
fn vlq_roundtrip_of_the_largest_value() {
    let mut out = Vec::new();
    push_vlq(&mut out, u128::MAX);
    assert_eq!(out.len(), 19);
    assert_eq!(out[18], 3);
    assert_eq!(read_vlq(&out), Ok((19, u128::MAX)));
    let mut buffer = vec![7u8; 21];
    assert_eq!(add_as_vlq(buffer.as_mut_slice(), u128::MAX), 19);
    assert_eq!(&buffer[..19], out.as_slice());
    assert_eq!(&buffer[19..], &[7, 7]);
}

#[test]
fn vlq_roundtrip_at_group_borders() {
    for value in [0u128, 1, 127, 128, 129, 16383, 16384, 1 << 63, (1 << 64) - 1, 1 << 64, 1 << 126] {
        let mut out = vec![9u8];
        push_vlq(&mut out, value);
        out.push(0x80);
        assert_eq!(read_vlq(&out[1..]), Ok((out.len() - 2, value)));
    }
}

#[test]
fn vlq_unterminated_is_invalid() {
    assert_eq!(read_vlq(&[]), Err(BeadsError::InvalidVarint));
    assert_eq!(read_vlq(&[0x80]), Err(BeadsError::InvalidVarint));
    assert_eq!(read_vlq(&[0xff, 0xff, 0xff]), Err(BeadsError::InvalidVarint));
}

#[test]
fn vlq_over_long_is_invalid() {
    let mut wide = vec![0xffu8; 18];
    wide.push(4);
    assert_eq!(read_vlq(&wide), Err(BeadsError::InvalidVarint));
    let mut long = vec![0x80u8; 19];
    long.push(0);
    assert_eq!(read_vlq(&long), Err(BeadsError::InvalidVarint));
    let mut padded = vec![0x80u8; 18];
    padded.push(0);
    assert_eq!(read_vlq(&padded), Ok((19, 0)));
}

#[test]
fn vlq_byte_size_is_the_length_written() {
    for value in [0usize, 1, 127, 128, 255, 256, 16383, 16384, 2097151, 2097152, usize::MAX] {
        let mut out = Vec::new();
        push_vlq(&mut out, value as u128);
        assert_eq!(vlq_byte_size(value), out.len());
    }
    assert_eq!(vlq_byte_size(127), 1);
    assert_eq!(vlq_byte_size(128), 2);
    assert_eq!(vlq_byte_size(16384), 3);
}

#[test]
fn zigzag_roundtrip_over_the_full_range() {
    for value in [0i128, 1, -1, 63, -64, 64, -65, i128::MAX, i128::MIN, i128::MAX - 1, i128::MIN + 1] {
        assert_eq!(zigzag_decode(zigzag_encode(value)), value);
    }
    assert_eq!(zigzag_encode(i128::MAX), u128::MAX - 1);
    assert_eq!(zigzag_encode(i128::MIN), u128::MAX);
    assert_eq!(zigzag_decode(u128::MAX), i128::MIN);
    for value in [0u128, 1, 2, 3, 255, u128::MAX, u128::MAX - 1] {
        assert_eq!(zigzag_encode(zigzag_decode(value)), value);
    }
}

#[test]
fn vlqz_writes_the_zigzag_image() {
    let mut buffer = vec![0u8; 19];
    assert_eq!(add_as_vlqz(buffer.as_mut_slice(), -65), 2);
    assert_eq!(&buffer[..2], &[129, 1]);
    assert_eq!(add_as_vlqz(buffer.as_mut_slice(), i128::MIN), 19);
    assert_eq!(read_vlq(&buffer), Ok((19, u128::MAX)));
}

#[test]
fn type_set_wire_form_is_the_little_endian_mask() {
    assert_eq!(BeadTypeSet::new(&[BeadType::NoneFlag]).bytes(), [1, 0, 0, 0]);
    assert_eq!(BeadTypeSet::new(&[BeadType::U8]).bytes(), [8, 0, 0, 0]);
    assert_eq!(BeadTypeSet::new(&[BeadType::F64]).bytes(), [0, 128, 0, 0]);
    assert_eq!(BeadTypeSet::new(&[BeadType::Bytes, BeadType::Utf8]).bytes(), [0, 0, 12, 0]);
    assert_eq!(BeadTypeSet::new(&all_types()).bytes(), [255, 255, 15, 0]);
    assert_eq!(BeadTypeSet::from(0x0102_0304).bytes(), [4, 3, 2, 1]);
    for (position, kind) in all_types().iter().enumerate() {
        assert_eq!(kind.mask(), 1u32 << position);
        assert_eq!(kind.bit_position() as usize, position);
    }
}

#[test]
fn type_set_members_are_in_declaration_order() {
    let set = BeadTypeSet::new(&[BeadType::Bytes, BeadType::U8, BeadType::NoneFlag, BeadType::U8]);
    assert_eq!(set.types(), vec![BeadType::NoneFlag, BeadType::U8, BeadType::Bytes]);
    assert_eq!(set.size(), 3);
    assert!(set.is_valid());
    assert_eq!(BeadTypeSet::from(0).size(), 0);
    assert_eq!(BeadTypeSet::new(&all_types()).size(), 20);
}

#[test]
fn priority_orders_are_those_of_the_catalog() {
    assert_eq!(
        BeadType::cases_for_uint(),
        vec![U8, I8, Vlq, VlqZ, U16, I16, F16, U32, I32, F32, U64, I64, F64, U128, I128]
    );
    assert_eq!(
        BeadType::cases_for_int(),
        vec![I8, U8, VlqZ, Vlq, I16, U16, F16, I32, U32, F32, I64, U64, F64, I128, U128]
    );
    assert_eq!(
        BeadType::cases_for_double(),
        vec![U8, I8, VlqZ, Vlq, F16, I16, U16, F32, I32, U32, F64]
    );
    assert_eq!(BeadType::cases_by_priority().len(), 20);
}

#[test]
fn data_sizes_of_the_catalog() {
    let sizes: Vec<u8> = all_types().iter().map(|t| t.data_size()).collect();
    assert_eq!(
        sizes,
        vec![0, 0, 0, 1, 2, 4, 8, 16, 1, 2, 4, 8, 16, 2, 4, 8, 255, 255, 255, 255]
    );
    for kind in all_types() {
        assert_eq!(kind.has_no_data(), kind == NoneFlag || kind == TrueFlag || kind == FalseFlag);
    }
}

#[test]
fn empty_type_set_is_a_bad_type_set() {
    let empty = BeadTypeSet::new(&[]);
    assert!(matches!(BeadsSequenceBuilder::new(&empty), Err(BeadsError::BadTypeSet)));
    assert!(matches!(TypedBeads::new(&[1, 0], &empty), Err(BeadsError::BadTypeSet)));
    assert!(matches!(
        TypedBeads::new_types_included(&[0, 0, 0, 0, 1, 0]),
        Err(BeadsError::BadTypeSet)
    ));
}

#[test]
fn type_set_of_seventeen_is_a_bad_type_set() {
    let types = all_types();
    let seventeen = BeadTypeSet::new(&types[..17]);
    assert_eq!(seventeen.size(), 17);
    assert!(matches!(BeadsSequenceBuilder::new(&seventeen), Err(BeadsError::BadTypeSet)));
    assert!(matches!(TypedBeads::new(&[1, 0], &seventeen), Err(BeadsError::BadTypeSet)));
    let sixteen = BeadTypeSet::new(&types[..16]);
    assert!(BeadsSequenceBuilder::new(&sixteen).is_ok());
    assert!(TypedBeads::new(&[0, 0], &sixteen).is_ok());
}

#[test]
fn type_set_with_a_bit_outside_the_catalog_is_a_bad_type_set() {
    let set = BeadTypeSet::from((1 << 20) | 8);
    assert!(!set.is_valid());
    assert!(matches!(BeadsSequenceBuilder::new(&set), Err(BeadsError::BadTypeSet)));
    assert!(matches!(TypedBeads::new(&[1, 0], &set), Err(BeadsError::BadTypeSet)));
}

#[test]
fn type_set_does_not_depend_on_the_order_of_its_types() {
    let orders: [&[BeadType]; 4] = [
        &[U8, I16, F32, NoneFlag, Vlq],
        &[Vlq, NoneFlag, F32, I16, U8],
        &[F32, U8, Vlq, I16, NoneFlag],
        &[I16, I16, Vlq, U8, NoneFlag, F32, U8],
    ];
    let mut outputs = Vec::new();
    for order in orders {
        let set = BeadTypeSet::new(order);
        assert_eq!(set.bytes(), [9, 66, 1, 0]);
        let mut b = BeadsSequenceBuilder::new(&set).unwrap();
        for value in [0i128, -1, 255, 256, -129, 70000, 1 << 24, (1 << 24) + 1, -(1 << 40)] {
            assert!(b.push_int(value));
        }
        assert!(b.push_none());
        outputs.push(encoded(&b));
    }
    assert_eq!(outputs[0], outputs[1]);
    assert_eq!(outputs[0], outputs[2]);
    assert_eq!(outputs[0], outputs[3]);
}

#[test]
fn integer_fit_tests_are_exact() {
    let fits_u = |kind: BeadType, value: u128| kind.push_uint(value, &mut Vec::new()).0;
    let fits_i = |kind: BeadType, value: i128| kind.push_int(value, &mut Vec::new()).0;
    assert!(fits_u(U8, 255) && !fits_u(U8, 256) && !fits_i(U8, -1));
    assert!(fits_u(U16, 65535) && !fits_u(U16, 65536));
    assert!(fits_u(U32, (1 << 32) - 1) && !fits_u(U32, 1 << 32));
    assert!(fits_u(U64, (1 << 64) - 1) && !fits_u(U64, 1 << 64));
    assert!(fits_u(U128, u128::MAX) && fits_i(U128, i128::MAX) && !fits_i(U128, -1));
    assert!(fits_i(I8, 127) && !fits_i(I8, 128) && fits_i(I8, -128) && !fits_i(I8, -129));
    assert!(fits_u(I8, 127) && !fits_u(I8, 128));
    assert!(fits_i(I16, 32767) && !fits_i(I16, 32768) && fits_i(I16, -32768) && !fits_i(I16, -32769));
    assert!(fits_i(I32, (1 << 31) - 1) && !fits_i(I32, 1 << 31));
    assert!(fits_i(I32, -(1 << 31)) && !fits_i(I32, -(1 << 31) - 1));
    assert!(fits_i(I64, (1 << 63) - 1) && !fits_i(I64, 1 << 63));
    assert!(fits_i(I64, -(1 << 63)) && !fits_i(I64, -(1 << 63) - 1));
    assert!(fits_i(I128, i128::MAX) && fits_i(I128, i128::MIN));
    assert!(fits_u(I128, (1 << 127) - 1) && !fits_u(I128, 1 << 127));
    assert!(fits_u(Vlq, u128::MAX) && !fits_i(Vlq, -1));
    assert!(fits_i(VlqZ, i128::MIN) && fits_i(VlqZ, i128::MAX) && !fits_u(VlqZ, 1 << 127));
    for kind in [NoneFlag, TrueFlag, FalseFlag, Utf8, Bytes] {
        assert!(!fits_u(kind, 0) && !fits_i(kind, 0));
    }
}

#[test]
fn a_push_that_does_not_fit_leaves_the_buffer_as_it_was() {
    let mut buffer = vec![1u8, 2, 3];
    assert_eq!(BeadType::U8.push_uint(256, &mut buffer), (false, 0));
    assert_eq!(BeadType::F16.push_uint(65505, &mut buffer), (false, 0));
    assert_eq!(BeadType::Utf8.push_int(5, &mut buffer), (false, 0));
    assert_eq!(buffer, vec![1, 2, 3]);
    assert_eq!(BeadType::I16.push_int(-2, &mut buffer), (true, 2));
    assert_eq!(buffer, vec![1, 2, 3, 254, 255]);
}

#[test]
fn integer_payloads_are_little_endian() {
    let payload_i = |kind: BeadType, value: i128| {
        let mut out = Vec::new();
        let (fits, length) = kind.push_int(value, &mut out);
        assert!(fits);
        assert_eq!(length, out.len());
        out
    };
    assert_eq!(payload_i(BeadType::U32, 0x0102_0304), vec![4, 3, 2, 1]);
    assert_eq!(payload_i(BeadType::I32, -2), vec![254, 255, 255, 255]);
    assert_eq!(payload_i(BeadType::I64, i64::MIN as i128), i64::MIN.to_le_bytes().to_vec());
    assert_eq!(payload_i(BeadType::I128, i128::MIN), i128::MIN.to_le_bytes().to_vec());
    assert_eq!(payload_i(BeadType::I128, -1), vec![255; 16]);
    assert_eq!(payload_i(BeadType::U128, i128::MAX), i128::MAX.to_le_bytes().to_vec());
    assert_eq!(payload_i(BeadType::Vlq, 300), vec![172, 2]);
    assert_eq!(payload_i(BeadType::VlqZ, -3), vec![5]);
    let mut out = Vec::new();
    assert_eq!(BeadType::U128.push_uint(u128::MAX, &mut out), (true, 16));
    assert_eq!(out, vec![255; 16]);
}

#[test]
fn floating_point_types_take_the_integers_that_they_hold_exactly() {
    let fits_u = |kind: BeadType, value: u128| kind.push_uint(value, &mut Vec::new()).0;
    let fits_i = |kind: BeadType, value: i128| kind.push_int(value, &mut Vec::new()).0;
    assert!(fits_u(F16, 0) && fits_u(F16, 2048) && !fits_u(F16, 2049) && fits_u(F16, 2050));
    assert!(fits_u(F16, 65504) && !fits_u(F16, 65505) && !fits_u(F16, 65520) && !fits_u(F16, 65536));
    assert!(fits_i(F16, -65504) && !fits_i(F16, -65536));
    assert!(fits_u(F32, 1 << 24) && !fits_u(F32, (1 << 24) + 1) && fits_u(F32, (1 << 24) + 2));
    assert!(fits_u(F32, 1 << 127) && fits_u(F32, ((1 << 24) - 1) << 104));
    assert!(!fits_u(F32, u128::MAX) && !fits_i(F32, i128::MAX) && fits_i(F32, i128::MIN));
    assert!(fits_u(F64, 1 << 53) && !fits_u(F64, (1 << 53) + 1) && fits_u(F64, (1 << 53) + 2));
    assert!(fits_u(F64, ((1 << 53) - 1) << 75) && !fits_u(F64, u128::MAX));
    assert!(fits_i(F64, i128::MIN) && !fits_i(F64, i128::MAX));
}

#[test]
fn floating_point_payloads_of_integers_are_their_ieee_bits() {
    let check = |value: i128| {
        let mut half = Vec::new();
        if BeadType::F16.push_int(value, &mut half).0 {
            let expected = half::f16::from_f32(value as f32);
            assert_eq!(expected.to_f64(), value as f64);
            assert_eq!(half, expected.to_bits().to_le_bytes().to_vec());
        }
        let mut single = Vec::new();
        if BeadType::F32.push_int(value, &mut single).0 {
            assert_eq!((value as f32) as i128, value);
            assert_eq!(single, (value as f32).to_le_bytes().to_vec());
        } else {
            assert!((value as f32) as i128 != value || value == i128::MAX);
        }
        let mut double = Vec::new();
        if BeadType::F64.push_int(value, &mut double).0 {
            assert_eq!((value as f64) as i128, value);
            assert_eq!(double, (value as f64).to_le_bytes().to_vec());
        } else {
            assert!((value as f64) as i128 != value || value == i128::MAX);
        }
    };
    for shift in 0..127 {
        for base in [1i128, 3, 5, 1023, 1025, 2047, 2049, (1 << 24) - 1, (1 << 24) + 1, (1 << 53) - 1] {
            if let Some(value) = base.checked_shl(shift) {
                if value >> shift == base {
                    check(value);
                    check(-value);
                    check(value + 1);
                    check(value - 1);
                }
            }
        }
    }
    check(0);
    check(i128::MAX);
    check(i128::MIN);
    let mut out = Vec::new();
    assert_eq!(BeadType::F32.push_uint(1, &mut out), (true, 4));
    assert_eq!(out, vec![0, 0, 128, 63]);
    out.clear();
    assert_eq!(BeadType::F64.push_int(-2, &mut out), (true, 8));
    assert_eq!(out, vec![0, 0, 0, 0, 0, 0, 0, 192]);
    out.clear();
    assert_eq!(BeadType::F16.push_uint(65504, &mut out), (true, 2));
    assert_eq!(out, vec![255, 123]);
    out.clear();
    assert_eq!(BeadType::F32.push_int(i128::MIN, &mut out), (true, 4));
    assert_eq!(out, vec![0, 0, 0, 255]);
}

#[test]
fn every_integer_type_reads_back_what_was_pushed() {
    let cases: Vec<(BeadType, Vec<i128>)> = vec![
        (U8, vec![0, 1, 255]),
        (U16, vec![0, 256, 65535]),
        (U32, vec![0, 65536, (1 << 32) - 1]),
        (U64, vec![0, 1 << 32, (1 << 64) - 1]),
        (U128, vec![0, 1 << 64, i128::MAX]),
        (I8, vec![-128, -1, 0, 127]),
        (I16, vec![-32768, -129, 0, 32767]),
        (I32, vec![-(1 << 31), -32769, 0, (1 << 31) - 1]),
        (I64, vec![-(1 << 63), -1, 0, (1 << 63) - 1]),
        (I128, vec![i128::MIN, -1, 0, i128::MAX]),
        (Vlq, vec![0, 127, 128, i128::MAX]),
        (VlqZ, vec![i128::MIN, -64, -1, 0, 63, 64, i128::MAX]),
    ];
    for (kind, values) in cases {
        let types = BeadTypeSet::new(&[kind]);
        let mut b = BeadsSequenceBuilder::new(&types).unwrap();
        for value in values.iter() {
            assert!(b.push_int(*value));
        }
        let bytes = encoded(&b);
        let beads = TypedBeads::new(&bytes, &types).unwrap();
        assert_eq!(beads.len(), values.len());
        let read: Vec<i128> = collect(&beads).iter().map(|x| x.to_int().unwrap()).collect();
        assert_eq!(read, values);
        for bead in collect(&beads) {
            assert_eq!(bead.bead_type(), kind);
            if bead.to_int().unwrap() >= 0 {
                assert_eq!(bead.to_uint().unwrap() as i128, bead.to_int().unwrap());
            } else {
                assert_eq!(bead.to_uint(), Err(BeadsError::TypeMismatch));
            }
        }
    }
    for (kind, value) in [(U128, u128::MAX), (Vlq, u128::MAX), (U64, u64::MAX as u128)] {
        let types = BeadTypeSet::new(&[kind]);
        let mut b = BeadsSequenceBuilder::new(&types).unwrap();
        assert!(b.push_uint(value));
        let bytes = encoded(&b);
        let beads = TypedBeads::new(&bytes, &types).unwrap();
        let read = collect(&beads);
        assert_eq!(read[0].to_uint(), Ok(value));
        if value > i128::MAX as u128 {
            assert_eq!(read[0].to_int(), Err(BeadsError::TypeMismatch));
        }
    }
}

#[test]
fn a_mixed_sequence_reads_back_in_order() {
    for types in [
        vec![Utf8, U8],
        vec![Utf8, U8, NoneFlag],
        vec![Utf8, Bytes, VlqZ, NoneFlag, TrueFlag, FalseFlag, U8],
    ] {
        let set = BeadTypeSet::new(&types);
        let mut b = BeadsSequenceBuilder::new(&set).unwrap();
        let mut expected: Vec<(BeadType, Vec<u8>)> = Vec::new();
        for round in 0..23u8 {
            let text = "é".repeat(round as usize);
            assert!(b.push_string(&text));
            expected.push((Utf8, text.as_bytes().to_vec()));
            assert!(b.push_uint(round as u128));
            if types.contains(&U8) && !types.contains(&VlqZ) {
                expected.push((U8, vec![round]));
            } else {
                expected.push((U8, vec![round]));
            }
            if b.push_none() {
                expected.push((NoneFlag, vec![]));
            }
            if b.push_bool(round % 2 == 0) {
                expected.push((if round % 2 == 0 { TrueFlag } else { FalseFlag }, vec![]));
            }
            if b.push_bytes(&[round; 200]) {
                expected.push((Bytes, vec![round; 200]));
            }
            if b.push_int(-(round as i128) - 300) {
                expected.push((VlqZ, {
                    let mut out = Vec::new();
                    push_vlq(&mut out, zigzag_encode(-(round as i128) - 300));
                    out
                }));
            }
        }
        assert_eq!(b.count(), expected.len());
        let bytes = encoded(&b);
        assert_eq!(BeadsBuilder::len(&b), bytes.len());
        let beads = TypedBeads::new(&bytes, &set).unwrap();
        assert_eq!(beads.len(), expected.len());
        let read: Vec<(BeadType, Vec<u8>)> =
            collect(&beads).iter().map(|x| (x.bead_type(), x.to_bytes().to_vec())).collect();
        assert_eq!(read, expected);
        let mut with_types = Vec::new();
        b.encode_with_types(&mut with_types);
        assert_eq!(&with_types[..4], &set.bytes());
        assert_eq!(&with_types[4..], bytes.as_slice());
        let again = TypedBeads::new_types_included(&with_types).unwrap();
        let reread: Vec<(BeadType, Vec<u8>)> =
            collect(&again).iter().map(|x| (x.bead_type(), x.to_bytes().to_vec())).collect();
        assert_eq!(reread, expected);
    }
}

#[test]
fn an_empty_sequence_has_a_region_of_one_byte() {
    assert_eq!(encoded(&builder(&[BeadType::U8])), vec![0, 0]);
    assert_eq!(encoded(&builder(&[BeadType::U8, BeadType::I8])), vec![0, 0]);
    let mut markers = builder(&[BeadType::NoneFlag]);
    assert!(markers.push_none());
    assert!(markers.push_none());
    assert_eq!(encoded(&markers), vec![2, 0]);
    let set = BeadTypeSet::new(&[BeadType::NoneFlag]);
    let bytes = encoded(&markers);
    let beads = TypedBeads::new(&bytes, &set).unwrap();
    assert!(collect(&beads).iter().all(|x| x.is_none()));
    assert_eq!(collect(&beads).len(), 2);
    let view = beads.symmetric().unwrap();
    assert!(view.get(1).unwrap().is_none());
    assert!(matches!(view.get(2), Err(BeadsError::InvalidIndex)));
}

#[test]
fn a_tag_byte_is_opened_when_the_last_one_is_full() {
    let mut bools = builder(&[BeadType::TrueFlag, BeadType::FalseFlag]);
    for _ in 0..8 {
        assert!(bools.push_bool(false));
    }
    assert_eq!(encoded(&bools), vec![8, 255]);
    assert!(bools.push_bool(true));
    assert_eq!(encoded(&bools), vec![9, 255, 0]);
    let mut nibbles = builder(&[
        BeadType::NoneFlag,
        BeadType::TrueFlag,
        BeadType::FalseFlag,
        BeadType::U8,
        BeadType::U16,
    ]);
    assert!(nibbles.push_uint(7));
    assert!(nibbles.push_uint(256));
    assert!(nibbles.push_bool(false));
    assert_eq!(encoded(&nibbles), vec![3, 0x43, 7, 0, 1, 2]);
}

#[test]
fn a_push_that_fails_keeps_the_beads() {
    let mut b = builder(&[BeadType::U8, BeadType::I8]);
    for value in 0..8 {
        assert!(b.push_int(value));
    }
    let before = encoded(&b);
    assert_eq!(before, vec![8, 255, 0, 1, 2, 3, 4, 5, 6, 7]);
    assert!(!b.push_none());
    assert!(!b.push_string("x"));
    assert!(!b.push_bool(true));
    assert_eq!(encoded(&b), before);
    assert!(!b.push_int(403));
    assert_eq!(b.count(), 8);
    let mut after = before.clone();
    after.push(0);
    assert_eq!(encoded(&b), after);
    let set = BeadTypeSet::new(&[BeadType::U8, BeadType::I8]);
    let bytes = encoded(&b);
    let beads = TypedBeads::new(&bytes, &set).unwrap();
    let read: Vec<i128> = collect(&beads).iter().map(|x| x.to_int().unwrap()).collect();
    assert_eq!(read, vec![0, 1, 2, 3, 4, 5, 6, 7]);
    assert!(b.push_int(-9));
    assert_eq!(encoded(&b), vec![9, 255, 0, 1, 2, 3, 4, 5, 6, 7, 1, 247]);
    let mut single = builder(&[BeadType::U8]);
    assert!(single.push_uint(20));
    assert!(!single.push_uint(403));
    assert!(!single.push_int(-1));
    assert_eq!(encoded(&single), vec![1, 20]);
}

#[test]
fn utf8_with_a_four_byte_code_point() {
    let mut b = builder(&[BeadType::Utf8]);
    assert!(b.push_string("🤪"));
    assert_eq!(encoded(&b), vec![1, 0x04, 0xF0, 0x9F, 0xA4, 0xAA]);
    let set = BeadTypeSet::new(&[BeadType::Utf8]);
    let bytes = encoded(&b);
    let beads = TypedBeads::new(&bytes, &set).unwrap();
    assert_eq!(collect(&beads)[0].to_str(), Ok("🤪"));
}

#[test]
fn text_that_is_not_utf8_is_a_type_mismatch() {
    let mut b = builder(&[BeadType::Utf8, BeadType::Bytes]);
    assert!(b.push_utf8(&[0xff, 0xfe]));
    assert!(b.push_utf8("ok".as_bytes()));
    assert!(b.push_bytes("ok".as_bytes()));
    let set = BeadTypeSet::new(&[BeadType::Utf8, BeadType::Bytes]);
    let bytes = encoded(&b);
    let beads = TypedBeads::new(&bytes, &set).unwrap();
    let read = collect(&beads);
    assert_eq!(read[0].to_str(), Err(BeadsError::TypeMismatch));
    assert_eq!(read[0].to_bytes(), &[0xff, 0xfe]);
    assert_eq!(read[1].to_str(), Ok("ok"));
    assert_eq!(read[2].to_str(), Err(BeadsError::TypeMismatch));
    assert!(read[2].is_bytes() && read[1].is_string());
}

#[test]
fn accessors_of_another_category_are_a_type_mismatch() {
    let types = [NoneFlag, TrueFlag, FalseFlag, U8, I8, Utf8, Bytes, F32];
    let set = BeadTypeSet::new(&types);
    let mut b = BeadsSequenceBuilder::new(&set).unwrap();
    assert!(b.push_none());
    assert!(b.push_bool(true));
    assert!(b.push_bool(false));
    assert!(b.push_uint(200));
    assert!(b.push_int(-100));
    assert!(b.push_string("s"));
    assert!(b.push_bytes(&[1]));
    assert!(b.push_uint(1 << 20));
    let bytes = encoded(&b);
    let beads = TypedBeads::new(&bytes, &set).unwrap();
    let read = collect(&beads);
    let kinds: Vec<BeadType> = read.iter().map(|x| x.bead_type()).collect();
    assert_eq!(kinds, types.to_vec());
    assert!(read[0].is_none() && !read[0].is_bool());
    assert_eq!(read[0].to_bool(), Err(BeadsError::TypeMismatch));
    assert_eq!(read[1].to_bool(), Ok(true));
    assert_eq!(read[2].to_bool(), Ok(false));
    assert!(read[1].is_true() && read[1].is_bool() && read[2].is_false() && read[2].is_bool());
    assert!(read[3].is_uint() && !read[3].is_int());
    assert_eq!(read[3].to_uint(), Ok(200));
    assert_eq!(read[3].to_int(), Ok(200));
    assert_eq!(read[3].to_bool(), Err(BeadsError::TypeMismatch));
    assert!(read[4].is_int() && !read[4].is_uint());
    assert_eq!(read[4].to_int(), Ok(-100));
    assert_eq!(read[4].to_uint(), Err(BeadsError::TypeMismatch));
    assert_eq!(read[5].to_int(), Err(BeadsError::TypeMismatch));
    assert_eq!(read[5].to_uint(), Err(BeadsError::TypeMismatch));
    assert_eq!(read[6].to_int(), Err(BeadsError::TypeMismatch));
    assert!(read[7].is_float());
    assert_eq!(read[7].to_int(), Err(BeadsError::TypeMismatch));
    assert_eq!(read[7].to_bytes(), &(1048576.0f32).to_le_bytes());
}

#[test]
fn truncated_data_is_reported() {
    let set = BeadTypeSet::new(&[BeadType::Utf8, BeadType::U32]);
    let mut b = BeadsSequenceBuilder::new(&set).unwrap();
    assert!(b.push_string("hello"));
    assert!(b.push_uint(70000));
    let bytes = encoded(&b);
    assert_eq!(bytes, vec![2, 1, 5, 104, 101, 108, 108, 111, 112, 17, 1, 0]);
    for cut in 0..bytes.len() {
        let short = &bytes[..cut];
        match TypedBeads::new(short, &set) {
            Err(e) => {
                assert!(cut <= 1);
                assert!(e == BeadsError::InvalidVarint || e == BeadsError::TruncatedBuffer);
            }
            Ok(beads) => {
                let mut it = beads.iter();
                let mut failed = None;
                while let Some(r) = it.next() {
                    if let Err(e) = r {
                        failed = Some(e);
                    }
                }
                assert!(
                    failed == Some(BeadsError::TruncatedBuffer)
                        || failed == Some(BeadsError::InvalidVarint)
                );
                assert!(it.next().is_none());
            }
        }
    }
    assert!(matches!(TypedBeads::new(&[], &set), Err(BeadsError::InvalidVarint)));
    assert!(matches!(TypedBeads::new(&[0x80], &set), Err(BeadsError::InvalidVarint)));
    assert!(matches!(TypedBeads::new(&[2], &set), Err(BeadsError::TruncatedBuffer)));
    assert!(matches!(
        TypedBeads::new_types_included(&[0, 0, 4, 0]),
        Err(BeadsError::TruncatedBuffer)
    ));
    let vlq = BeadTypeSet::new(&[BeadType::Vlq]);
    let beads = TypedBeads::new(&[1, 0x80, 0x80], &vlq).unwrap();
    assert!(matches!(beads.iter().next(), Some(Err(BeadsError::InvalidVarint))));
    let text = BeadTypeSet::new(&[BeadType::Utf8]);
    let beads = TypedBeads::new(&[1, 5, 104, 101], &text).unwrap();
    assert!(matches!(beads.iter().next(), Some(Err(BeadsError::TruncatedBuffer))));
}

#[test]
fn a_tag_outside_the_set_is_a_bad_type_set() {
    let set = BeadTypeSet::new(&[BeadType::U8, BeadType::I8, BeadType::NoneFlag]);
    let beads = TypedBeads::new(&[1, 3, 9], &set).unwrap();
    assert!(matches!(beads.iter().next(), Some(Err(BeadsError::BadTypeSet))));
    let beads = TypedBeads::new(&[1, 2, 9], &set).unwrap();
    assert_eq!(collect(&beads)[0].to_int(), Ok(9));
    let pair = BeadTypeSet::new(&[BeadType::U8, BeadType::I8, BeadType::I16]);
    let beads = TypedBeads::new(&[1, 3, 9], &pair).unwrap();
    assert!(matches!(beads.symmetric(), Err(BeadsError::BadTypeSet)));
    let same = BeadTypeSet::new(&[BeadType::U16, BeadType::I16, BeadType::F16]);
    let beads = TypedBeads::new(&[1, 3, 9, 9], &same).unwrap();
    assert!(matches!(beads.symmetric().unwrap().get(0), Err(BeadsError::BadTypeSet)));
}

#[test]
fn symmetric_view_agrees_with_the_walk() {
    for types in [
        vec![U8],
        vec![I16],
        vec![U8, I8],
        vec![U16, I16, F16],
        vec![U32, I32, F32],
        vec![U64, I64, F64],
        vec![U128, I128],
        vec![TrueFlag, FalseFlag],
        vec![TrueFlag, FalseFlag, NoneFlag],
    ] {
        let set = BeadTypeSet::new(&types);
        let mut b = BeadsSequenceBuilder::new(&set).unwrap();
        for value in 0..70i128 {
            let pushed =
                b.push_int(value - 35) || b.push_int(value) || b.push_bool(value % 3 == 0);
            assert!(pushed);
            if value % 5 == 0 {
                b.push_none();
            }
        }
        let bytes = encoded(&b);
        let beads = TypedBeads::new(&bytes, &set).unwrap();
        assert!(beads.is_symmetrical());
        let view = beads.symmetric().unwrap();
        assert_eq!(view.len(), beads.len());
        let walked = collect(&beads);
        assert_eq!(walked.len(), view.len());
        for (index, bead) in walked.iter().enumerate() {
            let found = view.get(index).unwrap();
            assert_eq!(found.bead_type(), bead.bead_type());
            assert_eq!(found.to_bytes(), bead.to_bytes());
        }
        assert!(matches!(view.get(view.len()), Err(BeadsError::InvalidIndex)));
        let short = TypedBeads::new(&bytes[..bytes.len() - 1], &set).unwrap();
        if types[0].data_size() > 0 {
            let last = short.symmetric().unwrap().get(short.len() - 1);
            assert!(matches!(last, Err(BeadsError::TruncatedBuffer)));
        }
    }
    for types in [vec![U8, U16], vec![Vlq], vec![U8, NoneFlag], vec![Utf8], vec![F32, F64]] {
        let set = BeadTypeSet::new(&types);
        let beads = TypedBeads::new(&[0, 0], &set).unwrap();
        assert!(!beads.is_symmetrical());
        assert!(matches!(beads.symmetric(), Err(BeadsError::BadTypeSet)));
    }
}

#[test]
fn indexed_get_at_the_length_is_an_invalid_index() {
    let mut b = IndexedBeadsBuilder::new();
    b.push(&[1, 2, 3, 4]);
    b.push(&[]);
    b.push(&[5]);
    assert_eq!(b.count(), 3);
    let mut bytes = Vec::new();
    b.encode(&mut bytes);
    assert_eq!(bytes, vec![24, 4, 4, 5, 1, 2, 3, 4, 5]);
    assert_eq!(BeadsBuilder::len(&b), 9);
    let beads = IndexedBeads::new(&bytes).unwrap();
    assert_eq!(beads.len(), 3);
    assert_eq!(beads.get(0), Ok(&[1u8, 2, 3, 4][..]));
    assert_eq!(beads.get(1), Ok(&[][..]));
    assert_eq!(beads.get(2), Ok(&[5u8][..]));
    assert_eq!(beads.get(3), Err(BeadsError::InvalidIndex));
    assert_eq!(beads.get(usize::MAX), Err(BeadsError::InvalidIndex));
}

#[test]
fn indexed_beads_choose_the_smallest_width_of_an_entry() {
    let part = vec![7u8; 255];
    let mut b = IndexedBeadsBuilder::new();
    b.push(&part);
    let mut bytes = Vec::new();
    b.encode(&mut bytes);
    assert_eq!(&bytes[..2], &[8, 255]);
    assert_eq!(bytes.len(), 2 + 255);
    b.push(&[1]);
    bytes.clear();
    b.encode(&mut bytes);
    assert_eq!(&bytes[..5], &[17, 255, 0, 0, 1]);
    let beads = IndexedBeads::new(&bytes).unwrap();
    assert_eq!(beads.get(0).unwrap(), part.as_slice());
    assert_eq!(beads.get(1).unwrap(), &[1]);
    let big = vec![3u8; 70000];
    let mut wide = IndexedBeadsBuilder::new();
    for _ in 0..17 {
        wide.push(&big);
    }
    bytes.clear();
    wide.encode(&mut bytes);
    assert_eq!(&bytes[..2], &[138, 1]);
    assert_eq!(bytes.len(), 2 + 17 * 3 + 17 * 70000);
    assert_eq!(IndexedBeads::new(&bytes).unwrap().get(16).unwrap(), big.as_slice());
}

#[test]
fn indexed_beads_without_a_byte_write_nothing() {
    let mut out = vec![42u8];
    IndexedBeadsBuilder::new().encode(&mut out);
    let mut b = IndexedBeadsBuilder::new();
    b.push(&[]);
    b.push(&[]);
    b.encode(&mut out);
    assert_eq!(BeadsBuilder::len(&b), 0);
    IndexedBeadsBuilder::encode_from_beads_builders(&mut out, Vec::new());
    assert_eq!(out, vec![42]);
    assert!(matches!(IndexedBeads::new(&[]), Err(BeadsError::InvalidVarint)));
    assert!(matches!(IndexedBeads::new(&[8, 0]), Err(BeadsError::TruncatedBuffer)));
    assert!(matches!(IndexedBeads::new(&[16, 1]), Err(BeadsError::TruncatedBuffer)));
    let beads = IndexedBeads::new(&[16, 2, 1, 9]).unwrap();
    assert_eq!(beads.get(0), Err(BeadsError::TruncatedBuffer));
    assert_eq!(beads.get(1), Err(BeadsError::TruncatedBuffer));
}

#[test]
fn indexed_beads_of_builders() {
    let mut first = builder(&[BeadType::U8]);
    first.push_uint(1);
    let mut second = FixedSizeBeadsBuilder::new(2);
    second.push(&[1, 2]);
    second.push(&[3, 4]);
    let mut third = FixedSizeBeadsIncrementalUintBuilder::new();
    third.push(300);
    let mut out = Vec::new();
    let builders: Vec<Box<dyn BeadsBuilder>> = vec![Box::new(first), Box::new(second), Box::new(third)];
    let lengths: Vec<usize> = builders.iter().map(|b| b.len()).collect();
    assert_eq!(lengths, vec![2, 5, 3]);
    IndexedBeadsBuilder::encode_from_beads_builders(&mut out, builders);
    assert_eq!(out, vec![24, 2, 7, 10, 1, 1, 2, 1, 2, 3, 4, 2, 44, 1]);
    let beads = IndexedBeads::new(&out).unwrap();
    assert_eq!(beads.get(0), Ok(&[1u8, 1][..]));
    assert_eq!(beads.get(1), Ok(&[2u8, 1, 2, 3, 4][..]));
    assert_eq!(beads.get(2), Ok(&[2u8, 44, 1][..]));
}

#[test]
fn fixed_size_beads_have_whole_records() {
    let beads = FixedSizeBeads::new(&[3, 1, 2, 3, 4, 5, 6, 7]).unwrap();
    assert_eq!(beads.len(), 2);
    assert_eq!(beads.get(1), Ok(&[4u8, 5, 6][..]));
    assert_eq!(beads.get(2), Err(BeadsError::InvalidIndex));
    assert_eq!(beads.get(usize::MAX), Err(BeadsError::InvalidIndex));
    assert!(matches!(FixedSizeBeads::new(&[0, 1, 2]), Err(BeadsError::InvalidVarint)));
    assert!(matches!(FixedSizeBeads::new(&[]), Err(BeadsError::InvalidVarint)));
    let empty = FixedSizeBeads::new(&[200, 1]).unwrap();
    assert_eq!(empty.len(), 0);
    let mut b = FixedSizeBeadsBuilder::new(200);
    b.push(&[1; 200]);
    let mut out = Vec::new();
    b.encode(&mut out);
    assert_eq!(&out[..3], &[200, 1, 1]);
    assert_eq!(b.len(), 202);
    assert_eq!(out.len(), 202);
}

#[test]
fn incremental_uint_beads_take_the_smallest_width() {
    let encode = |values: &[u128]| {
        let mut b = FixedSizeBeadsIncrementalUintBuilder::new();
        for value in values {
            b.push(*value);
        }
        let mut out = Vec::new();
        b.encode(&mut out);
        assert_eq!(b.len(), out.len());
        out
    };
    assert_eq!(encode(&[]), vec![1]);
    assert_eq!(encode(&[0, 0]), vec![1, 0, 0]);
    assert_eq!(encode(&[255]), vec![1, 255]);
    assert_eq!(encode(&[256, 1]), vec![2, 0, 1, 1, 0]);
    assert_eq!(encode(&[1, 1 << 16]), vec![3, 1, 0, 0, 0, 0, 1]);
    let widest = encode(&[u128::MAX, 5]);
    assert_eq!(widest.len(), 33);
    assert_eq!(widest[0], 16);
    let beads = FixedSizeBeads::new(&widest).unwrap();
    assert_eq!(u128_from_slice(beads.get(0).unwrap()), u128::MAX);
    assert_eq!(u128_from_slice(beads.get(1).unwrap()), 5);
    assert_eq!(u128_from_slice(&[]), 0);
    assert_eq!(u128_from_slice(&[255; 16]), u128::MAX);
}

#[test]
fn dedup_beads_keep_each_value_once_in_first_seen_order() {
    let values: Vec<&[u8]> = vec![b"b", b"a", b"b", b"", b"c", b"a", b"", b"b"];
    let mut borrowing = DedupBeadsBuilder::new();
    let mut owning = OwningDedupBeadsBuilder::new();
    for value in values.iter() {
        borrowing.push(value);
        owning.push(value);
    }
    let mut bytes = Vec::new();
    borrowing.encode(&mut bytes);
    let mut same = Vec::new();
    owning.encode(&mut same);
    assert_eq!(bytes, same);
    assert_eq!(borrowing.len(), bytes.len());
    assert_eq!(owning.len(), bytes.len());
    assert_eq!(
        bytes,
        vec![16, 9, 17, 1, 0, 1, 0, 2, 3, 1, 2, 0, 32, 1, 2, 2, 3, 98, 97, 99]
    );
    let dedup = DedupBeads::new(&bytes);
    assert_eq!(dedup.len(), Ok(values.len()));
    for (index, value) in values.iter().enumerate() {
        assert_eq!(dedup.get(index), Ok(value.to_vec()));
    }
    assert_eq!(dedup.get(values.len()), Err(BeadsError::InvalidIndex));
    let root = IndexedBeads::new(&bytes).unwrap();
    let distinct = IndexedBeads::new(root.get(1).unwrap()).unwrap();
    assert_eq!(distinct.len(), 4);
    let kept: Vec<&[u8]> = (0..4).map(|i| distinct.get(i).unwrap()).collect();
    assert_eq!(kept, vec![&b"b"[..], &b"a"[..], &b""[..], &b"c"[..]]);
}

#[test]
fn dedup_beads_of_a_sequence() {
    let set = BeadTypeSet::new(&[BeadType::U16, BeadType::NoneFlag]);
    let mut b = BeadsSequenceBuilder::new(&set).unwrap();
    for value in [7u128, 7, 300, 7] {
        assert!(b.push_uint(value));
    }
    assert!(b.push_none());
    assert!(b.push_uint(300));
    let bytes = encoded(&b);
    let mut out = Vec::new();
    assert_eq!(beads_to_dedup_beads(&bytes, &set, &mut out), Ok(()));
    let dedup = DedupBeads::new(&out);
    assert_eq!(dedup.len(), Ok(6));
    let read: Vec<Vec<u8>> = (0..6).map(|i| dedup.get(i).unwrap()).collect();
    assert_eq!(read, vec![vec![7, 0], vec![7, 0], vec![44, 1], vec![7, 0], vec![], vec![44, 1]]);
    let mut untouched = vec![1u8];
    assert_eq!(
        beads_to_dedup_beads(&bytes[..4], &set, &mut untouched),
        Err(BeadsError::TruncatedBuffer)
    );
    assert_eq!(
        beads_to_dedup_beads(&bytes, &BeadTypeSet::new(&[]), &mut untouched),
        Err(BeadsError::BadTypeSet)
    );
    assert_eq!(untouched, vec![1]);
    assert!(DedupBeads::new(&[]).len().is_err());
    assert!(DedupBeads::new(&[16, 1, 2, 0, 0]).get(0).is_err());
}

#[test]
fn decimal_text_of_integers() {
    assert_eq!(parse_i128(b"0"), Some(0));
    assert_eq!(parse_i128(b"-0"), Some(0));
    assert_eq!(parse_i128(b"+17"), Some(17));
    assert_eq!(parse_i128(b"-17"), Some(-17));
    assert_eq!(parse_i128(b"0017"), Some(17));
    assert_eq!(parse_i128(b""), None);
    assert_eq!(parse_i128(b"-"), None);
    assert_eq!(parse_i128(b"+"), None);
    assert_eq!(parse_i128(b"1.0"), None);
    assert_eq!(parse_i128(b" 1"), None);
    assert_eq!(parse_i128(b"1a"), None);
    assert_eq!(parse_i128(b"--1"), None);
    assert_eq!(parse_i128(b"170141183460469231731687303715884105727"), Some(i128::MAX));
    assert_eq!(parse_i128(b"170141183460469231731687303715884105728"), None);
    assert_eq!(parse_i128(b"-170141183460469231731687303715884105728"), Some(i128::MIN));
    assert_eq!(parse_i128(b"-170141183460469231731687303715884105729"), None);
    assert_eq!(parse_i128(b"999999999999999999999999999999999999999999"), None);
    for text in ["0", "-0", "+17", "0017", "", "-", "1a", "170141183460469231731687303715884105728"] {
        assert_eq!(parse_i128(text.as_bytes()), text.parse::<i128>().ok());
    }
}

#[test]
fn strings_that_fit_no_type_are_an_unfit_value() {
    let strings = BeadTypeSet::new(&[BeadType::Utf8]);
    let mut b = BeadsSequenceBuilder::new(&strings).unwrap();
    for text in ["1", "x", "300", "-5"] {
        assert!(b.push_string(text));
    }
    let source = encoded(&b);
    let mut out = vec![9u8];
    let narrow = BeadTypeSet::new(&[BeadType::U8]);
    assert_eq!(string_beads_to_int_beads(&source, &narrow, &mut out), Err(BeadsError::UnfitValue));
    assert_eq!(out, vec![9]);
    let optional = BeadTypeSet::new(&[BeadType::U8, BeadType::NoneFlag]);
    assert_eq!(string_beads_to_int_beads(&source, &optional, &mut out), Ok(()));
    assert_eq!(out, vec![9, 4, 0b0001, 1]);
    out.clear();
    let wide = BeadTypeSet::new(&[BeadType::U8, BeadType::I16, BeadType::NoneFlag]);
    assert_eq!(string_beads_to_int_beads(&source, &wide, &mut out), Ok(()));
    assert_eq!(out, vec![4, 0b10_10_00_01, 1, 44, 1, 251, 255]);
    out.clear();
    assert_eq!(
        string_beads_to_int_beads(&source, &BeadTypeSet::new(&[]), &mut out),
        Err(BeadsError::BadTypeSet)
    );
    assert_eq!(
        string_beads_to_int_beads(&source[..4], &wide, &mut out),
        Err(BeadsError::TruncatedBuffer)
    );
    assert_eq!(string_beads_to_int_beads(&[], &wide, &mut out), Err(BeadsError::InvalidVarint));
    assert_eq!(
        string_beads_to_indexed_beads(&source[..4], &mut out),
        Err(BeadsError::TruncatedBuffer)
    );
    assert!(out.is_empty());
    assert_eq!(string_beads_to_indexed_beads(&source, &mut out), Ok(()));
    assert_eq!(out, vec![32, 1, 2, 5, 7, 49, 120, 51, 48, 48, 45, 53]);
}

#[test]
fn comma_separated_text_with_line_ends_and_quotes() {
    let columns = |text: &str| {
        let mut out = Vec::new();
        csv_to_indexed_string_beads(text, &mut out);
        if out.is_empty() {
            return Vec::new();
        }
        let set = BeadTypeSet::new(&[BeadType::Utf8]);
        let indexed = IndexedBeads::new(&out).unwrap();
        (0..indexed.len())
            .map(|i| {
                let beads = TypedBeads::new(indexed.get(i).unwrap(), &set).unwrap();
                collect(&beads).iter().map(|x| x.to_str().unwrap().to_string()).collect()
            })
            .collect::<Vec<Vec<String>>>()
    };
    let strings = |rows: &[&[&str]]| -> Vec<Vec<String>> {
        rows.iter().map(|r| r.iter().map(|s| s.to_string()).collect()).collect()
    };
    assert_eq!(columns(""), strings(&[]));
    assert_eq!(columns("a"), strings(&[&["a"]]));
    assert_eq!(columns("a\n"), strings(&[&["a"]]));
    assert_eq!(columns("a,b\r\nc,d\r\n"), strings(&[&["a", "c"], &["b", "d"]]));
    assert_eq!(columns("a\rb\n"), strings(&[&["a\rb"]]));
    assert_eq!(columns("a,,b\n,x,"), strings(&[&["a", ""], &["", "x"], &["b"]]));
    assert_eq!(columns("\"a,\nb\",\"\"\"\"\n"), strings(&[&["a,\nb"], &["\""]]));
    assert_eq!(columns("é,🤪"), strings(&[&["é"], &["🤪"]]));
    assert_eq!(columns("\n\n"), strings(&[&["", ""]]));
}

#[test]
fn candidates_are_taken_in_order() {
    let set = BeadTypeSet::new(&[U8, U16, Vlq, Utf8]);
    let mut b = BeadsSequenceBuilder::new(&set).unwrap();
    let candidates = vec![
        Candidate { kind: I8, payload: Some(vec![1]) },
        Candidate { kind: U8, payload: None },
        Candidate { kind: U16, payload: Some(vec![1]) },
        Candidate { kind: Vlq, payload: Some(vec![0x80]) },
        Candidate { kind: Vlq, payload: Some(vec![0x81, 0x00, 0x00]) },
        Candidate { kind: U16, payload: Some(vec![5, 6]) },
        Candidate { kind: U8, payload: Some(vec![9]) },
    ];
    assert!(b.push_candidates(&candidates));
    assert!(b.push_candidates(&vec![Candidate { kind: Vlq, payload: Some(vec![0x81, 0x00]) }]));
    assert!(b.push_candidates(&vec![Candidate { kind: Utf8, payload: Some(vec![65, 66]) }]));
    assert!(!b.push_candidates(&Vec::new()));
    assert!(!b.push_candidates(&vec![Candidate { kind: U8, payload: Some(vec![]) }]));
    assert!(!b.push_candidates(&vec![Candidate { kind: Bytes, payload: Some(vec![]) }]));
    assert_eq!(encoded(&b), vec![3, 0b11_10_01, 5, 6, 0x81, 0x00, 2, 65, 66]);
}

#[test]
fn fields_of_comma_separated_text() {
    let fields = |text: &str, lone_return: bool| -> Vec<(usize, usize, String)> {
        rusty_beads::csv::csv_fields(text.as_bytes(), lone_return)
            .into_iter()
            .map(|f| (f.row, f.column, String::from_utf8(f.bytes).unwrap()))
            .collect()
    };
    let field = |row: usize, column: usize, text: &str| (row, column, text.to_string());
    assert_eq!(fields("", false), vec![]);
    assert_eq!(fields("a,b\nc", false), vec![field(0, 0, "a"), field(0, 1, "b"), field(1, 0, "c")]);
    assert_eq!(
        fields("a\r\nb\rc\n", false),
        vec![field(0, 0, "a"), field(1, 0, "b\rc")]
    );
    assert_eq!(
        fields("a\r\nb\rc\n", true),
        vec![field(0, 0, "a"), field(1, 0, ""), field(2, 0, "b"), field(3, 0, "c")]
    );
    assert_eq!(
        fields("\"x,\"\"y\"\"\n\",z,\n", false),
        vec![field(0, 0, "x,\"y\"\n"), field(0, 1, "z"), field(0, 2, "")]
    );
    assert_eq!(fields(",", true), vec![field(0, 0, "")]);
}

#[test]
fn conversions_of_a_bead_to_an_integer_type() {
    let types = [U8, I16, U128, Utf8];
    let set = BeadTypeSet::new(&types);
    let mut b = BeadsSequenceBuilder::new(&set).unwrap();
    assert!(b.push_uint(200));
    assert!(b.push_int(-300));
    assert!(b.push_uint(u128::MAX));
    assert!(b.push_string("🤨"));
    let bytes = encoded(&b);
    let beads = TypedBeads::new(&bytes, &set).unwrap();
    let read = || collect(&beads);
    assert_eq!(u8::try_from(read().remove(0)), Ok(200));
    assert_eq!(i8::try_from(read().remove(0)), Err(BeadsError::TypeMismatch));
    assert_eq!(i16::try_from(read().remove(0)), Ok(200));
    assert_eq!(u64::try_from(read().remove(0)), Ok(200));
    assert_eq!(i128::try_from(read().remove(0)), Ok(200));
    assert_eq!(i16::try_from(read().remove(1)), Ok(-300));
    assert_eq!(i32::try_from(read().remove(1)), Ok(-300));
    assert_eq!(i64::try_from(read().remove(1)), Ok(-300));
    assert_eq!(i8::try_from(read().remove(1)), Err(BeadsError::TypeMismatch));
    assert_eq!(u16::try_from(read().remove(1)), Err(BeadsError::TypeMismatch));
    assert_eq!(u32::try_from(read().remove(1)), Err(BeadsError::TypeMismatch));
    assert_eq!(u128::try_from(read().remove(2)), Ok(u128::MAX));
    assert_eq!(i128::try_from(read().remove(2)), Err(BeadsError::TypeMismatch));
    assert_eq!(u64::try_from(read().remove(2)), Err(BeadsError::TypeMismatch));
    assert_eq!(u8::try_from(read().remove(3)), Err(BeadsError::TypeMismatch));
    assert_eq!(String::try_from(read().remove(3)), Ok("🤨".to_string()));
    assert_eq!(String::try_from(read().remove(0)), Err(BeadsError::TypeMismatch));
}
