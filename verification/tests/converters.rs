use rusty_beads::bead_type::{BeadType, BeadTypeSet};
use rusty_beads::builder::BeadsSequenceBuilder;
use rusty_beads::converters::{
    beads_to_dedup_beads, csv_to_indexed_string_beads, string_beads_to_indexed_beads,
    string_beads_to_int_beads, u128_from_slice,
};
use rusty_beads::reference::BeadReference;
use rusty_beads::sequence::{FixedSizeBeads, IndexedBeads, TypedBeads};

fn collect<'a>(beads: &TypedBeads<'a>) -> Vec<BeadReference<'a>> {
    let mut it = beads.iter();
    let mut out = Vec::new();
    while let Some(r) = it.next() {
        out.push(r.unwrap());
    }
    out
}

#[test]
fn empty_string() {
    let mut out: Vec<u8> = vec![];
    csv_to_indexed_string_beads("", &mut out);
    assert_eq!(out, vec![])
}

#[test]
fn one_row() {
    let mut out: Vec<u8> = vec![];
    csv_to_indexed_string_beads("a,b", &mut out);
    assert_eq!(out, vec![16, 3, 6, 1, 1, 97, 1, 1, 98]);
    let ib = IndexedBeads::new(out.as_slice()).unwrap();
    assert_eq!(ib.len(), 2);
    let b1 = TypedBeads::new(ib.get(0).unwrap(), &BeadTypeSet::new(&[BeadType::Utf8])).unwrap();
    let c1: Vec<String> = collect(&b1).into_iter().map(|b| String::try_from(b).unwrap()).collect();
    assert_eq!(c1, vec!["a"]);
    let b1 = TypedBeads::new(ib.get(1).unwrap(), &BeadTypeSet::new(&[BeadType::Utf8])).unwrap();
    let c1: Vec<String> = collect(&b1).into_iter().map(|b| String::try_from(b).unwrap()).collect();
    assert_eq!(c1, vec!["b"]);
}

#[test]
fn two_row() {
    let mut out: Vec<u8> = vec![];
    csv_to_indexed_string_beads("a,b\n1,2", &mut out);
    assert_eq!(out, vec![16, 5, 10, 2, 1, 97, 1, 49, 2, 1, 98, 1, 50]);
    let ib = IndexedBeads::new(out.as_slice()).unwrap();
    assert_eq!(ib.len(), 2);
    let b1 = TypedBeads::new(ib.get(0).unwrap(), &BeadTypeSet::new(&[BeadType::Utf8])).unwrap();
    let c1: Vec<String> = collect(&b1).into_iter().map(|b| String::try_from(b).unwrap()).collect();
    assert_eq!(c1, vec!["a", "1"]);
    let b1 = TypedBeads::new(ib.get(1).unwrap(), &BeadTypeSet::new(&[BeadType::Utf8])).unwrap();
    let c1: Vec<String> = collect(&b1).into_iter().map(|b| String::try_from(b).unwrap()).collect();
    assert_eq!(c1, vec!["b", "2"]);
}

#[test]
fn one_row_with_quotes() {
    let mut out: Vec<u8> = vec![];
    csv_to_indexed_string_beads("a,\"ccc\"\"b,\"\"cccc\",e", &mut out);
    assert_eq!(out, vec![24, 3, 16, 19, 1, 1, 97, 1, 11, 99, 99, 99, 34, 98, 44, 34, 99, 99, 99, 99, 1, 1, 101]);
    let ib = IndexedBeads::new(out.as_slice()).unwrap();
    assert_eq!(ib.len(), 3);
    let b = TypedBeads::new(ib.get(0).unwrap(), &BeadTypeSet::new(&[BeadType::Utf8])).unwrap();
    let c: Vec<String> = collect(&b).into_iter().map(|b| String::try_from(b).unwrap()).collect();
    assert_eq!(c, vec!["a"]);
    let b = TypedBeads::new(ib.get(1).unwrap(), &BeadTypeSet::new(&[BeadType::Utf8])).unwrap();
    let c: Vec<String> = collect(&b).into_iter().map(|b| String::try_from(b).unwrap()).collect();
    assert_eq!(c, vec!["ccc\"b,\"cccc"]);

    let b = TypedBeads::new(ib.get(2).unwrap(), &BeadTypeSet::new(&[BeadType::Utf8])).unwrap();
    let c: Vec<String> = collect(&b).into_iter().map(|b| String::try_from(b).unwrap()).collect();
    assert_eq!(c, vec!["e"]);
}

#[test]
fn convert_string_beads_to_i32() {
    let mut builder = BeadsSequenceBuilder::new(&BeadTypeSet::new(&[BeadType::Utf8])).unwrap();
    builder.push_string("1");
    builder.push_string("-1");
    builder.push_string("0");
    builder.push_string("1535340");

    let mut buffer: Vec<u8> = vec![];
    builder.encode(&mut buffer);

    let mut out: Vec<u8> = vec![];
    string_beads_to_int_beads(buffer.as_slice(), &BeadTypeSet::new(&[BeadType::I32]), &mut out).unwrap();

    assert_eq!(out, vec![4, 1, 0, 0, 0, 255, 255, 255, 255, 0, 0, 0, 0, 108, 109, 23, 0]);

    let beads = TypedBeads::new(out.as_slice(), &BeadTypeSet::new(&[BeadType::I32])).unwrap();
    let sym_b = beads.symmetric().ok().unwrap();
    assert_eq!(sym_b.get(0).unwrap().to_int().unwrap(), 1);
    assert_eq!(sym_b.get(1).unwrap().to_int().unwrap(), -1);
    assert_eq!(sym_b.get(2).unwrap().to_int().unwrap(), 0);
    assert_eq!(sym_b.get(3).unwrap().to_int().unwrap(), 1_535_340);
}

#[test]
fn convert_string_beads_to_u8() {
    let mut builder = BeadsSequenceBuilder::new(&BeadTypeSet::new(&[BeadType::Utf8])).unwrap();
    builder.push_string("1");
    builder.push_string("100");
    builder.push_string("0");
    builder.push_string("255");

    let mut buffer: Vec<u8> = vec![];
    builder.encode(&mut buffer);

    let mut out: Vec<u8> = vec![];
    string_beads_to_int_beads(buffer.as_slice(), &BeadTypeSet::new(&[BeadType::U8]), &mut out).unwrap();

    assert_eq!(out, vec![4, 1, 100, 0, 255]);

    let beads = TypedBeads::new(out.as_slice(), &BeadTypeSet::new(&[BeadType::U8])).unwrap();
    let sym_b = beads.symmetric().ok().unwrap();
    assert_eq!(sym_b.get(0).unwrap().to_int().unwrap(), 1);
    assert_eq!(sym_b.get(1).unwrap().to_int().unwrap(), 100);
    assert_eq!(sym_b.get(2).unwrap().to_int().unwrap(), 0);
    assert_eq!(sym_b.get(3).unwrap().to_int().unwrap(), 255);
}

#[test]
fn convert_string_beads_to_u8_and_i8() {
    let mut builder = BeadsSequenceBuilder::new(&BeadTypeSet::new(&[BeadType::Utf8])).unwrap();
    builder.push_string("1");
    builder.push_string("100");
    builder.push_string("0");
    builder.push_string("-25");

    let mut buffer: Vec<u8> = vec![];
    builder.encode(&mut buffer);

    let mut out: Vec<u8> = vec![];
    string_beads_to_int_beads(buffer.as_slice(), &BeadTypeSet::new(&[BeadType::U8, BeadType::I8]), &mut out).unwrap();

    assert_eq!(out, vec![4, 15, 1, 100, 0, 231]);

    let beads = TypedBeads::new(out.as_slice(), &BeadTypeSet::new(&[BeadType::U8, BeadType::I8])).unwrap();
    let sym_b = beads.symmetric().ok().unwrap();
    assert_eq!(sym_b.get(0).unwrap().to_int().unwrap(), 1);
    assert_eq!(sym_b.get(1).unwrap().to_int().unwrap(), 100);
    assert_eq!(sym_b.get(2).unwrap().to_int().unwrap(), 0);
    assert_eq!(sym_b.get(3).unwrap().to_int().unwrap(), -25);
}

#[test]
fn convert_string_beads_to_u8_and_none() {
    let mut builder = BeadsSequenceBuilder::new(&BeadTypeSet::new(&[BeadType::Utf8])).unwrap();
    builder.push_string("1");
    builder.push_string("100");
    builder.push_string("0");
    builder.push_string("");
    builder.push_string("-25");

    let mut buffer: Vec<u8> = vec![];
    builder.encode(&mut buffer);

    let mut out: Vec<u8> = vec![];
    string_beads_to_int_beads(buffer.as_slice(), &BeadTypeSet::new(&[BeadType::U8, BeadType::NoneFlag]), &mut out).unwrap();

    assert_eq!(out, vec![5, 7, 1, 100, 0]);

    let beads = TypedBeads::new(out.as_slice(), &BeadTypeSet::new(&[BeadType::U8, BeadType::NoneFlag])).unwrap();
    assert_eq!(beads.is_symmetrical(), false);
    let values = [1, 100, 0];
    for (i, b) in collect(&beads).iter().enumerate() {
        if i < 3 {
            assert_eq!(b.to_int().unwrap(), values[i]);
        } else {
            assert_eq!(b.is_none(), true);
        }
    }
}

#[test]
fn convert_string_beads_to_indexed() {
    let mut builder = BeadsSequenceBuilder::new(&BeadTypeSet::new(&[BeadType::Utf8])).unwrap();
    builder.push_string("1.1");
    builder.push_string("100.5");
    builder.push_string("0.0");
    builder.push_string("-25.0");
    builder.push_string("🤪");

    let mut buffer: Vec<u8> = vec![];
    builder.encode(&mut buffer);

    let mut out: Vec<u8> = vec![];
    string_beads_to_indexed_beads(&buffer, &mut out).unwrap();

    assert_eq!(out, vec![40, 3, 8, 11, 16, 20, 49, 46, 49, 49, 48, 48, 46, 53, 48, 46, 48, 45, 50, 53, 46, 48, 240, 159, 164, 170]);

    let beads = IndexedBeads::new(out.as_slice()).unwrap();
    assert_eq!(beads.len(), 5);
    assert_eq!(std::str::from_utf8(beads.get(0).unwrap()).unwrap(), "1.1");
    assert_eq!(std::str::from_utf8(beads.get(1).unwrap()).unwrap(), "100.5");
    assert_eq!(std::str::from_utf8(beads.get(2).unwrap()).unwrap(), "0.0");
    assert_eq!(std::str::from_utf8(beads.get(3).unwrap()).unwrap(), "-25.0");
    assert_eq!(std::str::from_utf8(beads.get(4).unwrap()).unwrap(), "🤪");
}

#[test]
fn convert_slice_to_u128() {
    assert_eq!(1, u128_from_slice(&[1]));
    assert_eq!(513, u128_from_slice(&[1, 2]));
    assert_eq!(65793, u128_from_slice(&[1, 1, 1]));
}

#[test]
fn convert_string_beads_to_dedup_beads() {
    let mut builder = BeadsSequenceBuilder::new(&BeadTypeSet::new(&[BeadType::Utf8])).unwrap();
    builder.push_string("Max");
    builder.push_string("Maxim");
    builder.push_string("Alex");
    builder.push_string("Max");
    builder.push_string("🤪");
    builder.push_string("Maxim");
    builder.push_string("Max");
    builder.push_string("Alex");
    builder.push_string("🤪");

    let mut buffer: Vec<u8> = vec![];
    builder.encode(&mut buffer);

    let mut out: Vec<u8> = vec![];
    beads_to_dedup_beads(&buffer, &BeadTypeSet::new(&[BeadType::Utf8]), &mut out).unwrap();

    assert_eq!(out, vec![
        16, 10, 31,
        1, 0, 1, 2, 0, 3, 1, 0, 2, 3,
        32, 3, 8, 12, 16,
        77, 97, 120, 77, 97, 120, 105, 109, 65, 108, 101, 120, 240, 159, 164, 170
    ]);

    let beads = IndexedBeads::new(out.as_slice()).unwrap();
    assert_eq!(beads.len(), 2);
    let index = FixedSizeBeads::new(beads.get(0).unwrap()).unwrap();
    let values = IndexedBeads::new(beads.get(1).unwrap()).unwrap();
    assert_eq!(index.len(), 9);
    assert_eq!(values.len(), 4);
    assert_eq!(values.get(u128_from_slice(index.get(0).unwrap()) as usize).unwrap(), "Max".as_bytes());
    assert_eq!(values.get(u128_from_slice(index.get(1).unwrap()) as usize).unwrap(), "Maxim".as_bytes());
    assert_eq!(values.get(u128_from_slice(index.get(2).unwrap()) as usize).unwrap(), "Alex".as_bytes());
    assert_eq!(values.get(u128_from_slice(index.get(3).unwrap()) as usize).unwrap(), "Max".as_bytes());
    assert_eq!(values.get(u128_from_slice(index.get(4).unwrap()) as usize).unwrap(), "🤪".as_bytes());
    assert_eq!(values.get(u128_from_slice(index.get(5).unwrap()) as usize).unwrap(), "Maxim".as_bytes());
    assert_eq!(values.get(u128_from_slice(index.get(6).unwrap()) as usize).unwrap(), "Max".as_bytes());
    assert_eq!(values.get(u128_from_slice(index.get(7).unwrap()) as usize).unwrap(), "Alex".as_bytes());
    assert_eq!(values.get(u128_from_slice(index.get(8).unwrap()) as usize).unwrap(), "🤪".as_bytes());
}
