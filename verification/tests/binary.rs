use nbt::binary::read::{ReadError, ReadNbt};
use nbt::binary::write::{WriteError, WriteNbt};
use nbt::binary::{Endianness, TypeTag, UnknownTagError};
use nbt::snbt::read::convert::{convert_variant, float_literals};
use nbt::snbt::read::parse::Parser;
use nbt::{BedrockHeader, Compound, List, ListVariant, NamedTag, Variant};

fn encode<T: WriteNbt>(value: &T, endianness: Endianness) -> Vec<u8> {
    let mut out = Vec::new();
    value.write_nbt(&mut out, endianness).unwrap();
    out
}

fn sample_structure() -> NamedTag {
    let mut inner = Compound::new();
    inner.insert("name".to_string(), Variant::String("piglin".to_string()));
    inner.insert("health".to_string(), Variant::Float32(16f32.to_bits()));
    let mut root = Compound::new();
    root.insert("format_version".to_string(), Variant::Int32(1));
    root.insert("size".to_string(), Variant::List(List::Int32(ListVariant(vec![3, 4, 5]))));
    root.insert("entity".to_string(), Variant::Compound(inner));
    root.insert("blocks".to_string(), Variant::Int8List(ListVariant(vec![1, 2, 255])));
    root.insert("indices".to_string(), Variant::Int32List(ListVariant(vec![0, u32::MAX])));
    root.insert("times".to_string(), Variant::Int64List(ListVariant(vec![7])));
    root.insert("weight".to_string(), Variant::Float64(0.5f64.to_bits()));
    root.insert("flag".to_string(), Variant::Int8(1));
    root.insert("short".to_string(), Variant::Int16(0x0102));
    root.insert("long".to_string(), Variant::Int64(u64::MAX));
    root.insert(
        "palette".to_string(),
        Variant::List(List::Compound(ListVariant(vec![Compound::new(), Compound::new()]))),
    );
    root.insert(
        "nested".to_string(),
        Variant::List(List::List(ListVariant(vec![List::Empty, List::String(ListVariant(vec!["a".to_string()]))]))),
    );
    NamedTag(String::new(), Variant::Compound(root))
}

#[test]
fn roundtrip_encoding_structure() {
    for endianness in [Endianness::Little, Endianness::Big] {
        for structure in [
            NamedTag(String::new(), Variant::List(List::Empty)),
            {
                let parser = Parser::new(
                    "{\"format_version\": 1, size: [I; 1, 2, 3], structure: {\"block_indices\": [[I; 0, -1], [I;]], entities: [], palette: {default: {\"block_palette\": [{name: \"minecraft:air\", states: {}, version: 17959425}]}}}, structure_world_origin: [0, 64, 0], weight: 0.5f}",
                );
                let variant = parser.parse_variant_and_finish().unwrap();
                let floats: Vec<Option<u64>> = float_literals(&variant).iter().map(|_| Some(u64::from(0.5f32.to_bits()))).collect();
                NamedTag(String::new(), convert_variant(variant, &floats).unwrap())
            },
            sample_structure(),
        ] {
            let bytes = encode(&structure, endianness);
            let (roundtrip_encoded_structure, end) = NamedTag::read_nbt(&bytes, 0, endianness).unwrap();
            assert_eq!(end, bytes.len());
            assert_eq!(structure, roundtrip_encoded_structure);
        }
    }
}

#[test]
fn read_structure() {
    let mut bytes = vec![10u8, 0, 0, 3, 14, 0];
    bytes.extend_from_slice(b"format_version");
    bytes.extend_from_slice(&[1, 0, 0, 0]);
    bytes.extend_from_slice(&[9, 4, 0]);
    bytes.extend_from_slice(b"size");
    bytes.extend_from_slice(&[3, 2, 0, 0, 0, 1, 0, 0, 0, 2, 0, 0, 0]);
    bytes.push(0);
    let (tag, end) = NamedTag::read_nbt(&bytes, 0, Endianness::Little).unwrap();
    assert_eq!(end, bytes.len());
    let mut expected = Compound::new();
    expected.insert("size".to_string(), Variant::List(List::Int32(ListVariant(vec![1, 2]))));
    expected.insert("format_version".to_string(), Variant::Int32(1));
    assert_eq!(tag, NamedTag(String::new(), Variant::Compound(expected)));
}

#[test]
fn encodes_big_and_little_endian_numbers() {
    let tag = NamedTag("a".to_string(), Variant::Int16(0x0102));
    assert_eq!(encode(&tag, Endianness::Big), vec![2, 0, 1, b'a', 1, 2]);
    assert_eq!(encode(&tag, Endianness::Little), vec![2, 1, 0, b'a', 2, 1]);
    let tag = NamedTag(String::new(), Variant::Int64(0x0102030405060708));
    assert_eq!(encode(&tag, Endianness::Big), vec![4, 0, 0, 1, 2, 3, 4, 5, 6, 7, 8]);
    assert_eq!(encode(&tag, Endianness::Little), vec![4, 0, 0, 8, 7, 6, 5, 4, 3, 2, 1]);
}

#[test]
fn encodes_empty_list_and_compound() {
    let tag = NamedTag(String::new(), Variant::List(List::Empty));
    assert_eq!(encode(&tag, Endianness::Little), vec![9, 0, 0, 0, 0, 0, 0, 0]);
    let tag = NamedTag(String::new(), Variant::Compound(Compound::new()));
    assert_eq!(encode(&tag, Endianness::Little), vec![10, 0, 0, 0]);
}

#[test]
fn compound_entries_are_written_in_key_order() {
    let mut compound = Compound::new();
    compound.insert("b".to_string(), Variant::Int8(2));
    compound.insert("a".to_string(), Variant::Int8(1));
    compound.insert("b".to_string(), Variant::Int8(3));
    assert_eq!(
        compound.entries(),
        &vec![("a".to_string(), Variant::Int8(1)), ("b".to_string(), Variant::Int8(3))]
    );
    assert_eq!(
        encode(&compound, Endianness::Big),
        vec![1, 0, 1, b'a', 1, 1, 0, 1, b'b', 3, 0]
    );
}

#[test]
fn bedrock_header_roundtrip() {
    let header = BedrockHeader { version: 10, size: 0x0203 };
    let bytes = encode(&header, Endianness::Little);
    assert_eq!(bytes, vec![10, 0, 0, 0, 3, 2, 0, 0]);
    assert_eq!(BedrockHeader::read_nbt(&bytes, 0, Endianness::Little).unwrap(), (header, 8));
}

#[test]
fn read_errors() {
    assert_eq!(NamedTag::read_nbt(&[], 0, Endianness::Little), Err(ReadError::Io));
    assert_eq!(
        NamedTag::read_nbt(&[13, 0, 0], 0, Endianness::Little),
        Err(ReadError::UnknownTag(UnknownTagError(13)))
    );
    assert_eq!(NamedTag::read_nbt(&[0, 0, 0], 0, Endianness::Little), Err(ReadError::UnexpectedEndTag));
    assert_eq!(
        NamedTag::read_nbt(&[8, 0, 0, 1, 0, 0xff], 0, Endianness::Little),
        Err(ReadError::InvalidUtf8)
    );
    assert_eq!(NamedTag::read_nbt(&[3, 0, 0, 1, 2], 0, Endianness::Little), Err(ReadError::Io));
    assert_eq!(BedrockHeader::read_nbt(&[1, 2, 3, 4, 5, 6, 7], 0, Endianness::Big), Err(ReadError::Io));
}

#[test]
fn later_duplicate_field_wins_when_reading() {
    let bytes = vec![10u8, 0, 0, 1, 1, 0, b'k', 1, 1, 1, 0, b'k', 2, 0];
    let (tag, _) = NamedTag::read_nbt(&bytes, 0, Endianness::Little).unwrap();
    match tag.1 {
        Variant::Compound(compound) => {
            assert_eq!(compound.entries(), &vec![("k".to_string(), Variant::Int8(2))]);
        }
        other => panic!("unexpected value {other:?}"),
    }
}

#[test]
fn string_too_long_is_refused() {
    let tag = NamedTag("x".repeat(70000), Variant::Int8(0));
    let mut out = Vec::new();
    assert_eq!(tag.write_nbt(&mut out, Endianness::Little), Err(WriteError::LengthOverflow));
}

#[test]
fn type_tag_bytes() {
    assert_eq!(TypeTag::try_from(9u8), Ok(TypeTag::List));
    assert_eq!(TypeTag::try_from(7u8), Ok(TypeTag::Int8List));
    assert_eq!(TypeTag::try_from(13u8), Err(UnknownTagError(13)));
    assert_eq!(TypeTag::Int64List.byte(), 12);
    assert_eq!(encode(&TypeTag::Compound, Endianness::Big), vec![10]);
}
