use nbt::snbt::read::tokenize::{Error as TokenError, Tokenizer};
use nbt::binary::bedrock::write_bedrock;
use nbt::binary::read::ReadNbt;
use nbt::binary::Endianness;
use nbt::diagnostics::{convert_error_into_labels, parse_error_into_labels, Label};
use nbt::snbt::read::convert::{convert_variant, float_literals, is_convertible, Error as ConvertError};
use nbt::snbt::read::parse::Parser;
use nbt::snbt::read::{SourcePosition, Span};
use nbt::snbt::write::{nesting_depth, to_snbt, SnbtPiece};
use nbt::structures::{structure_file_name, structure_name};
use nbt::{BedrockHeader, Compound, List, ListVariant, NamedTag, Variant};

fn span(start: usize, end: usize) -> Span {
    Span { start: SourcePosition(start), end: SourcePosition(end) }
}

fn convert_source(source: &str) -> Result<Variant, ConvertError<'_>> {
    let tree = Parser::new(source).parse_variant_and_finish().unwrap();
    assert!(is_convertible(&tree));
    let floats: Vec<Option<u64>> = float_literals(&tree).iter().map(|_| None).collect();
    convert_variant(tree, &floats)
}

fn texts(labels: &[Label]) -> Vec<&str> {
    labels.iter().map(|label| label.text.as_str()).collect()
}

fn render(value: &Variant) -> String {
    let mut text = String::new();
    for piece in to_snbt(value) {
        match piece {
            SnbtPiece::Text(part) => text.push_str(&part),
            SnbtPiece::Float32(bits) => text.push_str(&f32::from_bits(bits).to_string()),
            SnbtPiece::Float64(bits) => text.push_str(&f64::from_bits(bits).to_string()),
        }
    }
    text
}

#[test]
fn parse_error_labels_name_the_enclosing_list() {
    let error = Parser::new("[1 2]").parse_variant_and_finish().unwrap_err();
    let labels = parse_error_into_labels(error);
    assert_eq!(texts(&labels), vec!["while parsing this list", "expected a comma, but found this"]);
    assert_eq!(labels[0].span, span(0, 0));
    assert_eq!(labels[1].span, span(3, 4));
}

#[test]
fn parse_error_labels_of_a_bad_token() {
    let error = Parser::new("{a: #}").parse_variant_and_finish().unwrap_err();
    let labels = parse_error_into_labels(error);
    assert_eq!(texts(&labels), vec!["while parsing this compound", "invalid token"]);
    assert_eq!(labels[1].span, span(4, 4));
}

#[test]
fn duplicate_field_labels_quote_the_key() {
    let error = convert_source("{a: 1, a: 2}").unwrap_err();
    let labels = convert_error_into_labels(error);
    assert_eq!(
        texts(&labels),
        vec!["compound has duplicate field \"a\"", "instance of \"a\"", "instance of \"a\""]
    );
    assert_eq!(labels[1].span, span(4, 5));
    assert_eq!(labels[2].span, span(10, 11));
}

#[test]
fn arity_error_labels_count_the_arguments() {
    let error = convert_source("bool(1, 2)").unwrap_err();
    let labels = convert_error_into_labels(error);
    assert_eq!(texts(&labels), vec!["found 2 arguments but expected 1", "operation takes 1 arguments"]);
}

#[test]
fn integer_error_labels_name_the_type() {
    let error = convert_source("300b").unwrap_err();
    assert_eq!(texts(&convert_error_into_labels(error)), vec!["integer is too large to fit into Int8"]);
    let error = convert_source("-1ub").unwrap_err();
    assert_eq!(texts(&convert_error_into_labels(error)), vec!["integers cannot be both unsigned and negative"]);
    let error = convert_source("[B; 1b, 2s]").unwrap_err();
    assert_eq!(texts(&convert_error_into_labels(error)), vec!["integer cannot be upcast into Int8"]);
}

#[test]
fn float_and_uuid_error_labels() {
    let error = convert_source("1.5f").unwrap_err();
    assert_eq!(texts(&convert_error_into_labels(error)), vec!["float is too large to fit into Float32"]);
    let error = convert_source("uuid(\"not a uuid\")").unwrap_err();
    assert_eq!(texts(&convert_error_into_labels(error)), vec!["failed to parse UUID"]);
    let error = convert_source("uuid(1)").unwrap_err();
    assert_eq!(texts(&convert_error_into_labels(error)), vec!["found arguments of incorrect type"]);
    let error = convert_source("bool(bool(1, 2))").unwrap_err();
    assert_eq!(
        texts(&convert_error_into_labels(error)),
        vec!["while converting this operation", "found 2 arguments but expected 1", "operation takes 1 arguments"]
    );
}

#[test]
fn unsupported_trees_are_recognised() {
    let tree = Parser::new("\"\\N{SPACE}\"").parse_variant_and_finish().unwrap();
    assert!(!is_convertible(&tree));
    let tree = Parser::new("[true, false]").parse_variant_and_finish().unwrap();
    assert!(!is_convertible(&tree));
    let tree = Parser::new("[1b, 2b]").parse_variant_and_finish().unwrap();
    assert!(is_convertible(&tree));
    let tree = Parser::new("[1b, \"x\"]").parse_variant_and_finish().unwrap();
    assert!(is_convertible(&tree));
}

#[test]
fn mixed_lists_become_lists_of_compounds() {
    let value = convert_source("[1b, {}]").unwrap();
    let mut wrapped = Compound::new();
    wrapped.insert(String::new(), Variant::Int8(1));
    assert_eq!(
        value,
        Variant::List(List::Compound(ListVariant(vec![wrapped, Compound::new()])))
    );
}

#[test]
fn structure_names_come_from_template_keys() {
    assert_eq!(structure_name(b"structuretemplate_mystructure:house"), Some("mystructure:house".to_string()));
    assert_eq!(structure_name(b"structuretemplate_"), Some(String::new()));
    assert_eq!(structure_name(b"structuretemplat"), None);
    assert_eq!(structure_name(b"portals"), None);
    assert_eq!(structure_name(b"structuretemplate_\xff"), None);
    assert_eq!(structure_file_name("mystructure:house"), "mystructure:house.mcstructure");
}

#[test]
fn bedrock_files_carry_the_payload_size() {
    let tag = NamedTag(String::new(), Variant::Int8(1));
    let bytes = write_bedrock(&tag, 10, Endianness::Little).unwrap();
    assert_eq!(bytes, vec![10, 0, 0, 0, 4, 0, 0, 0, 1, 0, 0, 1]);
    let (header, position) = BedrockHeader::read_nbt(&bytes, 0, Endianness::Little).unwrap();
    assert_eq!(header, BedrockHeader { version: 10, size: 4 });
    let (read_back, end) = NamedTag::read_nbt(&bytes, position, Endianness::Little).unwrap();
    assert_eq!(read_back, tag);
    assert_eq!(end, bytes.len());
}

#[test]
fn snbt_text_of_values() {
    let mut compound = Compound::new();
    compound.insert("b".to_string(), Variant::List(List::Float32(ListVariant(vec![1.5f32.to_bits()]))));
    compound.insert("a".to_string(), Variant::Int8(1));
    compound.insert("c".to_string(), Variant::Int64List(ListVariant(vec![7, 8])));
    compound.insert("d".to_string(), Variant::String("hi".to_string()));
    let value = Variant::Compound(compound);
    assert_eq!(nesting_depth(&value), Some(2));
    assert_eq!(render(&value), "{\n\t\"a\": 1b,\n\t\"b\": [1.5f],\n\t\"c\": [L; 7l, 8l],\n\t\"d\": \"hi\"\n}");
    assert_eq!(render(&Variant::List(List::Empty)), "[]");
    assert_eq!(render(&Variant::Float64(0.25f64.to_bits())), "0.25d");
    let nested = Variant::List(List::List(ListVariant(vec![List::Int16(ListVariant(vec![3]))])));
    assert_eq!(nesting_depth(&nested), Some(2));
    assert_eq!(render(&nested), "[\n\t[3s]\n]");
}

#[test]
fn spanned_and_plain_tokens_agree() {
    let mut spanned = nbt::snbt::read::tokenize::Tokenizer::new("  {\t1b");
    let mut plain = nbt::snbt::read::tokenize::Tokenizer::new("  {\t1b");
    let first = spanned.take_spanned_token().unwrap();
    assert_eq!(first.token, plain.take_token().unwrap());
    assert_eq!(first.span, span(2, 3));
    let second = spanned.take_spanned_token().unwrap();
    assert_eq!(second.token, plain.take_token().unwrap());
    assert_eq!(second.span, span(4, 6));
}

#[test]
fn number_token_errors_name_the_start() {
    let mut tokenizer = nbt::snbt::read::tokenize::Tokenizer::new("-x");
    assert_eq!(
        tokenizer.take_number_token(),
        Err(nbt::snbt::read::tokenize::Error::InvalidNumber(SourcePosition(0)))
    );
}

#[test]
fn duplicate_fields_carry_every_instance_in_source_order() {
    match convert_source("{a: 1, c: 2, a: 3}").unwrap_err() {
        ConvertError::DuplicateField { key, values, compound_span } => {
            assert_eq!(key, "a");
            assert_eq!(compound_span, span(0, 18));
            let spans: Vec<Span> = values.iter().map(|v| v.span()).collect();
            assert_eq!(spans, vec![span(4, 5), span(16, 17)]);
        }
        other => panic!("unexpected error {other:?}"),
    }
    let value = convert_source("{c: 1b, a: 2b}").unwrap();
    match value {
        Variant::Compound(compound) => assert_eq!(
            compound.entries(),
            &vec![("a".to_string(), Variant::Int8(2)), ("c".to_string(), Variant::Int8(1))]
        ),
        other => panic!("unexpected value {other:?}"),
    }
}

#[test]
fn negative_limits_fit_their_types() {
    assert_eq!(convert_source("-128b").unwrap(), Variant::Int8(0x80));
    assert_eq!(convert_source("-32768s").unwrap(), Variant::Int16(0x8000));
    assert_eq!(convert_source("-2147483648").unwrap(), Variant::Int32(0x8000_0000));
    assert!(convert_source("-129b").is_err());
    assert!(convert_source("128b").is_err());
}

#[test]
fn arrays_are_written_with_their_headers_and_read_back() {
    let bytes = Variant::Int8List(ListVariant(vec![1, 2]));
    assert_eq!(render(&bytes), "[B; 1b, 2b]");
    assert_eq!(convert_source(&render(&bytes)).unwrap(), bytes);
    let ints = Variant::Int32List(ListVariant(vec![3]));
    assert_eq!(render(&ints), "[I; 3i]");
    assert_eq!(convert_source(&render(&ints)).unwrap(), ints);
    let longs = Variant::Int64List(ListVariant(vec![]));
    assert_eq!(render(&longs), "[L; ]");
    assert_eq!(convert_source(&render(&longs)).unwrap(), longs);
}

#[test]
fn escapes_with_non_digits_are_reported_as_such() {
    let mut tokenizer = Tokenizer::new("xZZ\"");
    assert_eq!(tokenizer.take_string_escape(), Err(TokenError::EscapeNonDigits(SourcePosition(0))));
    let mut tokenizer = Tokenizer::new("u12a4 ");
    assert_eq!(tokenizer.take_string_escape(), Err(TokenError::EscapeNonDigits(SourcePosition(0))));
    let mut tokenizer = Tokenizer::new("x1");
    assert_eq!(tokenizer.take_string_escape(), Err(TokenError::UnclosedEscape(SourcePosition(0))));
    let mut tokenizer = Tokenizer::new("q");
    assert_eq!(tokenizer.take_string_escape(), Err(TokenError::UnknownEscape(SourcePosition(0))));
}

#[test]
fn a_field_without_a_colon_is_reported() {
    let error = Parser::new("{a 1}").parse_variant_and_finish().unwrap_err();
    match &error {
        nbt::snbt::read::parse::Error::MissingColon(start, token) => {
            assert_eq!(*start, SourcePosition(0));
            assert_eq!(token.span, span(3, 4));
        }
        other => panic!("unexpected error {other:?}"),
    }
    let labels = parse_error_into_labels(error);
    assert_eq!(texts(&labels), vec!["while parsing this compound", "expected a colon between key and value"]);
}
