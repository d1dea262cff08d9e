use nbt::snbt::read::convert::{convert_variant, float_literals, Error as ConvertError};
use nbt::snbt::read::parse::{self, Field, IntList, ListHeader, ListHeaderKind, Parser, SpannedInt, SpannedString};
use nbt::snbt::read::tokenize::number::{Float, FloatType, Int, IntBytes, IntType, Number, Sign, Signedness};
use nbt::snbt::read::tokenize::{StringContentToken, Token, Tokenizer};
use nbt::snbt::read::{SourcePosition, Span};
use nbt::{Compound, List, ListVariant, Variant};

fn span() -> Span {
    Span { start: SourcePosition(0), end: SourcePosition(0) }
}

/// The value of a floating-point literal: its digits summed in powers of ten, as `nbt-cli` computes it.
fn float_bits(float: &Float) -> Option<u64> {
    fn digits(bytes: &[u8]) -> Vec<u8> {
        bytes.iter().filter(|b| **b != b'_').map(|b| b - b'0').collect()
    }
    match float.ty {
        FloatType::Float32 => {
            let mut integer = 0f32;
            if let Some(part) = float.integer_part {
                for (place, digit) in digits(part).into_iter().rev().enumerate() {
                    integer += f32::from(digit) * 10f32.powi(i32::try_from(place).ok()?);
                }
            }
            let mut fraction = 0f32;
            if let Some(part) = float.fractional_part {
                for (place, digit) in digits(part).into_iter().enumerate() {
                    fraction += f32::from(digit) * 10f32.powi(-(i32::try_from(place).ok()? + 1));
                }
            }
            let mut exponent = 0f32;
            if let Some((sign, part)) = float.exponent_part {
                for (place, digit) in digits(part).into_iter().rev().enumerate() {
                    exponent += f32::from(digit) * 10f32.powi(i32::try_from(place).ok()?);
                }
                if sign == Sign::Negative {
                    exponent = -exponent;
                }
            }
            let value = (integer + fraction) * 10f32.powf(exponent);
            let value = if float.sign == Sign::Negative { -value } else { value };
            Some(u64::from(value.to_bits()))
        }
        FloatType::Float64 => {
            let mut integer = 0f64;
            if let Some(part) = float.integer_part {
                for (place, digit) in digits(part).into_iter().rev().enumerate() {
                    integer += f64::from(digit) * 10f64.powi(i32::try_from(place).ok()?);
                }
            }
            let mut fraction = 0f64;
            if let Some(part) = float.fractional_part {
                for (place, digit) in digits(part).into_iter().enumerate() {
                    fraction += f64::from(digit) * 10f64.powi(-(i32::try_from(place).ok()? + 1));
                }
            }
            let mut exponent = 0f64;
            if let Some((sign, part)) = float.exponent_part {
                for (place, digit) in digits(part).into_iter().rev().enumerate() {
                    exponent += f64::from(digit) * 10f64.powi(i32::try_from(place).ok()?);
                }
                if sign == Sign::Negative {
                    exponent = -exponent;
                }
            }
            let value = (integer + fraction) * 10f64.powf(exponent);
            let value = if float.sign == Sign::Negative { -value } else { value };
            Some(value.to_bits())
        }
    }
}

fn convert(variant: parse::Variant) -> Result<Variant, ConvertError> {
    let floats: Vec<Option<u64>> = float_literals(&variant).iter().map(|f| float_bits(&f.float)).collect();
    convert_variant(variant, &floats)
}

fn parse_and_convert(source: &str) -> Variant {
    let parser = Parser::new(source);
    let parser_variant = parser.parse_variant_and_finish().unwrap();
    convert(parser_variant).unwrap()
}

#[test]
fn tokenize_snbt() {
    let mut tokenizer = Tokenizer::new("B; true , \n :, \t 0b01010uB \"abc\"\"def\\nghi\": a+b [");
    assert_eq!(tokenizer.take_token().unwrap(), Token::Int8ArrayHeader);
    assert_eq!(tokenizer.take_token().unwrap(), Token::True);
    assert_eq!(tokenizer.take_token().unwrap(), Token::Comma);
    assert_eq!(tokenizer.take_token().unwrap(), Token::Colon);
    assert_eq!(tokenizer.take_token().unwrap(), Token::Comma);
    assert_eq!(
        tokenizer.take_token().unwrap(),
        Token::Number(Number::Int(Int {
            sign: Sign::Positive,
            signedness: Signedness::Unsigned,
            ty: IntType::Int8,
            digits: IntBytes::Binary(b"01010"),
        }))
    );
    assert_eq!(tokenizer.take_token().unwrap(), Token::String(vec![StringContentToken::Literal("abc")]));
    assert_eq!(
        tokenizer.take_token().unwrap(),
        Token::String(vec![
            StringContentToken::Literal("def"),
            StringContentToken::Escaped('\n'),
            StringContentToken::Literal("ghi")
        ])
    );
    assert_eq!(tokenizer.take_token().unwrap(), Token::Colon);
    assert_eq!(tokenizer.take_token().unwrap(), Token::String(vec![StringContentToken::Literal("a+b")]));
    assert_eq!(tokenizer.take_token().unwrap(), Token::OpenBracket);
    assert_eq!(tokenizer.take_token().unwrap(), Token::Eof);
}

fn literal(s: &'static str) -> Vec<StringContentToken<'static>> {
    vec![StringContentToken::Literal(s)]
}

#[test]
fn parse_variant() {
    let source = r#"
{
  key1: 123,
  'key2': 'somevalue1',
  "key3": {
    subkey1: 0x1C8,
    "subkey2": "somevalue2"
  }
}
"#;
    let mut parser = Parser::new(source);
    let variant = parser.parse_variant(None).unwrap();
    let fields = match variant {
        parse::Variant::Compound(parse::Compound { span: _, fields }) => fields,
        other => panic!("expected a compound, found {other:?}"),
    };
    assert_eq!(fields.len(), 3);
    assert_eq!(fields[0].key.content, literal("key1"));
    assert!(matches!(
        &fields[0].value,
        parse::Variant::Int(SpannedInt {
            span: _,
            integer: Int {
                sign: Sign::Positive,
                signedness: Signedness::Signed,
                ty: IntType::Int32,
                digits: IntBytes::Denary(b"123"),
            }
        })
    ));
    assert_eq!(fields[1].key.content, literal("key2"));
    match &fields[1].value {
        parse::Variant::String(SpannedString { span: _, content }) => assert_eq!(*content, literal("somevalue1")),
        other => panic!("expected a string, found {other:?}"),
    }
    assert_eq!(fields[2].key.content, literal("key3"));
    let sub = match &fields[2].value {
        parse::Variant::Compound(parse::Compound { span: _, fields }) => fields,
        other => panic!("expected a compound, found {other:?}"),
    };
    assert_eq!(sub.len(), 2);
    assert_eq!(sub[0].key.content, literal("subkey1"));
    assert!(matches!(
        &sub[0].value,
        parse::Variant::Int(SpannedInt {
            span: _,
            integer: Int {
                sign: Sign::Positive,
                signedness: Signedness::Signed,
                ty: IntType::Int32,
                digits: IntBytes::Hex(b"1C8"),
            }
        })
    ));
    assert_eq!(sub[1].key.content, literal("subkey2"));
    match &sub[1].value {
        parse::Variant::String(SpannedString { span: _, content }) => assert_eq!(*content, literal("somevalue2")),
        other => panic!("expected a string, found {other:?}"),
    }

    assert_eq!(parser.expect_token(|token| token.token == Token::Eof).unwrap().token, Token::Eof);
}

#[test]
fn convert_integer() {
    assert_eq!(
        u32::try_from(SpannedInt {
            span: span(),
            integer: Int {
                sign: Sign::Positive,
                signedness: Signedness::Unsigned,
                ty: IntType::Int32,
                digits: IntBytes::Binary(b"1010")
            }
        })
        .unwrap(),
        0b1010
    );
}

fn field(key: &'static str, value: parse::Variant<'static>) -> Field<'static> {
    Field { key: SpannedString { span: span(), content: literal(key) }, value }
}

fn spanned_int(sign: Sign, signedness: Signedness, ty: IntType, digits: IntBytes<'static>) -> SpannedInt<'static> {
    SpannedInt { span: span(), integer: Int { sign, signedness, ty, digits } }
}

#[test]
fn convert_from_syntax_tree() {
    let variant = parse::Variant::Compound(parse::Compound {
        span: span(),
        fields: vec![
            field("true", parse::Variant::Bool(span(), true)),
            field("false", parse::Variant::Bool(span(), false)),
            field("empty_list", parse::Variant::List(parse::List { span: span(), list: vec![] })),
            field(
                "list",
                parse::Variant::List(parse::List {
                    span: span(),
                    list: vec![
                        parse::Variant::List(parse::List { span: span(), list: vec![] }),
                        parse::Variant::List(parse::List {
                            span: span(),
                            list: vec![parse::Variant::Compound(parse::Compound { span: span(), fields: vec![] })],
                        }),
                    ],
                }),
            ),
            field(
                "int8_list",
                parse::Variant::List(parse::List {
                    span: span(),
                    list: vec![parse::Variant::Int(spanned_int(
                        Sign::Positive,
                        Signedness::Signed,
                        IntType::Int8,
                        IntBytes::Hex(b"67"),
                    ))],
                }),
            ),
            field(
                "int64_list",
                parse::Variant::List(parse::List {
                    span: span(),
                    list: vec![parse::Variant::Int(spanned_int(
                        Sign::Negative,
                        Signedness::Signed,
                        IntType::Int64,
                        IntBytes::Denary(b"420"),
                    ))],
                }),
            ),
            field(
                "int_array_list",
                parse::Variant::List(parse::List {
                    span: span(),
                    list: vec![parse::Variant::IntList(IntList {
                        span: span(),
                        header: ListHeader { span: span(), kind: ListHeaderKind::Int32 },
                        list: vec![
                            spanned_int(Sign::Negative, Signedness::Signed, IntType::Int32, IntBytes::Binary(b"010")),
                            spanned_int(Sign::Positive, Signedness::Unsigned, IntType::Int8, IntBytes::Binary(b"1010")),
                        ],
                    })],
                }),
            ),
        ],
    });

    let mut expected = Compound::new();
    expected.insert("true".to_string(), Variant::Int8(1));
    expected.insert("false".to_string(), Variant::Int8(0));
    expected.insert("empty_list".to_string(), Variant::List(List::Empty));
    expected.insert(
        "list".to_string(),
        Variant::List(List::List(ListVariant(vec![List::Empty, List::Compound(ListVariant(vec![Compound::new()]))]))),
    );
    expected.insert("int8_list".to_string(), Variant::List(List::Int8(ListVariant(vec![0x67]))));
    expected.insert("int64_list".to_string(), Variant::List(List::Int64(ListVariant(vec![(-420i64).cast_unsigned()]))));
    expected.insert(
        "int_array_list".to_string(),
        Variant::List(List::Int32List(ListVariant(vec![ListVariant(vec![(-0b010i32).cast_unsigned(), 0b1010])]))),
    );

    assert_eq!(convert(variant).unwrap(), Variant::Compound(expected));
}

#[test]
fn parse_and_convert_variant() {
    let cases: Vec<(&str, Variant)> = vec![
        ("0xDEADBEEFL", Variant::Int64(0xDEADBEEF)),
        ("0f", Variant::Float32(0f32.to_bits())),
        ("-42e10f", Variant::Float32((-42e10f32).to_bits())),
        ("\"Hello\\tworld!\"", Variant::String("Hello\tworld!".to_string())),
        ("bool(1L)", Variant::Int8(1)),
        (
            "uuid(\"f81d4fae-7dec-11d0-a765-00a0c91e6bf6\")",
            Variant::Int32List(ListVariant(vec![
                (-132296786i32).cast_unsigned(),
                2112623056,
                (-1486552928i32).cast_unsigned(),
                (-920753162i32).cast_unsigned(),
            ])),
        ),
    ];
    for (source, expected_variant) in cases {
        assert_eq!(parse_and_convert(source), expected_variant);
    }
}
