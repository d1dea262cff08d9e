use nbt::snbt::read::tokenize::number::{
    Float, FloatType, Int, IntBytes, IntType, Number, NumberParser, Sign, Signedness,
};

#[test]
fn take_hex_digits() {
    let mut parser = NumberParser::new(b"0xD_EAD_-abcd");
    assert_eq!(parser.take_hex_sequence(), b"D_EAD");
}

#[test]
fn take_binary_digits() {
    let mut parser = NumberParser::new(b"0b0_1_0_abc");
    assert_eq!(parser.take_binary_sequence(), b"0_1_0");
}

#[test]
fn take_denary_digits() {
    let mut parser = NumberParser::new(b"6_42_7_");
    assert_eq!(parser.take_denary_sequence(), b"6_42_7");
}

fn float_number(
    ty: FloatType,
    integer_part: Option<&'static [u8]>,
    fractional_part: Option<&'static [u8]>,
    exponent_part: Option<(Sign, &'static [u8])>,
) -> Number<'static> {
    Number::Float(Float { sign: Sign::Positive, ty, integer_part, fractional_part, exponent_part })
}

fn int_number(sign: Sign, ty: IntType, signedness: Signedness, digits: IntBytes<'static>) -> Number<'static> {
    Number::Int(Int { sign, ty, signedness, digits })
}

#[test]
fn take_number() {
    let cases: Vec<(&[u8], Number)> = vec![
        (b".1", float_number(FloatType::Float64, None, Some(b"1"), None)),
        (b"1.", float_number(FloatType::Float64, Some(b"1"), None, None)),
        (b"1.2e3", float_number(FloatType::Float64, Some(b"1"), Some(b"2"), Some((Sign::Positive, b"3")))),
        (b"87E48", float_number(FloatType::Float64, Some(b"87"), None, Some((Sign::Positive, b"48")))),
        (b"0.1e-1", float_number(FloatType::Float64, Some(b"0"), Some(b"1"), Some((Sign::Negative, b"1")))),
        (b"0xbad", int_number(Sign::Positive, IntType::Int32, Signedness::Signed, IntBytes::Hex(b"bad"))),
        (b"0xCAFE", int_number(Sign::Positive, IntType::Int32, Signedness::Signed, IntBytes::Hex(b"CAFE"))),
        (b"0b101", int_number(Sign::Positive, IntType::Int32, Signedness::Signed, IntBytes::Binary(b"101"))),
        (b"0b10_01", int_number(Sign::Positive, IntType::Int32, Signedness::Signed, IntBytes::Binary(b"10_01"))),
        (b"0xAB_CD", int_number(Sign::Positive, IntType::Int32, Signedness::Signed, IntBytes::Hex(b"AB_CD"))),
        (b"1_2.3_4__5f", float_number(FloatType::Float32, Some(b"1_2"), Some(b"3_4__5"), None)),
        (b"1_2e3_4", float_number(FloatType::Float64, Some(b"1_2"), None, Some((Sign::Positive, b"3_4")))),
        (b"-16b", int_number(Sign::Negative, IntType::Int8, Signedness::Signed, IntBytes::Denary(b"16"))),
        (b"-16sb", int_number(Sign::Negative, IntType::Int8, Signedness::Signed, IntBytes::Denary(b"16"))),
        (b"240uB", int_number(Sign::Positive, IntType::Int8, Signedness::Unsigned, IntBytes::Denary(b"240"))),
        (b"15s", int_number(Sign::Positive, IntType::Int16, Signedness::Signed, IntBytes::Denary(b"15"))),
        (b"15sS", int_number(Sign::Positive, IntType::Int16, Signedness::Signed, IntBytes::Denary(b"15"))),
        (b"15Us", int_number(Sign::Positive, IntType::Int16, Signedness::Unsigned, IntBytes::Denary(b"15"))),
    ];
    for (source, expected) in cases {
        let mut parser = NumberParser::new(source);
        assert_eq!(parser.take_number().unwrap(), expected);
    }
}

#[test]
fn number_positions_after_literal() {
    let mut parser = NumberParser::new(b"-0x1Fs,");
    let n = parser.take_number().unwrap();
    assert_eq!(n, int_number(Sign::Negative, IntType::Int16, Signedness::Signed, IntBytes::Hex(b"1F")));
    assert_eq!(parser.position(), 6);
}

#[test]
fn number_rejects_non_numbers() {
    assert!(NumberParser::new(b"abc").take_number().is_err());
    assert!(NumberParser::new(b"-").take_number().is_err());
    assert!(NumberParser::new(b".").take_number().is_err());
    assert!(NumberParser::new(b"").take_number().is_err());
}

#[test]
fn digit_values() {
    assert_eq!(IntBytes::Denary(b"1_000").to_i128(), Ok(1000));
    assert_eq!(IntBytes::Hex(b"ff").to_i128(), Ok(255));
    assert_eq!(IntBytes::Binary(b"1010").to_i128(), Ok(10));
    // 2^127 - 1 fits, 2^127 does not, as a denary literal.
    assert_eq!(
        IntBytes::Denary(b"170141183460469231731687303715884105727").to_i128(),
        Ok(i128::MAX)
    );
    assert!(IntBytes::Denary(b"170141183460469231731687303715884105728").to_i128().is_err());
    // Forty digits are too many, even when they are zeros.
    assert!(IntBytes::Denary(b"0000000000000000000000000000000000000001").to_i128().is_err());
    // The bits of a full hexadecimal literal are those of the `i128`.
    assert_eq!(IntBytes::Hex(b"ffffffffffffffffffffffffffffffff").to_i128(), Ok(-1));
    assert!(IntBytes::Hex(b"1ffffffffffffffffffffffffffffffff").to_i128().is_err());
}

#[test]
fn digits_beyond_the_base_keep_their_distance_from_zero() {
    // A byte after '9' stands for its distance from '0' in denary and binary literals.
    assert_eq!(IntBytes::Denary(b"a").to_i128(), Ok(49));
    assert_eq!(IntBytes::Denary(b"1a").to_i128(), Ok(59));
    // Binary digits are shifted to their place and combined by bitwise or.
    assert_eq!(IntBytes::Binary(b"21").to_i128(), Ok(5));
    assert_eq!(IntBytes::Binary(b"12").to_i128(), Ok(2));
    assert_eq!(IntBytes::Binary(&[b'1'; 128]).to_i128(), Ok(-1));
    assert!(IntBytes::Binary(&[b'1'; 129]).to_i128().is_err());
}
