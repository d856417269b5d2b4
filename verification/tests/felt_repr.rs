use midenc::felt::{Felt, Word};
use midenc::felt_conv::{bytes_to_words, FeltParser};
use midenc::repr::{FromMidenRepr, ToMidenRepr};

#[test]
fn bool_roundtrip() {
    let encoded = true.to_bytes();
    let decoded = <bool as FromMidenRepr>::from_bytes(encoded.as_slice());
    assert!(decoded);

    let encoded = true.to_felts();
    let decoded = <bool as FromMidenRepr>::from_felts(encoded.as_slice());
    assert!(decoded);

    let encoded = true.to_words();
    let decoded = <bool as FromMidenRepr>::from_words(encoded.as_slice());
    assert!(decoded);

    let mut stack = Vec::default();
    true.push_to_operand_stack(&mut stack);
    let popped = <bool as FromMidenRepr>::pop_from_stack(&mut stack);
    assert!(popped);
}

#[test]
fn u8_roundtrip() {
    let encoded = u8::MAX.to_bytes();
    let decoded = <u8 as FromMidenRepr>::from_bytes(encoded.as_slice());
    assert_eq!(decoded, u8::MAX);

    let encoded = u8::MAX.to_felts();
    let decoded = <u8 as FromMidenRepr>::from_felts(encoded.as_slice());
    assert_eq!(decoded, u8::MAX);

    let encoded = u8::MAX.to_words();
    let decoded = <u8 as FromMidenRepr>::from_words(encoded.as_slice());
    assert_eq!(decoded, u8::MAX);

    let mut stack = Vec::default();
    u8::MAX.push_to_operand_stack(&mut stack);
    let popped = <u8 as FromMidenRepr>::pop_from_stack(&mut stack);
    assert_eq!(popped, u8::MAX);
}

#[test]
fn u16_roundtrip() {
    let encoded = u16::MAX.to_bytes();
    let decoded = <u16 as FromMidenRepr>::from_bytes(encoded.as_slice());
    assert_eq!(decoded, u16::MAX);

    let encoded = u16::MAX.to_felts();
    let decoded = <u16 as FromMidenRepr>::from_felts(encoded.as_slice());
    assert_eq!(decoded, u16::MAX);

    let encoded = u16::MAX.to_words();
    let decoded = <u16 as FromMidenRepr>::from_words(encoded.as_slice());
    assert_eq!(decoded, u16::MAX);

    let mut stack = Vec::default();
    u16::MAX.push_to_operand_stack(&mut stack);
    let popped = <u16 as FromMidenRepr>::pop_from_stack(&mut stack);
    assert_eq!(popped, u16::MAX);
}

#[test]
fn u32_roundtrip() {
    let encoded = u32::MAX.to_bytes();
    let decoded = <u32 as FromMidenRepr>::from_bytes(encoded.as_slice());
    assert_eq!(decoded, u32::MAX);

    let encoded = u32::MAX.to_felts();
    let decoded = <u32 as FromMidenRepr>::from_felts(encoded.as_slice());
    assert_eq!(decoded, u32::MAX);

    let encoded = u32::MAX.to_words();
    let decoded = <u32 as FromMidenRepr>::from_words(encoded.as_slice());
    assert_eq!(decoded, u32::MAX);

    let mut stack = Vec::default();
    u32::MAX.push_to_operand_stack(&mut stack);
    let popped = <u32 as FromMidenRepr>::pop_from_stack(&mut stack);
    assert_eq!(popped, u32::MAX);
}

#[test]
fn u64_roundtrip() {
    let encoded = u64::MAX.to_bytes();
    let decoded = <u64 as FromMidenRepr>::from_bytes(encoded.as_slice());
    assert_eq!(decoded, u64::MAX);

    let encoded = u64::MAX.to_felts();
    let decoded = <u64 as FromMidenRepr>::from_felts(encoded.as_slice());
    assert_eq!(decoded, u64::MAX);

    let encoded = u64::MAX.to_words();
    let decoded = <u64 as FromMidenRepr>::from_words(encoded.as_slice());
    assert_eq!(decoded, u64::MAX);

    let mut stack = Vec::default();
    u64::MAX.push_to_operand_stack(&mut stack);
    let popped = <u64 as FromMidenRepr>::pop_from_stack(&mut stack);
    assert_eq!(popped, u64::MAX);
}

#[test]
fn u128_roundtrip() {
    let encoded = u128::MAX.to_bytes();
    let decoded = <u128 as FromMidenRepr>::from_bytes(encoded.as_slice());
    assert_eq!(decoded, u128::MAX);

    let encoded = u128::MAX.to_felts();
    let decoded = <u128 as FromMidenRepr>::from_felts(encoded.as_slice());
    assert_eq!(decoded, u128::MAX);

    let encoded = u128::MAX.to_words();
    let decoded = <u128 as FromMidenRepr>::from_words(encoded.as_slice());
    assert_eq!(decoded, u128::MAX);

    let mut stack = Vec::default();
    u128::MAX.push_to_operand_stack(&mut stack);
    let popped = <u128 as FromMidenRepr>::pop_from_stack(&mut stack);
    assert_eq!(popped, u128::MAX);
}

#[test]
fn byte_array_roundtrip() {
    let bytes: [u8; 8] = [0, 1, 2, 3, 4, 5, 6, 7];

    let encoded = bytes.to_felts();
    let decoded = <[u8; 8] as FromMidenRepr>::from_felts(encoded.as_slice());
    assert_eq!(decoded, bytes);

    let encoded = bytes.to_words();
    let decoded = <[u8; 8] as FromMidenRepr>::from_words(encoded.as_slice());
    assert_eq!(decoded, bytes);

    let mut stack = Vec::default();
    bytes.push_to_operand_stack(&mut stack);
    let popped = <[u8; 8] as FromMidenRepr>::pop_from_stack(&mut stack);
    assert_eq!(popped, bytes);
}

#[test]
fn bytes_to_words_test() {
    let bytes: [u8; 32] = [
        1, 2, 3, 4, 5, 6, 7, 8, 9, 10, 11, 12, 13, 14, 15, 16, 17, 18, 19, 20, 21, 22, 23, 24, 25,
        26, 27, 28, 29, 30, 31, 32,
    ];
    let words = bytes_to_words(&bytes);
    assert_eq!(words.len(), 2);
    // Words should be in little-endian order, elements of the word should be in big-endian
    assert_eq!(words[0][3].as_int() as u32, u32::from_ne_bytes([1, 2, 3, 4]));
    assert_eq!(words[0][2].as_int() as u32, u32::from_ne_bytes([5, 6, 7, 8]));
    assert_eq!(words[0][1].as_int() as u32, u32::from_ne_bytes([9, 10, 11, 12]));
    assert_eq!(words[0][0].as_int() as u32, u32::from_ne_bytes([13, 14, 15, 16]));

    // Make sure bytes_to_words and to_words agree
    let to_words_output = bytes.to_words();
    assert_eq!(Word::new(words[0]), to_words_output.as_slice()[0]);
}

#[test]
fn bytes_from_words_test() {
    let bytes: [u8; 32] = [
        1, 2, 3, 4, 5, 6, 7, 8, 9, 10, 11, 12, 13, 14, 15, 16, 17, 18, 19, 20, 21, 22, 23, 24, 25,
        26, 27, 28, 29, 30, 31, 32,
    ];
    let words_as_bytes = bytes_to_words(&bytes);

    let words = vec![Word::new(words_as_bytes[0]), Word::new(words_as_bytes[1])];

    let out = <[u8; 32] as FromMidenRepr>::from_words(&words);

    assert_eq!(&out, &bytes);
}

#[test]
fn felt_new_reduces_modulo_the_field_order() {
    let modulus: u64 = 0xffff_ffff_0000_0001;
    assert_eq!(Felt::new(modulus).as_int(), 0);
    assert_eq!(Felt::new(modulus + 5).as_int(), 5);
    assert_eq!(Felt::new(u64::MAX).as_int(), u64::MAX - modulus);
    assert_eq!(Felt::new(42).as_int(), 42);
}

#[test]
fn felt_try_from_rejects_non_canonical_values() {
    let modulus: u64 = 0xffff_ffff_0000_0001;
    assert_eq!(Felt::try_from_u64(modulus - 1).unwrap().as_int(), modulus - 1);
    let err = Felt::try_from_u64(modulus).unwrap_err();
    assert!(err.contains("invalid field element"));
}

#[test]
fn felt_parse_decimal_and_hex() {
    assert_eq!(Felt::parse("12345").unwrap().as_int(), 12345);
    assert_eq!(Felt::parse("0xff").unwrap().as_int(), 255);
    assert_eq!(FeltParser.parse_str("0x10").unwrap().as_int(), 16);
    let max_ok = format!("{}", 0xffff_ffff_0000_0000u64);
    assert_eq!(Felt::parse(&max_ok).unwrap().as_int(), 0xffff_ffff_0000_0000);
}

#[test]
fn felt_parse_errors() {
    let too_big = format!("{}", u64::MAX);
    assert_eq!(
        Felt::parse(&too_big).unwrap_err(),
        "invalid field element value: exceeds the field modulus"
    );
    let err = Felt::parse("12a").unwrap_err();
    assert!(err.starts_with("invalid field element value: "));
    let err = Felt::parse("0xzz").unwrap_err();
    assert!(err.starts_with("invalid field element value: "));
    let modulus = format!("{}", 0xffff_ffff_0000_0001u64);
    assert!(Felt::parse(&modulus).is_err());
}

#[test]
fn u128_felts_swap_their_halves() {
    // The felt encoding puts the high limbs first, while decoding reads the low half first.
    let v: u128 = 1;
    let encoded = v.to_felts();
    let decoded = <u128 as FromMidenRepr>::from_felts(encoded.as_slice());
    assert_eq!(decoded, 1u128 << 64);
}

#[test]
fn u32_felts_and_stack_layout() {
    let encoded = 7u32.to_felts();
    assert_eq!(encoded.as_slice().len(), 1);
    assert_eq!(encoded.as_slice()[0].as_int(), 7);

    let mut stack: Vec<Felt> = Vec::new();
    0x0102_0304_0506_0708u64.push_to_operand_stack(&mut stack);
    assert_eq!(stack.len(), 2);
    let popped = <u64 as FromMidenRepr>::pop_from_stack(&mut stack);
    assert_eq!(popped, 0x0102_0304_0506_0708);
    assert!(stack.is_empty());
}

#[test]
fn felt_conversions_from_integers() {
    assert_eq!(Felt::from(true).as_int(), 1);
    assert_eq!(Felt::from(200u8).as_int(), 200);
    assert_eq!(u32::from(Felt::new(0x1_0000_0005)), 5);
    assert_eq!(u64::from(Felt::from(9u64)), 9);
}

#[test]
fn numbers_read_as_field_elements_only_below_the_modulus() {
    let ok = midenc::felt::Felt::from_u64_checked(42).unwrap();
    assert_eq!(ok.as_int(), 42);
    assert_eq!(
        midenc::felt::Felt::from_u64_checked(0xffff_ffff_0000_0002).unwrap_err(),
        "invalid field element value: exceeds the field modulus"
    );
    let at = midenc::felt::Felt::from_u64_checked(0xffff_ffff_0000_0001).unwrap_err();
    assert!(at.starts_with("invalid field element value: "));
}

#[test]
fn felt_try_from_reports_the_value_in_decimal() {
    let modulus: u64 = 0xffff_ffff_0000_0001;
    let err = Felt::try_from_u64(modulus).unwrap_err();
    assert_eq!(
        err,
        "invalid field element: value 18446744069414584321 is greater than or equal to the field modulus"
    );
}

#[test]
fn command_line_values_ignore_unicode_whitespace_around_them() {
    assert_eq!(FeltParser.parse_str(" \t42\n").unwrap().as_int(), 42);
    assert_eq!(FeltParser.parse_str("\u{3000}0x10\u{a0}").unwrap().as_int(), 16);
    assert!(FeltParser.parse_str("4 2").is_err());
}
