use ton_labs_assembler::errors::ParameterError;
use ton_labs_assembler::parse::{
    parse_range, Bound, NumberType, parse_const_i4, parse_const_i8, parse_const_u10, parse_const_u2, parse_const_u4,
    parse_const_u4_plus_one, parse_const_u8_plus_one, parse_const_u8_setcp, parse_control_register,
    parse_plduz_parameter, parse_register, parse_slice, parse_slice_base,
    parse_stack_register_u4_minus_one, parse_stack_register_u4_minus_two, parse_string,
};

#[test]
fn test_parse_const_u8_setcp() {
    let data = [
        ("-15", 241),
        ("-5", 251),
        ("0", 0),
        ("1", 1),
        ("42", 42),
        ("150", 150),
        ("239", 239),
    ];
    for (data, expected) in data {
        let res = parse_const_u8_setcp(data).unwrap();
        println!("{} -> {} ({})", data, res, expected);
        assert_eq!(res, expected);
    }
    assert!(parse_const_u8_setcp("240").is_err());
}

#[test]
fn setcp_range_boundaries() {
    assert_eq!(parse_const_u8_setcp("240"), Err(ParameterError::OutOfRange));
    assert_eq!(parse_const_u8_setcp("-16"), Err(ParameterError::OutOfRange));
    assert_eq!(parse_const_u8_setcp("-15"), Ok(241));
    assert_eq!(parse_const_u8_setcp("239"), Ok(239));
    assert_eq!(parse_const_u8_setcp("+7"), Ok(7));
    assert_eq!(parse_const_u8_setcp(""), Err(ParameterError::UnexpectedType));
    assert_eq!(parse_const_u8_setcp("-"), Err(ParameterError::UnexpectedType));
    assert_eq!(parse_const_u8_setcp("12a"), Err(ParameterError::UnexpectedType));
    assert_eq!(parse_const_u8_setcp(" 12"), Err(ParameterError::UnexpectedType));
    assert_eq!(parse_const_u8_setcp("99999999999"), Err(ParameterError::OutOfRange));
}

#[test]
fn an_integer_that_no_type_holds_is_out_of_range() {
    let huge = "123456789012345678901234567890123456789012345678901234567890";
    assert_eq!(parse_const_u4("300"), Err(ParameterError::OutOfRange));
    assert_eq!(parse_const_u4("16"), Err(ParameterError::OutOfRange));
    assert_eq!(parse_const_u4(huge), Err(ParameterError::OutOfRange));
    assert_eq!(parse_const_u8_setcp("2147483648"), Err(ParameterError::OutOfRange));
    assert_eq!(parse_const_u8_setcp("-2147483649"), Err(ParameterError::OutOfRange));
    assert_eq!(parse_const_u8_setcp(huge), Err(ParameterError::OutOfRange));
    assert_eq!(parse_plduz_parameter("65536"), Err(ParameterError::OutOfRange));
    assert_eq!(parse_plduz_parameter("65568"), Err(ParameterError::OutOfRange));
    assert_eq!(parse_const_i4("-129"), Err(ParameterError::OutOfRange));
    assert_eq!(parse_const_i8("40000"), Err(ParameterError::OutOfRange));
    assert_eq!(parse_const_u10("-70000"), Err(ParameterError::OutOfRange));
    assert_eq!(parse_register("C99999999999999999999999999", 'C', 0..16), Err(ParameterError::OutOfRange));
    assert_eq!(parse_register("S-99999999999999999999999999", 'S', -2..14), Err(ParameterError::OutOfRange));
    assert_eq!(parse_const_u4("3 00"), Err(ParameterError::UnexpectedType));
    assert_eq!(parse_const_u4("+"), Err(ParameterError::UnexpectedType));
    assert_eq!(parse_const_u4("--1"), Err(ParameterError::UnexpectedType));
    assert_eq!(parse_const_u4("\u{663}"), Err(ParameterError::UnexpectedType));
}

#[test]
fn minus_zero_is_zero() {
    assert_eq!(parse_const_u2("-0"), Ok(0));
    assert_eq!(parse_const_u4("-000"), Ok(0));
    assert_eq!(parse_const_u10("-0"), Ok(0));
    assert_eq!(parse_const_i4("-0"), Ok(0));
    assert_eq!(parse_const_u8_setcp("-0"), Ok(0));
    assert_eq!(parse_const_u4_plus_one("-0"), Err(ParameterError::OutOfRange));
    assert_eq!(parse_const_u4("+0"), Ok(0));
    assert_eq!(parse_const_u4("+15"), Ok(15));
    assert_eq!(parse_const_u4("-1"), Err(ParameterError::OutOfRange));
    assert_eq!(parse_const_u10("-300"), Err(ParameterError::OutOfRange));
    assert_eq!(parse_register("C-0", 'C', 0..16), Ok(0));
}

#[test]
fn unsigned_constants_take_no_negative_integer() {
    assert_eq!(parse_const_u2("-1"), Err(ParameterError::OutOfRange));
    assert_eq!(parse_const_u2("3"), Ok(3));
    assert_eq!(parse_const_u2("4"), Err(ParameterError::OutOfRange));
    assert_eq!(parse_const_u2("256"), Err(ParameterError::OutOfRange));
    assert_eq!(parse_const_u4("15"), Ok(15));
    assert_eq!(parse_const_u4("16"), Err(ParameterError::OutOfRange));
    assert_eq!(parse_const_u10("1023"), Ok(1023));
    assert_eq!(parse_const_u10("1024"), Err(ParameterError::OutOfRange));
    assert_eq!(parse_const_u10("65536"), Err(ParameterError::OutOfRange));
}

#[test]
fn shifted_constants() {
    assert_eq!(parse_const_i4("-1"), Ok(15));
    assert_eq!(parse_const_i4("14"), Ok(14));
    assert_eq!(parse_const_i4("15"), Err(ParameterError::OutOfRange));
    assert_eq!(parse_const_i4("-2"), Err(ParameterError::OutOfRange));
    assert_eq!(parse_const_u4_plus_one("1"), Ok(0));
    assert_eq!(parse_const_u4_plus_one("16"), Ok(15));
    assert_eq!(parse_const_u4_plus_one("0"), Err(ParameterError::OutOfRange));
    assert_eq!(parse_const_i8("-128"), Ok(128));
    assert_eq!(parse_const_i8("-1"), Ok(255));
    assert_eq!(parse_const_i8("127"), Ok(127));
    assert_eq!(parse_const_i8("128"), Err(ParameterError::OutOfRange));
    assert_eq!(parse_const_u8_plus_one("256"), Ok(255));
    assert_eq!(parse_const_u8_plus_one("1"), Ok(0));
    assert_eq!(parse_const_u8_plus_one("257"), Err(ParameterError::OutOfRange));
}

#[test]
fn plduz_takes_multiples_of_32() {
    assert_eq!(parse_plduz_parameter("32"), Ok(0));
    assert_eq!(parse_plduz_parameter("256"), Ok(7));
    assert_eq!(parse_plduz_parameter("33"), Err(ParameterError::OutOfRange));
    assert_eq!(parse_plduz_parameter("0"), Err(ParameterError::OutOfRange));
    assert_eq!(parse_plduz_parameter("x"), Err(ParameterError::UnexpectedType));
}

#[test]
fn registers() {
    assert_eq!(parse_register("C7", 'C', 0..16), Ok(7));
    assert_eq!(parse_register("c7", 'C', 0..16), Ok(7));
    assert_eq!(parse_register("C16", 'C', 0..16), Err(ParameterError::OutOfRange));
    assert_eq!(parse_register("C-1", 'C', 0..16), Err(ParameterError::OutOfRange));
    assert_eq!(parse_register("S7", 'C', 0..16), Err(ParameterError::UnexpectedType));
    assert_eq!(parse_register("C", 'C', 0..16), Err(ParameterError::UnexpectedType));
    assert_eq!(parse_register("", 'C', 0..16), Err(ParameterError::UnexpectedType));
    assert_eq!(parse_register("Cx", 'C', 0..16), Err(ParameterError::UnexpectedType));
    assert_eq!(parse_register("\u{e9}7", 'C', 0..16), Err(ParameterError::UnexpectedType));
    assert_eq!(parse_control_register("c15"), Ok(15));
    assert_eq!(parse_stack_register_u4_minus_one("s-1"), Ok(0));
    assert_eq!(parse_stack_register_u4_minus_one("S14"), Ok(15));
    assert_eq!(parse_stack_register_u4_minus_one("S15"), Err(ParameterError::OutOfRange));
    assert_eq!(parse_stack_register_u4_minus_two("S-2"), Ok(0));
    assert_eq!(parse_stack_register_u4_minus_two("S13"), Ok(15));
}

#[test]
fn slice_of_whole_bytes_is_the_hex_decoding() {
    assert_eq!(parse_slice_base("4142", 0, 16), Ok(vec![0x41, 0x42]));
    assert_eq!(parse_slice_base("", 0, 16), Ok(vec![]));
    assert_eq!(parse_slice_base("fF00", 0, 16), Ok(vec![0xff, 0x00]));
    assert_eq!(parse_slice_base("4142_", 0, 16), Ok(vec![0x41, 0x42]));
}

#[test]
fn slice_with_half_a_byte_gets_a_terminator() {
    assert_eq!(parse_slice_base("414", 0, 16), Ok(vec![0x41, 0x48]));
    assert_eq!(parse_slice_base("414_", 0, 16), Ok(vec![0x41, 0x40]));
    assert_eq!(parse_slice_base("410", 0, 16), Ok(vec![0x41, 0x08]));
    assert_eq!(parse_slice_base("410_", 0, 16), Ok(vec![0x41]));
    assert_eq!(parse_slice_base("0", 0, 16), Ok(vec![0x08]));
    assert_eq!(parse_slice_base("0_", 0, 16), Ok(vec![0x00]));
}

#[test]
fn slice_at_an_offset() {
    assert_eq!(parse_slice_base("f", 2, 16), Ok(vec![0x3e]));
    assert_eq!(parse_slice_base("ff", 6, 16), Ok(vec![0x03, 0xfe]));
    assert_eq!(parse_slice_base("", 3, 16), Ok(vec![0x10]));
    assert_eq!(parse_slice_base("_", 3, 16), Ok(vec![0x00]));
    assert_eq!(parse_slice_base("a5", 4, 16), Ok(vec![0x0a, 0x58]));
    assert_eq!(parse_slice_base("a5_", 4, 16), Ok(vec![0x0a, 0x50]));
    assert_eq!(parse_slice_base("17", 0, 8), Ok(vec![0x17]));
}

#[test]
fn slice_rejects_other_characters() {
    assert_eq!(parse_slice_base("41g", 0, 16), Err(ParameterError::UnexpectedType));
    assert_eq!(parse_slice_base("41_2", 0, 16), Err(ParameterError::UnexpectedType));
    assert_eq!(parse_slice_base("41__", 0, 16), Err(ParameterError::UnexpectedType));
    assert_eq!(parse_slice_base("8", 0, 8), Err(ParameterError::UnexpectedType));
}

#[test]
fn slice_needs_its_prefix() {
    assert_eq!(parse_slice("x4142", 0), Ok(vec![0x41, 0x42]));
    assert_eq!(parse_slice("X4_", 0), Ok(vec![0x40]));
    assert_eq!(parse_slice("x", 0), Err(ParameterError::UnexpectedType));
    assert_eq!(parse_slice("", 0), Err(ParameterError::UnexpectedType));
    assert_eq!(parse_slice("4142", 0), Err(ParameterError::UnexpectedType));
}

#[test]
fn string_operands() {
    assert_eq!(parse_string("x4142"), vec![0x41, 0x42]);
    assert_eq!(parse_string("X4a4B"), vec![0x4a, 0x4b]);
    assert_eq!(parse_string("x414"), b"x414".to_vec());
    assert_eq!(parse_string("x41zz"), b"x41zz".to_vec());
    assert_eq!(parse_string("hello"), b"hello".to_vec());
    assert_eq!(parse_string("x"), Vec::<u8>::new());
    assert_eq!(parse_string(""), Vec::<u8>::new());
}

#[test]
fn ranges_with_open_and_missing_ends() {
    let open = parse_range("5", NumberType::I16, Bound::Excluded(5), Bound::Unbounded);
    assert_eq!(open, Err(ParameterError::OutOfRange));
    let open = parse_range("6", NumberType::I16, Bound::Excluded(5), Bound::Unbounded);
    assert_eq!(open, Ok(6));
    let open = parse_range("32767", NumberType::I16, Bound::Excluded(5), Bound::Unbounded);
    assert_eq!(open, Ok(32767));
    let open = parse_range("32768", NumberType::I16, Bound::Excluded(5), Bound::Unbounded);
    assert_eq!(open, Err(ParameterError::OutOfRange));
    let below = parse_range("-128", NumberType::I8, Bound::Unbounded, Bound::Included(-1));
    assert_eq!(below, Ok(-128));
    let below = parse_range("0", NumberType::I8, Bound::Unbounded, Bound::Included(-1));
    assert_eq!(below, Err(ParameterError::OutOfRange));
    let below = parse_range("-129", NumberType::I8, Bound::Unbounded, Bound::Included(-1));
    assert_eq!(below, Err(ParameterError::OutOfRange));
    let any = parse_range("-2147483648", NumberType::I32, Bound::Unbounded, Bound::Unbounded);
    assert_eq!(any, Ok(i32::MIN));
    let any = parse_range("65535", NumberType::U16, Bound::Unbounded, Bound::Unbounded);
    assert_eq!(any, Ok(65535));
    let any = parse_range("255", NumberType::U8, Bound::Included(0), Bound::Excluded(255));
    assert_eq!(any, Err(ParameterError::OutOfRange));
}
