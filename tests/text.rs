use risc16::num::{parse_literal, parse_usize, push_decimal, push_hex16, wrap_i16, IntErrorKind};
use risc16::program::Opcode;
use risc16::text::{chars_of, split_chars, string_of, trim_chars};

fn chars(s: &str) -> Vec<char> {
    s.chars().collect()
}

#[test]
fn trim_removes_unicode_whitespace() {
    assert_eq!(trim_chars(&chars(" \t a b \u{3000}\r")), chars("a b"));
    assert_eq!(trim_chars(&chars("   ")), Vec::<char>::new());
}

#[test]
fn split_keeps_empty_pieces() {
    let parts = split_chars(&chars("1,,2,"), ',');
    assert_eq!(parts, vec![chars("1"), vec![], chars("2"), vec![]]);
    assert_eq!(split_chars(&vec![], ','), vec![Vec::<char>::new()]);
}

#[test]
fn chars_and_string_round_trip() {
    assert_eq!(string_of(&chars_of("héllo")), "héllo");
}

#[test]
fn register_index_parsing() {
    assert_eq!(parse_usize(&chars("42")), Ok(42));
    assert_eq!(parse_usize(&chars("+7")), Ok(7));
    assert_eq!(parse_usize(&chars("")), Err(IntErrorKind::Empty));
    assert_eq!(parse_usize(&chars("+")), Err(IntErrorKind::InvalidDigit));
    assert_eq!(parse_usize(&chars("-1")), Err(IntErrorKind::InvalidDigit));
    assert_eq!(
        parse_usize(&chars("100000000000000000000")),
        Err(IntErrorKind::PosOverflow)
    );
}

#[test]
fn literal_parsing() {
    assert_eq!(parse_literal(&chars("-64")), Some(-64));
    assert_eq!(parse_literal(&chars("0x7FFF")), Some(32767));
    assert_eq!(parse_literal(&chars("0x8000")), Some(-32768));
    assert_eq!(parse_literal(&chars("0b11")), Some(3));
    assert_eq!(parse_literal(&chars("0b12")), None);
    assert_eq!(parse_literal(&chars("0x")), None);
    assert_eq!(parse_literal(&chars("label")), None);
    assert_eq!(parse_literal(&chars("2147483647")), Some(-1));
    assert_eq!(parse_literal(&chars("-2147483649")), None);
}

#[test]
fn wrap_to_sixteen_bits() {
    assert_eq!(wrap_i16(65536 + 5), 5);
    assert_eq!(wrap_i16(-32769), 32767);
    assert_eq!(wrap_i16(32768), -32768);
}

#[test]
fn number_formatting() {
    let mut s = String::new();
    push_decimal(&mut s, -120);
    s.push(' ');
    push_decimal(&mut s, 0);
    s.push(' ');
    push_hex16(&mut s, -1);
    s.push(' ');
    push_hex16(&mut s, 4660);
    assert_eq!(s, "-120 0 ffff 1234");
}

#[test]
fn opcode_lookup() {
    assert_eq!(Opcode::from_chars(&chars("jalr")), Some(Opcode::Jalr));
    assert_eq!(Opcode::from_chars(&chars("lw")), Some(Opcode::Lw));
    assert_eq!(Opcode::from_chars(&chars("LW")), None);
    assert_eq!(Opcode::from_chars(&chars("")), None);
    assert_eq!(string_of(&Opcode::Addi.name()), "addi");
}
