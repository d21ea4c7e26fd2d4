use mini_asm::helpers::{has_b_with_num, integer_to_letter, letter_to_integer};
use mini_asm::parser::{parse_decimal, parse_operands, parse_value};

fn s(t: &str) -> String {
    t.to_string()
}

#[test]
fn decimal_tokens_resolve_exactly() {
    for n in [0u32, 1, 9, 10, 255, 1000, 12345, 65535] {
        assert_eq!(parse_value(&n.to_string()), Some(n as u16));
    }
    assert_eq!(parse_value(&s("+7")), Some(7));
    assert_eq!(parse_value(&s("007")), Some(7));
}

#[test]
fn decimal_parse_rejects_out_of_range_and_signs() {
    assert_eq!(parse_decimal("65536"), None);
    assert_eq!(parse_decimal("-1"), None);
    assert_eq!(parse_decimal("+"), None);
    assert_eq!(parse_decimal(""), None);
    assert_eq!(parse_decimal("12a"), None);
    assert_eq!(parse_decimal("+42"), Some(42));
}

#[test]
fn too_large_decimal_falls_back_to_zero() {
    assert_eq!(parse_value(&s("65536")), Some(0));
}

#[test]
fn binary_literal_is_read_from_third_character() {
    assert_eq!(parse_value(&s("b0101")), Some(5));
    assert_eq!(parse_value(&s("b0110")), Some(6));
    assert_eq!(parse_value(&s("b101")), Some(1));
    assert_eq!(parse_value(&s("B0111")), Some(7));
    assert_eq!(parse_value(&s("b00")), Some(0));
}

#[test]
fn binary_literal_keeps_low_sixteen_bits() {
    assert_eq!(parse_value(&s("b010000000000000001")), Some(1));
    assert_eq!(parse_value(&s("b1-11")), Some(65533));
    assert_eq!(parse_value(&s("b1+11")), Some(3));
}

#[test]
fn malformed_binary_literal_is_rejected() {
    assert_eq!(parse_value(&s("b1")), None);
    assert_eq!(parse_value(&s("b12")), None);
    assert_eq!(parse_value(&s("b1x")), None);
    assert_eq!(parse_value(&s("b1-")), None);
    assert_eq!(parse_value(&s("b0111111111111111111111111111111111")), None);
}

#[test]
fn marker_without_digit_is_a_register_letter() {
    assert_eq!(parse_value(&s("b")), Some(1));
    assert_eq!(parse_value(&s("bx")), Some(1));
    assert_eq!(parse_value(&s("Bar")), Some(1));
    assert_eq!(parse_value(&s("xb1")), Some(23));
}

#[test]
fn letters_map_to_alphabet_positions() {
    for (i, c) in ('a'..='z').enumerate() {
        assert_eq!(letter_to_integer(c), Some(i as u8));
        assert_eq!(letter_to_integer(c.to_ascii_uppercase()), Some(i as u8));
        if c != 'b' {
            assert_eq!(parse_value(&c.to_string()), Some(i as u16));
            assert_eq!(parse_value(&c.to_ascii_uppercase().to_string()), Some(i as u16));
        }
    }
    assert_eq!(parse_value(&s("b")), Some(1));
    assert_eq!(parse_value(&s("B")), Some(1));
    assert_eq!(letter_to_integer('1'), None);
    assert_eq!(letter_to_integer('é'), None);
}

#[test]
fn other_tokens_resolve_to_zero() {
    assert_eq!(parse_value(&s("1,")), Some(0));
    assert_eq!(parse_value(&s("#x")), Some(0));
    assert_eq!(parse_value(&s("-5")), Some(0));
}

#[test]
fn integer_to_letter_inverts_letter_to_integer() {
    assert_eq!(integer_to_letter(0), 'a');
    assert_eq!(integer_to_letter(25), 'z');
    for n in 0..26usize {
        assert_eq!(letter_to_integer(integer_to_letter(n)), Some(n as u8));
    }
}

#[test]
fn marker_digit_scan() {
    assert!(has_b_with_num("b1"));
    assert!(has_b_with_num("xB9"));
    assert!(has_b_with_num("abab7"));
    assert!(!has_b_with_num("b"));
    assert!(!has_b_with_num("bx1"));
    assert!(!has_b_with_num("1b"));
    assert!(!has_b_with_num(""));
}

#[test]
fn operands_default_to_zero() {
    assert_eq!(parse_operands(&vec![s("CLR")]), Ok((0, 0)));
    assert_eq!(parse_operands(&vec![s("ADD"), s("3")]), Ok((3, 0)));
    assert_eq!(parse_operands(&vec![s("ADD"), s("c"), s("b0101")]), Ok((2, 5)));
    assert_eq!(parse_operands(&vec![s("ADD"), s("b1x"), s("b12")]), Err(s("b1x")));
    assert_eq!(parse_operands(&vec![s("ADD"), s("1"), s("b12")]), Err(s("b12")));
}
