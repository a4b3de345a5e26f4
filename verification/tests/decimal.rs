use ferrocad::decimal::{decimal_string, push_hex_byte, signed_decimal_string};

#[test]
fn decimal_text_of_unsigned_numbers() {
    assert_eq!(decimal_string(0), "0");
    assert_eq!(decimal_string(7), "7");
    assert_eq!(decimal_string(1_000_200), "1000200");
    assert_eq!(decimal_string(u128::MAX), "340282366920938463463374607431768211455");
}

#[test]
fn decimal_text_of_signed_numbers() {
    assert_eq!(signed_decimal_string(0), "0");
    assert_eq!(signed_decimal_string(-45), "-45");
    assert_eq!(signed_decimal_string(45), "45");
    assert_eq!(signed_decimal_string(i128::MIN), "-170141183460469231731687303715884105728");
}

#[test]
fn hex_bytes_append_two_uppercase_digits() {
    let mut s = String::from("#");
    push_hex_byte(&mut s, 0x0a);
    push_hex_byte(&mut s, 0xf0);
    assert_eq!(s, "#0AF0");
}
