use colortty::Color;
use colortty::ColorError;
use colortty::NumError;

#[test]
fn from_string_works() {
    assert_eq!(
        Color::from_string("12,3,255").unwrap(),
        Color { red: 12, green: 3, blue: 255 }
    );
}

#[test]
fn from_string_invalid_format() {
    assert_eq!(Color::from_string("123"), Err(ColorError::InvalidFormat));
}

#[test]
fn from_string_parse_int_error() {
    assert!(Color::from_string("abc,3,fo").is_err());
}

#[test]
fn to_hex() {
    assert_eq!(Color { red: 123, green: 4, blue: 255 }.to_hex(), "0x7b04ff");
}

#[test]
fn to_hex_zero_pads() {
    assert_eq!(Color { red: 12, green: 3, blue: 255 }.to_hex(), "0x0c03ff");
}

#[test]
fn to_hex_all_zero() {
    assert_eq!(Color::default().to_hex(), "0x000000");
}

#[test]
fn from_string_recovers_channels() {
    let c = Color::from_string("0,128,9").unwrap();
    assert_eq!((c.red, c.green, c.blue), (0, 128, 9));
}

#[test]
fn from_string_too_many_fields() {
    assert_eq!(Color::from_string("1,2,3,4"), Err(ColorError::InvalidFormat));
}

#[test]
fn from_string_too_few_fields() {
    assert_eq!(Color::from_string("1,2"), Err(ColorError::InvalidFormat));
}

#[test]
fn from_string_out_of_range() {
    assert_eq!(
        Color::from_string("256,0,0"),
        Err(ColorError::ParseInt(NumError::Overflow))
    );
}

#[test]
fn from_string_empty_field() {
    assert_eq!(
        Color::from_string("1,,2"),
        Err(ColorError::ParseInt(NumError::Empty))
    );
}

#[test]
fn from_string_accepts_leading_plus() {
    assert_eq!(
        Color::from_string("+1,2,+3").unwrap(),
        Color { red: 1, green: 2, blue: 3 }
    );
}

#[test]
fn from_string_rejects_minus() {
    assert_eq!(
        Color::from_string("-1,2,3"),
        Err(ColorError::ParseInt(NumError::InvalidDigit))
    );
}

#[test]
fn from_string_rejects_sign_alone() {
    assert_eq!(
        Color::from_string("+,2,3"),
        Err(ColorError::ParseInt(NumError::InvalidDigit))
    );
    assert_eq!(
        Color::from_string("++1,2,3"),
        Err(ColorError::ParseInt(NumError::InvalidDigit))
    );
}

#[test]
fn from_string_accepts_leading_zeros() {
    assert_eq!(
        Color::from_string("007,000255,0").unwrap(),
        Color { red: 7, green: 255, blue: 0 }
    );
}
