use merkle_pedersen::hashing::{fq_to_str_hex, get_fq_element, is_hex, to_decimal, FieldElement};
use merkle_pedersen::Error;

fn hx(fe: &FieldElement) -> String {
    fq_to_str_hex(fe)
}

fn padded(tail: &str) -> String {
    let mut s = String::new();
    for _ in 0..(64 - tail.len()) {
        s.push('0');
    }
    s.push_str(tail);
    s
}

#[test]
fn parse_hex_with_prefix() {
    let fe = get_fq_element("0x0a").unwrap();
    assert_eq!(hx(&fe), padded("a"));
}

#[test]
fn parse_hex_uppercase_prefix_and_digits() {
    let fe = get_fq_element("0X1F").unwrap();
    assert_eq!(hx(&fe), padded("1f"));
}

#[test]
fn parse_hex_without_prefix() {
    let fe = get_fq_element("ff").unwrap();
    assert_eq!(hx(&fe), padded("ff"));
}

#[test]
fn classification_letter_means_hex() {
    assert!(is_hex("123a"));
    let by_letter = get_fq_element("123a").unwrap();
    let by_decimal = get_fq_element("4666").unwrap();
    assert_eq!(hx(&by_letter), hx(&by_decimal));
}

#[test]
fn classification_all_digits_means_decimal() {
    assert!(!is_hex("99"));
    let dec = get_fq_element("99").unwrap();
    let hex = get_fq_element("0x63").unwrap();
    assert_eq!(hx(&dec), hx(&hex));
}

#[test]
fn is_hex_rules() {
    assert!(is_hex("0x12"));
    assert!(is_hex("0X12"));
    assert!(!is_hex("12"));
    assert!(is_hex("12aF"));
    assert!(!is_hex("g"));
    assert!(!is_hex(""));
}

#[test]
fn invalid_hex_digit_is_rejected() {
    let e = get_fq_element("0xg1").unwrap_err();
    assert!(matches!(e, Error::InvalidLiteral(t) if t == "0xg1"));
}

#[test]
fn invalid_decimal_is_rejected() {
    let e = get_fq_element("12.3").unwrap_err();
    assert!(matches!(e, Error::InvalidLiteral(t) if t == "12.3"));
}

#[test]
fn empty_literal_is_rejected() {
    assert!(matches!(get_fq_element("").unwrap_err(), Error::InvalidLiteral(_)));
}

#[test]
fn bare_prefix_is_rejected() {
    assert!(matches!(get_fq_element("0x").unwrap_err(), Error::InvalidLiteral(_)));
}

#[test]
fn negative_decimal_is_rejected() {
    assert!(matches!(get_fq_element("-5").unwrap_err(), Error::InvalidLiteral(_)));
}

#[test]
fn modulus_reduces_to_zero() {
    let p = "21888242871839275222246405745257275088548364400416034343698204186575808495617";
    let fe = get_fq_element(p).unwrap();
    assert_eq!(hx(&fe), padded(""));
}

#[test]
fn modulus_plus_one_reduces_to_one() {
    let p_plus_one = "21888242871839275222246405745257275088548364400416034343698204186575808495618";
    let fe = get_fq_element(p_plus_one).unwrap();
    assert_eq!(hx(&fe), padded("1"));
}

#[test]
fn oversized_hex_reduces() {
    let big = get_fq_element(
        "0x30644e72e131a029b85045b68181585d2833e84879b9709143e1f593f0000002",
    )
    .unwrap();
    let one_more = get_fq_element("1").unwrap();
    assert_eq!(hx(&big), hx(&one_more));
}

#[test]
fn to_hex_is_always_64_chars() {
    for lit in ["0", "1", "0xff", "123456789", "0xabcdef0123456789abcdef"] {
        assert_eq!(hx(&get_fq_element(lit).unwrap()).len(), 64);
    }
}

#[test]
fn round_trip_with_letter_in_rendering() {
    let x = get_fq_element("0xabc123").unwrap();
    let s = hx(&x);
    let y = get_fq_element(&s).unwrap();
    assert_eq!(hx(&y), s);
}

#[test]
fn round_trip_boundary_when_rendering_has_no_letter() {
    // 0x123 renders as 61 zeros then "123": no letter, so a second parse
    // reads it as decimal 123. The classification rule makes this the
    // intended behavior, not a defect.
    let x = get_fq_element("0x123").unwrap();
    let s = hx(&x);
    let reparsed = get_fq_element(&s).unwrap();
    let dec123 = get_fq_element("123").unwrap();
    assert_eq!(hx(&reparsed), hx(&dec123));
}

#[test]
fn to_decimal_renders_canonically() {
    assert_eq!(to_decimal(&get_fq_element("0xff").unwrap()), "255");
    assert_eq!(to_decimal(&get_fq_element("0").unwrap()), "0");
    assert_eq!(to_decimal(&get_fq_element("007").unwrap()), "7");
    let p_plus_one = "21888242871839275222246405745257275088548364400416034343698204186575808495618";
    assert_eq!(to_decimal(&get_fq_element(p_plus_one).unwrap()), "1");
}
