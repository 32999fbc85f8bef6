use quaternion_calc::basis::Basis;
use quaternion_calc::decimal::Decimal;
use quaternion_calc::error::QuaternionError;
use quaternion_calc::quaternion::Quaternion;
use quaternion_calc::text::{chars_of, digit, slice_of};

fn canonical(text: &str) -> Result<String, QuaternionError> {
    Decimal::from_text(text).map(|d| d.to_text())
}

#[test]
fn numbers_are_brought_into_canonical_form() {
    assert_eq!(canonical("0"), Ok(String::from("0")));
    assert_eq!(canonical("7"), Ok(String::from("7")));
    assert_eq!(canonical("-8.4"), Ok(String::from("-8.4")));
    assert_eq!(canonical("007.500"), Ok(String::from("7.5")));
    assert_eq!(canonical("+5"), Ok(String::from("5")));
    assert_eq!(canonical(".5"), Ok(String::from("0.5")));
    assert_eq!(canonical("5."), Ok(String::from("5")));
    assert_eq!(canonical("-.50"), Ok(String::from("-0.5")));
    assert_eq!(canonical("100"), Ok(String::from("100")));
    assert_eq!(canonical("0.001"), Ok(String::from("0.001")));
    assert_eq!(canonical("000"), Ok(String::from("0")));
    assert_eq!(canonical("0.0"), Ok(String::from("0")));
}

#[test]
fn zero_has_no_sign() {
    assert_eq!(canonical("-0"), Ok(String::from("0")));
    assert_eq!(canonical("-0.00"), Ok(String::from("0")));
    assert_eq!(canonical("-.0"), Ok(String::from("0")));
    assert_eq!(Decimal::from_text("-0").unwrap(), Decimal::zero());
}

#[test]
fn texts_that_are_no_numbers_are_refused() {
    let texts = [
        "", "-", "+", ".", "-.", "1.2.3", "1e5", "inf", "nan", "--1", "+-1", "1-", " 1", "1 ", "i",
        "\u{663}", "1\u{663}",
    ];
    for text in texts {
        assert_eq!(canonical(text), Err(QuaternionError::MalformedNumericLiteral), "on {:?}", text);
    }
}

#[test]
fn canonical_numbers_stay_as_they_are() {
    for text in ["0", "1", "-1", "10", "-3.4", "0.5", "123456789012345678901234567890.000000001"] {
        assert_eq!(canonical(text), Ok(String::from(text)));
    }
}

#[test]
fn decimal_copies_are_equal() {
    let d = Decimal::from_text("12.5").unwrap();
    assert_eq!(d.clone(), d);
    assert_eq!(d.as_chars(), &vec!['1', '2', '.', '5']);
    let mut out = String::from("x");
    d.append_to(&mut out);
    assert_eq!(out, "x12.5");
    assert_eq!(Decimal::from_chars(&vec!['-', '0', '2']).unwrap().to_text(), "-2");
}

#[test]
fn coefficients_of_monomials() {
    let read = |t: Basis, text: &str| Quaternion::get_coefficient(t, text).map(|d| d.to_text());
    assert_eq!(read(Basis::J, "-j"), Ok(String::from("-1")));
    assert_eq!(read(Basis::J, "j"), Ok(String::from("1")));
    assert_eq!(read(Basis::I, "2i"), Ok(String::from("2")));
    assert_eq!(read(Basis::K, "-8.4k"), Ok(String::from("-8.4")));
    assert_eq!(read(Basis::J, ".j"), Ok(String::from("0.1")));
    assert_eq!(read(Basis::J, "5.j"), Ok(String::from("5.1")));
    assert_eq!(read(Basis::I, "i2"), Ok(String::from("2")));
    assert_eq!(read(Basis::R, "-"), Ok(String::from("-1")));
    assert_eq!(read(Basis::R, ""), Ok(String::from("1")));
    assert_eq!(read(Basis::R, "20"), Ok(String::from("20")));
    assert_eq!(read(Basis::I, "2ij"), Err(QuaternionError::MalformedNumericLiteral));
    assert_eq!(read(Basis::I, "1.2.3i"), Err(QuaternionError::MalformedNumericLiteral));
}

#[test]
fn digits_beyond_ascii_are_digits_of_monomials() {
    assert!(digit('0'));
    assert!(digit('9'));
    assert!(!digit('.'));
    assert!(!digit('a'));
    assert!(!digit('/'));
    assert!(!digit(':'));
    assert!(digit('\u{663}'));
    assert!(digit('\u{ff11}'));
    assert!(!digit('\u{e9}'));
    assert!(!digit('\u{2460}'));
    // A digit beyond ASCII is taken into the monomial, which then is no number; another
    // stray character behind a monomial is passed over.
    assert_eq!(Quaternion::parse("(1\u{663}+i)"), Err(QuaternionError::MalformedNumericLiteral));
    assert_eq!(Quaternion::parse("(1\u{e9}+i)").unwrap()[0].format(), "i+1");
}

#[test]
fn characters_of_strings() {
    assert_eq!(chars_of(""), Vec::<char>::new());
    assert_eq!(chars_of("a\u{e9}1"), vec!['a', '\u{e9}', '1']);
    assert_eq!(slice_of(&vec!['a', 'b', 'c', 'd'], 1, 3), vec!['b', 'c']);
    assert_eq!(slice_of(&vec!['a', 'b'], 2, 2), Vec::<char>::new());
}
