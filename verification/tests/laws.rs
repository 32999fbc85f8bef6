use quaternion_calc::basis::{multiply_base, Basis, Sign, SignedCoefficient};
use quaternion_calc::decimal::Decimal;
use quaternion_calc::error::QuaternionError;
use quaternion_calc::product::reduce_sequence;
use quaternion_calc::quaternion::Quaternion;

fn step(acc: f64, sign: Sign, l: f64, r: f64) -> f64 {
    acc + f64::from(sign.value()) * l * r
}

fn q(r: f64, i: f64, j: f64, k: f64) -> Quaternion<f64> {
    Quaternion { r, i, j, k }
}

fn written(r: &str, i: &str, j: &str, k: &str) -> Quaternion<Decimal> {
    Quaternion {
        r: Decimal::from_text(r).unwrap(),
        i: Decimal::from_text(i).unwrap(),
        j: Decimal::from_text(j).unwrap(),
        k: Decimal::from_text(k).unwrap(),
    }
}

#[test]
fn one_is_the_identity_on_both_sides() {
    let one = q(1.0, 0.0, 0.0, 0.0);
    for x in [q(0.0, 0.0, 0.0, 0.0), q(1.0, 2.0, 3.0, 4.0), q(-8.4, 0.5, -7.0, 1e10)] {
        assert_eq!(one.multiply(x, 0.0, &step), x);
        assert_eq!(x.multiply(one, 0.0, &step), x);
    }
}

#[test]
fn the_product_does_not_commute() {
    let i = q(0.0, 1.0, 0.0, 0.0);
    let j = q(0.0, 0.0, 1.0, 0.0);
    assert_eq!(i.multiply(j, 0.0, &step), q(0.0, 0.0, 0.0, 1.0));
    assert_eq!(j.multiply(i, 0.0, &step), q(0.0, 0.0, 0.0, -1.0));
}

#[test]
fn the_product_is_the_hamilton_product() {
    let a = q(1.0, 2.0, 3.0, 4.0);
    let b = q(5.0, 6.0, 7.0, 8.0);
    assert_eq!(a.multiply(b, 0.0, &step), q(-60.0, 12.0, 30.0, 24.0));
    assert_eq!(b.multiply(a, 0.0, &step), q(-60.0, 20.0, 14.0, 32.0));
}

#[test]
fn the_terms_are_added_in_their_order() {
    // Each step is recorded by what it is given, and counts the terms of its component.
    let log = std::cell::RefCell::new(Vec::new());
    let record = |acc: u8, sign: Sign, l: u8, r: u8| -> u8 {
        log.borrow_mut().push((acc, sign, l, r));
        acc + 1
    };
    let left = Quaternion { r: 10u8, i: 11, j: 12, k: 13 };
    let right = Quaternion { r: 20u8, i: 21, j: 22, k: 23 };
    let result = left.multiply(right, 0, &record);
    assert_eq!(result, Quaternion { r: 4u8, i: 4, j: 4, k: 4 });
    let log = log.into_inner();
    assert_eq!(log.len(), 16);
    assert_eq!(log[0], (0, Sign::Plus, 10, 20));
    assert_eq!(log[1], (0, Sign::Plus, 10, 21));
    assert_eq!(log[4], (1, Sign::Plus, 11, 20));
    assert_eq!(log[5], (1, Sign::Minus, 11, 21));
    assert_eq!(log[6], (1, Sign::Plus, 11, 22));
    assert_eq!(log[7], (1, Sign::Minus, 11, 23));
    assert_eq!(log[9], (2, Sign::Minus, 12, 21));
    assert_eq!(log[15], (3, Sign::Minus, 13, 23));
}

#[test]
fn a_sequence_is_multiplied_from_left_to_right() {
    let i = q(0.0, 1.0, 0.0, 0.0);
    let j = q(0.0, 0.0, 1.0, 0.0);
    let two = q(2.0, 0.0, 0.0, 0.0);
    assert_eq!(reduce_sequence(&vec![i], 0.0, &step), Ok(i));
    assert_eq!(reduce_sequence(&vec![i, j], 0.0, &step), Ok(q(0.0, 0.0, 0.0, 1.0)));
    assert_eq!(reduce_sequence(&vec![j, i], 0.0, &step), Ok(q(0.0, 0.0, 0.0, -1.0)));
    assert_eq!(reduce_sequence(&vec![i, j, two, i], 0.0, &step), Ok(q(0.0, 0.0, 2.0, 0.0)));
}

#[test]
fn no_quaternions_have_no_product() {
    let none: Vec<Quaternion<f64>> = Vec::new();
    assert_eq!(reduce_sequence(&none, 0.0, &step), Err(QuaternionError::EmptyProductInput));
}

#[test]
fn what_is_written_is_read_back() {
    for x in [
        written("0", "0", "0", "0"),
        written("1", "0", "0", "0"),
        written("-1", "0", "0", "0"),
        written("0", "1", "-1", "1"),
        written("-181", "-9", "11", "1"),
        written("0.5", "-3.4", "100", "-0.001"),
        written("7", "0", "0", "-2"),
    ] {
        let text = format!("({})", x.format());
        assert_eq!(Quaternion::parse(&text), Ok(vec![x]), "on {:?}", text);
    }
}

#[test]
fn canonical_texts() {
    assert_eq!(written("0", "0", "0", "0").format(), "0");
    assert_eq!(written("1", "0", "0", "0").format(), "1");
    assert_eq!(written("-1", "0", "0", "0").format(), "-1");
    assert_eq!(written("1", "-1", "2", "-3").format(), "-i+2j-3k+1");
    assert_eq!(written("-181", "-9", "11", "1").format(), "-9i+11j+k-181");
    assert_eq!(written("0", "0", "-3.4", "0").format(), "-3.4j");
    assert_eq!(written("0.5", "0", "0", "1").format(), "k+0.5");
    assert_eq!(written("-0.5", "0", "0", "-1").format(), "-k-0.5");
}

#[test]
fn texts_of_terms() {
    let term = |t: Basis, v: &str| {
        Quaternion::format_coefficient(t, &Decimal::from_text(v).unwrap())
    };
    assert_eq!(term(Basis::R, "1"), "1");
    assert_eq!(term(Basis::R, "-1"), "-1");
    assert_eq!(term(Basis::R, "20"), "20");
    assert_eq!(term(Basis::I, "-1"), "-i");
    assert_eq!(term(Basis::J, "-3.4"), "-3.4j");
    assert_eq!(term(Basis::K, "1"), "k");
    assert_eq!(term(Basis::K, "0"), "0k");
    assert_eq!(term(Basis::K, "10"), "10k");
}

#[test]
fn expressions_without_groups_and_empty_groups() {
    assert_eq!(Quaternion::parse(""), Ok(vec![]));
    assert_eq!(Quaternion::parse("i+j"), Ok(vec![]));
    assert_eq!(Quaternion::parse("(i+j"), Ok(vec![]));
    assert_eq!(Quaternion::parse("i+j)"), Ok(vec![]));
    assert_eq!(Quaternion::parse("(i\n+j)"), Ok(vec![]));
    assert_eq!(Quaternion::parse("()"), Ok(vec![written("0", "0", "0", "0")]));
    assert_eq!(
        Quaternion::parse("()(k)"),
        Ok(vec![written("0", "0", "0", "0"), written("0", "0", "0", "1")])
    );
}

#[test]
fn a_later_monomial_replaces_an_earlier_one() {
    assert_eq!(Quaternion::parse("(i+2i)"), Ok(vec![written("0", "2", "0", "0")]));
    assert_eq!(Quaternion::parse("(5+i-7)"), Ok(vec![written("-7", "1", "0", "0")]));
    assert_eq!(
        Quaternion::new(vec![String::from("3k"), String::from("k"), String::from("-k")]),
        Ok(written("0", "0", "0", "-1"))
    );
}

#[test]
fn expressions_with_a_monomial_that_is_no_number_are_refused() {
    let texts =
        ["(1.2.3)", "(a)", "(i  j)", "(-)", "(i+)", "(.)", "(i)(2.3.i)", "(1x)", "(++i)", "(--i)"];
    for text in texts {
        assert_eq!(
            Quaternion::parse(text),
            Err(QuaternionError::MalformedNumericLiteral),
            "on {:?}",
            text
        );
    }
    assert_eq!(
        Quaternion::new(vec![String::from("i"), String::from("")]),
        Err(QuaternionError::MalformedNumericLiteral)
    );
}

#[test]
fn one_stray_character_behind_a_monomial_is_passed_over() {
    assert_eq!(Quaternion::parse("(1e5)"), Ok(vec![written("5", "0", "0", "0")]));
    assert_eq!(Quaternion::parse("(i j)"), Ok(vec![written("0", "1", "1", "0")]));
}

#[test]
fn components_by_basis_symbol() {
    let mut x = q(1.0, 2.0, 3.0, 4.0);
    assert_eq!(*x.get(Basis::R), 1.0);
    assert_eq!(*x.get(Basis::I), 2.0);
    assert_eq!(*x.get(Basis::J), 3.0);
    assert_eq!(*x.get(Basis::K), 4.0);
    x.set(Basis::J, 30.0);
    assert_eq!(x, q(1.0, 2.0, 30.0, 4.0));
    x.set(Basis::R, -1.0);
    x.set(Basis::I, -2.0);
    x.set(Basis::K, -4.0);
    assert_eq!(x, q(-1.0, -2.0, 30.0, -4.0));
}

#[test]
fn names_of_basis_symbols_and_signs() {
    for (c, b) in [('r', Basis::R), ('i', Basis::I), ('j', Basis::J), ('k', Basis::K)] {
        assert_eq!(Basis::from_char(c), Some(b));
        assert_eq!(b.to_char(), c);
    }
    assert_eq!(Basis::from_char('x'), None);
    assert_eq!(Basis::from_char('R'), None);
    assert_eq!(Sign::Plus.value(), 1);
    assert_eq!(Sign::Minus.value(), -1);
}

#[test]
fn squares_of_the_imaginary_units() {
    for unit in [Basis::I, Basis::J, Basis::K] {
        assert_eq!(multiply_base(unit, unit), SignedCoefficient { c: Sign::Minus, d: Basis::R });
    }
    // i * j * k = -1
    let ij = multiply_base(Basis::I, Basis::J);
    assert_eq!(ij, SignedCoefficient { c: Sign::Plus, d: Basis::K });
    assert_eq!(multiply_base(ij.d, Basis::K), SignedCoefficient { c: Sign::Minus, d: Basis::R });
}
