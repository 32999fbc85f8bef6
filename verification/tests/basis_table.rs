use quaternion_calc::basis::{Basis, Sign, SignedCoefficient};

#[test]
fn multiply_base() {
    let r = Basis::from_char('r').unwrap();
    let i = Basis::from_char('i').unwrap();
    let j = Basis::from_char('j').unwrap();
    let k = Basis::from_char('k').unwrap();
    let plus = |d: Basis| SignedCoefficient { c: Sign::Plus, d };
    let minus = |d: Basis| SignedCoefficient { c: Sign::Minus, d };

    assert_eq!(quaternion_calc::basis::multiply_base(r, r), plus(r));
    assert_eq!(quaternion_calc::basis::multiply_base(r, i), plus(i));
    assert_eq!(quaternion_calc::basis::multiply_base(r, j), plus(j));
    assert_eq!(quaternion_calc::basis::multiply_base(r, k), plus(k));

    assert_eq!(quaternion_calc::basis::multiply_base(i, r), plus(i));
    assert_eq!(quaternion_calc::basis::multiply_base(i, i), minus(r));
    assert_eq!(quaternion_calc::basis::multiply_base(i, j), plus(k));
    assert_eq!(quaternion_calc::basis::multiply_base(i, k), minus(j));

    assert_eq!(quaternion_calc::basis::multiply_base(j, r), plus(j));
    assert_eq!(quaternion_calc::basis::multiply_base(j, i), minus(k));
    assert_eq!(quaternion_calc::basis::multiply_base(j, j), minus(r));
    assert_eq!(quaternion_calc::basis::multiply_base(j, k), plus(i));

    assert_eq!(quaternion_calc::basis::multiply_base(k, r), plus(k));
    assert_eq!(quaternion_calc::basis::multiply_base(k, i), plus(j));
    assert_eq!(quaternion_calc::basis::multiply_base(k, j), minus(i));
    assert_eq!(quaternion_calc::basis::multiply_base(k, k), minus(r));
}
