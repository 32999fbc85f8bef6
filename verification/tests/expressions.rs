use quaternion_calc::basis::{Basis, Sign};
use quaternion_calc::decimal::Decimal;
use quaternion_calc::error::QuaternionError;
use quaternion_calc::product::reduce_sequence;
use quaternion_calc::quaternion::Quaternion;

fn float(d: &Decimal) -> f64 {
    d.to_text().parse::<f64>().unwrap()
}

fn floats(q: &Quaternion<Decimal>) -> Quaternion<f64> {
    Quaternion { r: float(&q.r), i: float(&q.i), j: float(&q.j), k: float(&q.k) }
}

fn decimal(v: f64) -> Decimal {
    Decimal::from_text(&format!("{}", v)).unwrap()
}

fn decimals(q: &Quaternion<f64>) -> Quaternion<Decimal> {
    Quaternion { r: decimal(q.r), i: decimal(q.i), j: decimal(q.j), k: decimal(q.k) }
}

fn step(acc: f64, sign: Sign, l: f64, r: f64) -> f64 {
    acc + f64::from(sign.value()) * l * r
}

fn monomials(items: &[&str]) -> Vec<String> {
    items.iter().map(|s| String::from(*s)).collect()
}

fn evaluate(input: &str) -> Result<String, QuaternionError> {
    let qs = Quaternion::parse(input)?;
    let fs: Vec<Quaternion<f64>> = qs.iter().map(floats).collect();
    let product = reduce_sequence(&fs, 0f64, &step)?;
    Ok(decimals(&product).format())
}

#[test]
fn simple_parse() {
    let qs = Quaternion::parse("(i+j)").unwrap();
    assert_eq!(qs.len(), 1);
    assert_eq!(float(&qs[0].r), 0f64);
    assert_eq!(float(&qs[0].i), 1f64);
    assert_eq!(float(&qs[0].j), 1f64);
    assert_eq!(float(&qs[0].k), 0f64);
}

#[test]
fn complex_parse() {
    let qs = Quaternion::parse("(9+i-j)(k-8.4j)").unwrap();
    assert_eq!(qs.len(), 2);
    assert_eq!(float(&qs[0].r), 9f64);
    assert_eq!(float(&qs[0].i), 1f64);
    assert_eq!(float(&qs[0].j), -1f64);
    assert_eq!(float(&qs[0].k), 0f64);

    assert_eq!(float(&qs[1].r), 0f64);
    assert_eq!(float(&qs[1].i), 0f64);
    assert_eq!(float(&qs[1].j), -8.4f64);
    assert_eq!(float(&qs[1].k), 1f64);
}

#[test]
fn simple_multiply() {
    let res = floats(&Quaternion::new(vec![String::from("1")]).unwrap())
        .multiply(floats(&Quaternion::new(vec![String::from("1")]).unwrap()), 0f64, &step);

    assert_eq!(res, Quaternion { r: 1f64, i: 0f64, j: 0f64, k: 0f64 })
}

#[test]
fn complex_multiply() {
    let res = floats(&Quaternion::new(vec![String::from("2i"), String::from("2j")]).unwrap())
        .multiply(
            floats(&Quaternion::new(vec![String::from("j"), String::from("1")]).unwrap()),
            0f64,
            &step,
        );

    assert_eq!(res, Quaternion { r: -2f64, i: 2f64, j: 2f64, k: 2f64 })
}

#[test]
fn format_coefficient() {
    assert_eq!(Quaternion::format_coefficient(Basis::I, &decimal(20f64)), String::from("20i"));
    assert_eq!(Quaternion::format_coefficient(Basis::I, &decimal(1f64)), String::from("i"));
    assert_eq!(Quaternion::format_coefficient(Basis::R, &decimal(0f64)), String::from("0"));
}

#[test]
fn format() {
    assert_eq!(Quaternion::new(vec![]).unwrap().format(), String::from("0"));
    assert_eq!(Quaternion::new(monomials(&["1"])).unwrap().format(), String::from("1"));
    assert_eq!(Quaternion::new(monomials(&["i", "1"])).unwrap().format(), String::from("i+1"));
    assert_eq!(
        Quaternion::new(monomials(&["i", "-3.4j", "1"])).unwrap().format(),
        String::from("i-3.4j+1")
    );
    assert_eq!(Quaternion::new(monomials(&["j", "k"])).unwrap().format(), String::from("j+k"));
}

#[test]
fn e2e() {
    let cases = vec![
        (String::from("(i+j)(k)"), String::from("i-j")),
        (String::from("(i+j+20)(j-9)"), String::from("-9i+11j+k-181")),
        (
            String::from("(10i)(10j-k+1)(-99i+j-10k+7)(4)"),
            String::from("-520i-38920j+6800k+7920"),
        ),
        (
            String::from(
                "(i+j+k+1)(i+2j+4k+8)(i+3j+9k+27)(i+j+8k+8)(i-j+k-10)(99i-j+k-1)(k)(j)(i)(3)",
            ),
            String::from("11415288i-8751432j-5206896k+9766704"),
        ),
    ];
    for (input, output) in cases {
        assert_eq!(evaluate(&input[..]).unwrap(), output);
    }
}
