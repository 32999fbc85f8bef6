use quaternion_calc::decimal::Decimal;
use quaternion_calc::error::QuaternionError;
use quaternion_calc::quaternion::Quaternion;
use regex::Regex;

/// What the two regular expressions of the notation make of an expression: the groups are
/// the matches of the first one, the monomials of a group are the matches of the second
/// one, and an empty group has no monomial.
fn by_regular_expressions(
    group: &Regex,
    monomial: &Regex,
    input: &str,
) -> Result<Vec<Quaternion<Decimal>>, QuaternionError> {
    let mut qs = Vec::new();
    for found in group.captures_iter(input) {
        let inner = found.get(1).unwrap().as_str();
        let mut args: Vec<String> = Vec::new();
        if !inner.is_empty() {
            for cut in monomial.captures_iter(inner) {
                args.push(cut.get(1).unwrap().as_str().to_string());
            }
        }
        qs.push(Quaternion::new(args)?);
    }
    Ok(qs)
}

fn all_texts(alphabet: &[char], length: usize) -> Vec<String> {
    let mut texts = vec![String::new()];
    let mut last = vec![String::new()];
    for _ in 0..length {
        let mut next = Vec::new();
        for text in &last {
            for c in alphabet {
                let mut longer = text.clone();
                longer.push(*c);
                next.push(longer);
            }
        }
        texts.extend(next.iter().cloned());
        last = next;
    }
    texts
}

fn agree_on(inputs: &[String]) {
    let group = Regex::new(r"\((.*?)\)").unwrap();
    let monomial = Regex::new(r"\+?(-?[\d.]*[ijk]?)").unwrap();
    for input in inputs {
        assert_eq!(
            Quaternion::parse(input),
            by_regular_expressions(&group, &monomial, input),
            "on {:?}",
            input
        );
    }
}

#[test]
fn groups_agree_with_the_regular_expression() {
    let alphabet = ['(', ')', '\n', '\r', '1', 'i', '+', 'x'];
    agree_on(&all_texts(&alphabet, 5));
}

#[test]
fn monomials_agree_with_the_regular_expression() {
    let alphabet = ['+', '-', '0', '5', '.', 'i', 'j', 'k', 'x', ' '];
    let inputs: Vec<String> =
        all_texts(&alphabet, 4).into_iter().map(|inner| format!("({})", inner)).collect();
    agree_on(&inputs);
}

#[test]
fn characters_beyond_ascii_agree_with_the_regular_expression() {
    let alphabet = ['1', '.', 'i', '-', '\u{663}', '\u{e9}', '\u{ff11}', '\u{2460}'];
    let inputs: Vec<String> =
        all_texts(&alphabet, 4).into_iter().map(|inner| format!("({})", inner)).collect();
    agree_on(&inputs);
}

#[test]
fn longer_expressions_agree_with_the_regular_expression() {
    let inputs = [
        "(9+i-j)(k-8.4j)",
        "(i+j)(k)",
        "()",
        "()()",
        "(1e5)",
        "(i j)",
        "(i  j)",
        "(007.500i)",
        "(.j)",
        "(5.j)",
        "(1.2.3)",
        "(3+-5i)",
        "(3--5i)",
        "(i+2i)",
        "((i)",
        "(i))(j)",
        "x(i)y(j)z",
        "(i\n)(j)",
        "(-0)",
        "(-0i+0.0j)",
        "(+)",
        "(i+)",
        "(ij)",
        "(2ij)",
        "(12345678901234567890123456789012345678901234567890.5k)",
    ];
    let inputs: Vec<String> = inputs.iter().map(|s| s.to_string()).collect();
    agree_on(&inputs);
}
