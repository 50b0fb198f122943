//! Origin steps keep the identity `g = sum_i c_i * f_i`.

use sylvester::cert::origin::{combine, holds, make_monic, sub_scaled, unit};
use sylvester::field::Felt;
use sylvester::poly::{Polynomial, PolynomialRing};

fn ring() -> PolynomialRing {
    PolynomialRing::prime_field(7, &["x", "y"]).expect("7 is prime")
}

/// Read a polynomial written with the variables `x`, `y`, `z`.
fn parse(ring: &PolynomialRing, text: &str) -> Polynomial {
    let names = ["x", "y", "z"];
    let cleaned: String = text.chars().filter(|c| !c.is_whitespace()).collect();
    let mut pieces: Vec<(i64, String)> = Vec::new();
    let mut sign = 1i64;
    let mut current = String::new();
    for c in cleaned.chars() {
        if c == '+' || c == '-' {
            if !current.is_empty() {
                pieces.push((sign, current.clone()));
                current.clear();
            }
            sign = if c == '-' { -1 } else { 1 };
        } else {
            current.push(c);
        }
    }
    if !current.is_empty() {
        pieces.push((sign, current));
    }
    let nvars = ring.nvars();
    let mut terms: Vec<(i64, Vec<u16>)> = Vec::new();
    for (sign, piece) in pieces {
        let mut coeff = sign;
        let mut exps = vec![0u16; nvars];
        for factor in piece.split('*') {
            if let Ok(value) = factor.parse::<i64>() {
                coeff *= value;
                continue;
            }
            let (name, power) = match factor.split_once('^') {
                Some((name, power)) => (name, power.parse::<u16>().expect("an exponent")),
                None => (factor, 1),
            };
            let index = names.iter().position(|n| *n == name).expect("a known variable");
            exps[index] += power;
        }
        terms.push((coeff, exps));
    }
    ring.polynomial(terms).expect("the exponents fit the ring")
}

fn list(ring: &PolynomialRing, texts: &[&str]) -> Vec<Polynomial> {
    texts.iter().map(|text| parse(ring, text)).collect()
}

#[test]
fn a_unit_origin_reproduces_its_input_polynomial() {
    let ring = ring();
    let input = list(&ring, &["x", "y + 3"]);
    for index in 0..input.len() {
        let origin = unit(&ring, index, input.len());
        assert!(holds(&origin, &input, &input[index], 7));
    }
}

#[test]
fn a_subtraction_step_keeps_the_identity() {
    let ring = ring();
    let input = list(&ring, &["x", "y"]);
    let mono = parse(&ring, "x*y^2").lm().expect("non-zero").clone();
    let coeff = Felt::new(3, 7);

    let expected = input[0].sub_scaled(&input[1], coeff, &mono).expect("the product fits");
    let mut origin = unit(&ring, 0, 2);
    sub_scaled(&mut origin, &unit(&ring, 1, 2), coeff, &mono, 7).expect("the product fits");
    assert!(holds(&origin, &input, &expected, 7));
}

#[test]
fn a_combination_step_keeps_the_identity() {
    let ring = ring();
    let input = list(&ring, &["x^2", "x*y"]);
    let left_mono = parse(&ring, "y").lm().expect("non-zero").clone();
    let right_mono = parse(&ring, "x").lm().expect("non-zero").clone();
    let (left_coeff, right_coeff) = (Felt::new(2, 7), Felt::new(5, 7));

    let expected = input[0]
        .scale_monomial(left_coeff, &left_mono)
        .expect("the product fits")
        .sub(&input[1].scale_monomial(right_coeff, &right_mono).expect("the product fits"));
    let origin = combine(
        &unit(&ring, 0, 2),
        left_coeff,
        &left_mono,
        &unit(&ring, 1, 2),
        right_coeff,
        &right_mono,
        7,
    )
    .expect("the product fits");
    assert!(holds(&origin, &input, &expected, 7));
}

#[test]
fn making_a_polynomial_monic_keeps_the_identity() {
    let ring = ring();
    let input = list(&ring, &["3*x + 2"]);
    let mut origin = unit(&ring, 0, 1);
    let monic = make_monic(&input[0], &mut origin, 7);
    assert_eq!(monic.lc(), Some(Felt::one()));
    assert!(holds(&origin, &input, &monic, 7));
}

#[test]
fn a_wrong_cofactor_fails_the_identity() {
    let ring = ring();
    let input = list(&ring, &["x", "y"]);
    assert!(!holds(&unit(&ring, 0, 2), &input, &input[1], 7));
}
