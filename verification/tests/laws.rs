//! The ring laws of polynomial arithmetic and a writer that stops on a
//! cancelled run, on concrete values.

use sylvester::cert::divide::divide;
use sylvester::cert::v2::record::lower_row;
use sylvester::cert::Budget as WriterBudget;
use sylvester::certificate::CertifyError;
use sylvester::compute::{Budget, CancellationToken, ComputeError, ComputeLimits};
use sylvester::field::Felt;
use sylvester::monomial::Monomial;
use sylvester::poly::{Polynomial, PolynomialRing, Term};

const P: u64 = 7;

fn ring() -> PolynomialRing {
    PolynomialRing::prime_field(P, &["x", "y"]).expect("7 is prime")
}

/// A polynomial from terms given in ascending grevlex order.
fn poly(terms: &[(u64, [u16; 2])]) -> Polynomial {
    Polynomial {
        ring: ring(),
        terms: terms
            .iter()
            .map(|&(c, e)| Term { coeff: Felt::new(c, P), mono: Monomial::from_exps(e.to_vec()) })
            .collect(),
    }
}

/// `x + 3`.
fn a() -> Polynomial {
    poly(&[(3, [0, 0]), (1, [1, 0])])
}

/// `4x^2 + 2y + 5`.
fn b() -> Polynomial {
    poly(&[(5, [0, 0]), (2, [0, 1]), (4, [2, 0])])
}

#[test]
fn addition_commutes() {
    let ab = a().try_add(&b(), Budget::new()).unwrap();
    let ba = b().try_add(&a(), Budget::new()).unwrap();
    assert_eq!(ab, ba);
    assert_eq!(ab, poly(&[(1, [0, 0]), (2, [0, 1]), (1, [1, 0]), (4, [2, 0])]));
}

#[test]
fn subtracting_then_adding_gives_the_polynomial_back() {
    let d = a().try_sub(&b(), Budget::new()).unwrap();
    let s = d.try_add(&b(), Budget::new()).unwrap();
    assert_eq!(s, a());
}

#[test]
fn negating_twice_gives_the_polynomial_back() {
    let n = b().try_neg(Budget::new()).unwrap();
    assert_eq!(n, poly(&[(2, [0, 0]), (5, [0, 1]), (3, [2, 0])]));
    assert_eq!(n.try_neg(Budget::new()).unwrap(), b());
}

#[test]
fn a_polynomial_plus_its_negation_is_zero() {
    let n = b().try_neg(Budget::new()).unwrap();
    let s = b().try_add(&n, Budget::new()).unwrap();
    assert!(s.terms.is_empty());
}

#[test]
fn a_cancelled_run_stops_the_writer() {
    let token = CancellationToken::new();
    token.cancel();
    let limits = ComputeLimits::of_budget(&Budget::new().cancellation(token));
    let writer = WriterBudget::from_limits(&limits, 2);
    let divisors = vec![poly(&[(6, [0, 1]), (1, [2, 0])])];
    let f = poly(&[(2, [0, 1]), (1, [3, 0])]);
    assert_eq!(divide(&f, &divisors, P, &writer), Err(CertifyError::WriterExhausted(ComputeError::Timeout)));
    let open = WriterBudget::from_limits(&ComputeLimits::none(), 2);
    assert!(divide(&f, &divisors, P, &open).is_ok());
}

#[test]
fn a_power_is_the_lower_power_times_the_base() {
    // (x + 3)^5 over F_7, and every power against the one below it.
    let base = a();
    let mut previous = base.try_pow(0, Budget::new()).unwrap();
    assert_eq!(previous, poly(&[(1, [0, 0])]));
    for e in 1..=5u32 {
        let power = base.try_pow(e, Budget::new()).unwrap();
        assert_eq!(power, previous.try_mul(&base, Budget::new()).unwrap());
        previous = power;
    }
    assert_eq!(base.try_pow(1, Budget::new()).unwrap(), base);
    // (x + 3)^7 = x^7 + 3^7 = x^7 + 3 over F_7.
    assert_eq!(base.try_pow(7, Budget::new()).unwrap(), poly(&[(3, [0, 0]), (1, [7, 0])]));
}

#[test]
fn multiplication_is_associative() {
    let c = poly(&[(5, [0, 1]), (2, [1, 1])]);
    let ab_c = a().try_mul(&b(), Budget::new()).unwrap().try_mul(&c, Budget::new()).unwrap();
    let a_bc = a().try_mul(&b().try_mul(&c, Budget::new()).unwrap(), Budget::new()).unwrap();
    assert_eq!(ab_c, a_bc);
}

#[test]
fn a_lowered_row_merges_scales_and_sorts_its_summands() {
    // Node 1 sums to 7, which vanishes modulo 7; node 3 sums to 6.
    let summands = [(3u32, 2u64), (1, 5), (3, 4), (1, 2), (0, 1)];
    assert_eq!(lower_row(&summands, 1, 7), vec![(0, 1), (3, 6)]);
    assert_eq!(lower_row(&summands, 3, 7), vec![(0, 3), (3, 4)]);
    assert_eq!(lower_row(&[], 2, 7), vec![]);
}
