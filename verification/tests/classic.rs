//! The classic engine: critical pairs one at a time, in signature order.

use std::sync::Arc;
use std::sync::atomic::AtomicBool;

use sylvester::compute::classic::{f5_reduce, solve, solve_checked, solve_tracked, spolynomial};
use sylvester::compute::interreduce::is_reduced_basis;
use sylvester::compute::signature::{LabeledPoly, Signature};
use sylvester::compute::{ComputeError, ComputeLimits, RunError};
use sylvester::monomial::Monomial;
use sylvester::poly::{Polynomial, PolynomialRing};

fn ring() -> PolynomialRing {
    PolynomialRing::prime_field(7, &["x", "y"]).expect("7 is prime")
}

/// Read a polynomial over the variables `names`.
fn parse(ring: &PolynomialRing, names: &[&str], text: &str) -> Polynomial {
    let cleaned: String = text.chars().filter(|c| !c.is_whitespace()).collect();
    let mut pieces: Vec<(i64, String)> = Vec::new();
    let mut sign = 1i64;
    let mut current = String::new();
    for c in cleaned.chars() {
        if c == '+' || c == '-' {
            if !current.is_empty() {
                pieces.push((sign, current.clone()));
                current.clear();
            }
            sign = if c == '-' { -1 } else { 1 };
        } else {
            current.push(c);
        }
    }
    if !current.is_empty() {
        pieces.push((sign, current));
    }
    let mut terms: Vec<(i64, Vec<u16>)> = Vec::new();
    for (sign, piece) in pieces {
        let mut coeff = sign;
        let mut exps = vec![0u16; ring.nvars()];
        for factor in piece.split('*') {
            if let Ok(value) = factor.parse::<i64>() {
                coeff *= value;
                continue;
            }
            let (name, power) = match factor.split_once('^') {
                Some((name, power)) => (name, power.parse::<u16>().expect("an exponent")),
                None => (factor, 1),
            };
            let index = names.iter().position(|n| *n == name).expect("a known variable");
            exps[index] += power;
        }
        terms.push((coeff, exps));
    }
    ring.polynomial(terms).expect("the exponents fit the ring")
}

fn system(ring: &PolynomialRing, names: &[&str], texts: &[&str]) -> Vec<Polynomial> {
    texts.iter().map(|text| parse(ring, names, text)).collect()
}

fn labeled(ring: &PolynomialRing, index: usize, terms: Vec<(i64, Vec<u16>)>) -> LabeledPoly {
    LabeledPoly {
        sig: Signature { index, term: Monomial::one(ring.nvars()) },
        poly: ring.polynomial(terms).expect("fits"),
        index: 0,
    }
}

#[test]
fn classic_a_pair_past_the_degree_limit_is_a_typed_error() {
    let ring = ring();
    let f = ring.polynomial(vec![(1, vec![65535, 0]), (1, vec![0, 65535])]).expect("fits");
    let g = ring.polynomial(vec![(1, vec![0, 65535])]).expect("fits");
    assert_eq!(
        solve_checked(&ring, &[f, g], &ComputeLimits::default()),
        Err(RunError::Compute(ComputeError::DegreeLimit { limit: 65535 }))
    );
}

#[test]
fn spolynomial_cancels_the_lcm_term() {
    let ring = ring();
    let f = LabeledPoly {
        sig: Signature { index: 0, term: Monomial::one(2) },
        poly: ring.polynomial(vec![(2, vec![2, 0]), (3, vec![0, 1])]).expect("fits"),
        index: 0,
    };
    let g = LabeledPoly {
        sig: Signature { index: 1, term: Monomial::one(2) },
        poly: ring.polynomial(vec![(5, vec![1, 1]), (1, vec![0, 0])]).expect("fits"),
        index: 1,
    };

    let (s, cofactors) = spolynomial(&[f, g], &[], 0, 1, false).expect("the product fits");
    assert!(cofactors.is_empty());
    let lcm = Monomial::from_exps(vec![2u16, 1]);
    assert!(s.terms.iter().all(|t| t.mono != lcm));
}

#[test]
fn f5_reduction_respects_signature_strictness() {
    let ring = PolynomialRing::prime_field(7, &["x"]).expect("7 is prime");
    let basis = vec![labeled(&ring, 0, vec![(1, vec![1])])];

    // Same signature: the reduction is forbidden and the polynomial stays
    // as it is.
    let same = labeled(&ring, 0, vec![(1, vec![1])]);
    let (out, _) = f5_reduce(same, Vec::new(), &basis, &[], false).expect("the product fits");
    assert_eq!(out.poly.terms.len(), 1);

    // Larger signature: the reduction runs and the polynomial goes to zero.
    let larger = labeled(&ring, 1, vec![(1, vec![1])]);
    let (out, _) = f5_reduce(larger, Vec::new(), &basis, &[], false).expect("the product fits");
    assert!(out.poly.is_zero());
}

#[test]
fn solve_handles_a_monomial_ideal() {
    let ring = ring();
    let x2 = ring.polynomial(vec![(1, vec![2, 0])]).expect("fits");
    let xy = ring.polynomial(vec![(1, vec![1, 1])]).expect("fits");

    let gb = solve(&ring, &[x2, xy]).expect("a run without a budget finishes");
    assert_eq!(gb.len(), 2);
    let leads: Vec<Vec<u16>> = gb.iter().map(|f| f.lm().expect("non-zero").exps.clone()).collect();
    assert!(leads.contains(&vec![2, 0]));
    assert!(leads.contains(&vec![1, 1]));
}

#[test]
fn the_classic_backend_reduces_a_small_system() {
    let names = ["x", "y"];
    let ring = PolynomialRing::prime_field(32003, &names).expect("32003 is prime");
    let gb = solve(&ring, &system(&ring, &names, &["x*y - 1", "y^2 - y"])).expect("the run finishes");
    assert_eq!(is_reduced_basis(&gb, &ring), Some(true));
}

#[test]
fn the_classic_backend_reduces_cyclic_3() {
    let names = ["x", "y", "z"];
    let ring = PolynomialRing::prime_field(32003, &names).expect("32003 is prime");
    let gb = solve(&ring, &system(&ring, &names, &["x + y + z", "x*y + y*z + z*x", "x*y*z - 1"]))
        .expect("the run finishes");
    assert_eq!(is_reduced_basis(&gb, &ring), Some(true));
}

#[test]
fn the_classic_backend_reduces_cyclic_4() {
    let names = ["x", "y", "z", "w"];
    let ring = PolynomialRing::prime_field(32003, &names).expect("32003 is prime");
    let gb = solve(
        &ring,
        &system(
            &ring,
            &names,
            &["x + y + z + w", "x*y + y*z + z*w + w*x", "x*y*z + y*z*w + z*w*x + w*x*y", "x*y*z*w - 1"],
        ),
    )
    .expect("the run finishes");
    assert_eq!(is_reduced_basis(&gb, &ring), Some(true));
}

#[test]
fn the_classic_backend_reduces_katsura_4() {
    let names = ["a", "b", "c", "d", "e"];
    let ring = PolynomialRing::prime_field(32003, &names).expect("32003 is prime");
    let gb = solve(
        &ring,
        &system(
            &ring,
            &names,
            &[
                "a + 2*b + 2*c + 2*d + 2*e - 1",
                "2*a*b - b",
                "2*a*c + b^2 - c",
                "2*a*d + 2*b*c - d",
                "2*a*e + 2*b*d + c^2 - e",
            ],
        ),
    )
    .expect("the run finishes");
    assert_eq!(is_reduced_basis(&gb, &ring), Some(true));
}

/// The katsura system in `n + 1` variables.
fn katsura(ring: &PolynomialRing, n: usize) -> Vec<Polynomial> {
    let nvars = n + 1;
    let mut system = Vec::new();
    let mut terms: Vec<(i64, Vec<u16>)> = Vec::new();
    for index in 0..nvars {
        let mut exps = vec![0u16; nvars];
        exps[index] = 1;
        terms.push((if index == 0 { 1 } else { 2 }, exps));
    }
    terms.push((-1, vec![0u16; nvars]));
    system.push(ring.polynomial(terms).expect("the exponents fit"));
    for m in 0..n {
        let mut terms: Vec<(i64, Vec<u16>)> = Vec::new();
        for l in -(n as i64)..=(n as i64) {
            let k = m as i64 - l;
            if k.abs() > n as i64 {
                continue;
            }
            let mut exps = vec![0u16; nvars];
            exps[l.unsigned_abs() as usize] += 1;
            exps[k.unsigned_abs() as usize] += 1;
            terms.push((1, exps));
        }
        let mut exps = vec![0u16; nvars];
        exps[m] = 1;
        terms.push((-1, exps));
        system.push(ring.polynomial(terms).expect("the exponents fit"));
    }
    system
}

#[test]
fn a_cancelled_classic_run_stops_at_the_flag() {
    let names: Vec<String> = (0..6).map(|index| format!("x{index}")).collect();
    let refs: Vec<&str> = names.iter().map(|name| name.as_str()).collect();
    let ring = PolynomialRing::prime_field(32003, &refs).expect("32003 is prime");
    let system = katsura(&ring, 5);
    let flag = Arc::new(AtomicBool::new(true));
    let limits = ComputeLimits { cancel: Some(flag), ..ComputeLimits::default() };
    assert_eq!(solve_checked(&ring, &system, &limits), Err(RunError::Cancelled));
}

#[test]
fn the_tracked_run_gives_the_untracked_basis() {
    let names = ["x", "y", "z"];
    let ring = PolynomialRing::prime_field(32003, &names).expect("32003 is prime");
    let input = system(&ring, &names, &["x + y + z", "x*y + y*z + z*x", "x*y*z - 1"]);
    let plain = solve_checked(&ring, &input, &ComputeLimits::default()).expect("the run finishes");
    let (carried, origins) = solve_tracked(&ring, &input, &ComputeLimits::default()).expect("the run finishes");
    assert_eq!(plain, carried);
    assert_eq!(origins.len(), carried.len());
    for (poly, cofactors) in carried.iter().zip(&origins) {
        assert_eq!(cofactors.len(), input.len());
        assert!(sylvester::cert::origin::holds(cofactors, &input, poly, 32003));
    }
}

#[test]
fn a_generator_past_the_degree_limit_is_refused() {
    let ring = ring();
    let f = ring.polynomial(vec![(1, vec![65535, 1])]).expect("fits");
    assert_eq!(
        solve(&ring, &[f]),
        Err(RunError::Compute(ComputeError::DegreeLimit { limit: 65535 }))
    );
}

#[test]
fn the_unit_ideal_gives_the_constant_one() {
    let ring = ring();
    let input = system(&ring, &["x", "y"], &["x*y - 1", "x"]);
    let gb = solve(&ring, &input).expect("the run finishes");
    assert_eq!(gb.len(), 1);
    assert_eq!(gb[0].terms.len(), 1);
    assert_eq!(gb[0].terms[0].coeff.value, 1);
    assert_eq!(gb[0].terms[0].mono.exps, vec![0u16, 0]);
}

#[test]
fn signature_ordering_is_pot() {
    let a = Signature { index: 0, term: Monomial::from_exps(vec![1u16, 0]) };
    let b = Signature { index: 1, term: Monomial::from_exps(vec![0u16, 0]) };
    assert!(a.less_than(&b));

    let c = Signature { index: 0, term: Monomial::from_exps(vec![2u16, 0]) };
    assert!(a.less_than(&c));
}
