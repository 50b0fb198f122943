//! Interreduction of a Gröbner basis to the reduced basis.

use std::mem::size_of;
use std::time::{Duration, Instant};

use sylvester::cert::origin::{Origin, unit};
use sylvester::compute::classic::solve;
use sylvester::compute::interreduce::{
    is_groebner_basis,
    is_reduced_basis,
    reduced_groebner_basis,
    reduced_groebner_basis_checked,
    reduced_groebner_basis_tracked,
};
use sylvester::compute::{ComputeError, ComputeLimits, RunError};
use sylvester::exact::heap_exps_bytes;
use sylvester::poly::{Polynomial, PolynomialRing, Term};

/// Read a polynomial over the variables `names`.
fn parse(ring: &PolynomialRing, names: &[&str], text: &str) -> Polynomial {
    let cleaned: String = text.chars().filter(|c| !c.is_whitespace()).collect();
    let mut pieces: Vec<(i64, String)> = Vec::new();
    let mut sign = 1i64;
    let mut current = String::new();
    for c in cleaned.chars() {
        if c == '+' || c == '-' {
            if !current.is_empty() {
                pieces.push((sign, current.clone()));
                current.clear();
            }
            sign = if c == '-' { -1 } else { 1 };
        } else {
            current.push(c);
        }
    }
    if !current.is_empty() {
        pieces.push((sign, current));
    }
    let mut terms: Vec<(i64, Vec<u16>)> = Vec::new();
    for (sign, piece) in pieces {
        let mut coeff = sign;
        let mut exps = vec![0u16; ring.nvars()];
        for factor in piece.split('*') {
            if let Ok(value) = factor.parse::<i64>() {
                coeff *= value;
                continue;
            }
            let (name, power) = match factor.split_once('^') {
                Some((name, power)) => (name, power.parse::<u16>().expect("an exponent")),
                None => (factor, 1),
            };
            let index = names.iter().position(|n| *n == name).expect("a known variable");
            exps[index] += power;
        }
        terms.push((coeff, exps));
    }
    ring.polynomial(terms).expect("the exponents fit the ring")
}

fn system(ring: &PolynomialRing, names: &[&str], texts: &[&str]) -> Vec<Polynomial> {
    texts.iter().map(|text| parse(ring, names, text)).collect()
}

#[test]
fn interreduction_drops_a_redundant_leading_term() {
    let ring = PolynomialRing::prime_field(7, &["x"]).expect("7 is prime");
    let basis = system(&ring, &["x"], &["x^2", "2*x"]);
    let reduced = reduced_groebner_basis(&ring, basis).expect("no budget stops it");
    assert_eq!(reduced.len(), 1);
    let lead = &reduced[0].terms[reduced[0].terms.len() - 1];
    assert_eq!((lead.coeff.value, lead.mono.exps.as_slice()), (1, [1u16].as_slice()));
    assert_eq!(is_groebner_basis(&reduced, &ring), Some(true));
}

/// Limits of `bytes` memory and nothing else.
fn limit(bytes: usize) -> ComputeLimits {
    ComputeLimits { memory: Some(bytes), ..ComputeLimits::default() }
}

fn cyclic_4() -> (PolynomialRing, Vec<Polynomial>) {
    let names = ["x", "y", "z", "w"];
    let ring = PolynomialRing::prime_field(32003, &names).expect("32003 is prime");
    let input = system(
        &ring,
        &names,
        &["x + y + z + w", "x*y + y*z + z*w + w*x", "x*y*z + y*z*w + z*w*x + w*x*y", "x*y*z*w - 1"],
    );
    (ring, input)
}

#[test]
fn an_exhausted_deadline_stops_the_interreduction() {
    let (ring, input) = cyclic_4();
    let basis = solve(&ring, &input).expect("the run finishes");
    let expired = ComputeLimits {
        deadline: Some(Instant::now() - Duration::from_secs(1)),
        ..ComputeLimits::default()
    };

    assert_eq!(
        reduced_groebner_basis_checked(&ring, basis.clone(), &expired),
        Err(RunError::Compute(ComputeError::Timeout)),
        "the untracked interreduction must report the exhausted budget"
    );

    // Reading the basis as its own input makes the unit cofactors the true
    // origins, so the identity holds going in.
    let origins: Vec<Origin> = (0..basis.len()).map(|index| unit(&ring, index, basis.len())).collect();
    assert_eq!(
        reduced_groebner_basis_tracked(&ring, basis.clone(), origins, &basis, &expired),
        Err(RunError::Compute(ComputeError::Timeout)),
        "the tracked interreduction must report the exhausted budget"
    );
}

/// A ring past the inline exponent width holds every exponent vector on
/// the heap. The memory meter counts those bytes: a meter that read the
/// size of a term alone missed one allocation per term.
#[test]
fn the_memory_meter_counts_the_spilled_exponents() {
    let nvars = 16;
    let names: Vec<String> = (0..nvars).map(|index| format!("x{index}")).collect();
    let refs: Vec<&str> = names.iter().map(|name| name.as_str()).collect();
    let ring = PolynomialRing::prime_field(32003, &refs).expect("32003 is prime");
    let mut square = vec![0u16; nvars];
    square[0] = 2;
    let mut single = vec![0u16; nvars];
    single[1] = 1;
    let basis = vec![
        ring.polynomial(vec![(1i64, square)]).expect("the exponents fit"),
        ring.polynomial(vec![(1i64, single)]).expect("the exponents fit"),
    ];

    let terms: usize = basis.iter().map(|poly| poly.terms.len()).sum();
    let inline_only = std::mem::size_of_val(&basis[..]) + terms * size_of::<Term>();
    let spilled = terms * heap_exps_bytes(nvars);
    assert!(spilled > 0, "16 variables do not fit the inline width");

    assert_eq!(
        reduced_groebner_basis_checked(&ring, basis.clone(), &limit(inline_only)),
        Err(RunError::Compute(ComputeError::MemoryLimitExceeded)),
        "the spilled exponents do not fit a limit that counts the terms alone"
    );
    assert!(
        reduced_groebner_basis_checked(&ring, basis, &limit(inline_only + spilled)).is_ok(),
        "the same basis fits a limit that counts them"
    );
}

#[test]
fn interreduction_reduces_every_tail_and_sorts_descending() {
    let names = ["x", "y"];
    let ring = PolynomialRing::prime_field(7, &names).expect("7 is prime");
    // A Gröbner basis of (x - y, y^2 - 1) written with a reducible tail and
    // a redundant element.
    let basis = system(&ring, &names, &["x - y", "y^2 + 3*x - 3*y - 1", "x*y - 1"]);
    assert_eq!(is_groebner_basis(&basis, &ring), Some(true));
    let reduced = reduced_groebner_basis(&ring, basis).expect("no budget stops it");
    assert_eq!(reduced, system(&ring, &names, &["y^2 - 1", "x - y"]));
    assert_eq!(is_reduced_basis(&reduced, &ring), Some(true));
}

#[test]
fn the_tracked_interreduction_gives_the_untracked_basis() {
    let (ring, input) = cyclic_4();
    let basis = solve(&ring, &input).expect("the run finishes");
    let mut doubled = basis.clone();
    doubled.extend(basis.iter().cloned());
    let origins: Vec<Origin> = (0..doubled.len()).map(|index| unit(&ring, index, doubled.len())).collect();
    let plain = reduced_groebner_basis_checked(&ring, doubled.clone(), &ComputeLimits::default())
        .expect("no budget stops it");
    let (carried, carried_origins) =
        reduced_groebner_basis_tracked(&ring, doubled.clone(), origins, &doubled, &ComputeLimits::default())
            .expect("no budget stops it");
    assert_eq!(plain, carried);
    assert_eq!(plain, basis);
    for (poly, cofactors) in carried.iter().zip(&carried_origins) {
        assert!(sylvester::cert::origin::holds(cofactors, &doubled, poly, 32003));
    }
}

#[test]
fn a_basis_with_a_remaining_pair_is_not_groebner() {
    let names = ["x", "y"];
    let ring = PolynomialRing::prime_field(7, &names).expect("7 is prime");
    let basis = system(&ring, &names, &["x*y - 1", "y^2 - y"]);
    assert_eq!(is_groebner_basis(&basis, &ring), Some(false));
    assert_eq!(is_reduced_basis(&basis, &ring), Some(false));
}

#[test]
fn interreducing_a_reduced_basis_hands_it_back() {
    let names = ["x", "y"];
    let ring = PolynomialRing::prime_field(7, &names).expect("7 is prime");
    let basis = system(&ring, &names, &["x - y", "y^2 + 3*x - 3*y - 1", "x*y - 1"]);
    let once = reduced_groebner_basis(&ring, basis).expect("no budget stops it");
    let twice = reduced_groebner_basis(&ring, once.clone()).expect("no budget stops it");
    assert_eq!(once, twice);

    let (ring, input) = cyclic_4();
    let solved = solve(&ring, &input).expect("the run finishes");
    let once = reduced_groebner_basis(&ring, solved).expect("no budget stops it");
    let twice = reduced_groebner_basis(&ring, once.clone()).expect("no budget stops it");
    assert_eq!(once, twice);
    assert_eq!(is_reduced_basis(&twice, &ring), Some(true));
}
