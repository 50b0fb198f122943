//! The writer of the second certificate contract, on small hand-built
//! traces.

use std::time::{Duration, Instant};

use sylvester::cert::Budget;
use sylvester::cert::v2::assemble;
use sylvester::cert::v2::encode::put_varint;
use sylvester::cert::v2::record::{Node, Recording};
use sylvester::cert::v2::witness::{Witness, pair_count, pair_index, witnesses};
use sylvester::certificate::{CertifyError, EmitterFault, TraceFault};
use sylvester::compute::ComputeError;
use sylvester::poly::{Polynomial, PolynomialRing};

fn ring() -> PolynomialRing {
    PolynomialRing::prime_field(7, &["x", "y"]).expect("7 is prime")
}

fn poly(ring: &PolynomialRing, terms: Vec<(i64, Vec<u16>)>) -> Polynomial {
    ring.polynomial(terms).expect("the exponents fit the ring")
}

fn x(ring: &PolynomialRing) -> Polynomial {
    poly(ring, vec![(1, vec![1, 0])])
}

fn y(ring: &PolynomialRing) -> Polynomial {
    poly(ring, vec![(1, vec![0, 1])])
}

/// The trace of a run that returned its input as the basis.
fn inputs_as_basis(count: u32) -> Recording {
    Recording { nodes: (0..count).map(|index| Node::Input { index }).collect(), basis: (0..count).collect() }
}

fn varint(value: u64) -> Vec<u8> {
    let mut out = Vec::new();
    put_varint(&mut out, value);
    out
}

#[test]
fn varints_are_base_128_little_endian() {
    assert_eq!(varint(0), vec![0x00]);
    assert_eq!(varint(127), vec![0x7f]);
    assert_eq!(varint(128), vec![0x80, 0x01]);
    assert_eq!(varint(300), vec![0xac, 0x02]);
    assert_eq!(varint(16_384), vec![0x80, 0x80, 0x01]);
    let max = varint(u64::MAX);
    assert_eq!(max.len(), 10);
    assert_eq!(max[9], 0x01);
    assert!(max[..9].iter().all(|&byte| byte == 0xff));
}

#[test]
fn pairs_are_numbered_in_lexicographic_order() {
    assert_eq!(pair_count(0), Some(0));
    assert_eq!(pair_count(1), Some(0));
    assert_eq!(pair_count(4), Some(6));
    assert_eq!(pair_index(0, 1, 4), 0);
    assert_eq!(pair_index(0, 3, 4), 2);
    assert_eq!(pair_index(1, 2, 4), 3);
    assert_eq!(pair_index(2, 3, 4), 5);
}

#[test]
fn a_small_system_is_written_byte_for_byte() {
    let ring = ring();
    let input = vec![x(&ring), y(&ring)];
    let basis = input.clone();
    let (bytes, _) =
        assemble(&ring, &input, &basis, inputs_as_basis(2), &mut Budget::unlimited(2)).expect("a certificate");
    let mut expected: Vec<u8> = vec![0x53, 0x59, 0x4c, 0x56, 0x47, 0x42, 0x02, 0x00];
    expected.push(15);
    expected.extend_from_slice(b"sylv-gb-cert-v2");
    expected.push(10);
    expected.extend_from_slice(b"grevlex-v1");
    // The modulus, the variable count, and the six section lengths.
    expected.extend_from_slice(&[7, 2, 8, 7, 7, 3, 6, 1]);
    // The pool: 1, y, x, ascending, each as a sparse support.
    expected.extend_from_slice(&[3, 0, 1, 1, 1, 1, 0, 1]);
    // The input: x is pool entry 2, y is pool entry 1.
    expected.extend_from_slice(&[2, 1, 1, 2, 1, 1, 1]);
    // The trace: two input nodes, each used once.
    expected.extend_from_slice(&[2, 0, 1, 0, 0, 1, 1]);
    // The basis section.
    expected.extend_from_slice(&[2, 0, 1]);
    // Each input is one step: 1 times its own basis element.
    expected.extend_from_slice(&[1, 0, 0, 1, 0, 1]);
    // The one pair has coprime leads.
    expected.push(0);
    assert_eq!(bytes, expected);
}

#[test]
fn the_budget_never_changes_the_bytes() {
    let ring = ring();
    let input = vec![poly(&ring, vec![(1, vec![2, 0]), (3, vec![0, 1])]), poly(&ring, vec![(1, vec![1, 1])])];
    let basis = vec![poly(&ring, vec![(1, vec![2, 0]), (3, vec![0, 1])]), poly(&ring, vec![(1, vec![1, 1])]), poly(&ring, vec![(1, vec![0, 2])])];
    let recording = Recording {
        nodes: vec![
            Node::Input { index: 0 },
            Node::Input { index: 1 },
            Node::Mul { src: 1, mono: sylvester::monomial::Monomial::from_exps(vec![0, 1]) },
            Node::Mul { src: 0, mono: sylvester::monomial::Monomial::from_exps(vec![0, 1]) },
            Node::Scale { src: 2, scalar: 5 },
            Node::Comb { steps: vec![(3, 5), (4, 1)] },
            Node::Scale { src: 5, scalar: 5 },
        ],
        basis: vec![0, 1, 6],
    };
    let copy = Recording { nodes: recording.nodes.clone(), basis: recording.basis.clone() };
    let (free, _) = assemble(&ring, &input, &basis, recording, &mut Budget::unlimited(2)).expect("a certificate");
    let (limited, held) =
        assemble(&ring, &input, &basis, copy, &mut Budget::new(None, Some(1 << 30), 2)).expect("a certificate");
    assert_eq!(free, limited);
    assert!(held >= free.len());
}

#[test]
fn a_trace_with_another_basis_count_is_refused() {
    let ring = ring();
    let input = vec![x(&ring), y(&ring)];
    assert_eq!(
        assemble(&ring, &input, &input, inputs_as_basis(1), &mut Budget::unlimited(2)),
        Err(CertifyError::Emitter(EmitterFault::Trace(TraceFault::BasisCount { found: 1, expected: 2 })))
    );
}

#[test]
fn a_basis_element_that_is_not_monic_is_refused() {
    let ring = ring();
    let input = vec![x(&ring), y(&ring)];
    let basis = vec![poly(&ring, vec![(2, vec![1, 0])]), y(&ring)];
    assert_eq!(
        assemble(&ring, &input, &basis, inputs_as_basis(2), &mut Budget::unlimited(2)),
        Err(CertifyError::Emitter(EmitterFault::BasisElementNotMonic { index: 0 }))
    );
}

#[test]
fn a_zero_basis_element_is_refused() {
    let ring = ring();
    let input = vec![x(&ring), y(&ring)];
    let basis = vec![x(&ring), poly(&ring, vec![])];
    assert_eq!(
        assemble(&ring, &input, &basis, inputs_as_basis(2), &mut Budget::unlimited(2)),
        Err(CertifyError::Emitter(EmitterFault::BasisElementZero { index: 1 }))
    );
}

#[test]
fn an_input_with_a_remainder_is_refused() {
    let ring = ring();
    let input = vec![x(&ring), poly(&ring, vec![(1, vec![0, 1]), (1, vec![0, 0])])];
    let basis = vec![x(&ring)];
    let recording = Recording { nodes: vec![Node::Input { index: 0 }], basis: vec![0] };
    assert_eq!(
        assemble(&ring, &input, &basis, recording, &mut Budget::unlimited(2)),
        Err(CertifyError::Emitter(EmitterFault::InputHasRemainder { input: 1 }))
    );
}

#[test]
fn a_pair_that_does_not_reduce_is_refused() {
    let ring = ring();
    // The S-polynomial of x^2 + y and x*y is y^2, which neither lead divides.
    let basis = vec![poly(&ring, vec![(1, vec![2, 0]), (1, vec![0, 1])]), poly(&ring, vec![(1, vec![1, 1])])];
    assert_eq!(
        assemble(&ring, &basis, &basis, inputs_as_basis(2), &mut Budget::unlimited(2)),
        Err(CertifyError::Emitter(EmitterFault::NotAGroebnerBasis { i: 0, j: 1 }))
    );
}

#[test]
fn an_exhausted_budget_stops_the_writer() {
    let ring = ring();
    let input = vec![x(&ring), y(&ring)];
    let passed = Some(Instant::now() - Duration::from_secs(1));
    assert_eq!(
        assemble(&ring, &input, &input, inputs_as_basis(2), &mut Budget::new(passed, None, 2)),
        Err(CertifyError::WriterExhausted(ComputeError::Timeout))
    );
    assert_eq!(
        assemble(&ring, &input, &input, inputs_as_basis(2), &mut Budget::new(None, Some(1), 2)),
        Err(CertifyError::WriterExhausted(ComputeError::MemoryLimitExceeded))
    );
}

#[test]
fn witnesses_prefer_coprime_leads_then_chains_then_divisions() {
    let ring = ring();
    let basis = vec![x(&ring), y(&ring), poly(&ring, vec![(1, vec![1, 1])])];
    let pairs = witnesses(&basis, &mut Budget::unlimited(2)).expect("every pair reduces");
    assert_eq!(pairs.len(), 3);
    assert_eq!(pairs[0], Witness::Coprime);
    assert_eq!(pairs[1], Witness::Chain(1));
    // A second chain would close a cycle with the first.
    assert!(matches!(pairs[2], Witness::Reduce(_)));
}
