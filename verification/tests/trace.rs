//! The recorded trace, cut down to what the basis reaches.

use sylvester::cert::Budget;
use sylvester::cert::v2::record::{Node, Recording};
use sylvester::cert::v2::{
    MAX_COMB_STEPS,
    MAX_DIVISION_STEPS,
    MAX_TOTAL_DIVISION_STEPS,
    cap,
    charge_division,
    prepare_trace,
    prune,
    pruned_bytes,
    reachable,
    trace_size,
};
use sylvester::certificate::{CertificateCap, CertifyError};
use sylvester::monomial::Monomial;

fn small_recording() -> Recording {
    Recording {
        nodes: vec![
            Node::Input { index: 0 },
            Node::Input { index: 1 },
            // Nothing reaches this one.
            Node::Scale { src: 1, scalar: 3 },
            Node::Comb { steps: vec![(0, 1), (1, 2)] },
        ],
        basis: vec![3],
    }
}

/// The node cap and the budget read the marking pass, not a pruned trace.
///
/// `reachable` gives the kept node count and the kept combination steps
/// before `prune` allocates anything, so a trace above a cap costs the
/// marking pass alone.
#[test]
fn the_kept_node_count_comes_before_the_pruned_trace() {
    let recording = small_recording();
    let keep = reachable(&recording);
    assert_eq!(keep, vec![true, true, false, true]);
    let kept = keep.iter().filter(|&&mark| mark).count();
    assert_eq!(kept, 3);
    assert!(pruned_bytes(kept, 2, 1) > 0);

    let (nodes, roots, uses) = prune(recording, &keep, kept);
    assert_eq!(nodes.len(), kept, "prune keeps what the marking pass counted");
    assert_eq!(roots, vec![2], "the dropped node renumbers the rest");
    assert_eq!(uses, vec![1, 1, 1]);
}

#[test]
fn pruning_renames_every_source_and_counts_every_use() {
    let recording = Recording {
        nodes: vec![
            Node::Input { index: 0 },
            Node::Input { index: 1 },
            Node::Mul { src: 0, mono: Monomial::from_exps(vec![1, 0]) },
            Node::Input { index: 2 },
            Node::Comb { steps: vec![(1, 4), (2, 5)] },
            Node::Scale { src: 3, scalar: 2 },
            Node::Comb { steps: vec![(2, 1), (4, 6)] },
        ],
        basis: vec![6, 4],
    };
    let keep = reachable(&recording);
    assert_eq!(keep, vec![true, true, true, false, true, false, true]);
    let (kept, steps) = trace_size(&recording.nodes, &keep).expect("no combination is over the cap");
    assert_eq!((kept, steps), (5, 4));
    let (nodes, roots, uses) = prune(recording, &keep, kept);
    assert_eq!(
        nodes,
        vec![
            Node::Input { index: 0 },
            Node::Input { index: 1 },
            Node::Mul { src: 0, mono: Monomial::from_exps(vec![1, 0]) },
            Node::Comb { steps: vec![(1, 4), (2, 5)] },
            Node::Comb { steps: vec![(2, 1), (3, 6)] },
        ]
    );
    assert_eq!(roots, vec![4, 3]);
    assert_eq!(uses, vec![1, 1, 2, 2, 1]);
}

#[test]
fn a_combination_over_the_cap_stops_the_count() {
    let steps: Vec<(u32, u64)> = (0..=MAX_COMB_STEPS as u32).map(|k| (0, u64::from(k) + 1)).collect();
    let nodes = vec![Node::Input { index: 0 }, Node::Comb { steps }];
    assert_eq!(
        trace_size(&nodes, &[true, true]),
        Err(CertifyError::CapExceeded { cap: CertificateCap::CombSteps, limit: MAX_COMB_STEPS })
    );
    assert_eq!(trace_size(&nodes, &[true, false]), Ok((1, 0)));
}

#[test]
fn the_prepared_trace_holds_its_bytes() {
    let mut budget = Budget::unlimited(2);
    let trace = prepare_trace(small_recording(), &mut budget).expect("no cap and no limit");
    assert_eq!(trace.roots, vec![2]);
    assert_eq!(trace.uses, vec![1, 1, 1]);
    assert_eq!(budget.held(), pruned_bytes(3, 2, 1));
}

#[test]
fn the_division_caps_stop_the_total() {
    assert_eq!(charge_division(3, 4), Ok(7));
    assert_eq!(
        charge_division(MAX_DIVISION_STEPS + 1, 0),
        Err(CertifyError::CapExceeded { cap: CertificateCap::DivisionSteps, limit: MAX_DIVISION_STEPS })
    );
    assert_eq!(
        charge_division(2, MAX_TOTAL_DIVISION_STEPS - 1),
        Err(CertifyError::CapExceeded { cap: CertificateCap::TotalDivisionSteps, limit: MAX_TOTAL_DIVISION_STEPS })
    );
    assert_eq!(cap(5, 5, CertificateCap::Nodes), Ok(()));
}
