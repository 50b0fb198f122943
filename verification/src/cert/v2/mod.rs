//! The trace of one recorded run, cut down to what the basis reaches.
//!
//! A recorded run leaves one node per value it built. The certificate
//! carries only the nodes the basis reaches, renumbered from 0, with the
//! number of references to each.

pub mod divide;
pub mod encode;
pub mod record;
pub mod witness;

use vstd::prelude::*;

use self::record::{Node, Recording, node_sources, nodes_in_ring, trace_wf};
use crate::certificate::{CertificateCap, CertifyError, EmitterFault, TraceFault};
use crate::cert::divide::poly_views;
use crate::compute::{ComputeError, DEGREE_LIMIT};
use crate::monomial::Monomial;
use crate::poly::{Polynomial, PolynomialRing, TermView, terms_in_ring};
use self::divide::{Step, divide, lemma_reduces_widths, no_divisor, reduces_to_zero, replays, step_views};
use self::encode::{
    MAX_POOL_ENTRIES, MAX_POOL_MONOMIALS, Pool, ascending, certificate_bytes, mono_views, section_bytes, steps_pooled,
    trace_views,
};
use self::witness::{Witness, multipliers_fit, witness_stop, witnesses, witnesses_ok};

verus! {

/// The largest number of nodes in the trace.
pub const MAX_NODES: usize = 8000000;
/// The largest number of steps in one `Comb` node.
pub const MAX_COMB_STEPS: usize = 1048576;
/// The largest number of `Comb` steps in the whole trace.
pub const MAX_TRACE_STEPS: usize = 64000000;
/// The largest number of basis elements.
pub const MAX_BASIS: usize = 1000000;
/// The largest number of steps in one division trace.
pub const MAX_DIVISION_STEPS: usize = 1048576;
/// The largest number of division steps in the whole certificate.
pub const MAX_TOTAL_DIVISION_STEPS: usize = 64000000;

/// The largest number of polynomials in the input section.
pub const MAX_INPUT_POLYS: usize = 1000000;
/// The largest number of terms in one polynomial.
pub const MAX_TERMS_PER_POLY: usize = 1048576;
/// The largest number of input terms in the certificate.
pub const MAX_TOTAL_TERMS: usize = 8000000;

/// Return an error when `value` exceeds `limit`.
///
/// The verifier applies the same cap before it allocates, so a certificate
/// above a cap is bytes nobody can check. The writer stops instead.
pub fn cap(value: usize, limit: usize, which: CertificateCap) -> (r: Result<(), CertifyError>)
    ensures
        r is Ok <==> value <= limit,
        r matches Err(e) ==> e == (CertifyError::CapExceeded { cap: which, limit }),
{
    if value > limit {
        return Err(CertifyError::CapExceeded { cap: which, limit });
    }
    Ok(())
}

/// The number of marks in `keep`.
pub open spec fn count_true(keep: Seq<bool>) -> nat
    decreases keep.len(),
{
    if keep.len() == 0 {
        0
    } else {
        count_true(keep.drop_last()) + if keep.last() {
            1nat
        } else {
            0nat
        }
    }
}

/// The place of node `i` among the marked nodes: the marks before it.
pub open spec fn rank(keep: Seq<bool>, i: int) -> nat {
    count_true(keep.take(i))
}

/// The number of times `x` occurs in `s`.
pub open spec fn occurrences(s: Seq<u32>, x: int) -> nat
    decreases s.len(),
{
    if s.len() == 0 {
        0
    } else {
        occurrences(s.drop_last(), x) + if s.last() == x {
            1nat
        } else {
            0nat
        }
    }
}

/// The references to node `x` from the nodes of `nodes`.
pub open spec fn refs_to(nodes: Seq<Node>, x: int) -> nat
    decreases nodes.len(),
{
    if nodes.len() == 0 {
        0
    } else {
        refs_to(nodes.drop_last(), x) + occurrences(node_sources(nodes.last()), x)
    }
}

/// The combination steps of the marked nodes.
pub open spec fn kept_steps(nodes: Seq<Node>, keep: Seq<bool>) -> nat
    decreases nodes.len(),
{
    if nodes.len() == 0 {
        0
    } else {
        kept_steps(nodes.drop_last(), keep) + if keep[nodes.len() - 1] {
            comb_len(nodes.last())
        } else {
            0nat
        }
    }
}

/// The number of steps of a `Comb` node; zero for the other kinds.
pub open spec fn comb_len(node: Node) -> nat {
    match node {
        Node::Comb { steps } => steps@.len(),
        _ => 0,
    }
}

/// Some root names node `x`.
pub open spec fn is_root(roots: Seq<u32>, x: int) -> bool {
    exists|b: int| 0 <= b < roots.len() && roots[b] == x
}

/// `node` names node `x` among its sources.
pub open spec fn names(node: Node, x: int) -> bool {
    exists|k: int| 0 <= k < node_sources(node).len() && node_sources(node)[k] == x
}

/// `keep` marks exactly the nodes the roots reach: every root, every
/// source of a marked node, and nothing else.
pub open spec fn marks_reachable(nodes: Seq<Node>, roots: Seq<u32>, keep: Seq<bool>) -> bool {
    &&& keep.len() == nodes.len()
    &&& forall|b: int| 0 <= b < roots.len() ==> #[trigger] keep[roots[b] as int]
    &&& forall|i: int, k: int|
        0 <= i < nodes.len() && keep[i] && 0 <= k < node_sources(nodes[i]).len() ==> keep[#[trigger] node_sources(
            nodes[i],
        )[k] as int]
    &&& forall|x: int| 0 <= x < nodes.len() && #[trigger] keep[x] ==> is_root(roots, x) || exists|j: int|
        x < j < nodes.len() && keep[j] && #[trigger] names(nodes[j], x)
}

/// Mark the nodes the basis reaches.
///
/// Every reference points backward, so one backward pass marks every
/// reachable node.
pub fn reachable(recording: &Recording) -> (keep: Vec<bool>)
    requires
        recording.wf(),
    ensures
        marks_reachable(recording.nodes@, recording.basis@, keep@),
{
    let ghost nodes = recording.nodes@;
    let ghost roots = recording.basis@;
    let n = recording.nodes.len();
    let mut keep: Vec<bool> = Vec::new();
    let mut k: usize = 0;
    while k < n
        invariant
            k <= n,
            keep@.len() == k,
            forall|x: int| 0 <= x < k ==> !keep@[x],
        decreases n - k,
    {
        keep.push(false);
        k += 1;
    }
    let mut b: usize = 0;
    while b < recording.basis.len()
        invariant
            recording.wf(),
            nodes == recording.nodes@,
            roots == recording.basis@,
            n == nodes.len(),
            keep@.len() == n,
            b <= roots.len(),
            forall|c: int| 0 <= c < b ==> #[trigger] keep@[roots[c] as int],
            forall|x: int| 0 <= x < n && #[trigger] keep@[x] ==> is_root(roots, x),
        decreases roots.len() - b,
    {
        let root = recording.basis[b] as usize;
        proof {
            assert(roots[b as int] < n);
        }
        keep.set(root, true);
        proof {
            assert(roots[b as int] == root);
            assert forall|x: int| 0 <= x < n && #[trigger] keep@[x] implies is_root(roots, x) by {
                if x == root {
                    assert(roots[b as int] == x);
                }
            }
        }
        b += 1;
    }
    let mut i: usize = n;
    while i > 0
        invariant
            recording.wf(),
            nodes == recording.nodes@,
            roots == recording.basis@,
            n == nodes.len(),
            keep@.len() == n,
            i <= n,
            forall|c: int| 0 <= c < roots.len() ==> #[trigger] keep@[roots[c] as int],
            forall|j: int, k: int|
                i <= j < n && keep@[j] && 0 <= k < node_sources(nodes[j]).len() ==> keep@[#[trigger] node_sources(
                    nodes[j],
                )[k] as int],
            forall|x: int| 0 <= x < n && #[trigger] keep@[x] ==> is_root(roots, x) || exists|j: int|
                x < j < n && i <= j && keep@[j] && #[trigger] names(nodes[j], x),
        decreases i,
    {
        i -= 1;
        if keep[i] {
            let sources = recording.nodes[i].sources();
            let ghost before = keep@;
            let mut t: usize = 0;
            while t < sources.len()
                invariant
                    recording.wf(),
                    nodes == recording.nodes@,
                    roots == recording.basis@,
                    n == nodes.len(),
                    keep@.len() == n,
                    i < n,
                    before[i as int],
                    sources@ == node_sources(nodes[i as int]),
                    t <= sources@.len(),
                    forall|x: int| 0 <= x < n && before[x] ==> keep@[x],
                    forall|x: int| i <= x < n ==> keep@[x] == before[x],
                    forall|k: int| 0 <= k < t ==> keep@[#[trigger] sources@[k] as int],
                    forall|x: int| 0 <= x < n && #[trigger] keep@[x] && !before[x] ==> names(nodes[i as int], x),
                decreases sources@.len() - t,
            {
                proof {
                    assert(node_sources(nodes[i as int])[t as int] < i);
                }
                let src = sources[t] as usize;
                keep.set(src, true);
                proof {
                    assert(sources@[t as int] == src);
                    assert forall|x: int| 0 <= x < n && #[trigger] keep@[x] && !before[x] implies names(
                        nodes[i as int],
                        x,
                    ) by {
                        if x == src {
                            assert(node_sources(nodes[i as int])[t as int] == x);
                        }
                    }
                }
                t += 1;
            }
            proof {
                assert forall|c: int| 0 <= c < roots.len() implies #[trigger] keep@[roots[c] as int] by {
                    assert(before[roots[c] as int]);
                }
                assert forall|x: int| 0 <= x < n && #[trigger] keep@[x] implies is_root(roots, x) || exists|j: int|
                    x < j < n && i <= j && keep@[j] && #[trigger] names(nodes[j], x) by {
                    if !before[x] {
                        assert(names(nodes[i as int], x));
                        let k = choose|k: int| 0 <= k < node_sources(nodes[i as int]).len() && node_sources(nodes[i as int])[k] == x;
                        assert(node_sources(nodes[i as int])[k] < i);
                    } else if !is_root(roots, x) {
                        let j = choose|j: int| x < j < n && i + 1 <= j && before[j] && #[trigger] names(nodes[j], x);
                        assert(keep@[j]);
                    }
                }
                assert forall|j: int, k: int|
                    i <= j < n && keep@[j] && 0 <= k < node_sources(nodes[j]).len() implies keep@[#[trigger] node_sources(
                        nodes[j],
                    )[k] as int] by {
                    if j > i {
                        assert(before[j]);
                        assert(before[node_sources(nodes[j])[k] as int]);
                    }
                }
            }
        }
    }
    keep
}


/// The marks of a prefix never pass the marks of a longer prefix.
pub proof fn lemma_count_prefix(keep: Seq<bool>, i: int, j: int)
    requires
        0 <= i <= j <= keep.len(),
    ensures
        count_true(keep.take(i)) <= count_true(keep.take(j)),
        count_true(keep.take(j)) <= j,
    decreases j,
{
    if j > 0 {
        assert(keep.take(j).drop_last() =~= keep.take(j - 1));
        if i < j {
            lemma_count_prefix(keep, i, j - 1);
        } else {
            lemma_count_prefix(keep, j - 1, j - 1);
        }
    } else {
        assert(keep.take(j) =~= Seq::<bool>::empty());
    }
}

/// One more node adds its mark to the count.
proof fn lemma_count_step(keep: Seq<bool>, i: int)
    requires
        0 <= i < keep.len(),
    ensures
        count_true(keep.take(i + 1)) == count_true(keep.take(i)) + if keep[i] {
            1nat
        } else {
            0nat
        },
{
    assert(keep.take(i + 1).drop_last() =~= keep.take(i));
}

/// One more node adds its combination steps to the count.
proof fn lemma_kept_steps_step(nodes: Seq<Node>, keep: Seq<bool>, i: int)
    requires
        0 <= i < nodes.len(),
    ensures
        kept_steps(nodes.take(i + 1), keep) == kept_steps(nodes.take(i), keep) + if keep[i] {
            comb_len(nodes[i])
        } else {
            0nat
        },
{
    assert(nodes.take(i + 1).drop_last() =~= nodes.take(i));
}

/// The steps of a prefix never pass the steps of the whole list.
proof fn lemma_kept_steps_prefix(nodes: Seq<Node>, keep: Seq<bool>, i: int)
    requires
        0 <= i <= nodes.len(),
    ensures
        kept_steps(nodes.take(i), keep) <= kept_steps(nodes, keep),
    decreases nodes.len() - i,
{
    if i < nodes.len() {
        lemma_kept_steps_step(nodes, keep, i);
        lemma_kept_steps_prefix(nodes, keep, i + 1);
    } else {
        assert(nodes.take(i) =~= nodes);
    }
}

/// The `usize` that `n` saturates to.
pub open spec fn saturated_count(n: nat) -> usize {
    if n > usize::MAX {
        usize::MAX
    } else {
        n as usize
    }
}

/// Count the marked nodes and the steps of the marked combinations.
///
/// A marked combination above [`MAX_COMB_STEPS`] steps stops the count
/// with that cap. The step count saturates at `usize::MAX`.
pub fn trace_size(nodes: &[Node], keep: &[bool]) -> (r: Result<(usize, usize), CertifyError>)
    requires
        keep@.len() == nodes@.len(),
    ensures
        r is Ok <==> forall|i: int| 0 <= i < nodes@.len() && keep@[i] ==> comb_len(#[trigger] nodes@[i]) <= MAX_COMB_STEPS,
        r matches Ok((kept, steps)) ==> kept == count_true(keep@) && steps == saturated_count(
            kept_steps(nodes@, keep@),
        ),
        r matches Err(e) ==> e == (CertifyError::CapExceeded { cap: CertificateCap::CombSteps, limit: MAX_COMB_STEPS }),
{
    let mut kept: usize = 0;
    let mut steps: usize = 0;
    let mut i: usize = 0;
    while i < nodes.len()
        invariant
            keep@.len() == nodes@.len(),
            i <= nodes@.len(),
            kept == count_true(keep@.take(i as int)),
            steps == saturated_count(kept_steps(nodes@.take(i as int), keep@)),
            forall|j: int| 0 <= j < i && keep@[j] ==> comb_len(#[trigger] nodes@[j]) <= MAX_COMB_STEPS,
        decreases nodes@.len() - i,
    {
        proof {
            lemma_count_step(keep@, i as int);
            lemma_kept_steps_step(nodes@, keep@, i as int);
            lemma_count_prefix(keep@, i as int, i as int);
        }
        if keep[i] {
            kept += 1;
            match &nodes[i] {
                Node::Comb { steps: comb } => {
                    match cap(comb.len(), MAX_COMB_STEPS, CertificateCap::CombSteps) {
                        Ok(()) => {},
                        Err(e) => {
                            return Err(e);
                        },
                    }
                    steps = crate::cert::saturating_add(steps, comb.len());
                },
                _ => {},
            }
        }
        i += 1;
    }
    proof {
        assert(keep@.take(i as int) =~= keep@);
        assert(nodes@.take(i as int) =~= nodes@);
    }
    Ok((kept, steps))
}

/// The bytes a pruned trace of `kept` nodes, `steps` combination steps,
/// and `roots` basis roots holds, saturating at `usize::MAX`.
pub fn pruned_bytes(kept: usize, steps: usize, roots: usize) -> (r: usize)
    ensures
        r == crate::cert::saturating_total(
            crate::cert::saturating_total(
                crate::cert::saturating_product(kept, crate::cert::saturating_total(size_of::<Node>(), size_of::<u32>())),
                crate::cert::saturating_product(steps, size_of::<(u32, u64)>()),
            ),
            crate::cert::saturating_product(roots, size_of::<u32>()),
        ),
{
    let row = crate::cert::saturating_add(size_of::<Node>(), size_of::<u32>());
    let nodes = crate::cert::saturating_mul(kept, row);
    let pairs = crate::cert::saturating_mul(steps, size_of::<(u32, u64)>());
    let bases = crate::cert::saturating_mul(roots, size_of::<u32>());
    crate::cert::saturating_add(crate::cert::saturating_add(nodes, pairs), bases)
}

/// Add the steps of one division trace to the running total.
///
/// A trace above [`MAX_DIVISION_STEPS`] or a total above
/// [`MAX_TOTAL_DIVISION_STEPS`] stops with that cap.
pub fn charge_division(steps: usize, total: usize) -> (r: Result<usize, CertifyError>)
    requires
        total <= MAX_TOTAL_DIVISION_STEPS,
    ensures
        r is Ok <==> steps <= MAX_DIVISION_STEPS && total + steps <= MAX_TOTAL_DIVISION_STEPS,
        r matches Ok(t) ==> t == total + steps,
        r matches Err(e) ==> (steps > MAX_DIVISION_STEPS && e == (CertifyError::CapExceeded {
            cap: CertificateCap::DivisionSteps,
            limit: MAX_DIVISION_STEPS,
        })) || (steps <= MAX_DIVISION_STEPS && e == (CertifyError::CapExceeded {
            cap: CertificateCap::TotalDivisionSteps,
            limit: MAX_TOTAL_DIVISION_STEPS,
        })),
{
    match cap(steps, MAX_DIVISION_STEPS, CertificateCap::DivisionSteps) {
        Ok(()) => {},
        Err(e) => {
            return Err(e);
        },
    }
    let total = total + steps;
    match cap(total, MAX_TOTAL_DIVISION_STEPS, CertificateCap::TotalDivisionSteps) {
        Ok(()) => {},
        Err(e) => {
            return Err(e);
        },
    }
    Ok(total)
}


/// `out` is `node` with every source renamed to its place among the
/// marked nodes.
pub open spec fn renamed_as(out: Node, node: Node, keep: Seq<bool>) -> bool {
    match node {
        Node::Input { index } => out == Node::Input { index },
        Node::Mul { src, mono } => out matches Node::Mul { src: s, mono: m } && s == rank(keep, src as int)
            && m@ == mono@,
        Node::Scale { src, scalar } => out matches Node::Scale { src: s, scalar: c } && s == rank(keep, src as int)
            && c == scalar,
        Node::Comb { steps } => out matches Node::Comb { steps: st } && st@.len() == steps@.len() && forall|k: int|
            0 <= k < steps@.len() ==> (#[trigger] st@[k]).0 == rank(keep, steps@[k].0 as int) && st@[k].1
                == steps@[k].1,
    }
}

/// A marked node comes after every marked node before it: the place of
/// `a` is below the place of `b` when `a < b` and `a` is marked.
proof fn lemma_rank_below(keep: Seq<bool>, a: int, b: int)
    requires
        0 <= a < b <= keep.len(),
        keep[a],
    ensures
        rank(keep, a) < rank(keep, b),
{
    lemma_count_step(keep, a);
    lemma_count_prefix(keep, a + 1, b);
}

/// The occurrences of `x` grow by one at every push of `x`.
proof fn lemma_occurrences_push(s: Seq<u32>, v: u32, x: int)
    ensures
        occurrences(s.push(v), x) == occurrences(s, x) + if v == x {
            1nat
        } else {
            0nat
        },
{
    assert(s.push(v).drop_last() =~= s);
}

/// The references grow by the sources of every appended node.
proof fn lemma_refs_push(nodes: Seq<Node>, node: Node, x: int)
    ensures
        refs_to(nodes.push(node), x) == refs_to(nodes, x) + occurrences(node_sources(node), x),
{
    assert(nodes.push(node).drop_last() =~= nodes);
}

/// Keep the marked nodes, renumbered from 0.
///
/// `keep` comes from [`reachable`] and `kept` is the number of marks in
/// it. The result holds the nodes in recording order, the node of each
/// basis element, and the use count of each node: the number of
/// references from later nodes and from the basis section, so every kept
/// node has a count of at least 1.
pub fn prune(recording: Recording, keep: &[bool], kept: usize) -> (r: (Vec<Node>, Vec<u32>, Vec<u32>))
    requires
        recording.wf(),
        marks_reachable(recording.nodes@, recording.basis@, keep@),
        kept == count_true(keep@),
        kept <= MAX_NODES,
        kept_steps(recording.nodes@, keep@) <= MAX_TRACE_STEPS,
        recording.basis@.len() <= MAX_BASIS,
    ensures
        r.0@.len() == kept,
        forall|i: int|
            0 <= i < recording.nodes@.len() && keep@[i] ==> renamed_as(
                #[trigger] r.0@[rank(keep@, i) as int],
                recording.nodes@[i],
                keep@,
            ),
        r.1@.len() == recording.basis@.len(),
        forall|b: int| 0 <= b < r.1@.len() ==> #[trigger] r.1@[b] == rank(keep@, recording.basis@[b] as int),
        r.2@.len() == kept,
        forall|x: int| 0 <= x < kept ==> #[trigger] r.2@[x] == refs_to(r.0@, x) + occurrences(r.1@, x),
        trace_wf(r.0@, r.1@),
{
    let ghost nodes = recording.nodes@;
    let ghost roots = recording.basis@;
    let ghost ks = keep@;
    let n = recording.nodes.len();
    let mut renamed: Vec<u32> = Vec::new();
    let mut next: u32 = 0;
    let mut i: usize = 0;
    while i < n
        invariant
            n == nodes.len(),
            ks == keep@,
            ks.len() == n,
            kept == count_true(ks),
            kept <= MAX_NODES,
            i <= n,
            renamed@.len() == i,
            next == rank(ks, i as int),
            forall|j: int| 0 <= j < i && ks[j] ==> #[trigger] renamed@[j] == rank(ks, j),
        decreases n - i,
    {
        proof {
            lemma_count_step(ks, i as int);
            lemma_count_prefix(ks, i as int + 1, n as int);
            assert(ks.take(n as int) =~= ks);
        }
        if keep[i] {
            renamed.push(next);
            next += 1;
        } else {
            renamed.push(0);
        }
        i += 1;
    }
    let mut uses: Vec<u32> = Vec::new();
    let mut k: usize = 0;
    while k < kept
        invariant
            k <= kept,
            uses@.len() == k,
            forall|x: int| 0 <= x < k ==> uses@[x] == 0,
        decreases kept - k,
    {
        uses.push(0);
        k += 1;
    }
    let mut out: Vec<Node> = Vec::new();
    let ghost mut counted: nat = 0;
    proof {
        assert forall|x: int| 0 <= x < kept implies #[trigger] uses@[x] == refs_to(out@, x) by {}
    }
    let mut i: usize = 0;
    while i < n
        invariant
            recording.wf(),
            nodes == recording.nodes@,
            roots == recording.basis@,
            n == nodes.len(),
            ks == keep@,
            marks_reachable(nodes, roots, ks),
            kept == count_true(ks),
            kept <= MAX_NODES,
            kept_steps(nodes, ks) <= MAX_TRACE_STEPS,
            i <= n,
            renamed@.len() == n,
            forall|j: int| 0 <= j < n && ks[j] ==> #[trigger] renamed@[j] == rank(ks, j),
            out@.len() == rank(ks, i as int),
            forall|j: int| 0 <= j < i && ks[j] ==> renamed_as(#[trigger] out@[rank(ks, j) as int], nodes[j], ks),
            forall|a: int, b: int|
                0 <= a < out@.len() && 0 <= b < node_sources(out@[a]).len() ==> #[trigger] node_sources(out@[a])[b]
                    < a,
            uses@.len() == kept,
            forall|x: int| 0 <= x < kept ==> #[trigger] uses@[x] == refs_to(out@, x),
            forall|x: int| 0 <= x < kept ==> #[trigger] uses@[x] <= counted,
            counted <= out@.len() + kept_steps(nodes.take(i as int), ks),
        decreases n - i,
    {
        proof {
            lemma_count_step(ks, i as int);
            lemma_count_prefix(ks, i as int + 1, n as int);
            assert(ks.take(n as int) =~= ks);
            lemma_kept_steps_step(nodes, ks, i as int);
            lemma_kept_steps_prefix(nodes, ks, i as int + 1);
        }
        if keep[i] {
            let ghost at = out@.len();
            let ghost sources = node_sources(nodes[i as int]);
            proof {
                assert forall|b: int| 0 <= b < sources.len() implies ks[#[trigger] sources[b] as int] && sources[b] < i
                    && rank(ks, sources[b] as int) < at by {
                    assert(node_sources(nodes[i as int])[b] < i);
                    lemma_rank_below(ks, sources[b] as int, i as int);
                }
            }
            let node = match &recording.nodes[i] {
                Node::Input { index } => Node::Input { index: *index },
                Node::Mul { src, mono } => {
                    proof {
                        assert(sources[0] == *src);
                    }
                    Node::Mul { src: renamed[*src as usize], mono: mono.copy() }
                },
                Node::Scale { src, scalar } => {
                    proof {
                        assert(sources[0] == *src);
                    }
                    Node::Scale { src: renamed[*src as usize], scalar: *scalar }
                },
                Node::Comb { steps } => {
                    let mut renamed_steps: Vec<(u32, u64)> = Vec::new();
                    let mut t: usize = 0;
                    while t < steps.len()
                        invariant
                            renamed@.len() == n,
                            forall|j: int| 0 <= j < n && ks[j] ==> #[trigger] renamed@[j] == rank(ks, j),
                            sources == steps@.map_values(|step: (u32, u64)| step.0),
                            forall|b: int| 0 <= b < sources.len() ==> ks[#[trigger] sources[b] as int] && sources[b] < i,
                            i < n,
                            t <= steps@.len(),
                            renamed_steps@.len() == t,
                            forall|b: int|
                                0 <= b < t ==> (#[trigger] renamed_steps@[b]).0 == rank(ks, steps@[b].0 as int)
                                    && renamed_steps@[b].1 == steps@[b].1,
                        decreases steps@.len() - t,
                    {
                        proof {
                            assert(sources[t as int] == steps@[t as int].0);
                        }
                        renamed_steps.push((renamed[steps[t].0 as usize], steps[t].1));
                        t += 1;
                    }
                    Node::Comb { steps: renamed_steps }
                },
            };
            proof {
                assert(renamed_as(node, nodes[i as int], ks));
                assert forall|b: int| 0 <= b < node_sources(node).len() implies #[trigger] node_sources(node)[b] < at
                    && node_sources(node)[b] == rank(ks, sources[b] as int) by {
                    match nodes[i as int] {
                        Node::Comb { steps } => {
                            if let Node::Comb { steps: st } = node {
                                assert(node_sources(node)[b] == st@[b].0);
                                assert(sources[b] == steps@[b].0);
                            }
                        },
                        _ => {},
                    }
                }
                assert(node_sources(node).len() == sources.len());
                assert(node_sources(node).len() <= 1 + comb_len(nodes[i as int]));
                lemma_count_prefix(ks, i as int + 1, n as int);
                assert(at + 1 <= kept);
                assert(kept_steps(nodes.take(i as int + 1), ks) <= MAX_TRACE_STEPS);
            }
            let new_sources = node.sources();
            let ghost before = uses@;
            let ghost counted_before = counted;
            let mut t: usize = 0;
            while t < new_sources.len()
                invariant
                    new_sources@ == node_sources(node),
                    forall|b: int| 0 <= b < new_sources@.len() ==> #[trigger] new_sources@[b] < at,
                    at <= kept,
                    uses@.len() == kept,
                    t <= new_sources@.len(),
                    forall|x: int| 0 <= x < kept ==> #[trigger] uses@[x] == before[x] + occurrences(new_sources@.take(t as int), x),
                    forall|x: int| 0 <= x < kept ==> #[trigger] uses@[x] <= counted,
                    counted == counted_before + t,
                    counted_before + new_sources@.len() <= MAX_NODES + MAX_TRACE_STEPS,
                decreases new_sources@.len() - t,
            {
                let target = new_sources[t] as usize;
                proof {
                    assert(new_sources@.take(t as int + 1) =~= new_sources@.take(t as int).push(new_sources@[t as int]));
                    assert forall|x: int| 0 <= x < kept implies occurrences(new_sources@.take(t as int + 1), x)
                        == occurrences(new_sources@.take(t as int), x) + if new_sources@[t as int] == x {
                        1nat
                    } else {
                        0nat
                    } by {
                        lemma_occurrences_push(new_sources@.take(t as int), new_sources@[t as int], x);
                    }
                }
                let value = uses[target];
                uses.set(target, value + 1);
                proof {
                    counted = counted + 1;
                }
                t += 1;
            }
            proof {
                assert(new_sources@.take(t as int) =~= new_sources@);
            }
            let ghost old_out = out@;
            out.push(node);
            proof {
                assert forall|x: int| 0 <= x < kept implies #[trigger] uses@[x] == refs_to(out@, x) by {
                    lemma_refs_push(old_out, node, x);
                }
                assert forall|j: int| 0 <= j < i + 1 && ks[j] implies renamed_as(
                    #[trigger] out@[rank(ks, j) as int],
                    nodes[j],
                    ks,
                ) by {
                    if j < i {
                        lemma_rank_below(ks, j, i as int);
                        assert(out@[rank(ks, j) as int] == old_out[rank(ks, j) as int]);
                    }
                }
                assert forall|a: int, b: int|
                    0 <= a < out@.len() && 0 <= b < node_sources(out@[a]).len() implies #[trigger] node_sources(
                        out@[a],
                    )[b] < a by {
                    if a < at {
                        assert(out@[a] == old_out[a]);
                    }
                }
            }
        }
        i += 1;
    }
    proof {
        assert(ks.take(n as int) =~= ks);
        assert(nodes.take(n as int) =~= nodes);
    }
    let mut roots_out: Vec<u32> = Vec::new();
    let mut b: usize = 0;
    while b < recording.basis.len()
        invariant
            recording.wf(),
            nodes == recording.nodes@,
            roots == recording.basis@,
            ks == keep@,
            marks_reachable(nodes, roots, ks),
            renamed@.len() == n,
            n == nodes.len(),
            forall|j: int| 0 <= j < n && ks[j] ==> #[trigger] renamed@[j] == rank(ks, j),
            b <= roots.len(),
            roots_out@.len() == b,
            forall|c: int| 0 <= c < b ==> #[trigger] roots_out@[c] == rank(ks, roots[c] as int),
        decreases roots.len() - b,
    {
        proof {
            assert(roots[b as int] < n);
            assert(ks[roots[b as int] as int]);
        }
        roots_out.push(renamed[recording.basis[b] as usize]);
        b += 1;
    }
    proof {
        assert forall|c: int| 0 <= c < roots_out@.len() implies #[trigger] roots_out@[c] < kept by {
            assert(roots[c] < n);
            assert(ks[roots[c] as int]);
            lemma_rank_below(ks, roots[c] as int, n as int);
            assert(ks.take(n as int) =~= ks);
        }
    }
    let ghost body = uses@;
    let mut b: usize = 0;
    while b < roots_out.len()
        invariant
            roots_out@.len() <= MAX_BASIS,
            forall|c: int| 0 <= c < roots_out@.len() ==> #[trigger] roots_out@[c] < kept,
            uses@.len() == kept,
            b <= roots_out@.len(),
            forall|x: int| 0 <= x < kept ==> #[trigger] uses@[x] == body[x] + occurrences(roots_out@.take(b as int), x),
            forall|x: int| 0 <= x < kept ==> #[trigger] uses@[x] <= MAX_NODES + MAX_TRACE_STEPS + b,
        decreases roots_out@.len() - b,
    {
        let target = roots_out[b] as usize;
        proof {
            assert(roots_out@.take(b as int + 1) =~= roots_out@.take(b as int).push(roots_out@[b as int]));
            assert forall|x: int| 0 <= x < kept implies occurrences(roots_out@.take(b as int + 1), x) == occurrences(
                roots_out@.take(b as int),
                x,
            ) + if roots_out@[b as int] == x {
                1nat
            } else {
                0nat
            } by {
                lemma_occurrences_push(roots_out@.take(b as int), roots_out@[b as int], x);
            }
        }
        let value = uses[target];
        uses.set(target, value + 1);
        b += 1;
    }
    proof {
        assert(roots_out@.take(b as int) =~= roots_out@);
    }
    (out, roots_out, uses)
}


/// The nodes the basis reaches, renumbered from 0, with the node of each
/// basis element and the use count of each node.
pub struct PrunedTrace {
    pub nodes: Vec<Node>,
    pub roots: Vec<u32>,
    pub uses: Vec<u32>,
}

/// `nodes`, `roots` and `uses` are the recorded trace cut down to what
/// the roots reach: the marked nodes renumbered from 0 in recording
/// order, the node of each root, and the number of references to each
/// node from later nodes and from the roots.
pub open spec fn pruned_from(
    recorded: Seq<Node>,
    recorded_roots: Seq<u32>,
    nodes: Seq<Node>,
    roots: Seq<u32>,
    uses: Seq<u32>,
) -> bool {
    exists|keep: Seq<bool>|
        #[trigger] marks_reachable(recorded, recorded_roots, keep) && nodes.len() == count_true(keep) && (forall|i: int|
            0 <= i < recorded.len() && keep[i] ==> renamed_as(#[trigger] nodes[rank(keep, i) as int], recorded[i], keep))
            && roots.len() == recorded_roots.len() && (forall|b: int|
            0 <= b < roots.len() ==> #[trigger] roots[b] == rank(keep, recorded_roots[b] as int)) && uses.len()
            == nodes.len() && (forall|x: int|
            0 <= x < uses.len() ==> #[trigger] uses[x] == refs_to(nodes, x) + occurrences(roots, x))
}

/// The marked nodes stay within the three trace caps: no marked
/// combination above [`MAX_COMB_STEPS`] steps, at most [`MAX_NODES`] marked
/// nodes, and at most [`MAX_TRACE_STEPS`] steps over them all.
pub open spec fn marks_fit(nodes: Seq<Node>, keep: Seq<bool>) -> bool {
    &&& forall|i: int| 0 <= i < nodes.len() && keep[i] ==> comb_len(#[trigger] nodes[i]) <= MAX_COMB_STEPS
    &&& count_true(keep) <= MAX_NODES
    &&& kept_steps(nodes, keep) <= MAX_TRACE_STEPS
}

/// The part of the trace the roots reach stays within the trace caps.
pub open spec fn trace_fits(nodes: Seq<Node>, roots: Seq<u32>) -> bool {
    forall|keep: Seq<bool>| #[trigger] marks_reachable(nodes, roots, keep) ==> marks_fit(nodes, keep)
}

/// Two markings of what the roots reach agree at `x` and above.
proof fn lemma_marks_agree(nodes: Seq<Node>, roots: Seq<u32>, a: Seq<bool>, b: Seq<bool>, x: int)
    requires
        marks_reachable(nodes, roots, a),
        marks_reachable(nodes, roots, b),
        0 <= x < nodes.len(),
    ensures
        a[x] == b[x],
    decreases nodes.len() - x,
{
    if a[x] != b[x] {
        let (yes, no) = if a[x] {
            (a, b)
        } else {
            (b, a)
        };
        assert(yes[x]);
        if is_root(roots, x) {
            let r = choose|r: int| 0 <= r < roots.len() && roots[r] == x;
            assert(no[roots[r] as int]);
        } else {
            let j = choose|j: int| x < j < nodes.len() && yes[j] && #[trigger] names(nodes[j], x);
            lemma_marks_agree(nodes, roots, a, b, j);
            let k = choose|k: int| 0 <= k < node_sources(nodes[j]).len() && node_sources(nodes[j])[k] == x;
            assert(no[node_sources(nodes[j])[k] as int]);
        }
    }
}

/// The roots reach one set of nodes: two markings of it are the same.
pub proof fn lemma_marks_unique(nodes: Seq<Node>, roots: Seq<u32>, a: Seq<bool>, b: Seq<bool>)
    requires
        marks_reachable(nodes, roots, a),
        marks_reachable(nodes, roots, b),
    ensures
        a == b,
{
    assert forall|x: int| 0 <= x < a.len() implies a[x] == b[x] by {
        lemma_marks_agree(nodes, roots, a, b, x);
    }
    assert(a =~= b);
}

/// Cut the recording down to the nodes the basis reaches.
///
/// The node cap, the step caps, and the budget read the marking pass
/// before anything is copied, so a trace above a cap costs the marking
/// pass alone. The caller has held the basis to [`MAX_BASIS`].
pub fn prepare_trace(recording: Recording, budget: &mut crate::cert::Budget) -> (r: Result<PrunedTrace, CertifyError>)
    requires
        recording.wf(),
        recording.basis@.len() <= MAX_BASIS,
    ensures
        final(budget).stops_spec() == old(budget).stops_spec(),
        final(budget).memory_spec() == old(budget).memory_spec(),
        r matches Ok(trace) ==> pruned_from(recording.nodes@, recording.basis@, trace.nodes@, trace.roots@, trace.uses@),
        r matches Ok(trace) ==> trace_wf(trace.nodes@, trace.roots@),
        r matches Err(e) ==> match e {
            CertifyError::CapExceeded { cap, limit } => ((cap == CertificateCap::CombSteps && limit
                == MAX_COMB_STEPS) || (cap == CertificateCap::Nodes && limit == MAX_NODES) || (cap
                == CertificateCap::TraceSteps && limit == MAX_TRACE_STEPS)) && !trace_fits(
                recording.nodes@,
                recording.basis@,
            ),
            CertifyError::WriterExhausted(c) => c == crate::compute::ComputeError::MemoryLimitExceeded
                && old(budget).memory_spec() is Some,
            _ => false,
        },
        old(budget).memory_spec() is None && trace_fits(recording.nodes@, recording.basis@) ==> r is Ok,
{
    let keep = reachable(&recording);
    proof {
        assert(marks_reachable(recording.nodes@, recording.basis@, keep@));
    }
    let (kept, steps) = match trace_size(recording.nodes.as_slice(), keep.as_slice()) {
        Ok(pair) => pair,
        Err(e) => {
            return Err(e);
        },
    };
    match cap(kept, MAX_NODES, CertificateCap::Nodes) {
        Ok(()) => {},
        Err(e) => {
            return Err(e);
        },
    }
    match cap(steps, MAX_TRACE_STEPS, CertificateCap::TraceSteps) {
        Ok(()) => {},
        Err(e) => {
            return Err(e);
        },
    }
    match budget.hold_bytes(pruned_bytes(kept, steps, recording.basis.len())) {
        Ok(()) => {},
        Err(e) => {
            return Err(CertifyError::WriterExhausted(e));
        },
    }
    let ghost ks = keep@;
    let ghost nodes = recording.nodes@;
    let ghost roots = recording.basis@;
    let (nodes_out, roots_out, uses) = prune(recording, keep.as_slice(), kept);
    proof {
        assert(marks_reachable(nodes, roots, ks));
    }
    Ok(PrunedTrace { nodes: nodes_out, roots: roots_out, uses })
}

/// Every place below the number of marks is the place of some marked node.
proof fn lemma_rank_onto(keep: Seq<bool>, n: int, a: int) -> (j: int)
    requires
        0 <= n <= keep.len(),
        0 <= a < count_true(keep.take(n)),
    ensures
        0 <= j < n,
        keep[j],
        rank(keep, j) == a,
    decreases n,
{
    if n == 0 {
        assert(keep.take(0) =~= Seq::<bool>::empty());
        0
    } else {
        lemma_count_step(keep, n - 1);
        if a < count_true(keep.take(n - 1)) {
            lemma_rank_onto(keep, n - 1, a)
        } else {
            n - 1
        }
    }
}

/// Cutting a trace recorded in a ring keeps it in that ring.
pub proof fn lemma_pruned_in_ring(
    recorded: Seq<Node>,
    recorded_roots: Seq<u32>,
    nodes: Seq<Node>,
    roots: Seq<u32>,
    uses: Seq<u32>,
    nvars: nat,
)
    requires
        trace_wf(recorded, recorded_roots),
        nodes_in_ring(recorded, nvars),
        pruned_from(recorded, recorded_roots, nodes, roots, uses),
    ensures
        nodes_in_ring(nodes, nvars),
{
    let keep = choose|keep: Seq<bool>|
        #[trigger] marks_reachable(recorded, recorded_roots, keep) && nodes.len() == count_true(keep) && (forall|i: int|
            0 <= i < recorded.len() && keep[i] ==> renamed_as(#[trigger] nodes[rank(keep, i) as int], recorded[i], keep))
            && roots.len() == recorded_roots.len() && (forall|b: int|
            0 <= b < roots.len() ==> #[trigger] roots[b] == rank(keep, recorded_roots[b] as int)) && uses.len()
            == nodes.len() && (forall|x: int|
            0 <= x < uses.len() ==> #[trigger] uses[x] == refs_to(nodes, x) + occurrences(roots, x));
    assert(keep.take(keep.len() as int) =~= keep);
    assert forall|a: int| 0 <= a < nodes.len() implies match #[trigger] nodes[a] {
        Node::Mul { mono, .. } => mono@.len() == nvars,
        Node::Comb { steps } => forall|x: int, y: int| 0 <= x < y < steps@.len() ==> steps@[x].0 < steps@[y].0,
        _ => true,
    } by {
        let j = lemma_rank_onto(keep, keep.len() as int, a);
        assert(renamed_as(nodes[rank(keep, j) as int], recorded[j], keep));
        match recorded[j] {
            Node::Comb { steps } => {
                let st = nodes[a]->Comb_steps;
                assert forall|x: int, y: int| 0 <= x < y < st@.len() implies st@[x].0 < st@[y].0 by {
                    assert(steps@[x].0 < steps@[y].0);
                    assert(node_sources(recorded[j])[x] == steps@[x].0);
                    assert(node_sources(recorded[j])[y] == steps@[y].0);
                    assert(keep[node_sources(recorded[j])[x] as int]);
                    lemma_rank_below(keep, steps@[x].0 as int, steps@[y].0 as int);
                }
            },
            _ => {},
        }
    }
}

/// The number of terms of a list of polynomials.
pub open spec fn input_terms(input: Seq<Polynomial>) -> nat
    decreases input.len(),
{
    if input.len() == 0 {
        0
    } else {
        input_terms(input.drop_last()) + input.last()@.len()
    }
}

/// The parts a certificate can be written for: the trace names one node
/// per basis element, the input and the basis stay within their caps, and
/// every basis element is monic.
pub open spec fn parts_fit(input: Seq<Polynomial>, basis: Seq<Polynomial>, roots: nat) -> bool {
    &&& roots == basis.len()
    &&& input.len() <= MAX_INPUT_POLYS
    &&& basis.len() <= MAX_BASIS
    &&& forall|i: int| 0 <= i < input.len() ==> (#[trigger] input[i])@.len() <= MAX_TERMS_PER_POLY
    &&& input_terms(input) <= MAX_TOTAL_TERMS
    &&& forall|k: int| 0 <= k < basis.len() ==> (#[trigger] basis[k])@.len() > 0 && basis[k]@.last().0 == 1
}

/// `e` reports parts no certificate can be written for, and says which.
pub open spec fn parts_error(e: CertifyError, input: Seq<Polynomial>, basis: Seq<Polynomial>, roots: nat) -> bool {
    match e {
        CertifyError::Emitter(EmitterFault::Trace(TraceFault::BasisCount { found, expected })) => found == roots
            && expected == basis.len() && found != expected,
        CertifyError::CapExceeded { cap, limit } => (cap == CertificateCap::InputPolys && limit == MAX_INPUT_POLYS
            && input.len() > limit) || (cap == CertificateCap::Basis && limit == MAX_BASIS && basis.len() > limit) || (
        cap == CertificateCap::TermsPerPoly && limit == MAX_TERMS_PER_POLY && exists|i: int|
            0 <= i < input.len() && (#[trigger] input[i])@.len() > limit) || (cap == CertificateCap::TotalTerms && limit
            == MAX_TOTAL_TERMS && input_terms(input) > limit),
        CertifyError::Emitter(EmitterFault::BasisElementZero { index }) => index < basis.len() && basis[index as int]@.len()
            == 0,
        CertifyError::Emitter(EmitterFault::BasisElementNotMonic { index }) => index < basis.len()
            && basis[index as int]@.len() > 0 && basis[index as int]@.last().0 != 1,
        _ => false,
    }
}

/// `e` is one of the errors that report parts no certificate can be
/// written for.
pub open spec fn is_parts_error(e: CertifyError) -> bool {
    ||| e matches CertifyError::Emitter(EmitterFault::Trace(TraceFault::BasisCount { .. }))
    ||| e matches CertifyError::CapExceeded { cap: CertificateCap::InputPolys, .. }
    ||| e matches CertifyError::CapExceeded { cap: CertificateCap::Basis, .. }
    ||| e matches CertifyError::CapExceeded { cap: CertificateCap::TermsPerPoly, .. }
    ||| e matches CertifyError::CapExceeded { cap: CertificateCap::TotalTerms, .. }
    ||| e matches CertifyError::Emitter(EmitterFault::BasisElementZero { .. })
    ||| e matches CertifyError::Emitter(EmitterFault::BasisElementNotMonic { .. })
}

/// Check the parts before any work: the basis count of the trace, the
/// input and basis caps, and that every basis element is monic.
pub fn validate_parts(input: &[Polynomial], basis: &[Polynomial], recording: &Recording) -> (r: Result<(), CertifyError>)
    requires
        forall|i: int| 0 <= i < input@.len() ==> (#[trigger] input@[i]).wf(),
        forall|k: int| 0 <= k < basis@.len() ==> (#[trigger] basis@[k]).wf(),
    ensures
        r is Ok <==> parts_fit(input@, basis@, recording.basis@.len()),
        r matches Err(e) ==> parts_error(e, input@, basis@, recording.basis@.len()) && is_parts_error(e),
{
    if recording.basis.len() != basis.len() {
        return Err(
            CertifyError::Emitter(
                EmitterFault::Trace(TraceFault::BasisCount { found: recording.basis.len(), expected: basis.len() }),
            ),
        );
    }
    match cap(input.len(), MAX_INPUT_POLYS, CertificateCap::InputPolys) {
        Ok(()) => {},
        Err(e) => {
            return Err(e);
        },
    }
    match cap(basis.len(), MAX_BASIS, CertificateCap::Basis) {
        Ok(()) => {},
        Err(e) => {
            return Err(e);
        },
    }
    let mut terms: usize = 0;
    let mut i: usize = 0;
    while i < input.len()
        invariant
            i <= input@.len(),
            input@.len() <= MAX_INPUT_POLYS,
            forall|j: int| 0 <= j < i ==> (#[trigger] input@[j])@.len() <= MAX_TERMS_PER_POLY,
            terms == if input_terms(input@.take(i as int)) <= usize::MAX {
                input_terms(input@.take(i as int))
            } else {
                usize::MAX as nat
            },
        decreases input@.len() - i,
    {
        let n = input[i].terms.len();
        match cap(n, MAX_TERMS_PER_POLY, CertificateCap::TermsPerPoly) {
            Ok(()) => {},
            Err(e) => {
                proof {
                    assert(input@[i as int]@.len() == n);
                }
                return Err(e);
            },
        }
        proof {
            assert(input@.take(i as int + 1).drop_last() =~= input@.take(i as int));
            assert(input@[i as int]@.len() == n);
        }
        terms = crate::cert::saturating_add(terms, n);
        i += 1;
    }
    proof {
        assert(input@.take(i as int) =~= input@);
    }
    match cap(terms, MAX_TOTAL_TERMS, CertificateCap::TotalTerms) {
        Ok(()) => {},
        Err(e) => {
            return Err(e);
        },
    }
    let mut k: usize = 0;
    while k < basis.len()
        invariant
            k <= basis@.len(),
            forall|j: int| 0 <= j < basis@.len() ==> (#[trigger] basis@[j]).wf(),
            forall|j: int| 0 <= j < k ==> (#[trigger] basis@[j])@.len() > 0 && basis@[j]@.last().0 == 1,
        decreases basis@.len() - k,
    {
        let n = basis[k].terms.len();
        if n == 0 {
            return Err(CertifyError::Emitter(EmitterFault::BasisElementZero { index: k }));
        }
        proof {
            assert(basis@[k as int]@.last() == basis@[k as int].terms@[n - 1]@);
        }
        if basis[k].terms[n - 1].coeff.value() != 1 {
            return Err(CertifyError::Emitter(EmitterFault::BasisElementNotMonic { index: k }));
        }
        k += 1;
    }
    Ok(())
}

/// The number of steps of a list of division traces.
pub open spec fn steps_total(traces: Seq<Seq<Step>>) -> nat
    decreases traces.len(),
{
    if traces.len() == 0 {
        0
    } else {
        steps_total(traces.drop_last()) + traces.last().len()
    }
}

/// `traces` holds, for each input polynomial, a division to zero over the
/// basis.
pub open spec fn divides_all(
    input: Seq<Polynomial>,
    basis: Seq<Polynomial>,
    traces: Seq<Seq<Step>>,
    ring: PolynomialRing,
) -> bool {
    &&& traces.len() == input.len()
    &&& forall|i: int|
        0 <= i < input.len() ==> #[trigger] reduces_to_zero(
            input[i]@,
            step_views(traces[i]),
            poly_views(basis),
            ring.modulus as int,
            ring.nvars as nat,
        )
}

/// The division of `f` over `gs` reaches a residual whose leading
/// monomial no leading monomial of `gs` divides.
pub open spec fn stuck(f: Seq<TermView>, gs: Seq<Seq<TermView>>, p: int, nvars: nat) -> bool {
    exists|rs: Seq<Seq<TermView>>, steps: Seq<(Seq<u16>, u32)>|
        #[trigger] replays(rs, steps, gs, p, nvars) && rs[0] == f && rs.last().len() > 0 && no_divisor(
            gs,
            rs.last().last().1,
        )
}

/// What stops the division of the input: a polynomial the basis leaves a
/// remainder of, the deadline, the memory limit, an exponent past its
/// width, or a division cap.
pub open spec fn division_stop(
    e: CertifyError,
    input: Seq<Polynomial>,
    basis: Seq<Polynomial>,
    ring: PolynomialRing,
    budget: crate::cert::Budget,
) -> bool {
    match e {
        CertifyError::Emitter(EmitterFault::InputHasRemainder { input: i }) => i < input.len() && stuck(
            input[i as int]@,
            poly_views(basis),
            ring.modulus as int,
            ring.nvars as nat,
        ),
        CertifyError::WriterExhausted(c) => (c == ComputeError::Timeout && budget.stops_spec() is Some) || (c
            == ComputeError::MemoryLimitExceeded && budget.memory_spec() is Some) || (c == (ComputeError::ExponentLimit {
            limit: DEGREE_LIMIT,
        }) && !crate::cert::represent::inputs_writable(input)),
        CertifyError::CapExceeded { cap, limit } => (cap == CertificateCap::DivisionSteps && limit
            == MAX_DIVISION_STEPS) || (cap == CertificateCap::TotalDivisionSteps && limit == MAX_TOTAL_DIVISION_STEPS),
        _ => false,
    }
}

/// Every basis element is monic, nonzero, and of `ring`.
pub open spec fn monic_in(basis: Seq<Polynomial>, ring: PolynomialRing) -> bool {
    forall|k: int|
        0 <= k < basis.len() ==> (#[trigger] basis[k]).wf() && basis[k].ring == ring && basis[k]@.len() > 0
            && basis[k]@.last().0 == 1
}

/// Every polynomial is of `ring`.
pub open spec fn all_in(polys: Seq<Polynomial>, ring: PolynomialRing) -> bool {
    forall|i: int| 0 <= i < polys.len() ==> (#[trigger] polys[i]).wf() && polys[i].ring == ring
}

/// Divide each input polynomial over the basis, and count the steps.
fn membership_traces(
    input: &[Polynomial],
    basis: &[Polynomial],
    budget: &mut crate::cert::Budget,
    Ghost(ring): Ghost<PolynomialRing>,
) -> (r: Result<(Vec<Vec<Step>>, usize), CertifyError>)
    requires
        all_in(input@, ring),
        monic_in(basis@, ring),
        basis@.len() <= MAX_BASIS,
    ensures
        final(budget).stops_spec() == old(budget).stops_spec(),
        final(budget).memory_spec() == old(budget).memory_spec(),
        r matches Ok((traces, total)) ==> divides_all(input@, basis@, trace_views(traces@), ring) && total
            == steps_total(trace_views(traces@)) && total <= MAX_TOTAL_DIVISION_STEPS,
        r matches Err(e) ==> division_stop(e, input@, basis@, ring, *old(budget)),
{
    let mut divisions: usize = 0;
    let mut membership: Vec<Vec<Step>> = Vec::new();
    let mut i: usize = 0;
    while i < input.len()
        invariant
            all_in(input@, ring),
            monic_in(basis@, ring),
            basis@.len() <= MAX_BASIS,
            i <= input@.len(),
            membership@.len() == i,
            forall|j: int|
                0 <= j < i ==> #[trigger] reduces_to_zero(
                    input@[j]@,
                    step_views(membership@[j]@),
                    poly_views(basis@),
                    ring.modulus as int,
                    ring.nvars as nat,
                ),
            divisions == steps_total(trace_views(membership@)),
            divisions <= MAX_TOTAL_DIVISION_STEPS,
            budget.stops_spec() == old(budget).stops_spec(),
            budget.memory_spec() == old(budget).memory_spec(),
        decreases input@.len() - i,
    {
        match budget.check_deadline() {
            Ok(()) => {},
            Err(e) => {
                return Err(CertifyError::WriterExhausted(e));
            },
        }
        let trace = match divide(&input[i], basis, budget) {
            Ok(Some(trace)) => trace,
            Ok(None) => {
                return Err(CertifyError::Emitter(EmitterFault::InputHasRemainder { input: i }));
            },
            Err(e) => {
                proof {
                    if e == CertifyError::WriterExhausted(ComputeError::ExponentLimit { limit: DEGREE_LIMIT }) {
                        assert(!crate::cert::represent::lead_degree_fits(input@[i as int]@));
                    }
                }
                return Err(e);
            },
        };
        divisions = match charge_division(trace.len(), divisions) {
            Ok(total) => total,
            Err(e) => {
                return Err(e);
            },
        };
        match budget.hold(1, trace.len()) {
            Ok(()) => {},
            Err(e) => {
                return Err(CertifyError::WriterExhausted(e));
            },
        }
        let ghost before = membership@;
        membership.push(trace);
        proof {
            assert(trace_views(membership@).drop_last() =~= trace_views(before));
            assert forall|j: int|
                0 <= j < i + 1 implies #[trigger] reduces_to_zero(
                input@[j]@,
                step_views(membership@[j]@),
                poly_views(basis@),
                ring.modulus as int,
                ring.nvars as nat,
            ) by {
                if j < i {
                    assert(membership@[j] == before[j]);
                }
            }
        }
        i += 1;
    }
    proof {
        assert forall|j: int|
            0 <= j < input@.len() implies #[trigger] reduces_to_zero(
            input@[j]@,
            step_views(trace_views(membership@)[j]),
            poly_views(basis@),
            ring.modulus as int,
            ring.nvars as nat,
        ) by {
            assert(trace_views(membership@)[j] == membership@[j]@);
        }
    }
    Ok((membership, divisions))
}

/// The division steps of the witnesses that carry a division trace.
pub open spec fn witness_steps(pairs: Seq<Witness>) -> nat
    decreases pairs.len(),
{
    if pairs.len() == 0 {
        0
    } else {
        witness_steps(pairs.drop_last()) + match pairs.last() {
            Witness::Reduce(steps) => steps@.len(),
            _ => 0,
        }
    }
}

/// Choose one witness per pair of the basis, and count their division
/// steps on top of `divisions`.
fn pair_witnesses(
    basis: &[Polynomial],
    divisions: usize,
    budget: &mut crate::cert::Budget,
    Ghost(ring): Ghost<PolynomialRing>,
) -> (r: Result<Vec<Witness>, CertifyError>)
    requires
        monic_in(basis@, ring),
        basis@.len() <= MAX_BASIS,
        divisions <= MAX_TOTAL_DIVISION_STEPS,
    ensures
        final(budget).stops_spec() == old(budget).stops_spec(),
        final(budget).memory_spec() == old(budget).memory_spec(),
        r matches Ok(pairs) ==> witnesses_ok(pairs@, basis@) && divisions + witness_steps(pairs@)
            <= MAX_TOTAL_DIVISION_STEPS,
        r matches Ok(pairs) ==> forall|t: int|
            0 <= t < pairs@.len() ==> multipliers_fit(#[trigger] pairs@[t], ring.nvars as nat),
        r matches Err(e) ==> witness_stop(e, basis@, *old(budget)) || (e matches CertifyError::CapExceeded {
            cap,
            limit,
        } && ((cap == CertificateCap::DivisionSteps && limit == MAX_DIVISION_STEPS) || (cap
            == CertificateCap::TotalDivisionSteps && limit == MAX_TOTAL_DIVISION_STEPS))),
{
    let pairs = match witnesses(basis, budget) {
        Ok(pairs) => pairs,
        Err(e) => {
            return Err(e);
        },
    };
    proof {
        if basis@.len() == 0 {
            assert(pairs@.len() == 0);
        }
    }
    let mut total = divisions;
    let mut t: usize = 0;
    while t < pairs.len()
        invariant
            t <= pairs@.len(),
            total == divisions + witness_steps(pairs@.take(t as int)),
            total <= MAX_TOTAL_DIVISION_STEPS,
            budget.stops_spec() == old(budget).stops_spec(),
            budget.memory_spec() == old(budget).memory_spec(),
        decreases pairs@.len() - t,
    {
        proof {
            assert(pairs@.take(t as int + 1).drop_last() =~= pairs@.take(t as int));
        }
        match &pairs[t] {
            Witness::Reduce(steps) => {
                total = match charge_division(steps.len(), total) {
                    Ok(next) => next,
                    Err(e) => {
                        return Err(e);
                    },
                };
            },
            _ => {},
        }
        t += 1;
    }
    proof {
        assert(pairs@.take(t as int) =~= pairs@);
    }
    Ok(pairs)
}

/// The multiplier of a `Mul` node.
pub open spec fn mul_of(node: Node) -> Option<Seq<u16>> {
    match node {
        Node::Mul { mono, .. } => Some(mono@),
        _ => None,
    }
}

/// The division trace a witness carries; none for the others.
pub open spec fn reduce_steps(w: Witness) -> Seq<Step> {
    match w {
        Witness::Reduce(steps) => steps@,
        _ => Seq::empty(),
    }
}

/// `m` is a monomial the certificate names: a term of an input
/// polynomial, the multiplier of a `Mul` node, or the multiplier of a
/// division step of a membership trace or a pair witness.
pub open spec fn referenced(
    m: Seq<u16>,
    input: Seq<Polynomial>,
    nodes: Seq<Node>,
    membership: Seq<Seq<Step>>,
    pairs: Seq<Witness>,
) -> bool {
    ||| exists|i: int, k: int| 0 <= i < input.len() && 0 <= k < input[i]@.len() && (#[trigger] input[i]@[k]).1 == m
    ||| exists|k: int| 0 <= k < nodes.len() && #[trigger] mul_of(nodes[k]) == Some(m)
    ||| exists|i: int, k: int|
        0 <= i < membership.len() && 0 <= k < membership[i].len() && (#[trigger] membership[i][k]).mono@ == m
    ||| exists|t: int, k: int|
        0 <= t < pairs.len() && 0 <= k < reduce_steps(pairs[t]).len() && (#[trigger] reduce_steps(pairs[t])[k]).mono@
            == m
}

/// One more item keeps what the list holds, and holds the item.
proof fn lemma_push_contains(s: Seq<Seq<u16>>, v: Seq<u16>)
    ensures
        forall|x: Seq<u16>| s.contains(x) ==> #[trigger] s.push(v).contains(x),
        s.push(v).contains(v),
{
    assert forall|x: Seq<u16>| s.contains(x) implies #[trigger] s.push(v).contains(x) by {
        let j = choose|j: int| 0 <= j < s.len() && s[j] == x;
        assert(s.push(v)[j] == x);
    }
    assert(s.push(v)[s.len() as int] == v);
}

/// Append one monomial.
fn push_mono(out: &mut Vec<Monomial>, m: &Monomial)
    ensures
        mono_views(final(out)@) == mono_views(old(out)@).push(m@),
{
    let ghost before = out@;
    out.push(m.copy());
    proof {
        assert(mono_views(out@) =~= mono_views(before).push(m@));
    }
}

/// Every monomial the certificate names, each once or more.
///
/// The pool holds these and nothing else: the verifier rejects an entry no
/// section names.
#[verifier::rlimit(30)]
fn monomials(input: &[Polynomial], nodes: &[Node], membership: &[Vec<Step>], pairs: &[Witness]) -> (r: Vec<Monomial>)
    ensures
        forall|x: int|
            0 <= x < r@.len() ==> referenced(
                #[trigger] mono_views(r@)[x],
                input@,
                nodes@,
                trace_views(membership@),
                pairs@,
            ),
        forall|m: Seq<u16>|
            referenced(m, input@, nodes@, trace_views(membership@), pairs@) ==> #[trigger] mono_views(r@).contains(m),
{
    let ghost tv = trace_views(membership@);
    let mut out: Vec<Monomial> = Vec::new();
    let mut i: usize = 0;
    while i < input.len()
        invariant
            tv == trace_views(membership@),
            i <= input@.len(),
            forall|x: int|
                0 <= x < out@.len() ==> referenced(#[trigger] mono_views(out@)[x], input@, nodes@, tv, pairs@),
            forall|a: int, k: int|
                0 <= a < i && 0 <= k < input@[a]@.len() ==> mono_views(out@).contains((#[trigger] input@[a]@[k]).1),
        decreases input@.len() - i,
    {
        let mut k: usize = 0;
        while k < input[i].terms.len()
            invariant
                tv == trace_views(membership@),
                i < input@.len(),
                k <= input@[i as int]@.len(),
                input@[i as int]@.len() == input@[i as int].terms@.len(),
                forall|x: int|
                    0 <= x < out@.len() ==> referenced(#[trigger] mono_views(out@)[x], input@, nodes@, tv, pairs@),
                forall|a: int, kk: int|
                    0 <= a < i && 0 <= kk < input@[a]@.len() ==> mono_views(out@).contains(
                        (#[trigger] input@[a]@[kk]).1,
                    ),
                forall|kk: int| 0 <= kk < k ==> mono_views(out@).contains((#[trigger] input@[i as int]@[kk]).1),
            decreases input@[i as int]@.len() - k,
        {
            let ghost pv = mono_views(out@);
            let ghost old_len = out@.len();
            push_mono(&mut out, &input[i].terms[k].mono);
            proof {
                let m = input[i as int].terms@[k as int].mono@;
                assert(input@[i as int]@[k as int] == input@[i as int].terms@[k as int]@);
                assert(input@[i as int]@[k as int].1 == m);
                lemma_push_contains(pv, m);
                assert forall|x: int| 0 <= x < out@.len() implies referenced(
                    #[trigger] mono_views(out@)[x],
                    input@,
                    nodes@,
                    tv,
                    pairs@,
                ) by {
                    if x < old_len {
                        assert(mono_views(out@)[x] == pv[x]);
                    }
                }
            }
            k += 1;
        }
        i += 1;
    }
    let mut k: usize = 0;
    while k < nodes.len()
        invariant
            tv == trace_views(membership@),
            k <= nodes@.len(),
            forall|x: int|
                0 <= x < out@.len() ==> referenced(#[trigger] mono_views(out@)[x], input@, nodes@, tv, pairs@),
            forall|a: int, kk: int|
                0 <= a < input@.len() && 0 <= kk < input@[a]@.len() ==> mono_views(out@).contains(
                    (#[trigger] input@[a]@[kk]).1,
                ),
            forall|j: int|
                0 <= j < k && (#[trigger] mul_of(nodes@[j])) is Some ==> mono_views(out@).contains(
                    mul_of(nodes@[j])->Some_0,
                ),
        decreases nodes@.len() - k,
    {
        match &nodes[k] {
            Node::Mul { mono, .. } => {
                let ghost pv = mono_views(out@);
                let ghost old_len = out@.len();
                push_mono(&mut out, mono);
                proof {
                    assert(mul_of(nodes@[k as int]) == Some(mono@));
                    lemma_push_contains(pv, mono@);
                    assert forall|x: int| 0 <= x < out@.len() implies referenced(
                        #[trigger] mono_views(out@)[x],
                        input@,
                        nodes@,
                        tv,
                        pairs@,
                    ) by {
                        if x < old_len {
                            assert(mono_views(out@)[x] == pv[x]);
                        }
                    }
                }
            },
            _ => {},
        }
        k += 1;
    }
    let mut i: usize = 0;
    while i < membership.len()
        invariant
            tv == trace_views(membership@),
            i <= membership@.len(),
            forall|x: int|
                0 <= x < out@.len() ==> referenced(#[trigger] mono_views(out@)[x], input@, nodes@, tv, pairs@),
            forall|a: int, kk: int|
                0 <= a < input@.len() && 0 <= kk < input@[a]@.len() ==> mono_views(out@).contains(
                    (#[trigger] input@[a]@[kk]).1,
                ),
            forall|j: int|
                0 <= j < nodes@.len() && (#[trigger] mul_of(nodes@[j])) is Some ==> mono_views(out@).contains(
                    mul_of(nodes@[j])->Some_0,
                ),
            forall|a: int, kk: int|
                0 <= a < i && 0 <= kk < tv[a].len() ==> mono_views(out@).contains((#[trigger] tv[a][kk]).mono@),
        decreases membership@.len() - i,
    {
        let steps = &membership[i];
        let mut k: usize = 0;
        while k < steps.len()
            invariant
                tv == trace_views(membership@),
                i < membership@.len(),
                steps@ == tv[i as int],
                k <= steps@.len(),
                forall|x: int|
                    0 <= x < out@.len() ==> referenced(#[trigger] mono_views(out@)[x], input@, nodes@, tv, pairs@),
                forall|a: int, kk: int|
                    0 <= a < input@.len() && 0 <= kk < input@[a]@.len() ==> mono_views(out@).contains(
                        (#[trigger] input@[a]@[kk]).1,
                    ),
                forall|j: int|
                    0 <= j < nodes@.len() && (#[trigger] mul_of(nodes@[j])) is Some ==> mono_views(out@).contains(
                        mul_of(nodes@[j])->Some_0,
                    ),
                forall|a: int, kk: int|
                    0 <= a < i && 0 <= kk < tv[a].len() ==> mono_views(out@).contains((#[trigger] tv[a][kk]).mono@),
                forall|kk: int| 0 <= kk < k ==> mono_views(out@).contains((#[trigger] tv[i as int][kk]).mono@),
            decreases steps@.len() - k,
        {
            let ghost pv = mono_views(out@);
            let ghost old_len = out@.len();
            push_mono(&mut out, &steps[k].mono);
            proof {
                let m = steps@[k as int].mono@;
                assert(tv[i as int][k as int].mono@ == m);
                lemma_push_contains(pv, m);
                assert forall|x: int| 0 <= x < out@.len() implies referenced(
                    #[trigger] mono_views(out@)[x],
                    input@,
                    nodes@,
                    tv,
                    pairs@,
                ) by {
                    if x < old_len {
                        assert(mono_views(out@)[x] == pv[x]);
                    }
                }
            }
            k += 1;
        }
        i += 1;
    }
    let mut t: usize = 0;
    while t < pairs.len()
        invariant
            tv == trace_views(membership@),
            t <= pairs@.len(),
            forall|x: int|
                0 <= x < out@.len() ==> referenced(#[trigger] mono_views(out@)[x], input@, nodes@, tv, pairs@),
            forall|a: int, kk: int|
                0 <= a < input@.len() && 0 <= kk < input@[a]@.len() ==> mono_views(out@).contains(
                    (#[trigger] input@[a]@[kk]).1,
                ),
            forall|j: int|
                0 <= j < nodes@.len() && (#[trigger] mul_of(nodes@[j])) is Some ==> mono_views(out@).contains(
                    mul_of(nodes@[j])->Some_0,
                ),
            forall|a: int, kk: int|
                0 <= a < tv.len() && 0 <= kk < tv[a].len() ==> mono_views(out@).contains((#[trigger] tv[a][kk]).mono@),
            forall|a: int, kk: int|
                0 <= a < t && 0 <= kk < reduce_steps(pairs@[a]).len() ==> mono_views(out@).contains(
                    (#[trigger] reduce_steps(pairs@[a])[kk]).mono@,
                ),
        decreases pairs@.len() - t,
    {
        match &pairs[t] {
            Witness::Reduce(steps) => {
                let mut k: usize = 0;
                while k < steps.len()
                    invariant
                        tv == trace_views(membership@),
                        t < pairs@.len(),
                        steps@ == reduce_steps(pairs@[t as int]),
                        k <= steps@.len(),
                        forall|x: int|
                            0 <= x < out@.len() ==> referenced(
                                #[trigger] mono_views(out@)[x],
                                input@,
                                nodes@,
                                tv,
                                pairs@,
                            ),
                        forall|a: int, kk: int|
                            0 <= a < input@.len() && 0 <= kk < input@[a]@.len() ==> mono_views(out@).contains(
                                (#[trigger] input@[a]@[kk]).1,
                            ),
                        forall|j: int|
                            0 <= j < nodes@.len() && (#[trigger] mul_of(nodes@[j])) is Some ==> mono_views(
                                out@,
                            ).contains(mul_of(nodes@[j])->Some_0),
                        forall|a: int, kk: int|
                            0 <= a < tv.len() && 0 <= kk < tv[a].len() ==> mono_views(out@).contains(
                                (#[trigger] tv[a][kk]).mono@,
                            ),
                        forall|a: int, kk: int|
                            0 <= a < t && 0 <= kk < reduce_steps(pairs@[a]).len() ==> mono_views(out@).contains(
                                (#[trigger] reduce_steps(pairs@[a])[kk]).mono@,
                            ),
                        forall|kk: int|
                            0 <= kk < k ==> mono_views(out@).contains(
                                (#[trigger] reduce_steps(pairs@[t as int])[kk]).mono@,
                            ),
                    decreases steps@.len() - k,
                {
                    let ghost pv = mono_views(out@);
                    let ghost old_len = out@.len();
                    push_mono(&mut out, &steps[k].mono);
                    proof {
                        let m = steps@[k as int].mono@;
                        assert(reduce_steps(pairs@[t as int])[k as int].mono@ == m);
                        lemma_push_contains(pv, m);
                        assert forall|x: int| 0 <= x < out@.len() implies referenced(
                            #[trigger] mono_views(out@)[x],
                            input@,
                            nodes@,
                            tv,
                            pairs@,
                        ) by {
                            if x < old_len {
                                assert(mono_views(out@)[x] == pv[x]);
                            }
                        }
                    }
                    k += 1;
                }
            },
            _ => {},
        }
        t += 1;
    }
    proof {
        assert forall|m: Seq<u16>| referenced(m, input@, nodes@, tv, pairs@) implies #[trigger] mono_views(
            out@,
        ).contains(m) by {
            if exists|j: int| 0 <= j < nodes@.len() && #[trigger] mul_of(nodes@[j]) == Some(m) {
                let j = choose|j: int| 0 <= j < nodes@.len() && #[trigger] mul_of(nodes@[j]) == Some(m);
                assert(mono_views(out@).contains(mul_of(nodes@[j])->Some_0));
            }
        }
    }
    out
}

/// A monomial the certificate names has the width of the ring, when every
/// part it comes from does.
proof fn lemma_referenced_width(
    m: Seq<u16>,
    input: Seq<Polynomial>,
    nodes: Seq<Node>,
    membership: Seq<Seq<Step>>,
    pairs: Seq<Witness>,
    ring: PolynomialRing,
)
    requires
        referenced(m, input, nodes, membership, pairs),
        all_in(input, ring),
        nodes_in_ring(nodes, ring.nvars as nat),
        forall|i: int, k: int|
            0 <= i < membership.len() && 0 <= k < membership[i].len() ==> (#[trigger] membership[i][k]).mono@.len()
                == ring.nvars,
        forall|t: int| 0 <= t < pairs.len() ==> multipliers_fit(#[trigger] pairs[t], ring.nvars as nat),
    ensures
        m.len() == ring.nvars,
{
    if exists|i: int, k: int| 0 <= i < input.len() && 0 <= k < input[i]@.len() && (#[trigger] input[i]@[k]).1 == m {
        let (i, k) = choose|i: int, k: int|
            0 <= i < input.len() && 0 <= k < input[i]@.len() && (#[trigger] input[i]@[k]).1 == m;
        assert(input[i].wf());
        assert(terms_in_ring(input[i]@, ring.modulus as int, ring.nvars as nat));
        assert(0 < input[i]@[k].0);
    } else if exists|k: int| 0 <= k < nodes.len() && #[trigger] mul_of(nodes[k]) == Some(m) {
        let k = choose|k: int| 0 <= k < nodes.len() && #[trigger] mul_of(nodes[k]) == Some(m);
        assert(nodes_in_ring(nodes, ring.nvars as nat));
        assert(nodes[k] is Mul);
    } else if exists|i: int, k: int|
        0 <= i < membership.len() && 0 <= k < membership[i].len() && (#[trigger] membership[i][k]).mono@ == m {
    } else {
        let (t, k) = choose|t: int, k: int|
            0 <= t < pairs.len() && 0 <= k < reduce_steps(pairs[t]).len() && (#[trigger] reduce_steps(pairs[t])[k]).mono@
                == m;
        assert(multipliers_fit(pairs[t], ring.nvars as nat));
        if let Witness::Reduce(steps) = pairs[t] {
            assert(reduce_steps(pairs[t])[k] == steps@[k]);
        }
    }
}

/// What stops the writing of the bytes: the deadline, the memory limit,
/// or a pool cap.
pub open spec fn write_stop(e: CertifyError, budget: crate::cert::Budget) -> bool {
    match e {
        CertifyError::WriterExhausted(c) => (c == ComputeError::Timeout && budget.stops_spec() is Some) || (c
            == ComputeError::MemoryLimitExceeded && budget.memory_spec() is Some),
        CertifyError::CapExceeded { cap, limit } => (cap == CertificateCap::PoolEntries && limit == MAX_POOL_ENTRIES)
            || (cap == CertificateCap::PoolMonomials && limit == MAX_POOL_MONOMIALS),
        _ => false,
    }
}

/// `pv` is the pool of these parts: exactly the monomials they name,
/// ascending.
pub open spec fn pool_of(
    pv: Seq<Seq<u16>>,
    nvars: nat,
    input: Seq<Polynomial>,
    nodes: Seq<Node>,
    membership: Seq<Seq<Step>>,
    pairs: Seq<Witness>,
) -> bool {
    &&& ascending(pv, nvars)
    &&& forall|m: Seq<u16>| #[trigger] pv.contains(m) <==> referenced(m, input, nodes, membership, pairs)
}

/// Number the monomials the parts name, and write the bytes.
fn write_certificate(
    ring: PolynomialRing,
    input: &[Polynomial],
    trace: &PrunedTrace,
    membership: &[Vec<Step>],
    pairs: &[Witness],
    budget: &mut crate::cert::Budget,
) -> (r: Result<(Vec<u8>, usize), CertifyError>)
    requires
        all_in(input@, ring),
        nodes_in_ring(trace.nodes@, ring.nvars as nat),
        trace.uses@.len() == trace.nodes@.len(),
        forall|i: int, k: int|
            0 <= i < membership@.len() && 0 <= k < membership@[i]@.len() ==> (#[trigger] membership@[i]@[k]).mono@.len()
                == ring.nvars,
        forall|t: int| 0 <= t < pairs@.len() ==> multipliers_fit(#[trigger] pairs@[t], ring.nvars as nat),
    ensures
        final(budget).stops_spec() == old(budget).stops_spec(),
        final(budget).memory_spec() == old(budget).memory_spec(),
        r matches Ok((bytes, held)) ==> held == final(budget).held_spec() && exists|pv: Seq<Seq<u16>>|
            #[trigger] pool_of(pv, ring.nvars as nat, input@, trace.nodes@, trace_views(membership@), pairs@)
                && bytes@ == certificate_bytes(
                ring.modulus,
                ring.nvars,
                section_bytes(
                    pv,
                    poly_views(input@),
                    trace.nodes@,
                    trace.uses@,
                    trace.roots@,
                    trace_views(membership@),
                    pairs@,
                ),
            ),
        r matches Err(e) ==> write_stop(e, *old(budget)),
{
    let ghost nv = ring.nvars as nat;
    let ghost tv = trace_views(membership@);
    match budget.check_deadline() {
        Ok(()) => {},
        Err(e) => {
            return Err(CertifyError::WriterExhausted(e));
        },
    }
    let monos = monomials(input, trace.nodes.as_slice(), membership, pairs);
    proof {
        assert forall|i: int, k: int|
            0 <= i < tv.len() && 0 <= k < tv[i].len() implies (#[trigger] tv[i][k]).mono@.len() == ring.nvars by {
            assert(tv[i] == membership@[i]@);
        }
        assert forall|x: int| 0 <= x < monos@.len() implies (#[trigger] monos@[x])@.len() == nv by {
            assert(mono_views(monos@)[x] == monos@[x]@);
            lemma_referenced_width(monos@[x]@, input@, trace.nodes@, tv, pairs@, ring);
        }
    }
    let pool = match Pool::build(monos.as_slice(), budget, Ghost(nv)) {
        Ok(pool) => pool,
        Err(e) => {
            return Err(e);
        },
    };
    let ghost pv = mono_views(pool.monos@);
    proof {
        assert forall|m: Seq<u16>| #[trigger] pv.contains(m) <==> referenced(m, input@, trace.nodes@, tv, pairs@) by {
            if pv.contains(m) {
                let x = choose|x: int| 0 <= x < mono_views(monos@).len() && mono_views(monos@)[x] == m;
                assert(referenced(mono_views(monos@)[x], input@, trace.nodes@, tv, pairs@));
            }
        }
        assert forall|i: int, k: int| 0 <= i < input@.len() && 0 <= k < input@[i]@.len() implies pv.contains(
            #[trigger] input@[i]@[k].1,
        ) by {
            assert(referenced(input@[i]@[k].1, input@, trace.nodes@, tv, pairs@));
        }
        assert forall|k: int| 0 <= k < trace.nodes@.len() implies match #[trigger] trace.nodes@[k] {
            Node::Comb { steps } => forall|a: int, b: int| 0 <= a < b < steps@.len() ==> steps@[a].0 < steps@[b].0,
            Node::Mul { mono, .. } => pv.contains(mono@),
            _ => true,
        } by {
            if let Node::Mul { mono, .. } = trace.nodes@[k] {
                assert(mul_of(trace.nodes@[k]) == Some(mono@));
                assert(referenced(mono@, input@, trace.nodes@, tv, pairs@));
            }
        }
        assert forall|i: int| 0 <= i < membership@.len() implies steps_pooled(#[trigger] membership@[i]@, pv) by {
            assert(tv[i] == membership@[i]@);
            assert forall|k: int| 0 <= k < membership@[i]@.len() implies pv.contains(
                #[trigger] membership@[i]@[k].mono@,
            ) by {
                assert(tv[i][k] == membership@[i]@[k]);
                assert(referenced(membership@[i]@[k].mono@, input@, trace.nodes@, tv, pairs@));
            }
        }
        assert forall|t: int| 0 <= t < pairs@.len() implies match #[trigger] pairs@[t] {
            Witness::Reduce(steps) => steps_pooled(steps@, pv),
            _ => true,
        } by {
            if let Witness::Reduce(steps) = pairs@[t] {
                assert forall|k: int| 0 <= k < steps@.len() implies pv.contains(#[trigger] steps@[k].mono@) by {
                    assert(reduce_steps(pairs@[t])[k] == steps@[k]);
                    assert(referenced(steps@[k].mono@, input@, trace.nodes@, tv, pairs@));
                }
            }
        }
    }
    match budget.check_deadline() {
        Ok(()) => {},
        Err(e) => {
            return Err(CertifyError::WriterExhausted(e));
        },
    }
    let certificate = match encode::write(
        ring.modulus,
        ring.nvars,
        &pool,
        input,
        trace.nodes.as_slice(),
        trace.uses.as_slice(),
        trace.roots.as_slice(),
        membership,
        pairs,
        budget,
    ) {
        Ok(bytes) => bytes,
        Err(e) => {
            return Err(e);
        },
    };
    match budget.hold_bytes(certificate.len()) {
        Ok(()) => {},
        Err(e) => {
            return Err(CertifyError::WriterExhausted(e));
        },
    }
    proof {
        assert(pool_of(pv, nv, input@, trace.nodes@, tv, pairs@));
    }
    let held = budget.held();
    Ok((certificate, held))
}

/// `bytes` is the certificate written from these parts: the recorded
/// trace cut down to what the basis reaches, a division of each input
/// polynomial to zero over the basis, one witness the verifier accepts per
/// pair, and the pool of exactly the monomials they name, ascending.
pub open spec fn written_from(
    bytes: Seq<u8>,
    ring: PolynomialRing,
    input: Seq<Polynomial>,
    basis: Seq<Polynomial>,
    recorded: Seq<Node>,
    recorded_roots: Seq<u32>,
    nodes: Seq<Node>,
    roots: Seq<u32>,
    uses: Seq<u32>,
    membership: Seq<Seq<Step>>,
    pairs: Seq<Witness>,
    pv: Seq<Seq<u16>>,
) -> bool {
    &&& pruned_from(recorded, recorded_roots, nodes, roots, uses)
    &&& divides_all(input, basis, membership, ring)
    &&& witnesses_ok(pairs, basis)
    &&& pool_of(pv, ring.nvars as nat, input, nodes, membership, pairs)
    &&& bytes == certificate_bytes(
        ring.modulus,
        ring.nvars,
        section_bytes(pv, poly_views(input), nodes, uses, roots, membership, pairs),
    )
}

/// `bytes` is a certificate of `input` and `basis` for the recorded trace.
pub open spec fn certifies(
    bytes: Seq<u8>,
    ring: PolynomialRing,
    input: Seq<Polynomial>,
    basis: Seq<Polynomial>,
    recorded: Seq<Node>,
    recorded_roots: Seq<u32>,
) -> bool {
    exists|
        nodes: Seq<Node>,
        roots: Seq<u32>,
        uses: Seq<u32>,
        membership: Seq<Seq<Step>>,
        pairs: Seq<Witness>,
        pv: Seq<Seq<u16>>,
    |
        #[trigger] written_from(
            bytes,
            ring,
            input,
            basis,
            recorded,
            recorded_roots,
            nodes,
            roots,
            uses,
            membership,
            pairs,
            pv,
        )
}

/// What stops the writer once the parts are valid: the deadline, the
/// memory limit, an exponent past its width, an input polynomial the basis
/// leaves a remainder of, a pair whose S-polynomial does not reduce, or a
/// cap of the trace, the divisions, the pairs, or the pool.
pub open spec fn assemble_stop(
    e: CertifyError,
    input: Seq<Polynomial>,
    basis: Seq<Polynomial>,
    ring: PolynomialRing,
    budget: crate::cert::Budget,
    nodes: Seq<Node>,
    roots: Seq<u32>,
) -> bool {
    ||| division_stop(e, input, basis, ring, budget)
    ||| witness_stop(e, basis, budget)
    ||| write_stop(e, budget)
    ||| e matches CertifyError::CapExceeded { cap, limit } && ((cap == CertificateCap::CombSteps && limit
        == MAX_COMB_STEPS) || (cap == CertificateCap::Nodes && limit == MAX_NODES) || (cap
        == CertificateCap::TraceSteps && limit == MAX_TRACE_STEPS)) && !trace_fits(nodes, roots)
}

/// Write the certificate of one recorded run.
///
/// `input` is the input in the caller's order, `basis` the basis the run
/// returned, and `recording` the trace of that run; every polynomial is of
/// `ring`. The bytes are a function of those alone. The budget stops the
/// work early; it never changes the bytes.
///
/// The writer reports a defect only where it cannot write a certificate at
/// all: a division that leaves a remainder, a basis element that is zero
/// or not monic, or a trace that does not name one node per basis element.
/// It checks no identity of its own: the verifier does that.
///
/// The second value is what the budget holds once the bytes are charged.
pub fn assemble(
    ring: &PolynomialRing,
    input: &[Polynomial],
    basis: &[Polynomial],
    recording: Recording,
    budget: &mut crate::cert::Budget,
) -> (r: Result<(Vec<u8>, usize), CertifyError>)
    requires
        all_in(input@, *ring),
        all_in(basis@, *ring),
        recording.wf(),
        nodes_in_ring(recording.nodes@, ring.nvars as nat),
    ensures
        final(budget).stops_spec() == old(budget).stops_spec(),
        final(budget).memory_spec() == old(budget).memory_spec(),
        r matches Ok((bytes, held)) ==> certifies(bytes@, *ring, input@, basis@, recording.nodes@, recording.basis@)
            && held == final(budget).held_spec(),
        (r matches Err(e) && is_parts_error(e)) <==> !parts_fit(input@, basis@, recording.basis@.len()),
        r matches Err(e) ==> if is_parts_error(e) {
            parts_error(e, input@, basis@, recording.basis@.len())
        } else {
            assemble_stop(e, input@, basis@, *ring, *old(budget), recording.nodes@, recording.basis@)
        },
{
    match validate_parts(input, basis, &recording) {
        Ok(()) => {},
        Err(e) => {
            return Err(e);
        },
    }
    match budget.check_deadline() {
        Ok(()) => {},
        Err(e) => {
            return Err(CertifyError::WriterExhausted(e));
        },
    }
    match budget.hold_polys(input) {
        Ok(()) => {},
        Err(e) => {
            return Err(CertifyError::WriterExhausted(e));
        },
    }
    match budget.hold_polys(basis) {
        Ok(()) => {},
        Err(e) => {
            return Err(CertifyError::WriterExhausted(e));
        },
    }
    let ghost recorded = recording.nodes@;
    let ghost recorded_roots = recording.basis@;
    let trace = match prepare_trace(recording, budget) {
        Ok(trace) => trace,
        Err(e) => {
            return Err(e);
        },
    };
    proof {
        lemma_pruned_in_ring(recorded, recorded_roots, trace.nodes@, trace.roots@, trace.uses@, ring.nvars as nat);
    }
    let (membership, divisions) = match membership_traces(input, basis, budget, Ghost(*ring)) {
        Ok(pair) => pair,
        Err(e) => {
            return Err(e);
        },
    };
    proof {
        let tv = trace_views(membership@);
        assert forall|i: int, k: int|
            0 <= i < membership@.len() && 0 <= k < membership@[i]@.len() implies (#[trigger] membership@[i]@[k]).mono@.len()
            == ring.nvars by {
            assert(tv[i] == membership@[i]@);
            assert(reduces_to_zero(
                input@[i]@,
                step_views(tv[i]),
                poly_views(basis@),
                ring.modulus as int,
                ring.nvars as nat,
            ));
            lemma_reduces_widths(input@[i]@, step_views(tv[i]), poly_views(basis@), ring.modulus as int, ring.nvars as nat);
            assert(step_views(tv[i])[k].0 == membership@[i]@[k].mono@);
        }
    }
    let pairs = match pair_witnesses(basis, divisions, budget, Ghost(*ring)) {
        Ok(pairs) => pairs,
        Err(e) => {
            return Err(e);
        },
    };
    let (certificate, held) = match write_certificate(
        *ring,
        input,
        &trace,
        membership.as_slice(),
        pairs.as_slice(),
        budget,
    ) {
        Ok(out) => out,
        Err(e) => {
            return Err(e);
        },
    };
    proof {
        let tv = trace_views(membership@);
        let pv = choose|pv: Seq<Seq<u16>>|
            #[trigger] pool_of(pv, ring.nvars as nat, input@, trace.nodes@, tv, pairs@) && certificate@
                == certificate_bytes(
                ring.modulus,
                ring.nvars,
                section_bytes(pv, poly_views(input@), trace.nodes@, trace.uses@, trace.roots@, tv, pairs@),
            );
        assert(written_from(
            certificate@,
            *ring,
            input@,
            basis@,
            recorded,
            recorded_roots,
            trace.nodes@,
            trace.roots@,
            trace.uses@,
            tv,
            pairs@,
            pv,
        ));
    }
    Ok((certificate, held))
}

} // verus!
