//! The nodes one recorded run leaves behind.

use vstd::prelude::*;

use crate::monomial::Monomial;

verus! {

/// One node of a recorded trace. Every source names an earlier node.
#[derive(Clone, Debug, PartialEq, Eq)]
pub enum Node {
    /// The input polynomial at this index.
    Input {
        /// The index in the caller's list.
        index: u32,
    },
    /// The monomial multiple of one node.
    Mul {
        src: u32,
        /// The multiplier, which is not the identity monomial.
        mono: Monomial,
    },
    /// The scalar multiple of one node.
    Scale {
        src: u32,
        /// The scalar, which is at least 2.
        scalar: u64,
    },
    /// The sum of at least two scaled nodes, sorted by node.
    Comb {
        /// The steps, by strictly increasing node.
        steps: Vec<(u32, u64)>,
    },
}

/// The nodes a node reads, in the order it names them.
pub open spec fn node_sources(node: Node) -> Seq<u32> {
    match node {
        Node::Input { .. } => Seq::empty(),
        Node::Mul { src, .. } => seq![src],
        Node::Scale { src, .. } => seq![src],
        Node::Comb { steps } => steps@.map_values(|step: (u32, u64)| step.0),
    }
}

/// What one recorded run gives the writer.
pub struct Recording {
    /// The nodes, in recording order.
    pub nodes: Vec<Node>,
    /// The node of each basis element the run returned, in return order.
    pub basis: Vec<u32>,
}

/// Every source names an earlier node and every root names a node.
pub open spec fn trace_wf(nodes: Seq<Node>, roots: Seq<u32>) -> bool {
    &&& forall|i: int, k: int|
        0 <= i < nodes.len() && 0 <= k < node_sources(nodes[i]).len() ==> #[trigger] node_sources(nodes[i])[k] < i
    &&& forall|b: int| 0 <= b < roots.len() ==> #[trigger] roots[b] < nodes.len()
}

/// The nodes were recorded in a ring of `nvars` variables: every
/// multiplier holds `nvars` exponents, and every combination names its
/// nodes in strictly increasing order.
pub open spec fn nodes_in_ring(nodes: Seq<Node>, nvars: nat) -> bool {
    forall|k: int|
        0 <= k < nodes.len() ==> match #[trigger] nodes[k] {
            Node::Mul { mono, .. } => mono@.len() == nvars,
            Node::Comb { steps } => forall|a: int, b: int| 0 <= a < b < steps@.len() ==> steps@[a].0 < steps@[b].0,
            _ => true,
        }
}

impl Recording {
    /// Every source names an earlier node and every root names a node.
    pub open spec fn wf(&self) -> bool {
        trace_wf(self.nodes@, self.basis@)
    }
}

impl Node {
    /// The nodes this node reads, in the order it names them.
    pub fn sources(&self) -> (r: Vec<u32>)
        ensures
            r@ == node_sources(*self),
    {
        match self {
            Node::Input { .. } => Vec::new(),
            Node::Mul { src, .. } => vec![*src],
            Node::Scale { src, .. } => vec![*src],
            Node::Comb { steps } => {
                let mut out: Vec<u32> = Vec::new();
                let mut k: usize = 0;
                while k < steps.len()
                    invariant
                        k <= steps@.len(),
                        out@ == steps@.take(k as int).map_values(|step: (u32, u64)| step.0),
                    decreases steps@.len() - k,
                {
                    out.push(steps[k].0);
                    proof {
                        assert(steps@.take(k as int + 1) =~= steps@.take(k as int).push(steps@[k as int]));
                        assert(steps@.take(k as int + 1).map_values(|step: (u32, u64)| step.0) =~= steps@.take(
                            k as int,
                        ).map_values(|step: (u32, u64)| step.0).push(steps@[k as int].0));
                    }
                    k += 1;
                }
                proof {
                    assert(steps@.take(k as int) =~= steps@);
                }
                out
            },
        }
    }
}

/// The summed scalar of node `n` among the summands.
pub open spec fn node_sum(summands: Seq<(u32, u64)>, n: u32) -> int
    decreases summands.len(),
{
    if summands.len() == 0 {
        0
    } else {
        node_sum(summands.drop_last(), n) + if summands.last().0 == n {
            summands.last().1 as int
        } else {
            0
        }
    }
}

/// Node `n` is named by some summand.
pub open spec fn names_node(summands: Seq<(u32, u64)>, n: u32) -> bool {
    exists|i: int| 0 <= i < summands.len() && #[trigger] summands[i].0 == n
}

/// The nodes of `steps` strictly increase.
pub open spec fn nodes_ascending(steps: Seq<(u32, u64)>) -> bool {
    forall|a: int, b: int| 0 <= a < b < steps.len() ==> #[trigger] steps[a].0 < #[trigger] steps[b].0
}

/// Node `n` occurs in `steps`.
pub open spec fn has_node(steps: Seq<(u32, u64)>, n: u32) -> bool {
    exists|k: int| 0 <= k < steps.len() && #[trigger] steps[k].0 == n
}

/// A node the summands never name sums to zero.
proof fn lemma_unnamed_sum(summands: Seq<(u32, u64)>, n: u32)
    requires
        !names_node(summands, n),
    ensures
        node_sum(summands, n) == 0,
    decreases summands.len(),
{
    if summands.len() > 0 {
        assert(!names_node(summands.drop_last(), n)) by {
            if names_node(summands.drop_last(), n) {
                let i = choose|i: int| 0 <= i < summands.drop_last().len() && #[trigger] summands.drop_last()[i].0 == n;
                assert(summands[i].0 == n);
            }
        }
        lemma_unnamed_sum(summands.drop_last(), n);
        assert(summands[summands.len() - 1].0 != n);
    }
}

/// Merge the summands of one row by node, scale each sum by `c`, and sort
/// by node: the steps of one `Comb` node.
///
/// Summands naming one node add up modulo `p`; a node whose sum vanishes
/// goes. Every kept sum is multiplied by `c` modulo `p`.
pub fn lower_row(summands: &[(u32, u64)], c: u64, p: u64) -> (r: Vec<(u32, u64)>)
    requires
        crate::field::valid_modulus(p),
        0 < c < p,
        forall|i: int| 0 <= i < summands@.len() ==> (#[trigger] summands@[i]).1 < p,
    ensures
        nodes_ascending(r@),
        forall|k: int| 0 <= k < r@.len() ==> 0 < (#[trigger] r@[k]).1 < p,
        forall|n: u32| #[trigger] has_node(r@, n) <==> node_sum(summands@, n) % (p as int) != 0,
        forall|k: int|
            0 <= k < r@.len() ==> (#[trigger] r@[k]).1 == (c as int * node_sum(summands@, r@[k].0)) % (p as int),
{
    let ghost pi = p as int;
    let mut acc: Vec<(u32, u64)> = Vec::new();
    let mut i: usize = 0;
    while i < summands.len()
        invariant
            i <= summands@.len(),
            pi == p as int,
            p > 1,
            p < 0x8000_0000,
            forall|j: int| 0 <= j < summands@.len() ==> (#[trigger] summands@[j]).1 < p,
            nodes_ascending(acc@),
            forall|k: int| 0 <= k < acc@.len() ==> (#[trigger] acc@[k]).1 < p,
            forall|n: u32| #[trigger] has_node(acc@, n) <==> names_node(summands@.take(i as int), n),
            forall|k: int|
                0 <= k < acc@.len() ==> (#[trigger] acc@[k]).1 == node_sum(summands@.take(i as int), acc@[k].0) % pi,
        decreases summands@.len() - i,
    {
        let (n, v) = summands[i];
        let ghost before = acc@;
        let ghost prefix = summands@.take(i as int);
        let ghost next = summands@.take(i as int + 1);
        proof {
            assert(next.drop_last() =~= prefix);
            assert(next.last() == (n, v));
            assert forall|m: u32| #[trigger] names_node(next, m) <==> names_node(prefix, m) || m == n by {
                if names_node(next, m) && m != n {
                    let j = choose|j: int| 0 <= j < next.len() && #[trigger] next[j].0 == m;
                    assert(j < prefix.len());
                    assert(prefix[j] == next[j]);
                }
                if names_node(prefix, m) {
                    let j = choose|j: int| 0 <= j < prefix.len() && #[trigger] prefix[j].0 == m;
                    assert(next[j] == prefix[j]);
                }
                if m == n {
                    assert(next[i as int].0 == n);
                }
            }
            assert forall|m: u32| #[trigger] node_sum(next, m) == node_sum(prefix, m) + if m == n {
                v as int
            } else {
                0
            } by {}
        }
        let mut pos: usize = 0;
        while pos < acc.len() && acc[pos].0 < n
            invariant
                pos <= acc@.len(),
                acc@ == before,
                forall|k: int| 0 <= k < pos ==> (#[trigger] acc@[k]).0 < n,
            decreases acc@.len() - pos,
        {
            pos += 1;
        }
        proof {
            assert forall|k: int| pos <= k < acc@.len() implies (#[trigger] acc@[k]).0 >= n by {
                if k > pos {
                    assert(acc@[pos as int].0 < acc@[k].0);
                }
            }
        }
        if pos < acc.len() && acc[pos].0 == n {
            let old_v = acc[pos].1;
            let sum = (old_v + v) % p;
            acc.set(pos, (n, sum));
            proof {
                assert forall|a: int, b: int| 0 <= a < b < acc@.len() implies #[trigger] acc@[a].0 < #[trigger] acc@[b].0 by {
                    assert(acc@[a].0 == before[a].0 && acc@[b].0 == before[b].0);
                }
                assert forall|m: u32| #[trigger] has_node(acc@, m) <==> names_node(next, m) by {
                    if has_node(acc@, m) {
                        let k = choose|k: int| 0 <= k < acc@.len() && #[trigger] acc@[k].0 == m;
                        assert(before[k].0 == m);
                        assert(has_node(before, m));
                    }
                    if names_node(next, m) {
                        if m == n {
                            assert(acc@[pos as int].0 == n);
                        } else {
                            assert(has_node(before, m));
                            let k = choose|k: int| 0 <= k < before.len() && #[trigger] before[k].0 == m;
                            assert(acc@[k].0 == m);
                        }
                    }
                }
                assert forall|k: int| 0 <= k < acc@.len() implies (#[trigger] acc@[k]).1 == node_sum(next, acc@[k].0) % pi by {
                    if k == pos {
                        vstd::arithmetic::div_mod::lemma_add_mod_noop(node_sum(prefix, n), v as int, pi);
                        vstd::arithmetic::div_mod::lemma_small_mod(v as nat, pi as nat);
                        vstd::arithmetic::div_mod::lemma_mod_twice(node_sum(prefix, n), pi);
                    } else {
                        assert(acc@[k] == before[k]);
                        assert(before[k].0 != n);
                    }
                }
            }
        } else {
            acc.insert(pos, (n, v));
            proof {
                assert forall|k: int| 0 <= k < acc@.len() implies #[trigger] acc@[k] == (if k < pos {
                    before[k]
                } else if k == pos {
                    (n, v)
                } else {
                    before[k - 1]
                }) by {}
                assert forall|a: int, b: int| 0 <= a < b < acc@.len() implies #[trigger] acc@[a].0 < #[trigger] acc@[b].0 by {
                    if b > pos && a < pos {
                        assert(before[a].0 < before[b - 1].0);
                    } else if b > pos && a > pos {
                        assert(before[a - 1].0 < before[b - 1].0);
                    }
                }
                assert(!has_node(before, n)) by {
                    if has_node(before, n) {
                        let k = choose|k: int| 0 <= k < before.len() && #[trigger] before[k].0 == n;
                        if k < pos {
                        } else {
                            assert(before[k].0 >= n);
                            if k > pos {
                                assert(before[pos as int].0 < before[k].0);
                            }
                        }
                    }
                }
                assert(!names_node(prefix, n));
                lemma_unnamed_sum(prefix, n);
                assert forall|m: u32| #[trigger] has_node(acc@, m) <==> names_node(next, m) by {
                    if has_node(acc@, m) {
                        let k = choose|k: int| 0 <= k < acc@.len() && #[trigger] acc@[k].0 == m;
                        if k < pos {
                            assert(before[k].0 == m);
                            assert(has_node(before, m));
                        } else if k > pos {
                            assert(before[k - 1].0 == m);
                            assert(has_node(before, m));
                        }
                    }
                    if names_node(next, m) {
                        if m == n {
                            assert(acc@[pos as int].0 == n);
                        } else {
                            assert(has_node(before, m));
                            let k = choose|k: int| 0 <= k < before.len() && #[trigger] before[k].0 == m;
                            if k < pos {
                                assert(acc@[k].0 == m);
                            } else {
                                assert(acc@[k + 1].0 == m);
                            }
                        }
                    }
                }
                assert forall|k: int| 0 <= k < acc@.len() implies (#[trigger] acc@[k]).1 == node_sum(next, acc@[k].0) % pi by {
                    if k == pos {
                        vstd::arithmetic::div_mod::lemma_small_mod(v as nat, pi as nat);
                    } else if k < pos {
                        assert(before[k].0 != n);
                    } else {
                        assert(acc@[k] == before[k - 1]);
                        assert(before[k - 1].0 != n);
                    }
                }
            }
        }
        i += 1;
    }
    proof {
        assert(summands@.take(i as int) =~= summands@);
    }
    let mut out: Vec<(u32, u64)> = Vec::new();
    let mut k: usize = 0;
    while k < acc.len()
        invariant
            k <= acc@.len(),
            pi == p as int,
            crate::field::valid_modulus(p),
            0 < c < p,
            nodes_ascending(acc@),
            forall|j: int| 0 <= j < acc@.len() ==> (#[trigger] acc@[j]).1 < p,
            forall|n: u32| #[trigger] has_node(acc@, n) <==> names_node(summands@, n),
            forall|j: int| 0 <= j < acc@.len() ==> (#[trigger] acc@[j]).1 == node_sum(summands@, acc@[j].0) % pi,
            nodes_ascending(out@),
            forall|j: int| 0 <= j < out@.len() ==> 0 < (#[trigger] out@[j]).1 < p,
            forall|j: int|
                0 <= j < out@.len() ==> (#[trigger] out@[j]).1 == (c as int * node_sum(summands@, out@[j].0)) % pi,
            forall|j: int| #![trigger out@[j]] 0 <= j < out@.len() ==> exists|a: int| 0 <= a < k && #[trigger] acc@[a].0 == out@[j].0,
            forall|n: u32| #[trigger] has_node(out@, n) <==> (exists|a: int| 0 <= a < k && #[trigger] acc@[a].0 == n && acc@[a].1 != 0),
        decreases acc@.len() - k,
    {
        let (n, v) = acc[k];
        if v != 0 {
            let ghost before = out@;
            proof {
                assert(p < 0x8000_0000);
                assert((c as int) * (v as int) < 0x4000_0000_0000_0000) by (nonlinear_arith)
                    requires
                        c < 0x8000_0000,
                        v < 0x8000_0000,
                ;
            }
            let scaled = (c * v) % p;
            proof {
                let s = node_sum(summands@, n);
                vstd::arithmetic::div_mod::lemma_mul_mod_noop_right(c as int, s, pi);
                crate::field::lemma_product_nonzero(c as int, v as int, pi);
                assert forall|j: int| 0 <= j < before.len() implies (#[trigger] before[j]).0 < n by {
                    let a = choose|a: int| 0 <= a < k && #[trigger] acc@[a].0 == before[j].0;
                    assert(acc@[a].0 < acc@[k as int].0);
                }
            }
            out.push((n, scaled));
            proof {
                assert forall|a: int, b: int| 0 <= a < b < out@.len() implies #[trigger] out@[a].0 < #[trigger] out@[b].0 by {
                    if b < before.len() {
                        assert(out@[a] == before[a] && out@[b] == before[b]);
                    } else {
                        assert(out@[a] == before[a]);
                    }
                }
                assert forall|j: int| #![trigger out@[j]] 0 <= j < out@.len() implies exists|a: int| 0 <= a < k + 1 && #[trigger] acc@[a].0 == out@[j].0 by {
                    if j < before.len() {
                        assert(out@[j] == before[j]);
                        let a = choose|a: int| 0 <= a < k && #[trigger] acc@[a].0 == before[j].0;
                        assert(acc@[a].0 == out@[j].0);
                    } else {
                        assert(acc@[k as int].0 == out@[j].0);
                    }
                }
                assert forall|m: u32| #[trigger] has_node(out@, m) <==> (exists|a: int| 0 <= a < k + 1 && #[trigger] acc@[a].0 == m && acc@[a].1 != 0) by {
                    if has_node(out@, m) {
                        let j = choose|j: int| 0 <= j < out@.len() && #[trigger] out@[j].0 == m;
                        if j < before.len() {
                            assert(out@[j] == before[j]);
                            assert(has_node(before, m));
                        } else {
                            assert(acc@[k as int].0 == m);
                        }
                    }
                    if exists|a: int| 0 <= a < k + 1 && #[trigger] acc@[a].0 == m && acc@[a].1 != 0 {
                        let a = choose|a: int| 0 <= a < k + 1 && #[trigger] acc@[a].0 == m && acc@[a].1 != 0;
                        if a < k {
                            assert(has_node(before, m));
                            let j = choose|j: int| 0 <= j < before.len() && #[trigger] before[j].0 == m;
                            assert(out@[j].0 == m);
                        } else {
                            assert(out@[before.len() as int].0 == m);
                        }
                    }
                }
            }
        } else {
            proof {
                assert forall|m: u32| #[trigger] has_node(out@, m) <==> (exists|a: int| 0 <= a < k + 1 && #[trigger] acc@[a].0 == m && acc@[a].1 != 0) by {
                    if exists|a: int| 0 <= a < k + 1 && #[trigger] acc@[a].0 == m && acc@[a].1 != 0 {
                        let a = choose|a: int| 0 <= a < k + 1 && #[trigger] acc@[a].0 == m && acc@[a].1 != 0;
                        assert(a < k);
                    }
                }
            }
        }
        k += 1;
    }
    proof {
        assert forall|n: u32| #[trigger] has_node(out@, n) <==> node_sum(summands@, n) % pi != 0 by {
            if has_node(out@, n) {
                let a = choose|a: int| 0 <= a < k && #[trigger] acc@[a].0 == n && acc@[a].1 != 0;
            }
            if node_sum(summands@, n) % pi != 0 {
                if !names_node(summands@, n) {
                    lemma_unnamed_sum(summands@, n);
                    vstd::arithmetic::div_mod::lemma_small_mod(0, pi as nat);
                }
                assert(has_node(acc@, n));
                let a = choose|a: int| 0 <= a < acc@.len() && #[trigger] acc@[a].0 == n;
                assert(acc@[a].1 != 0);
            }
        }
    }
    out
}

} // verus!
