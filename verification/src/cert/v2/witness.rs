//! One witness per pair of the basis.

use vstd::prelude::*;

use super::divide::{Step, divide, lemma_reduces_widths, reduces_to_zero, step_views};
use super::cap;
use crate::cert::Budget;
use crate::cert::divide::poly_views;
use crate::certificate::{CertificateCap, CertifyError, EmitterFault};
use crate::cert::represent::spoly_degrees_fit;
use crate::compute::interreduce::{lead_of, spoly_formable};
use crate::compute::{ComputeError, DEGREE_LIMIT};
use crate::monomial::{Monomial, coprime_spec, divides_spec, mono_lcm};
use crate::poly::{Polynomial, PolynomialRing, TermView, coeff_at, terms_wf};

verus! {

/// The pairs a pair depends on: pair `x` names `deps[x]`, or nothing.
pub type Deps = Seq<Option<(u32, u32)>>;

/// Pair `x` depends on pair `y`.
pub open spec fn edge(deps: Deps, x: int, y: int) -> bool {
    &&& 0 <= x < deps.len()
    &&& deps[x] is Some
    &&& (deps[x]->Some_0.0 == y || deps[x]->Some_0.1 == y)
}

/// Every dependency names a pair of the graph.
pub open spec fn graph_wf(deps: Deps) -> bool {
    forall|x: int| 0 <= x < deps.len() && (#[trigger] deps[x]) is Some ==> deps[x]->Some_0.0 < deps.len() && deps[x]->Some_0.1
        < deps.len()
}

/// `v` lies within `n` dependency steps of `u`.
pub open spec fn reach_within(deps: Deps, u: int, v: int, n: nat) -> bool
    decreases n,
{
    if u == v {
        true
    } else if n == 0 {
        false
    } else if 0 <= u < deps.len() && deps[u] is Some {
        reach_within(deps, deps[u]->Some_0.0 as int, v, (n - 1) as nat) || reach_within(
            deps,
            deps[u]->Some_0.1 as int,
            v,
            (n - 1) as nat,
        )
    } else {
        false
    }
}

/// `v` is reachable from `u` along the dependencies.
pub open spec fn reaches_spec(deps: Deps, u: int, v: int) -> bool {
    exists|n: nat| #[trigger] reach_within(deps, u, v, n)
}

/// No pair depends, through any chain, on itself.
pub open spec fn acyclic(deps: Deps) -> bool {
    forall|x: int, y: int| #[trigger] edge(deps, x, y) ==> !reaches_spec(deps, y, x)
}

/// A path can be extended by one dependency at its end.
proof fn lemma_reach_extend(deps: Deps, u: int, v: int, w: int, n: nat)
    requires
        reach_within(deps, u, v, n),
        edge(deps, v, w),
    ensures
        reach_within(deps, u, w, n + 1),
    decreases n,
{
    if u == v {
        let e = deps[u]->Some_0;
        if u != w {
            if e.0 as int == w {
                assert(reach_within(deps, e.0 as int, w, 0));
                lemma_reach_more(deps, e.0 as int, w, 0, n);
            } else {
                assert(reach_within(deps, e.1 as int, w, 0));
                lemma_reach_more(deps, e.1 as int, w, 0, n);
            }
        }
    } else {
        let e = deps[u]->Some_0;
        if reach_within(deps, e.0 as int, v, (n - 1) as nat) {
            lemma_reach_extend(deps, e.0 as int, v, w, (n - 1) as nat);
        } else {
            lemma_reach_extend(deps, e.1 as int, v, w, (n - 1) as nat);
        }
    }
}

/// Two paths join into one.
proof fn lemma_reach_trans(deps: Deps, u: int, v: int, w: int, n: nat, m: nat)
    requires
        reach_within(deps, u, v, n),
        reach_within(deps, v, w, m),
    ensures
        reach_within(deps, u, w, n + m),
    decreases n,
{
    if u == v {
        lemma_reach_more(deps, v, w, m, n + m);
    } else {
        let e = deps[u]->Some_0;
        if reach_within(deps, e.0 as int, v, (n - 1) as nat) {
            lemma_reach_trans(deps, e.0 as int, v, w, (n - 1) as nat, m);
        } else {
            lemma_reach_trans(deps, e.1 as int, v, w, (n - 1) as nat, m);
        }
    }
}

/// A path within `n` steps lies within any larger number of steps.
proof fn lemma_reach_more(deps: Deps, u: int, v: int, n: nat, m: nat)
    requires
        reach_within(deps, u, v, n),
        n <= m,
    ensures
        reach_within(deps, u, v, m),
    decreases n,
{
    if u != v {
        let e = deps[u]->Some_0;
        if reach_within(deps, e.0 as int, v, (n - 1) as nat) {
            lemma_reach_more(deps, e.0 as int, v, (n - 1) as nat, (m - 1) as nat);
        } else {
            lemma_reach_more(deps, e.1 as int, v, (n - 1) as nat, (m - 1) as nat);
        }
    }
}

/// The marks of generation `g` that are off the stack have every
/// dependency marked.
pub open spec fn closed_off_stack(deps: Deps, seen: Seq<u32>, stack: Seq<u32>, g: u32) -> bool {
    forall|x: int|
        0 <= x < deps.len() && #[trigger] seen[x] == g && !stack.contains(x as u32) && deps[x] is Some ==> seen[deps[x]->Some_0.0 as int]
            == g && seen[deps[x]->Some_0.1 as int] == g
}

/// A node marked in a set closed under the dependencies reaches only
/// marked nodes.
proof fn lemma_closed_no_reach(deps: Deps, seen: Seq<u32>, g: u32, target: int, u: int, n: nat)
    requires
        graph_wf(deps),
        seen.len() == deps.len(),
        closed_off_stack(deps, seen, Seq::empty(), g),
        0 <= u < deps.len(),
        seen[u] == g,
        0 <= target < deps.len(),
        seen[target] != g,
    ensures
        !reach_within(deps, u, target, n),
    decreases n,
{
    if n > 0 && deps[u] is Some {
        let e = deps[u]->Some_0;
        assert(!Seq::<u32>::empty().contains(u as u32));
        assert(seen[u] == g);
        lemma_closed_no_reach(deps, seen, g, target, e.0 as int, (n - 1) as nat);
        lemma_closed_no_reach(deps, seen, g, target, e.1 as int, (n - 1) as nat);
    }
}

/// The number of nodes not marked with generation `g`.
pub open spec fn unmarked(seen: Seq<u32>, g: u32) -> nat
    decreases seen.len(),
{
    if seen.len() == 0 {
        0
    } else {
        unmarked(seen.drop_last(), g) + if seen.last() != g {
            1nat
        } else {
            0nat
        }
    }
}

/// Marking an unmarked node lowers the count by one.
proof fn lemma_unmarked_set(seen: Seq<u32>, g: u32, x: int)
    requires
        0 <= x < seen.len(),
        seen[x] != g,
    ensures
        unmarked(seen.update(x, g), g) + 1 == unmarked(seen, g),
    decreases seen.len(),
{
    let s2 = seen.update(x, g);
    if x == seen.len() - 1 {
        assert(s2.drop_last() =~= seen.drop_last());
    } else {
        assert(s2.drop_last() =~= seen.drop_last().update(x, g));
        lemma_unmarked_set(seen.drop_last(), g, x);
    }
}

/// Report whether `target` is reachable from `from` along the
/// dependencies.
///
/// The traversal is iterative, because a recursive one can overflow the
/// stack on a long chain. `seen` holds the generation each node was
/// visited in, so one array serves every search; `generation` is above
/// every mark it holds.
pub fn reaches(
    deps: &Vec<Option<(u32, u32)>>,
    from: u32,
    target: u32,
    seen: &mut Vec<u32>,
    stack: &mut Vec<u32>,
    generation: u32,
) -> (r: bool)
    requires
        graph_wf(deps@),
        deps@.len() <= u32::MAX,
        from < deps@.len(),
        target < deps@.len(),
        old(seen)@.len() == deps@.len(),
        forall|x: int| 0 <= x < old(seen)@.len() ==> #[trigger] old(seen)@[x] <= generation,
        closed_off_stack(deps@, old(seen)@, Seq::empty(), generation),
        old(seen)@[target as int] != generation,
    ensures
        r == reaches_spec(deps@, from as int, target as int),
        final(seen)@.len() == old(seen)@.len(),
        forall|x: int| 0 <= x < final(seen)@.len() ==> #[trigger] final(seen)@[x] <= generation,
        !r ==> closed_off_stack(deps@, final(seen)@, Seq::empty(), generation) && final(seen)@[target as int]
            != generation,
{
    let ghost d = deps@;
    let ghost n = deps@.len();
    if from == target {
        proof {
            assert(reach_within(d, from as int, target as int, 0));
        }
        return true;
    }
    stack.clear();
    stack.push(from);
    seen.set(from as usize, generation);
    proof {
        assert(reach_within(d, from as int, from as int, 0));
        assert forall|x: int| 0 <= x < n && #[trigger] seen@[x] == generation && !stack@.contains(x as u32)
            && d[x] is Some implies seen@[d[x]->Some_0.0 as int] == generation && seen@[d[x]->Some_0.1 as int]
            == generation by {
            if x != from {
                assert(old(seen)@[x] == generation);
                assert(!Seq::<u32>::empty().contains(x as u32));
            } else {
                assert(stack@[0] == from);
            }
        }
    }
    loop
        invariant
            d == deps@,
            graph_wf(d),
            n == d.len(),
            n == old(seen)@.len(),
            n <= u32::MAX,
            seen@.len() == n,
            from < n,
            target < n,
            from != target,
            forall|x: int| 0 <= x < n ==> #[trigger] seen@[x] <= generation,
            seen@[target as int] != generation,
            seen@[from as int] == generation,
            forall|x: int| 0 <= x < n && #[trigger] seen@[x] == generation && old(seen)@[x] != generation ==> reaches_spec(d, from as int, x),
            forall|k: int| 0 <= k < stack@.len() ==> #[trigger] stack@[k] < n && seen@[stack@[k] as int] == generation
                && reaches_spec(d, from as int, stack@[k] as int),
            stack@.no_duplicates(),
            closed_off_stack(d, seen@, stack@, generation),
        decreases unmarked(seen@, generation) * 3 + stack@.len(),
    {
        let ghost s_before = stack@;
        let popped = stack.pop();
        let node = match popped {
            None => {
                proof {
                    assert(stack@ =~= Seq::<u32>::empty());
                    assert forall|m: nat| !#[trigger] reach_within(d, from as int, target as int, m) by {
                        lemma_closed_no_reach(d, seen@, generation, target as int, from as int, m);
                    }
                }
                return false;
            },
            Some(node) => node,
        };
        let ghost s0 = seen@;
        let ghost stack1 = stack@;
        proof {
            assert(s_before =~= stack1.push(node));
            assert(stack1.contains(node) == false) by {
                if stack1.contains(node) {
                    let k = choose|k: int| 0 <= k < stack1.len() && stack1[k] == node;
                    let full = stack1.push(node);
                    assert(full[k] == full[full.len() - 1]);
                }
            }
            assert(seen@[node as int] == generation && reaches_spec(d, from as int, node as int)) by {
                assert(s_before[s_before.len() - 1] == node);
            }
        }
        match deps[node as usize] {
            None => {},
            Some((a, b)) => {
                proof {
                    assert(d[node as int] is Some);
                    assert(a < n && b < n);
                }
                if a == target {
                    proof {
                        let m = choose|m: nat| #[trigger] reach_within(d, from as int, node as int, m);
                        lemma_reach_extend(d, from as int, node as int, target as int, m);
                    }
                    return true;
                }
                if seen[a as usize] != generation {
                    proof {
                        let m = choose|m: nat| #[trigger] reach_within(d, from as int, node as int, m);
                        lemma_reach_extend(d, from as int, node as int, a as int, m);
                        lemma_unmarked_set(seen@, generation, a as int);
                    }
                    seen.set(a as usize, generation);
                    stack.push(a);
                }
                if b == target {
                    proof {
                        let m = choose|m: nat| #[trigger] reach_within(d, from as int, node as int, m);
                        lemma_reach_extend(d, from as int, node as int, target as int, m);
                    }
                    return true;
                }
                if seen[b as usize] != generation {
                    proof {
                        let m = choose|m: nat| #[trigger] reach_within(d, from as int, node as int, m);
                        lemma_reach_extend(d, from as int, node as int, b as int, m);
                        lemma_unmarked_set(seen@, generation, b as int);
                    }
                    seen.set(b as usize, generation);
                    stack.push(b);
                }
            },
        }
        proof {
            assert forall|x: int| 0 <= x < n && #[trigger] seen@[x] == generation && s0[x] != generation implies stack@.contains(
                x as u32,
            ) by {
                if stack@.len() > stack1.len() && stack@[stack1.len() as int] == x {
                } else {
                    assert(stack@[stack@.len() - 1] == x);
                }
            }
            assert forall|k: int| 0 <= k < stack1.len() implies stack@.contains(#[trigger] stack1[k]) by {
                assert(stack@[k] == stack1[k]);
            }
            assert forall|x: int|
                0 <= x < n && #[trigger] seen@[x] == generation && !stack@.contains(x as u32) && d[x] is Some implies seen@[d[x]->Some_0.0 as int]
                    == generation && seen@[d[x]->Some_0.1 as int] == generation by {
                if x != node {
                    if s0[x] != generation {
                        assert(stack@.contains(x as u32));
                    }
                    assert(!stack1.contains(x as u32)) by {
                        if stack1.contains(x as u32) {
                            let k = choose|k: int| 0 <= k < stack1.len() && stack1[k] == x as u32;
                            assert(stack@.contains(stack1[k]));
                        }
                    }
                    assert(!stack1.push(node).contains(x as u32)) by {
                        if stack1.push(node).contains(x as u32) {
                            let k = choose|k: int| 0 <= k < stack1.len() + 1 && stack1.push(node)[k] == x as u32;
                            if k < stack1.len() {
                                assert(stack1[k] == x as u32);
                            }
                        }
                    }
                    assert(!s_before.contains(x as u32));
                    assert(s0[d[x]->Some_0.0 as int] == generation);
                    assert(s0[d[x]->Some_0.1 as int] == generation);
                }
            }
            assert forall|k: int| 0 <= k < stack@.len() implies #[trigger] stack@[k] < n && seen@[stack@[k] as int]
                == generation && reaches_spec(d, from as int, stack@[k] as int) by {
                if k < stack1.len() {
                    assert(stack@[k] == stack1[k]);
                    assert(s_before[k] == stack1[k]);
                } else {
                    assert(s0[stack@[k] as int] != generation);
                }
            }
        }
    }
}


/// A path can be extended by one dependency at its start.
proof fn lemma_reach_prepend(deps: Deps, u: int, w: int, v: int, m: nat)
    requires
        edge(deps, u, w),
        reach_within(deps, w, v, m),
    ensures
        reach_within(deps, u, v, m + 1),
{
    if u != v {
        let e = deps[u]->Some_0;
        if e.0 as int == w {
            assert(reach_within(deps, e.0 as int, v, m));
        } else {
            assert(reach_within(deps, e.1 as int, v, m));
        }
    }
}

/// Where pair `t` had no dependencies and gains `e`, a path of the new
/// graph is a path of the old one, or it reaches `t` in the old graph and
/// goes on from one of the new dependencies.
proof fn lemma_new_paths(deps: Deps, t: int, e: (u32, u32), u: int, v: int, n: nat)
    requires
        0 <= t < deps.len(),
        deps[t] is None,
        reach_within(deps.update(t, Some(e)), u, v, n),
    ensures
        reaches_spec(deps, u, v) || (reaches_spec(deps, u, t) && (reaches_spec(deps, e.0 as int, v) || reaches_spec(
            deps,
            e.1 as int,
            v,
        ))),
    decreases n,
{
    let nd = deps.update(t, Some(e));
    if u == v {
        assert(reach_within(deps, u, v, 0));
    } else {
        let f = nd[u]->Some_0;
        let w = if reach_within(nd, f.0 as int, v, (n - 1) as nat) {
            f.0 as int
        } else {
            f.1 as int
        };
        lemma_new_paths(deps, t, e, w, v, (n - 1) as nat);
        if u == t {
            assert(reach_within(deps, t, t, 0));
            assert(w == e.0 || w == e.1);
            if reaches_spec(deps, w, v) {
                let m = choose|m: nat| #[trigger] reach_within(deps, w, v, m);
                assert(reach_within(deps, w, v, m));
            } else {
                assert(reaches_spec(deps, e.0 as int, v) || reaches_spec(deps, e.1 as int, v));
            }
        } else {
            assert(nd[u] == deps[u]);
            assert(edge(deps, u, w));
            if reaches_spec(deps, w, v) {
                let m = choose|m: nat| #[trigger] reach_within(deps, w, v, m);
                lemma_reach_prepend(deps, u, w, v, m);
            } else {
                let m = choose|m: nat| #[trigger] reach_within(deps, w, t, m);
                lemma_reach_prepend(deps, u, w, t, m);
            }
        }
    }
}

/// Giving pair `t`, which had no dependencies, two dependencies from
/// neither of which `t` is reachable keeps the graph acyclic.
pub proof fn lemma_add_edges_acyclic(deps: Deps, t: int, e: (u32, u32))
    requires
        graph_wf(deps),
        acyclic(deps),
        0 <= t < deps.len(),
        deps[t] is None,
        e.0 < deps.len(),
        e.1 < deps.len(),
        !reaches_spec(deps, e.0 as int, t),
        !reaches_spec(deps, e.1 as int, t),
    ensures
        graph_wf(deps.update(t, Some(e))),
        acyclic(deps.update(t, Some(e))),
{
    let nd = deps.update(t, Some(e));
    assert forall|x: int| 0 <= x < nd.len() && (#[trigger] nd[x]) is Some implies nd[x]->Some_0.0 < nd.len()
        && nd[x]->Some_0.1 < nd.len() by {
        if x != t {
            assert(nd[x] == deps[x]);
        }
    }
    assert forall|x: int, y: int| #[trigger] edge(nd, x, y) implies !reaches_spec(nd, y, x) by {
        if reaches_spec(nd, y, x) {
            let n = choose|n: nat| #[trigger] reach_within(nd, y, x, n);
            lemma_new_paths(deps, t, e, y, x, n);
            if x == t {
                assert(y == e.0 || y == e.1);
            } else {
                assert(nd[x] == deps[x]);
                assert(edge(deps, x, y));
                if !reaches_spec(deps, y, x) {
                    assert(reaches_spec(deps, y, t));
                    let a = choose|a: nat| #[trigger] reach_within(deps, y, t, a);
                    let j = if reaches_spec(deps, e.0 as int, x) {
                        e.0 as int
                    } else {
                        e.1 as int
                    };
                    let b = choose|b: nat| #[trigger] reach_within(deps, j, x, b);
                    lemma_reach_extend(deps, j, x, y, b);
                    lemma_reach_trans(deps, j, y, t, b + 1, a);
                    assert(reach_within(deps, j, t, b + 1 + a));
                }
            }
        }
    }
}


/// The largest number of pairs of the basis.
pub const MAX_PAIRS: usize = 4000000;

/// The triangle number `0 + 1 + ... + n`.
pub open spec fn tri(n: nat) -> nat
    decreases n,
{
    if n == 0 {
        0
    } else {
        n + tri((n - 1) as nat)
    }
}

/// Twice a triangle number is `n * (n + 1)`.
pub proof fn lemma_tri(n: nat)
    ensures
        2 * tri(n) == n * (n + 1),
    decreases n,
{
    if n > 0 {
        let m = (n - 1) as nat;
        lemma_tri(m);
        assert(tri(n) == n + tri(m));
        assert(n * (n + 1) == m * (m + 1) + 2 * n) by (nonlinear_arith)
            requires
                n == m + 1,
        ;
    } else {
        assert(n * (n + 1) == 0) by (nonlinear_arith)
            requires
                n == 0,
        ;
    }
}

/// The number of unordered pairs of `count` elements.
pub open spec fn pairs_of(count: nat) -> nat {
    if count < 2 {
        0
    } else {
        tri((count - 1) as nat)
    }
}

/// The pairs in the rows before row `r` of `count` elements: `r * count -
/// tri(r)`.
pub open spec fn rows_before(r: nat, count: nat) -> int {
    r * count - tri(r)
}

/// The place of pair `(i, j)`, `i < j`, in lexicographic pair order.
pub open spec fn pair_index_spec(i: nat, j: nat, count: nat) -> int {
    rows_before(i, count) + (j - i - 1)
}

/// One more row holds `count - r - 1` more pairs.
proof fn lemma_rows_step(r: nat, count: nat)
    ensures
        rows_before(r + 1, count) == rows_before(r, count) + count - r - 1,
{
    assert((r + 1) * count == r * count + count) by (nonlinear_arith);
}

/// The rows before `r` hold no more pairs than all rows.
proof fn lemma_rows_below(r: nat, count: nat)
    requires
        r <= count,
    ensures
        rows_before(r, count) <= rows_before(count, count),
    decreases count - r,
{
    if r < count {
        lemma_rows_step(r, count);
        lemma_rows_below(r + 1, count);
    }
}

/// All rows hold every pair.
proof fn lemma_rows_all(count: nat)
    requires
        count >= 1,
    ensures
        rows_before(count, count) == tri((count - 1) as nat),
{
    lemma_tri(count);
    lemma_tri((count - 1) as nat);
    assert(count * count == count * (count + 1) - count) by (nonlinear_arith);
    assert(((count - 1) as nat) * count == count * count - count) by (nonlinear_arith)
        requires
            count >= 1,
    ;
}

/// The place of a pair comes before the number of pairs.
pub proof fn lemma_pair_index_bound(i: nat, j: nat, count: nat)
    requires
        i < j < count,
    ensures
        0 <= pair_index_spec(i, j, count) < pairs_of(count),
{
    lemma_rows_step(i, count);
    lemma_rows_below(i + 1, count);
    lemma_rows_all(count);
    lemma_rows_nonneg(i, count);
}

/// The rows before `r` hold no fewer than zero pairs.
proof fn lemma_rows_nonneg(r: nat, count: nat)
    requires
        r <= count,
    ensures
        rows_before(r, count) >= 0,
    decreases r,
{
    if r > 0 {
        lemma_rows_nonneg((r - 1) as nat, count);
        lemma_rows_step((r - 1) as nat, count);
    }
}

/// The number of unordered pairs of a basis of `count` elements.
///
/// `None` when `count * (count - 1)` does not fit a `usize`, which no
/// basis this writer accepts reaches: the pairs cap stops it first.
pub fn pair_count(count: usize) -> (r: Option<usize>)
    ensures
        count < 2 ==> r == Some(0usize),
        count >= 2 ==> (r is Some <==> count * (count - 1) <= usize::MAX),
        r matches Some(n) ==> n == pairs_of(count as nat),
{
    if count < 2 {
        return Some(0);
    }
    proof {
        lemma_tri((count - 1) as nat);
        assert(((count - 1) as nat) * ((count - 1) as nat + 1) == count * (count - 1)) by (nonlinear_arith)
            requires
                count >= 2,
        ;
    }
    match count.checked_mul(count - 1) {
        Some(product) => Some(product / 2),
        None => None,
    }
}

/// The place of pair `(i, j)` with `i < j` in lexicographic pair order.
pub fn pair_index(i: usize, j: usize, count: usize) -> (r: usize)
    requires
        i < j < count,
        pairs_of(count as nat) <= MAX_PAIRS,
    ensures
        r == pair_index_spec(i as nat, j as nat, count as nat),
        r < pairs_of(count as nat),
{
    proof {
        lemma_pairs_fit(count as nat);
        assert(i * count <= 3000 * 3000) by (nonlinear_arith)
            requires
                i < count,
                count <= 3000,
        ;
        lemma_tri(i as nat);
        assert(i * (i + 1) <= i * count) by (nonlinear_arith)
            requires
                i < count,
        ;
        lemma_pair_index_bound(i as nat, j as nat, count as nat);
    }
    let before = i * count - i * (i + 1) / 2;
    before + (j - i - 1)
}


/// Why one pair of the basis has an lcm representation.
#[derive(Clone, Debug, PartialEq, Eq)]
pub enum Witness {
    /// The two leading monomials share no variable.
    Coprime,
    /// The pairs on `{i, k}` and on `{k, j}` cover this pair.
    Chain(u32),
    /// A division trace of the S-polynomial, ending at zero.
    Reduce(Vec<Step>),
}

/// The two pairs the chain through `k` leans on.
pub open spec fn chain_edges_spec(i: nat, j: nat, k: nat, count: nat) -> (u32, u32) {
    let lo0 = if i <= k { i } else { k };
    let hi0 = if i <= k { k } else { i };
    let lo1 = if k <= j { k } else { j };
    let hi1 = if k <= j { j } else { k };
    (pair_index_spec(lo0, hi0, count) as u32, pair_index_spec(lo1, hi1, count) as u32)
}

/// Element `k` can stand between `i` and `j`: it is neither, and its
/// leading monomial divides the least common multiple of theirs.
pub open spec fn eligible_spec(bs: Seq<Seq<TermView>>, i: int, j: int, k: int) -> bool {
    &&& 0 <= k < bs.len()
    &&& k != i
    &&& k != j
    &&& divides_spec(lead_of(bs[k]), mono_lcm(lead_of(bs[i]), lead_of(bs[j])))
}

/// The S-polynomial of `f` and `g` has a canonical form that `steps`
/// replays to zero over `gs`.
pub open spec fn spoly_replays(
    f: Seq<TermView>,
    g: Seq<TermView>,
    steps: Seq<(Seq<u16>, u32)>,
    gs: Seq<Seq<TermView>>,
    p: int,
    nvars: nat,
) -> bool {
    exists|s: Seq<TermView>|
        #[trigger] reduces_to_zero(s, steps, gs, p, nvars) && terms_wf(s, p, nvars) && forall|m: Seq<u16>|
            #[trigger] coeff_at(s, m) == coeff_at(crate::exact::spoly_view(f, g, p), m) % p
}

/// `w` is a witness the verifier accepts for pair `(i, j)`, its chains
/// read in the dependency graph.
pub open spec fn witness_ok(w: Witness, bs: Seq<Seq<TermView>>, i: int, j: int, p: int, nvars: nat) -> bool {
    match w {
        Witness::Coprime => coprime_spec(lead_of(bs[i]), lead_of(bs[j])),
        Witness::Chain(k) => !coprime_spec(lead_of(bs[i]), lead_of(bs[j])) && eligible_spec(bs, i, j, k as int),
        Witness::Reduce(steps) => !coprime_spec(lead_of(bs[i]), lead_of(bs[j])) && spoly_replays(
            bs[i],
            bs[j],
            step_views(steps@),
            bs,
            p,
            nvars,
        ),
    }
}

/// The dependency graph of the chain witnesses: pair `t` depends on the
/// two pairs its chain leans on, and on nothing where its witness is no
/// chain.
pub open spec fn chain_graph(deps: Deps, out: Seq<Witness>, count: nat) -> bool {
    &&& deps.len() == pairs_of(count)
    &&& forall|i: int, j: int|
        0 <= i < j < count && pair_index_spec(i as nat, j as nat, count) < out.len() ==> match #[trigger] out[pair_index_spec(
            i as nat,
            j as nat,
            count,
        )] {
            Witness::Chain(k) => deps[pair_index_spec(i as nat, j as nat, count)] == Some(
                chain_edges_spec(i as nat, j as nat, k as nat, count),
            ),
            _ => deps[pair_index_spec(i as nat, j as nat, count)] is None,
        }
}

/// The dependency graph, the marks of the searches, and their stack.
pub struct Search {
    pub deps: Vec<Option<(u32, u32)>>,
    pub seen: Vec<u32>,
    pub stack: Vec<u32>,
    pub generation: u32,
}

impl Search {
    /// The graph is well formed and acyclic, and no mark is above the
    /// current generation.
    pub open spec fn wf(&self) -> bool {
        &&& graph_wf(self.deps@)
        &&& acyclic(self.deps@)
        &&& self.deps@.len() <= u32::MAX
        &&& self.seen@.len() == self.deps@.len()
        &&& forall|x: int| 0 <= x < self.seen@.len() ==> #[trigger] self.seen@[x] <= self.generation
    }

    /// Start a new search: every mark falls below the new generation.
    fn next_generation(&mut self)
        requires
            old(self).wf(),
        ensures
            final(self).wf(),
            final(self).deps@ == old(self).deps@,
            forall|x: int| 0 <= x < final(self).seen@.len() ==> #[trigger] final(self).seen@[x] < final(self).generation,
    {
        if self.generation == u32::MAX {
            let mut x: usize = 0;
            while x < self.seen.len()
                invariant
                    x <= self.seen@.len(),
                    self.seen@.len() == self.deps@.len(),
                    self.deps@ == old(self).deps@,
                    graph_wf(self.deps@),
                    acyclic(self.deps@),
                    self.deps@.len() <= u32::MAX,
                    self.generation == old(self).generation,
                    forall|y: int| 0 <= y < x ==> #[trigger] self.seen@[y] == 0,
                decreases self.seen@.len() - x,
            {
                self.seen.set(x, 0);
                x += 1;
            }
            self.generation = 0;
        }
        self.generation = self.generation + 1;
    }
}

/// The two pairs the chain through `k` leans on.
fn chain_edges(i: usize, j: usize, k: usize, count: usize) -> (r: (u32, u32))
    requires
        i < count,
        j < count,
        k < count,
        i != k,
        j != k,
        pairs_of(count as nat) <= MAX_PAIRS,
    ensures
        r == chain_edges_spec(i as nat, j as nat, k as nat, count as nat),
        r.0 < pairs_of(count as nat),
        r.1 < pairs_of(count as nat),
{
    let (lo0, hi0) = if i <= k { (i, k) } else { (k, i) };
    let (lo1, hi1) = if k <= j { (k, j) } else { (j, k) };
    let a = pair_index(lo0, hi0, count);
    let b = pair_index(lo1, hi1, count);
    (a as u32, b as u32)
}

/// The leading monomial of a nonzero polynomial.
fn lead(poly: &Polynomial) -> (m: &Monomial)
    requires
        poly@.len() > 0,
    ensures
        m@ == lead_of(poly@),
{
    proof {
        assert(poly@.last() == poly.terms@[poly.terms@.len() - 1]@);
    }
    &poly.terms[poly.terms.len() - 1].mono
}

/// The chain through `k` closes a cycle: one of the two pairs it leans on
/// already reaches the pair of `i` and `j`.
pub open spec fn chain_closes(deps: Deps, i: nat, j: nat, k: nat, count: nat, target: int) -> bool {
    let e = chain_edges_spec(i, j, k, count);
    reaches_spec(deps, e.0 as int, target) || reaches_spec(deps, e.1 as int, target)
}

/// The first element between `i` and `j` whose chain leaves the graph
/// acyclic, with the two pairs it leans on.
fn find_chain(basis: &[Polynomial], i: usize, j: usize, target: u32, lcm: &Monomial, search: &mut Search) -> (r: Option<
    (u32, (u32, u32)),
>)
    requires
        old(search).wf(),
        i < j < basis@.len(),
        pairs_of(basis@.len() as nat) <= MAX_PAIRS,
        old(search).deps@.len() == pairs_of(basis@.len() as nat),
        target == pair_index_spec(i as nat, j as nat, basis@.len() as nat),
        forall|k: int| 0 <= k < basis@.len() ==> (#[trigger] basis@[k])@.len() > 0,
        lcm@ == mono_lcm(lead_of(basis@[i as int]@), lead_of(basis@[j as int]@)),
    ensures
        final(search).wf(),
        final(search).deps@ == old(search).deps@,
        r matches Some((k, e)) ==> eligible_spec(poly_views(basis@), i as int, j as int, k as int) && e
            == chain_edges_spec(i as nat, j as nat, k as nat, basis@.len() as nat) && e.0 < pairs_of(
            basis@.len() as nat,
        ) && e.1 < pairs_of(basis@.len() as nat) && !reaches_spec(
            old(search).deps@,
            e.0 as int,
            target as int,
        ) && !reaches_spec(old(search).deps@, e.1 as int, target as int),
        r matches Some((k, e)) ==> forall|c: int|
            0 <= c < k && #[trigger] eligible_spec(poly_views(basis@), i as int, j as int, c) ==> chain_closes(
                old(search).deps@,
                i as nat,
                j as nat,
                c as nat,
                basis@.len() as nat,
                target as int,
            ),
        r is None ==> forall|c: int|
            #[trigger] eligible_spec(poly_views(basis@), i as int, j as int, c) ==> chain_closes(
                old(search).deps@,
                i as nat,
                j as nat,
                c as nat,
                basis@.len() as nat,
                target as int,
            ),
{
    let count = basis.len();
    proof {
        lemma_pairs_fit(count as nat);
        lemma_pair_index_bound(i as nat, j as nat, count as nat);
    }
    let mut k: usize = 0;
    while k < count
        invariant
            search.wf(),
            search.deps@ == old(search).deps@,
            count == basis@.len(),
            i < j < count,
            count <= u32::MAX,
            pairs_of(count as nat) <= MAX_PAIRS,
            search.deps@.len() == pairs_of(count as nat),
            target < pairs_of(count as nat),
            forall|k: int| 0 <= k < basis@.len() ==> (#[trigger] basis@[k])@.len() > 0,
            lcm@ == mono_lcm(lead_of(basis@[i as int]@), lead_of(basis@[j as int]@)),
            forall|c: int|
                0 <= c < k && #[trigger] eligible_spec(poly_views(basis@), i as int, j as int, c) ==> chain_closes(
                    old(search).deps@,
                    i as nat,
                    j as nat,
                    c as nat,
                    count as nat,
                    target as int,
                ),
        decreases count - k,
    {
        proof {
            assert(poly_views(basis@)[k as int] == basis@[k as int]@);
            assert(poly_views(basis@)[i as int] == basis@[i as int]@);
            assert(poly_views(basis@)[j as int] == basis@[j as int]@);
        }
        if k != i && k != j && lead(&basis[k]).divides(lcm) {
            let edges = chain_edges(i, j, k, count);
            search.next_generation();
            let generation = search.generation;
            proof {
                assert(closed_off_stack(search.deps@, search.seen@, Seq::empty(), generation));
            }
            let first = reaches(&search.deps, edges.0, target, &mut search.seen, &mut search.stack, generation);
            let closes = if first {
                true
            } else {
                reaches(&search.deps, edges.1, target, &mut search.seen, &mut search.stack, generation)
            };
            if !closes {
                proof {
                    assert(poly_views(basis@)[k as int] == basis@[k as int]@);
                    assert(poly_views(basis@)[i as int] == basis@[i as int]@);
                    assert(poly_views(basis@)[j as int] == basis@[j as int]@);
                }
                return Some((k as u32, edges));
            }
        }
        k += 1;
    }
    None
}

/// Every pair count of a basis under the pairs cap fits the graph.
proof fn lemma_pairs_fit(count: nat)
    requires
        pairs_of(count) <= MAX_PAIRS,
    ensures
        count <= 3000,
{
    if count > 3000 {
        lemma_tri((count - 1) as nat);
        assert(((count - 1) as nat) * ((count - 1) as nat + 1) >= 2999 * 3000) by (nonlinear_arith)
            requires
                count > 3000,
        ;
    }
}


/// The S-polynomial of `f` and `g` has a canonical form whose division by
/// `gs` reaches a nonzero residual that no leading monomial divides.
pub open spec fn spoly_stuck(f: Seq<TermView>, g: Seq<TermView>, gs: Seq<Seq<TermView>>, p: int, nvars: nat) -> bool {
    exists|rs: Seq<Seq<TermView>>, steps: Seq<(Seq<u16>, u32)>|
        #[trigger] super::divide::replays(rs, steps, gs, p, nvars) && (forall|m: Seq<u16>|
            #[trigger] coeff_at(rs[0], m) == coeff_at(crate::exact::spoly_view(f, g, p), m) % p) && rs.last().len()
            > 0 && super::divide::no_divisor(gs, rs.last().last().1)
}

/// Every element is a nonzero monic polynomial of `ring`.
pub open spec fn monic_basis(basis: Seq<Polynomial>, ring: PolynomialRing) -> bool {
    forall|k: int|
        0 <= k < basis.len() ==> (#[trigger] basis[k]).wf() && basis[k].ring == ring && basis[k]@.len() > 0
            && basis[k]@.last().0 == 1
}

/// The S-polynomial of every two nonzero elements can be formed and
/// divided within the width of one exponent.
pub open spec fn spolys_fit(bs: Seq<Seq<TermView>>, p: int) -> bool {
    forall|a: int, b: int|
        0 <= a < b < bs.len() && bs[a].len() > 0 && bs[b].len() > 0 ==> #[trigger] spoly_formable(bs[a], bs[b])
            && spoly_degrees_fit(bs[a], bs[b], p)
}

/// A division trace of the S-polynomial of elements `i` and `j`.
fn reduction_witness(basis: &[Polynomial], i: usize, j: usize, budget: &Budget) -> (r: Result<Witness, CertifyError>)
    requires
        i < basis@.len(),
        j < basis@.len(),
        basis@.len() <= u32::MAX,
        monic_basis(basis@, basis@[i as int].ring),
    ensures
        r matches Ok(w) ==> w is Reduce && witness_ok_reduce(w, poly_views(basis@), i as int, j as int, basis@[i as int].ring),
        r matches Err(e) ==> match e {
            CertifyError::Emitter(EmitterFault::NotAGroebnerBasis { i: a, j: b }) => a == i && b == j && spoly_stuck(
                basis@[i as int]@,
                basis@[j as int]@,
                poly_views(basis@),
                basis@[i as int].ring.modulus as int,
                basis@[i as int].ring.nvars as nat,
            ),
            CertifyError::WriterExhausted(c) => (c == ComputeError::Timeout && budget.stops_spec() is Some) || (c
                == ComputeError::MemoryLimitExceeded && budget.memory_spec() is Some) || (c == (
            ComputeError::ExponentLimit { limit: DEGREE_LIMIT }) && !(spoly_formable(basis@[i as int]@, basis@[j as int]@)
                && spoly_degrees_fit(basis@[i as int]@, basis@[j as int]@, basis@[i as int].ring.modulus as int))),
            _ => false,
        },
        budget.stops_spec() is None && budget.memory_spec() is None && spoly_formable(
            basis@[i as int]@,
            basis@[j as int]@,
        ) && spoly_degrees_fit(basis@[i as int]@, basis@[j as int]@, basis@[i as int].ring.modulus as int) ==> (r is Ok
            || r matches Err(CertifyError::Emitter(EmitterFault::NotAGroebnerBasis { .. }))),
{
    let f = &basis[i];
    let g = &basis[j];
    proof {
        assert(f.wf() && g.wf() && f.ring == g.ring);
    }
    let spoly = match f.s_polynomial(g) {
        Ok(s) => s,
        Err(_) => {
            return Err(CertifyError::WriterExhausted(ComputeError::ExponentLimit { limit: DEGREE_LIMIT }));
        },
    };
    proof {
        assert forall|k: int| 0 <= k < basis@.len() implies (#[trigger] basis@[k]).wf() && basis@[k].ring == spoly.ring
            && (basis@[k]@.len() > 0 ==> basis@[k]@.last().0 == 1) by {}
    }
    match divide(&spoly, basis, budget) {
        Ok(Some(steps)) => {
            proof {
                assert(spoly_replays(
                    f@,
                    g@,
                    step_views(steps@),
                    poly_views(basis@),
                    f.ring.modulus as int,
                    f.ring.nvars as nat,
                ));
            }
            Ok(Witness::Reduce(steps))
        },
        Ok(None) => {
            proof {
                let gs = poly_views(basis@);
                let pi = f.ring.modulus as int;
                let nv = f.ring.nvars as nat;
                let (rs, st) = choose|rs: Seq<Seq<TermView>>, st: Seq<(Seq<u16>, u32)>|
                    #[trigger] super::divide::replays(rs, st, gs, pi, nv) && rs[0] == spoly@ && rs.last().len() > 0
                        && super::divide::no_divisor(gs, rs.last().last().1);
                assert(super::divide::replays(rs, st, gs, pi, nv));
                assert(spoly_stuck(f@, g@, gs, pi, nv));
            }
            Err(CertifyError::Emitter(EmitterFault::NotAGroebnerBasis { i, j }))
        },
        Err(e) => {
            proof {
                if e == CertifyError::WriterExhausted(ComputeError::ExponentLimit { limit: DEGREE_LIMIT }) {
                    let pi = f.ring.modulus as int;
                    let m = spoly@.last().1;
                    assert(spoly@.last() == spoly@[spoly@.len() - 1]);
                    crate::poly::lemma_coeff_at_sorted(spoly@, m);
                    assert(coeff_at(spoly@, m) == spoly@[spoly@.len() - 1].0);
                    assert(0 < spoly@[spoly@.len() - 1].0 < pi);
                    vstd::arithmetic::div_mod::lemma_small_mod(coeff_at(spoly@, m) as nat, pi as nat);
                    assert(coeff_at(crate::exact::spoly_view(f@, g@, pi), m) % pi != 0);
                    assert(!spoly_degrees_fit(f@, g@, pi));
                }
            }
            Err(e)
        },
    }
}

/// `w` is a division trace of the S-polynomial of elements `i` and `j`.
pub open spec fn witness_ok_reduce(w: Witness, bs: Seq<Seq<TermView>>, i: int, j: int, ring: PolynomialRing) -> bool {
    match w {
        Witness::Reduce(steps) => spoly_replays(
            bs[i],
            bs[j],
            step_views(steps@),
            bs,
            ring.modulus as int,
            ring.nvars as nat,
        ),
        _ => false,
    }
}


/// What stops the choice of a witness: the deadline, the memory limit,
/// an exponent past its width, or an S-polynomial that does not reduce.
pub open spec fn witness_stop(e: CertifyError, basis: Seq<Polynomial>, budget: Budget) -> bool {
    match e {
        CertifyError::Emitter(EmitterFault::NotAGroebnerBasis { i, j }) => i < j < basis.len() && spoly_stuck(
            basis[i as int]@,
            basis[j as int]@,
            poly_views(basis),
            basis[i as int].ring.modulus as int,
            basis[i as int].ring.nvars as nat,
        ),
        CertifyError::WriterExhausted(c) => (c == ComputeError::Timeout && budget.stops_spec() is Some) || (c
            == ComputeError::MemoryLimitExceeded && budget.memory_spec() is Some) || (c == (ComputeError::ExponentLimit {
            limit: DEGREE_LIMIT,
        }) && !spolys_fit(poly_views(basis), basis[0].ring.modulus as int)),
        CertifyError::CapExceeded { cap, limit } => cap == CertificateCap::Pairs && limit == MAX_PAIRS && pairs_of(
            basis.len(),
        ) > MAX_PAIRS,
        _ => false,
    }
}

/// Choose the witness of pair `(i, j)`: `Coprime` first, then the first
/// element between them whose chain keeps the graph acyclic, then a
/// division trace.
fn choose_witness(basis: &[Polynomial], i: usize, j: usize, budget: &Budget, search: &mut Search) -> (r: Result<
    Witness,
    CertifyError,
>)
    requires
        old(search).wf(),
        i < j < basis@.len(),
        basis@.len() <= u32::MAX,
        monic_basis(basis@, basis@[0].ring),
        pairs_of(basis@.len() as nat) <= MAX_PAIRS,
        old(search).deps@.len() == pairs_of(basis@.len() as nat),
        old(search).deps@[pair_index_spec(i as nat, j as nat, basis@.len() as nat)] is None,
    ensures
        final(search).wf(),
        final(search).deps@.len() == old(search).deps@.len(),
        r matches Ok(w) ==> witness_ok(
            w,
            poly_views(basis@),
            i as int,
            j as int,
            basis@[0].ring.modulus as int,
            basis@[0].ring.nvars as nat,
        ) && match w {
            Witness::Chain(k) => final(search).deps@ == old(search).deps@.update(
                pair_index_spec(i as nat, j as nat, basis@.len() as nat),
                Some(chain_edges_spec(i as nat, j as nat, k as nat, basis@.len() as nat)),
            ),
            _ => final(search).deps@ == old(search).deps@,
        },
        r matches Err(e) ==> witness_stop(e, basis@, *budget),
        budget.stops_spec() is None && budget.memory_spec() is None && spolys_fit(
            poly_views(basis@),
            basis@[0].ring.modulus as int,
        ) ==> (r is Ok || r matches Err(CertifyError::Emitter(EmitterFault::NotAGroebnerBasis { .. }))),
{
    let count = basis.len();
    let ghost bs = poly_views(basis@);
    proof {
        assert(basis@[i as int]@.len() > 0 && basis@[j as int]@.len() > 0);
        assert(basis@[i as int].ring == basis@[0].ring);
        lemma_pair_index_bound(i as nat, j as nat, count as nat);
        lemma_pairs_fit(count as nat);
        assert(bs[i as int] == basis@[i as int]@ && bs[j as int] == basis@[j as int]@);
    }
    let left = lead(&basis[i]);
    let right = lead(&basis[j]);
    if left.is_coprime(right) {
        return Ok(Witness::Coprime);
    }
    let target = pair_index(i, j, count) as u32;
    let lcm = left.lcm(right);
    proof {
        assert forall|k: int| 0 <= k < basis@.len() implies (#[trigger] basis@[k])@.len() > 0 by {}
    }
    let ghost before = search.deps@;
    match find_chain(basis, i, j, target, &lcm, search) {
        Some((k, edges)) => {
            proof {
                lemma_add_edges_acyclic(search.deps@, target as int, edges);
            }
            search.deps.set(target as usize, Some(edges));
            Ok(Witness::Chain(k))
        },
        None => {
            proof {
                assert(basis@[i as int].ring == basis@[0].ring);
                if spolys_fit(bs, basis@[0].ring.modulus as int) {
                    assert(spoly_formable(bs[i as int], bs[j as int]));
                }
            }
            match reduction_witness(basis, i, j, budget) {
                Ok(w) => Ok(w),
                Err(e) => Err(e),
            }
        },
    }
}


/// The rows before a row never outnumber the rows before a later one.
proof fn lemma_rows_mono(r1: nat, r2: nat, count: nat)
    requires
        r1 <= r2 <= count,
    ensures
        rows_before(r1, count) <= rows_before(r2, count),
    decreases r2 - r1,
{
    if r1 < r2 {
        lemma_rows_step(r1, count);
        lemma_rows_mono(r1 + 1, r2, count);
    }
}

/// Two pairs at one place are one pair.
proof fn lemma_pair_index_injective(a: nat, b: nat, i: nat, j: nat, count: nat)
    requires
        a < b < count,
        i < j < count,
        pair_index_spec(a, b, count) == pair_index_spec(i, j, count),
    ensures
        a == i,
        b == j,
{
    lemma_rows_step(a, count);
    lemma_rows_step(i, count);
    if a < i {
        lemma_rows_mono(a + 1, i, count);
    } else if i < a {
        lemma_rows_mono(i + 1, a, count);
    }
}

/// `out` holds one accepted witness per pair of `basis`, in lexicographic
/// pair order, and the graph of its chains is acyclic.
pub open spec fn witnesses_ok(out: Seq<Witness>, basis: Seq<Polynomial>) -> bool {
    &&& out.len() == pairs_of(basis.len() as nat)
    &&& forall|a: int, b: int|
        0 <= a < b < basis.len() ==> #[trigger] witness_ok(
            out[pair_index_spec(a as nat, b as nat, basis.len() as nat)],
            poly_views(basis),
            a,
            b,
            basis[0].ring.modulus as int,
            basis[0].ring.nvars as nat,
        )
    &&& exists|deps: Deps| #[trigger] chain_graph(deps, out, basis.len() as nat) && graph_wf(deps) && acyclic(deps)
}

/// Every multiplier of a division trace in `w` has `nvars` exponents.
pub open spec fn multipliers_fit(w: Witness, nvars: nat) -> bool {
    match w {
        Witness::Reduce(steps) => forall|k: int| 0 <= k < steps@.len() ==> (#[trigger] steps@[k]).mono@.len() == nvars,
        _ => true,
    }
}

/// A witness the verifier accepts carries multipliers of the ring's width.
proof fn lemma_witness_fits(w: Witness, bs: Seq<Seq<TermView>>, i: int, j: int, p: int, nvars: nat)
    requires
        witness_ok(w, bs, i, j, p, nvars),
    ensures
        multipliers_fit(w, nvars),
{
    if let Witness::Reduce(steps) = w {
        let s = choose|s: Seq<TermView>|
            #[trigger] reduces_to_zero(s, step_views(steps@), bs, p, nvars) && terms_wf(s, p, nvars) && forall|m: Seq<u16>|
                #[trigger] coeff_at(s, m) == coeff_at(crate::exact::spoly_view(bs[i], bs[j], p), m) % p;
        lemma_reduces_widths(s, step_views(steps@), bs, p, nvars);
        assert forall|k: int| 0 <= k < steps@.len() implies (#[trigger] steps@[k]).mono@.len() == nvars by {
            assert(step_views(steps@)[k].0 == steps@[k].mono@);
        }
    }
}

/// Choose one witness per pair, in lexicographic pair order.
///
/// The choice is fixed: `Coprime` first, then the first eligible element
/// whose two dependency edges keep the graph acyclic, then a division
/// trace. The verifier validates the witnesses in reverse topological
/// order, so the writer leaves the graph of the chains acyclic. Every
/// element of `basis` is monic and nonzero, which the caller checks.
#[verifier::spinoff_prover]
pub fn witnesses(basis: &[Polynomial], budget: &mut Budget) -> (r: Result<Vec<Witness>, CertifyError>)
    requires
        basis@.len() <= u32::MAX,
        basis@.len() > 0 ==> monic_basis(basis@, basis@[0].ring),
    ensures
        final(budget).stops_spec() == old(budget).stops_spec(),
        final(budget).memory_spec() == old(budget).memory_spec(),
        r matches Ok(out) ==> witnesses_ok(out@, basis@),
        r matches Ok(out) ==> forall|t: int|
            0 <= t < out@.len() ==> multipliers_fit(#[trigger] out@[t], basis@[0].ring.nvars as nat),
        r matches Err(e) ==> witness_stop(e, basis@, *old(budget)),
        old(budget).stops_spec() is None && old(budget).memory_spec() is None && pairs_of(basis@.len()) <= MAX_PAIRS
            && (basis@.len() > 0 ==> spolys_fit(poly_views(basis@), basis@[0].ring.modulus as int)) ==> (r is Ok
            || r matches Err(CertifyError::Emitter(EmitterFault::NotAGroebnerBasis { .. }))),
{
    let count = basis.len();
    let pairs = match pair_count(count) {
        Some(n) => n,
        None => {
            proof {
                lemma_tri((count - 1) as nat);
                assert(((count - 1) as nat) * ((count - 1) as nat + 1) == count * (count - 1)) by (nonlinear_arith)
                    requires
                        count >= 2,
                ;
                assert(pairs_of(count as nat) > MAX_PAIRS);
            }
            return Err(CertifyError::CapExceeded { cap: CertificateCap::Pairs, limit: MAX_PAIRS });
        },
    };
    match cap(pairs, MAX_PAIRS, CertificateCap::Pairs) {
        Ok(()) => {},
        Err(e) => {
            return Err(e);
        },
    }
    let per_pair = crate::cert::saturating_add(
        crate::cert::saturating_add(size_of::<Witness>(), size_of::<Option<(u32, u32)>>()),
        size_of::<u32>(),
    );
    match budget.hold_bytes(crate::cert::saturating_mul(pairs, per_pair)) {
        Ok(()) => {},
        Err(e) => {
            return Err(CertifyError::WriterExhausted(e));
        },
    }
    let mut deps: Vec<Option<(u32, u32)>> = Vec::new();
    let mut seen: Vec<u32> = Vec::new();
    let mut k: usize = 0;
    while k < pairs
        invariant
            k <= pairs,
            deps@.len() == k,
            seen@.len() == k,
            forall|x: int| 0 <= x < k ==> (#[trigger] deps@[x]) is None && seen@[x] == 0,
        decreases pairs - k,
    {
        deps.push(None);
        seen.push(0);
        k += 1;
    }
    let mut search = Search { deps, seen, stack: Vec::new(), generation: 0 };
    proof {
        assert forall|x: int, y: int| #[trigger] edge(search.deps@, x, y) implies !reaches_spec(search.deps@, y, x) by {
            assert(search.deps@[x] is None);
        }
        assert forall|x: int| 0 <= x < search.deps@.len() && (#[trigger] search.deps@[x]) is Some implies search.deps@[x]->Some_0.0
            < search.deps@.len() && search.deps@[x]->Some_0.1 < search.deps@.len() by {}
        assert forall|x: int| 0 <= x < search.seen@.len() implies #[trigger] search.seen@[x] <= search.generation by {
            assert(search.deps@[x] is None);
        }
        assert(search.wf());
    }
    let ghost bs = poly_views(basis@);
    let ghost c = count as nat;
    let ghost p = if count > 0 { basis@[0].ring.modulus as int } else { 0 };
    let ghost nv = if count > 0 { basis@[0].ring.nvars as nat } else { 0 };
    let mut out: Vec<Witness> = Vec::new();
    proof {
        assert forall|a: int, b: int| 0 <= a < b < count implies #[trigger] pair_index_spec(a as nat, b as nat, c) >= 0 by {
            lemma_pair_index_bound(a as nat, b as nat, c);
        }
        assert(chain_graph(search.deps@, out@, c));
    }
    let mut i: usize = 0;
    while i < count
        invariant
            count == basis@.len(),
            c == count,
            bs == poly_views(basis@),
            count <= u32::MAX,
            count > 0 ==> monic_basis(basis@, basis@[0].ring),
            count > 0 ==> p == basis@[0].ring.modulus && nv == basis@[0].ring.nvars,
            pairs == pairs_of(c),
            pairs <= MAX_PAIRS,
            budget.stops_spec() == old(budget).stops_spec(),
            budget.memory_spec() == old(budget).memory_spec(),
            search.wf(),
            search.deps@.len() == pairs,
            i <= count,
            out@.len() == rows_before(i as nat, c),
            forall|t: int| out@.len() <= t < pairs ==> (#[trigger] search.deps@[t]) is None,
            forall|a: int, b: int|
                0 <= a < b < count && pair_index_spec(a as nat, b as nat, c) < out@.len() ==> #[trigger] witness_ok(
                    out@[pair_index_spec(a as nat, b as nat, c)],
                    bs,
                    a,
                    b,
                    p,
                    nv,
                ),
            chain_graph(search.deps@, out@, c),
            forall|t: int| 0 <= t < out@.len() ==> multipliers_fit(#[trigger] out@[t], nv),
        decreases count - i,
    {
        match budget.check_deadline() {
            Ok(()) => {},
            Err(e) => {
                return Err(CertifyError::WriterExhausted(e));
            },
        }
        let mut j: usize = i + 1;
        while j < count
            invariant
                count == basis@.len(),
                c == count,
                bs == poly_views(basis@),
                count <= u32::MAX,
                count > 0 ==> monic_basis(basis@, basis@[0].ring),
                count > 0 ==> p == basis@[0].ring.modulus && nv == basis@[0].ring.nvars,
                pairs == pairs_of(c),
                pairs <= MAX_PAIRS,
                budget.stops_spec() == old(budget).stops_spec(),
                budget.memory_spec() == old(budget).memory_spec(),
                search.wf(),
                search.deps@.len() == pairs,
                i < count,
                i < j <= count,
                out@.len() == pair_index_spec(i as nat, j as nat, c),
                forall|t: int| out@.len() <= t < pairs ==> (#[trigger] search.deps@[t]) is None,
                forall|a: int, b: int|
                    0 <= a < b < count && pair_index_spec(a as nat, b as nat, c) < out@.len() ==> #[trigger] witness_ok(
                        out@[pair_index_spec(a as nat, b as nat, c)],
                        bs,
                        a,
                        b,
                        p,
                        nv,
                    ),
                chain_graph(search.deps@, out@, c),
                forall|t: int| 0 <= t < out@.len() ==> multipliers_fit(#[trigger] out@[t], nv),
            decreases count - j,
        {
            let ghost t = pair_index_spec(i as nat, j as nat, c);
            proof {
                lemma_pair_index_bound(i as nat, j as nat, c);
            }
            let ghost old_deps = search.deps@;
            let ghost old_out = out@;
            let w = match choose_witness(basis, i, j, budget, &mut search) {
                Ok(w) => w,
                Err(e) => {
                    return Err(e);
                },
            };
            out.push(w);
            proof {
                assert forall|a: int, b: int|
                    0 <= a < b < count && pair_index_spec(a as nat, b as nat, c) < out@.len() implies #[trigger] witness_ok(
                        out@[pair_index_spec(a as nat, b as nat, c)],
                        bs,
                        a,
                        b,
                        p,
                        nv,
                    ) by {
                    lemma_pair_index_bound(a as nat, b as nat, c);
                    if pair_index_spec(a as nat, b as nat, c) == t {
                        lemma_pair_index_injective(a as nat, b as nat, i as nat, j as nat, c);
                    } else {
                        assert(out@[pair_index_spec(a as nat, b as nat, c)] == old_out[pair_index_spec(a as nat, b as nat, c)]);
                    }
                }
                assert forall|a: int, b: int|
                    0 <= a < b < c && pair_index_spec(a as nat, b as nat, c) < out@.len() implies match #[trigger] out@[pair_index_spec(
                        a as nat,
                        b as nat,
                        c,
                    )] {
                        Witness::Chain(k) => search.deps@[pair_index_spec(a as nat, b as nat, c)] == Some(
                            chain_edges_spec(a as nat, b as nat, k as nat, c),
                        ),
                        _ => search.deps@[pair_index_spec(a as nat, b as nat, c)] is None,
                    } by {
                    let q = pair_index_spec(a as nat, b as nat, c);
                    lemma_pair_index_bound(a as nat, b as nat, c);
                    if q == t {
                        lemma_pair_index_injective(a as nat, b as nat, i as nat, j as nat, c);
                    } else {
                        assert(out@[q] == old_out[q]);
                        lemma_pair_index_bound(a as nat, b as nat, c);
                        assert(search.deps@[q] == old_deps[q]);
                    }
                }
                assert forall|x: int| out@.len() <= x < pairs implies (#[trigger] search.deps@[x]) is None by {
                    assert(search.deps@[x] == old_deps[x]);
                }
                assert(witness_ok(out@[pair_index_spec(i as nat, j as nat, c)], bs, i as int, j as int, p, nv));
                lemma_witness_fits(out@[t], bs, i as int, j as int, p, nv);
                assert forall|x: int| 0 <= x < out@.len() implies multipliers_fit(#[trigger] out@[x], nv) by {
                    if x < old_out.len() {
                        assert(out@[x] == old_out[x]);
                    }
                }
                lemma_rows_step(i as nat, c);
            }
            j += 1;
        }
        proof {
            lemma_rows_step(i as nat, c);
        }
        i += 1;
    }
    proof {
        if count >= 1 {
            lemma_rows_all(c);
        }
        assert(chain_graph(search.deps@, out@, c) && graph_wf(search.deps@) && acyclic(search.deps@));
        assert(out@.len() == pairs_of(c));
        assert forall|a: int, b: int| 0 <= a < b < basis@.len() implies #[trigger] witness_ok(
            out@[pair_index_spec(a as nat, b as nat, basis@.len() as nat)],
            poly_views(basis@),
            a,
            b,
            basis@[0].ring.modulus as int,
            basis@[0].ring.nvars as nat,
        ) by {
            lemma_pair_index_bound(a as nat, b as nat, c);
        }
        assert(witnesses_ok(out@, basis@));
    }
    Ok(out)
}

} // verus!
