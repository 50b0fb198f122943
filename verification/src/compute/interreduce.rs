//! Interreduction of a Gröbner basis to the reduced basis.

use vstd::prelude::*;

use super::{ComputeError, ComputeLimits, DEGREE_LIMIT, RunError};
use crate::cert::Budget;
use crate::cert::divide::{
    combo_coeff,
    divide,
    division_identity,
    fully_reduced,
    lead_irreducible,
    lemma_combo_empty,
    poly_views,
};
use crate::cert::origin::{self, Origin, all_in_ring};
use crate::ideal::{
    all_in_ideal,
    in_ideal,
    lemma_ideal_division,
    lemma_ideal_generator,
    lemma_ideal_monic,
    lemma_ideal_scaled,
    lemma_ideal_trans,
    lemma_ideal_zero,
};
use crate::cert::{copy_list, goes_before, leads_ok, sort_order, sorted_by};
use crate::exact::{saturated, term_heap_bytes};
use crate::monomial::{degree_of, divides_spec, grevlex_less, lemma_grevlex_total, lemma_grevlex_transitive};
use crate::field::field_inverse;
use crate::poly::{Polynomial, PolynomialRing, TermView, scaled_list};

verus! {

/// The heap bytes of one polynomial's terms, saturating at `usize::MAX`.
pub open spec fn poly_heap(q: Polynomial) -> usize {
    saturated(q@.len() * term_heap_bytes(q.ring.nvars as int)) as usize
}

/// `base` and the heap bytes of every polynomial of the list, saturating at
/// `usize::MAX`.
pub open spec fn heap_sum(polys: Seq<Polynomial>, base: usize) -> usize
    decreases polys.len(),
{
    if polys.len() == 0 {
        base
    } else {
        crate::cert::saturating_total(heap_sum(polys.drop_last(), base), poly_heap(polys.last()))
    }
}

/// The bytes a list of polynomials costs, saturating at `usize::MAX`: the
/// list itself and every polynomial's terms.
pub open spec fn list_bytes_spec(polys: Seq<Polynomial>) -> usize {
    heap_sum(polys, crate::cert::saturating_product(polys.len() as usize, size_of::<Polynomial>() as usize))
}

/// `base` and the bytes of every cofactor list, saturating at `usize::MAX`.
pub open spec fn origins_sum(origins: Seq<Origin>, base: usize) -> usize
    decreases origins.len(),
{
    if origins.len() == 0 {
        base
    } else {
        crate::cert::saturating_total(origins_sum(origins.drop_last(), base), list_bytes_spec(origins.last()@))
    }
}

/// The bytes a basis and its origins cost, saturating at `usize::MAX`.
pub open spec fn basis_bytes(basis: Seq<Polynomial>, origins: Seq<Origin>) -> usize {
    origins_sum(
        origins,
        crate::cert::saturating_total(
            list_bytes_spec(basis),
            crate::cert::saturating_product(origins.len() as usize, size_of::<Origin>() as usize),
        ),
    )
}

/// `bytes` fit under the memory limit, if there is one.
pub open spec fn under_limit(memory: Option<usize>, bytes: usize) -> bool {
    match memory {
        Some(limit) => bytes <= limit,
        None => true,
    }
}

/// The bytes a list of polynomials costs, saturating at `usize::MAX`: the
/// list itself and every polynomial's terms.
pub(crate) fn list_bytes(polys: &[Polynomial]) -> (n: usize)
    ensures
        n == list_bytes_spec(polys@),
{
    let ghost base = crate::cert::saturating_product(polys@.len() as usize, size_of::<Polynomial>() as usize);
    let mut bytes = crate::cert::saturating_mul(polys.len(), size_of::<Polynomial>());
    let mut k: usize = 0;
    while k < polys.len()
        invariant
            k <= polys@.len(),
            bytes == heap_sum(polys@.take(k as int), base),
        decreases polys@.len() - k,
    {
        proof {
            assert(polys@.take(k as int + 1).drop_last() =~= polys@.take(k as int));
        }
        bytes = crate::cert::saturating_add(bytes, polys[k].heap_bytes());
        k += 1;
    }
    proof {
        assert(polys@.take(k as int) =~= polys@);
    }
    bytes
}

/// Stop the interreduction when the budget runs out.
///
/// The final interreduction can cost more than the pair loop that feeds
/// it, so it carries the same typed partiality as the engines.
fn check_limits(limits: &ComputeLimits, basis: &[Polynomial], origins: &[Origin]) -> (r: Result<(), RunError>)
    ensures
        r is Ok ==> under_limit(limits.memory, basis_bytes(basis@, origins@)),
        limits.is_open() ==> (r is Ok <==> under_limit(limits.memory, basis_bytes(basis@, origins@))),
        r matches Err(e) ==> limits.stop_allowed(e) || (e == RunError::Compute(
            ComputeError::MemoryLimitExceeded,
        ) && !under_limit(limits.memory, basis_bytes(basis@, origins@))),
{
    if let Some(stop) = limits.stop() {
        return Err(stop);
    }
    match limits.memory {
        Some(limit) => {
            let ghost base = crate::cert::saturating_total(
                list_bytes_spec(basis@),
                crate::cert::saturating_product(origins@.len() as usize, size_of::<Origin>() as usize),
            );
            let mut bytes = list_bytes(basis);
            bytes = crate::cert::saturating_add(
                bytes,
                crate::cert::saturating_mul(origins.len(), size_of::<Origin>()),
            );
            let mut k: usize = 0;
            while k < origins.len()
                invariant
                    k <= origins@.len(),
                    bytes == origins_sum(origins@.take(k as int), base),
                decreases origins@.len() - k,
            {
                proof {
                    assert(origins@.take(k as int + 1).drop_last() =~= origins@.take(k as int));
                }
                bytes = crate::cert::saturating_add(bytes, list_bytes(origins[k].as_slice()));
                k += 1;
            }
            proof {
                assert(origins@.take(k as int) =~= origins@);
            }
            if bytes > limit {
                return Err(RunError::Compute(ComputeError::MemoryLimitExceeded));
            }
        },
        None => {},
    }
    Ok(())
}

/// The order that sorts the list ascending by leading monomial, keeping
/// the given order among equal ones.
pub(crate) fn sort_ascending(basis: &[Polynomial], Ghost(nvars): Ghost<nat>) -> (order: Vec<usize>)
    requires
        leads_ok(poly_views(basis@), nvars),
    ensures
        crate::cert::is_permutation(order@, basis@.len()),
        forall|k: int, l: int|
            0 <= k < l < order@.len() ==> !grevlex_less(
                #[trigger] poly_views(basis@)[order@[l] as int].last().1,
                #[trigger] poly_views(basis@)[order@[k] as int].last().1,
            ),
        forall|k: int, l: int|
            0 <= k < l < order@.len() && poly_views(basis@)[#[trigger] order@[k] as int].last().1 == poly_views(
                basis@,
            )[#[trigger] order@[l] as int].last().1 ==> order@[k] < order@[l],
{
    let ghost bs = poly_views(basis@);
    let mut order: Vec<usize> = Vec::new();
    let mut i: usize = 0;
    while i < basis.len()
        invariant
            bs == poly_views(basis@),
            leads_ok(bs, nvars),
            i <= basis@.len(),
            order@.len() == i,
            forall|k: int| 0 <= k < order@.len() ==> (#[trigger] order@[k]) < i,
            forall|k: int, l: int| 0 <= k < l < order@.len() ==> #[trigger] order@[k] != #[trigger] order@[l],
            forall|k: int, l: int|
                0 <= k < l < order@.len() ==> !grevlex_less(
                    #[trigger] bs[order@[l] as int].last().1,
                    #[trigger] bs[order@[k] as int].last().1,
                ),
            forall|k: int, l: int|
                0 <= k < l < order@.len() && bs[#[trigger] order@[k] as int].last().1 == bs[#[trigger] order@[l] as int].last().1
                    ==> order@[k] < order@[l],
        decreases basis@.len() - i,
    {
        let gi = &basis[i];
        proof {
            assert(bs[i as int] == gi@);
            assert(gi@.len() == gi.terms@.len());
            assert(gi@.last() == gi.terms@[gi.terms@.len() - 1]@);
        }
        let lead_i = &gi.terms[gi.terms.len() - 1].mono;
        let mut pos = order.len();
        loop
            invariant
                bs == poly_views(basis@),
                leads_ok(bs, nvars),
                i < basis@.len(),
                lead_i@ == bs[i as int].last().1,
                pos <= order@.len(),
                forall|k: int| 0 <= k < order@.len() ==> (#[trigger] order@[k]) < i,
                forall|q: int| pos <= q < order@.len() ==> grevlex_less(bs[i as int].last().1, #[trigger] bs[order@[q] as int].last().1),
            ensures
                pos <= order@.len(),
                forall|q: int| pos <= q < order@.len() ==> grevlex_less(bs[i as int].last().1, #[trigger] bs[order@[q] as int].last().1),
                pos == 0 || !grevlex_less(bs[i as int].last().1, bs[order@[pos - 1] as int].last().1),
            decreases pos,
        {
            if pos == 0 {
                break;
            }
            let gq = &basis[order[pos - 1]];
            proof {
                let q = order@[pos - 1] as int;
                assert(bs[q] == gq@);
                assert(gq@.len() == gq.terms@.len());
                assert(gq@.last() == gq.terms@[gq.terms@.len() - 1]@);
            }
            let lead_q = &gq.terms[gq.terms.len() - 1].mono;
            if !lead_i.less_than(lead_q) {
                break;
            }
            pos -= 1;
        }
        let ghost before = order@;
        order.insert(pos, i);
        proof {
            assert(order@ =~= before.insert(pos as int, i));
            assert forall|k: int, l: int|
                0 <= k < l < order@.len() implies !grevlex_less(
                #[trigger] bs[order@[l] as int].last().1,
                #[trigger] bs[order@[k] as int].last().1,
            ) by {
                let li = bs[i as int].last().1;
                if l < pos {
                    assert(order@[k] == before[k] && order@[l] == before[l]);
                } else if l == pos {
                    assert(order@[l] == i);
                    assert(order@[k] == before[k]);
                    let lq = bs[before[pos - 1] as int].last().1;
                    let lk = bs[before[k] as int].last().1;
                    if k < pos - 1 && grevlex_less(li, lk) {
                        assert(!grevlex_less(lq, lk));
                        if lq != li {
                            lemma_grevlex_total(lq, li);
                            lemma_grevlex_transitive(lq, li, lk);
                        }
                    }
                } else if k == pos {
                    assert(order@[k] == i);
                    assert(order@[l] == before[l - 1]);
                    let ll = bs[before[l - 1] as int].last().1;
                    crate::monomial::lemma_grevlex_asymmetric(li, ll);
                } else if k < pos {
                    assert(order@[k] == before[k]);
                    assert(order@[l] == before[l - 1]);
                } else {
                    assert(order@[k] == before[k - 1]);
                    assert(order@[l] == before[l - 1]);
                }
            }
            assert forall|k: int, l: int| 0 <= k < l < order@.len() implies #[trigger] order@[k] != #[trigger] order@[l] by {
                if l < pos {
                    assert(order@[k] == before[k] && order@[l] == before[l]);
                } else if l == pos {
                    assert(order@[k] == before[k]);
                } else if k == pos {
                    assert(order@[l] == before[l - 1]);
                } else if k < pos {
                    assert(order@[k] == before[k] && order@[l] == before[l - 1]);
                } else {
                    assert(order@[k] == before[k - 1] && order@[l] == before[l - 1]);
                }
            }
            assert forall|k: int, l: int|
                0 <= k < l < order@.len() && bs[#[trigger] order@[k] as int].last().1 == bs[#[trigger] order@[l] as int].last().1
                implies order@[k] < order@[l] by {
                if l < pos {
                    assert(order@[k] == before[k] && order@[l] == before[l]);
                } else if l == pos {
                    assert(order@[k] == before[k]);
                } else if k == pos {
                    let li = bs[i as int].last().1;
                    assert(order@[l] == before[l - 1]);
                    crate::monomial::lemma_grevlex_asymmetric(li, li);
                } else if k < pos {
                    assert(order@[k] == before[k] && order@[l] == before[l - 1]);
                } else {
                    assert(order@[k] == before[k - 1] && order@[l] == before[l - 1]);
                }
            }
            assert forall|k: int| 0 <= k < order@.len() implies (#[trigger] order@[k]) < i + 1 by {
                if k < pos {
                    assert(order@[k] == before[k]);
                } else if k > pos {
                    assert(order@[k] == before[k - 1]);
                }
            }
        }
        i += 1;
    }
    order
}


/// The leading monomial of a nonzero term list.
pub open spec fn lead_of(s: Seq<TermView>) -> Seq<u16> {
    s.last().1
}

/// No leading monomial of the list divides another's.
pub open spec fn leads_independent(bs: Seq<Seq<TermView>>) -> bool {
    forall|a: int, b: int|
        0 <= a < bs.len() && 0 <= b < bs.len() && a != b ==> !divides_spec(
            #[trigger] lead_of(bs[a]),
            #[trigger] lead_of(bs[b]),
        )
}

/// Every nonzero element of `from` has a leading monomial that the
/// leading monomial of some element of `to` divides.
pub open spec fn leads_covered(from: Seq<Seq<TermView>>, to: Seq<Seq<TermView>>) -> bool {
    forall|j: int|
        0 <= j < from.len() && (#[trigger] from[j]).len() > 0 ==> exists|k: int|
            0 <= k < to.len() && divides_spec(#[trigger] lead_of(to[k]), lead_of(from[j]))
}

/// `p` is a copy of a nonzero element of `from`, and `po` a copy of that
/// element's origin.
pub open spec fn has_source(
    p: Polynomial,
    po: Origin,
    from: Seq<Polynomial>,
    from_origins: Seq<Origin>,
    with_origins: bool,
) -> bool {
    exists|j: int|
        0 <= j < from.len() && from[j]@.len() > 0 && p@ == (#[trigger] from[j])@ && p.ring == from[j].ring
            && (with_origins ==> copies(po@, from_origins[j]@))
}

/// Every element of `out` is a copy of a nonzero element of `from`, and
/// its origin a copy of that element's origin.
pub open spec fn drawn_from(
    out: Seq<Polynomial>,
    out_origins: Seq<Origin>,
    from: Seq<Polynomial>,
    from_origins: Seq<Origin>,
    with_origins: bool,
) -> bool {
    forall|k: int|
        0 <= k < out.len() ==> #[trigger] has_source(out[k], out_origins[k], from, from_origins, with_origins)
}

/// Element `c` of `out` copies element `e` of `from`, and its origin
/// copies that element's origin.
pub open spec fn copied_at(
    out: Seq<Polynomial>,
    out_origins: Seq<Origin>,
    from: Seq<Polynomial>,
    from_origins: Seq<Origin>,
    e: int,
    c: int,
    with_origins: bool,
) -> bool {
    &&& out[c]@ == from[e]@
    &&& out[c].ring == from[e].ring
    &&& with_origins ==> copies(out_origins[c]@, from_origins[e]@)
}

/// `a` holds copies of the polynomials of `b`, in order.
pub open spec fn copies(a: Seq<Polynomial>, b: Seq<Polynomial>) -> bool {
    &&& a.len() == b.len()
    &&& forall|l: int| 0 <= l < a.len() ==> (#[trigger] a[l])@ == b[l]@ && a[l].ring == b[l].ring
}

/// Drop the elements whose leading monomial another element's divides,
/// keeping the cofactors with them when `with_origins`.
///
/// Zero elements go first. The rest are sorted ascending by leading
/// monomial, keeping the given order among equal ones, and scanned: an
/// element is kept unless the leading monomial of one kept before divides
/// its own.
fn minimalize(basis: &[Polynomial], origins: &[Origin], with_origins: bool) -> (r: (Vec<Polynomial>, Vec<Origin>))
    requires
        basis@.len() > 0 ==> all_in_ring(basis@, basis@[0].ring),
        with_origins ==> origins@.len() == basis@.len(),
    ensures
        basis@.len() > 0 ==> all_in_ring(r.0@, basis@[0].ring),
        with_origins ==> r.1@.len() == r.0@.len(),
        forall|k: int| 0 <= k < r.0@.len() ==> (#[trigger] r.0@[k])@.len() > 0,
        drawn_from(r.0@, r.1@, basis@, origins@, with_origins),
        leads_independent(poly_views(r.0@)),
        leads_covered(poly_views(basis@), poly_views(r.0@)),
{
    let ghost ring = if basis@.len() > 0 { basis@[0].ring } else { arbitrary() };
    let mut nonzero: Vec<Polynomial> = Vec::new();
    let mut nonzero_origins: Vec<Origin> = Vec::new();
    let ghost mut source: Seq<int> = Seq::empty();
    let mut k: usize = 0;
    while k < basis.len()
        invariant
            k <= basis@.len(),
            basis@.len() > 0 ==> all_in_ring(basis@, ring),
            with_origins ==> origins@.len() == basis@.len(),
            source.len() == nonzero@.len(),
            with_origins ==> nonzero_origins@.len() == nonzero@.len(),
            forall|j: int| 0 <= j < nonzero@.len() ==> 0 <= #[trigger] source[j] < k && basis@[source[j]]@.len() > 0
                && nonzero@[j]@ == basis@[source[j]]@ && nonzero@[j].ring == basis@[source[j]].ring && (with_origins
                ==> copies(nonzero_origins@[j]@, origins@[source[j]]@)),
            forall|j: int| 0 <= j < k && (#[trigger] basis@[j])@.len() > 0 ==> exists|i: int|
                0 <= i < nonzero@.len() && source[i] == j,
        decreases basis@.len() - k,
    {
        let ghost old_source = source;
        if basis[k].terms.len() > 0 {
            nonzero.push(basis[k].copy());
            if with_origins {
                let entry = copy_list(origins[k].as_slice());
                nonzero_origins.push(entry);
            }
            proof {
                source = source.push(k as int);
                assert(source[source.len() - 1] == k);
            }
        }
        proof {
            assert forall|j: int| 0 <= j < k + 1 && (#[trigger] basis@[j])@.len() > 0 implies exists|i: int|
                0 <= i < nonzero@.len() && source[i] == j by {
                if j == k {
                    assert(source[nonzero@.len() - 1] == j);
                } else {
                    let i = choose|i: int| 0 <= i < old_source.len() && old_source[i] == j;
                    assert(source[i] == old_source[i]);
                }
            }
        }
        k += 1;
    }
    let ghost nv: nat = if basis@.len() > 0 { ring.nvars as nat } else { 0 };
    let ghost nz = poly_views(nonzero@);
    proof {
        assert forall|j: int| 0 <= j < nz.len() implies (#[trigger] nz[j]).len() > 0 && nz[j].last().1.len() == nv by {
            assert(nz[j] == nonzero@[j]@);
            let s = basis@[source[j]];
            assert(s.wf());
            assert(nz[j].last() == nz[j][nz[j].len() - 1]);
            assert(0 < nz[j][nz[j].len() - 1].0);
        }
    }
    let order = sort_ascending(nonzero.as_slice(), Ghost(nv));
    // Positions in `order` of the elements kept so far, ascending.
    let mut chosen: Vec<usize> = Vec::new();
    let mut k: usize = 0;
    while k < order.len()
        invariant
            nz == poly_views(nonzero@),
            leads_ok(nz, nv),
            crate::cert::is_permutation(order@, nonzero@.len()),
            forall|a: int, b: int|
                0 <= a < b < order@.len() ==> !grevlex_less(
                    #[trigger] nz[order@[b] as int].last().1,
                    #[trigger] nz[order@[a] as int].last().1,
                ),
            k <= order@.len(),
            forall|a: int| 0 <= a < chosen@.len() ==> (#[trigger] chosen@[a]) < k,
            forall|a: int, b: int|
                0 <= a < chosen@.len() && 0 <= b < chosen@.len() && a != b ==> !divides_spec(
                    #[trigger] lead_of(nz[order@[chosen@[a] as int] as int]),
                    #[trigger] lead_of(nz[order@[chosen@[b] as int] as int]),
                ),
            forall|q: int| 0 <= q < k ==> exists|a: int|
                0 <= a < chosen@.len() && divides_spec(
                    #[trigger] lead_of(nz[order@[chosen@[a] as int] as int]),
                    lead_of(nz[#[trigger] order@[q] as int]),
                ),
        decreases order@.len() - k,
    {
        let index = order[k];
        proof {
            assert(nz[index as int] == nonzero@[index as int]@);
            assert(nz[index as int].len() > 0);
            assert(nonzero@[index as int]@.len() == nonzero@[index as int].terms@.len());
            assert(nz[index as int].last() == nonzero@[index as int].terms@[nonzero@[index as int].terms@.len() - 1]@);
        }
        let lead = &nonzero[index].terms[nonzero[index].terms.len() - 1].mono;
        let mut covered = false;
        let mut a: usize = 0;
        while a < chosen.len()
            invariant
                nz == poly_views(nonzero@),
                leads_ok(nz, nv),
                crate::cert::is_permutation(order@, nonzero@.len()),
                forall|c: int| 0 <= c < chosen@.len() ==> (#[trigger] chosen@[c]) < k,
                k < order@.len(),
                a <= chosen@.len(),
                lead@ == lead_of(nz[index as int]),
                index < nonzero@.len(),
                covered ==> exists|c: int|
                    0 <= c < chosen@.len() && divides_spec(#[trigger] lead_of(nz[order@[chosen@[c] as int] as int]), lead@),
                !covered ==> forall|c: int|
                    0 <= c < a ==> !divides_spec(#[trigger] lead_of(nz[order@[chosen@[c] as int] as int]), lead@),
            decreases chosen@.len() - a,
        {
            let cand = &nonzero[order[chosen[a]]];
            proof {
                let e = order@[chosen@[a as int] as int] as int;
                assert(nz[e] == cand@);
                assert(nz[e].len() > 0);
                assert(cand@.len() == cand.terms@.len());
                assert(cand@.last() == cand.terms@[cand.terms@.len() - 1]@);
            }
            if cand.terms[cand.terms.len() - 1].mono.divides(lead) {
                covered = true;
                proof {
                    assert(divides_spec(lead_of(nz[order@[chosen@[a as int] as int] as int]), lead@));
                }
            }
            a += 1;
        }
        let ghost before = chosen@;
        if !covered {
            proof {
                assert forall|c: int| 0 <= c < before.len() implies !divides_spec(
                    lead_of(nz[index as int]),
                    #[trigger] lead_of(nz[order@[before[c] as int] as int]),
                ) by {
                    let lc = lead_of(nz[order@[before[c] as int] as int]);
                    let li = lead_of(nz[index as int]);
                    assert(!grevlex_less(nz[order@[k as int] as int].last().1, nz[order@[before[c] as int] as int].last().1));
                    if divides_spec(li, lc) {
                        crate::monomial::lemma_divisor_not_greater(li, lc);
                        if lc != li {
                            lemma_grevlex_total(lc, li);
                        }
                        assert(divides_spec(lc, li));
                    }
                }
            }
            chosen.push(k);
            proof {
                assert(chosen@ == before.push(k));
                assert forall|x: int, y: int|
                    0 <= x < chosen@.len() && 0 <= y < chosen@.len() && x != y implies !divides_spec(
                    #[trigger] lead_of(nz[order@[chosen@[x] as int] as int]),
                    #[trigger] lead_of(nz[order@[chosen@[y] as int] as int]),
                ) by {
                    if x < before.len() && y < before.len() {
                        assert(chosen@[x] == before[x] && chosen@[y] == before[y]);
                    } else if x < before.len() {
                        assert(chosen@[x] == before[x]);
                        assert(chosen@[y] == k);
                    } else {
                        assert(chosen@[y] == before[y]);
                        assert(chosen@[x] == k);
                    }
                }
            }
        }
        proof {
            assert forall|q: int| 0 <= q < k + 1 implies exists|a: int|
                0 <= a < chosen@.len() && divides_spec(
                    #[trigger] lead_of(nz[order@[chosen@[a] as int] as int]),
                    lead_of(nz[#[trigger] order@[q] as int]),
                ) by {
                if q == k {
                    if !covered {
                        assert(chosen@[chosen@.len() - 1] == k);
                        assert(divides_spec(lead_of(nz[index as int]), lead_of(nz[index as int])));
                    } else {
                        let c = choose|c: int|
                            0 <= c < chosen@.len() && divides_spec(#[trigger] lead_of(nz[order@[chosen@[c] as int] as int]), lead@);
                    }
                } else {
                    let c = choose|c: int|
                        0 <= c < before.len() && divides_spec(
                            #[trigger] lead_of(nz[order@[before[c] as int] as int]),
                            lead_of(nz[order@[q] as int]),
                        );
                    assert(chosen@[c] == before[c]);
                }
            }
        }
        k += 1;
    }
    let mut out: Vec<Polynomial> = Vec::new();
    let mut out_origins: Vec<Origin> = Vec::new();
    let mut a: usize = 0;
    while a < chosen.len()
        invariant
            nz == poly_views(nonzero@),
            crate::cert::is_permutation(order@, nonzero@.len()),
            forall|c: int| 0 <= c < chosen@.len() ==> (#[trigger] chosen@[c]) < order@.len(),
            a <= chosen@.len(),
            out@.len() == a,
            with_origins ==> nonzero_origins@.len() == nonzero@.len(),
            with_origins ==> out_origins@.len() == a,
            forall|c: int| 0 <= c < a ==> #[trigger] copied_at(out@, out_origins@, nonzero@, nonzero_origins@, order@[chosen@[c] as int] as int, c, with_origins),
        decreases chosen@.len() - a,
    {
        let e = order[chosen[a]];
        let poly = nonzero[e].copy();
        let ghost before_out = out@;
        let ghost before_origins = out_origins@;
        let ghost pv = poly;
        out.push(poly);
        proof {
            assert(out@[a as int] == pv);
        }
        if with_origins {
            let entry = copy_list(nonzero_origins[e].as_slice());
            let ghost ev = entry;
            out_origins.push(entry);
            proof {
                assert(out_origins@[a as int] == ev);
            }
        }
        proof {
            assert forall|c: int| 0 <= c < a + 1 implies #[trigger] copied_at(out@, out_origins@, nonzero@, nonzero_origins@, order@[chosen@[c] as int] as int, c, with_origins) by {
                if c < a {
                    assert(copied_at(before_out, before_origins, nonzero@, nonzero_origins@, order@[chosen@[c] as int] as int, c, with_origins));
                    assert(out@[c] == before_out[c]);
                    if with_origins {
                        assert(out_origins@[c] == before_origins[c]);
                    }
                } else {
                    assert(c == a);
                    assert(order@[chosen@[c] as int] == e);
                    assert(out@[c]@ == nonzero@[e as int]@);
                    assert(out@[c].ring == nonzero@[e as int].ring);
                }
            }
        }
        a += 1;
    }
    proof {
        let ov = poly_views(out@);
        assert forall|x: int, y: int|
            0 <= x < ov.len() && 0 <= y < ov.len() && x != y implies !divides_spec(
            #[trigger] lead_of(ov[x]),
            #[trigger] lead_of(ov[y]),
        ) by {
            assert(copied_at(out@, out_origins@, nonzero@, nonzero_origins@, order@[chosen@[x] as int] as int, x, with_origins));
            assert(copied_at(out@, out_origins@, nonzero@, nonzero_origins@, order@[chosen@[y] as int] as int, y, with_origins));
            assert(ov[x] == nz[order@[chosen@[x] as int] as int]);
            assert(ov[y] == nz[order@[chosen@[y] as int] as int]);
        }
        assert forall|j: int|
            0 <= j < poly_views(basis@).len() && (#[trigger] poly_views(basis@)[j]).len() > 0 implies exists|c: int|
            0 <= c < ov.len() && divides_spec(#[trigger] lead_of(ov[c]), lead_of(poly_views(basis@)[j])) by {
            assert(basis@[j]@.len() > 0);
            let i = choose|i: int| 0 <= i < nonzero@.len() && source[i] == j;
            assert(nz[i] == basis@[j]@);
            assert(exists|q: int| 0 <= q < order@.len() && order@[q] == i) by {
                lemma_permutation_onto(order@, nonzero@.len(), i);
            }
            let q = choose|q: int| 0 <= q < order@.len() && order@[q] == i;
            let c = choose|c: int|
                0 <= c < chosen@.len() && divides_spec(
                    #[trigger] lead_of(nz[order@[chosen@[c] as int] as int]),
                    lead_of(nz[order@[q] as int]),
                );
            assert(copied_at(out@, out_origins@, nonzero@, nonzero_origins@, order@[chosen@[c] as int] as int, c, with_origins));
            assert(ov[c] == nz[order@[chosen@[c] as int] as int]);
        }
        assert forall|c: int| 0 <= c < out@.len() implies #[trigger] has_source(out@[c], out_origins@[c], basis@, origins@, with_origins) by {
            let i = order@[chosen@[c] as int] as int;
            assert(0 <= i < nonzero@.len());
            assert(copied_at(out@, out_origins@, nonzero@, nonzero_origins@, i, c, with_origins));
            assert(out@[c]@ == nonzero@[i]@);
            assert(basis@[source[i]]@.len() > 0);
            let j = source[i];
            assert(out@[c]@ == basis@[j]@ && out@[c].ring == basis@[j].ring);
            if with_origins {
                assert(copies(out_origins@[c]@, nonzero_origins@[i]@));
                assert(copies(nonzero_origins@[i]@, origins@[j]@));
            }
            assert(0 <= j < basis@.len());
            assert(basis@[j]@.len() > 0 && out@[c]@ == basis@[j]@ && out@[c].ring == basis@[j].ring && (with_origins
                ==> copies(out_origins@[c]@, origins@[j]@)));
        }
        assert(drawn_from(out@, out_origins@, basis@, origins@, with_origins));
        if basis@.len() > 0 {
            assert forall|c: int| 0 <= c < out@.len() implies (#[trigger] out@[c]).wf() && out@[c].ring == ring by {
                let i = order@[chosen@[c] as int] as int;
                assert(copied_at(out@, out_origins@, nonzero@, nonzero_origins@, i, c, with_origins));
                assert(basis@[source[i]].wf());
            }
        }
        assert forall|c: int| 0 <= c < out@.len() implies (#[trigger] out@[c])@.len() > 0 by {
            let i = order@[chosen@[c] as int] as int;
            assert(copied_at(out@, out_origins@, nonzero@, nonzero_origins@, i, c, with_origins));
            assert(nz[i].len() > 0);
        }
    }
    (out, out_origins)
}

/// Every element of `to` is nonzero and leads with the leading monomial of
/// a nonzero element of `from`.
pub open spec fn leads_drawn(to: Seq<Seq<TermView>>, from: Seq<Seq<TermView>>) -> bool {
    forall|k: int|
        0 <= k < to.len() ==> (#[trigger] to[k]).len() > 0 && exists|j: int|
            0 <= j < from.len() && from[j].len() > 0 && #[trigger] lead_of(from[j]) == lead_of(to[k])
}

/// Element `k` of `to` equals a nonzero element of `from`.
pub open spec fn drawn_at(to: Seq<Seq<TermView>>, from: Seq<Seq<TermView>>, k: int) -> bool {
    exists|j: int| 0 <= j < from.len() && from[j].len() > 0 && #[trigger] from[j] == to[k]
}

/// Every element of `to` equals a nonzero element of `from`.
pub open spec fn views_drawn(to: Seq<Seq<TermView>>, from: Seq<Seq<TermView>>) -> bool {
    forall|k: int| 0 <= k < to.len() ==> #[trigger] drawn_at(to, from, k)
}

/// Copies of nonzero elements are, as term lists, nonzero elements.
proof fn lemma_views_drawn(
    out: Seq<Polynomial>,
    out_origins: Seq<Origin>,
    from: Seq<Polynomial>,
    from_origins: Seq<Origin>,
    with_origins: bool,
)
    requires
        drawn_from(out, out_origins, from, from_origins, with_origins),
    ensures
        views_drawn(poly_views(out), poly_views(from)),
{
    let vo = poly_views(out);
    let vf = poly_views(from);
    assert forall|k: int| 0 <= k < vo.len() implies #[trigger] drawn_at(vo, vf, k) by {
        assert(has_source(out[k], out_origins[k], from, from_origins, with_origins));
        let j = choose|j: int|
            0 <= j < from.len() && from[j]@.len() > 0 && out[k]@ == (#[trigger] from[j])@ && out[k].ring == from[j].ring
                && (with_origins ==> copies(out_origins[k]@, from_origins[j]@));
        assert(vf[j] == from[j]@);
        assert(vo[k] == out[k]@);
        assert(vf[j] == vo[k]);
    }
}

/// Passing the leads from `input` through `mid` to `out`: `out` keeps
/// leads drawn from `input` that cover it, where `mid` did and `out` is
/// drawn from `mid` and covers it.
proof fn lemma_chain_leads(input: Seq<Seq<TermView>>, mid: Seq<Seq<TermView>>, out: Seq<Seq<TermView>>)
    requires
        leads_covered(input, mid),
        leads_drawn(mid, input),
        leads_covered(mid, out),
        views_drawn(out, mid),
    ensures
        leads_covered(input, out),
        leads_drawn(out, input),
{
    lemma_chain_covered(input, mid, out);
    lemma_chain_drawn(input, mid, out);
}

/// Coverage of leads passes through a middle list.
proof fn lemma_chain_covered(input: Seq<Seq<TermView>>, mid: Seq<Seq<TermView>>, out: Seq<Seq<TermView>>)
    requires
        leads_covered(input, mid),
        leads_drawn(mid, input),
        leads_covered(mid, out),
    ensures
        leads_covered(input, out),
{
    assert forall|j: int| 0 <= j < input.len() && (#[trigger] input[j]).len() > 0 implies exists|k: int|
        0 <= k < out.len() && divides_spec(#[trigger] lead_of(out[k]), lead_of(input[j])) by {
        let e = choose|e: int| 0 <= e < mid.len() && divides_spec(#[trigger] lead_of(mid[e]), lead_of(input[j]));
        assert(mid[e].len() > 0);
        let k = choose|k: int| 0 <= k < out.len() && divides_spec(#[trigger] lead_of(out[k]), lead_of(mid[e]));
        let a = lead_of(out[k]);
        let b = lead_of(mid[e]);
        let c = lead_of(input[j]);
        assert forall|x: int| 0 <= x < a.len() implies a[x] <= c[x] by {
            assert(a[x] <= b[x] && b[x] <= c[x]);
        }
        assert(divides_spec(a, c));
    }
}

/// Provenance of leads passes through a middle list.
proof fn lemma_chain_drawn(input: Seq<Seq<TermView>>, mid: Seq<Seq<TermView>>, out: Seq<Seq<TermView>>)
    requires
        leads_drawn(mid, input),
        views_drawn(out, mid),
    ensures
        leads_drawn(out, input),
{
    assert forall|k: int| 0 <= k < out.len() implies (#[trigger] out[k]).len() > 0 && exists|j: int|
        0 <= j < input.len() && input[j].len() > 0 && #[trigger] lead_of(input[j]) == lead_of(out[k]) by {
        assert(drawn_at(out, mid, k));
        let e = choose|e: int| 0 <= e < mid.len() && mid[e].len() > 0 && #[trigger] mid[e] == out[k];
        assert(lead_of(mid[e]) == lead_of(out[k]));
        let j = choose|j: int| 0 <= j < input.len() && input[j].len() > 0 && #[trigger] lead_of(input[j]) == lead_of(mid[e]);
        assert(lead_of(input[j]) == lead_of(out[k]));
    }
}

/// Leads that agree index by index pass coverage and provenance on.
proof fn lemma_same_leads(input: Seq<Seq<TermView>>, cs: Seq<Seq<TermView>>, ns: Seq<Seq<TermView>>)
    requires
        leads_covered(input, cs),
        leads_drawn(cs, input),
        ns.len() == cs.len(),
        forall|k: int| 0 <= k < ns.len() ==> (#[trigger] ns[k]).len() > 0,
        forall|k: int| 0 <= k < ns.len() ==> #[trigger] lead_of(ns[k]) == lead_of(cs[k]),
    ensures
        leads_covered(input, ns),
        leads_drawn(ns, input),
{
    assert forall|j: int| 0 <= j < input.len() && (#[trigger] input[j]).len() > 0 implies exists|k: int|
        0 <= k < ns.len() && divides_spec(#[trigger] lead_of(ns[k]), lead_of(input[j])) by {
        let k = choose|k: int| 0 <= k < cs.len() && divides_spec(#[trigger] lead_of(cs[k]), lead_of(input[j]));
        assert(lead_of(ns[k]) == lead_of(cs[k]));
    }
    assert forall|k: int| 0 <= k < ns.len() implies (#[trigger] ns[k]).len() > 0 && exists|j: int|
        0 <= j < input.len() && input[j].len() > 0 && #[trigger] lead_of(input[j]) == lead_of(ns[k]) by {
        assert(lead_of(ns[k]) == lead_of(cs[k]));
        assert(cs[k].len() > 0);
        let j = choose|j: int| 0 <= j < input.len() && input[j].len() > 0 && #[trigger] lead_of(input[j]) == lead_of(cs[k]);
    }
}

/// A permutation keeps coverage and provenance of leads.
proof fn lemma_permuted_leads(input: Seq<Seq<TermView>>, ms: Seq<Seq<TermView>>, order: Seq<usize>)
    requires
        leads_covered(input, ms),
        leads_drawn(ms, input),
        crate::cert::is_permutation(order, ms.len()),
    ensures
        leads_covered(input, crate::cert::permuted(ms, order)),
        leads_drawn(crate::cert::permuted(ms, order), input),
{
    let ps = crate::cert::permuted(ms, order);
    assert forall|j: int| 0 <= j < input.len() && (#[trigger] input[j]).len() > 0 implies exists|k: int|
        0 <= k < ps.len() && divides_spec(#[trigger] lead_of(ps[k]), lead_of(input[j])) by {
        let m = choose|m: int| 0 <= m < ms.len() && divides_spec(#[trigger] lead_of(ms[m]), lead_of(input[j]));
        lemma_permutation_onto(order, ms.len(), m);
        let q = choose|q: int| 0 <= q < order.len() && order[q] == m;
        assert(ps[q] == ms[m]);
    }
    assert forall|k: int| 0 <= k < ps.len() implies (#[trigger] ps[k]).len() > 0 && exists|j: int|
        0 <= j < input.len() && input[j].len() > 0 && #[trigger] lead_of(input[j]) == lead_of(ps[k]) by {
        assert(ps[k] == ms[order[k] as int]);
        let j = choose|j: int|
            0 <= j < input.len() && input[j].len() > 0 && #[trigger] lead_of(input[j]) == lead_of(ms[order[k] as int]);
    }
}

/// A permutation of `0..n` lists every index.
proof fn lemma_permutation_onto(order: Seq<usize>, n: nat, i: int)
    requires
        crate::cert::is_permutation(order, n),
        0 <= i < n,
    ensures
        exists|q: int| 0 <= q < order.len() && order[q] == i,
{
    let m = order.map_values(|x: usize| x as int);
    assert forall|a: int, b: int| 0 <= a < b < m.len() implies #[trigger] m[a] != #[trigger] m[b] by {
        assert(order[a] != order[b]);
    }
    assert forall|q: int| 0 <= q < m.len() implies 0 <= #[trigger] m[q] < n by {
        assert(order[q] < n);
    }
    lemma_distinct_fill(m, n as int, i);
    let q = choose|q: int| 0 <= q < m.len() && m[q] == i;
    assert(order[q] == i);
}

/// `n` distinct integers drawn from `0..n` take every value there.
proof fn lemma_distinct_fill(m: Seq<int>, n: int, i: int)
    requires
        0 <= i < n,
        m.len() == n,
        forall|q: int| 0 <= q < m.len() ==> 0 <= #[trigger] m[q] < n,
        forall|a: int, b: int| 0 <= a < b < m.len() ==> #[trigger] m[a] != #[trigger] m[b],
    ensures
        exists|q: int| 0 <= q < m.len() && m[q] == i,
{
    if !(exists|q: int| 0 <= q < m.len() && m[q] == i) {
        let s = m.to_set();
        assert(m.no_duplicates()) by {
            assert forall|a: int, b: int| 0 <= a < m.len() && 0 <= b < m.len() && a != b implies m[a] != m[b] by {
                if a < b {
                } else {
                    assert(m[b] != m[a]);
                }
            }
        }
        m.unique_seq_to_set();
        let r = vstd::set_lib::set_int_range(0, n).remove(i);
        assert forall|x: int| s.contains(x) implies r.contains(x) by {
            let q = choose|q: int| 0 <= q < m.len() && m[q] == x;
        }
        vstd::set_lib::lemma_int_range(0, n);
        vstd::set_lib::lemma_len_subset(s, r);
        assert(s.len() == n);
        assert(r.len() == n - 1);
    }
}


/// The list with element `target` replaced by zero.
pub open spec fn excluded(bs: Seq<Seq<TermView>>, target: int) -> Seq<Seq<TermView>> {
    bs.update(target, Seq::empty())
}

/// Every origin of the list holds `count` cofactors of `ring`.
pub open spec fn origins_ok(origins: Seq<Origin>, ring: PolynomialRing, count: nat) -> bool {
    forall|k: int| 0 <= k < origins.len() ==> all_in_ring((#[trigger] origins[k])@, ring) && origins[k]@.len() == count
}

/// Reduce `basis[target]` by every other element and carry its cofactors
/// through the same steps when `with_origins`.
///
/// The reducer of a leading term is the first other element whose leading
/// monomial divides it, and a term no element reduces moves to the
/// remainder.
fn normal_form_excluding(
    basis: &[Polynomial],
    origins: &[Origin],
    target: usize,
    with_origins: bool,
    Ghost(count): Ghost<nat>,
) -> (r: Result<(Polynomial, Origin), RunError>)
    requires
        target < basis@.len(),
        all_in_ring(basis@, basis@[0].ring),
        with_origins ==> origins@.len() == basis@.len() && origins_ok(origins@, basis@[0].ring, count),
    ensures
        r matches Ok((rem, cofactors)) ==> {
            &&& rem.wf() && rem.ring == basis@[0].ring
            &&& fully_reduced(rem@, excluded(poly_views(basis@), target as int), basis@[0].ring.nvars as nat)
            &&& exists|qs: Seq<Seq<TermView>>| #[trigger] division_identity(
                basis@[target as int]@,
                qs,
                excluded(poly_views(basis@), target as int),
                rem@,
                basis@[0].ring.modulus as int,
            ) && qs.len() == basis@.len()
            &&& with_origins ==> all_in_ring(cofactors@, basis@[0].ring) && cofactors@.len() == count
            &&& !with_origins ==> cofactors@.len() == 0
            &&& lead_irreducible(
                basis@[target as int]@,
                excluded(poly_views(basis@), target as int),
                basis@[0].ring.nvars as nat,
            ) ==> rem@.len() > 0 && rem@.last() == basis@[target as int]@.last()
        },
        r matches Err(e) ==> e == RunError::Compute(ComputeError::DegreeLimit { limit: DEGREE_LIMIT }),
        !with_origins && (basis@[target as int]@.len() == 0 || degree_of(basis@[target as int]@.last().1)
            <= u16::MAX) ==> r is Ok,
{
    let ring = basis[0].ring;
    let f = &basis[target];
    proof {
        assert(f.wf() && f.ring == ring);
    }
    let ghost ex = excluded(poly_views(basis@), target as int);
    let mut divisors: Vec<Polynomial> = Vec::new();
    let mut k: usize = 0;
    while k < basis.len()
        invariant
            all_in_ring(basis@, ring),
            ring.wf(),
            target < basis@.len(),
            ex == excluded(poly_views(basis@), target as int),
            k <= basis@.len(),
            divisors@.len() == k,
            forall|j: int| 0 <= j < k ==> (#[trigger] divisors@[j]).wf() && divisors@[j].ring == ring,
            forall|j: int| 0 <= j < k ==> (#[trigger] divisors@[j])@ == ex[j],
        decreases basis@.len() - k,
    {
        let ghost before = divisors@;
        if k == target {
            divisors.push(ring.zero());
            proof {
                assert(divisors@[k as int]@ =~= Seq::<TermView>::empty());
                assert(ex[k as int] == Seq::<TermView>::empty());
            }
        } else {
            divisors.push(basis[k].copy());
            proof {
                assert(ex[k as int] == poly_views(basis@)[k as int]);
                assert(poly_views(basis@)[k as int] == basis@[k as int]@);
            }
        }
        proof {
            assert forall|j: int| 0 <= j < k + 1 implies (#[trigger] divisors@[j])@ == ex[j] by {
                if j < k {
                    assert(divisors@[j] == before[j]);
                }
            }
        }
        k += 1;
    }
    proof {
        assert(poly_views(divisors@) =~= excluded(poly_views(basis@), target as int));
    }
    let (quotients, remainder) = match divide(f, divisors.as_slice(), ring.modulus, &Budget::unlimited(ring.nvars)) {
        Ok(pair) => pair,
        Err(_) => {
            return Err(RunError::Compute(ComputeError::DegreeLimit { limit: DEGREE_LIMIT }));
        },
    };
    proof {
        assert(poly_views(divisors@).len() == basis@.len());
        assert(poly_views(quotients@).len() == basis@.len());
        assert(division_identity(
            f@,
            poly_views(quotients@),
            excluded(poly_views(basis@), target as int),
            remainder@,
            ring.modulus as int,
        ));
    }
    let mut cofactors: Origin = Vec::new();
    if with_origins {
        cofactors = copy_list(origins[target].as_slice());
        proof {
            assert(all_in_ring(origins@[target as int]@, ring));
        }
        let mut j: usize = 0;
        while j < quotients.len()
            invariant
                ring.wf(),
                with_origins,
                j <= quotients@.len(),
                quotients@.len() == basis@.len(),
                origins@.len() == basis@.len(),
                origins_ok(origins@, ring, count),
                forall|i: int| 0 <= i < quotients@.len() ==> (#[trigger] quotients@[i]).wf() && quotients@[i].ring == ring,
                all_in_ring(cofactors@, ring),
                cofactors@.len() == count,
            decreases quotients@.len() - j,
        {
            let q = &quotients[j];
            let mut t: usize = 0;
            while t < q.terms.len()
                invariant
                    ring.wf(),
                    with_origins,
                    j < quotients@.len(),
                    *q == quotients@[j as int],
                    q.wf() && q.ring == ring,
                    origins@.len() == basis@.len(),
                    quotients@.len() == basis@.len(),
                    origins_ok(origins@, ring, count),
                    all_in_ring(cofactors@, ring),
                    cofactors@.len() == count,
                    t <= q@.len(),
                decreases q@.len() - t,
            {
                proof {
                    assert(q@[t as int] == q.terms@[t as int]@);
                    assert(0 < q@[t as int].0 < ring.modulus);
                    assert(q@[t as int].1.len() == ring.nvars);
                    assert(all_in_ring(origins@[j as int]@, ring));
                    if cofactors@.len() > 0 {
                        assert(cofactors@[0].ring == ring);
                    }
                }
                match origin::sub_scaled(&mut cofactors, &origins[j], q.terms[t].coeff, &q.terms[t].mono, ring.modulus) {
                    Ok(()) => {},
                    Err(_) => {
                        return Err(RunError::Compute(ComputeError::DegreeLimit { limit: DEGREE_LIMIT }));
                    },
                }
                proof {
                    if cofactors@.len() > 0 {
                        assert(all_in_ring(cofactors@, ring));
                    }
                }
                t += 1;
            }
            j += 1;
        }
    }
    Ok((remainder, cofactors))
}


/// The leading monomials strictly descend along the list.
pub open spec fn strictly_descending(bs: Seq<Seq<TermView>>) -> bool {
    forall|a: int, b: int| 0 <= a < b < bs.len() ==> grevlex_less(#[trigger] lead_of(bs[b]), #[trigger] lead_of(bs[a]))
}

/// Every element is nonzero with leading coefficient one.
pub open spec fn all_monic(bs: Seq<Seq<TermView>>) -> bool {
    forall|k: int| 0 <= k < bs.len() ==> (#[trigger] bs[k]).len() > 0 && bs[k].last().0 == 1
}

/// No term of an element is divisible by the leading monomial of another.
pub open spec fn inter_reduced(bs: Seq<Seq<TermView>>) -> bool {
    forall|a: int, b: int, i: int|
        0 <= a < bs.len() && 0 <= b < bs.len() && a != b && 0 <= i < bs[a].len() ==> !divides_spec(
            #[trigger] lead_of(bs[b]),
            #[trigger] bs[a][i].1,
        )
}

/// The list is interreduced: nonzero monic elements, strictly descending
/// by leading monomial, none with a term that the leading monomial of
/// another divides.
pub open spec fn is_interreduced(bs: Seq<Seq<TermView>>) -> bool {
    &&& all_monic(bs)
    &&& leads_independent(bs)
    &&& strictly_descending(bs)
    &&& inter_reduced(bs)
}

/// `r` is fully reduced against `bs` with some one element removed.
pub open spec fn reduced_but_one(r: Seq<TermView>, bs: Seq<Seq<TermView>>, nvars: nat) -> bool {
    exists|j: int| 0 <= j < bs.len() && #[trigger] fully_reduced(r, excluded(bs, j), nvars)
}

/// Every element of `nf` is fully reduced against `bs` with some one
/// element removed.
pub open spec fn reduced_against(nf: Seq<Seq<TermView>>, bs: Seq<Seq<TermView>>, nvars: nat) -> bool {
    forall|k: int| 0 <= k < nf.len() ==> #[trigger] reduced_but_one(nf[k], bs, nvars)
}

/// What can stop an interreduction: a stop the limits allow, the memory
/// limit when there is one, or an exponent past its width.
pub open spec fn interreduction_stop(limits: ComputeLimits, e: RunError) -> bool {
    ||| limits.stop_allowed(e)
    ||| e == RunError::Compute(ComputeError::MemoryLimitExceeded) && limits.memory is Some
    ||| e == RunError::Compute(ComputeError::DegreeLimit { limit: DEGREE_LIMIT })
}

/// Copies of ring elements are ring elements.
proof fn lemma_copies_in_ring(a: Seq<Polynomial>, b: Seq<Polynomial>, ring: PolynomialRing)
    requires
        copies(a, b),
        all_in_ring(b, ring),
    ensures
        all_in_ring(a, ring),
{
    assert forall|k: int| 0 <= k < a.len() implies (#[trigger] a[k]).wf() && a[k].ring == ring by {
        assert(b[k].wf());
    }
}

/// Nonzero ring elements have leading monomials of the ring's width.
proof fn lemma_leads_ok(s: Seq<Polynomial>, ring: PolynomialRing)
    requires
        all_in_ring(s, ring),
        all_monic(poly_views(s)),
    ensures
        leads_ok(poly_views(s), ring.nvars as nat),
{
    let bs = poly_views(s);
    assert forall|k: int| 0 <= k < bs.len() implies (#[trigger] bs[k]).len() > 0 && bs[k].last().1.len() == ring.nvars by {
        assert(bs[k] == s[k]@);
        assert(s[k].wf());
        assert(bs[k].last() == bs[k][bs[k].len() - 1]);
    }
}

/// The list sorted strictly descending by leading monomial, keeping the
/// given order among equal ones, with the origins moved alongside when
/// `with_origins`; and the order that sorts it.
fn sort_descending(basis: &[Polynomial], origins: &[Origin], with_origins: bool, Ghost(nvars): Ghost<nat>) -> (r: (
    Vec<Polynomial>,
    Vec<Origin>,
    Vec<usize>,
))
    requires
        leads_ok(poly_views(basis@), nvars),
        with_origins ==> origins@.len() == basis@.len(),
    ensures
        sorted_by(poly_views(basis@), r.2@),
        copies(r.0@, crate::cert::permuted(basis@, r.2@)),
        with_origins ==> r.1@.len() == r.0@.len() && forall|k: int|
            0 <= k < r.1@.len() ==> copies(#[trigger] r.1@[k]@, origins@[r.2@[k] as int]@),
{
    let order = sort_order(basis, Ghost(nvars));
    let mut out: Vec<Polynomial> = Vec::new();
    let mut out_origins: Vec<Origin> = Vec::new();
    let mut k: usize = 0;
    while k < order.len()
        invariant
            sorted_by(poly_views(basis@), order@),
            with_origins ==> origins@.len() == basis@.len(),
            k <= order@.len(),
            out@.len() == k,
            forall|j: int| 0 <= j < k ==> (#[trigger] out@[j])@ == basis@[order@[j] as int]@ && out@[j].ring
                == basis@[order@[j] as int].ring,
            with_origins ==> out_origins@.len() == k,
            with_origins ==> forall|j: int| 0 <= j < k ==> copies(#[trigger] out_origins@[j]@, origins@[order@[j] as int]@),
        decreases order@.len() - k,
    {
        let index = order[k];
        out.push(basis[index].copy());
        if with_origins {
            out_origins.push(copy_list(origins[index].as_slice()));
        }
        k += 1;
    }
    (out, out_origins, order)
}

/// `r` is a normal form of element `i` of `bs` over the other elements:
/// congruent to it modulo them, and fully reduced against them.
pub open spec fn normal_form_of(r: Seq<TermView>, bs: Seq<Seq<TermView>>, i: int, p: int, nvars: nat) -> bool {
    &&& fully_reduced(r, excluded(bs, i), nvars)
    &&& exists|qs: Seq<Seq<TermView>>| #[trigger] division_identity(bs[i], qs, excluded(bs, i), r, p) && qs.len() == bs.len()
}

/// The elements of `bs` below `upto` split in two: element `src[k]` has
/// the nonzero normal form `rems[k]`, whose monic form is `nf[k]`, in
/// increasing order of element; every other element has normal form zero.
pub open spec fn pass_through(
    nf: Seq<Seq<TermView>>,
    bs: Seq<Seq<TermView>>,
    p: int,
    nvars: nat,
    src: Seq<int>,
    rems: Seq<Seq<TermView>>,
    upto: int,
) -> bool {
    &&& upto <= bs.len()
    &&& src.len() == nf.len()
    &&& rems.len() == nf.len()
    &&& forall|a: int, b: int| 0 <= a < b < src.len() ==> #[trigger] src[a] < #[trigger] src[b]
    &&& forall|k: int|
        0 <= k < src.len() ==> 0 <= #[trigger] src[k] < upto && normal_form_of(rems[k], bs, src[k], p, nvars)
            && rems[k].len() > 0 && nf[k] == scaled_list(rems[k], field_inverse(rems[k].last().0, p), p)
    &&& forall|i: int| 0 <= i < upto && !#[trigger] src.contains(i) ==> normal_form_of(Seq::empty(), bs, i, p, nvars)
}

/// `nf` is one interreduction pass over `bs`: the monic forms of the
/// nonzero normal forms of its elements, each over the others, in order;
/// every element left out has normal form zero.
pub open spec fn pass_of(nf: Seq<Seq<TermView>>, bs: Seq<Seq<TermView>>, p: int, nvars: nat) -> bool {
    exists|src: Seq<int>, rems: Seq<Seq<TermView>>| #[trigger] pass_through(nf, bs, p, nvars, src, rems, bs.len() as int)
}

/// One interreduction pass keeps every element in the ideal its input
/// lies in.
proof fn lemma_pass_in_ideal(nf: Seq<Seq<TermView>>, bs: Seq<Seq<TermView>>, p: int, nvars: nat, gens: Seq<Seq<TermView>>)
    requires
        p > 0,
        pass_of(nf, bs, p, nvars),
        all_in_ideal(bs, gens, p),
    ensures
        all_in_ideal(nf, gens, p),
{
    let (src, rems) = choose|src: Seq<int>, rems: Seq<Seq<TermView>>| #[trigger] pass_through(nf, bs, p, nvars, src, rems, bs.len() as int);
    assert forall|k: int| 0 <= k < nf.len() implies #[trigger] in_ideal(nf[k], gens, p) by {
        let i = src[k];
        assert(0 <= i < bs.len() && normal_form_of(rems[k], bs, i, p, nvars));
        let ex = excluded(bs, i);
        let qs = choose|qs: Seq<Seq<TermView>>| #[trigger] division_identity(bs[i], qs, ex, rems[k], p) && qs.len() == bs.len();
        lemma_ideal_zero(gens, p);
        assert forall|j: int| 0 <= j < qs.len() implies #[trigger] in_ideal(ex[j], gens, p) by {
            if j != i {
                assert(ex[j] == bs[j]);
            } else {
                assert(ex[j] == Seq::<TermView>::empty());
            }
        }
        assert(in_ideal(bs[i], gens, p));
        lemma_ideal_division(bs[i], qs, ex, rems[k], gens, p);
        lemma_ideal_scaled(rems[k], field_inverse(rems[k].last().0, p), gens, p);
    }
}

/// A reordering of members of an ideal holds members only.
proof fn lemma_permuted_in_ideal(ms: Seq<Seq<TermView>>, order: Seq<usize>, gens: Seq<Seq<TermView>>, p: int)
    requires
        sorted_by(ms, order),
        all_in_ideal(ms, gens, p),
    ensures
        all_in_ideal(crate::cert::permuted(ms, order), gens, p),
{
    let ps = crate::cert::permuted(ms, order);
    assert forall|j: int| 0 <= j < ps.len() implies #[trigger] in_ideal(ps[j], gens, p) by {
        assert(order[j] < ms.len());
        assert(ps[j] == ms[order[j] as int]);
        assert(in_ideal(ms[order[j] as int], gens, p));
    }
}

/// Copies of members of an ideal are members.
proof fn lemma_drawn_in_ideal(
    out: Seq<Polynomial>,
    out_origins: Seq<Origin>,
    from: Seq<Polynomial>,
    from_origins: Seq<Origin>,
    with_origins: bool,
    gens: Seq<Seq<TermView>>,
    p: int,
)
    requires
        drawn_from(out, out_origins, from, from_origins, with_origins),
        all_in_ideal(poly_views(from), gens, p),
    ensures
        all_in_ideal(poly_views(out), gens, p),
{
    assert forall|k: int| 0 <= k < poly_views(out).len() implies #[trigger] in_ideal(poly_views(out)[k], gens, p) by {
        assert(has_source(out[k], out_origins[k], from, from_origins, with_origins));
        let j = choose|j: int|
            0 <= j < from.len() && from[j]@.len() > 0 && out[k]@ == (#[trigger] from[j])@ && out[k].ring == from[j].ring
                && (with_origins ==> copies(out_origins[k]@, from_origins[j]@));
        assert(poly_views(from)[j] == from[j]@);
        assert(in_ideal(poly_views(from)[j], gens, p));
    }
}

/// Reduce every element by the others, make each nonzero remainder monic,
/// and carry its cofactors along when `with_origins`.
fn reduce_pass(
    basis: &[Polynomial],
    origins: &[Origin],
    with_origins: bool,
    limits: &ComputeLimits,
    Ghost(count): Ghost<nat>,
) -> (r: Result<(Vec<Polynomial>, Vec<Origin>), RunError>)
    requires
        basis@.len() > 0,
        all_in_ring(basis@, basis@[0].ring),
        with_origins ==> origins@.len() == basis@.len() && origins_ok(origins@, basis@[0].ring, count),
    ensures
        r matches Ok((next, next_origins)) ==> {
            &&& all_in_ring(next@, basis@[0].ring)
            &&& all_monic(poly_views(next@))
            &&& reduced_against(poly_views(next@), poly_views(basis@), basis@[0].ring.nvars as nat)
            &&& pass_of(
                poly_views(next@),
                poly_views(basis@),
                basis@[0].ring.modulus as int,
                basis@[0].ring.nvars as nat,
            )
            &&& leads_independent(poly_views(basis@)) && all_monic(poly_views(basis@)) ==> next@.len() == basis@.len()
                && forall|k: int| 0 <= k < next@.len() ==> #[trigger] lead_of(poly_views(next@)[k]) == lead_of(
                poly_views(basis@)[k],
            )
            &&& with_origins ==> next_origins@.len() == next@.len() && origins_ok(
                next_origins@,
                basis@[0].ring,
                count,
            )
        },
        r matches Err(e) ==> interreduction_stop(*limits, e),
        r == Err::<(Vec<Polynomial>, Vec<Origin>), RunError>(RunError::Compute(ComputeError::DegreeLimit { limit: DEGREE_LIMIT }))
            ==> with_origins || !leads_fit(poly_views(basis@)),
{
    let ring = basis[0].ring;
    let ghost nv = ring.nvars as nat;
    let ghost pi = ring.modulus as int;
    let ghost bs = poly_views(basis@);
    let ghost mut src: Seq<int> = Seq::empty();
    let ghost mut rems: Seq<Seq<TermView>> = Seq::empty();
    let mut next: Vec<Polynomial> = Vec::new();
    let mut next_origins: Vec<Origin> = Vec::new();
    let mut i: usize = 0;
    while i < basis.len()
        invariant
            basis@.len() > 0,
            ring == basis@[0].ring,
            bs == poly_views(basis@),
            nv == ring.nvars,
            all_in_ring(basis@, ring),
            with_origins ==> origins@.len() == basis@.len() && origins_ok(origins@, ring, count),
            i <= basis@.len(),
            all_in_ring(next@, ring),
            all_monic(poly_views(next@)),
            reduced_against(poly_views(next@), bs, nv),
            pi == ring.modulus,
            pass_through(poly_views(next@), bs, pi, nv, src, rems, i as int),
            leads_independent(bs) && all_monic(bs) ==> next@.len() == i && forall|k: int|
                0 <= k < i ==> #[trigger] lead_of(poly_views(next@)[k]) == lead_of(bs[k]),
            with_origins ==> next_origins@.len() == next@.len() && origins_ok(next_origins@, ring, count),
        decreases basis@.len() - i,
    {
        proof {
            if leads_independent(bs) && all_monic(bs) {
                assert(bs[i as int] == basis@[i as int]@);
                assert forall|j: int|
                    0 <= j < excluded(bs, i as int).len() && (#[trigger] excluded(bs, i as int)[j]).len() > 0
                        && excluded(bs, i as int)[j].last().1.len() == nv implies !divides_spec(
                    excluded(bs, i as int)[j].last().1,
                    bs[i as int].last().1,
                ) by {
                    assert(j != i);
                    assert(excluded(bs, i as int)[j] == bs[j]);
                    assert(!divides_spec(lead_of(bs[j]), lead_of(bs[i as int])));
                }
                assert(lead_irreducible(bs[i as int], excluded(bs, i as int), nv));
            }
        }
        match check_limits(limits, basis, origins) {
            Ok(()) => {},
            Err(e) => {
                return Err(e);
            },
        }
        let (rem, mut cofactors) = match normal_form_excluding(basis, origins, i, with_origins, Ghost(count)) {
            Ok(pair) => pair,
            Err(e) => {
                proof {
                    assert(bs[i as int] == basis@[i as int]@);
                }
                return Err(e);
            },
        };
        if rem.terms.len() > 0 {
            let ghost before = next@;
            let ghost before_origins = next_origins@;
            proof {
                assert(rem@.len() == rem.terms@.len());
                if !with_origins {
                    assert(cofactors@.len() == 0);
                }
            }
            let monic = origin::make_monic(&rem, &mut cofactors, ring.modulus);
            proof {
                assert(reduced_but_one(monic@, bs, nv)) by {
                    assert(fully_reduced(rem@, excluded(bs, i as int), nv));
                    assert(fully_reduced(monic@, excluded(bs, i as int), nv));
                }
            }
            next.push(monic);
            proof {
                assert(poly_views(next@) =~= poly_views(before).push(monic@));
                let old_src = src;
                let old_rems = rems;
                src = src.push(i as int);
                rems = rems.push(rem@);
                assert(bs[i as int] == basis@[i as int]@);
                assert(normal_form_of(rem@, bs, i as int, pi, nv));
                assert forall|k: int| 0 <= k < src.len() implies 0 <= #[trigger] src[k] < i + 1 && normal_form_of(
                    rems[k],
                    bs,
                    src[k],
                    pi,
                    nv,
                ) && rems[k].len() > 0 && poly_views(next@)[k] == scaled_list(
                    rems[k],
                    field_inverse(rems[k].last().0, pi),
                    pi,
                ) by {
                    if k < old_src.len() {
                        assert(src[k] == old_src[k] && rems[k] == old_rems[k]);
                        assert(poly_views(next@)[k] == poly_views(before)[k]);
                    }
                }
                assert forall|j: int| 0 <= j < i + 1 && !#[trigger] src.contains(j) implies normal_form_of(
                    Seq::empty(),
                    bs,
                    j,
                    pi,
                    nv,
                ) by {
                    if j < i {
                        if old_src.contains(j) {
                            let k = choose|k: int| 0 <= k < old_src.len() && old_src[k] == j;
                            assert(src[k] == j);
                        }
                    } else {
                        assert(src[src.len() - 1] == i);
                    }
                }
                if leads_independent(bs) && all_monic(bs) {
                    assert forall|k: int| 0 <= k < i + 1 implies #[trigger] lead_of(poly_views(next@)[k]) == lead_of(
                        bs[k],
                    ) by {
                        if k < i {
                            assert(poly_views(next@)[k] == poly_views(before)[k]);
                        } else {
                            assert(poly_views(next@)[k] == monic@);
                            assert(rem@.last() == basis@[i as int]@.last());
                            assert(monic@.last() == monic@[monic@.len() - 1]);
                            assert(rem@.last() == rem@[rem@.len() - 1]);
                        }
                    }
                }
                assert forall|a: int, b: int| 0 <= a < b < src.len() implies #[trigger] src[a] < #[trigger] src[b] by {
                    if b < old_src.len() {
                        assert(src[a] == old_src[a] && src[b] == old_src[b]);
                    } else {
                        assert(src[a] == old_src[a]);
                    }
                }
                assert forall|k: int| 0 <= k < next@.len() implies (#[trigger] next@[k]).wf() && next@[k].ring == ring by {
                    if k < before.len() {
                        assert(next@[k] == before[k]);
                    }
                }
            }
            if with_origins {
                next_origins.push(cofactors);
                proof {
                    assert forall|k: int| 0 <= k < next_origins@.len() implies all_in_ring((#[trigger] next_origins@[k])@, ring)
                        && next_origins@[k]@.len() == count by {
                        if k < before_origins.len() {
                            assert(next_origins@[k] == before_origins[k]);
                        }
                    }
                }
            }
        } else {
            proof {
                assert(rem@ =~= Seq::<TermView>::empty());
                assert(bs[i as int] == basis@[i as int]@);
                assert(!(leads_independent(bs) && all_monic(bs)));
                assert(normal_form_of(rem@, bs, i as int, pi, nv));
                assert forall|j: int| 0 <= j < i + 1 && !#[trigger] src.contains(j) implies normal_form_of(
                    Seq::empty(),
                    bs,
                    j,
                    pi,
                    nv,
                ) by {}
            }
        }
        i += 1;
    }
    proof {
        assert(pass_through(poly_views(next@), bs, pi, nv, src, rems, bs.len() as int));
    }
    Ok((next, next_origins))
}


/// What `drawn_from` keeps: ring membership, monic elements, and origins
/// of `count` cofactors.
proof fn lemma_drawn_monic(
    out: Seq<Polynomial>,
    out_origins: Seq<Origin>,
    from: Seq<Polynomial>,
    from_origins: Seq<Origin>,
    with_origins: bool,
    ring: PolynomialRing,
    count: nat,
)
    requires
        drawn_from(out, out_origins, from, from_origins, with_origins),
        with_origins ==> out_origins.len() == out.len(),
        all_in_ring(from, ring),
        all_monic(poly_views(from)),
        with_origins ==> from_origins.len() == from.len() && origins_ok(from_origins, ring, count),
    ensures
        all_in_ring(out, ring),
        all_monic(poly_views(out)),
        with_origins ==> origins_ok(out_origins, ring, count),
{
    assert forall|k: int| 0 <= k < out.len() implies (#[trigger] out[k]).wf() && out[k].ring == ring
        && poly_views(out)[k].len() > 0 && poly_views(out)[k].last().0 == 1 && (with_origins ==> all_in_ring(
        out_origins[k]@,
        ring,
    ) && out_origins[k]@.len() == count) by {
        assert(has_source(out[k], out_origins[k], from, from_origins, with_origins));
        let j = choose|j: int|
            0 <= j < from.len() && from[j]@.len() > 0 && out[k]@ == (#[trigger] from[j])@ && out[k].ring == from[j].ring
                && (with_origins ==> copies(out_origins[k]@, from_origins[j]@));
        assert(from[j].wf());
        assert(poly_views(from)[j] == from[j]@);
        if with_origins {
            lemma_copies_in_ring(out_origins[k]@, from_origins[j]@, ring);
        }
    }
    assert forall|k: int| 0 <= k < poly_views(out).len() implies (#[trigger] poly_views(out)[k]).len() > 0
        && poly_views(out)[k].last().0 == 1 by {
        assert(poly_views(out)[k] == out[k]@);
    }
    if with_origins {
        assert forall|k: int| 0 <= k < out_origins.len() implies all_in_ring((#[trigger] out_origins[k])@, ring)
            && out_origins[k]@.len() == count by {
            assert(out[k].wf());
        }
    }
}

/// `drawn_from` keeps every element reduced against a list with one
/// element removed.
proof fn lemma_drawn_reduced(
    out: Seq<Polynomial>,
    out_origins: Seq<Origin>,
    from: Seq<Polynomial>,
    from_origins: Seq<Origin>,
    with_origins: bool,
    bs: Seq<Seq<TermView>>,
    nvars: nat,
)
    requires
        drawn_from(out, out_origins, from, from_origins, with_origins),
        reduced_against(poly_views(from), bs, nvars),
    ensures
        reduced_against(poly_views(out), bs, nvars),
{
    assert forall|k: int| 0 <= k < poly_views(out).len() implies #[trigger] reduced_but_one(poly_views(out)[k], bs, nvars) by {
        assert(has_source(out[k], out_origins[k], from, from_origins, with_origins));
        let j = choose|j: int|
            0 <= j < from.len() && from[j]@.len() > 0 && out[k]@ == (#[trigger] from[j])@ && out[k].ring == from[j].ring
                && (with_origins ==> copies(out_origins[k]@, from_origins[j]@));
        assert(reduced_but_one(poly_views(from)[j], bs, nvars));
    }
}

/// A permutation of a list of nonzero monic elements with independent
/// leading monomials keeps both.
proof fn lemma_permuted_independent(bs: Seq<Seq<TermView>>, order: Seq<usize>)
    requires
        crate::cert::is_permutation(order, bs.len()),
        all_monic(bs),
        leads_independent(bs),
    ensures
        all_monic(crate::cert::permuted(bs, order)),
        leads_independent(crate::cert::permuted(bs, order)),
{
    let ps = crate::cert::permuted(bs, order);
    assert forall|k: int| 0 <= k < ps.len() implies (#[trigger] ps[k]).len() > 0 && ps[k].last().0 == 1 by {
        assert(ps[k] == bs[order[k] as int]);
    }
    assert forall|a: int, b: int|
        0 <= a < ps.len() && 0 <= b < ps.len() && a != b implies !divides_spec(
        #[trigger] lead_of(ps[a]),
        #[trigger] lead_of(ps[b]),
    ) by {
        assert(ps[a] == bs[order[a] as int]);
        assert(ps[b] == bs[order[b] as int]);
        if a < b {
            assert(order[a] != order[b]);
        } else {
            assert(order[b] != order[a]);
        }
    }
}

/// One pass that keeps the leading monomials leaves an interreduced list.
///
/// Each element `s` of the result is reduced against the old list with
/// some element `j` removed, and its leading monomial is that of some old
/// element `c`. Were `c` another than `j`, the leading term of `s` would be
/// divisible by a leading monomial it is reduced against; so `s` leads with
/// the monomial of element `j`. Another element leading with that monomial
/// would share it with `s`, which independence rules out; so `s` is reduced
/// against the leading monomials of all the other elements of the result.
proof fn lemma_one_pass(bs: Seq<Seq<TermView>>, ms: Seq<Seq<TermView>>, on: Seq<usize>, nvars: nat)
    requires
        leads_ok(bs, nvars),
        all_monic(ms),
        leads_independent(ms),
        reduced_against(ms, bs, nvars),
        leads_drawn(ms, bs),
        sorted_by(ms, on),
    ensures
        is_interreduced(crate::cert::permuted(ms, on)),
{
    let ss = crate::cert::permuted(ms, on);
    lemma_permuted_independent(ms, on);
    assert forall|a: int, b: int| 0 <= a < b < ss.len() implies grevlex_less(
        #[trigger] lead_of(ss[b]),
        #[trigger] lead_of(ss[a]),
    ) by {
        assert(ss[a] == ms[on[a] as int]);
        assert(ss[b] == ms[on[b] as int]);
        assert(goes_before(ms, on[a] as int, on[b] as int));
        if lead_of(ss[a]) == lead_of(ss[b]) {
            assert(divides_spec(lead_of(ss[a]), lead_of(ss[b])));
        }
    }
    assert forall|a: int, b: int, i: int|
        0 <= a < ss.len() && 0 <= b < ss.len() && a != b && 0 <= i < ss[a].len() implies !divides_spec(
        #[trigger] lead_of(ss[b]),
        #[trigger] ss[a][i].1,
    ) by {
        let ea = on[a] as int;
        let eb = on[b] as int;
        assert(ss[a] == ms[ea]);
        assert(ss[b] == ms[eb]);
        if a < b {
            assert(on[a] != on[b]);
        } else {
            assert(on[b] != on[a]);
        }
        assert(reduced_but_one(ms[ea], bs, nvars));
        let j = choose|j: int| 0 <= j < bs.len() && #[trigger] fully_reduced(ms[ea], excluded(bs, j), nvars);
        let ex = excluded(bs, j);
        let cb = choose|c: int| 0 <= c < bs.len() && bs[c].len() > 0 && #[trigger] lead_of(bs[c]) == lead_of(ms[eb]);
        let ca = choose|c: int| 0 <= c < bs.len() && bs[c].len() > 0 && #[trigger] lead_of(bs[c]) == lead_of(ms[ea]);
        if divides_spec(lead_of(ss[b]), ss[a][i].1) {
            if cb != j {
                assert(ex[cb] == bs[cb]);
                assert(bs[cb].len() > 0 && bs[cb].last().1.len() == nvars);
                assert(!divides_spec(ex[cb].last().1, ms[ea][i].1));
                assert(false);
            } else {
                let last = ms[ea].len() - 1;
                if ca != j {
                    assert(ex[ca] == bs[ca]);
                    assert(bs[ca].len() > 0 && bs[ca].last().1.len() == nvars);
                    assert(ms[ea][last].1 == bs[ca].last().1);
                    assert(divides_spec(ex[ca].last().1, ms[ea][last].1));
                    assert(!divides_spec(ex[ca].last().1, ms[ea][last].1));
                    assert(false);
                } else {
                    assert(lead_of(ms[ea]) == lead_of(ms[eb]));
                    assert(divides_spec(lead_of(ms[ea]), lead_of(ms[eb])));
                    assert(false);
                }
            }
        }
    }
}

/// The leading monomials after one pass: the reduced list, cut and
/// sorted, is interreduced and keeps the coverage of the input.
proof fn lemma_pass_leads(
    input: Seq<Seq<TermView>>,
    bs: Seq<Seq<TermView>>,
    nx: Seq<Seq<TermView>>,
    ms: Seq<Seq<TermView>>,
    on: Seq<usize>,
    nvars: nat,
)
    requires
        leads_ok(bs, nvars),
        leads_covered(input, bs),
        leads_drawn(bs, input),
        nx.len() == bs.len(),
        forall|k: int| 0 <= k < nx.len() ==> (#[trigger] nx[k]).len() > 0,
        forall|k: int| 0 <= k < nx.len() ==> #[trigger] lead_of(nx[k]) == lead_of(bs[k]),
        leads_covered(nx, ms),
        views_drawn(ms, nx),
        all_monic(ms),
        leads_independent(ms),
        reduced_against(ms, bs, nvars),
        sorted_by(ms, on),
    ensures
        is_interreduced(crate::cert::permuted(ms, on)),
        leads_covered(input, crate::cert::permuted(ms, on)),
        leads_drawn(crate::cert::permuted(ms, on), input),
{
    lemma_same_leads(input, bs, nx);
    lemma_chain_leads(input, nx, ms);
    lemma_permuted_leads(input, ms, on);
    assert forall|k: int| 0 <= k < nx.len() implies (#[trigger] nx[k]).len() > 0 && exists|j: int|
        0 <= j < bs.len() && bs[j].len() > 0 && #[trigger] lead_of(bs[j]) == lead_of(nx[k]) by {
        assert(lead_of(bs[k]) == lead_of(nx[k]));
        assert(bs[k].len() > 0);
    }
    lemma_chain_drawn(bs, nx, ms);
    lemma_one_pass(bs, ms, on, nvars);
}

/// Interreduce `basis`, carrying the origins along when `with_origins`.
///
/// Zero elements go, every element is made monic, and the list is cut
/// to elements with independent leading monomials. Then one pass reduces
/// every element by the others, makes each nonzero remainder monic, cuts
/// the list again, and sorts it descending. Every remainder keeps the
/// leading monomial of the element it came from, so the pass leaves an
/// interreduced list: the fixpoint that further passes would hand back
/// unchanged.
#[verifier::rlimit(60)]
fn interreduce(
    ring: &PolynomialRing,
    basis: Vec<Polynomial>,
    origins: Vec<Origin>,
    with_origins: bool,
    limits: &ComputeLimits,
    Ghost(count): Ghost<nat>,
) -> (r: Result<(Vec<Polynomial>, Vec<Origin>), RunError>)
    requires
        ring.wf(),
        all_in_ring(basis@, *ring),
        with_origins ==> origins@.len() == basis@.len() && origins_ok(origins@, *ring, count),
    ensures
        r matches Ok((out, out_origins)) ==> {
            &&& all_in_ring(out@, *ring)
            &&& is_interreduced(poly_views(out@))
            &&& leads_covered(poly_views(basis@), poly_views(out@))
            &&& leads_drawn(poly_views(out@), poly_views(basis@))
            &&& all_in_ideal(poly_views(out@), poly_views(basis@), ring.modulus as int)
            &&& with_origins ==> out_origins@.len() == out@.len() && origins_ok(out_origins@, *ring, count)
        },
        r matches Err(e) ==> interreduction_stop(*limits, e),
        r == Err::<(Vec<Polynomial>, Vec<Origin>), RunError>(RunError::Compute(ComputeError::DegreeLimit { limit: DEGREE_LIMIT }))
            ==> with_origins || !leads_fit(poly_views(basis@)),
        limits.is_open() && limits.memory is None && !with_origins && leads_fit(poly_views(basis@)) ==> r is Ok,
{
    let p = ring.modulus;
    let ghost nv = ring.nvars as nat;
    let ghost input = poly_views(basis@);
    let mut kept: Vec<Polynomial> = Vec::new();
    let mut kept_origins: Vec<Origin> = Vec::new();
    let mut k: usize = 0;
    while k < basis.len()
        invariant
            ring.wf(),
            p == ring.modulus,
            all_in_ring(basis@, *ring),
            with_origins ==> origins@.len() == basis@.len() && origins_ok(origins@, *ring, count),
            k <= basis@.len(),
            all_in_ring(kept@, *ring),
            all_monic(poly_views(kept@)),
            input == poly_views(basis@),
            leads_drawn(poly_views(kept@), input),
            forall|j: int|
                0 <= j < k && (#[trigger] input[j]).len() > 0 ==> exists|e: int|
                    0 <= e < poly_views(kept@).len() && lead_of(poly_views(kept@)[e]) == lead_of(input[j]),
            with_origins ==> kept_origins@.len() == kept@.len() && origins_ok(kept_origins@, *ring, count),
            all_in_ideal(poly_views(kept@), input, p as int),
        decreases basis@.len() - k,
    {
        if basis[k].terms.len() > 0 {
            let mut cofactors: Origin = if with_origins {
                copy_list(origins[k].as_slice())
            } else {
                Vec::new()
            };
            proof {
                if with_origins {
                    assert(all_in_ring(origins@[k as int]@, *ring));
                    lemma_copies_in_ring(cofactors@, origins@[k as int]@, *ring);
                }
                assert(basis@[k as int].wf());
                assert(basis@[k as int]@.len() == basis@[k as int].terms@.len());
            }
            let monic = origin::make_monic(&basis[k], &mut cofactors, p);
            let ghost before = kept@;
            proof {
                let bk = input[k as int];
                assert(bk == basis@[k as int]@);
                assert(crate::product::terms_len(bk, ring.nvars as nat)) by {
                    assert forall|i: int| 0 <= i < bk.len() implies (#[trigger] bk[i]).1.len() == ring.nvars by {
                        assert(crate::poly::terms_in_ring(bk, p as int, ring.nvars as nat));
                        assert(0 < bk[i].0);
                    }
                }
                lemma_ideal_generator(input, k as int, ring.nvars as nat, p as int);
                lemma_ideal_monic(input, bk, monic@, p as int);
            }
            let ghost before_origins = kept_origins@;
            kept.push(monic);
            proof {
                assert forall|j: int| 0 <= j < poly_views(kept@).len() implies #[trigger] in_ideal(
                    poly_views(kept@)[j],
                    input,
                    p as int,
                ) by {
                    if j < before.len() {
                        assert(poly_views(kept@)[j] == poly_views(before)[j]);
                    } else {
                        assert(poly_views(kept@)[j] == monic@);
                    }
                }
                assert(poly_views(kept@) =~= poly_views(before).push(monic@));
                let kv = poly_views(kept@);
                let bv = poly_views(before);
                assert(input[k as int] == basis@[k as int]@);
                assert(lead_of(monic@) == lead_of(input[k as int])) by {
                    assert(monic@.last() == monic@[monic@.len() - 1]);
                    assert(input[k as int].last() == input[k as int][input[k as int].len() - 1]);
                }
                assert forall|e: int| 0 <= e < kv.len() implies (#[trigger] kv[e]).len() > 0 && exists|j: int|
                    0 <= j < input.len() && input[j].len() > 0 && #[trigger] lead_of(input[j]) == lead_of(kv[e]) by {
                    if e < bv.len() {
                        assert(kv[e] == bv[e]);
                    } else {
                        assert(kv[e] == monic@);
                        assert(lead_of(input[k as int]) == lead_of(kv[e]));
                    }
                }
                assert forall|j: int| 0 <= j < k + 1 && (#[trigger] input[j]).len() > 0 implies exists|e: int|
                    0 <= e < kv.len() && lead_of(kv[e]) == lead_of(input[j]) by {
                    if j < k {
                        let e = choose|e: int| 0 <= e < bv.len() && lead_of(bv[e]) == lead_of(input[j]);
                        assert(kv[e] == bv[e]);
                    } else {
                        assert(kv[bv.len() as int] == monic@);
                    }
                }
                assert forall|j: int| 0 <= j < kept@.len() implies (#[trigger] kept@[j]).wf() && kept@[j].ring == *ring by {
                    if j < before.len() {
                        assert(kept@[j] == before[j]);
                    }
                }
            }
            if with_origins {
                kept_origins.push(cofactors);
                proof {
                    assert forall|j: int| 0 <= j < kept_origins@.len() implies all_in_ring((#[trigger] kept_origins@[j])@, *ring)
                        && kept_origins@[j]@.len() == count by {
                        if j < before_origins.len() {
                            assert(kept_origins@[j] == before_origins[j]);
                        }
                    }
                }
            }
        } else {
            proof {
                assert(input[k as int] == basis@[k as int]@);
                assert(input[k as int].len() == 0);
            }
        }
        k += 1;
    }
    let (current, current_origins) = minimalize(kept.as_slice(), kept_origins.as_slice(), with_origins);
    proof {
        lemma_drawn_in_ideal(current@, current_origins@, kept@, kept_origins@, with_origins, input, p as int);
        lemma_drawn_monic(current@, current_origins@, kept@, kept_origins@, with_origins, *ring, count);
        let kv = poly_views(kept@);
        assert forall|j: int| 0 <= j < input.len() && (#[trigger] input[j]).len() > 0 implies exists|e: int|
            0 <= e < kv.len() && divides_spec(#[trigger] lead_of(kv[e]), lead_of(input[j])) by {
            let e = choose|e: int| 0 <= e < kv.len() && lead_of(kv[e]) == lead_of(input[j]);
            assert(divides_spec(lead_of(kv[e]), lead_of(input[j])));
        }
        lemma_views_drawn(current@, current_origins@, kept@, kept_origins@, with_origins);
        lemma_chain_leads(input, kv, poly_views(current@));
    }
    reduce_once(ring, current, current_origins, with_origins, limits, Ghost(count), Ghost(input))
}


/// Check the limits, then reduce every element of an independent monic
/// list by the others once, cut and sort the result.
#[verifier::rlimit(40)]
fn reduce_once(
    ring: &PolynomialRing,
    current: Vec<Polynomial>,
    current_origins: Vec<Origin>,
    with_origins: bool,
    limits: &ComputeLimits,
    Ghost(count): Ghost<nat>,
    Ghost(input): Ghost<Seq<Seq<TermView>>>,
) -> (r: Result<(Vec<Polynomial>, Vec<Origin>), RunError>)
    requires
        ring.wf(),
        all_in_ring(current@, *ring),
        all_monic(poly_views(current@)),
        leads_independent(poly_views(current@)),
        leads_covered(input, poly_views(current@)),
        leads_drawn(poly_views(current@), input),
        with_origins ==> current_origins@.len() == current@.len() && origins_ok(current_origins@, *ring, count),
        all_in_ideal(poly_views(current@), input, ring.modulus as int),
    ensures
        r matches Ok((out, out_origins)) ==> {
            &&& all_in_ring(out@, *ring)
            &&& is_interreduced(poly_views(out@))
            &&& leads_covered(input, poly_views(out@))
            &&& leads_drawn(poly_views(out@), input)
            &&& all_in_ideal(poly_views(out@), input, ring.modulus as int)
            &&& with_origins ==> out_origins@.len() == out@.len() && origins_ok(out_origins@, *ring, count)
        },
        r matches Err(e) ==> interreduction_stop(*limits, e),
        r == Err::<(Vec<Polynomial>, Vec<Origin>), RunError>(RunError::Compute(ComputeError::DegreeLimit { limit: DEGREE_LIMIT }))
            ==> with_origins || !leads_fit(input),
{
    let ghost nv = ring.nvars as nat;
    match check_limits(limits, current.as_slice(), current_origins.as_slice()) {
        Ok(()) => {},
        Err(e) => {
            return Err(e);
        },
    }
    if current.len() == 0 {
        proof {
            assert(poly_views(current@).len() == 0);
        }
        return Ok((current, current_origins));
    }
    proof {
        lemma_leads_ok(current@, *ring);
        if leads_fit(input) {
            lemma_fit_drawn(poly_views(current@), input);
        }
    }
    let (next, next_origins) = match reduce_pass(
        current.as_slice(),
        current_origins.as_slice(),
        with_origins,
        limits,
        Ghost(count),
    ) {
        Ok(pair) => pair,
        Err(e) => {
            return Err(e);
        },
    };
    let ghost bs = poly_views(current@);
    proof {
        assert(current@[0].ring == *ring);
        lemma_pass_in_ideal(poly_views(next@), bs, ring.modulus as int, nv, input);
    }
    let (minimal, minimal_origins) = minimalize(next.as_slice(), next_origins.as_slice(), with_origins);
    proof {
        lemma_drawn_in_ideal(minimal@, minimal_origins@, next@, next_origins@, with_origins, input, ring.modulus as int);
        lemma_drawn_monic(minimal@, minimal_origins@, next@, next_origins@, with_origins, *ring, count);
        lemma_drawn_reduced(minimal@, minimal_origins@, next@, next_origins@, with_origins, bs, nv);
        lemma_leads_ok(minimal@, *ring);
    }
    let (sorted_next, sorted_next_origins, order_next) = sort_descending(
        minimal.as_slice(),
        minimal_origins.as_slice(),
        with_origins,
        Ghost(nv),
    );
    let ghost ms = poly_views(minimal@);
    proof {
        assert(poly_views(sorted_next@) =~= crate::cert::permuted(ms, order_next@)) by {
            assert forall|j: int| 0 <= j < sorted_next@.len() implies #[trigger] poly_views(sorted_next@)[j]
                == crate::cert::permuted(ms, order_next@)[j] by {
                assert(sorted_next@[j]@ == crate::cert::permuted(minimal@, order_next@)[j]@);
            }
        }
        assert forall|k: int| 0 <= k < poly_views(next@).len() implies (#[trigger] poly_views(next@)[k]).len() > 0 by {}
        lemma_views_drawn(minimal@, minimal_origins@, next@, next_origins@, with_origins);
        lemma_pass_leads(input, bs, poly_views(next@), ms, order_next@, nv);
        lemma_permuted_in_ideal(ms, order_next@, input, ring.modulus as int);
        assert(all_in_ring(crate::cert::permuted(minimal@, order_next@), *ring)) by {
            assert forall|j: int| 0 <= j < order_next@.len() implies (#[trigger] crate::cert::permuted(
                minimal@,
                order_next@,
            )[j]).wf() && crate::cert::permuted(minimal@, order_next@)[j].ring == *ring by {
                assert(crate::cert::permuted(minimal@, order_next@)[j] == minimal@[order_next@[j] as int]);
            }
        }
        lemma_copies_in_ring(sorted_next@, crate::cert::permuted(minimal@, order_next@), *ring);
        if with_origins {
            assert forall|j: int| 0 <= j < sorted_next_origins@.len() implies all_in_ring(
                (#[trigger] sorted_next_origins@[j])@,
                *ring,
            ) && sorted_next_origins@[j]@.len() == count by {
                lemma_copies_in_ring(sorted_next_origins@[j]@, minimal_origins@[order_next@[j] as int]@, *ring);
            }
        }
    }
    Ok((sorted_next, sorted_next_origins))
}


/// Interreduce a Gröbner basis to the reduced basis, with no budget.
///
/// The input must already be a Gröbner basis: this interreduces, it does
/// not complete. With no budget only a leading monomial whose total
/// degree passes `u16::MAX` stops it.
pub fn reduced_groebner_basis(ring: &PolynomialRing, basis: Vec<Polynomial>) -> (r: Result<Vec<Polynomial>, RunError>)
    requires
        ring.wf(),
        all_in_ring(basis@, *ring),
    ensures
        r matches Ok(out) ==> all_in_ring(out@, *ring) && is_interreduced(poly_views(out@)) && leads_covered(
            poly_views(basis@),
            poly_views(out@),
        ) && leads_drawn(poly_views(out@), poly_views(basis@)),
        r matches Ok(out) ==> all_in_ideal(poly_views(out@), poly_views(basis@), ring.modulus as int),
        r matches Err(e) ==> e == RunError::Compute(ComputeError::DegreeLimit { limit: DEGREE_LIMIT }) && !leads_fit(
            poly_views(basis@),
        ),
        leads_fit(poly_views(basis@)) ==> r is Ok,
{
    reduced_groebner_basis_checked(ring, basis, &ComputeLimits::none())
}

/// Interreduce under a deadline and a memory cap.
///
/// Reports [`ComputeError::Timeout`] or
/// [`ComputeError::MemoryLimitExceeded`] when a budget runs out here rather
/// than in the pair loop.
pub fn reduced_groebner_basis_checked(
    ring: &PolynomialRing,
    basis: Vec<Polynomial>,
    limits: &ComputeLimits,
) -> (r: Result<Vec<Polynomial>, RunError>)
    requires
        ring.wf(),
        all_in_ring(basis@, *ring),
    ensures
        r matches Ok(out) ==> all_in_ring(out@, *ring) && is_interreduced(poly_views(out@)) && leads_covered(
            poly_views(basis@),
            poly_views(out@),
        ) && leads_drawn(poly_views(out@), poly_views(basis@)),
        r matches Ok(out) ==> all_in_ideal(poly_views(out@), poly_views(basis@), ring.modulus as int),
        r matches Err(e) ==> interreduction_stop(*limits, e),
        r == Err::<Vec<Polynomial>, RunError>(RunError::Compute(ComputeError::DegreeLimit { limit: DEGREE_LIMIT }))
            ==> !leads_fit(poly_views(basis@)),
        limits.is_open() && limits.memory is None && leads_fit(poly_views(basis@)) ==> r is Ok,
{
    match interreduce(ring, basis, Vec::new(), false, limits, Ghost(0)) {
        Ok((out, _)) => Ok(out),
        Err(e) => Err(e),
    }
}

/// Interreduce and carry the origin cofactors through every step.
///
/// `basis` and `origins` line up: `origins[j]` names the combination of
/// `input` that gives `basis[j]`, one cofactor per input polynomial. The
/// result lines up the same way. This takes the steps of
/// [`reduced_groebner_basis_checked`] one for one.
pub fn reduced_groebner_basis_tracked(
    ring: &PolynomialRing,
    basis: Vec<Polynomial>,
    origins: Vec<Origin>,
    input: &[Polynomial],
    limits: &ComputeLimits,
) -> (r: Result<(Vec<Polynomial>, Vec<Origin>), RunError>)
    requires
        ring.wf(),
        all_in_ring(basis@, *ring),
        origins@.len() == basis@.len(),
        origins_ok(origins@, *ring, input@.len()),
    ensures
        r matches Ok((out, out_origins)) ==> {
            &&& all_in_ring(out@, *ring)
            &&& is_interreduced(poly_views(out@))
            &&& leads_covered(poly_views(basis@), poly_views(out@))
            &&& leads_drawn(poly_views(out@), poly_views(basis@))
            &&& all_in_ideal(poly_views(out@), poly_views(basis@), ring.modulus as int)
            &&& out_origins@.len() == out@.len()
            &&& origins_ok(out_origins@, *ring, input@.len())
        },
        r matches Err(e) ==> interreduction_stop(*limits, e),
        limits.is_open() && limits.memory is None ==> r is Ok || r == Err::<(Vec<Polynomial>, Vec<Origin>), RunError>(
            RunError::Compute(ComputeError::DegreeLimit { limit: DEGREE_LIMIT }),
        ),
{
    interreduce(ring, basis, origins, true, limits, Ghost(input@.len()))
}


/// The S-polynomial of `f` and `g` has a canonical form `s` that is
/// `sum_j q_j * g_j` over `gs` modulo `p`, with every `q_j * lm(g_j)` at
/// or below the leading monomial of `s`: a standard representation.
pub open spec fn spoly_reduces(f: Seq<TermView>, g: Seq<TermView>, gs: Seq<Seq<TermView>>, p: int, nvars: nat) -> bool {
    exists|s: Seq<TermView>, qs: Seq<Seq<TermView>>|
        #[trigger] division_identity(s, qs, gs, Seq::empty(), p) && crate::poly::terms_wf(s, p, nvars) && (forall|
            m: Seq<u16>,
        | #[trigger] crate::poly::coeff_at(s, m) == crate::poly::coeff_at(crate::exact::spoly_view(f, g, p), m) % p) && (
        s.len() > 0 ==> crate::cert::divide::quotients_bounded(qs, gs, s.last().1))
}

/// Every S-polynomial of two nonzero elements has a standard
/// representation over the list.
pub open spec fn all_pairs_reduce(bs: Seq<Seq<TermView>>, p: int, nvars: nat) -> bool {
    forall|i: int, j: int|
        0 <= i < j < bs.len() && bs[i].len() > 0 && bs[j].len() > 0 ==> #[trigger] spoly_reduces(bs[i], bs[j], bs, p, nvars)
}

/// Some S-polynomial of two nonzero elements leaves a nonzero remainder
/// that no leading monomial of the list divides.
pub open spec fn some_pair_remains(bs: Seq<Seq<TermView>>, p: int, nvars: nat) -> bool {
    exists|i: int, j: int|
        0 <= i < j < bs.len() && bs[i].len() > 0 && bs[j].len() > 0 && #[trigger] crate::cert::represent::has_remainder_mod(
            crate::exact::spoly_view(bs[i], bs[j], p),
            bs,
            p,
            nvars,
        )
}

/// Every nonzero element leads with a monomial of total degree at most
/// `u16::MAX`.
pub open spec fn leads_fit(bs: Seq<Seq<TermView>>) -> bool {
    forall|k: int| 0 <= k < bs.len() && (#[trigger] bs[k]).len() > 0 ==> degree_of(bs[k].last().1) <= u16::MAX
}

/// Leading monomials drawn from a list whose leading monomials fit fit too.
proof fn lemma_fit_drawn(to: Seq<Seq<TermView>>, from: Seq<Seq<TermView>>)
    requires
        leads_drawn(to, from),
        leads_fit(from),
    ensures
        leads_fit(to),
{
    assert forall|k: int| 0 <= k < to.len() && (#[trigger] to[k]).len() > 0 implies degree_of(to[k].last().1)
        <= u16::MAX by {
        let j = choose|j: int| 0 <= j < from.len() && from[j].len() > 0 && #[trigger] lead_of(from[j]) == lead_of(to[k]);
        assert(degree_of(from[j].last().1) <= u16::MAX);
    }
}

/// The S-polynomial of `f` and `g` can be formed: both shifted lists fit
/// the width of one exponent.
pub open spec fn spoly_formable(f: Seq<TermView>, g: Seq<TermView>) -> bool {
    &&& crate::exact::scale_fits(f, crate::exact::cofactor_of(f.last().1, g.last().1))
    &&& crate::exact::scale_fits(g, crate::exact::cofactor_of(g.last().1, f.last().1))
}

/// The S-polynomial of `f` and `g` is zero modulo `p`.
pub open spec fn spoly_vanishes(f: Seq<TermView>, g: Seq<TermView>, p: int) -> bool {
    forall|m: Seq<u16>| #[trigger] crate::poly::coeff_at(crate::exact::spoly_view(f, g, p), m) % p == 0
}

/// The S-polynomial of `f` and `g` can be formed and vanishes, so its
/// check needs no division.
pub open spec fn pair_settled(f: Seq<TermView>, g: Seq<TermView>, p: int) -> bool {
    spoly_formable(f, g) && spoly_vanishes(f, g, p)
}

/// Some pair of nonzero elements has an S-polynomial that cannot be formed
/// or does not vanish, so its check needs a division.
pub open spec fn some_pair_unsettled(bs: Seq<Seq<TermView>>, p: int) -> bool {
    exists|a: int, b: int|
        0 <= a < b < bs.len() && bs[a].len() > 0 && bs[b].len() > 0 && !#[trigger] pair_settled(bs[a], bs[b], p)
}

/// Report whether every S-polynomial of the basis reduces to zero over it.
///
/// `Some(true)`: every S-polynomial of two nonzero elements has a standard
/// representation over the basis, which is Buchberger's criterion for a
/// Gröbner basis. `Some(false)`: one leaves a nonzero reduced remainder.
/// `None`: a product passed the width of one exponent or a size passed the
/// address space, and the check could not finish.
pub fn is_groebner_basis(basis: &[Polynomial], ring: &PolynomialRing) -> (r: Option<bool>)
    requires
        ring.wf(),
        all_in_ring(basis@, *ring),
    ensures
        r == Some(true) ==> all_pairs_reduce(poly_views(basis@), ring.modulus as int, ring.nvars as nat),
        r == Some(false) ==> some_pair_remains(poly_views(basis@), ring.modulus as int, ring.nvars as nat),
        r is None ==> some_pair_unsettled(poly_views(basis@), ring.modulus as int),
{
    let ghost bs = poly_views(basis@);
    let ghost pi = ring.modulus as int;
    let ghost nv = ring.nvars as nat;
    let mut i: usize = 0;
    while i < basis.len()
        invariant
            ring.wf(),
            all_in_ring(basis@, *ring),
            bs == poly_views(basis@),
            pi == ring.modulus,
            nv == ring.nvars,
            i <= basis@.len(),
            forall|a: int, b: int|
                0 <= a < i && a < b < bs.len() && bs[a].len() > 0 && bs[b].len() > 0 ==> #[trigger] spoly_reduces(
                    bs[a],
                    bs[b],
                    bs,
                    pi,
                    nv,
                ),
        decreases basis@.len() - i,
    {
        let mut j: usize = i + 1;
        while j < basis.len()
            invariant
                ring.wf(),
                all_in_ring(basis@, *ring),
                bs == poly_views(basis@),
                pi == ring.modulus,
                nv == ring.nvars,
                i < basis@.len(),
                i < j <= basis@.len(),
                forall|a: int, b: int|
                    0 <= a < i && a < b < bs.len() && bs[a].len() > 0 && bs[b].len() > 0 ==> #[trigger] spoly_reduces(
                        bs[a],
                        bs[b],
                        bs,
                        pi,
                        nv,
                    ),
                forall|b: int|
                    i < b < j && bs[i as int].len() > 0 && bs[b].len() > 0 ==> #[trigger] spoly_reduces(
                        bs[i as int],
                        bs[b],
                        bs,
                        pi,
                        nv,
                    ),
            decreases basis@.len() - j,
        {
            let f = &basis[i];
            let g = &basis[j];
            proof {
                assert(bs[i as int] == f@ && bs[j as int] == g@);
                assert(f.wf() && g.wf() && f.ring == *ring && g.ring == *ring);
            }
            if f.terms.len() > 0 && g.terms.len() > 0 {
                let s = match f.s_polynomial(g) {
                    Ok(s) => s,
                    Err(_) => {
                        proof {
                            assert(!pair_settled(bs[i as int], bs[j as int], pi));
                        }
                        return None;
                    },
                };
                if s.terms.len() == 0 {
                    proof {
                        let qs = Seq::new(bs.len(), |k: int| Seq::<TermView>::empty());
                        assert(s@ =~= Seq::<TermView>::empty());
                        assert forall|k: int| 0 <= k < qs.len() implies (#[trigger] qs[k]).len() == 0 by {}
                        assert forall|m: Seq<u16>| #[trigger] crate::poly::coeff_at(s@, m) == (combo_coeff(qs, bs, pi, m)
                            + crate::poly::coeff_at(Seq::<TermView>::empty(), m)) % pi by {
                            lemma_combo_empty(qs, bs, pi, m);
                            assert(crate::poly::coeff_at(Seq::<TermView>::empty(), m) == 0);
                            assert(crate::poly::coeff_at(s@, m) == 0);
                            vstd::arithmetic::div_mod::lemma_small_mod(0, pi as nat);
                        }
                        assert(division_identity(s@, qs, bs, Seq::empty(), pi));
                        assert(spoly_reduces(bs[i as int], bs[j as int], bs, pi, nv));
                    }
                } else {
                    let (quotients, remainder) = match divide(&s, basis, ring.modulus, &Budget::unlimited(ring.nvars)) {
                        Ok(pair) => pair,
                        Err(_) => {
                            proof {
                                let m = s@.last().1;
                                assert(s@.last() == s@[s@.len() - 1]);
                                crate::poly::lemma_coeff_at_sorted(s@, m);
                                assert(crate::poly::coeff_at(s@, m) == s@[s@.len() - 1].0);
                                assert(0 < s@[s@.len() - 1].0 < pi);
                                vstd::arithmetic::div_mod::lemma_small_mod(
                                    crate::poly::coeff_at(s@, m) as nat,
                                    pi as nat,
                                );
                                assert(crate::poly::coeff_at(
                                    crate::exact::spoly_view(bs[i as int], bs[j as int], pi),
                                    m,
                                ) % pi != 0);
                                assert(!spoly_vanishes(bs[i as int], bs[j as int], pi));
                                assert(!pair_settled(bs[i as int], bs[j as int], pi));
                                assert(bs[i as int].len() > 0 && bs[j as int].len() > 0);
                                assert(some_pair_unsettled(bs, pi));
                            }
                            return None;
                        },
                    };
                    if remainder.terms.len() > 0 {
                        proof {
                            let qs = poly_views(quotients@);
                            assert(remainder@.len() == remainder.terms@.len());
                            assert(crate::cert::represent::combo_identity(
                                crate::exact::spoly_view(bs[i as int], bs[j as int], pi),
                                qs,
                                bs,
                                remainder@,
                                pi,
                            )) by {
                                assert forall|m: Seq<u16>| #[trigger] crate::poly::coeff_at(
                                    crate::exact::spoly_view(bs[i as int], bs[j as int], pi),
                                    m,
                                ) % pi == (combo_coeff(qs, bs, pi, m) + crate::poly::coeff_at(remainder@, m)) % pi by {
                                    assert(crate::poly::coeff_at(s@, m) == (combo_coeff(qs, bs, pi, m)
                                        + crate::poly::coeff_at(remainder@, m)) % pi);
                                }
                            }
                            assert(crate::cert::represent::has_remainder_mod(
                                crate::exact::spoly_view(bs[i as int], bs[j as int], pi),
                                bs,
                                pi,
                                nv,
                            ));
                            assert(some_pair_remains(bs, pi, nv));
                        }
                        return Some(false);
                    }
                    proof {
                        let qs = poly_views(quotients@);
                        assert(remainder@ =~= Seq::<TermView>::empty());
                        assert(division_identity(s@, qs, bs, Seq::empty(), pi));
                        assert(spoly_reduces(bs[i as int], bs[j as int], bs, pi, nv));
                    }
                }
            }
            j += 1;
        }
        i += 1;
    }
    Some(true)
}

/// Every nonzero element is monic and has no term that the leading
/// monomial of another nonzero element divides.
pub open spec fn reduced_shape(bs: Seq<Seq<TermView>>) -> bool {
    &&& forall|a: int| 0 <= a < bs.len() && (#[trigger] bs[a]).len() > 0 ==> bs[a].last().0 == 1
    &&& forall|a: int, b: int, t: int|
        0 <= a < bs.len() && 0 <= b < bs.len() && a != b && bs[b].len() > 0 && 0 <= t < bs[a].len() ==> !divides_spec(
            #[trigger] lead_of(bs[b]),
            #[trigger] bs[a][t].1,
        )
}

/// Report whether the basis is the reduced Gröbner basis of its ideal:
/// every nonzero element monic, no term of one divisible by the leading
/// monomial of another, and every S-polynomial reducing to zero.
///
/// `None` where the S-polynomial check could not finish.
pub fn is_reduced_basis(basis: &[Polynomial], ring: &PolynomialRing) -> (r: Option<bool>)
    requires
        ring.wf(),
        all_in_ring(basis@, *ring),
    ensures
        r == Some(true) ==> reduced_shape(poly_views(basis@)) && all_pairs_reduce(
            poly_views(basis@),
            ring.modulus as int,
            ring.nvars as nat,
        ),
        r == Some(false) ==> !reduced_shape(poly_views(basis@)) || some_pair_remains(
            poly_views(basis@),
            ring.modulus as int,
            ring.nvars as nat,
        ),
        !reduced_shape(poly_views(basis@)) ==> r == Some(false),
        r is None ==> some_pair_unsettled(poly_views(basis@), ring.modulus as int),
{
    let ghost bs = poly_views(basis@);
    let mut i: usize = 0;
    while i < basis.len()
        invariant
            bs == poly_views(basis@),
            i <= basis@.len(),
            forall|a: int| 0 <= a < i && (#[trigger] bs[a]).len() > 0 ==> bs[a].last().0 == 1,
            forall|a: int, b: int, t: int|
                0 <= a < i && 0 <= b < bs.len() && a != b && bs[b].len() > 0 && 0 <= t < bs[a].len() ==> !divides_spec(
                    #[trigger] lead_of(bs[b]),
                    #[trigger] bs[a][t].1,
                ),
        decreases basis@.len() - i,
    {
        let f = &basis[i];
        proof {
            assert(bs[i as int] == f@);
        }
        if f.terms.len() > 0 {
            let n = f.terms.len();
            proof {
                assert(f@.last() == f.terms@[n - 1]@);
            }
            if f.terms[n - 1].coeff.value != 1 {
                return Some(false);
            }
            let mut j: usize = 0;
            while j < basis.len()
                invariant
                    bs == poly_views(basis@),
                    i < basis@.len(),
                    bs[i as int] == f@,
                    n == f.terms@.len(),
                    n > 0,
                    f@.len() == n,
                    j <= basis@.len(),
                    forall|b: int, t: int|
                        0 <= b < j && b != i && bs[b].len() > 0 && 0 <= t < bs[i as int].len() ==> !divides_spec(
                            #[trigger] lead_of(bs[b]),
                            #[trigger] bs[i as int][t].1,
                        ),
                decreases basis@.len() - j,
            {
                let g = &basis[j];
                proof {
                    assert(bs[j as int] == g@);
                }
                if j != i && g.terms.len() > 0 {
                    let m = g.terms.len();
                    proof {
                        assert(g@.last() == g.terms@[m - 1]@);
                    }
                    let lead = &g.terms[m - 1].mono;
                    if lead.divides(&f.terms[n - 1].mono) {
                        proof {
                            assert(f@[n - 1] == f.terms@[n - 1]@);
                            assert(divides_spec(lead_of(bs[j as int]), bs[i as int][n - 1].1));
                        }
                        return Some(false);
                    }
                    let mut t: usize = 0;
                    while t < f.terms.len()
                        invariant
                            bs == poly_views(basis@),
                            i < basis@.len(),
                            j < basis@.len(),
                            j != i,
                            g@.len() > 0,
                            bs[i as int] == f@,
                            bs[j as int] == g@,
                            lead@ == lead_of(bs[j as int]),
                            t <= f@.len(),
                            f@.len() == f.terms@.len(),
                            forall|u: int| 0 <= u < t ==> !divides_spec(lead_of(bs[j as int]), #[trigger] bs[i as int][u].1),
                        decreases f@.len() - t,
                    {
                        proof {
                            assert(f@[t as int] == f.terms@[t as int]@);
                        }
                        if lead.divides(&f.terms[t].mono) {
                            proof {
                                assert(divides_spec(lead_of(bs[j as int]), bs[i as int][t as int].1));
                            }
                            return Some(false);
                        }
                        t += 1;
                    }
                }
                j += 1;
            }
        }
        i += 1;
    }
    match is_groebner_basis(basis, ring) {
        Some(true) => Some(true),
        Some(false) => Some(false),
        None => None,
    }
}

} // verus!
