//! Classic F5: one critical pair at a time, in signature order.

use vstd::arithmetic::div_mod::*;
use vstd::prelude::*;

use super::interreduce::{
    all_monic,
    list_bytes_spec,
    origins_sum,
    poly_heap,
    under_limit,
    list_bytes,
    interreduction_stop,
    is_interreduced,
    lead_of,
    leads_covered,
    origins_ok,
    reduced_groebner_basis_checked,
    reduced_groebner_basis_tracked,
};
use super::signature::{LabeledPoly, Signature, shifted_below, sig_less};
use super::{ComputeError, ComputeLimits, DEGREE_LIMIT, RunError, check_input_degrees, degrees_fit};
use crate::cert::divide::{
    combo_coeff,
    division_identity,
    lemma_combo_empty,
    lemma_combo_update,
    lemma_mul_views_concat,
    lemma_quotient_times,
    lemma_scale_fits_by_degree,
    lemma_reduction_lowers,
    poly_views,
};
use crate::cert::origin::{self, Origin, all_in_ring};
use crate::ideal::{
    all_in_ideal,
    in_ideal,
    lemma_ideal_combination,
    lemma_ideal_division,
    lemma_ideal_generator,
    lemma_ideal_monic,
    lemma_ideal_scaled,
    lemma_ideal_term,
    lemma_ideal_chain,
    lemma_ideal_trans,
    lemma_ideal_zero,
};
use crate::cert::saturating_add;
use crate::field::{Felt, field_inverse};
use crate::monomial::{
    Monomial,
    degree_of,
    divides_spec,
    grevlex_less,
    grevlex_rank,
    lane_weight,
    revlex_less,
    revlex_rank,
    lemma_grevlex_rank_less,
    lemma_grevlex_transitive,
    mono_div,
    mono_mul,
    product_fits,
};
use crate::poly::{
    Polynomial,
    PolynomialRing,
    Term,
    scaled_list,
    TermView,
    coeff_at,
    lemma_coeff_at_concat,
    lemma_coeff_at_push,
    lemma_coeff_at_range,
    mul_views,
    scale_by_term,
};

verus! {

/// The signatures of a list of labeled polynomials.
pub open spec fn sig_views(s: Seq<Signature>) -> Seq<(usize, Seq<u16>)> {
    s.map_values(|g: Signature| g@)
}

/// The signatures of the labeled polynomials of a list.
pub open spec fn labeled_sigs(s: Seq<LabeledPoly>) -> Seq<(usize, Seq<u16>)> {
    s.map_values(|g: LabeledPoly| g.sig@)
}

/// The term lists of the labeled polynomials of a list.
pub open spec fn labeled_polys(s: Seq<LabeledPoly>) -> Seq<Seq<TermView>> {
    s.map_values(|g: LabeledPoly| g.poly@)
}

/// Some rule of `rules` covers `sig`: it has the same index and its term
/// divides the term of `sig`.
pub open spec fn covered(rules: Seq<(usize, Seq<u16>)>, sig: (usize, Seq<u16>)) -> bool {
    exists|k: int| 0 <= k < rules.len() && (#[trigger] rules[k]).0 == sig.0 && divides_spec(rules[k].1, sig.1)
}

/// `rule` has the index of `sig` and a term that the term of `sig` divides.
pub open spec fn superseded(rule: (usize, Seq<u16>), sig: (usize, Seq<u16>)) -> bool {
    rule.0 == sig.0 && divides_spec(sig.1, rule.1)
}

/// The rules once `sig` joins them: unchanged where a rule covers `sig`,
/// else every rule that `sig` covers goes and `sig` comes last.
pub open spec fn rules_with(rules: Seq<(usize, Seq<u16>)>, sig: (usize, Seq<u16>)) -> Seq<(usize, Seq<u16>)> {
    if covered(rules, sig) {
        rules
    } else {
        rules.filter(|rule: (usize, Seq<u16>)| !superseded(rule, sig)).push(sig)
    }
}

/// `g`, labeled `gsig`, may cancel the monomial `m` of a polynomial
/// labeled `sig`: its leading monomial divides `m`, and its signature
/// shifted by the quotient stays below `sig`.
pub open spec fn can_reduce(
    gsig: (usize, Seq<u16>),
    g: Seq<TermView>,
    m: Seq<u16>,
    sig: (usize, Seq<u16>),
) -> bool {
    &&& g.len() > 0
    &&& g.last().1.len() == m.len()
    &&& divides_spec(g.last().1, m)
    &&& shifted_below(gsig, m, g.last().1, sig)
}

/// No term of `r` can be cancelled by an element of the labeled list
/// without reaching the signature `sig`.
pub open spec fn regular_reduced(
    r: Seq<TermView>,
    sigs: Seq<(usize, Seq<u16>)>,
    gs: Seq<Seq<TermView>>,
    sig: (usize, Seq<u16>),
) -> bool {
    forall|i: int, k: int|
        #![trigger r[i], gs[k]]
        0 <= i < r.len() && 0 <= k < gs.len() ==> !can_reduce(sigs[k], gs[k], r[i].1, sig)
}

/// Every quotient term times its divisor stays below the signature `sig`.
pub open spec fn regular_quotients(
    qs: Seq<Seq<TermView>>,
    sigs: Seq<(usize, Seq<u16>)>,
    gs: Seq<Seq<TermView>>,
    sig: (usize, Seq<u16>),
) -> bool {
    forall|j: int, i: int|
        0 <= j < qs.len() && 0 <= i < qs[j].len() ==> #[trigger] regular_term(qs[j][i], sigs[j], gs[j], sig)
}

/// The term `t` times `g`, labeled `gsig`, stays below the signature `sig`.
pub open spec fn regular_term(t: TermView, gsig: (usize, Seq<u16>), g: Seq<TermView>, sig: (usize, Seq<u16>)) -> bool {
    &&& g.len() > 0
    &&& product_fits(t.1, g.last().1)
    &&& shifted_below(gsig, mono_mul(t.1, g.last().1), g.last().1, sig)
}

/// Every element of the labeled list is a ring element with a signature
/// term of the ring's width.
pub open spec fn labeled_ok(basis: Seq<LabeledPoly>, ring: PolynomialRing) -> bool {
    forall|k: int|
        0 <= k < basis.len() ==> (#[trigger] basis[k]).poly.wf() && basis[k].poly.ring == ring
            && basis[k].sig.term@.len() == ring.nvars
}

/// Report whether a rule of `rules` covers `sig`.
fn is_syzygy(sig: &Signature, rules: &[Signature]) -> (r: bool)
    ensures
        r == covered(sig_views(rules@), sig@),
{
    let mut k: usize = 0;
    while k < rules.len()
        invariant
            k <= rules@.len(),
            forall|j: int|
                0 <= j < k ==> !((#[trigger] sig_views(rules@)[j]).0 == sig@.0 && divides_spec(
                    sig_views(rules@)[j].1,
                    sig@.1,
                )),
        decreases rules@.len() - k,
    {
        if rules[k].index == sig.index && rules[k].term.divides(&sig.term) {
            proof {
                assert(sig_views(rules@)[k as int] == rules@[k as int]@);
            }
            return true;
        }
        proof {
            assert(sig_views(rules@)[k as int] == rules@[k as int]@);
        }
        k += 1;
    }
    false
}

/// Record that `sig` is the signature of a syzygy.
///
/// A rule that already covers `sig` leaves the rules as they are.
/// Otherwise the rules that `sig` covers go and `sig` joins at the end.
fn add_syzygy_rule(rules: &mut Vec<Signature>, sig: Signature)
    ensures
        sig_views(final(rules)@) == rules_with(sig_views(old(rules)@), sig@),
{
    if is_syzygy(&sig, rules.as_slice()) {
        return;
    }
    let ghost before = sig_views(rules@);
    let ghost pred = |rule: (usize, Seq<u16>)| !superseded(rule, sig@);
    let mut kept: Vec<Signature> = Vec::new();
    let mut k: usize = 0;
    while k < rules.len()
        invariant
            before == sig_views(rules@),
            pred == (|rule: (usize, Seq<u16>)| !superseded(rule, sig@)),
            k <= rules@.len(),
            sig_views(kept@) == before.take(k as int).filter(pred),
        decreases rules@.len() - k,
    {
        let ghost old_kept = sig_views(kept@);
        let keep = !(rules[k].index == sig.index && sig.term.divides(&rules[k].term));
        proof {
            assert(before[k as int] == rules@[k as int]@);
            assert(before.take(k as int + 1).drop_last() =~= before.take(k as int));
            assert(before.take(k as int + 1).last() == before[k as int]);
            reveal(Seq::filter);
        }
        if keep {
            kept.push(rules[k].copy());
            proof {
                assert(sig_views(kept@) =~= old_kept.push(before[k as int]));
            }
        } else {
            proof {
                assert(sig_views(kept@) =~= old_kept);
            }
        }
        k += 1;
    }
    proof {
        assert(before.take(k as int) =~= before);
    }
    let ghost last = sig@;
    kept.push(sig);
    proof {
        assert(sig_views(kept@) =~= before.filter(pred).push(last));
    }
    *rules = kept;
}

/// Report whether an element of `basis` with the index of `p`'s signature
/// has a signature term dividing `p`'s and a leading monomial dividing
/// `p`'s. Such a `p` is redundant: it brings neither a new leading
/// monomial nor a new signature.
fn is_sig_redundant(p: &LabeledPoly, basis: &[LabeledPoly]) -> (r: bool)
    requires
        p.poly.wf(),
    ensures
        r == (p.poly@.len() > 0 && exists|k: int|
            0 <= k < basis@.len() && (#[trigger] basis@[k]).sig.index == p.sig.index && divides_spec(
                basis@[k].sig.term@,
                p.sig.term@,
            ) && basis@[k].poly@.len() > 0 && divides_spec(basis@[k].poly@.last().1, p.poly@.last().1)),
{
    let lm_p = match p.poly.lm() {
        Some(m) => m,
        None => {
            return false;
        },
    };
    let mut k: usize = 0;
    while k < basis.len()
        invariant
            p.poly@.len() > 0,
            lm_p@ == p.poly@.last().1,
            k <= basis@.len(),
            forall|j: int|
                0 <= j < k ==> !((#[trigger] basis@[j]).sig.index == p.sig.index && divides_spec(
                    basis@[j].sig.term@,
                    p.sig.term@,
                ) && basis@[j].poly@.len() > 0 && divides_spec(basis@[j].poly@.last().1, p.poly@.last().1)),
        decreases basis@.len() - k,
    {
        let g = &basis[k];
        if g.sig.index == p.sig.index && g.sig.term.divides(&p.sig.term) {
            match g.poly.lm() {
                Some(lm_g) => {
                    if lm_g.divides(lm_p) {
                        return true;
                    }
                },
                None => {},
            }
        }
        k += 1;
    }
    false
}

/// The monomial that takes the leading monomial of `reducer` to `target`,
/// where `reducer` may cancel `target` in a polynomial labeled
/// `signature`; `None` where it may not.
fn reducer_multiple(reducer: &LabeledPoly, target: &Monomial, signature: &Signature) -> (r: Option<Monomial>)
    requires
        reducer.poly.wf(),
        reducer.sig.term@.len() == reducer.poly.ring.nvars,
        target@.len() == reducer.poly.ring.nvars,
        signature.term@.len() == reducer.poly.ring.nvars,
    ensures
        r is Some <==> can_reduce(reducer.sig@, reducer.poly@, target@, signature@),
        r matches Some(m) ==> m@ == mono_div(target@, reducer.poly@.last().1),
{
    let reducer_lead = match reducer.poly.lm() {
        Some(m) => m,
        None => {
            return None;
        },
    };
    proof {
        let g = reducer.poly@;
        assert(g.last() == g[g.len() - 1]);
        assert(0 < g[g.len() - 1].0);
        assert(g[g.len() - 1].1.len() == reducer.poly.ring.nvars);
    }
    if !reducer_lead.divides(target) {
        return None;
    }
    if !reducer.sig.shifted_is_below(target, reducer_lead, signature) {
        return None;
    }
    target.quotient(reducer_lead)
}

/// The first element of `basis` that may cancel the leading term `lead` of
/// a polynomial labeled `signature`, and the term that scales it to do so.
fn find_regular_reducer(basis: &[LabeledPoly], lead: &Term, signature: &Signature, ring: &PolynomialRing) -> (r: Option<
    (usize, Term),
>)
    requires
        ring.wf(),
        labeled_ok(basis@, *ring),
        0 < lead.coeff.value < ring.modulus,
        lead.mono@.len() == ring.nvars,
        signature.term@.len() == ring.nvars,
    ensures
        r is None ==> forall|k: int|
            0 <= k < basis@.len() ==> !can_reduce(
                #[trigger] labeled_sigs(basis@)[k],
                labeled_polys(basis@)[k],
                lead.mono@,
                signature@,
            ),
        r matches Some((j, t)) ==> 0 <= j < basis@.len() && can_reduce(
            labeled_sigs(basis@)[j as int],
            labeled_polys(basis@)[j as int],
            lead.mono@,
            signature@,
        ) && t.mono@ == mono_div(lead.mono@, labeled_polys(basis@)[j as int].last().1) && 0 < t.coeff.value
            < ring.modulus && (t.coeff.value * labeled_polys(basis@)[j as int].last().0) % (ring.modulus as int)
            == lead.coeff.value,
{
    let p = ring.modulus;
    let mut k: usize = 0;
    while k < basis.len()
        invariant
            ring.wf(),
            p == ring.modulus,
            labeled_ok(basis@, *ring),
            0 < lead.coeff.value < p,
            lead.mono@.len() == ring.nvars,
            signature.term@.len() == ring.nvars,
            k <= basis@.len(),
            forall|j: int|
                0 <= j < k ==> !can_reduce(
                    #[trigger] labeled_sigs(basis@)[j],
                    labeled_polys(basis@)[j],
                    lead.mono@,
                    signature@,
                ),
        decreases basis@.len() - k,
    {
        let g = &basis[k];
        proof {
            assert(labeled_sigs(basis@)[k as int] == g.sig@);
            assert(labeled_polys(basis@)[k as int] == g.poly@);
        }
        match reducer_multiple(g, &lead.mono, signature) {
            Some(mono) => {
                let n = g.poly.terms.len();
                proof {
                    let gv = g.poly@;
                    assert(gv.last() == gv[gv.len() - 1]);
                    assert(gv[gv.len() - 1] == g.poly.terms@[n - 1]@);
                    assert(0 < gv[gv.len() - 1].0 < p);
                }
                let coeff = lead.coeff.div(g.poly.terms[n - 1].coeff, p);
                proof {
                    if coeff.value == 0 {
                        assert(0 * g.poly.terms@[n - 1].coeff.value == 0);
                        lemma_small_mod(0, p as nat);
                    }
                }
                return Some((k, Term { coeff, mono }));
            },
            None => {},
        }
        k += 1;
    }
    None
}


/// Some nonzero element of `gs` has a leading monomial that divides `m`.
pub open spec fn lead_divisible(m: Seq<u16>, gs: Seq<Seq<TermView>>) -> bool {
    exists|j: int| 0 <= j < gs.len() && gs[j].len() > 0 && #[trigger] divides_spec(gs[j].last().1, m)
}

/// The leading monomial of `f` survives as that of the remainder, or the
/// leading monomial of some element of `gs` divides it.
pub open spec fn lead_kept_or_divided(f: Seq<TermView>, r: Seq<TermView>, gs: Seq<Seq<TermView>>) -> bool {
    f.len() > 0 ==> (r.len() > 0 && r.last().1 == f.last().1) || lead_divisible(f.last().1, gs)
}

/// Divisibility by a leading monomial of the list survives the list
/// growing.
proof fn lemma_divisible_grows(m: Seq<u16>, a: Seq<LabeledPoly>, b: Seq<LabeledPoly>)
    requires
        lead_divisible(m, labeled_polys(a)),
        a.len() <= b.len(),
        forall|k: int| 0 <= k < a.len() ==> #[trigger] b[k] == a[k],
    ensures
        lead_divisible(m, labeled_polys(b)),
{
    let ga = labeled_polys(a);
    let j = choose|j: int| 0 <= j < ga.len() && ga[j].len() > 0 && #[trigger] divides_spec(ga[j].last().1, m);
    assert(b[j] == a[j]);
    assert(labeled_polys(b)[j] == ga[j]);
}

/// Leading-monomial coverage passes through a middle list of nonzero
/// elements.
proof fn lemma_covered_trans(a: Seq<Seq<TermView>>, b: Seq<Seq<TermView>>, c: Seq<Seq<TermView>>)
    requires
        leads_covered(a, b),
        leads_covered(b, c),
        forall|k: int| 0 <= k < b.len() ==> (#[trigger] b[k]).len() > 0,
    ensures
        leads_covered(a, c),
{
    assert forall|j: int| 0 <= j < a.len() && (#[trigger] a[j]).len() > 0 implies exists|k: int|
        0 <= k < c.len() && divides_spec(#[trigger] lead_of(c[k]), lead_of(a[j])) by {
        let e = choose|e: int| 0 <= e < b.len() && divides_spec(#[trigger] lead_of(b[e]), lead_of(a[j]));
        assert(b[e].len() > 0);
        let k = choose|k: int| 0 <= k < c.len() && divides_spec(#[trigger] lead_of(c[k]), lead_of(b[e]));
        assert(divides_spec(lead_of(c[k]), lead_of(a[j])));
    }
}

/// Every exponent of every cofactor of `origins` leaves room for `d` more
/// in its `u16` lane.
pub open spec fn origins_fit_under(origins: Seq<Origin>, d: int) -> bool {
    forall|j: int, k: int, i: int, v: int|
        0 <= j < origins.len() && 0 <= k < origins[j]@.len() && 0 <= i < origins[j]@[k]@.len() && 0 <= v
            < origins[j]@[k]@[i].1.len() ==> #[trigger] origins[j]@[k]@[i].1[v] + d <= u16::MAX
}

/// A shift by `m` of degree at most `d` fits every cofactor of `origins`
/// that leaves room for `d`.
proof fn lemma_shift_fits(origins: Seq<Origin>, d: int, j: int, m: Seq<u16>)
    requires
        origins_fit_under(origins, d),
        0 <= j < origins.len(),
        degree_of(m) <= d,
    ensures
        forall|k: int| 0 <= k < origins[j]@.len() ==> crate::exact::scale_fits(#[trigger] origins[j]@[k]@, m),
{
    assert forall|k: int| 0 <= k < origins[j]@.len() implies crate::exact::scale_fits(#[trigger] origins[j]@[k]@, m) by {
        let s = origins[j]@[k]@;
        assert forall|i: int| 0 <= i < s.len() implies product_fits(m, #[trigger] s[i].1) by {
            assert forall|v: int| 0 <= v < m.len() && v < s[i].1.len() implies m[v] + s[i].1[v] <= u16::MAX by {
                crate::monomial::lemma_exponent_below_degree(m, v);
                assert(s[i] == origins[j]@[k]@[i]);
                assert(origins[j]@[k]@[i].1[v] + d <= u16::MAX);
            }
        }
    }
}

/// Reduce `p` by `basis` as far as the signature of `p` allows, carrying
/// the cofactors through the same steps when `with_origins`.
///
/// Each step cancels the leading term of the working polynomial with the
/// first element of `basis` that may cancel it below the signature of
/// `p`, or moves that term to the remainder. The result is the remainder,
/// under the signature and place of `p`: `p = sum_j q_j * g_j + r`, every
/// quotient term keeps its multiple of `g_j` below the signature of `p`,
/// and no term of `r` can be cancelled that way.
#[verifier::spinoff_prover]
pub fn f5_reduce(
    p: LabeledPoly,
    cofactors: Origin,
    basis: &[LabeledPoly],
    basis_origins: &[Origin],
    with_origins: bool,
) -> (r: Result<(LabeledPoly, Origin), RunError>)
    requires
        p.poly.wf(),
        p.sig.term@.len() == p.poly.ring.nvars,
        labeled_ok(basis@, p.poly.ring),
        with_origins ==> basis_origins@.len() == basis@.len() && origins_ok(basis_origins@, p.poly.ring, cofactors@.len())
            && all_in_ring(cofactors@, p.poly.ring),
        !with_origins ==> cofactors@.len() == 0,
    ensures
        r matches Ok((q, c)) ==> {
            &&& q.sig@ == p.sig@
            &&& q.index == p.index
            &&& q.poly.wf() && q.poly.ring == p.poly.ring
            &&& exists|qs: Seq<Seq<TermView>>|
                #[trigger] division_identity(p.poly@, qs, labeled_polys(basis@), q.poly@, p.poly.ring.modulus as int)
                    && regular_quotients(qs, labeled_sigs(basis@), labeled_polys(basis@), p.sig@) && qs.len()
                    == basis@.len()
            &&& regular_reduced(q.poly@, labeled_sigs(basis@), labeled_polys(basis@), p.sig@)
            &&& lead_kept_or_divided(p.poly@, q.poly@, labeled_polys(basis@))
            &&& with_origins ==> all_in_ring(c@, p.poly.ring) && c@.len() == cofactors@.len()
            &&& !with_origins ==> c@.len() == 0
        },
        r matches Err(e) ==> e == RunError::Compute(ComputeError::DegreeLimit { limit: DEGREE_LIMIT }),
        !with_origins && (p.poly@.len() == 0 || degree_of(p.poly@.last().1) <= u16::MAX) ==> r is Ok,
        with_origins && (p.poly@.len() == 0 || (degree_of(p.poly@.last().1) <= u16::MAX && origins_fit_under(
            basis_origins@,
            degree_of(p.poly@.last().1),
        ))) ==> r is Ok,
{
    let ghost count = cofactors@.len();
    let ring = p.poly.ring;
    let modulus = ring.modulus;
    let ghost pi = modulus as int;
    let ghost nv = ring.nvars as nat;
    let ghost fv = p.poly@;
    let ghost gs = labeled_polys(basis@);
    let ghost sigs = labeled_sigs(basis@);
    let ghost sig = p.sig@;
    let ghost mut qs: Seq<Seq<TermView>> = Seq::new(basis@.len(), |j: int| Seq::<TermView>::empty());
    let mut cofactors = cofactors;
    let mut remainder = p.poly.zero_like();
    let mut work = p.poly.copy();
    proof {
        assert forall|m: Seq<u16>| #[trigger] coeff_at(fv, m) % pi == (combo_coeff(qs, gs, pi, m) + coeff_at(
            work@,
            m,
        ) + coeff_at(remainder@, m)) % pi by {
            lemma_combo_empty(qs, gs, pi, m);
            assert(remainder@ =~= Seq::<TermView>::empty());
        }
    }
    while work.terms.len() > 0
        invariant
            ring == p.poly.ring,
            ring.wf(),
            modulus == ring.modulus,
            pi == modulus,
            nv == ring.nvars,
            fv == p.poly@,
            gs == labeled_polys(basis@),
            sigs == labeled_sigs(basis@),
            sig == p.sig@,
            p.sig.term@.len() == nv,
            labeled_ok(basis@, ring),
            with_origins ==> basis_origins@.len() == basis@.len() && origins_ok(basis_origins@, ring, count)
                && all_in_ring(cofactors@, ring) && cofactors@.len() == count,
            !with_origins ==> cofactors@.len() == 0,
            qs.len() == gs.len(),
            work.wf(),
            work.ring == ring,
            remainder.wf(),
            remainder.ring == ring,
            forall|m: Seq<u16>| #[trigger] coeff_at(fv, m) % pi == (combo_coeff(qs, gs, pi, m) + coeff_at(
                work@,
                m,
            ) + coeff_at(remainder@, m)) % pi,
            regular_quotients(qs, sigs, gs, sig),
            regular_reduced(remainder@, sigs, gs, sig),
            remainder@.len() > 0 && work@.len() > 0 ==> grevlex_less(work@.last().1, remainder@[0].1),
            work@.len() > 0 ==> fv.len() > 0 && degree_of(work@.last().1) <= degree_of(fv.last().1),
            fv.len() > 0 ==> (remainder@.len() == 0 && work@.len() > 0 && work@.last().1 == fv.last().1) || (
            remainder@.len() > 0 && remainder@.last().1 == fv.last().1) || lead_divisible(fv.last().1, gs),
        decreases
            if work@.len() == 0 {
                0
            } else {
                grevlex_rank(work@.last().1) + 1
            },
    {
        let last = work.terms.len() - 1;
        let ghost w = work@;
        let ghost lead = w.last().1;
        proof {
            assert(w.last() == w[w.len() - 1]);
            assert(w[w.len() - 1] == work.terms@[last as int]@);
            assert(0 < w[w.len() - 1].0 < pi);
            assert(w[w.len() - 1].1.len() == nv);
        }
        match find_regular_reducer(basis, &work.terms[last], &p.sig, &ring) {
            Some((j, t)) => {
                let g = &basis[j].poly;
                let ghost gv = gs[j as int];
                let ghost tv = t@;
                proof {
                    assert(gv == g@);
                    assert(gv.last() == gv[gv.len() - 1]);
                    assert(0 < gv[gv.len() - 1].0 < pi);
                    lemma_quotient_times(lead, gv.last().1);
                    assert(basis@[j as int].poly.ring == ring);
                }
                let next = match work.sub_scaled(g, t.coeff, &t.mono) {
                    Ok(q) => q,
                    Err(_) => {
                        proof {
                            if degree_of(fv.last().1) <= u16::MAX {
                                assert(g.wf());
                                lemma_scale_fits_by_degree(gv, tv.1, lead, pi, nv);
                            }
                        }
                        return Err(RunError::Compute(ComputeError::DegreeLimit { limit: DEGREE_LIMIT }));
                    },
                };
                proof {
                    lemma_reduction_lowers(w, gv, tv, next@, pi, nv);
                    if next@.len() > 0 {
                        assert(next@.last() == next@[next@.len() - 1]);
                        assert(0 < next@[next@.len() - 1].0);
                        assert(grevlex_less(next@[next@.len() - 1].1, lead));
                        assert(degree_of(next@.last().1) <= degree_of(lead));
                    }
                }
                if with_origins {
                    proof {
                        assert(all_in_ring(basis_origins@[j as int]@, ring));
                        if cofactors@.len() > 0 {
                            assert(cofactors@[0].ring == ring);
                        }
                    }
                    match origin::sub_scaled(&mut cofactors, &basis_origins[j], t.coeff, &t.mono, modulus) {
                        Ok(()) => {},
                        Err(_) => {
                            proof {
                                let d = degree_of(fv.last().1);
                                if d <= u16::MAX && origins_fit_under(basis_origins@, d) {
                                    crate::monomial::lemma_degree_mul(tv.1, gv.last().1);
                                    crate::monomial::lemma_degree_nonneg(gv.last().1);
                                    assert(degree_of(tv.1) <= d);
                                    lemma_shift_fits(basis_origins@, d, j as int, tv.1);
                                }
                            }
                            return Err(RunError::Compute(ComputeError::DegreeLimit { limit: DEGREE_LIMIT }));
                        },
                    }
                    proof {
                        if cofactors@.len() > 0 {
                            assert(all_in_ring(cofactors@, ring));
                        }
                    }
                }
                proof {
                    lemma_reduction_lowers(w, gv, tv, next@, pi, nv);
                    let nq = seq![tv] + qs[j as int];
                    let old_qs = qs;
                    qs = qs.update(j as int, nq);
                    assert forall|m: Seq<u16>| #[trigger] coeff_at(fv, m) % pi == (combo_coeff(qs, gs, pi, m)
                        + coeff_at(next@, m) + coeff_at(remainder@, m)) % pi by {
                        lemma_combo_update(old_qs, gs, pi, m, j as int, nq);
                        lemma_mul_views_concat(seq![tv], old_qs[j as int], gv, pi);
                        assert(seq![tv].drop_last() =~= Seq::<TermView>::empty());
                        assert(seq![tv].last() == tv);
                        assert(mul_views(seq![tv].drop_last(), gv, pi) =~= Seq::<TermView>::empty());
                        assert(mul_views(seq![tv], gv, pi) =~= scale_by_term(gv, tv, pi));
                        lemma_coeff_at_concat(scale_by_term(gv, tv, pi), mul_views(old_qs[j as int], gv, pi), m);
                        let c = combo_coeff(old_qs, gs, pi, m);
                        let sv = coeff_at(scale_by_term(gv, tv, pi), m);
                        let wv = coeff_at(w, m);
                        let rv = coeff_at(remainder@, m);
                        assert(coeff_at(next@, m) == (wv - sv) % pi);
                        lemma_add_mod_noop_right(c + sv + rv, wv - sv, pi);
                        assert(c + sv + rv + (wv - sv) == c + wv + rv);
                        assert(c + sv + coeff_at(next@, m) + rv == (c + sv + rv) + (wv - sv) % pi);
                    }
                    assert forall|jj: int, i: int| 0 <= jj < qs.len() && 0 <= i < qs[jj].len() implies #[trigger] regular_term(
                        qs[jj][i],
                        sigs[jj],
                        gs[jj],
                        sig,
                    ) by {
                        if jj == j {
                            if i > 0 {
                                assert(qs[jj][i] == old_qs[jj][i - 1]);
                                assert(regular_term(old_qs[jj][i - 1], sigs[jj], gs[jj], sig));
                            } else {
                                assert(qs[jj][i] == tv);
                                assert(gv.len() > 0);
                            }
                        } else {
                            assert(qs[jj] == old_qs[jj]);
                            assert(regular_term(old_qs[jj][i], sigs[jj], gs[jj], sig));
                        }
                    }
                    assert(regular_quotients(qs, sigs, gs, sig));
                    if remainder@.len() > 0 && next@.len() > 0 {
                        assert(next@.last() == next@[next@.len() - 1]);
                        assert(grevlex_less(next@[next@.len() - 1].1, lead));
                        assert(0 < next@[next@.len() - 1].0);
                        assert(0 < remainder@[0].0);
                        assert(remainder@[0].1.len() == nv);
                        lemma_grevlex_transitive(next@.last().1, lead, remainder@[0].1);
                    }
                    if next@.len() > 0 {
                        assert(next@.last() == next@[next@.len() - 1]);
                        assert(0 < next@[next@.len() - 1].0);
                        lemma_grevlex_rank_less(next@.last().1, lead);
                    }
                }
                proof {
                    if fv.len() > 0 && remainder@.len() == 0 && w.last().1 == fv.last().1 {
                        assert(can_reduce(sigs[j as int], gs[j as int], lead, sig));
                        assert(divides_spec(gs[j as int].last().1, fv.last().1));
                        assert(lead_divisible(fv.last().1, gs));
                    }
                }
                work = next;
            },
            None => {
                let popped = work.pop_lt();
                let t = match popped {
                    Some(t) => t,
                    None => {
                        return Err(RunError::Compute(ComputeError::MemoryLimitExceeded));
                    },
                };
                let ghost tv = t@;
                let ghost rv = remainder@;
                remainder.push_term(t);
                proof {
                    assert(w =~= work@.push(tv));
                    assert forall|m: Seq<u16>| #[trigger] coeff_at(fv, m) % pi == (combo_coeff(qs, gs, pi, m)
                        + coeff_at(work@, m) + coeff_at(remainder@, m)) % pi by {
                        lemma_coeff_at_push(work@, tv, m);
                        lemma_coeff_at_concat(seq![tv], rv, m);
                        assert(seq![tv].drop_last() =~= Seq::<TermView>::empty());
                        lemma_coeff_at_push(Seq::<TermView>::empty(), tv, m);
                        assert(Seq::<TermView>::empty().push(tv) =~= seq![tv]);
                    }
                    assert forall|i: int, k: int|
                        #![trigger remainder@[i], gs[k]]
                        0 <= i < remainder@.len() && 0 <= k < gs.len() implies !can_reduce(
                        sigs[k],
                        gs[k],
                        remainder@[i].1,
                        sig,
                    ) by {
                        if i > 0 {
                            assert(remainder@[i] == rv[i - 1]);
                        } else {
                            assert(remainder@[i] == tv);
                            assert(!can_reduce(labeled_sigs(basis@)[k], labeled_polys(basis@)[k], tv.1, sig));
                        }
                    }
                    assert(remainder@ =~= seq![tv] + rv) by {
                        assert forall|ii: int| 0 <= ii < remainder@.len() implies remainder@[ii] == (seq![tv] + rv)[ii] by {
                            if ii > 0 {
                                assert(remainder@[ii] == rv[ii - 1]);
                            } else {
                                assert(remainder@[ii] == tv);
                            }
                        }
                    }
                    if rv.len() > 0 {
                        assert(remainder@.last() == rv.last());
                    } else {
                        assert(remainder@.last() == tv);
                        assert(tv == w.last());
                    }
                    assert(regular_quotients(qs, sigs, gs, sig));
                    if work@.len() > 0 {
                        assert(work@.last() == w[w.len() - 2]);
                        assert(grevlex_less(w[w.len() - 2].1, w[w.len() - 1].1));
                        assert(0 < w[w.len() - 2].0);
                        lemma_grevlex_rank_less(work@.last().1, lead);
                        assert(degree_of(work@.last().1) <= degree_of(lead));
                    }
                }
            },
        }
    }
    proof {
        assert forall|m: Seq<u16>| #[trigger] coeff_at(fv, m) == (combo_coeff(qs, gs, pi, m) + coeff_at(
            remainder@,
            m,
        )) % pi by {
            assert(work@ =~= Seq::<TermView>::empty());
            lemma_coeff_at_range(fv, pi, nv, m);
        }
        assert(division_identity(fv, qs, gs, remainder@, pi));
        assert(division_identity(p.poly@, qs, labeled_polys(basis@), remainder@, p.poly.ring.modulus as int)
            && regular_quotients(qs, labeled_sigs(basis@), labeled_polys(basis@), p.sig@));        assert(lead_kept_or_divided(p.poly@, remainder@, labeled_polys(basis@)));
    }
    Ok((LabeledPoly { sig: p.sig, poly: remainder, index: p.index }, cofactors))
}


/// The S-polynomial of elements `i` and `j` of `basis`, each lifted to
/// the least common multiple of the two leading monomials and scaled by
/// the other's leading coefficient, and its cofactors when
/// `with_origins`.
pub fn spolynomial(basis: &[LabeledPoly], origins: &[Origin], i: usize, j: usize, with_origins: bool) -> (r: Result<
    (Polynomial, Origin),
    RunError,
>)
    requires
        i < basis@.len(),
        j < basis@.len(),
        labeled_ok(basis@, basis@[i as int].poly.ring),
        basis@[i as int].poly@.len() > 0,
        basis@[j as int].poly@.len() > 0,
        with_origins ==> origins@.len() == basis@.len() && origins_ok(
            origins@,
            basis@[i as int].poly.ring,
            origins@[i as int]@.len(),
        ),
    ensures
        r matches Ok((s, c)) ==> {
            let f = basis@[i as int].poly@;
            let g = basis@[j as int].poly@;
            let pi = basis@[i as int].poly.ring.modulus as int;
            &&& s.wf() && s.ring == basis@[i as int].poly.ring
            &&& crate::poly::is_combination(
                s@,
                scale_by_term(f, (g.last().0, crate::exact::cofactor_of(f.last().1, g.last().1)), pi),
                scale_by_term(g, (f.last().0, crate::exact::cofactor_of(g.last().1, f.last().1)), pi),
                true,
                pi,
            )
            &&& with_origins ==> all_in_ring(c@, basis@[i as int].poly.ring) && c@.len() == origins@[i as int]@.len()
            &&& !with_origins ==> c@.len() == 0
        },
        r matches Err(e) ==> e == RunError::Compute(ComputeError::DegreeLimit { limit: DEGREE_LIMIT }),
        !with_origins ==> (r is Ok <==> crate::exact::scale_fits(
            basis@[i as int].poly@,
            crate::exact::cofactor_of(basis@[i as int].poly@.last().1, basis@[j as int].poly@.last().1),
        ) && crate::exact::scale_fits(
            basis@[j as int].poly@,
            crate::exact::cofactor_of(basis@[j as int].poly@.last().1, basis@[i as int].poly@.last().1),
        )),
        with_origins && crate::exact::scale_fits(
            basis@[i as int].poly@,
            crate::exact::cofactor_of(basis@[i as int].poly@.last().1, basis@[j as int].poly@.last().1),
        ) && crate::exact::scale_fits(
            basis@[j as int].poly@,
            crate::exact::cofactor_of(basis@[j as int].poly@.last().1, basis@[i as int].poly@.last().1),
        ) && (forall|k: int|
            0 <= k < origins@[i as int]@.len() && k < origins@[j as int]@.len() ==> crate::exact::scale_fits(
                #[trigger] origins@[i as int]@[k]@,
                crate::exact::cofactor_of(basis@[i as int].poly@.last().1, basis@[j as int].poly@.last().1),
            ) && crate::exact::scale_fits(
                origins@[j as int]@[k]@,
                crate::exact::cofactor_of(basis@[j as int].poly@.last().1, basis@[i as int].poly@.last().1),
            )) ==> r is Ok,
{
    let f = &basis[i].poly;
    let g = &basis[j].poly;
    let ring = f.ring;
    let p = ring.modulus;
    let nf = f.terms.len();
    let ng = g.terms.len();
    proof {
        assert(basis@[i as int].poly.wf() && basis@[j as int].poly.wf());
        assert(f@.last() == f@[f@.len() - 1] && f@[f@.len() - 1] == f.terms@[nf - 1]@);
        assert(g@.last() == g@[g@.len() - 1] && g@[g@.len() - 1] == g.terms@[ng - 1]@);
        assert(0 < f@[f@.len() - 1].0 < p && f@[f@.len() - 1].1.len() == ring.nvars);
        assert(0 < g@[g@.len() - 1].0 < p && g@[g@.len() - 1].1.len() == ring.nvars);
    }
    let lt_f = &f.terms[nf - 1];
    let lt_g = &g.terms[ng - 1];
    let lcm = lt_f.mono.lcm(&lt_g.mono);
    proof {
        crate::monomial::lemma_divides_lcm(lt_f.mono@, lt_g.mono@);
        assert(crate::monomial::mono_lcm(lt_g.mono@, lt_f.mono@) =~= lcm@);
    }
    let m_f = match lcm.quotient(&lt_f.mono) {
        Some(m) => m,
        None => {
            return Err(RunError::Compute(ComputeError::DegreeLimit { limit: DEGREE_LIMIT }));
        },
    };
    let m_g = match lcm.quotient(&lt_g.mono) {
        Some(m) => m,
        None => {
            return Err(RunError::Compute(ComputeError::DegreeLimit { limit: DEGREE_LIMIT }));
        },
    };
    let f_scaled = match f.scale_monomial(lt_g.coeff, &m_f) {
        Ok(q) => q,
        Err(_) => {
            return Err(RunError::Compute(ComputeError::DegreeLimit { limit: DEGREE_LIMIT }));
        },
    };
    let g_scaled = match g.scale_monomial(lt_f.coeff, &m_g) {
        Ok(q) => q,
        Err(_) => {
            return Err(RunError::Compute(ComputeError::DegreeLimit { limit: DEGREE_LIMIT }));
        },
    };
    let cofactors = if with_origins {
        proof {
            assert(all_in_ring(origins@[i as int]@, ring));
            assert(all_in_ring(origins@[j as int]@, ring));
            assert(origins@[j as int]@.len() == origins@[i as int]@.len());
            if origins@[i as int]@.len() > 0 {
                assert(origins@[i as int]@[0].ring == ring);
            }
        }
        match origin::combine(&origins[i], lt_g.coeff, &m_f, &origins[j], lt_f.coeff, &m_g, p) {
            Ok(c) => c,
            Err(_) => {
                proof {
                    assert(m_f@ == crate::exact::cofactor_of(f@.last().1, g@.last().1));
                    assert(m_g@ == crate::exact::cofactor_of(g@.last().1, f@.last().1));
                }
                return Err(RunError::Compute(ComputeError::DegreeLimit { limit: DEGREE_LIMIT }));
            },
        }
    } else {
        Vec::new()
    };
    let s = f_scaled.sub(&g_scaled);
    proof {
        assert(m_f@ == crate::exact::cofactor_of(f@.last().1, g@.last().1));
        assert(m_g@ == crate::exact::cofactor_of(g@.last().1, f@.last().1));
        assert(f_scaled@ == scale_by_term(f@, (g@.last().0, m_f@), p as int));
        assert(g_scaled@ == scale_by_term(g@, (f@.last().0, m_g@), p as int));
    }
    Ok((s, cofactors))
}



/// One critical pair: elements `i` and `j` of the basis, and the
/// signature of their S-polynomial.
#[derive(Clone, Debug, PartialEq, Eq)]
pub struct CriticalPair {
    pub sig: Signature,
    pub i: usize,
    pub j: usize,
}

impl View for CriticalPair {
    type V = ((usize, Seq<u16>), usize, usize);

    open spec fn view(&self) -> ((usize, Seq<u16>), usize, usize) {
        (self.sig@, self.i, self.j)
    }
}

/// Critical pairs go by signature, then by the first index, then by the
/// second.
pub open spec fn pair_less(a: ((usize, Seq<u16>), usize, usize), b: ((usize, Seq<u16>), usize, usize)) -> bool {
    ||| sig_less(a.0, b.0)
    ||| (a.0 == b.0 && a.1 < b.1)
    ||| (a.0 == b.0 && a.1 == b.1 && a.2 < b.2)
}

/// The views of a list of critical pairs.
pub open spec fn pair_views(s: Seq<CriticalPair>) -> Seq<((usize, Seq<u16>), usize, usize)> {
    s.map_values(|c: CriticalPair| c@)
}

impl CriticalPair {
    /// Report whether this pair comes before `other`.
    pub fn less_than(&self, other: &CriticalPair) -> (b: bool)
        requires
            self.sig.term@.len() == other.sig.term@.len(),
        ensures
            b == pair_less(self@, other@),
    {
        if self.sig.less_than(&other.sig) {
            return true;
        }
        let same = self.sig.index == other.sig.index && self.sig.term.equals(&other.sig.term);
        if !same {
            proof {
                assert(self.sig@ != other.sig@);
            }
            return false;
        }
        proof {
            assert(self.sig@ == other.sig@);
        }
        self.i < other.i || (self.i == other.i && self.j < other.j)
    }
}

/// Take the first smallest pair out of the queue.
fn pop_min(queue: &mut Vec<CriticalPair>, Ghost(nvars): Ghost<nat>) -> (r: Option<CriticalPair>)
    requires
        forall|k: int| 0 <= k < old(queue)@.len() ==> (#[trigger] old(queue)@[k]).sig.term@.len() == nvars,
    ensures
        old(queue)@.len() == 0 ==> r is None && final(queue)@ == old(queue)@,
        old(queue)@.len() > 0 ==> (r matches Some(c) && exists|k: int|
            0 <= k < old(queue)@.len() && c == old(queue)@[k] && final(queue)@ == old(queue)@.remove(k)
                && forall|l: int| 0 <= l < old(queue)@.len() ==> !pair_less(#[trigger] old(queue)@[l]@, c@)),
{
    if queue.len() == 0 {
        return None;
    }
    let mut best: usize = 0;
    let mut k: usize = 1;
    proof {
        lemma_pair_less_irreflexive(queue@[0]@);
    }
    while k < queue.len()
        invariant
            forall|l: int| 0 <= l < queue@.len() ==> (#[trigger] queue@[l]).sig.term@.len() == nvars,
            queue@.len() > 0,
            best < k <= queue@.len(),
            forall|l: int| 0 <= l < k ==> !pair_less(#[trigger] queue@[l]@, queue@[best as int]@),
        decreases queue@.len() - k,
    {
        if queue[k].less_than(&queue[best]) {
            proof {
                assert forall|l: int| 0 <= l < k + 1 implies !pair_less(#[trigger] queue@[l]@, queue@[k as int]@) by {
                    if l < k {
                        lemma_pair_less_transitive(queue@[l]@, queue@[k as int]@, queue@[best as int]@, nvars);
                    } else {
                        lemma_pair_less_irreflexive(queue@[k as int]@);
                    }
                }
            }
            best = k;
        }
        k += 1;
    }
    let ghost before = queue@;
    let c = queue.remove(best);
    proof {
        assert(c == before[best as int]);
    }
    Some(c)
}

/// No pair comes before itself.
proof fn lemma_pair_less_irreflexive(a: ((usize, Seq<u16>), usize, usize))
    ensures
        !pair_less(a, a),
{
    crate::monomial::lemma_grevlex_irreflexive(a.0.1);
}

/// Where `b` comes before `c` and `a` does not come before `c`, `a` does
/// not come before `b`.
proof fn lemma_pair_less_transitive(
    a: ((usize, Seq<u16>), usize, usize),
    b: ((usize, Seq<u16>), usize, usize),
    c: ((usize, Seq<u16>), usize, usize),
    nvars: nat,
)
    requires
        a.0.1.len() == nvars,
        b.0.1.len() == nvars,
        c.0.1.len() == nvars,
        pair_less(b, c),
        !pair_less(a, c),
    ensures
        !pair_less(a, b),
{
    if pair_less(a, b) {
        if a.0 != b.0 && b.0 != c.0 {
            if a.0.0 == b.0.0 && b.0.0 == c.0.0 {
                lemma_grevlex_transitive(a.0.1, b.0.1, c.0.1);
            }
        }
        if a.0.0 == c.0.0 && a.0.1 != c.0.1 {
            crate::monomial::lemma_grevlex_total(a.0.1, c.0.1);
        }
        if a.0.0 == c.0.0 && a.0.1 == c.0.1 {
            assert(a.0 == c.0);
            if a.0 != b.0 && a.0.0 == b.0.0 {
                crate::monomial::lemma_grevlex_asymmetric(a.0.1, b.0.1);
            }
        }
    }
}


/// The signature of the S-pair of `f` and `g` on the side of `f`: the
/// signature `sig` of `f` times the monomial that takes the leading
/// monomial `lead` of `f` to the common multiple with `other`.
pub open spec fn lifted_sig(sig: (usize, Seq<u16>), lead: Seq<u16>, other: Seq<u16>) -> (usize, Seq<u16>) {
    (sig.0, mono_mul(sig.1, crate::exact::cofactor_of(lead, other)))
}

/// The larger of two signatures, position over term.
pub open spec fn larger_sig(a: (usize, Seq<u16>), b: (usize, Seq<u16>)) -> (usize, Seq<u16>) {
    if sig_less(b, a) {
        a
    } else {
        b
    }
}

/// Queue the critical pair of elements `i` and `j`.
///
/// A zero element has no pair. A least common multiple of leading
/// monomials past [`DEGREE_LIMIT`], or a signature multiple past the width
/// of one exponent, is a [`ComputeError::DegreeLimit`]. The pair takes the
/// larger of the two lifted signatures; a pair whose lifted signatures
/// agree is not regular and is dropped, and so is one whose signature a
/// syzygy rule covers.
fn push_pair(
    queue: &mut Vec<CriticalPair>,
    syzygy_rules: &[Signature],
    basis: &[LabeledPoly],
    i: usize,
    j: usize,
) -> (r: Result<(), RunError>)
    requires
        i < basis@.len(),
        j < basis@.len(),
        labeled_ok(basis@, basis@[i as int].poly.ring),
    ensures
        ({
            let f = basis@[i as int];
            let g = basis@[j as int];
            let lf = f.poly@.last().1;
            let lg = g.poly@.last().1;
            let sf = lifted_sig(f.sig@, lf, lg);
            let sg = lifted_sig(g.sig@, lg, lf);
            let sig = larger_sig(sf, sg);
            if f.poly@.len() == 0 || g.poly@.len() == 0 {
                r is Ok && final(queue)@ == old(queue)@
            } else if degree_of(crate::monomial::mono_lcm(lf, lg)) > DEGREE_LIMIT || !product_fits(
                f.sig.term@,
                crate::exact::cofactor_of(lf, lg),
            ) || !product_fits(g.sig.term@, crate::exact::cofactor_of(lg, lf)) {
                r == Err::<(), RunError>(RunError::Compute(ComputeError::DegreeLimit { limit: DEGREE_LIMIT }))
            } else if sf == sg || covered(sig_views(syzygy_rules@), sig) {
                r is Ok && final(queue)@ == old(queue)@
            } else {
                r is Ok && pair_views(final(queue)@) == pair_views(old(queue)@).push((sig, i, j))
            }
        }),
        r is Err ==> final(queue)@ == old(queue)@,
        final(queue)@.len() >= old(queue)@.len(),
        forall|k: int| 0 <= k < old(queue)@.len() ==> #[trigger] final(queue)@[k] == old(queue)@[k],
{
    let f = &basis[i];
    let g = &basis[j];
    let lm_f = match f.poly.lm() {
        Some(m) => m,
        None => {
            return Ok(());
        },
    };
    let lm_g = match g.poly.lm() {
        Some(m) => m,
        None => {
            return Ok(());
        },
    };
    proof {
        assert(basis@[i as int].poly.wf() && basis@[j as int].poly.wf());
        let fv = f.poly@;
        let gv = g.poly@;
        assert(fv.last() == fv[fv.len() - 1] && 0 < fv[fv.len() - 1].0);
        assert(gv.last() == gv[gv.len() - 1] && 0 < gv[gv.len() - 1].0);
    }
    let lcm = lm_f.lcm(lm_g);
    if lcm.total_degree() > 65535u128 {
        return Err(RunError::Compute(ComputeError::DegreeLimit { limit: DEGREE_LIMIT }));
    }
    proof {
        crate::monomial::lemma_divides_lcm(lm_f@, lm_g@);
        assert(crate::monomial::mono_lcm(lm_g@, lm_f@) =~= lcm@);
    }
    let m_f = match lcm.quotient(lm_f) {
        Some(m) => m,
        None => {
            return Err(RunError::Compute(ComputeError::DegreeLimit { limit: DEGREE_LIMIT }));
        },
    };
    let m_g = match lcm.quotient(lm_g) {
        Some(m) => m,
        None => {
            return Err(RunError::Compute(ComputeError::DegreeLimit { limit: DEGREE_LIMIT }));
        },
    };
    let term_f = match f.sig.term.checked_mul(&m_f) {
        Some(t) => t,
        None => {
            return Err(RunError::Compute(ComputeError::DegreeLimit { limit: DEGREE_LIMIT }));
        },
    };
    let term_g = match g.sig.term.checked_mul(&m_g) {
        Some(t) => t,
        None => {
            return Err(RunError::Compute(ComputeError::DegreeLimit { limit: DEGREE_LIMIT }));
        },
    };
    let sig_f = Signature { index: f.sig.index, term: term_f };
    let sig_g = Signature { index: g.sig.index, term: term_g };
    let ghost sf = sig_f@;
    let ghost sg = sig_g@;
    let sig = if sig_g.less_than(&sig_f) {
        sig_f
    } else if sig_f.less_than(&sig_g) {
        proof {
            if sig_less(sg, sf) {
                crate::monomial::lemma_grevlex_asymmetric(sf.1, sg.1);
            }
        }
        sig_g
    } else {
        proof {
            if sf.0 == sg.0 && sf.1 != sg.1 {
                crate::monomial::lemma_grevlex_total(sf.1, sg.1);
            }
        }
        return Ok(());
    };
    proof {
        if sf == sg {
            crate::monomial::lemma_grevlex_irreflexive(sf.1);
        }
    }
    if is_syzygy(&sig, syzygy_rules) {
        return Ok(());
    }
    let ghost before = queue@;
    queue.push(CriticalPair { sig, i, j });
    proof {
        assert(pair_views(queue@) =~= pair_views(before).push(queue@.last()@));
    }
    Ok(())
}

/// What can stop the classic engine: a stop the limits allow, the memory
/// limit, or a degree or an exponent past its width. The engine ends on
/// every other input: see [`lemma_fresh_bound`].
pub open spec fn classic_stop(limits: ComputeLimits, e: RunError) -> bool {
    interreduction_stop(limits, e)
}

/// `g` dominates `p`: the same signature index, and a signature term and a
/// leading monomial that divide `p`'s.
pub open spec fn dominates(g: LabeledPoly, p: LabeledPoly) -> bool {
    &&& g.sig.index == p.sig.index
    &&& divides_spec(g.sig.term@, p.sig.term@)
    &&& g.poly@.len() > 0
    &&& divides_spec(g.poly@.last().1, p.poly@.last().1)
}

/// Some element of `basis` dominates `p`.
pub open spec fn dominated(basis: Seq<LabeledPoly>, p: LabeledPoly) -> bool {
    exists|k: int| 0 <= k < basis.len() && dominates(#[trigger] basis[k], p)
}

/// The elements of `basis` that no earlier element dominates.
pub open spec fn fresh_count(basis: Seq<LabeledPoly>) -> nat
    decreases basis.len(),
{
    if basis.len() == 0 {
        0
    } else {
        fresh_count(basis.drop_last()) + if dominated(basis.drop_last(), basis.last()) {
            0nat
        } else {
            1nat
        }
    }
}

/// The number of signature index, signature term and leading monomial
/// triples in `nvars` variables.
pub open spec fn triple_count(nvars: nat) -> int {
    (usize::MAX as int + 1) * lane_weight(nvars) * lane_weight(nvars)
}

/// Every element is nonzero, with a signature term and a leading monomial
/// of `nvars` exponents.
pub open spec fn shaped(basis: Seq<LabeledPoly>, nvars: nat) -> bool {
    forall|k: int|
        0 <= k < basis.len() ==> (#[trigger] basis[k]).poly@.len() > 0 && basis[k].sig.term@.len() == nvars
            && basis[k].poly@.last().1.len() == nvars
}

/// The triple of an element as one number, base `65536^nvars`.
spec fn triple_code(p: LabeledPoly, nvars: nat) -> int {
    let w = lane_weight(nvars) as int;
    (p.sig.index as int * w + revlex_rank(p.sig.term@) as int) * w + revlex_rank(p.poly@.last().1) as int
}

/// The codes of the elements that no earlier element dominates.
spec fn fresh_codes(basis: Seq<LabeledPoly>, nvars: nat) -> Seq<int>
    decreases basis.len(),
{
    if basis.len() == 0 {
        Seq::empty()
    } else {
        fresh_codes(basis.drop_last(), nvars) + if dominated(basis.drop_last(), basis.last()) {
            Seq::<int>::empty()
        } else {
            seq![triple_code(basis.last(), nvars)]
        }
    }
}

/// Two digits in base `w` that give one number are equal digit by digit.
proof fn lemma_digits(x1: int, y1: int, x2: int, y2: int, w: int)
    requires
        w > 0,
        0 <= y1 < w,
        0 <= y2 < w,
        x1 * w + y1 == x2 * w + y2,
    ensures
        x1 == x2,
        y1 == y2,
{
    if x1 < x2 {
        assert(x1 * w + y1 < x2 * w + y2) by (nonlinear_arith)
            requires
                x1 < x2,
                w > 0,
                0 <= y1 < w,
                0 <= y2,
        ;
    } else if x2 < x1 {
        assert(x2 * w + y2 < x1 * w + y1) by (nonlinear_arith)
            requires
                x2 < x1,
                w > 0,
                0 <= y2 < w,
                0 <= y1,
        ;
    }
}

/// Exponent vectors of one width with one rank are equal.
proof fn lemma_rank_injective(a: Seq<u16>, b: Seq<u16>)
    requires
        a.len() == b.len(),
        revlex_rank(a) == revlex_rank(b),
    ensures
        a == b,
{
    if a != b {
        crate::monomial::lemma_revlex_total(a, b);
        if revlex_less(a, b) {
            crate::monomial::lemma_revlex_rank_less(a, b);
        } else {
            crate::monomial::lemma_revlex_rank_less(b, a);
        }
    }
}

/// The code of a shaped element lies below [`triple_count`], and equal
/// codes mean equal triples.
proof fn lemma_triple_code(a: LabeledPoly, b: LabeledPoly, nvars: nat)
    requires
        a.sig.term@.len() == nvars,
        b.sig.term@.len() == nvars,
        a.poly@.last().1.len() == nvars,
        b.poly@.last().1.len() == nvars,
    ensures
        0 <= triple_code(a, nvars) < triple_count(nvars),
        triple_code(a, nvars) == triple_code(b, nvars) ==> a.sig.index == b.sig.index && a.sig.term@ == b.sig.term@
            && a.poly@.last().1 == b.poly@.last().1,
{
    let w = lane_weight(nvars) as int;
    crate::monomial::lemma_lane_weight_positive(nvars);
    crate::monomial::lemma_revlex_rank_bound(a.sig.term@);
    crate::monomial::lemma_revlex_rank_bound(b.sig.term@);
    crate::monomial::lemma_revlex_rank_bound(a.poly@.last().1);
    crate::monomial::lemma_revlex_rank_bound(b.poly@.last().1);
    let ia = a.sig.index as int;
    let ta = revlex_rank(a.sig.term@) as int;
    let la = revlex_rank(a.poly@.last().1) as int;
    let m = usize::MAX as int;
    assert(0 <= (ia * w + ta) * w + la < (m + 1) * w * w) by (nonlinear_arith)
        requires
            0 <= ia <= m,
            0 <= ta < w,
            0 <= la < w,
            w > 0,
    ;
    if triple_code(a, nvars) == triple_code(b, nvars) {
        let ib = b.sig.index as int;
        let tb = revlex_rank(b.sig.term@) as int;
        let lb = revlex_rank(b.poly@.last().1) as int;
        lemma_digits(ia * w + ta, la, ib * w + tb, lb, w);
        lemma_digits(ia, ta, ib, tb, w);
        lemma_rank_injective(a.sig.term@, b.sig.term@);
        lemma_rank_injective(a.poly@.last().1, b.poly@.last().1);
    }
}

/// The codes of the undominated elements are distinct codes of elements
/// of `basis`, one per such element.
proof fn lemma_fresh_codes(basis: Seq<LabeledPoly>, nvars: nat)
    requires
        shaped(basis, nvars),
    ensures
        fresh_codes(basis, nvars).len() == fresh_count(basis),
        fresh_codes(basis, nvars).no_duplicates(),
        forall|c: int|
            #[trigger] fresh_codes(basis, nvars).contains(c) ==> exists|k: int|
                0 <= k < basis.len() && c == triple_code(#[trigger] basis[k], nvars),
    decreases basis.len(),
{
    if basis.len() > 0 {
        let rest = basis.drop_last();
        let last = basis.last();
        assert(shaped(rest, nvars)) by {
            assert forall|k: int| 0 <= k < rest.len() implies (#[trigger] rest[k]).poly@.len() > 0
                && rest[k].sig.term@.len() == nvars && rest[k].poly@.last().1.len() == nvars by {
                assert(rest[k] == basis[k]);
            }
        }
        lemma_fresh_codes(rest, nvars);
        let prev = fresh_codes(rest, nvars);
        assert(basis[basis.len() - 1] == last);
        if dominated(rest, last) {
            assert(fresh_codes(basis, nvars) =~= prev);
            assert forall|c: int| #[trigger] fresh_codes(basis, nvars).contains(c) implies exists|k: int|
                0 <= k < basis.len() && c == triple_code(#[trigger] basis[k], nvars) by {
                let k = choose|k: int| 0 <= k < rest.len() && c == triple_code(#[trigger] rest[k], nvars);
                assert(basis[k] == rest[k]);
            }
        } else {
            let code = triple_code(last, nvars);
            let all = fresh_codes(basis, nvars);
            assert(all =~= prev.push(code));
            if prev.contains(code) {
                let k = choose|k: int| 0 <= k < rest.len() && code == triple_code(#[trigger] rest[k], nvars);
                assert(rest[k] == basis[k]);
                lemma_triple_code(rest[k], last, nvars);
                assert(dominates(rest[k], last));
            }
            assert forall|i: int, j: int| 0 <= i < j < all.len() implies all[i] != all[j] by {
                if j == all.len() - 1 {
                    assert(all[j] == code);
                    assert(all[i] == prev[i]);
                    assert(prev.contains(prev[i]));
                } else {
                    assert(all[i] == prev[i] && all[j] == prev[j]);
                }
            }
            assert forall|c: int| #[trigger] all.contains(c) implies exists|k: int|
                0 <= k < basis.len() && c == triple_code(#[trigger] basis[k], nvars) by {
                let i = choose|i: int| 0 <= i < all.len() && all[i] == c;
                if i == all.len() - 1 {
                    assert(c == triple_code(basis[basis.len() - 1], nvars));
                } else {
                    assert(prev[i] == c);
                    assert(prev.contains(c));
                    let k = choose|k: int| 0 <= k < rest.len() && c == triple_code(#[trigger] rest[k], nvars);
                    assert(basis[k] == rest[k]);
                }
            }
        }
    }
}

/// No run holds more undominated elements than there are triples of a
/// signature index, a signature term and a leading monomial: each new
/// element the engine keeps is undominated, so the basis stops growing and
/// every run ends.
pub proof fn lemma_fresh_bound(basis: Seq<LabeledPoly>, nvars: nat)
    requires
        shaped(basis, nvars),
    ensures
        fresh_count(basis) <= triple_count(nvars),
{
    let codes = fresh_codes(basis, nvars);
    lemma_fresh_codes(basis, nvars);
    crate::monomial::lemma_lane_weight_positive(nvars);
    let bound = triple_count(nvars);
    assert(bound >= 0) by (nonlinear_arith)
        requires
            bound == (usize::MAX as int + 1) * lane_weight(nvars) * lane_weight(nvars),
    ;
    vstd::set_lib::lemma_int_range(0, bound);
    codes.unique_seq_to_set();
    assert(codes.to_set().subset_of(vstd::set_lib::set_int_range(0, bound))) by {
        assert forall|c: int| codes.to_set().contains(c) implies vstd::set_lib::set_int_range(0, bound).contains(c) by {
            assert(codes.contains(c));
            let k = choose|k: int| 0 <= k < basis.len() && c == triple_code(#[trigger] basis[k], nvars);
            lemma_triple_code(basis[k], basis[k], nvars);
        }
    }
    vstd::set_lib::lemma_len_subset(codes.to_set(), vstd::set_lib::set_int_range(0, bound));
}

/// The state of one classic run: the labeled basis, its cofactors when
/// `with_origins`, the syzygy rules, and the queue of critical pairs.
struct ClassicState {
    ring: PolynomialRing,
    basis: Vec<LabeledPoly>,
    origins: Vec<Origin>,
    syzygy_rules: Vec<Signature>,
    queue: Vec<CriticalPair>,
    with_origins: bool,
    count: usize,
    gens: Ghost<Seq<Seq<TermView>>>,
}

/// `base` and the heap bytes of every basis element, saturating at
/// `usize::MAX`.
spec fn labeled_sum(basis: Seq<LabeledPoly>, base: usize) -> usize
    decreases basis.len(),
{
    if basis.len() == 0 {
        base
    } else {
        crate::cert::saturating_total(labeled_sum(basis.drop_last(), base), poly_heap(basis.last().poly))
    }
}

/// The pair of `f` and `g` has a lifted signature and a least common
/// multiple of leading monomials that fit: pushing it cannot fail.
pub open spec fn pair_fits(f: LabeledPoly, g: LabeledPoly) -> bool {
    let lf = f.poly@.last().1;
    let lg = g.poly@.last().1;
    f.poly@.len() == 0 || g.poly@.len() == 0 || (degree_of(crate::monomial::mono_lcm(lf, lg)) <= DEGREE_LIMIT
        && product_fits(f.sig.term@, crate::exact::cofactor_of(lf, lg)) && product_fits(
        g.sig.term@,
        crate::exact::cofactor_of(lg, lf),
    ))
}

impl ClassicState {
    /// The bytes the run holds: the basis, the rules, the queue, and the
    /// cofactors when it tracks them, saturating at `usize::MAX`.
    spec fn live_bytes(&self) -> usize {
        let basis = labeled_sum(
            self.basis@,
            crate::cert::saturating_product(self.basis@.len() as usize, size_of::<LabeledPoly>() as usize),
        );
        let rules = crate::cert::saturating_total(
            basis,
            crate::cert::saturating_product(self.syzygy_rules@.len() as usize, size_of::<Signature>() as usize),
        );
        let queued = crate::cert::saturating_total(
            rules,
            crate::cert::saturating_product(self.queue@.len() as usize, size_of::<CriticalPair>() as usize),
        );
        if self.with_origins {
            origins_sum(
                self.origins@,
                crate::cert::saturating_total(
                    queued,
                    crate::cert::saturating_product(self.origins@.len() as usize, size_of::<Origin>() as usize),
                ),
            )
        } else {
            queued
        }
    }
}

impl ClassicState {
    /// The basis holds nonzero monic ring elements in their places, every
    /// signature term and every queued pair fits the ring, and the origins
    /// line up with the basis.
    spec fn wf(&self) -> bool {
        &&& self.ring.wf()
        &&& labeled_ok(self.basis@, self.ring)
        &&& all_monic(labeled_polys(self.basis@))
        &&& forall|k: int| 0 <= k < self.basis@.len() ==> (#[trigger] self.basis@[k]).index == k
        &&& forall|k: int| 0 <= k < self.syzygy_rules@.len() ==> (#[trigger] self.syzygy_rules@[k]).term@.len() == self.ring.nvars
        &&& forall|k: int|
            0 <= k < self.queue@.len() ==> (#[trigger] self.queue@[k]).i < self.queue@[k].j < self.basis@.len()
                && self.queue@[k].sig.term@.len() == self.ring.nvars
        &&& self.with_origins ==> self.origins@.len() == self.basis@.len() && origins_ok(
            self.origins@,
            self.ring,
            self.count as nat,
        )
        &&& !self.with_origins ==> self.origins@.len() == 0
        &&& all_in_ideal(labeled_polys(self.basis@), self.gens@, self.ring.modulus as int)
    }

    /// The basis starts with every element of `other`'s basis, and the
    /// origins start with `other`'s origins.
    spec fn keeps(&self, other: &ClassicState) -> bool {
        &&& other.basis@.len() <= self.basis@.len()
        &&& forall|k: int| 0 <= k < other.basis@.len() ==> #[trigger] self.basis@[k] == other.basis@[k]
        &&& other.origins@.len() <= self.origins@.len()
        &&& forall|k: int| 0 <= k < other.origins@.len() ==> #[trigger] self.origins@[k] == other.origins@[k]
    }

    /// The same ring, count, and tracking.
    spec fn same_run(&self, other: &ClassicState) -> bool {
        &&& self.ring == other.ring
        &&& self.count == other.count
        &&& self.with_origins == other.with_origins
        &&& self.gens@ == other.gens@
    }

    /// Stop when the budget runs out: the live basis, the cofactors, the
    /// rules, and the queue count against the memory limit.
    fn check_limits(&self, limits: &ComputeLimits) -> (r: Result<(), RunError>)
        ensures
            r is Ok ==> under_limit(limits.memory, self.live_bytes()),
            limits.is_open() ==> (r is Ok <==> under_limit(limits.memory, self.live_bytes())),
            r matches Err(e) ==> limits.stop_allowed(e) || (e == RunError::Compute(
                ComputeError::MemoryLimitExceeded,
            ) && !under_limit(limits.memory, self.live_bytes())),
    {
        if let Some(stop) = limits.stop() {
            return Err(stop);
        }
        match limits.memory {
            Some(limit) => {
                let ghost base = crate::cert::saturating_product(
                    self.basis@.len() as usize,
                    size_of::<LabeledPoly>() as usize,
                );
                let mut bytes = crate::cert::saturating_mul(self.basis.len(), size_of::<LabeledPoly>());
                let mut k: usize = 0;
                while k < self.basis.len()
                    invariant
                        k <= self.basis@.len(),
                        bytes == labeled_sum(self.basis@.take(k as int), base),
                    decreases self.basis@.len() - k,
                {
                    proof {
                        assert(self.basis@.take(k as int + 1).drop_last() =~= self.basis@.take(k as int));
                    }
                    bytes = saturating_add(bytes, self.basis[k].poly.heap_bytes());
                    k += 1;
                }
                proof {
                    assert(self.basis@.take(k as int) =~= self.basis@);
                }
                bytes = saturating_add(
                    bytes,
                    crate::cert::saturating_mul(self.syzygy_rules.len(), size_of::<Signature>()),
                );
                bytes = saturating_add(bytes, crate::cert::saturating_mul(self.queue.len(), size_of::<CriticalPair>()));
                if self.with_origins {
                    let ghost obase = bytes;
                    bytes = saturating_add(bytes, crate::cert::saturating_mul(self.origins.len(), size_of::<Origin>()));
                    let ghost obase2 = bytes;
                    let mut k: usize = 0;
                    while k < self.origins.len()
                        invariant
                            k <= self.origins@.len(),
                            bytes == origins_sum(self.origins@.take(k as int), obase2),
                        decreases self.origins@.len() - k,
                    {
                        proof {
                            assert(self.origins@.take(k as int + 1).drop_last() =~= self.origins@.take(k as int));
                        }
                        bytes = saturating_add(bytes, list_bytes(self.origins[k].as_slice()));
                        k += 1;
                    }
                    proof {
                        assert(self.origins@.take(k as int) =~= self.origins@);
                    }
                }
                if bytes > limit {
                    return Err(RunError::Compute(ComputeError::MemoryLimitExceeded));
                }
            },
            None => {},
        }
        Ok(())
    }

    /// Make `labeled` monic with its cofactors, append it, and queue its
    /// pair with every earlier element.
    fn insert(&mut self, labeled: LabeledPoly, origin: Origin) -> (r: Result<(), RunError>)
        requires
            old(self).wf(),
            labeled.poly.wf(),
            labeled.poly.ring == old(self).ring,
            labeled.poly@.len() > 0,
            labeled.sig.term@.len() == old(self).ring.nvars,
            old(self).with_origins ==> all_in_ring(origin@, old(self).ring) && origin@.len() == old(self).count,
            !old(self).with_origins ==> origin@.len() == 0,
            in_ideal(labeled.poly@, old(self).gens@, old(self).ring.modulus as int),
        ensures
            final(self).wf(),
            final(self).same_run(old(self)),
            final(self).keeps(old(self)),
            final(self).basis@.len() == old(self).basis@.len() + 1,
            final(self).basis@.last().sig == labeled.sig,
            final(self).basis@.last().poly@ == scaled_list(
                labeled.poly@,
                field_inverse(labeled.poly@.last().0, old(self).ring.modulus as int),
                old(self).ring.modulus as int,
            ),
            final(self).syzygy_rules@ == old(self).syzygy_rules@,
            forall|k: int| 0 <= k < old(self).queue@.len() ==> #[trigger] final(self).queue@[k] == old(self).queue@[k],
            r is Ok <==> forall|k: int|
                0 <= k < old(self).basis@.len() ==> #[trigger] pair_fits(
                    old(self).basis@[k],
                    final(self).basis@.last(),
                ),
            r matches Err(e) ==> e == RunError::Compute(ComputeError::DegreeLimit { limit: DEGREE_LIMIT }),
    {
        let mut origin = origin;
        let monic = origin::make_monic(&labeled.poly, &mut origin, self.ring.modulus);
        let new_index = self.basis.len();
        let ghost old_basis = self.basis@;
        self.basis.push(LabeledPoly { sig: labeled.sig, poly: monic, index: new_index });
        proof {
            assert(labeled_polys(self.basis@) =~= labeled_polys(old_basis).push(monic@));
            let pi = self.ring.modulus as int;
            let lp = labeled_polys(self.basis@);
            lemma_ideal_scaled(labeled.poly@, field_inverse(labeled.poly@.last().0, pi), self.gens@, pi);
            assert forall|k: int| 0 <= k < lp.len() implies #[trigger] in_ideal(lp[k], self.gens@, pi) by {
                if k < old_basis.len() {
                    assert(lp[k] == labeled_polys(old_basis)[k]);
                }
            }
            assert forall|k: int| 0 <= k < self.basis@.len() implies (#[trigger] self.basis@[k]).poly.wf()
                && self.basis@[k].poly.ring == self.ring && self.basis@[k].sig.term@.len() == self.ring.nvars by {
                if k < old_basis.len() {
                    assert(self.basis@[k] == old_basis[k]);
                }
            }
            assert forall|k: int| 0 <= k < self.basis@.len() implies (#[trigger] self.basis@[k]).index == k by {
                if k < old_basis.len() {
                    assert(self.basis@[k] == old_basis[k]);
                }
            }
        }
        if self.with_origins {
            let ghost old_origins = self.origins@;
            self.origins.push(origin);
            proof {
                assert forall|k: int| 0 <= k < self.origins@.len() implies all_in_ring((#[trigger] self.origins@[k])@, self.ring)
                    && self.origins@[k]@.len() == self.count by {
                    if k < old_origins.len() {
                        assert(self.origins@[k] == old_origins[k]);
                    }
                }
            }
        }
        let ghost grown = self.basis@;
        let ghost grown_origins = self.origins@;
        proof {
            assert forall|k: int| 0 <= k < old(self).origins@.len() implies #[trigger] self.origins@[k]
                == old(self).origins@[k] by {}
        }
        let mut index: usize = 0;
        while index < new_index
            invariant
                self.wf(),
                self.same_run(old(self)),
                self.basis@.len() == new_index + 1,
                new_index == old(self).basis@.len(),
                self.basis@ == grown,
                grown.last().sig == labeled.sig,
                grown.last().poly@ == scaled_list(
                    labeled.poly@,
                    field_inverse(labeled.poly@.last().0, old(self).ring.modulus as int),
                    old(self).ring.modulus as int,
                ),
                self.origins@ == grown_origins,
                forall|k: int| 0 <= k < new_index ==> #[trigger] grown[k] == old(self).basis@[k],
                old(self).origins@.len() <= grown_origins.len(),
                forall|k: int| 0 <= k < old(self).origins@.len() ==> #[trigger] grown_origins[k] == old(self).origins@[k],
                self.syzygy_rules@ == old(self).syzygy_rules@,
                forall|k: int| 0 <= k < old(self).queue@.len() ==> #[trigger] self.queue@[k] == old(self).queue@[k],
                old(self).queue@.len() <= self.queue@.len(),
                index <= new_index,
                forall|k: int| 0 <= k < index ==> #[trigger] pair_fits(old(self).basis@[k], grown.last()),
            decreases new_index - index,
        {
            let ghost before = self.queue@;
            let res = push_pair(&mut self.queue, self.syzygy_rules.as_slice(), self.basis.as_slice(), index, new_index);
            proof {
                let f = self.basis@[index as int];
                let g = self.basis@[new_index as int];
                let lf = f.poly@.last().1;
                let lg = g.poly@.last().1;
                let sf = lifted_sig(f.sig@, lf, lg);
                let sg = lifted_sig(g.sig@, lg, lf);
                assert(f.sig.term@.len() == self.ring.nvars && g.sig.term@.len() == self.ring.nvars);
                assert(labeled_polys(self.basis@)[index as int] == f.poly@);
                assert(labeled_polys(self.basis@)[new_index as int] == g.poly@);
                assert(f.poly.wf() && g.poly.wf());
                assert(f.poly@.last() == f.poly@[f.poly@.len() - 1] && 0 < f.poly@[f.poly@.len() - 1].0);
                assert(g.poly@.last() == g.poly@[g.poly@.len() - 1] && 0 < g.poly@[g.poly@.len() - 1].0);
                assert(sf.1.len() == self.ring.nvars && sg.1.len() == self.ring.nvars);
                assert(larger_sig(sf, sg).1.len() == self.ring.nvars);
                assert forall|k: int| 0 <= k < self.queue@.len() implies (#[trigger] self.queue@[k]).i < self.queue@[k].j
                    < self.basis@.len() && self.queue@[k].sig.term@.len() == self.ring.nvars by {
                    if k < before.len() {
                        assert(self.queue@[k] == before[k]);
                    } else {
                        assert(pair_views(self.queue@).len() == pair_views(before).len() + 1);
                        assert(pair_views(self.queue@)[k] == self.queue@[k]@);
                        assert(pair_views(self.queue@)[k] == (larger_sig(sf, sg), index, new_index));
                    }
                }
            }
            proof {
                assert(self.basis@[index as int] == old(self).basis@[index as int]);
                assert(self.basis@[new_index as int] == grown.last());
            }
            match res {
                Ok(()) => {},
                Err(e) => {
                    proof {
                        assert(!pair_fits(old(self).basis@[index as int], grown.last()));
                    }
                    return Err(e);
                },
            }
            index += 1;
        }
        Ok(())
    }

    /// Add generator `index`: make it monic, reduce it regularly by the
    /// basis, and keep it as a new element, or record its signature as a
    /// syzygy where it reduces to zero.
    fn seed(&mut self, generator: &Polynomial, index: usize, limits: &ComputeLimits) -> (r: Result<(), RunError>)
        requires
            old(self).wf(),
            generator.wf(),
            generator.ring == old(self).ring,
            index < old(self).count,
            in_ideal(generator@, old(self).gens@, old(self).ring.modulus as int),
        ensures
            final(self).wf(),
            final(self).same_run(old(self)),
            final(self).keeps(old(self)),
            final(self).basis@.len() <= old(self).basis@.len() + 1,
            r is Ok ==> {
                ||| final(self).basis@.len() == old(self).basis@.len() + 1 && final(self).syzygy_rules@ == old(
                    self,
                ).syzygy_rules@ && final(self).basis@.last().sig@ == (
                    index,
                    Seq::new(old(self).ring.nvars as nat, |k: int| 0u16),
                )
                ||| final(self).basis@.len() == old(self).basis@.len() && sig_views(final(self).syzygy_rules@)
                    == rules_with(
                    sig_views(old(self).syzygy_rules@),
                    (index, Seq::new(old(self).ring.nvars as nat, |k: int| 0u16)),
                )
            },
            r matches Err(e) ==> classic_stop(*limits, e),
            r is Ok && generator@.len() > 0 ==> lead_divisible(generator@.last().1, labeled_polys(final(self).basis@)),
    {
        match self.check_limits(limits) {
            Ok(()) => {},
            Err(e) => {
                return Err(e);
            },
        }
        let signature = Signature { index, term: Monomial::one(self.ring.nvars) };
        let mut origin: Origin = if self.with_origins {
            origin::unit(&self.ring, index, self.count)
        } else {
            Vec::new()
        };
        let monic = origin::make_monic(generator, &mut origin, self.ring.modulus);
        let labeled = LabeledPoly { sig: signature, poly: monic, index: self.basis.len() };
        let (reduced, origin) = match f5_reduce(
            labeled,
            origin,
            self.basis.as_slice(),
            self.origins.as_slice(),
            self.with_origins,
        ) {
            Ok(pair) => pair,
            Err(e) => {
                return Err(e);
            },
        };
        proof {
            if generator@.len() > 0 {
                assert(monic@.last().1 == generator@.last().1) by {
                    assert(monic@.last() == monic@[monic@.len() - 1]);
                    assert(generator@.last() == generator@[generator@.len() - 1]);
                }
            }
            let pi = self.ring.modulus as int;
            let bs = labeled_polys(self.basis@);
            lemma_ideal_monic(self.gens@, generator@, monic@, pi);
            let qs = choose|qs: Seq<Seq<TermView>>|
                #[trigger] division_identity(monic@, qs, bs, reduced.poly@, pi) && regular_quotients(
                    qs,
                    labeled_sigs(self.basis@),
                    bs,
                    signature@,
                ) && qs.len() == self.basis@.len();
            lemma_ideal_division(monic@, qs, bs, reduced.poly@, self.gens@, pi);
        }
        if reduced.poly.terms.len() == 0 {
            add_syzygy_rule(&mut self.syzygy_rules, reduced.sig);
            proof {
                self.lemma_rules_fit(old(self).syzygy_rules@);
                assert(reduced.poly@.len() == reduced.poly.terms@.len());
            }
            return Ok(());
        }
        proof {
            assert(reduced.poly@.len() == reduced.poly.terms@.len());
        }
        let ghost before = self.basis@;
        let ghost lead_r = reduced.poly@.last().1;
        let res = self.insert(reduced, origin);
        proof {
            if res is Ok && generator@.len() > 0 {
                let nb = self.basis@;
                let last = nb[nb.len() - 1];
                assert(last.poly@.last().1 == lead_r) by {
                    assert(last.poly@.last() == last.poly@[last.poly@.len() - 1]);
                }
                if lead_divisible(generator@.last().1, labeled_polys(before)) {
                    lemma_divisible_grows(generator@.last().1, before, nb);
                } else {
                    assert(lead_r == generator@.last().1);
                    assert(labeled_polys(nb)[nb.len() - 1] == last.poly@);
                    assert(divides_spec(labeled_polys(nb)[nb.len() - 1].last().1, generator@.last().1));
                }
            }
        }
        res
    }


    /// Process one critical pair: skip it where a syzygy rule covers its
    /// signature, else reduce its S-polynomial regularly and keep a nonzero
    /// result that brings something new, or record a syzygy.
    fn process_pair(&mut self, pair: CriticalPair, limits: &ComputeLimits) -> (r: Result<(), RunError>)
        requires
            old(self).wf(),
            pair.i < pair.j < old(self).basis@.len(),
            pair.sig.term@.len() == old(self).ring.nvars,
        ensures
            final(self).wf(),
            final(self).same_run(old(self)),
            final(self).keeps(old(self)),
            final(self).basis@.len() <= old(self).basis@.len() + 1,
            r is Ok ==> {
                ||| final(self).basis@.len() == old(self).basis@.len() + 1 && final(self).syzygy_rules@ == old(
                    self,
                ).syzygy_rules@ && final(self).basis@.last().sig@ == pair.sig@
                ||| final(self).basis@.len() == old(self).basis@.len() && final(self).syzygy_rules@ == old(
                    self,
                ).syzygy_rules@
                ||| final(self).basis@.len() == old(self).basis@.len() && sig_views(final(self).syzygy_rules@)
                    == rules_with(sig_views(old(self).syzygy_rules@), pair.sig@)
            },
            r matches Err(e) ==> classic_stop(*limits, e),
            final(self).basis@.len() == old(self).basis@.len() + 1 ==> !dominated(
                old(self).basis@,
                final(self).basis@.last(),
            ),
            final(self).basis@.len() == old(self).basis@.len() ==> final(self).queue@ == old(self).queue@,
    {
        match self.check_limits(limits) {
            Ok(()) => {},
            Err(e) => {
                return Err(e);
            },
        }
        if is_syzygy(&pair.sig, self.syzygy_rules.as_slice()) {
            return Ok(());
        }
        proof {
            assert(labeled_polys(self.basis@)[pair.i as int] == self.basis@[pair.i as int].poly@);
            assert(labeled_polys(self.basis@)[pair.j as int] == self.basis@[pair.j as int].poly@);
            if self.with_origins {
                assert(self.origins@[pair.i as int]@.len() == self.count);
            }
        }
        let (polynomial, origin) = match spolynomial(
            self.basis.as_slice(),
            self.origins.as_slice(),
            pair.i,
            pair.j,
            self.with_origins,
        ) {
            Ok(pair) => pair,
            Err(e) => {
                return Err(e);
            },
        };
        if polynomial.terms.len() == 0 {
            let ghost before = self.syzygy_rules@;
            add_syzygy_rule(&mut self.syzygy_rules, pair.sig);
            proof {
                self.lemma_rules_fit(before);
            }
            return Ok(());
        }
        proof {
            let pi = self.ring.modulus as int;
            let bs = labeled_polys(self.basis@);
            let f = bs[pair.i as int];
            let g = bs[pair.j as int];
            assert(f == self.basis@[pair.i as int].poly@);
            assert(g == self.basis@[pair.j as int].poly@);
            assert(in_ideal(f, self.gens@, pi));
            assert(in_ideal(g, self.gens@, pi));
            let u = (g.last().0, crate::exact::cofactor_of(f.last().1, g.last().1));
            let v = (f.last().0, crate::exact::cofactor_of(g.last().1, f.last().1));
            lemma_ideal_term(f, u, self.gens@, pi);
            lemma_ideal_term(g, v, self.gens@, pi);
            assert forall|m: Seq<u16>| #[trigger] coeff_at(polynomial@, m) % pi == (coeff_at(scale_by_term(f, u, pi), m)
                + crate::poly::signed_coeff(coeff_at(scale_by_term(g, v, pi), m), true)) % pi by {
                vstd::arithmetic::div_mod::lemma_mod_twice(
                    coeff_at(scale_by_term(f, u, pi), m) + crate::poly::signed_coeff(
                        coeff_at(scale_by_term(g, v, pi), m),
                        true,
                    ),
                    pi,
                );
            }
            lemma_ideal_combination(
                polynomial@,
                scale_by_term(f, u, pi),
                scale_by_term(g, v, pi),
                true,
                self.gens@,
                pi,
            );
        }
        let labeled = LabeledPoly { sig: pair.sig, poly: polynomial, index: self.basis.len() };
        let (reduced, origin) = match f5_reduce(
            labeled,
            origin,
            self.basis.as_slice(),
            self.origins.as_slice(),
            self.with_origins,
        ) {
            Ok(pair) => pair,
            Err(e) => {
                return Err(e);
            },
        };
        proof {
            let pi = self.ring.modulus as int;
            let bs = labeled_polys(self.basis@);
            let qs = choose|qs: Seq<Seq<TermView>>|
                #[trigger] division_identity(polynomial@, qs, bs, reduced.poly@, pi) && regular_quotients(
                    qs,
                    labeled_sigs(self.basis@),
                    bs,
                    pair.sig@,
                ) && qs.len() == self.basis@.len();
            lemma_ideal_division(polynomial@, qs, bs, reduced.poly@, self.gens@, pi);
        }
        if reduced.poly.terms.len() == 0 {
            let ghost before = self.syzygy_rules@;
            add_syzygy_rule(&mut self.syzygy_rules, reduced.sig);
            proof {
                self.lemma_rules_fit(before);
            }
            return Ok(());
        }
        if is_sig_redundant(&reduced, self.basis.as_slice()) {
            return Ok(());
        }
        proof {
            assert(reduced.poly@.len() == reduced.poly.terms@.len());
        }
        let ghost before = self.basis@;
        let ghost kept = reduced;
        let res = self.insert(reduced, origin);
        proof {
            let last = self.basis@.last();
            let p = self.ring.modulus as int;
            let lead = kept.poly@.len() - 1;
            assert(last.poly@[lead].1 == kept.poly@[lead].1);
            assert(last.poly@.last().1 == kept.poly@.last().1);
            assert forall|k: int| 0 <= k < before.len() implies !dominates(#[trigger] before[k], last) by {
                assert(!dominates(before[k], kept));
            }
        }
        match res {
            Ok(()) => Ok(()),
            Err(e) => Err(e),
        }
    }

    /// Process the queued pairs, smallest first, until none is left.
    ///
    /// Each pass either takes a pair off the queue and leaves the basis as
    /// it was, or keeps one element that no earlier element dominates; by
    /// [`lemma_fresh_bound`] the second happens only finitely often.
    fn drain_pairs(&mut self, limits: &ComputeLimits) -> (r: Result<(), RunError>)
        requires
            old(self).wf(),
        ensures
            final(self).wf(),
            final(self).same_run(old(self)),
            final(self).keeps(old(self)),
            r is Ok ==> final(self).queue@.len() == 0,
            r matches Err(e) ==> classic_stop(*limits, e),
    {
        let ghost nv = self.ring.nvars as nat;
        proof {
            self.lemma_shaped();
            lemma_fresh_bound(self.basis@, nv);
        }
        loop
            invariant
                self.wf(),
                self.same_run(old(self)),
                self.keeps(old(self)),
                nv == self.ring.nvars,
                fresh_count(self.basis@) <= triple_count(nv),
            decreases triple_count(nv) - fresh_count(self.basis@), self.queue@.len(),
        {
            let ghost basis_before = self.basis@;
            let ghost queue_len = self.queue@.len();
            let ghost before = self.queue@;
            let popped = pop_min(&mut self.queue, Ghost(self.ring.nvars as nat));
            match popped {
                None => {
                    return Ok(());
                },
                Some(pair) => {
                    proof {
                        let k = choose|k: int|
                            0 <= k < before.len() && pair == before[k] && self.queue@ == before.remove(k) && forall|
                                l: int,
                            | 0 <= l < before.len() ==> !pair_less(#[trigger] before[l]@, pair@);
                        assert forall|l: int| 0 <= l < self.queue@.len() implies (#[trigger] self.queue@[l]).i
                            < self.queue@[l].j < self.basis@.len() && self.queue@[l].sig.term@.len() == self.ring.nvars by {
                            if l < k {
                                assert(self.queue@[l] == before[l]);
                            } else {
                                assert(self.queue@[l] == before[l + 1]);
                            }
                        }
                        assert(pair == before[k]);
                    }
                    let ghost popped_queue = self.queue@;
                    match self.process_pair(pair, limits) {
                        Ok(()) => {},
                        Err(e) => {
                            return Err(e);
                        },
                    }
                    proof {
                        self.lemma_shaped();
                        lemma_fresh_bound(self.basis@, nv);
                        if self.basis@.len() == basis_before.len() {
                            assert(self.basis@ =~= basis_before);
                            assert(self.queue@.len() == popped_queue.len());
                            assert(popped_queue.len() == queue_len - 1);
                        } else {
                            assert(self.basis@.drop_last() =~= basis_before);
                        }
                    }
                },
            }
        }
    }

    /// The basis elements are nonzero, with signature terms and leading
    /// monomials of the ring's width.
    proof fn lemma_shaped(&self)
        requires
            self.wf(),
        ensures
            shaped(self.basis@, self.ring.nvars as nat),
    {
        assert forall|k: int| 0 <= k < self.basis@.len() implies (#[trigger] self.basis@[k]).poly@.len() > 0
            && self.basis@[k].sig.term@.len() == self.ring.nvars && self.basis@[k].poly@.last().1.len()
            == self.ring.nvars by {
            let ps = labeled_polys(self.basis@);
            assert(ps[k] == self.basis@[k].poly@);
            assert(self.basis@[k].poly.wf());
            let v = self.basis@[k].poly@;
            assert(v.last() == v[v.len() - 1]);
        }
    }

    /// The basis polynomials and their cofactors.
    fn finish(self) -> (r: (Vec<Polynomial>, Vec<Origin>))
        requires
            self.wf(),
        ensures
            all_in_ring(r.0@, self.ring),
            all_monic(poly_views(r.0@)),
            r.0@.len() == self.basis@.len(),
            poly_views(r.0@) == labeled_polys(self.basis@),
            self.with_origins ==> r.1@.len() == r.0@.len() && origins_ok(r.1@, self.ring, self.count as nat),
    {
        let mut polys: Vec<Polynomial> = Vec::new();
        let mut k: usize = 0;
        while k < self.basis.len()
            invariant
                self.wf(),
                k <= self.basis@.len(),
                polys@.len() == k,
                forall|j: int| 0 <= j < k ==> (#[trigger] polys@[j])@ == self.basis@[j].poly@ && polys@[j].ring
                    == self.basis@[j].poly.ring,
            decreases self.basis@.len() - k,
        {
            polys.push(self.basis[k].poly.copy());
            k += 1;
        }
        proof {
            assert(poly_views(polys@) =~= labeled_polys(self.basis@)) by {
                assert forall|j: int| 0 <= j < polys@.len() implies #[trigger] poly_views(polys@)[j] == labeled_polys(
                    self.basis@,
                )[j] by {
                    assert(polys@[j]@ == self.basis@[j].poly@);
                }
            }
        }
        proof {
            assert forall|j: int| 0 <= j < polys@.len() implies (#[trigger] polys@[j]).wf() && polys@[j].ring == self.ring by {
                assert(self.basis@[j].poly.wf());
            }
            assert forall|j: int| 0 <= j < polys@.len() implies (#[trigger] poly_views(polys@)[j]).len() > 0
                && poly_views(polys@)[j].last().0 == 1 by {
                assert(labeled_polys(self.basis@)[j] == self.basis@[j].poly@);
            }
        }
        (polys, self.origins)
    }

    /// Rules that join the rules keep the width of the ring.
    proof fn lemma_rules_fit(&self, before: Seq<Signature>)
        requires
            forall|k: int| 0 <= k < before.len() ==> (#[trigger] before[k]).term@.len() == self.ring.nvars,
            exists|sig: (usize, Seq<u16>)|
                sig.1.len() == self.ring.nvars && sig_views(self.syzygy_rules@) == #[trigger] rules_with(
                    sig_views(before),
                    sig,
                ),
        ensures
            forall|k: int| 0 <= k < self.syzygy_rules@.len() ==> (#[trigger] self.syzygy_rules@[k]).term@.len() == self.ring.nvars,
    {
        let sig = choose|sig: (usize, Seq<u16>)|
            sig.1.len() == self.ring.nvars && sig_views(self.syzygy_rules@) == #[trigger] rules_with(
                sig_views(before),
                sig,
            );
        let bs = sig_views(before);
        let pred = |rule: (usize, Seq<u16>)| !superseded(rule, sig);
        assert forall|k: int| 0 <= k < self.syzygy_rules@.len() implies (#[trigger] self.syzygy_rules@[k]).term@.len()
            == self.ring.nvars by {
            assert(sig_views(self.syzygy_rules@)[k] == self.syzygy_rules@[k]@);
            if covered(bs, sig) {
                assert(bs[k] == before[k]@);
            } else {
                let kept = bs.filter(pred);
                assert(sig_views(self.syzygy_rules@) == kept.push(sig));
                if k == kept.len() {
                    assert(kept.push(sig)[k] == sig);
                } else {
                    assert(kept.push(sig)[k] == kept[k]);
                    assert(kept.contains(kept[k]));
                    bs.lemma_filter_contains_rev(pred, kept[k]);
                    assert(bs.contains(kept[k]));
                    let l = choose|l: int| 0 <= l < bs.len() && bs[l] == kept[k];
                    assert(bs[l] == before[l]@);
                }
            }
        }
    }

}


/// Run the classic engine to a basis that the interreduction turns into
/// the reduced one, with the cofactors when `with_origins`.
fn solve_raw_with_limits(
    ring: &PolynomialRing,
    generators: &[Polynomial],
    limits: &ComputeLimits,
    with_origins: bool,
) -> (r: Result<(Vec<Polynomial>, Vec<Origin>), RunError>)
    requires
        ring.wf(),
        all_in_ring(generators@, *ring),
    ensures
        r matches Ok((raw, origins)) ==> {
            &&& all_in_ring(raw@, *ring)
            &&& all_monic(poly_views(raw@))
            &&& leads_covered(poly_views(generators@), poly_views(raw@))
            &&& all_in_ideal(poly_views(raw@), poly_views(generators@), ring.modulus as int)
            &&& with_origins ==> origins@.len() == raw@.len() && origins_ok(origins@, *ring, generators@.len())
        },
        r matches Err(e) ==> classic_stop(*limits, e),
        !degrees_fit(generators@) ==> r == Err::<(Vec<Polynomial>, Vec<Origin>), RunError>(
            RunError::Compute(ComputeError::DegreeLimit { limit: DEGREE_LIMIT }),
        ),
{
    match check_input_degrees(generators) {
        Ok(()) => {},
        Err(e) => {
            return Err(e);
        },
    }
    let count = generators.len();
    let mut state = ClassicState {
        ring: *ring,
        basis: Vec::new(),
        origins: Vec::new(),
        syzygy_rules: Vec::new(),
        queue: Vec::new(),
        with_origins,
        count,
        gens: Ghost(poly_views(generators@)),
    };
    proof {
        assert(labeled_polys(state.basis@) =~= Seq::<Seq<TermView>>::empty());
    }
    let mut index: usize = 0;
    while index < generators.len()
        invariant
            state.wf(),
            state.ring == *ring,
            state.count == generators@.len(),
            state.with_origins == with_origins,
            state.gens@ == poly_views(generators@),
            all_in_ring(generators@, *ring),
            degrees_fit(generators@),
            index <= generators@.len(),
            forall|i: int|
                0 <= i < index && (#[trigger] generators@[i])@.len() > 0 ==> lead_divisible(
                    generators@[i]@.last().1,
                    labeled_polys(state.basis@),
                ),
        decreases generators@.len() - index,
    {
        let ghost b0 = state.basis@;
        proof {
            let gv = poly_views(generators@);
            assert(gv[index as int] == generators@[index as int]@);
            assert(generators@[index as int].wf());
            assert(crate::product::terms_len(gv[index as int], ring.nvars as nat)) by {
                assert forall|i: int| 0 <= i < gv[index as int].len() implies (#[trigger] gv[index as int][i]).1.len()
                    == ring.nvars by {
                    assert(crate::poly::terms_in_ring(gv[index as int], ring.modulus as int, ring.nvars as nat));
                    assert(0 < gv[index as int][i].0);
                }
            }
            lemma_ideal_generator(gv, index as int, ring.nvars as nat, ring.modulus as int);
        }
        match state.seed(&generators[index], index, limits) {
            Ok(()) => {},
            Err(e) => {
                return Err(e);
            },
        }
        let ghost b1 = state.basis@;
        match state.drain_pairs(limits) {
            Ok(()) => {},
            Err(e) => {
                return Err(e);
            },
        }
        proof {
            assert forall|i: int|
                0 <= i < index + 1 && (#[trigger] generators@[i])@.len() > 0 implies lead_divisible(
                generators@[i]@.last().1,
                labeled_polys(state.basis@),
            ) by {
                if i < index {
                    lemma_divisible_grows(generators@[i]@.last().1, b0, b1);
                    lemma_divisible_grows(generators@[i]@.last().1, b1, state.basis@);
                } else {
                    lemma_divisible_grows(generators@[i]@.last().1, b1, state.basis@);
                }
            }
        }
        index += 1;
    }
    match state.check_limits(limits) {
        Ok(()) => {},
        Err(e) => {
            return Err(e);
        },
    }
    let ghost fb = state.basis@;
    let out = state.finish();
    proof {
        let gv = poly_views(generators@);
        let rv = poly_views(out.0@);
        assert forall|j: int| 0 <= j < gv.len() && (#[trigger] gv[j]).len() > 0 implies exists|k: int|
            0 <= k < rv.len() && divides_spec(#[trigger] lead_of(rv[k]), lead_of(gv[j])) by {
            assert(gv[j] == generators@[j]@);
            let gs = labeled_polys(fb);
            assert(lead_divisible(generators@[j]@.last().1, gs));
            let k = choose|k: int| 0 <= k < gs.len() && gs[k].len() > 0 && #[trigger] divides_spec(gs[k].last().1, generators@[j]@.last().1);
            assert(rv == gs);
            assert(rv[k] == gs[k]);
            assert(divides_spec(lead_of(rv[k]), lead_of(gv[j])));
        }
    }
    Ok(out)
}

/// Run the classic backend under the limits of the call.
///
/// The result is interreduced: nonzero and monic, strictly descending by
/// leading monomial, and no element has a term that the leading monomial
/// of another divides. The run always ends: with no deadline, flag or
/// memory limit, the result is a basis or the degree error.
pub fn solve_checked(ring: &PolynomialRing, generators: &[Polynomial], limits: &ComputeLimits) -> (r: Result<
    Vec<Polynomial>,
    RunError,
>)
    requires
        ring.wf(),
        all_in_ring(generators@, *ring),
    ensures
        r matches Ok(out) ==> all_in_ring(out@, *ring) && is_interreduced(poly_views(out@)),
        r matches Ok(out) ==> leads_covered(poly_views(generators@), poly_views(out@)),
        r matches Ok(out) ==> all_in_ideal(poly_views(out@), poly_views(generators@), ring.modulus as int),
        r matches Err(e) ==> classic_stop(*limits, e),
        !degrees_fit(generators@) ==> r == Err::<Vec<Polynomial>, RunError>(
            RunError::Compute(ComputeError::DegreeLimit { limit: DEGREE_LIMIT }),
        ),
        limits.is_open() && limits.memory is None ==> (r is Ok || r == Err::<Vec<Polynomial>, RunError>(
            RunError::Compute(ComputeError::DegreeLimit { limit: DEGREE_LIMIT }),
        )),
{
    let (raw, _) = match solve_raw_with_limits(ring, generators, limits, false) {
        Ok(pair) => pair,
        Err(e) => {
            return Err(e);
        },
    };
    let ghost rv = poly_views(raw@);
    let r = reduced_groebner_basis_checked(ring, raw, limits);
    proof {
        if r is Ok {
            let out = r->Ok_0;
            assert forall|k: int| 0 <= k < rv.len() implies (#[trigger] rv[k]).len() > 0 by {}
            lemma_covered_trans(poly_views(generators@), rv, poly_views(out@));
            lemma_ideal_chain(poly_views(out@), rv, poly_views(generators@), ring.modulus as int);
        }
    }
    r
}

/// Run the classic backend and keep the origin cofactors of the result:
/// one cofactor list per basis element, one cofactor per generator.
///
/// The tracking runs only here; [`solve_checked`] carries none of it.
pub fn solve_tracked(ring: &PolynomialRing, generators: &[Polynomial], limits: &ComputeLimits) -> (r: Result<
    (Vec<Polynomial>, Vec<Origin>),
    RunError,
>)
    requires
        ring.wf(),
        all_in_ring(generators@, *ring),
    ensures
        r matches Ok((out, origins)) ==> {
            &&& all_in_ring(out@, *ring)
            &&& is_interreduced(poly_views(out@))
            &&& origins@.len() == out@.len()
            &&& origins_ok(origins@, *ring, generators@.len())
            &&& leads_covered(poly_views(generators@), poly_views(out@))
            &&& all_in_ideal(poly_views(out@), poly_views(generators@), ring.modulus as int)
        },
        r matches Err(e) ==> classic_stop(*limits, e),
        !degrees_fit(generators@) ==> (r matches Err(e) && e == RunError::Compute(
            ComputeError::DegreeLimit { limit: DEGREE_LIMIT },
        )),
        limits.is_open() && limits.memory is None ==> (r is Ok || (r matches Err(e) && e == RunError::Compute(
            ComputeError::DegreeLimit { limit: DEGREE_LIMIT },
        ))),
{
    let (raw, origins) = match solve_raw_with_limits(ring, generators, limits, true) {
        Ok(pair) => pair,
        Err(e) => {
            return Err(e);
        },
    };
    let ghost rv = poly_views(raw@);
    let r = reduced_groebner_basis_tracked(ring, raw, origins, generators, limits);
    proof {
        if r is Ok {
            let out = r->Ok_0.0;
            assert forall|k: int| 0 <= k < rv.len() implies (#[trigger] rv[k]).len() > 0 by {}
            lemma_covered_trans(poly_views(generators@), rv, poly_views(out@));
            lemma_ideal_chain(poly_views(out@), rv, poly_views(generators@), ring.modulus as int);
        }
    }
    r
}

/// Run the classic backend with no budget.
pub fn solve(ring: &PolynomialRing, generators: &[Polynomial]) -> (r: Result<Vec<Polynomial>, RunError>)
    requires
        ring.wf(),
        all_in_ring(generators@, *ring),
    ensures
        r matches Ok(out) ==> all_in_ring(out@, *ring) && is_interreduced(poly_views(out@)),
        r matches Ok(out) ==> leads_covered(poly_views(generators@), poly_views(out@)),
        r matches Ok(out) ==> all_in_ideal(poly_views(out@), poly_views(generators@), ring.modulus as int),
        r matches Err(e) ==> e == RunError::Compute(ComputeError::DegreeLimit { limit: DEGREE_LIMIT }),
        !degrees_fit(generators@) ==> r == Err::<Vec<Polynomial>, RunError>(
            RunError::Compute(ComputeError::DegreeLimit { limit: DEGREE_LIMIT }),
        ),
{
    solve_checked(ring, generators, &ComputeLimits::none())
}

} // verus!
