//! Division traces over the final basis.

use vstd::prelude::*;

use crate::cert::Budget;
use crate::cert::divide::{
    DEADLINE_STRIDE,
    lemma_quotient_times,
    lemma_reduction_lowers,
    lemma_scale_fits_by_degree,
    poly_views,
};
use crate::cert::saturating_add;
use crate::certificate::CertifyError;
use crate::compute::{ComputeError, DEGREE_LIMIT};
use crate::field::Felt;
use crate::monomial::{Monomial, degree_of, divides_spec, grevlex_rank, lemma_grevlex_rank_less, mono_div};
use crate::poly::{Polynomial, TermView, coeff_at, scale_by_term, terms_wf};

verus! {

/// One step of a division trace: subtract `lc(residual) * mono *
/// basis[element]`.
///
/// The certificate carries no coefficient, because the leading coefficient
/// of the residual is the only one that cancels the lead.
#[derive(Clone, Debug, PartialEq, Eq)]
pub struct Step {
    /// The multiplier.
    pub mono: Monomial,
    /// The index of the element in the basis.
    pub element: u32,
}

/// Element `e` is the first element of `gs` whose leading monomial, of
/// the width of `m`, divides `m`.
pub open spec fn first_divisor(gs: Seq<Seq<TermView>>, m: Seq<u16>, e: int) -> bool {
    &&& 0 <= e < gs.len()
    &&& gs[e].len() > 0 && gs[e].last().1.len() == m.len() && divides_spec(gs[e].last().1, m)
    &&& forall|j: int|
        0 <= j < e && (#[trigger] gs[j]).len() > 0 && gs[j].last().1.len() == m.len() ==> !divides_spec(
            gs[j].last().1,
            m,
        )
}

/// No leading monomial of `gs` of the width of `m` divides `m`.
pub open spec fn no_divisor(gs: Seq<Seq<TermView>>, m: Seq<u16>) -> bool {
    forall|j: int|
        0 <= j < gs.len() && (#[trigger] gs[j]).len() > 0 && gs[j].last().1.len() == m.len() ==> !divides_spec(
            gs[j].last().1,
            m,
        )
}

/// `rs` lists the residuals of a division by `gs` modulo `p`: each one
/// canonical, each step `k` subtracting the leading coefficient of
/// residual `k` times `mono_k` times the first element whose leading
/// monomial divides the leading monomial of residual `k`.
pub open spec fn replays(
    rs: Seq<Seq<TermView>>,
    steps: Seq<(Seq<u16>, u32)>,
    gs: Seq<Seq<TermView>>,
    p: int,
    nvars: nat,
) -> bool {
    &&& rs.len() == steps.len() + 1
    &&& forall|k: int| 0 <= k < rs.len() ==> terms_wf(#[trigger] rs[k], p, nvars)
    &&& forall|k: int| 0 <= k < steps.len() ==> #[trigger] step_ok(rs, steps, gs, p, k)
}

/// Step `k` takes residual `k` to residual `k + 1`.
pub open spec fn step_ok(
    rs: Seq<Seq<TermView>>,
    steps: Seq<(Seq<u16>, u32)>,
    gs: Seq<Seq<TermView>>,
    p: int,
    k: int,
) -> bool {
    &&& rs[k].len() > 0
    &&& first_divisor(gs, rs[k].last().1, steps[k].1 as int)
    &&& steps[k].0 == mono_div(rs[k].last().1, gs[steps[k].1 as int].last().1)
    &&& forall|m: Seq<u16>|
        #[trigger] coeff_at(rs[k + 1], m) == (coeff_at(rs[k], m) - coeff_at(
            scale_by_term(gs[steps[k].1 as int], (rs[k].last().0, steps[k].0), p),
            m,
        )) % p
}


/// One more step keeps a replay a replay.
proof fn lemma_replays_push(
    rs: Seq<Seq<TermView>>,
    steps: Seq<(Seq<u16>, u32)>,
    gs: Seq<Seq<TermView>>,
    p: int,
    nvars: nat,
    next: Seq<TermView>,
    step: (Seq<u16>, u32),
)
    requires
        replays(rs, steps, gs, p, nvars),
        terms_wf(next, p, nvars),
        rs.last().len() > 0,
        first_divisor(gs, rs.last().last().1, step.1 as int),
        step.0 == mono_div(rs.last().last().1, gs[step.1 as int].last().1),
        forall|m: Seq<u16>|
            #[trigger] coeff_at(next, m) == (coeff_at(rs.last(), m) - coeff_at(
                scale_by_term(gs[step.1 as int], (rs.last().last().0, step.0), p),
                m,
            )) % p,
    ensures
        replays(rs.push(next), steps.push(step), gs, p, nvars),
{
    let nrs = rs.push(next);
    let nsteps = steps.push(step);
    assert forall|k: int| 0 <= k < nrs.len() implies terms_wf(#[trigger] nrs[k], p, nvars) by {
        if k < rs.len() {
            assert(nrs[k] == rs[k]);
        }
    }
    assert forall|k: int| 0 <= k < nsteps.len() implies #[trigger] step_ok(nrs, nsteps, gs, p, k) by {
        if k < steps.len() {
            assert(step_ok(rs, steps, gs, p, k));
            assert(nsteps[k] == steps[k]);
            assert(nrs[k] == rs[k] && nrs[k + 1] == rs[k + 1]);
        } else {
            assert(k == steps.len());
            assert(nrs[k] == rs.last() && nrs[k + 1] == next);
        }
    }
}

/// The steps replay `f` down to zero over `gs`.
pub open spec fn reduces_to_zero(
    f: Seq<TermView>,
    steps: Seq<(Seq<u16>, u32)>,
    gs: Seq<Seq<TermView>>,
    p: int,
    nvars: nat,
) -> bool {
    exists|rs: Seq<Seq<TermView>>| #[trigger] replays(rs, steps, gs, p, nvars) && rs[0] == f && rs.last().len() == 0
}

/// Every multiplier of a division that reduces to zero has the width of
/// the residuals.
pub proof fn lemma_reduces_widths(
    f: Seq<TermView>,
    steps: Seq<(Seq<u16>, u32)>,
    gs: Seq<Seq<TermView>>,
    p: int,
    nvars: nat,
)
    requires
        reduces_to_zero(f, steps, gs, p, nvars),
    ensures
        forall|k: int| 0 <= k < steps.len() ==> (#[trigger] steps[k]).0.len() == nvars,
{
    let rs = choose|rs: Seq<Seq<TermView>>| #[trigger] replays(rs, steps, gs, p, nvars) && rs[0] == f && rs.last().len() == 0;
    assert forall|k: int| 0 <= k < steps.len() implies (#[trigger] steps[k]).0.len() == nvars by {
        assert(step_ok(rs, steps, gs, p, k));
        assert(terms_wf(rs[k], p, nvars));
        assert(rs[k].last() == rs[k][rs[k].len() - 1]);
    }
}

/// The views of a list of steps.
pub open spec fn step_views(steps: Seq<Step>) -> Seq<(Seq<u16>, u32)> {
    steps.map_values(|s: Step| (s.mono@, s.element))
}

/// Divide `f` by `basis` and record the steps.
///
/// The reducer at each step is the element with the smallest index whose
/// leading monomial divides the leading monomial of the residual. `None`
/// reports a residual that no element reduces, which is a defect in the
/// candidate the writer read. Every element of `basis` must be monic: the
/// step subtracts the leading coefficient of the residual and nothing else.
#[verifier::spinoff_prover]
pub fn divide(f: &Polynomial, basis: &[Polynomial], budget: &Budget) -> (r: Result<Option<Vec<Step>>, CertifyError>)
    requires
        f.wf(),
        basis@.len() <= u32::MAX,
        forall|j: int|
            0 <= j < basis@.len() ==> (#[trigger] basis@[j]).wf() && basis@[j].ring == f.ring && (basis@[j]@.len() > 0
                ==> basis@[j]@.last().0 == 1),
    ensures
        r matches Ok(Some(steps)) ==> reduces_to_zero(
            f@,
            step_views(steps@),
            poly_views(basis@),
            f.ring.modulus as int,
            f.ring.nvars as nat,
        ),
        r matches Ok(None) ==> exists|rs: Seq<Seq<TermView>>, steps: Seq<(Seq<u16>, u32)>|
            #[trigger] replays(rs, steps, poly_views(basis@), f.ring.modulus as int, f.ring.nvars as nat) && rs[0]
                == f@ && rs.last().len() > 0 && no_divisor(poly_views(basis@), rs.last().last().1),
        r matches Err(e) ==> (e == CertifyError::WriterExhausted(ComputeError::Timeout) && budget.stops_spec() is Some) || (e
            == CertifyError::WriterExhausted(ComputeError::MemoryLimitExceeded) && budget.memory_spec() is Some) || (e
            == CertifyError::WriterExhausted(ComputeError::ExponentLimit { limit: DEGREE_LIMIT }) && f@.len() > 0
            && degree_of(f@.last().1) > u16::MAX),
        budget.stops_spec() is None && budget.memory_spec() is None && (f@.len() == 0 || degree_of(f@.last().1)
            <= u16::MAX) ==> r is Ok,
{
    let ring = f.ring;
    let p = ring.modulus;
    let ghost pi = p as int;
    let ghost nv = ring.nvars as nat;
    let ghost gs = poly_views(basis@);
    let mut residual = f.copy();
    let mut steps: Vec<Step> = Vec::new();
    let ghost mut rs: Seq<Seq<TermView>> = seq![f@];
    let mut count: usize = 0;
    while residual.terms.len() > 0
        invariant
            f.wf(),
            ring == f.ring,
            p == ring.modulus,
            pi == p,
            nv == ring.nvars,
            gs == poly_views(basis@),
            basis@.len() <= u32::MAX,
            forall|j: int|
                0 <= j < basis@.len() ==> (#[trigger] basis@[j]).wf() && basis@[j].ring == f.ring && (basis@[j]@.len()
                    > 0 ==> basis@[j]@.last().0 == 1),
            residual.wf(),
            residual.ring == ring,
            replays(rs, step_views(steps@), gs, pi, nv),
            rs[0] == f@,
            rs.last() == residual@,
            residual@.len() > 0 ==> f@.len() > 0 && degree_of(residual@.last().1) <= degree_of(f@.last().1),
        decreases
            if residual@.len() == 0 {
                0
            } else {
                grevlex_rank(residual@.last().1) + 1
            },
    {
        if count % DEADLINE_STRIDE == 0 {
            match budget.check_deadline() {
                Ok(()) => {},
                Err(e) => {
                    return Err(CertifyError::WriterExhausted(e));
                },
            }
        }
        count = saturating_add(count, 1);
        match budget.check(1, saturating_add(residual.terms.len(), steps.len())) {
            Ok(()) => {},
            Err(e) => {
                return Err(CertifyError::WriterExhausted(e));
            },
        }
        let last = residual.terms.len() - 1;
        let ghost w = residual@;
        let ghost lead = w.last().1;
        proof {
            assert(w.last() == w[w.len() - 1]);
            assert(w[w.len() - 1] == residual.terms@[last as int]@);
            assert(0 < w[w.len() - 1].0 < pi);
            assert(w[w.len() - 1].1.len() == nv);
        }
        let lead_term = &residual.terms[last];
        let mut found: Option<(usize, Monomial)> = None;
        let mut k: usize = 0;
        while k < basis.len()
            invariant_except_break
                found is None,
            invariant
                gs == poly_views(basis@),
                lead_term@.1 == lead,
                k <= basis@.len(),
                forall|j: int|
                    0 <= j < k && (#[trigger] gs[j]).len() > 0 && gs[j].last().1.len() == lead.len() ==> !divides_spec(
                        gs[j].last().1,
                        lead,
                    ),
            ensures
                found matches Some((e, m)) ==> first_divisor(gs, lead, e as int) && m@ == mono_div(
                    lead,
                    gs[e as int].last().1,
                ),
                found is None ==> no_divisor(gs, lead),
            decreases basis@.len() - k,
        {
            let g = &basis[k];
            proof {
                assert(gs[k as int] == g@);
            }
            match g.lm() {
                Some(lm) => {
                    if lm.nvars() == lead_term.mono.nvars() {
                        match lead_term.mono.quotient(lm) {
                            Some(mono) => {
                                found = Some((k, mono));
                                proof {
                                    assert(first_divisor(gs, lead, k as int));
                                }
                                break;
                            },
                            None => {},
                        }
                    }
                },
                None => {},
            }
            k += 1;
        }
        let (index, mono) = match found {
            Some(pair) => pair,
            None => {
                proof {
                    assert(no_divisor(gs, rs.last().last().1));
                    assert(replays(rs, step_views(steps@), gs, pi, nv) && rs[0] == f@ && rs.last().len() > 0);
                }
                return Ok(None);
            },
        };
        let g = &basis[index];
        let ghost gv = gs[index as int];
        let ghost tv = (w.last().0, mono@);
        proof {
            assert(gv == g@);
            assert(g.wf());
            assert(gv.last() == gv[gv.len() - 1]);
            assert(0 < gv[gv.len() - 1].0 < pi);
            assert(gv.last().0 == 1);
            lemma_quotient_times(lead, gv.last().1);
            assert(first_divisor(gs, lead, index as int));
        }
        let coeff: Felt = residual.terms[last].coeff;
        let next = match residual.sub_scaled(g, coeff, &mono) {
            Ok(q) => q,
            Err(_) => {
                proof {
                    if degree_of(f@.last().1) <= u16::MAX {
                        lemma_scale_fits_by_degree(gv, mono@, lead, pi, nv);
                    }
                }
                return Err(CertifyError::WriterExhausted(ComputeError::ExponentLimit { limit: DEGREE_LIMIT }));
            },
        };
        proof {
            assert((tv.0 * gv.last().0) % pi == w.last().0) by {
                vstd::arithmetic::div_mod::lemma_small_mod(w.last().0 as nat, pi as nat);
            }
            lemma_reduction_lowers(w, gv, tv, next@, pi, nv);
            if next@.len() > 0 {
                assert(next@.last() == next@[next@.len() - 1]);
                assert(0 < next@[next@.len() - 1].0);
                lemma_grevlex_rank_less(next@.last().1, lead);
                assert(degree_of(next@.last().1) <= degree_of(lead));
            }
        }
        let ghost old_steps = step_views(steps@);
        let ghost old_rs = rs;
        steps.push(Step { mono, element: index as u32 });
        proof {
            rs = rs.push(next@);
            assert(step_views(steps@) =~= old_steps.push((tv.1, index as u32)));
            lemma_replays_push(old_rs, old_steps, gs, pi, nv, next@, (tv.1, index as u32));
            assert(rs == old_rs.push(next@));
        }
        residual = next;
    }
    proof {
        assert(residual@.len() == residual.terms@.len());
        assert(rs.last() == residual@);
        assert(replays(rs, step_views(steps@), poly_views(basis@), f.ring.modulus as int, f.ring.nvars as nat));
        assert(rs[0] == f@);
        assert(rs.last().len() == 0);
        assert(reduces_to_zero(f@, step_views(steps@), poly_views(basis@), f.ring.modulus as int, f.ring.nvars as nat));
    }
    let out = Some(steps);
    Ok(out)
}

} // verus!
