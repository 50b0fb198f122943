//! Division by a list of polynomials, with the quotients recorded.

use vstd::arithmetic::div_mod::*;
use vstd::prelude::*;

use super::{Budget, saturating_add, saturating_total};
use crate::certificate::CertifyError;
use crate::compute::{ComputeError, DEGREE_LIMIT};
use crate::exact::scale_fits;
use crate::field::{Felt, is_prime};
use crate::monomial::{
    Monomial,
    degree_of,
    divides_spec,
    grevlex_less,
    grevlex_rank,
    lemma_degree_mul,
    lemma_degree_nonneg,
    lemma_exponent_below_degree,
    lemma_grevlex_asymmetric,
    lemma_grevlex_irreflexive,
    lemma_grevlex_mul,
    lemma_grevlex_rank_less,
    lemma_grevlex_total,
    lemma_grevlex_transitive,
    mono_div,
    mono_mul,
    product_fits,
};
use crate::poly::{
    Polynomial,
    Term,
    TermView,
    coeff_at,
    lemma_coeff_at_concat,
    lemma_coeff_at_push,
    lemma_coeff_at_range,
    lemma_coeff_at_sorted,
    mul_views,
    scale_by_term,
    term_value,
    terms_wf,
};

verus! {

/// Steps between two reads of the clock. One step is a reduction or a
/// move to the remainder.
pub const DEADLINE_STRIDE: usize = 64;

/// `a` comes before `b` under grevlex, or equals it.
pub open spec fn grevlex_le(a: Seq<u16>, b: Seq<u16>) -> bool {
    a == b || grevlex_less(a, b)
}

/// The term lists of a list of polynomials.
pub open spec fn poly_views(s: Seq<Polynomial>) -> Seq<Seq<TermView>> {
    s.map_values(|q: Polynomial| q@)
}

/// The coefficient of `m` in `sum_j q_j * g_j`.
pub open spec fn combo_coeff(qs: Seq<Seq<TermView>>, gs: Seq<Seq<TermView>>, p: int, m: Seq<u16>) -> int
    decreases qs.len(),
{
    if qs.len() == 0 {
        0
    } else {
        combo_coeff(qs.drop_last(), gs, p, m) + coeff_at(mul_views(qs.last(), gs[qs.len() - 1], p), m)
    }
}

/// `f = sum_j q_j * g_j + r` modulo `p`, monomial by monomial.
pub open spec fn division_identity(
    f: Seq<TermView>,
    qs: Seq<Seq<TermView>>,
    gs: Seq<Seq<TermView>>,
    r: Seq<TermView>,
    p: int,
) -> bool {
    forall|m: Seq<u16>| #[trigger] coeff_at(f, m) == (combo_coeff(qs, gs, p, m) + coeff_at(r, m)) % p
}

/// No term of `r` is divisible by the leading monomial of a nonzero
/// divisor of width `nvars`.
pub open spec fn fully_reduced(r: Seq<TermView>, gs: Seq<Seq<TermView>>, nvars: nat) -> bool {
    forall|i: int, j: int|
        0 <= i < r.len() && 0 <= j < gs.len() && gs[j].len() > 0 && gs[j].last().1.len() == nvars
            ==> !divides_spec(#[trigger] gs[j].last().1, #[trigger] r[i].1)
}

/// Every quotient term times its divisor's leading monomial stays at or
/// below `lead`.
pub open spec fn quotients_bounded(qs: Seq<Seq<TermView>>, gs: Seq<Seq<TermView>>, lead: Seq<u16>) -> bool {
    forall|j: int, i: int|
        0 <= j < qs.len() && 0 <= i < qs[j].len() ==> gs[j].len() > 0 && product_fits(
            #[trigger] qs[j][i].1,
            gs[j].last().1,
        ) && grevlex_le(mono_mul(qs[j][i].1, gs[j].last().1), lead)
}

/// `f` is nonzero and no leading monomial of a nonzero divisor of width
/// `nvars` divides the leading monomial of `f`.
pub open spec fn lead_irreducible(f: Seq<TermView>, gs: Seq<Seq<TermView>>, nvars: nat) -> bool {
    &&& f.len() > 0
    &&& forall|j: int|
        0 <= j < gs.len() && (#[trigger] gs[j]).len() > 0 && gs[j].last().1.len() == nvars ==> !divides_spec(
            gs[j].last().1,
            f.last().1,
        )
}

/// A list with one term is the product of that term and the divisor.
pub(crate) proof fn lemma_mul_views_concat(a: Seq<TermView>, b: Seq<TermView>, c: Seq<TermView>, p: int)
    ensures
        mul_views(a + b, c, p) == mul_views(a, c, p) + mul_views(b, c, p),
    decreases b.len(),
{
    if b.len() == 0 {
        assert(a + b =~= a);
        assert(mul_views(a, c, p) + mul_views(b, c, p) =~= mul_views(a, c, p));
    } else {
        assert((a + b).drop_last() =~= a + b.drop_last());
        assert((a + b).last() == b.last());
        lemma_mul_views_concat(a, b.drop_last(), c, p);
        assert(mul_views(a + b, c, p) =~= mul_views(a, c, p) + mul_views(b, c, p));
    }
}

/// Replacing one quotient changes the sum by the change of its product.
pub(crate) proof fn lemma_combo_update(
    qs: Seq<Seq<TermView>>,
    gs: Seq<Seq<TermView>>,
    p: int,
    m: Seq<u16>,
    j: int,
    nq: Seq<TermView>,
)
    requires
        0 <= j < qs.len(),
    ensures
        combo_coeff(qs.update(j, nq), gs, p, m) == combo_coeff(qs, gs, p, m) - coeff_at(
            mul_views(qs[j], gs[j], p),
            m,
        ) + coeff_at(mul_views(nq, gs[j], p), m),
    decreases qs.len(),
{
    let u = qs.update(j, nq);
    if j == qs.len() - 1 {
        assert(u.drop_last() =~= qs.drop_last());
    } else {
        assert(u.drop_last() =~= qs.drop_last().update(j, nq));
        lemma_combo_update(qs.drop_last(), gs, p, m, j, nq);
    }
}

/// A list of empty quotients sums to zero.
pub(crate) proof fn lemma_combo_empty(qs: Seq<Seq<TermView>>, gs: Seq<Seq<TermView>>, p: int, m: Seq<u16>)
    requires
        forall|j: int| 0 <= j < qs.len() ==> (#[trigger] qs[j]).len() == 0,
    ensures
        combo_coeff(qs, gs, p, m) == 0,
    decreases qs.len(),
{
    if qs.len() > 0 {
        lemma_combo_empty(qs.drop_last(), gs, p, m);
        assert(qs.last() == qs[qs.len() - 1]);
        assert(mul_views(qs.last(), gs[qs.len() - 1], p) =~= Seq::<TermView>::empty());
    }
}

/// `d` divides `m`: the quotient times `d` is `m` again.
pub(crate) proof fn lemma_quotient_times(m: Seq<u16>, d: Seq<u16>)
    requires
        divides_spec(d, m),
    ensures
        product_fits(mono_div(m, d), d),
        mono_mul(mono_div(m, d), d) == m,
        mono_div(m, d).len() == m.len(),
{
    assert(mono_mul(mono_div(m, d), d) =~= m);
}

/// A reduction step cancels the leading term: every term left lies below
/// the old leading monomial.
pub(crate) proof fn lemma_reduction_lowers(
    w: Seq<TermView>,
    g: Seq<TermView>,
    t: TermView,
    q: Seq<TermView>,
    p: int,
    nvars: nat,
)
    requires
        terms_wf(w, p, nvars),
        terms_wf(g, p, nvars),
        terms_wf(q, p, nvars),
        is_prime(p as nat),
        w.len() > 0,
        g.len() > 0,
        0 < t.0 < p,
        t.1.len() == nvars,
        scale_fits(g, t.1),
        mono_mul(t.1, g.last().1) == w.last().1,
        (t.0 * g.last().0) % p == w.last().0,
        forall|m: Seq<u16>| #[trigger] coeff_at(q, m) == (coeff_at(w, m) - coeff_at(scale_by_term(g, t, p), m)) % p,
    ensures
        forall|i: int| 0 <= i < q.len() ==> grevlex_less(#[trigger] q[i].1, w.last().1),
{
    let lead = w.last().1;
    let s = scale_by_term(g, t, p);
    crate::exact::lemma_scale_by_term_wf(g, t, p, nvars);
    assert(s.last() == s[s.len() - 1]);
    assert(g.last() == g[g.len() - 1]);
    assert(s[s.len() - 1].1 == mono_mul(t.1, g.last().1));
    assert forall|i: int| 0 <= i < q.len() implies grevlex_less(#[trigger] q[i].1, lead) by {
        let mq = q[i].1;
        assert(0 < q[i].0 < p);
        assert(mq.len() == nvars);
        assert(0 < w[w.len() - 1].0);
        assert(w.last() == w[w.len() - 1]);
        lemma_coeff_at_sorted(q, mq);
        assert(coeff_at(q, mq) == q[i].0);
        if !grevlex_less(mq, lead) {
            if mq != lead {
                lemma_grevlex_total(mq, lead);
            }
            lemma_coeff_at_sorted(w, mq);
            lemma_coeff_at_sorted(s, mq);
            if mq == lead {
                assert(coeff_at(w, mq) == w.last().0);
                assert(coeff_at(s, mq) == s[s.len() - 1].0);
                assert(s[s.len() - 1].0 == (t.0 * g.last().0) % p);
                lemma_small_mod(0, p as nat);
            } else {
                assert(grevlex_less(lead, mq));
                assert forall|k: int| 0 <= k < w.len() implies #[trigger] w[k].1 != mq by {
                    assert(0 < w[k].0);
                    if k < w.len() - 1 {
                        assert(grevlex_less(w[k].1, lead));
                        lemma_grevlex_transitive(w[k].1, lead, mq);
                        lemma_grevlex_irreflexive(mq);
                    } else {
                        lemma_grevlex_irreflexive(mq);
                    }
                }
                assert forall|k: int| 0 <= k < s.len() implies #[trigger] s[k].1 != mq by {
                    assert(0 < s[k].0);
                    if k < s.len() - 1 {
                        assert(grevlex_less(s[k].1, s[s.len() - 1].1));
                        lemma_grevlex_transitive(s[k].1, lead, mq);
                        lemma_grevlex_irreflexive(mq);
                    } else {
                        lemma_grevlex_irreflexive(mq);
                    }
                }
                lemma_small_mod(0, p as nat);
            }
        }
    }
}

/// Under a leading monomial of degree at most `u16::MAX`, multiplying a
/// divisor by the quotient of two leading monomials stays in `u16`.
pub(crate) proof fn lemma_scale_fits_by_degree(g: Seq<TermView>, tm: Seq<u16>, lead: Seq<u16>, p: int, nvars: nat)
    requires
        terms_wf(g, p, nvars),
        g.len() > 0,
        tm.len() == nvars,
        product_fits(tm, g.last().1),
        mono_mul(tm, g.last().1) == lead,
        degree_of(lead) <= u16::MAX,
    ensures
        scale_fits(g, tm),
{
    let lg = g.last().1;
    assert(g.last() == g[g.len() - 1]);
    assert(0 < g[g.len() - 1].0);
    lemma_degree_mul(tm, lg);
    lemma_degree_nonneg(tm);
    assert forall|i: int| 0 <= i < g.len() implies product_fits(tm, #[trigger] g[i].1) by {
        assert(0 < g[i].0);
        lemma_degree_nonneg(g[i].1);
        if i < g.len() - 1 {
            assert(grevlex_less(g[i].1, lg));
        }
        assert(degree_of(g[i].1) <= degree_of(lg));
        assert forall|k: int| 0 <= k < tm.len() && k < g[i].1.len() implies tm[k] + g[i].1[k] <= u16::MAX by {
            lemma_exponent_below_degree(tm, k);
            lemma_exponent_below_degree(g[i].1, k);
        }
    }
}

/// Every quotient term names the first divisor that could reduce its
/// step: with `u` a term of quotient `j`, no nonzero divisor of the right
/// width before `j` has a leading monomial that divides `u * lm(g_j)`.
pub open spec fn first_divisor(qs: Seq<Seq<TermView>>, gs: Seq<Seq<TermView>>) -> bool {
    forall|j: int, t: int, i: int|
        #![trigger qs[j][t], gs[i]]
        0 <= j < qs.len() && 0 <= t < qs[j].len() && 0 <= i < j && gs[i].len() > 0 && gs[i].last().1.len()
            == qs[j][t].1.len() ==> !divides_spec(gs[i].last().1, mono_mul(qs[j][t].1, gs[j].last().1))
}

/// Look for the first nonzero divisor of the right width whose leading
/// monomial divides `lead`, and the quotient term that cancels `lead`.
fn find_reducer(lead: &Term, divisors: &[Polynomial], p: u64) -> (r: Option<(usize, Term)>)
    requires
        crate::field::valid_modulus(p),
        0 < lead.coeff.value < p,
        forall|j: int| 0 <= j < divisors@.len() ==> (#[trigger] divisors@[j]).wf() && divisors@[j].ring.modulus == p,
    ensures
        r is None ==> forall|j: int|
            0 <= j < divisors@.len() && (#[trigger] divisors@[j])@.len() > 0 && divisors@[j]@.last().1.len()
                == lead.mono@.len() ==> !divides_spec(divisors@[j]@.last().1, lead.mono@),
        r matches Some((j, t)) ==> 0 <= j < divisors@.len() && divisors@[j as int]@.len() > 0
            && divisors@[j as int]@.last().1.len() == lead.mono@.len() && divides_spec(
            divisors@[j as int]@.last().1,
            lead.mono@,
        ) && t.mono@ == mono_div(lead.mono@, divisors@[j as int]@.last().1) && 0 < t.coeff.value < p && (
        t.coeff.value * divisors@[j as int]@.last().0) % (p as int) == lead.coeff.value,
        r matches Some((j, t)) ==> forall|i: int|
            0 <= i < j && (#[trigger] divisors@[i])@.len() > 0 && divisors@[i]@.last().1.len() == lead.mono@.len()
                ==> !divides_spec(divisors@[i]@.last().1, lead.mono@),
{
    let mut k: usize = 0;
    while k < divisors.len()
        invariant
            crate::field::valid_modulus(p),
            0 < lead.coeff.value < p,
            forall|j: int| 0 <= j < divisors@.len() ==> (#[trigger] divisors@[j]).wf() && divisors@[j].ring.modulus == p,
            k <= divisors@.len(),
            forall|j: int|
                0 <= j < k && (#[trigger] divisors@[j])@.len() > 0 && divisors@[j]@.last().1.len()
                    == lead.mono@.len() ==> !divides_spec(divisors@[j]@.last().1, lead.mono@),
        decreases divisors@.len() - k,
    {
        let g = &divisors[k];
        let n = g.terms.len();
        if n > 0 {
            let ghost gv = g@;
            proof {
                assert(gv.last() == gv[gv.len() - 1]);
                assert(gv[gv.len() - 1] == g.terms@[n - 1]@);
                assert(g.wf());
                assert(0 < gv[gv.len() - 1].0);
                assert(gv[gv.len() - 1].0 < p);
            }
            let lead_g = &g.terms[n - 1];
            if lead_g.mono.nvars() == lead.mono.nvars() {
                match lead.mono.quotient(&lead_g.mono) {
                    Some(mono) => {
                        let coeff = lead.coeff.div(lead_g.coeff, p);
                        proof {
                            if coeff.value == 0 {
                                assert(0 * lead_g.coeff.value == 0);
                                lemma_small_mod(0, p as nat);
                            }
                        }
                        return Some((k, Term { coeff, mono }));
                    },
                    None => {},
                }
            }
        }
        k += 1;
    }
    None
}

/// Divide `f` by `divisors` and record one quotient per divisor.
///
/// Returns the quotients `q_1..q_k` and the remainder `r` of the identity
/// `f = sum_j q_j * g_j + r`. Every step reduces the leading term of the
/// working polynomial by the first divisor whose leading monomial divides
/// it, or moves that term to the remainder. Both steps lower the leading
/// monomial of the working polynomial, so the division terminates, and
/// every recorded quotient term `m` of divisor `j` satisfies
/// `m * lm(g_j) <= lm(f)`.
///
/// The division holds to `budget`: it charges the quotients, the working
/// polynomial, and the remainder against the data the emission already
/// holds, and stops with [`CertifyError::WriterExhausted`] when the
/// deadline, the cancellation flag, or the memory limit is passed. A
/// divisor of another width reduces nothing.
pub fn divide(f: &Polynomial, divisors: &[Polynomial], modulus: u64, budget: &Budget) -> (r: Result<
    (Vec<Polynomial>, Polynomial),
    CertifyError,
>)
    requires
        f.wf(),
        modulus == f.ring.modulus,
        forall|j: int|
            0 <= j < divisors@.len() ==> (#[trigger] divisors@[j]).wf() && divisors@[j].ring.modulus
                == modulus,
    ensures
        r matches Ok((qs, rem)) ==> {
            &&& qs@.len() == divisors@.len()
            &&& forall|j: int| 0 <= j < qs@.len() ==> (#[trigger] qs@[j]).wf() && qs@[j].ring == f.ring
            &&& rem.wf() && rem.ring == f.ring
            &&& division_identity(f@, poly_views(qs@), poly_views(divisors@), rem@, modulus as int)
            &&& fully_reduced(rem@, poly_views(divisors@), f.ring.nvars as nat)
            &&& f@.len() > 0 ==> quotients_bounded(poly_views(qs@), poly_views(divisors@), f@.last().1)
            &&& f@.len() == 0 ==> rem@.len() == 0 && forall|j: int|
                0 <= j < qs@.len() ==> (#[trigger] qs@[j])@.len() == 0
            &&& lead_irreducible(f@, poly_views(divisors@), f.ring.nvars as nat) ==> rem@.len() > 0 && rem@.last()
                == f@.last()
        },
        r matches Err(err) ==> err matches CertifyError::WriterExhausted(e) && ((e == ComputeError::Timeout
            && budget.stops_spec() is Some) || (e == ComputeError::MemoryLimitExceeded && budget.memory_spec() is Some)
            || (e == (ComputeError::ExponentLimit { limit: DEGREE_LIMIT }) && f@.len() > 0 && degree_of(
            f@.last().1,
        ) > u16::MAX)),
        !budget.fits(budget.bytes_spec(saturating_total(divisors@.len() as usize, 2), f@.len() as usize)) ==> r
            == Err::<(Vec<Polynomial>, Polynomial), CertifyError>(
            CertifyError::WriterExhausted(ComputeError::MemoryLimitExceeded),
        ),
        r matches Ok((qs, rem)) ==> first_divisor(poly_views(qs@), poly_views(divisors@)),
        budget.stops_spec() is None && budget.memory_spec() is None && (f@.len() == 0 || degree_of(
            f@.last().1,
        ) <= u16::MAX) ==> r is Ok,
{
    let p = modulus;
    let ghost pi = p as int;
    let ghost nv = f.ring.nvars as nat;
    let ghost fv = f@;
    let ghost gs = poly_views(divisors@);
    let reserved = saturating_add(divisors.len(), 2);
    proof {
        assert(f@.len() == f.terms@.len());
    }
    match budget.check(reserved, f.terms.len()) {
        Ok(()) => {},
        Err(e) => {
            return Err(CertifyError::WriterExhausted(e));
        },
    }
    let mut quotients: Vec<Polynomial> = Vec::new();
    let mut k: usize = 0;
    while k < divisors.len()
        invariant
            f.wf(),
            k <= divisors@.len(),
            quotients@.len() == k,
            forall|j: int| 0 <= j < k ==> (#[trigger] quotients@[j]).wf() && quotients@[j].ring == f.ring
                && quotients@[j]@.len() == 0,
        decreases divisors@.len() - k,
    {
        quotients.push(f.zero_like());
        k += 1;
    }
    let mut remainder = f.zero_like();
    let mut work = f.copy();
    let mut quotient_terms: usize = 0;
    let mut steps: usize = 0;
    proof {
        assert forall|m: Seq<u16>| #[trigger] coeff_at(fv, m) % pi == (combo_coeff(
            poly_views(quotients@),
            gs,
            pi,
            m,
        ) + coeff_at(work@, m) + coeff_at(remainder@, m)) % pi by {
            assert forall|j: int| 0 <= j < poly_views(quotients@).len() implies (#[trigger] poly_views(
                quotients@,
            )[j]).len() == 0 by {
                assert(quotients@[j]@.len() == 0);
            }
            lemma_combo_empty(poly_views(quotients@), gs, pi, m);
            assert(remainder@ =~= Seq::<TermView>::empty());
        }
    }
    while work.terms.len() > 0
        invariant
            f.wf(),
            p == f.ring.modulus,
            pi == p,
            nv == f.ring.nvars,
            fv == f@,
            gs == poly_views(divisors@),
            forall|j: int|
                0 <= j < divisors@.len() ==> (#[trigger] divisors@[j]).wf() && divisors@[j].ring.modulus == p,
            quotients@.len() == divisors@.len(),
            forall|j: int| 0 <= j < quotients@.len() ==> (#[trigger] quotients@[j]).wf() && quotients@[j].ring
                == f.ring,
            work.wf(),
            work.ring == f.ring,
            remainder.wf(),
            remainder.ring == f.ring,
            forall|m: Seq<u16>| #[trigger] coeff_at(fv, m) % pi == (combo_coeff(
                poly_views(quotients@),
                gs,
                pi,
                m,
            ) + coeff_at(work@, m) + coeff_at(remainder@, m)) % pi,
            fully_reduced(remainder@, gs, nv),
            remainder@.len() > 0 && work@.len() > 0 ==> grevlex_less(work@.last().1, remainder@[0].1),
            forall|j: int|
                0 <= j < quotients@.len() && (#[trigger] quotients@[j])@.len() > 0 ==> gs[j].len() > 0
                    && gs[j].last().1.len() == nv
                    && product_fits(quotients@[j]@[0].1, gs[j].last().1) && (work@.len() > 0
                    ==> grevlex_less(work@.last().1, mono_mul(quotients@[j]@[0].1, gs[j].last().1))),
            fv.len() > 0 ==> quotients_bounded(poly_views(quotients@), gs, fv.last().1),
            fv.len() > 0 && work@.len() > 0 ==> grevlex_le(work@.last().1, fv.last().1),
            first_divisor(poly_views(quotients@), gs),
            reserved == saturating_total(divisors@.len() as usize, 2),
            budget.fits(budget.bytes_spec(reserved, fv.len() as usize)),
            fv.len() == 0 ==> work@.len() == 0 && remainder@.len() == 0 && forall|j: int|
                0 <= j < quotients@.len() ==> (#[trigger] quotients@[j])@.len() == 0,
            lead_irreducible(fv, gs, nv) ==> (remainder@.len() == 0 && work@ == fv) || (remainder@.len() > 0
                && remainder@.last() == fv.last()),
        decreases
            if work@.len() == 0 {
                0
            } else {
                grevlex_rank(work@.last().1) + 1
            },
    {
        if steps % DEADLINE_STRIDE == 0 {
            match budget.check_deadline() {
                Ok(()) => {},
                Err(e) => {
                    return Err(CertifyError::WriterExhausted(e));
                },
            }
        }
        steps = saturating_add(steps, 1);
        let live = saturating_add(saturating_add(quotient_terms, work.terms.len()), remainder.terms.len());
        match budget.check(reserved, live) {
            Ok(()) => {},
            Err(e) => {
                return Err(CertifyError::WriterExhausted(e));
            },
        }
        let last = work.terms.len() - 1;
        let ghost w = work@;
        let ghost lead = w.last().1;
        proof {
            if fv.len() > 0 {
                assert(fv.last() == fv[fv.len() - 1]);
                assert(0 < fv[fv.len() - 1].0);
                assert(fv.last().1.len() == nv);
            }
            assert(w.last() == w[w.len() - 1]);
            assert(w[w.len() - 1] == work.terms@[last as int]@);
            assert(0 < w[w.len() - 1].0 < pi);
            assert(w[w.len() - 1].1.len() == nv);
        }
        match find_reducer(&work.terms[last], divisors, p) {
            Some((j, t)) => {
                let ghost g = gs[j as int];
                let ghost tv = t@;
                let ghost qv = poly_views(quotients@);
                proof {
                    if lead_irreducible(fv, gs, nv) && remainder@.len() == 0 {
                        assert(work@ == fv);
                        assert(gs[j as int] == divisors@[j as int]@);
                        assert(false);
                    }
                    assert(g == divisors@[j as int]@);
                    assert(g.last() == g[g.len() - 1]);
                    assert(0 < g[g.len() - 1].0 < pi);
                    lemma_quotient_times(lead, g.last().1);
                    assert(divisors@[j as int].ring == f.ring);
                }
                let next = match work.sub_scaled(&divisors[j], t.coeff, &t.mono) {
                    Ok(q) => q,
                    Err(_) => {
                        proof {
                            if fv.len() > 0 && degree_of(fv.last().1) <= u16::MAX {
                                assert(grevlex_le(lead, fv.last().1));
                                if lead != fv.last().1 {
                                    assert(grevlex_less(lead, fv.last().1));
                                }
                                assert(degree_of(lead) <= degree_of(fv.last().1));
                                lemma_scale_fits_by_degree(g, tv.1, lead, pi, nv);
                            }
                        }
                        return Err(CertifyError::WriterExhausted(ComputeError::ExponentLimit { limit: DEGREE_LIMIT }));
                    },
                };
                proof {
                    lemma_reduction_lowers(w, g, tv, next@, pi, nv);
                    if qv[j as int].len() > 0 {
                        assert(quotients@[j as int]@.len() > 0);
                        let q0 = qv[j as int][0].1;
                        assert(0 < qv[j as int][0].0);
                        assert(q0.len() == nv);
                        lemma_grevlex_mul(tv.1, q0, g.last().1);
                    }
                }
                let ghost old_quotients = quotients@;
                quotients[j].push_term(t);
                proof {
                    let nq = seq![tv] + qv[j as int];
                    assert(poly_views(quotients@) =~= qv.update(j as int, nq));
                    assert forall|m: Seq<u16>| #[trigger] coeff_at(fv, m) % pi == (combo_coeff(
                        poly_views(quotients@),
                        gs,
                        pi,
                        m,
                    ) + coeff_at(next@, m) + coeff_at(remainder@, m)) % pi by {
                        lemma_combo_update(qv, gs, pi, m, j as int, nq);
                        lemma_mul_views_concat(seq![tv], qv[j as int], g, pi);
                        assert(seq![tv].drop_last() =~= Seq::<TermView>::empty());
                        assert(seq![tv].last() == tv);
                        assert(mul_views(seq![tv].drop_last(), g, pi) =~= Seq::<TermView>::empty());
                        assert(mul_views(seq![tv], g, pi) =~= scale_by_term(g, tv, pi));
                        lemma_coeff_at_concat(scale_by_term(g, tv, pi), mul_views(qv[j as int], g, pi), m);
                        let c = combo_coeff(qv, gs, pi, m);
                        let sv = coeff_at(scale_by_term(g, tv, pi), m);
                        let wv = coeff_at(w, m);
                        let rv = coeff_at(remainder@, m);
                        assert(coeff_at(next@, m) == (wv - sv) % pi);
                        lemma_add_mod_noop_right(c + sv + rv, wv - sv, pi);
                        assert(c + sv + rv + (wv - sv) == c + wv + rv);
                        assert(c + sv + coeff_at(next@, m) + rv == (c + sv + rv) + (wv - sv) % pi);
                    }
                    let ql = poly_views(quotients@);
                    assert(first_divisor(ql, gs)) by {
                        assert forall|jj: int, tt: int, i: int|
                            #![trigger ql[jj][tt], gs[i]]
                            0 <= jj < ql.len() && 0 <= tt < ql[jj].len() && 0 <= i < jj && gs[i].len() > 0
                                && gs[i].last().1.len() == ql[jj][tt].1.len() implies !divides_spec(
                            gs[i].last().1,
                            mono_mul(ql[jj][tt].1, gs[jj].last().1),
                        ) by {
                            if jj == j {
                                if tt > 0 {
                                    assert(ql[jj][tt] == qv[jj][tt - 1]);
                                } else {
                                    assert(ql[jj][tt] == tv);
                                    assert(mono_mul(tv.1, g.last().1) == lead);
                                    assert(gs[i] == divisors@[i]@);
                                }
                            } else {
                                assert(ql[jj] == qv[jj]);
                            }
                        }
                    }
                    assert forall|jj: int|
                        0 <= jj < quotients@.len() && (#[trigger] quotients@[jj])@.len() > 0 implies gs[jj].len() > 0
                        && gs[jj].last().1.len() == nv && product_fits(quotients@[jj]@[0].1, gs[jj].last().1) && (next@.len() > 0
                        ==> grevlex_less(next@.last().1, mono_mul(quotients@[jj]@[0].1, gs[jj].last().1))) by {
                        if next@.len() > 0 {
                            assert(next@.last() == next@[next@.len() - 1]);
                            assert(0 < next@[next@.len() - 1].0);
                            assert(next@[next@.len() - 1].1.len() == nv);
                            assert(grevlex_less(next@[next@.len() - 1].1, lead));
                        }
                        assert(0 < quotients@[jj]@[0].0);
                        assert(quotients@[jj]@[0].1.len() == nv);
                        if jj == j {
                            assert(quotients@[jj]@[0] == tv);
                        } else {
                            assert(quotients@[jj] == old_quotients[jj]);
                            if next@.len() > 0 {
                                lemma_grevlex_transitive(
                                    next@.last().1,
                                    lead,
                                    mono_mul(quotients@[jj]@[0].1, gs[jj].last().1),
                                );
                            }
                        }
                    }
                    if fv.len() > 0 {
                        assert forall|jj: int, i: int|
                            0 <= jj < ql.len() && 0 <= i < ql[jj].len() implies gs[jj].len() > 0 && product_fits(
                            #[trigger] ql[jj][i].1,
                            gs[jj].last().1,
                        ) && grevlex_le(mono_mul(ql[jj][i].1, gs[jj].last().1), fv.last().1) by {
                            if jj == j {
                                if i > 0 {
                                    assert(ql[jj][i] == qv[jj][i - 1]);
                                } else {
                                    assert(ql[jj][i] == tv);
                                }
                            } else {
                                assert(ql[jj] == qv[jj]);
                            }
                        }
                        if next@.len() > 0 {
                            assert(next@.last() == next@[next@.len() - 1]);
                            assert(grevlex_less(next@[next@.len() - 1].1, lead));
                            if lead != fv.last().1 {
                                lemma_grevlex_transitive(next@.last().1, lead, fv.last().1);
                            }
                        }
                    }
                    if remainder@.len() > 0 && next@.len() > 0 {
                        assert(next@.last() == next@[next@.len() - 1]);
                        assert(grevlex_less(next@[next@.len() - 1].1, lead));
                        assert(0 < next@[next@.len() - 1].0);
                        assert(0 < remainder@[0].0);
                        assert(remainder@[0].1.len() == nv);
                        lemma_grevlex_transitive(next@.last().1, lead, remainder@[0].1);
                    }
                    if next@.len() > 0 {
                        assert(next@.last() == next@[next@.len() - 1]);
                        assert(0 < next@[next@.len() - 1].0);
                        lemma_grevlex_rank_less(next@.last().1, lead);
                    }
                }
                work = next;
                quotient_terms = saturating_add(quotient_terms, 1);
            },
            None => {
                let popped = work.pop_lt();
                let t = match popped {
                    Some(t) => t,
                    None => {
                        proof {
                            assert(false);
                        }
                        return Err(CertifyError::WriterExhausted(ComputeError::MemoryLimitExceeded));
                    },
                };
                let ghost tv = t@;
                let ghost rv = remainder@;
                remainder.push_term(t);
                proof {
                    assert(w =~= work@.push(tv));
                    if lead_irreducible(fv, gs, nv) {
                        if rv.len() == 0 {
                            assert(w == fv);
                            assert(remainder@ =~= seq![tv]);
                        } else {
                            assert(remainder@.last() == rv.last());
                        }
                    }
                    assert forall|m: Seq<u16>| #[trigger] coeff_at(fv, m) % pi == (combo_coeff(
                        poly_views(quotients@),
                        gs,
                        pi,
                        m,
                    ) + coeff_at(work@, m) + coeff_at(remainder@, m)) % pi by {
                        lemma_coeff_at_push(work@, tv, m);
                        lemma_coeff_at_concat(seq![tv], rv, m);
                        assert(seq![tv].drop_last() =~= Seq::<TermView>::empty());
                        lemma_coeff_at_push(Seq::<TermView>::empty(), tv, m);
                        assert(Seq::<TermView>::empty().push(tv) =~= seq![tv]);
                    }
                    assert forall|i: int, jj: int|
                        0 <= i < remainder@.len() && 0 <= jj < gs.len() && gs[jj].len() > 0
                            && gs[jj].last().1.len() == nv implies !divides_spec(
                        #[trigger] gs[jj].last().1,
                        #[trigger] remainder@[i].1,
                    ) by {
                        if i > 0 {
                            assert(remainder@[i] == rv[i - 1]);
                        } else {
                            assert(remainder@[i] == tv);
                            assert(divisors@[jj]@ == gs[jj]);
                        }
                    }
                    if work@.len() > 0 {
                        assert(work@.last() == w[w.len() - 2]);
                        assert(grevlex_less(w[w.len() - 2].1, w[w.len() - 1].1));
                        assert(0 < w[w.len() - 2].0);
                        lemma_grevlex_rank_less(work@.last().1, lead);
                        assert(work@.last().1.len() == nv);
                        assert forall|jj: int|
                            0 <= jj < quotients@.len() && (#[trigger] quotients@[jj])@.len() > 0 implies (
                            work@.len() > 0 ==> grevlex_less(
                                work@.last().1,
                                mono_mul(quotients@[jj]@[0].1, gs[jj].last().1),
                            )) by {
                            assert(0 < quotients@[jj]@[0].0);
                            assert(quotients@[jj]@[0].1.len() == nv);
                            lemma_grevlex_transitive(
                                work@.last().1,
                                lead,
                                mono_mul(quotients@[jj]@[0].1, gs[jj].last().1),
                            );
                        }
                        if fv.len() > 0 && lead != fv.last().1 {
                            lemma_grevlex_transitive(work@.last().1, lead, fv.last().1);
                        }
                    }
                }
            },
        }
    }
    proof {
        assert forall|m: Seq<u16>| #[trigger] coeff_at(fv, m) == (combo_coeff(
            poly_views(quotients@),
            gs,
            pi,
            m,
        ) + coeff_at(remainder@, m)) % pi by {
            assert(work@ =~= Seq::<TermView>::empty());
            lemma_coeff_at_range(fv, pi, nv, m);
        }
    }
    Ok((quotients, remainder))
}

} // verus!
