//! Membership and S-pair representations over the final basis.

use vstd::prelude::*;

use super::Budget;
use super::divide::{combo_coeff, divide, division_identity, fully_reduced, poly_views};
use crate::certificate::{CertifyError, EmitterFault};
use crate::compute::{ComputeError, DEGREE_LIMIT};
use crate::exact::spoly_view;
use crate::compute::interreduce::spoly_formable;
use crate::monomial::{coprime_spec, degree_of};
use crate::poly::{Polynomial, TermView, coeff_at};

verus! {

/// `qs` is the record of a division of `f` by `bs`: every quotient term
/// names the first element that could reduce its step, and every quotient
/// term times its element's leading monomial is at or below that of `f`.
#[verifier::opaque]
pub open spec fn division_rep(f: Seq<TermView>, qs: Seq<Seq<TermView>>, bs: Seq<Seq<TermView>>) -> bool {
    &&& super::divide::first_divisor(qs, bs)
    &&& f.len() > 0 ==> super::divide::quotients_bounded(qs, bs, f.last().1)
}

/// `qs` is a standard representation of the S-polynomial of `f` and `g`
/// over `bs`: its canonical form `s` is `sum_k qs[k] * bs[k]` modulo `p`,
/// with every `qs[k]` term times the leading monomial of `bs[k]` at or
/// below the leading monomial of `s`; every quotient term names the first
/// element that could reduce its step.
#[verifier::opaque]
pub open spec fn standard_rep(
    f: Seq<TermView>,
    g: Seq<TermView>,
    qs: Seq<Seq<TermView>>,
    bs: Seq<Seq<TermView>>,
    p: int,
) -> bool {
    &&& super::divide::first_divisor(qs, bs)
    &&& exists|sv: Seq<TermView>, nvars: nat|
        #[trigger] crate::poly::terms_wf(sv, p, nvars) && (forall|m: Seq<u16>|
            #[trigger] coeff_at(sv, m) == coeff_at(spoly_view(f, g, p), m) % p) && (sv.len() > 0
            ==> super::divide::quotients_bounded(qs, bs, sv.last().1))
}


/// One S-pair entry: the pair and one cofactor per basis element.
#[derive(Clone, Debug, PartialEq, Eq)]
pub struct SpairEntry {
    pub i: usize,
    pub j: usize,
    pub cofactors: Vec<Polynomial>,
}

/// The pair `(i, j)` carries an entry: both elements are nonzero, their
/// leading monomials have one width, and they share a variable.
pub open spec fn listed_pair(bs: Seq<Seq<TermView>>, i: int, j: int) -> bool {
    &&& 0 <= i < j < bs.len()
    &&& bs[i].len() > 0
    &&& bs[j].len() > 0
    &&& bs[i].last().1.len() == bs[j].last().1.len()
    &&& !coprime_spec(bs[i].last().1, bs[j].last().1)
}

/// The listed pairs `(i, j')` with `j' >= j`, in order.
pub open spec fn row_pairs(bs: Seq<Seq<TermView>>, i: int, j: int) -> Seq<(usize, usize)>
    decreases bs.len() - j,
{
    if j >= bs.len() || j < 0 {
        Seq::empty()
    } else {
        (if listed_pair(bs, i, j) {
            seq![(i as usize, j as usize)]
        } else {
            Seq::empty()
        }) + row_pairs(bs, i, j + 1)
    }
}

/// The listed pairs whose first element is at least `i`, in order.
pub open spec fn pairs_from(bs: Seq<Seq<TermView>>, i: int) -> Seq<(usize, usize)>
    decreases bs.len() - i,
{
    if i >= bs.len() || i < 0 {
        Seq::empty()
    } else {
        row_pairs(bs, i, i + 1) + pairs_from(bs, i + 1)
    }
}

/// The pairs of each entry, in order.
pub open spec fn entry_pairs(s: Seq<SpairEntry>) -> Seq<(usize, usize)> {
    s.map_values(|e: SpairEntry| (e.i, e.j))
}

/// `f` leaves a nonzero remainder that no leading monomial of `gs` reduces.
pub open spec fn has_remainder(f: Seq<TermView>, gs: Seq<Seq<TermView>>, p: int, nvars: nat) -> bool {
    exists|qs: Seq<Seq<TermView>>, r: Seq<TermView>|
        r.len() > 0 && fully_reduced(r, gs, nvars) && #[trigger] division_identity(f, qs, gs, r, p)
}

/// `f = sum_j q_j * g_j + r` modulo `p`, where `f` need not be reduced.
pub open spec fn combo_identity(
    f: Seq<TermView>,
    qs: Seq<Seq<TermView>>,
    gs: Seq<Seq<TermView>>,
    r: Seq<TermView>,
    p: int,
) -> bool {
    forall|m: Seq<u16>| #[trigger] coeff_at(f, m) % p == (combo_coeff(qs, gs, p, m) + coeff_at(r, m)) % p
}

/// The term list `f`, reduced modulo `p`, leaves a nonzero remainder that
/// no leading monomial of `gs` reduces.
pub open spec fn has_remainder_mod(f: Seq<TermView>, gs: Seq<Seq<TermView>>, p: int, nvars: nat) -> bool {
    exists|qs: Seq<Seq<TermView>>, r: Seq<TermView>|
        r.len() > 0 && fully_reduced(r, gs, nvars) && #[trigger] combo_identity(f, qs, gs, r, p)
}

/// Every polynomial of a list belongs to one ring of modulus `p`.
pub open spec fn basis_ok(basis: Seq<Polynomial>, p: u64) -> bool {
    forall|j: int| 0 <= j < basis.len() ==> (#[trigger] basis[j]).wf() && basis[j].ring.modulus == p
}

/// A nonzero list leads with a monomial of total degree at most
/// `u16::MAX`.
pub open spec fn lead_degree_fits(f: Seq<TermView>) -> bool {
    f.len() == 0 || degree_of(f.last().1) <= u16::MAX
}

/// Every input polynomial leads with a monomial whose degree fits.
pub open spec fn inputs_writable(input: Seq<Polynomial>) -> bool {
    forall|i: int| 0 <= i < input.len() ==> lead_degree_fits(#[trigger] input[i]@)
}

/// Every monomial where the S-polynomial of `f` and `g` is nonzero modulo
/// `p` has total degree at most `u16::MAX`.
pub open spec fn spoly_degrees_fit(f: Seq<TermView>, g: Seq<TermView>, p: int) -> bool {
    forall|m: Seq<u16>| #[trigger] coeff_at(spoly_view(f, g, p), m) % p != 0 ==> degree_of(m) <= u16::MAX
}

/// The S-polynomial of every listed pair can be formed and divided within
/// the width of one exponent.
pub open spec fn pairs_writable(bs: Seq<Seq<TermView>>, p: int) -> bool {
    forall|i: int, j: int|
        #[trigger] listed_pair(bs, i, j) ==> spoly_formable(bs[i], bs[j]) && spoly_degrees_fit(bs[i], bs[j], p)
}

/// The S-polynomial of every two nonzero elements of one width that share
/// a variable, in either order, can be formed and divided within the
/// width of one exponent.
pub open spec fn all_pairs_writable(bs: Seq<Seq<TermView>>, p: int) -> bool {
    forall|a: int, b: int|
        0 <= a < bs.len() && 0 <= b < bs.len() && a != b && bs[a].len() > 0 && bs[b].len() > 0 && bs[a].last().1.len()
            == bs[b].last().1.len() && !coprime_spec(bs[a].last().1, bs[b].last().1) ==> #[trigger] spoly_formable(
            bs[a],
            bs[b],
        ) && spoly_degrees_fit(bs[a], bs[b], p)
}

/// Divide every input polynomial by the basis and keep the quotients.
///
/// Entry `i` holds one cofactor per basis element, so that
/// `f_i = sum_j q_ij * g_j`. A nonzero remainder is a defect of the
/// candidate: [`EmitterFault::InputHasRemainder`]. The work holds to
/// `budget`, which also carries the quotients of the entries already built.
pub fn membership_representations(
    input: &[Polynomial],
    basis: &[Polynomial],
    modulus: u64,
    budget: &mut Budget,
) -> (r: Result<Vec<Vec<Polynomial>>, CertifyError>)
    requires
        basis_ok(input@, modulus),
        basis_ok(basis@, modulus),
    ensures
        final(budget).stops_spec() == old(budget).stops_spec(),
        final(budget).memory_spec() == old(budget).memory_spec(),
        r matches Ok(out) ==> out@.len() == input@.len() && forall|i: int|
            0 <= i < out@.len() ==> (#[trigger] out@[i])@.len() == basis@.len() && (forall|j: int|
                0 <= j < basis@.len() ==> (#[trigger] out@[i]@[j]).wf() && out@[i]@[j].ring == input@[i].ring)
                && forall|m: Seq<u16>| #[trigger] coeff_at(input@[i]@, m) == combo_coeff(
                poly_views(out@[i]@),
                poly_views(basis@),
                modulus as int,
                m,
            ) % (modulus as int),
        r matches Ok(out) ==> forall|i: int|
            0 <= i < out@.len() ==> #[trigger] division_rep(
                input@[i]@,
                poly_views(out@[i]@),
                poly_views(basis@),
            ),
        r matches Err(e) ==> match e {
            CertifyError::Emitter(EmitterFault::InputHasRemainder { input: i }) => i < input@.len()
                && has_remainder(
                input@[i as int]@,
                poly_views(basis@),
                modulus as int,
                input@[i as int].ring.nvars as nat,
            ),
            CertifyError::WriterExhausted(c) => (c == ComputeError::Timeout && old(budget).stops_spec() is Some)
                || (c == ComputeError::MemoryLimitExceeded && old(budget).memory_spec() is Some) || (c == (
            ComputeError::ExponentLimit { limit: DEGREE_LIMIT }) && !inputs_writable(input@)),
            _ => false,
        },
        old(budget).stops_spec() is None && old(budget).memory_spec() is None && inputs_writable(input@) ==> (
        r is Ok || r matches Err(CertifyError::Emitter(EmitterFault::InputHasRemainder { .. }))),
{
    let mut out: Vec<Vec<Polynomial>> = Vec::new();
    let mut index: usize = 0;
    while index < input.len()
        invariant
            basis_ok(input@, modulus),
            basis_ok(basis@, modulus),
            index <= input@.len(),
            out@.len() == index,
            budget.stops_spec() == old(budget).stops_spec(),
            budget.memory_spec() == old(budget).memory_spec(),
            forall|i: int|
                0 <= i < out@.len() ==> (#[trigger] out@[i])@.len() == basis@.len() && (forall|j: int|
                    0 <= j < basis@.len() ==> (#[trigger] out@[i]@[j]).wf() && out@[i]@[j].ring
                        == input@[i].ring) && forall|m: Seq<u16>| #[trigger] coeff_at(input@[i]@, m)
                    == combo_coeff(poly_views(out@[i]@), poly_views(basis@), modulus as int, m) % (
                modulus as int),
            forall|i: int|
                0 <= i < out@.len() ==> #[trigger] division_rep(
                    input@[i]@,
                    poly_views(out@[i]@),
                    poly_views(basis@),
                ),
        decreases input@.len() - index,
    {
        match budget.check_deadline() {
            Ok(()) => {},
            Err(e) => {
                return Err(CertifyError::WriterExhausted(e));
            },
        }
        let f = &input[index];
        proof {
            assert(f.wf());
        }
        let (quotients, remainder) = match divide(f, basis, modulus, budget) {
            Ok(pair) => pair,
            Err(e) => {
                proof {
                    if e == CertifyError::WriterExhausted(ComputeError::ExponentLimit { limit: DEGREE_LIMIT }) {
                        assert(!lead_degree_fits(input@[index as int]@));
                    }
                }
                return Err(e);
            },
        };
        if remainder.terms.len() > 0 {
            proof {
                let qs = poly_views(quotients@);
                assert(remainder@.len() > 0);
                assert(division_identity(f@, qs, poly_views(basis@), remainder@, modulus as int));
            }
            return Err(CertifyError::Emitter(EmitterFault::InputHasRemainder { input: index }));
        }
        match budget.hold_polys(quotients.as_slice()) {
            Ok(()) => {},
            Err(e) => {
                return Err(CertifyError::WriterExhausted(e));
            },
        }
        proof {
            assert forall|m: Seq<u16>| #[trigger] coeff_at(f@, m) == combo_coeff(
                poly_views(quotients@),
                poly_views(basis@),
                modulus as int,
                m,
            ) % (modulus as int) by {
                assert(coeff_at(remainder@, m) == 0) by {
                    assert(remainder@ =~= Seq::<TermView>::empty());
                }
            }
        }
        let ghost before = out@;
        proof {
            assert(division_rep(f@, poly_views(quotients@), poly_views(basis@))) by {
                reveal(division_rep);
            }
        }
        out.push(quotients);
        proof {
            assert forall|i: int| 0 <= i < out@.len() implies #[trigger] division_rep(
                input@[i]@,
                poly_views(out@[i]@),
                poly_views(basis@),
            ) by {
                if i < before.len() {
                    assert(out@[i] == before[i]);
                }
            }
        }
        index += 1;
    }
    Ok(out)
}

/// Build one entry per pair whose leading monomials share a variable.
///
/// A pair with coprime leading monomials carries no entry: the product
/// criterion justifies the omission, and the verifier re-enumerates the
/// pairs itself. A nonzero remainder proves the basis is not a Gröbner
/// basis: [`EmitterFault::NotAGroebnerBasis`] with the pair. The work holds
/// to `budget` at every pair.
pub fn spair_representations(basis: &[Polynomial], modulus: u64, budget: &mut Budget) -> (r: Result<
    Vec<SpairEntry>,
    CertifyError,
>)
    requires
        basis_ok(basis@, modulus),
    ensures
        final(budget).stops_spec() == old(budget).stops_spec(),
        final(budget).memory_spec() == old(budget).memory_spec(),
        r matches Ok(out) ==> entry_pairs(out@) == pairs_from(poly_views(basis@), 0) && forall|k: int|
            0 <= k < out@.len() ==> (#[trigger] out@[k]).i < out@[k].j < basis@.len()
                && out@[k].cofactors@.len() == basis@.len() && (forall|j: int|
                0 <= j < basis@.len() ==> (#[trigger] out@[k].cofactors@[j]).wf()
                    && out@[k].cofactors@[j].ring == basis@[out@[k].i as int].ring) && forall|m: Seq<u16>|
                #[trigger] coeff_at(
                    spoly_view(basis@[out@[k].i as int]@, basis@[out@[k].j as int]@, modulus as int),
                    m,
                ) % (modulus as int) == combo_coeff(
                    poly_views(out@[k].cofactors@),
                    poly_views(basis@),
                    modulus as int,
                    m,
                ) % (modulus as int),
        r matches Ok(out) ==> forall|k: int|
            0 <= k < out@.len() ==> #[trigger] standard_rep(
                basis@[out@[k].i as int]@,
                basis@[out@[k].j as int]@,
                poly_views(out@[k].cofactors@),
                poly_views(basis@),
                modulus as int,
            ),
        r matches Err(e) ==> match e {
            CertifyError::Emitter(EmitterFault::NotAGroebnerBasis { i, j }) => listed_pair(
                poly_views(basis@),
                i as int,
                j as int,
            ) && has_remainder_mod(
                spoly_view(basis@[i as int]@, basis@[j as int]@, modulus as int),
                poly_views(basis@),
                modulus as int,
                basis@[i as int].ring.nvars as nat,
            ),
            CertifyError::WriterExhausted(c) => (c == ComputeError::Timeout && old(budget).stops_spec() is Some)
                || (c == ComputeError::MemoryLimitExceeded && old(budget).memory_spec() is Some) || (c == (
            ComputeError::ExponentLimit { limit: DEGREE_LIMIT }) && !pairs_writable(
                poly_views(basis@),
                modulus as int,
            )),
            _ => false,
        },
        old(budget).stops_spec() is None && old(budget).memory_spec() is None && pairs_writable(
            poly_views(basis@),
            modulus as int,
        ) ==> (r is Ok || r matches Err(CertifyError::Emitter(EmitterFault::NotAGroebnerBasis { .. }))),
{
    let ghost bs = poly_views(basis@);
    let mut out: Vec<SpairEntry> = Vec::new();
    let mut i: usize = 0;
    while i < basis.len()
        invariant
            basis_ok(basis@, modulus),
            bs == poly_views(basis@),
            i <= basis@.len(),
            budget.stops_spec() == old(budget).stops_spec(),
            budget.memory_spec() == old(budget).memory_spec(),
            entry_pairs(out@) + pairs_from(bs, i as int) == pairs_from(bs, 0),
            forall|k: int|
                0 <= k < out@.len() ==> (#[trigger] out@[k]).i < out@[k].j < basis@.len()
                    && out@[k].cofactors@.len() == basis@.len() && (forall|j: int|
                    0 <= j < basis@.len() ==> (#[trigger] out@[k].cofactors@[j]).wf()
                        && out@[k].cofactors@[j].ring == basis@[out@[k].i as int].ring) && forall|
                    m: Seq<u16>,
                | #[trigger] coeff_at(
                    spoly_view(basis@[out@[k].i as int]@, basis@[out@[k].j as int]@, modulus as int),
                    m,
                ) % (modulus as int) == combo_coeff(
                    poly_views(out@[k].cofactors@),
                    poly_views(basis@),
                    modulus as int,
                    m,
                ) % (modulus as int),
            forall|k: int|
                0 <= k < out@.len() ==> #[trigger] standard_rep(
                    basis@[out@[k].i as int]@,
                    basis@[out@[k].j as int]@,
                    poly_views(out@[k].cofactors@),
                    bs,
                    modulus as int,
                ),
        decreases basis@.len() - i,
    {
        match budget.check_deadline() {
            Ok(()) => {},
            Err(e) => {
                return Err(CertifyError::WriterExhausted(e));
            },
        }
        proof {
            assert(pairs_from(bs, i as int) == row_pairs(bs, i as int, i as int + 1) + pairs_from(
                bs,
                i as int + 1,
            ));
            assert(entry_pairs(out@) + pairs_from(bs, i as int) =~= entry_pairs(out@) + row_pairs(
                bs,
                i as int,
                i as int + 1,
            ) + pairs_from(bs, i as int + 1));
        }
        let mut j: usize = i + 1;
        while j < basis.len()
            invariant
                basis_ok(basis@, modulus),
                bs == poly_views(basis@),
                i < basis@.len(),
                i + 1 <= j <= basis@.len(),
                budget.stops_spec() == old(budget).stops_spec(),
                budget.memory_spec() == old(budget).memory_spec(),
                entry_pairs(out@) + row_pairs(bs, i as int, j as int) + pairs_from(bs, i as int + 1)
                    == pairs_from(bs, 0),
                forall|k: int|
                    0 <= k < out@.len() ==> (#[trigger] out@[k]).i < out@[k].j < basis@.len()
                        && out@[k].cofactors@.len() == basis@.len() && (forall|
                        jj: int,
                    |
                        0 <= jj < basis@.len() ==> (#[trigger] out@[k].cofactors@[jj]).wf()
                            && out@[k].cofactors@[jj].ring == basis@[out@[k].i as int].ring) && forall|
                        m: Seq<u16>,
                    | #[trigger] coeff_at(
                        spoly_view(basis@[out@[k].i as int]@, basis@[out@[k].j as int]@, modulus as int),
                        m,
                    ) % (modulus as int) == combo_coeff(
                        poly_views(out@[k].cofactors@),
                        poly_views(basis@),
                        modulus as int,
                        m,
                    ) % (modulus as int),
                forall|k: int|
                    0 <= k < out@.len() ==> #[trigger] standard_rep(
                    basis@[out@[k].i as int]@,
                    basis@[out@[k].j as int]@,
                    poly_views(out@[k].cofactors@),
                    bs,
                    modulus as int,
                ),
            decreases basis@.len() - j,
        {
            let gi = &basis[i];
            let gj = &basis[j];
            proof {
                assert(gi.wf() && gj.wf());
                assert(bs[i as int] == gi@ && bs[j as int] == gj@);
                assert(row_pairs(bs, i as int, j as int) == (if listed_pair(bs, i as int, j as int) {
                    seq![(i, j)]
                } else {
                    Seq::<(usize, usize)>::empty()
                }) + row_pairs(bs, i as int, j as int + 1));
            }
            let ni = gi.terms.len();
            let nj = gj.terms.len();
            let mut listed = false;
            if ni > 0 && nj > 0 {
                let lead_i = &gi.terms[ni - 1].mono;
                let lead_j = &gj.terms[nj - 1].mono;
                proof {
                    assert(gi@.last() == gi.terms@[ni - 1]@);
                    assert(gj@.last() == gj.terms@[nj - 1]@);
                }
                listed = lead_i.nvars() == lead_j.nvars() && !lead_i.is_coprime(lead_j);
            }
            if listed {
                proof {
                    assert(listed_pair(bs, i as int, j as int));
                    assert(0 < gi@[gi@.len() - 1].0);
                    assert(0 < gj@[gj@.len() - 1].0);
                    assert(gi@.last() == gi@[gi@.len() - 1]);
                    assert(gj@.last() == gj@[gj@.len() - 1]);
                    assert(gi.ring == gj.ring);
                }
                let spoly = match gi.s_polynomial(gj) {
                    Ok(s) => s,
                    Err(_) => {
                        proof {
                            assert(!spoly_formable(bs[i as int], bs[j as int]));
                            assert(!pairs_writable(bs, modulus as int));
                        }
                        return Err(CertifyError::WriterExhausted(ComputeError::ExponentLimit { limit: DEGREE_LIMIT }));
                    },
                };
                let (cofactors, remainder) = match divide(&spoly, basis, modulus, budget) {
                    Ok(pair) => pair,
                    Err(e) => {
                        proof {
                            if e == CertifyError::WriterExhausted(ComputeError::ExponentLimit { limit: DEGREE_LIMIT }) {
                                let pi = modulus as int;
                                let m = spoly@.last().1;
                                assert(spoly@.last() == spoly@[spoly@.len() - 1]);
                                crate::poly::lemma_coeff_at_sorted(spoly@, m);
                                assert(coeff_at(spoly@, m) == spoly@[spoly@.len() - 1].0);
                                assert(0 < spoly@[spoly@.len() - 1].0 < pi);
                                vstd::arithmetic::div_mod::lemma_small_mod(coeff_at(spoly@, m) as nat, pi as nat);
                                assert(coeff_at(spoly_view(bs[i as int], bs[j as int], pi), m) % pi != 0);
                                assert(!spoly_degrees_fit(bs[i as int], bs[j as int], pi));
                                assert(!pairs_writable(bs, pi));
                            }
                        }
                        return Err(e);
                    },
                };
                if remainder.terms.len() > 0 {
                    proof {
                        let qs = poly_views(cofactors@);
                        assert(remainder@.len() > 0);
                        let sv = spoly_view(basis@[i as int]@, basis@[j as int]@, modulus as int);
                        assert forall|m: Seq<u16>| #[trigger] coeff_at(sv, m) % (modulus as int) == (combo_coeff(
                            qs,
                            bs,
                            modulus as int,
                            m,
                        ) + coeff_at(remainder@, m)) % (modulus as int) by {
                            assert(coeff_at(spoly@, m) == (combo_coeff(qs, bs, modulus as int, m) + coeff_at(
                                remainder@,
                                m,
                            )) % (modulus as int));
                        }
                        assert(combo_identity(sv, qs, bs, remainder@, modulus as int));
                    }
                    return Err(CertifyError::Emitter(EmitterFault::NotAGroebnerBasis { i, j }));
                }
                match budget.hold_polys(cofactors.as_slice()) {
                    Ok(()) => {},
                    Err(e) => {
                        return Err(CertifyError::WriterExhausted(e));
                    },
                }
                let entry = SpairEntry { i, j, cofactors };
                let ghost before = out@;
                proof {
                    assert forall|m: Seq<u16>| #[trigger] coeff_at(
                        spoly_view(basis@[i as int]@, basis@[j as int]@, modulus as int),
                        m,
                    ) % (modulus as int) == combo_coeff(
                        poly_views(entry.cofactors@),
                        bs,
                        modulus as int,
                        m,
                    ) % (modulus as int) by {
                        assert(remainder@ =~= Seq::<TermView>::empty());
                        assert(coeff_at(remainder@, m) == 0);
                        assert(coeff_at(spoly@, m) == (combo_coeff(
                            poly_views(cofactors@),
                            bs,
                            modulus as int,
                            m,
                        ) + coeff_at(remainder@, m)) % (modulus as int));
                        assert(coeff_at(spoly@, m) == coeff_at(
                            spoly_view(gi@, gj@, modulus as int),
                            m,
                        ) % (modulus as int));
                        vstd::arithmetic::div_mod::lemma_mod_twice(
                            coeff_at(spoly_view(gi@, gj@, modulus as int), m),
                            modulus as int,
                        );
                    }
                }
                proof {
                    let nvi = basis@[i as int].ring.nvars as nat;
                    assert(spoly.wf());
                    assert(spoly.ring == gi.ring);
                    assert(crate::poly::terms_wf(spoly@, modulus as int, nvi));
                    assert(standard_rep(gi@, gj@, poly_views(entry.cofactors@), bs, modulus as int)) by {
                        reveal(standard_rep);
                        assert(crate::poly::terms_wf(spoly@, modulus as int, nvi));
                    }
                }
                out.push(entry);
                proof {
                    assert(out@[out@.len() - 1] == entry);
                    assert forall|k: int| 0 <= k < out@.len() implies #[trigger] standard_rep(
                        basis@[out@[k].i as int]@,
                        basis@[out@[k].j as int]@,
                        poly_views(out@[k].cofactors@),
                        bs,
                        modulus as int,
                    ) by {
                        if k < before.len() {
                            assert(out@[k] == before[k]);
                        }
                    }
                    assert(entry_pairs(out@) =~= entry_pairs(before).push((i, j)));
                    assert(entry_pairs(out@) + row_pairs(bs, i as int, j as int + 1) + pairs_from(
                        bs,
                        i as int + 1,
                    ) =~= entry_pairs(before) + row_pairs(bs, i as int, j as int) + pairs_from(
                        bs,
                        i as int + 1,
                    ));
                }
            } else {
                proof {
                    if ni > 0 && nj > 0 {
                        assert(!listed_pair(bs, i as int, j as int));
                    }
                    assert(!listed_pair(bs, i as int, j as int));
                    assert(entry_pairs(out@) + row_pairs(bs, i as int, j as int + 1) + pairs_from(
                        bs,
                        i as int + 1,
                    ) =~= entry_pairs(out@) + row_pairs(bs, i as int, j as int) + pairs_from(
                        bs,
                        i as int + 1,
                    ));
                }
            }
            j += 1;
        }
        proof {
            assert(row_pairs(bs, i as int, j as int) =~= Seq::<(usize, usize)>::empty());
            assert(entry_pairs(out@) + pairs_from(bs, i as int + 1) =~= entry_pairs(out@) + row_pairs(
                bs,
                i as int,
                j as int,
            ) + pairs_from(bs, i as int + 1));
        }
        i += 1;
    }
    proof {
        assert(pairs_from(bs, i as int) =~= Seq::<(usize, usize)>::empty());
        assert(entry_pairs(out@) =~= entry_pairs(out@) + pairs_from(bs, i as int));
    }
    Ok(out)
}

} // verus!
