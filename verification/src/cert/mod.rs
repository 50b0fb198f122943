//! Certificate emission for the `sylv-gb-cert-v1` contract.
//!
//! This module is untrusted. It reads engine values and writes the
//! canonical bytes of the certificate; the verifier reads those bytes back
//! and accepts or rejects them. A wrong cofactor here becomes a rejection
//! there, never a silent repair.
//!
//! The caller supplies the origin cofactors, which the engines track
//! through reduction. The emitter generates the membership and S-pair
//! cofactors by division with recorded quotients.

pub mod divide;
pub mod json;
pub mod origin;
pub mod represent;
pub mod v2;

use std::sync::Arc;
use std::sync::atomic::AtomicBool;
use std::time::Instant;
use vstd::prelude::*;

use self::divide::{combo_coeff, poly_views};
use self::json::{Parts, certificate_bytes, coeffs_reduced, spair_bytes};
use self::origin::Origin;
use self::represent::{
    SpairEntry,
    all_pairs_writable,
    basis_ok,
    entry_pairs,
    has_remainder,
    has_remainder_mod,
    inputs_writable,
    listed_pair,
    membership_representations,
    pairs_from,
    pairs_writable,
    spoly_degrees_fit,
    spair_representations,
};
use crate::certificate::{CertifyError, EmitterFault, Place};
use crate::compute::clock::{flag_is_set, reached, share_flag};
use crate::compute::ComputeLimits;
use crate::compute::interreduce::spoly_formable;
use crate::compute::{ComputeError, DEGREE_LIMIT};
use crate::exact::spoly_view;
use crate::monomial::{grevlex_less, lemma_grevlex_asymmetric, lemma_grevlex_total, lemma_grevlex_transitive};
use crate::poly::{Polynomial, PolynomialRing, Term, TermView, coeff_at};

verus! {

/// `x * y`, or `usize::MAX` when the product does not fit.
pub open spec fn saturating_product(x: usize, y: usize) -> usize {
    if x * y > usize::MAX {
        usize::MAX
    } else {
        (x * y) as usize
    }
}

/// `x + y`, or `usize::MAX` when the sum does not fit.
pub open spec fn saturating_total(x: usize, y: usize) -> usize {
    if x + y > usize::MAX {
        usize::MAX
    } else {
        (x + y) as usize
    }
}

pub(crate) fn saturating_mul(x: usize, y: usize) -> (r: usize)
    ensures
        r == saturating_product(x, y),
{
    match x.checked_mul(y) {
        Some(v) => v,
        None => usize::MAX,
    }
}

pub(crate) fn saturating_add(x: usize, y: usize) -> (r: usize)
    ensures
        r == saturating_total(x, y),
{
    match x.checked_add(y) {
        Some(v) => v,
        None => usize::MAX,
    }
}

/// The limits one emission runs under, and the bytes it holds.
///
/// The emitter charges the data it keeps before it builds more: the input,
/// the basis, the origins, the cofactors it generates, and the certificate
/// bytes. The count estimates the live emitter data; it is not a count of
/// process memory. One term costs its own size and one exponent per
/// variable; one polynomial costs its header as well.
pub struct Budget {
    deadline: Option<Instant>,
    cancel: Option<Arc<AtomicBool>>,
    external_cancel: Option<Arc<AtomicBool>>,
    memory: Option<usize>,
    poly_bytes: usize,
    term_bytes: usize,
    held: usize,
}

impl Budget {
    /// What can stop the emission early: its deadline and its cancellation
    /// flags, or `None` when nothing can.
    pub closed spec fn stops_spec(&self) -> Option<(Option<Instant>, Option<Arc<AtomicBool>>, Option<Arc<AtomicBool>>)> {
        if self.deadline is None && self.cancel is None && self.external_cancel is None {
            None
        } else {
            Some((self.deadline, self.cancel, self.external_cancel))
        }
    }

    /// The bytes the emission may hold, if limited.
    pub closed spec fn memory_spec(&self) -> Option<usize> {
        self.memory
    }

    /// The bytes the emission holds.
    pub closed spec fn held_spec(&self) -> usize {
        self.held
    }

    /// The bytes one polynomial header costs.
    pub closed spec fn poly_bytes_spec(&self) -> usize {
        self.poly_bytes
    }

    /// The bytes one term costs.
    pub closed spec fn term_bytes_spec(&self) -> usize {
        self.term_bytes
    }

    /// The bytes of `polys` polynomials that hold `terms` terms together.
    pub open spec fn bytes_spec(&self, polys: usize, terms: usize) -> usize {
        saturating_total(
            saturating_product(polys, self.poly_bytes_spec()),
            saturating_product(terms, self.term_bytes_spec()),
        )
    }

    /// `bytes` more fit beside what the emission holds.
    pub open spec fn fits(&self, bytes: usize) -> bool {
        match self.memory_spec() {
            Some(limit) => saturating_total(self.held_spec(), bytes) <= limit,
            None => true,
        }
    }

    /// A budget for polynomials of `nvars` variables that holds nothing
    /// yet.
    pub fn new(deadline: Option<Instant>, memory: Option<usize>, nvars: usize) -> (b: Budget)
        ensures
            b.stops_spec() is None <==> deadline is None,
            b.memory_spec() == memory,
            b.held_spec() == 0,
            b.poly_bytes_spec() == size_of::<Polynomial>(),
            b.term_bytes_spec() == saturating_total(size_of::<Term>() as usize, saturating_product(nvars, 2)),
    {
        let exps = saturating_mul(nvars, 2);
        Budget {
            deadline,
            cancel: None,
            external_cancel: None,
            memory,
            poly_bytes: size_of::<Polynomial>(),
            term_bytes: saturating_add(size_of::<Term>(), exps),
            held: 0,
        }
    }

    /// A budget that stops nothing.
    pub fn unlimited(nvars: usize) -> (b: Budget)
        ensures
            b.stops_spec() is None,
            b.memory_spec() is None,
            b.held_spec() == 0,
    {
        Budget::new(None, None, nvars)
    }

    /// The budget of a writer that holds to `limits`: their deadline, their
    /// cancellation flags, and their memory limit.
    pub fn from_limits(limits: &ComputeLimits, nvars: usize) -> (b: Budget)
        ensures
            b.stops_spec() is None <==> limits.is_open(),
            b.memory_spec() == limits.memory,
            b.held_spec() == 0,
    {
        let cancel = match &limits.cancel {
            Some(flag) => Some(share_flag(flag)),
            None => None,
        };
        let external_cancel = match &limits.external_cancel {
            Some(flag) => Some(share_flag(flag)),
            None => None,
        };
        let exps = saturating_mul(nvars, 2);
        Budget {
            deadline: limits.deadline,
            cancel,
            external_cancel,
            memory: limits.memory,
            poly_bytes: size_of::<Polynomial>(),
            term_bytes: saturating_add(size_of::<Term>(), exps),
            held: 0,
        }
    }

    /// Stop once a cancellation flag is set or the deadline has passed;
    /// a cancelled run reports a timeout.
    pub fn check_deadline(&self) -> (r: Result<(), ComputeError>)
        ensures
            self.stops_spec() is None ==> r is Ok,
            r matches Err(e) ==> e == ComputeError::Timeout && self.stops_spec() is Some,
    {
        let cancelled = match &self.cancel {
            Some(flag) => flag_is_set(flag),
            None => false,
        };
        let external = match &self.external_cancel {
            Some(flag) => flag_is_set(flag),
            None => false,
        };
        if cancelled || external {
            return Err(ComputeError::Timeout);
        }
        match self.deadline {
            Some(at) => {
                if reached(Instant::now(), at) {
                    Err(ComputeError::Timeout)
                } else {
                    Ok(())
                }
            },
            None => Ok(()),
        }
    }

    /// The bytes of `polys` polynomials that hold `terms` terms together.
    pub fn bytes(&self, polys: usize, terms: usize) -> (r: usize)
        ensures
            r == self.bytes_spec(polys, terms),
    {
        saturating_add(saturating_mul(polys, self.poly_bytes), saturating_mul(terms, self.term_bytes))
    }

    /// Stop if `bytes` more would pass the limit.
    pub fn check_bytes(&self, bytes: usize) -> (r: Result<(), ComputeError>)
        ensures
            r is Ok <==> self.fits(bytes),
            r matches Err(e) ==> e == ComputeError::MemoryLimitExceeded,
    {
        match self.memory {
            Some(limit) => {
                if saturating_add(self.held, bytes) > limit {
                    Err(ComputeError::MemoryLimitExceeded)
                } else {
                    Ok(())
                }
            },
            None => Ok(()),
        }
    }

    /// Stop if `polys` polynomials of `terms` terms together would pass the
    /// limit.
    pub fn check(&self, polys: usize, terms: usize) -> (r: Result<(), ComputeError>)
        ensures
            r is Ok <==> self.fits(self.bytes_spec(polys, terms)),
            r matches Err(e) ==> e == ComputeError::MemoryLimitExceeded,
    {
        self.check_bytes(self.bytes(polys, terms))
    }

    /// Add `bytes` to the data the emission holds, and stop if the limit is
    /// passed.
    pub fn hold_bytes(&mut self, bytes: usize) -> (r: Result<(), ComputeError>)
        ensures
            final(self).held_spec() == saturating_total(old(self).held_spec(), bytes),
            final(self).stops_spec() == old(self).stops_spec(),
            final(self).memory_spec() == old(self).memory_spec(),
            final(self).poly_bytes_spec() == old(self).poly_bytes_spec(),
            final(self).term_bytes_spec() == old(self).term_bytes_spec(),
            r is Ok <==> old(self).fits(bytes),
            r matches Err(e) ==> e == ComputeError::MemoryLimitExceeded,
    {
        self.held = saturating_add(self.held, bytes);
        proof {
            assert(saturating_total(self.held, 0) == self.held);
        }
        self.check_bytes(0)
    }

    /// Add `polys` polynomials of `terms` terms to the data the emission
    /// holds, and stop if the limit is passed.
    pub fn hold(&mut self, polys: usize, terms: usize) -> (r: Result<(), ComputeError>)
        ensures
            final(self).held_spec() == saturating_total(
                old(self).held_spec(),
                old(self).bytes_spec(polys, terms),
            ),
            final(self).stops_spec() == old(self).stops_spec(),
            final(self).memory_spec() == old(self).memory_spec(),
            final(self).poly_bytes_spec() == old(self).poly_bytes_spec(),
            final(self).term_bytes_spec() == old(self).term_bytes_spec(),
            r is Ok <==> old(self).fits(old(self).bytes_spec(polys, terms)),
            r matches Err(e) ==> e == ComputeError::MemoryLimitExceeded,
    {
        let bytes = self.bytes(polys, terms);
        self.hold_bytes(bytes)
    }

    /// Charge one list of polynomials: their headers and their terms.
    pub fn hold_polys(&mut self, polys: &[Polynomial]) -> (r: Result<(), ComputeError>)
        ensures
            final(self).held_spec() >= old(self).held_spec(),
            final(self).stops_spec() == old(self).stops_spec(),
            final(self).memory_spec() == old(self).memory_spec(),
            final(self).poly_bytes_spec() == old(self).poly_bytes_spec(),
            final(self).term_bytes_spec() == old(self).term_bytes_spec(),
            final(self).held_spec() == saturating_total(
                old(self).held_spec(),
                old(self).bytes_spec(polys@.len() as usize, term_total(polys@)),
            ),
            r is Ok <==> old(self).fits(old(self).bytes_spec(polys@.len() as usize, term_total(polys@))),
            r matches Err(e) ==> e == ComputeError::MemoryLimitExceeded,
    {
        let mut terms: usize = 0;
        let mut i: usize = 0;
        while i < polys.len()
            invariant
                i <= polys@.len(),
                terms == term_total(polys@.take(i as int)),
            decreases polys@.len() - i,
        {
            proof {
                assert(polys@.take(i as int + 1).drop_last() =~= polys@.take(i as int));
            }
            terms = saturating_add(terms, polys[i].terms.len());
            i += 1;
        }
        proof {
            assert(polys@.take(i as int) =~= polys@);
        }
        let bytes = self.bytes(polys.len(), terms);
        self.hold_bytes(bytes)
    }

    /// The bytes the emission holds.
    pub fn held(&self) -> (h: usize)
        ensures
            h == self.held_spec(),
    {
        self.held
    }

    /// Take `bytes` off the data the emission holds; a release of more
    /// than it holds leaves zero.
    pub fn release_bytes(&mut self, bytes: usize)
        ensures
            final(self).held_spec() == if old(self).held_spec() >= bytes {
                (old(self).held_spec() - bytes) as usize
            } else {
                0
            },
            final(self).stops_spec() == old(self).stops_spec(),
            final(self).memory_spec() == old(self).memory_spec(),
            final(self).poly_bytes_spec() == old(self).poly_bytes_spec(),
            final(self).term_bytes_spec() == old(self).term_bytes_spec(),
    {
        if self.held >= bytes {
            self.held = self.held - bytes;
        } else {
            self.held = 0;
        }
    }
}

/// The number of terms a list of polynomials holds, saturating at
/// `usize::MAX`.
pub open spec fn term_total(polys: Seq<Polynomial>) -> usize
    decreases polys.len(),
{
    if polys.len() == 0 {
        0
    } else {
        saturating_total(term_total(polys.drop_last()), polys.last().terms@.len() as usize)
    }
}


/// Every exponent vector of `s` holds `nvars` exponents.
pub open spec fn width_ok(s: Seq<TermView>, nvars: nat) -> bool {
    forall|k: int| 0 <= k < s.len() ==> (#[trigger] s[k]).1.len() == nvars
}

/// Every polynomial of the list has exponent vectors of width `nvars`.
pub open spec fn widths_ok(polys: Seq<Polynomial>, nvars: nat) -> bool {
    forall|k: int| 0 <= k < polys.len() ==> width_ok((#[trigger] polys[k])@, nvars)
}

/// The parts a certificate can be written for: every width is `nvars`,
/// no basis element is zero, and every origin holds one cofactor per input
/// polynomial.
pub open spec fn parts_valid(input: Seq<Polynomial>, basis: Seq<Polynomial>, origins: Seq<Origin>, nvars: nat) -> bool {
    &&& widths_ok(input, nvars)
    &&& widths_ok(basis, nvars)
    &&& forall|k: int| 0 <= k < basis.len() ==> (#[trigger] basis[k])@.len() > 0
    &&& forall|k: int| 0 <= k < origins.len() ==> (#[trigger] origins[k])@.len() == input.len()
    &&& forall|k: int| 0 <= k < origins.len() ==> widths_ok((#[trigger] origins[k])@, nvars)
}

/// `order` lists `0..n` once each.
pub open spec fn is_permutation(order: Seq<usize>, n: nat) -> bool {
    &&& order.len() == n
    &&& forall|k: int| 0 <= k < order.len() ==> (#[trigger] order[k]) < n
    &&& forall|k: int, l: int| 0 <= k < l < order.len() ==> #[trigger] order[k] != #[trigger] order[l]
}

/// Element `a` of `bs` comes before element `b`: a larger leading monomial
/// first, and among equal ones the earlier index.
pub open spec fn goes_before(bs: Seq<Seq<TermView>>, a: int, b: int) -> bool {
    ||| grevlex_less(bs[b].last().1, bs[a].last().1)
    ||| (bs[a].last().1 == bs[b].last().1 && a < b)
}

/// `order` sorts `bs` strictly descending by leading monomial, keeping the
/// given order among equal ones.
pub open spec fn sorted_by(bs: Seq<Seq<TermView>>, order: Seq<usize>) -> bool {
    &&& is_permutation(order, bs.len())
    &&& forall|k: int, l: int|
        0 <= k < l < order.len() ==> goes_before(bs, #[trigger] order[k] as int, #[trigger] order[l] as int)
}

/// The items of `s` in the order `order` names.
pub open spec fn permuted<T>(s: Seq<T>, order: Seq<usize>) -> Seq<T> {
    order.map_values(|k: usize| s[k as int])
}

/// The bytes of a list of S-pair entries given as views.
pub open spec fn spair_views_bytes(spairs: Seq<(usize, usize, Seq<Seq<TermView>>)>) -> Seq<u8> {
    json::join(spairs.map_values(|e: (usize, usize, Seq<Seq<TermView>>)| spair_bytes(e.0, e.1, e.2)))
}

/// `bytes` is a certificate for the input, the basis sorted by `order`,
/// the origins moved with it, and membership and S-pair cofactors whose
/// identities hold.
pub open spec fn emitted_with(
    bytes: Seq<u8>,
    p: u64,
    nvars: usize,
    input: Seq<Seq<TermView>>,
    basis: Seq<Seq<TermView>>,
    origins: Seq<Seq<Seq<TermView>>>,
    order: Seq<usize>,
    membership: Seq<Seq<Seq<TermView>>>,
    spairs: Seq<(usize, usize, Seq<Seq<TermView>>)>,
) -> bool {
    let sb = permuted(basis, order);
    let pi = p as int;
    &&& sorted_by(basis, order)
    &&& membership.len() == input.len()
    &&& forall|i: int|
        0 <= i < membership.len() ==> (#[trigger] membership[i]).len() == sb.len() && forall|m: Seq<u16>|
            #[trigger] coeff_at(input[i], m) == combo_coeff(membership[i], sb, pi, m) % pi
    &&& forall|i: int| 0 <= i < membership.len() ==> #[trigger] represent::division_rep(input[i], membership[i], sb)
    &&& spairs.map_values(|e: (usize, usize, Seq<Seq<TermView>>)| (e.0, e.1)) == pairs_from(sb, 0)
    &&& forall|k: int|
        0 <= k < spairs.len() ==> (#[trigger] spairs[k]).2.len() == sb.len() && forall|m: Seq<u16>|
            #[trigger] coeff_at(spoly_view(sb[spairs[k].0 as int], sb[spairs[k].1 as int], pi), m) % pi
                == combo_coeff(spairs[k].2, sb, pi, m) % pi
    &&& forall|k: int|
        0 <= k < spairs.len() ==> #[trigger] represent::standard_rep(
            sb[spairs[k].0 as int],
            sb[spairs[k].1 as int],
            spairs[k].2,
            sb,
            pi,
        )
    &&& bytes == certificate_bytes(
        p,
        nvars,
        input,
        sb,
        permuted(origins, order),
        membership,
        spair_views_bytes(spairs),
    )
}

/// `bytes` is a certificate for these parts.
pub open spec fn emitted(
    bytes: Seq<u8>,
    p: u64,
    nvars: usize,
    input: Seq<Seq<TermView>>,
    basis: Seq<Seq<TermView>>,
    origins: Seq<Seq<Seq<TermView>>>,
) -> bool {
    exists|
        order: Seq<usize>,
        membership: Seq<Seq<Seq<TermView>>>,
        spairs: Seq<(usize, usize, Seq<Seq<TermView>>)>,
    | #[trigger] emitted_with(bytes, p, nvars, input, basis, origins, order, membership, spairs)
}

/// The division records of the parts, read through their views.
proof fn lemma_reps_carry(
    input: Seq<Polynomial>,
    sorted: Seq<Polynomial>,
    membership: Seq<Vec<Polynomial>>,
    spairs: Seq<SpairEntry>,
    sv: Seq<(usize, usize, Seq<Seq<TermView>>)>,
    modulus: u64,
)
    requires
        sv == spairs.map_values(|e: SpairEntry| (e.i, e.j, poly_views(e.cofactors@))),
        forall|i: int| 0 <= i < membership.len() && i < input.len() ==> #[trigger] represent::division_rep(
            input[i]@,
            poly_views(membership[i]@),
            poly_views(sorted),
        ),
        forall|k: int| 0 <= k < spairs.len() ==> #[trigger] represent::standard_rep(
            sorted[spairs[k].i as int]@,
            sorted[spairs[k].j as int]@,
            poly_views(spairs[k].cofactors@),
            poly_views(sorted),
            modulus as int,
        ),
        forall|k: int| 0 <= k < spairs.len() ==> (#[trigger] spairs[k]).i < spairs[k].j < sorted.len(),
    ensures
        forall|i: int| 0 <= i < membership.len() && i < input.len() ==> #[trigger] represent::division_rep(
            poly_views(input)[i],
            json::entry_views(membership)[i],
            poly_views(sorted),
        ),
        forall|k: int| 0 <= k < spairs.len() ==> #[trigger] represent::standard_rep(
            poly_views(sorted)[sv[k].0 as int],
            poly_views(sorted)[sv[k].1 as int],
            sv[k].2,
            poly_views(sorted),
            modulus as int,
        ),
{
    assert forall|i: int| 0 <= i < membership.len() && i < input.len() implies #[trigger] represent::division_rep(
        poly_views(input)[i],
        json::entry_views(membership)[i],
        poly_views(sorted),
    ) by {
        assert(json::entry_views(membership)[i] == poly_views(membership[i]@));
        assert(poly_views(input)[i] == input[i]@);
        assert(represent::division_rep(input[i]@, poly_views(membership[i]@), poly_views(sorted)));
    }
    assert forall|k: int| 0 <= k < spairs.len() implies #[trigger] represent::standard_rep(
        poly_views(sorted)[sv[k].0 as int],
        poly_views(sorted)[sv[k].1 as int],
        sv[k].2,
        poly_views(sorted),
        modulus as int,
    ) by {
        assert(sv[k] == (spairs[k].i, spairs[k].j, poly_views(spairs[k].cofactors@)));
        assert(represent::standard_rep(
            sorted[spairs[k].i as int]@,
            sorted[spairs[k].j as int]@,
            poly_views(spairs[k].cofactors@),
            poly_views(sorted),
            modulus as int,
        ));
    }
}

/// Report a term whose exponent vector is not `nvars` wide.
///
/// Every polynomial in a certificate carries one exponent per variable,
/// so the emitter checks the width before it divides.
fn check_width(poly: &Polynomial, at: Place, nvars: usize) -> (r: Result<(), CertifyError>)
    ensures
        r is Ok <==> width_ok(poly@, nvars as nat),
        r matches Err(e) ==> exists|k: int|
            0 <= k < poly@.len() && (#[trigger] poly@[k]).1.len() != nvars && e == CertifyError::Emitter(
                EmitterFault::ExponentCount { at, found: poly@[k].1.len() as usize, expected: nvars },
            ),
{
    let mut k: usize = 0;
    while k < poly.terms.len()
        invariant
            k <= poly@.len(),
            poly@.len() == poly.terms@.len(),
            forall|j: int| 0 <= j < k ==> (#[trigger] poly@[j]).1.len() == nvars,
        decreases poly@.len() - k,
    {
        let width = poly.terms[k].mono.nvars();
        proof {
            assert(poly@[k as int] == poly.terms@[k as int]@);
        }
        if width != nvars {
            return Err(CertifyError::Emitter(EmitterFault::ExponentCount { at, found: width, expected: nvars }));
        }
        k += 1;
    }
    Ok(())
}

/// Every input and basis polynomial has width `nvars`, and no basis
/// element is zero.
pub open spec fn input_basis_valid(input: Seq<Polynomial>, basis: Seq<Polynomial>, nvars: nat) -> bool {
    &&& widths_ok(input, nvars)
    &&& widths_ok(basis, nvars)
    &&& forall|k: int| 0 <= k < basis.len() ==> (#[trigger] basis[k])@.len() > 0
}

/// Origin entry `b` is the first that does not hold `n` cofactors: every
/// earlier entry holds `n` cofactors of width `nvars`.
pub open spec fn first_bad_entry(origins: Seq<Origin>, n: nat, nvars: nat, b: int) -> bool {
    &&& 0 <= b < origins.len()
    &&& origins[b]@.len() != n
    &&& forall|j: int| 0 <= j < b ==> (#[trigger] origins[j])@.len() == n && widths_ok(origins[j]@, nvars)
}

/// Check every width, the basis for zero elements, and the origin counts.
fn validate_parts(input: &[Polynomial], basis: &[Polynomial], origins: &[Origin], nvars: usize) -> (r: Result<
    (),
    CertifyError,
>)
    ensures
        forall|b: int|
            origins@.len() == basis@.len() && input_basis_valid(input@, basis@, nvars as nat) && #[trigger] first_bad_entry(
                origins@,
                input@.len(),
                nvars as nat,
                b,
            ) ==> r == Err::<(), CertifyError>(
                CertifyError::Emitter(
                    EmitterFault::OriginEntryCount {
                        basis: b as usize,
                        found: origins@[b]@.len() as usize,
                        expected: input@.len() as usize,
                    },
                ),
            ),
        r is Ok <==> origins@.len() == basis@.len() && parts_valid(input@, basis@, origins@, nvars as nat),
        (r == Err::<(), CertifyError>(
            CertifyError::Emitter(
                EmitterFault::OriginCount { found: origins@.len() as usize, expected: basis@.len() as usize },
            ),
        )) <==> origins@.len() != basis@.len(),
        r matches Err(e) ==> match e {
            CertifyError::Emitter(EmitterFault::OriginCount { .. }) => origins@.len() != basis@.len(),
            CertifyError::Emitter(EmitterFault::ExponentCount { .. }) => !parts_valid(
                input@,
                basis@,
                origins@,
                nvars as nat,
            ),
            CertifyError::Emitter(EmitterFault::BasisElementZero { index }) => index < basis@.len()
                && basis@[index as int]@.len() == 0,
            CertifyError::Emitter(EmitterFault::OriginEntryCount { basis: b, found, expected }) => b
                < origins@.len() && found == origins@[b as int]@.len() && expected == input@.len()
                && found != expected,
            _ => false,
        },
{
    if origins.len() != basis.len() {
        return Err(CertifyError::Emitter(EmitterFault::OriginCount { found: origins.len(), expected: basis.len() }));
    }
    let mut k: usize = 0;
    while k < input.len()
        invariant
            origins@.len() == basis@.len(),
            k <= input@.len(),
            forall|j: int| 0 <= j < k ==> width_ok((#[trigger] input@[j])@, nvars as nat),
        decreases input@.len() - k,
    {
        check_width(&input[k], Place::Input(k), nvars)?;
        k += 1;
    }
    let mut k: usize = 0;
    while k < basis.len()
        invariant
            origins@.len() == basis@.len(),
            widths_ok(input@, nvars as nat),
            k <= basis@.len(),
            forall|j: int| 0 <= j < k ==> width_ok((#[trigger] basis@[j])@, nvars as nat),
            forall|j: int| 0 <= j < k ==> (#[trigger] basis@[j])@.len() > 0,
        decreases basis@.len() - k,
    {
        if basis[k].terms.len() == 0 {
            return Err(CertifyError::Emitter(EmitterFault::BasisElementZero { index: k }));
        }
        check_width(&basis[k], Place::Basis(k), nvars)?;
        k += 1;
    }
    let mut b: usize = 0;
    while b < origins.len()
        invariant
            origins@.len() == basis@.len(),
            widths_ok(input@, nvars as nat),
            widths_ok(basis@, nvars as nat),
            forall|j: int| 0 <= j < basis@.len() ==> (#[trigger] basis@[j])@.len() > 0,
            b <= origins@.len(),
            forall|j: int| 0 <= j < b ==> (#[trigger] origins@[j])@.len() == input@.len(),
            forall|j: int| 0 <= j < b ==> widths_ok((#[trigger] origins@[j])@, nvars as nat),
        decreases origins@.len() - b,
    {
        let entry = &origins[b];
        if entry.len() != input.len() {
            proof {
                assert forall|c: int|
                    #[trigger] first_bad_entry(origins@, input@.len(), nvars as nat, c) implies c == b by {
                    if c < b {
                        assert(origins@[c]@.len() == input@.len());
                    } else if c > b {
                        assert(origins@[b as int]@.len() == input@.len());
                    }
                }
            }
            return Err(
                CertifyError::Emitter(
                    EmitterFault::OriginEntryCount { basis: b, found: entry.len(), expected: input.len() },
                ),
            );
        }
        let mut k: usize = 0;
        while k < entry.len()
            invariant
                origins@.len() == basis@.len(),
                b < origins@.len(),
                *entry == origins@[b as int],
                entry@.len() == input@.len(),
                forall|j: int| 0 <= j < b ==> (#[trigger] origins@[j])@.len() == input@.len(),
                k <= entry@.len(),
                forall|j: int| 0 <= j < k ==> width_ok((#[trigger] entry@[j])@, nvars as nat),
            decreases entry@.len() - k,
        {
            match check_width(&entry[k], Place::Origin { basis: b, input: k }, nvars) {
                Ok(()) => {},
                Err(e) => {
                    proof {
                        assert forall|c: int| !#[trigger] first_bad_entry(origins@, input@.len(), nvars as nat, c) by {
                            if first_bad_entry(origins@, input@.len(), nvars as nat, c) {
                                if c < b {
                                    assert(origins@[c]@.len() == input@.len());
                                } else if c > b {
                                    assert(widths_ok(origins@[b as int]@, nvars as nat));
                                    assert(!width_ok(entry@[k as int]@, nvars as nat));
                                } else {
                                    assert(origins@[b as int]@.len() == input@.len());
                                }
                            }
                        }
                    }
                    return Err(e);
                },
            }
            k += 1;
        }
        b += 1;
    }
    Ok(())
}


/// Coming first is transitive among nonzero elements of one width.
proof fn lemma_goes_before_transitive(bs: Seq<Seq<TermView>>, a: int, b: int, c: int, nvars: nat)
    requires
        0 <= a < bs.len(),
        0 <= b < bs.len(),
        0 <= c < bs.len(),
        bs[a].len() > 0 && bs[b].len() > 0 && bs[c].len() > 0,
        bs[a].last().1.len() == nvars && bs[b].last().1.len() == nvars && bs[c].last().1.len() == nvars,
        goes_before(bs, a, b),
        goes_before(bs, b, c),
    ensures
        goes_before(bs, a, c),
{
    let la = bs[a].last().1;
    let lb = bs[b].last().1;
    let lc = bs[c].last().1;
    if la == lb && lb == lc {
    } else if la == lb {
        assert(grevlex_less(lc, lb));
    } else if lb == lc {
        assert(grevlex_less(lb, la));
    } else {
        lemma_grevlex_transitive(lc, lb, la);
    }
}

/// The leading monomial of every element has width `nvars`.
pub open spec fn leads_ok(bs: Seq<Seq<TermView>>, nvars: nat) -> bool {
    forall|k: int| 0 <= k < bs.len() ==> (#[trigger] bs[k]).len() > 0 && bs[k].last().1.len() == nvars
}

/// The order that sorts the basis strictly descending by leading
/// monomial, keeping the given order among equal ones.
pub(crate) fn sort_order(basis: &[Polynomial], Ghost(nvars): Ghost<nat>) -> (order: Vec<usize>)
    requires
        leads_ok(poly_views(basis@), nvars),
    ensures
        sorted_by(poly_views(basis@), order@),
{
    let ghost bs = poly_views(basis@);
    let mut order: Vec<usize> = Vec::new();
    let mut i: usize = 0;
    while i < basis.len()
        invariant
            bs == poly_views(basis@),
            leads_ok(bs, nvars),
            i <= basis@.len(),
            order@.len() == i,
            forall|k: int| 0 <= k < order@.len() ==> (#[trigger] order@[k]) < i,
            forall|k: int, l: int| 0 <= k < l < order@.len() ==> #[trigger] order@[k] != #[trigger] order@[l],
            forall|k: int, l: int|
                0 <= k < l < order@.len() ==> goes_before(bs, #[trigger] order@[k] as int, #[trigger] order@[l] as int),
        decreases basis@.len() - i,
    {
        let gi = &basis[i];
        proof {
            assert(bs[i as int] == gi@);
            assert(gi@.len() == gi.terms@.len());
            assert(gi@.last() == gi.terms@[gi.terms@.len() - 1]@);
        }
        let lead_i = &gi.terms[gi.terms.len() - 1].mono;
        let mut pos = order.len();
        loop
            invariant
                bs == poly_views(basis@),
                leads_ok(bs, nvars),
                i < basis@.len(),
                lead_i@ == bs[i as int].last().1,
                pos <= order@.len(),
                forall|k: int| 0 <= k < order@.len() ==> (#[trigger] order@[k]) < i,
                forall|q: int| pos <= q < order@.len() ==> grevlex_less(#[trigger] bs[order@[q] as int].last().1, bs[i as int].last().1),
            ensures
                pos <= order@.len(),
                forall|q: int| pos <= q < order@.len() ==> grevlex_less(#[trigger] bs[order@[q] as int].last().1, bs[i as int].last().1),
                pos == 0 || !grevlex_less(bs[order@[pos - 1] as int].last().1, bs[i as int].last().1),
            decreases pos,
        {
            if pos == 0 {
                break;
            }
            let gq = &basis[order[pos - 1]];
            proof {
                let q = order@[pos - 1] as int;
                assert(bs[q] == gq@);
                assert(gq@.len() == gq.terms@.len());
                assert(gq@.last() == gq.terms@[gq.terms@.len() - 1]@);
            }
            let lead_q = &gq.terms[gq.terms.len() - 1].mono;
            if !lead_q.less_than(lead_i) {
                break;
            }
            pos -= 1;
        }
        let ghost before = order@;
        proof {
            if pos > 0 {
                let q = before[pos - 1] as int;
                let lq = bs[q].last().1;
                let li = bs[i as int].last().1;
                assert(q < i);
                if lq != li {
                    lemma_grevlex_total(lq, li);
                }
                assert(goes_before(bs, q, i as int));
            }
        }
        order.insert(pos, i);
        proof {
            assert(order@ =~= before.insert(pos as int, i));
            assert forall|k: int, l: int|
                0 <= k < l < order@.len() implies goes_before(bs, #[trigger] order@[k] as int, #[trigger] order@[l] as int) by {
                if l < pos {
                    assert(order@[k] == before[k] && order@[l] == before[l]);
                } else if l == pos {
                    assert(order@[l] == i);
                    assert(order@[k] == before[k]);
                    if k < pos - 1 {
                        lemma_goes_before_transitive(bs, before[k] as int, before[pos - 1] as int, i as int, nvars);
                    }
                } else if k == pos {
                    assert(order@[k] == i);
                    assert(order@[l] == before[l - 1]);
                } else if k < pos {
                    assert(order@[k] == before[k]);
                    assert(order@[l] == before[l - 1]);
                } else {
                    assert(order@[k] == before[k - 1]);
                    assert(order@[l] == before[l - 1]);
                }
            }
            assert forall|k: int, l: int| 0 <= k < l < order@.len() implies #[trigger] order@[k] != #[trigger] order@[l] by {
                if l < pos {
                    assert(order@[k] == before[k] && order@[l] == before[l]);
                } else if l == pos {
                    assert(order@[k] == before[k]);
                } else if k == pos {
                    assert(order@[l] == before[l - 1]);
                } else if k < pos {
                    assert(order@[k] == before[k] && order@[l] == before[l - 1]);
                } else {
                    assert(order@[k] == before[k - 1] && order@[l] == before[l - 1]);
                }
            }
            assert forall|k: int| 0 <= k < order@.len() implies (#[trigger] order@[k]) < i + 1 by {
                if k < pos {
                    assert(order@[k] == before[k]);
                } else if k > pos {
                    assert(order@[k] == before[k - 1]);
                }
            }
        }
        i += 1;
    }
    order
}

/// A copy of every polynomial of a list.
pub(crate) fn copy_list(list: &[Polynomial]) -> (r: Vec<Polynomial>)
    ensures
        r@.len() == list@.len(),
        forall|k: int| 0 <= k < list@.len() ==> (#[trigger] r@[k])@ == list@[k]@ && r@[k].ring == list@[k].ring,
{
    let mut out: Vec<Polynomial> = Vec::new();
    let mut k: usize = 0;
    while k < list.len()
        invariant
            k <= list@.len(),
            out@.len() == k,
            forall|j: int| 0 <= j < k ==> (#[trigger] out@[j])@ == list@[j]@ && out@[j].ring == list@[j].ring,
        decreases list@.len() - k,
    {
        out.push(list[k].copy());
        k += 1;
    }
    out
}

/// `held` with each cofactor list of `origins` charged in turn, at the
/// rates of `budget`.
pub open spec fn origins_held(budget: Budget, held: usize, origins: Seq<Origin>) -> usize
    decreases origins.len(),
{
    if origins.len() == 0 {
        held
    } else {
        saturating_total(
            origins_held(budget, held, origins.drop_last()),
            budget.bytes_spec(origins.last()@.len() as usize, term_total(origins.last()@)),
        )
    }
}

/// What the budget holds once the input, the basis, and the origins are
/// charged.
pub open spec fn parts_held(budget: Budget, input: Seq<Polynomial>, basis: Seq<Polynomial>, origins: Seq<Origin>) -> usize {
    let with_input = saturating_total(budget.held_spec(), budget.bytes_spec(input.len() as usize, term_total(input)));
    let with_basis = saturating_total(with_input, budget.bytes_spec(basis.len() as usize, term_total(basis)));
    origins_held(budget, with_basis, origins)
}

/// `held` fits under the memory limit of `budget`, if it has one.
pub open spec fn held_fits(budget: Budget, held: usize) -> bool {
    match budget.memory_spec() {
        Some(limit) => held <= limit,
        None => true,
    }
}

/// Charging more cofactor lists never lowers what the budget holds.
proof fn lemma_origins_held_grows(budget: Budget, held: usize, origins: Seq<Origin>, k: int)
    requires
        0 <= k <= origins.len(),
    ensures
        origins_held(budget, held, origins.take(k)) <= origins_held(budget, held, origins),
        held <= origins_held(budget, held, origins),
    decreases origins.len(),
{
    if k == origins.len() {
        assert(origins.take(k) =~= origins);
    }
    if origins.len() > 0 {
        if k < origins.len() {
            lemma_origins_held_grows(budget, held, origins.drop_last(), k);
            assert(origins.drop_last().take(k) =~= origins.take(k));
        } else {
            lemma_origins_held_grows(budget, held, origins.drop_last(), 0);
        }
    }
}

/// Pairs writable in either order stay writable under any permutation.
proof fn lemma_permuted_writable(bs: Seq<Seq<TermView>>, order: Seq<usize>, p: int)
    requires
        all_pairs_writable(bs, p),
        is_permutation(order, bs.len()),
    ensures
        pairs_writable(permuted(bs, order), p),
{
    let sb = permuted(bs, order);
    assert forall|i: int, j: int| #[trigger] listed_pair(sb, i, j) implies spoly_formable(sb[i], sb[j])
        && spoly_degrees_fit(sb[i], sb[j], p) by {
        let a = order[i] as int;
        let b = order[j] as int;
        assert(sb[i] == bs[a] && sb[j] == bs[b]);
        assert(a != b);
        assert(spoly_formable(bs[a], bs[b]));
    }
}

/// Charge the input, the basis, and the origins to the budget.
fn hold_parts(input: &[Polynomial], basis: &[Polynomial], origins: &[Origin], budget: &mut Budget) -> (r: Result<
    (),
    CertifyError,
>)
    ensures
        final(budget).stops_spec() == old(budget).stops_spec(),
        final(budget).memory_spec() == old(budget).memory_spec(),
        r is Ok ==> final(budget).held_spec() == parts_held(*old(budget), input@, basis@, origins@) && held_fits(
            *old(budget),
            parts_held(*old(budget), input@, basis@, origins@),
        ),
        old(budget).stops_spec() is None ==> (r is Ok <==> held_fits(
            *old(budget),
            parts_held(*old(budget), input@, basis@, origins@),
        )),
        r matches Err(e) ==> (e == CertifyError::WriterExhausted(ComputeError::Timeout) && old(budget).stops_spec() is Some)
            || (e == CertifyError::WriterExhausted(ComputeError::MemoryLimitExceeded) && !held_fits(
            *old(budget),
            parts_held(*old(budget), input@, basis@, origins@),
        )),
{
    let ghost b0 = *budget;
    let ghost total = parts_held(b0, input@, basis@, origins@);
    let ghost h1 = saturating_total(b0.held_spec(), b0.bytes_spec(input@.len() as usize, term_total(input@)));
    let ghost h2 = saturating_total(h1, b0.bytes_spec(basis@.len() as usize, term_total(basis@)));
    proof {
        lemma_origins_held_grows(b0, h2, origins@, 0);
    }
    match budget.check_deadline() {
        Ok(()) => {},
        Err(e) => {
            return Err(CertifyError::WriterExhausted(e));
        },
    }
    match budget.hold_polys(input) {
        Ok(()) => {},
        Err(e) => {
            return Err(CertifyError::WriterExhausted(e));
        },
    }
    match budget.hold_polys(basis) {
        Ok(()) => {},
        Err(e) => {
            return Err(CertifyError::WriterExhausted(e));
        },
    }
    let mut k: usize = 0;
    while k < origins.len()
        invariant
            k <= origins@.len(),
            b0 == *old(budget),
            budget.stops_spec() == b0.stops_spec(),
            budget.memory_spec() == b0.memory_spec(),
            budget.poly_bytes_spec() == b0.poly_bytes_spec(),
            budget.term_bytes_spec() == b0.term_bytes_spec(),
            budget.held_spec() == origins_held(b0, h2, origins@.take(k as int)),
            total == origins_held(b0, h2, origins@),
            total == parts_held(b0, input@, basis@, origins@),
            held_fits(b0, budget.held_spec()),
        decreases origins@.len() - k,
    {
        proof {
            assert(origins@.take(k as int + 1).drop_last() =~= origins@.take(k as int));
            lemma_origins_held_grows(b0, h2, origins@, k as int + 1);
        }
        let ghost before = budget.held_spec();
        let res = budget.hold_polys(origins[k].as_slice());
        proof {
            let t = origins@.take(k as int + 1);
            assert(t.last() == origins@[k as int]);
            assert(t.drop_last() =~= origins@.take(k as int));
            assert(budget.held_spec() == origins_held(b0, h2, t));
        }
        match res {
            Ok(()) => {},
            Err(e) => {
                proof {
                    assert(budget.held_spec() <= total);
                }
                return Err(CertifyError::WriterExhausted(e));
            },
        }
        k += 1;
    }
    proof {
        assert(origins@.take(k as int) =~= origins@);
    }
    Ok(())
}

/// A canonical list holds reduced coefficients.
proof fn lemma_basis_reduced(list: Seq<Polynomial>, p: u64)
    requires
        basis_ok(list, p),
    ensures
        json::all_reduced(list, p as int),
{
    assert forall|k: int| 0 <= k < list.len() implies coeffs_reduced((#[trigger] list[k])@, p as int) by {
        assert(list[k].wf());
        assert forall|j: int| 0 <= j < list[k]@.len() implies 0 < (#[trigger] list[k]@[j]).0 < p by {}
    }
}


/// The term lists of each origin.
pub open spec fn origin_views(origins: Seq<Origin>) -> Seq<Seq<Seq<TermView>>> {
    json::entry_views(origins)
}

/// Some order sorts the basis and leaves input `i` a reduced nonzero
/// remainder over the sorted basis.
pub open spec fn input_has_remainder(
    input: Seq<Polynomial>,
    basis: Seq<Seq<TermView>>,
    i: int,
    p: int,
) -> bool {
    exists|order: Seq<usize>|
        #[trigger] sorted_by(basis, order) && has_remainder(
            input[i]@,
            permuted(basis, order),
            p,
            input[i].ring.nvars as nat,
        )
}

/// Some order sorts the basis so that `(i, j)` is a listed pair of the
/// sorted basis whose S-polynomial leaves a reduced nonzero remainder.
pub open spec fn pair_has_remainder(basis: Seq<Seq<TermView>>, i: int, j: int, p: int, nvars: nat) -> bool {
    exists|order: Seq<usize>|
        #[trigger] sorted_by(basis, order) && listed_pair(permuted(basis, order), i, j) && has_remainder_mod(
            spoly_view(permuted(basis, order)[i], permuted(basis, order)[j], p),
            permuted(basis, order),
            p,
            nvars,
        )
}

/// Write the certificate for one computation.
///
/// `input` is the input F, `basis` the claimed reduced basis G, and
/// `origins` one cofactor list per basis element over the input, so that
/// `g_j = sum_i c_ji * f_i`. The emitter generates the membership and
/// S-pair cofactors itself.
///
/// The certificate carries the basis strictly descending by leading
/// monomial, and the origin entries move with it. The bytes are a function
/// of the arguments alone; `budget` stops the work early and never changes
/// the bytes. The emitter does not check the origin identities: it reports
/// a defect only where it cannot write a certificate at all. A count error
/// and a width error name the index the caller passed; a division defect
/// names the index the certificate carries, after the sort.
#[verifier::rlimit(30)]
pub fn assemble(
    ring: &PolynomialRing,
    input: &[Polynomial],
    basis: Vec<Polynomial>,
    origins: Vec<Origin>,
    budget: &mut Budget,
) -> (r: Result<Vec<u8>, CertifyError>)
    requires
        ring.wf(),
        basis_ok(input@, ring.modulus),
        basis_ok(basis@, ring.modulus),
        forall|k: int| 0 <= k < origins@.len() ==> basis_ok((#[trigger] origins@[k])@, ring.modulus),
    ensures
        final(budget).stops_spec() == old(budget).stops_spec(),
        final(budget).memory_spec() == old(budget).memory_spec(),
        r matches Ok(bytes) ==> origins@.len() == basis@.len() && parts_valid(
            input@,
            basis@,
            origins@,
            ring.nvars as nat,
        ) && emitted(
            bytes@,
            ring.modulus,
            ring.nvars,
            poly_views(input@),
            poly_views(basis@),
            origin_views(origins@),
        ),
        (r == Err::<Vec<u8>, CertifyError>(
            CertifyError::Emitter(
                EmitterFault::OriginCount { found: origins@.len() as usize, expected: basis@.len() as usize },
            ),
        )) <==> origins@.len() != basis@.len(),
        forall|b: int|
            origins@.len() == basis@.len() && input_basis_valid(input@, basis@, ring.nvars as nat)
                && #[trigger] first_bad_entry(origins@, input@.len(), ring.nvars as nat, b) ==> r == Err::<
                Vec<u8>,
                CertifyError,
            >(
                CertifyError::Emitter(
                    EmitterFault::OriginEntryCount {
                        basis: b as usize,
                        found: origins@[b]@.len() as usize,
                        expected: input@.len() as usize,
                    },
                ),
            ),
        origins@.len() == basis@.len() && !parts_valid(input@, basis@, origins@, ring.nvars as nat) ==> (
        r matches Err(CertifyError::Emitter(e)) && (e is ExponentCount || e is BasisElementZero
            || e is OriginEntryCount)),
        r matches Err(e) ==> match e {
            CertifyError::Emitter(EmitterFault::OriginCount { .. }) => origins@.len() != basis@.len(),
            CertifyError::Emitter(EmitterFault::ExponentCount { .. }) => !parts_valid(
                input@,
                basis@,
                origins@,
                ring.nvars as nat,
            ),
            CertifyError::Emitter(EmitterFault::BasisElementZero { index }) => index < basis@.len()
                && basis@[index as int]@.len() == 0,
            CertifyError::Emitter(EmitterFault::OriginEntryCount { basis: b, found, expected }) => b
                < origins@.len() && found == origins@[b as int]@.len() && expected == input@.len()
                && found != expected,
            CertifyError::Emitter(EmitterFault::InputHasRemainder { input: i }) => i < input@.len()
                && parts_valid(input@, basis@, origins@, ring.nvars as nat) && input_has_remainder(
                input@,
                poly_views(basis@),
                i as int,
                ring.modulus as int,
            ),
            CertifyError::Emitter(EmitterFault::NotAGroebnerBasis { i, j }) => parts_valid(
                input@,
                basis@,
                origins@,
                ring.nvars as nat,
            ) && pair_has_remainder(
                poly_views(basis@),
                i as int,
                j as int,
                ring.modulus as int,
                ring.nvars as nat,
            ),
            CertifyError::WriterExhausted(c) => parts_valid(input@, basis@, origins@, ring.nvars as nat) && ((c
                == ComputeError::Timeout && old(budget).stops_spec() is Some) || (c
                == ComputeError::MemoryLimitExceeded && old(budget).memory_spec() is Some) || (c == (
            ComputeError::ExponentLimit { limit: DEGREE_LIMIT }) && (!inputs_writable(input@)
                || !all_pairs_writable(poly_views(basis@), ring.modulus as int)))),
            _ => false,
        },
        old(budget).stops_spec() is None && origins@.len() == basis@.len() && parts_valid(
            input@,
            basis@,
            origins@,
            ring.nvars as nat,
        ) && !held_fits(*old(budget), parts_held(*old(budget), input@, basis@, origins@)) ==> r == Err::<
            Vec<u8>,
            CertifyError,
        >(CertifyError::WriterExhausted(ComputeError::MemoryLimitExceeded)),
        old(budget).stops_spec() is None && old(budget).memory_spec() is None && origins@.len() == basis@.len()
            && parts_valid(input@, basis@, origins@, ring.nvars as nat) && inputs_writable(input@)
            && all_pairs_writable(poly_views(basis@), ring.modulus as int) ==> (r is Ok || r matches Err(
            CertifyError::Emitter(EmitterFault::InputHasRemainder { .. }),
        ) || r matches Err(CertifyError::Emitter(EmitterFault::NotAGroebnerBasis { .. }))),
{
    let modulus = ring.modulus;
    let nvars = ring.nvars;
    validate_parts(input, basis.as_slice(), origins.as_slice(), nvars)?;
    hold_parts(input, basis.as_slice(), origins.as_slice(), budget)?;
    let ghost bs = poly_views(basis@);
    proof {
        assert forall|k: int| 0 <= k < bs.len() implies (#[trigger] bs[k]).len() > 0 && bs[k].last().1.len()
            == nvars by {
            assert(bs[k] == basis@[k]@);
            assert(width_ok(basis@[k]@, nvars as nat));
            assert(bs[k].last() == bs[k][bs[k].len() - 1]);
        }
    }
    let order = sort_order(basis.as_slice(), Ghost(nvars as nat));
    let mut sorted_basis: Vec<Polynomial> = Vec::new();
    let mut sorted_origins: Vec<Origin> = Vec::new();
    let mut k: usize = 0;
    while k < order.len()
        invariant
            sorted_by(bs, order@),
            bs == poly_views(basis@),
            basis_ok(basis@, modulus),
            forall|j: int| 0 <= j < origins@.len() ==> basis_ok((#[trigger] origins@[j])@, modulus),
            origins@.len() == basis@.len(),
            k <= order@.len(),
            sorted_basis@.len() == k,
            sorted_origins@.len() == k,
            forall|j: int| 0 <= j < k ==> (#[trigger] sorted_basis@[j])@ == basis@[order@[j] as int]@
                && sorted_basis@[j].ring == basis@[order@[j] as int].ring,
            forall|j: int| 0 <= j < k ==> (#[trigger] sorted_origins@[j])@.len() == origins@[order@[j] as int]@.len()
                && forall|l: int| 0 <= l < sorted_origins@[j]@.len() ==> (#[trigger] sorted_origins@[j]@[l])@
                    == origins@[order@[j] as int]@[l]@ && sorted_origins@[j]@[l].ring == origins@[order@[j] as int]@[l].ring,
        decreases order@.len() - k,
    {
        let index = order[k];
        sorted_basis.push(basis[index].copy());
        sorted_origins.push(copy_list(origins[index].as_slice()));
        k += 1;
    }
    let ghost sb = permuted(bs, order@);
    proof {
        assert(poly_views(sorted_basis@) =~= sb);
        assert forall|j: int| 0 <= j < sorted_basis@.len() implies (#[trigger] sorted_basis@[j]).wf()
            && sorted_basis@[j].ring.modulus == modulus by {
            assert(basis@[order@[j] as int].wf());
        }
        assert forall|j: int| 0 <= j < sorted_origins@.len() implies basis_ok((#[trigger] sorted_origins@[j])@, modulus) by {
            assert(basis_ok(origins@[order@[j] as int]@, modulus));
            assert forall|l: int| 0 <= l < sorted_origins@[j]@.len() implies (#[trigger] sorted_origins@[j]@[l]).wf()
                && sorted_origins@[j]@[l].ring.modulus == modulus by {
                assert(origins@[order@[j] as int]@[l].wf());
            }
        }
        assert(origin_views(sorted_origins@) =~= permuted(origin_views(origins@), order@)) by {
            assert forall|j: int| 0 <= j < sorted_origins@.len() implies #[trigger] origin_views(sorted_origins@)[j]
                == permuted(origin_views(origins@), order@)[j] by {
                assert(poly_views(sorted_origins@[j]@) =~= poly_views(origins@[order@[j] as int]@));
            }
        }
    }
    let membership = match membership_representations(input, sorted_basis.as_slice(), modulus, budget) {
        Ok(m) => m,
        Err(e) => {
            proof {
                if let CertifyError::Emitter(EmitterFault::InputHasRemainder { input: i }) = e {
                    assert(sorted_by(bs, order@));
                }
            }
            return Err(e);
        },
    };
    proof {
        if all_pairs_writable(bs, modulus as int) {
            lemma_permuted_writable(bs, order@, modulus as int);
        }
    }
    let spairs = match spair_representations(sorted_basis.as_slice(), modulus, budget) {
        Ok(s) => s,
        Err(e) => {
            proof {
                if e == CertifyError::WriterExhausted(ComputeError::ExponentLimit { limit: DEGREE_LIMIT }) {
                    if all_pairs_writable(bs, modulus as int) {
                        assert(pairs_writable(poly_views(sorted_basis@), modulus as int));
                    }
                }
                if let CertifyError::Emitter(EmitterFault::NotAGroebnerBasis { i, j }) = e {
                    assert(sorted_by(bs, order@));
                    assert(sorted_basis@[i as int].ring.nvars == nvars) by {
                        assert(basis@[order@[i as int] as int].wf());
                        assert(width_ok(basis@[order@[i as int] as int]@, nvars as nat));
                        assert(sb[i as int].len() > 0);
                        assert(sb[i as int][0].1.len() == nvars);
                        assert(0 < sorted_basis@[i as int]@[0].0);
                    }
                }
            }
            return Err(e);
        },
    };
    match budget.check_deadline() {
        Ok(()) => {},
        Err(e) => {
            return Err(CertifyError::WriterExhausted(e));
        },
    }
    let parts = Parts {
        modulus,
        nvars,
        input,
        basis: sorted_basis.as_slice(),
        origin: sorted_origins.as_slice(),
        membership: membership.as_slice(),
        spairs: spairs.as_slice(),
    };
    proof {
        lemma_basis_reduced(input@, modulus);
        lemma_basis_reduced(sorted_basis@, modulus);
        assert forall|j: int| 0 <= j < sorted_origins@.len() implies json::all_reduced((#[trigger] sorted_origins@[j])@, modulus as int) by {
            lemma_basis_reduced(sorted_origins@[j]@, modulus);
        }
        assert forall|j: int| 0 <= j < membership@.len() implies json::all_reduced((#[trigger] membership@[j])@, modulus as int) by {
            assert(basis_ok(membership@[j]@, modulus)) by {
                assert forall|l: int| 0 <= l < membership@[j]@.len() implies (#[trigger] membership@[j]@[l]).wf()
                    && membership@[j]@[l].ring.modulus == modulus by {
                    assert(input@[j].wf());
                }
            }
            lemma_basis_reduced(membership@[j]@, modulus);
        }
        assert forall|j: int| 0 <= j < spairs@.len() implies json::all_reduced((#[trigger] spairs@[j]).cofactors@, modulus as int) by {
            assert(basis_ok(spairs@[j].cofactors@, modulus)) by {
                assert forall|l: int| 0 <= l < spairs@[j].cofactors@.len() implies (#[trigger] spairs@[j].cofactors@[l]).wf()
                    && spairs@[j].cofactors@[l].ring.modulus == modulus by {
                    assert(sorted_basis@[spairs@[j].i as int].wf());
                }
            }
            lemma_basis_reduced(spairs@[j].cofactors@, modulus);
        }
    }
    let certificate = match json::write(&parts, budget) {
        Ok(bytes) => bytes,
        Err(e) => {
            return Err(CertifyError::WriterExhausted(e));
        },
    };
    match budget.hold_bytes(certificate.len()) {
        Ok(()) => {},
        Err(e) => {
            return Err(CertifyError::WriterExhausted(e));
        },
    }
    proof {
        let mv = json::entry_views(membership@);
        let sv = spairs@.map_values(|e: SpairEntry| (e.i, e.j, poly_views(e.cofactors@)));
        assert(json::spair_list_bytes(spairs@) == spair_views_bytes(sv)) by {
            assert(spairs@.map_values(|e: SpairEntry| spair_bytes(e.i, e.j, poly_views(e.cofactors@)))
                =~= sv.map_values(|e: (usize, usize, Seq<Seq<TermView>>)| spair_bytes(e.0, e.1, e.2)));
        }
        assert(sv.map_values(|e: (usize, usize, Seq<Seq<TermView>>)| (e.0, e.1)) =~= entry_pairs(spairs@));
        assert forall|i: int| 0 <= i < mv.len() implies (#[trigger] mv[i]).len() == sb.len() && forall|m: Seq<u16>|
            #[trigger] coeff_at(poly_views(input@)[i], m) == combo_coeff(mv[i], sb, modulus as int, m) % (modulus as int) by {
            assert(mv[i] == poly_views(membership@[i]@));
            assert(poly_views(input@)[i] == input@[i]@);
        }
        assert forall|kk: int| 0 <= kk < sv.len() implies (#[trigger] sv[kk]).2.len() == sb.len() && forall|m: Seq<u16>|
            #[trigger] coeff_at(spoly_view(sb[sv[kk].0 as int], sb[sv[kk].1 as int], modulus as int), m) % (modulus as int)
                == combo_coeff(sv[kk].2, sb, modulus as int, m) % (modulus as int) by {
            assert(sv[kk] == (spairs@[kk].i, spairs@[kk].j, poly_views(spairs@[kk].cofactors@)));
            assert(sb[sv[kk].0 as int] == sorted_basis@[spairs@[kk].i as int]@);
            assert(sb[sv[kk].1 as int] == sorted_basis@[spairs@[kk].j as int]@);
        }
        lemma_reps_carry(input@, sorted_basis@, membership@, spairs@, sv, modulus);
        assert(emitted_with(
            certificate@,
            modulus,
            nvars,
            poly_views(input@),
            bs,
            origin_views(origins@),
            order@,
            mv,
            sv,
        ));
    }
    Ok(certificate)
}

} // verus!
