//! The verdicts a certificate check can reach, as the emitter reports
//! them.

use std::sync::Arc;
use std::sync::atomic::AtomicBool;
use std::time::Instant;
use vstd::prelude::*;

verus! {

/// The caps of one verification: what it may read and hold before it
/// stops, the deadline it stops at, and the flag that cancels it.
#[derive(Clone, Debug)]
pub struct VerifyLimits {
    /// The bytes of the certificate.
    pub max_bytes: usize,
    /// The polynomials of one list.
    pub max_polys: usize,
    /// The terms of one polynomial.
    pub max_terms_per_poly: usize,
    /// The terms of all polynomials together.
    pub max_total_terms: usize,
    /// The entries of one cofactor list.
    pub max_entries: usize,
    /// The bytes of one intermediate result.
    pub max_intermediate_bytes: usize,
    /// The monomials of the pool.
    pub max_pool_monomials: usize,
    /// The exponent entries of the pool.
    pub max_pool_entries: usize,
    /// The input polynomials.
    pub max_input_polys: usize,
    /// The nodes of the representation graph.
    pub max_nodes: usize,
    /// The steps of the combinations.
    pub max_comb_steps: usize,
    /// The steps of the row-reduction trace.
    pub max_trace_steps: usize,
    /// The basis elements.
    pub max_basis: usize,
    /// The critical pairs.
    pub max_pairs: usize,
    /// The steps of one division.
    pub max_division_steps: usize,
    /// The steps of all divisions together.
    pub max_total_division_steps: usize,
    /// The bytes live at once.
    pub max_live_bytes: usize,
    /// The units of work.
    pub max_work_units: u64,
    /// The instant the verification stops at.
    pub deadline: Option<Instant>,
    /// The flag that cancels the verification.
    pub cancellation: Option<Arc<AtomicBool>>,
}

/// The bytes the verifier's records take in memory: a term without its
/// exponents, one exponent, and one polynomial.
#[derive(Clone, Copy, Debug, PartialEq, Eq)]
pub struct RecordSizes {
    /// A term without its exponents.
    pub term: usize,
    /// One exponent.
    pub exp: usize,
    /// One polynomial.
    pub poly: usize,
}

/// A cap the verifier puts on what it reads before it allocates.
#[derive(Clone, Copy, Debug, PartialEq, Eq, Structural)]
pub enum Cap {
    /// The bytes of one certificate.
    Bytes,
}

/// Why the verifier did not accept a certificate.
#[derive(Clone, Copy, Debug, PartialEq, Eq, Structural)]
pub enum VerifyError {
    /// The certificate passes a cap of the contract.
    CapExceeded {
        /// The cap it passes.
        cap: Cap,
        /// The value the cap holds.
        limit: usize,
    },
    /// The deadline passed before a verdict.
    DeadlineExceeded,
    /// The origin identity of this basis element does not hold.
    OriginIdentity {
        /// The basis element.
        basis: usize,
    },
}

impl VerifyError {
    /// The verifier ran out of budget: it reached no verdict.
    pub open spec fn is_exhaustion_spec(&self) -> bool {
        match self {
            VerifyError::CapExceeded { .. } => true,
            VerifyError::DeadlineExceeded => true,
            VerifyError::OriginIdentity { .. } => false,
        }
    }

    /// Report whether the verifier ran out of budget rather than reject.
    pub fn is_exhaustion(&self) -> (b: bool)
        ensures
            b == self.is_exhaustion_spec(),
    {
        match self {
            VerifyError::CapExceeded { .. } => true,
            VerifyError::DeadlineExceeded => true,
            VerifyError::OriginIdentity { .. } => false,
        }
    }
}

} // verus!
