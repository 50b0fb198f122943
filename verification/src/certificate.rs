//! Certificates for a computed basis.
//!
//! A certificate carries the input, the basis, and everything the verifier
//! needs to check both ideal inclusions. The module that writes a
//! certificate is untrusted; the verifier is the trust boundary.
//! Acceptance proves two facts: the input and the basis generate the same
//! ideal, and the basis is the reduced Gröbner basis of that ideal under
//! grevlex.

use vstd::prelude::*;

use crate::compute::ComputeError;
use crate::poly::Polynomial;
use crate::verify::VerifyError;

verus! {

/// A basis with the certificate the verifier accepted for it.
///
/// The basis is decoded from the accepted bytes, so the value the caller
/// reads is the value the verifier checked.
#[derive(Clone, Debug, PartialEq, Eq)]
pub struct CertifiedGroebnerBasis {
    basis: Vec<Polynomial>,
    certificate: Vec<u8>,
}

impl CertifiedGroebnerBasis {
    /// The basis it holds.
    pub closed spec fn basis_spec(&self) -> Seq<Polynomial> {
        self.basis@
    }

    /// The bytes it holds.
    pub closed spec fn certificate_spec(&self) -> Seq<u8> {
        self.certificate@
    }

    /// A basis and the bytes the verifier accepted for it.
    pub fn new(basis: Vec<Polynomial>, certificate: Vec<u8>) -> (c: CertifiedGroebnerBasis)
        ensures
            c.basis_spec() == basis@,
            c.certificate_spec() == certificate@,
    {
        CertifiedGroebnerBasis { basis, certificate }
    }

    /// The reduced Gröbner basis the certificate carries.
    pub fn basis(&self) -> (b: &[Polynomial])
        ensures
            b@ == self.basis_spec(),
    {
        self.basis.as_slice()
    }

    /// The certificate bytes.
    pub fn certificate(&self) -> (b: &[u8])
        ensures
            b@ == self.certificate_spec(),
    {
        self.certificate.as_slice()
    }

    /// Take the owned basis and bytes.
    pub fn into_parts(self) -> (r: (Vec<Polynomial>, Vec<u8>))
        ensures
            r.0@ == self.basis_spec(),
            r.1@ == self.certificate_spec(),
    {
        (self.basis, self.certificate)
    }
}

/// The place a polynomial holds in the data the emitter reads.
#[derive(Clone, Copy, Debug, PartialEq, Eq, Structural)]
pub enum Place {
    /// Input polynomial at this index.
    Input(usize),
    /// Basis polynomial at this index.
    Basis(usize),
    /// One cofactor of an origin identity.
    Origin {
        /// The basis element the origin belongs to.
        basis: usize,
        /// The input polynomial the cofactor multiplies.
        input: usize,
    },
}

/// Why certification stops.
///
/// [`CertifyError::Engine`], [`CertifyError::WriterExhausted`], and
/// [`CertifyError::VerifierExhausted`] report an exhausted budget, one per
/// part of the run; none of them says anything about the basis.
/// [`CertifyError::Emitter`] reports a defect in the candidate the emitter
/// read. [`CertifyError::InputMismatch`] reports an accepted certificate
/// that does not describe the ideal the caller asked about.
/// [`CertifyError::Rejected`] reports a certificate the verifier read and
/// refused.
#[derive(Clone, Copy, Debug, PartialEq, Eq, Structural)]
pub enum CertifyError {
    /// The emitter could not write a certificate for the candidate it read.
    Emitter(EmitterFault),
    /// The accepted certificate does not describe the ideal the caller
    /// asked about.
    InputMismatch,
    /// The engine stopped before it produced a basis.
    Engine(ComputeError),
    /// The certificate writer stopped before it wrote the bytes.
    WriterExhausted(ComputeError),
    /// The verifier stopped before it reached a verdict.
    VerifierExhausted(VerifyError),
    /// The verifier rejected the certificate the emitter wrote.
    Rejected(VerifyError),
    /// The certificate would exceed a cap the contract puts on it, so the
    /// writer wrote no bytes.
    CapExceeded {
        /// The cap the certificate would exceed.
        cap: CertificateCap,
        /// The value the cap holds.
        limit: usize,
    },
}

/// The part of a recorded run the writer could not read.
#[derive(Clone, Copy, Debug, PartialEq, Eq, Structural)]
pub enum TraceFault {
    /// A row the kernel installed as a pivot carries no summand.
    EmptyRow,
    /// A row or a pivot slot the kernel named carries no value.
    UnboundRow,
    /// A basis element the run returned carries no value.
    UnboundBasis,
    /// The run returned a basis of one length and the trace names another.
    BasisCount {
        /// The number of elements the trace names.
        found: usize,
        /// The number of elements the run returned.
        expected: usize,
    },
}

/// A cap the certificate contract puts on one certificate.
#[derive(Clone, Copy, Debug, PartialEq, Eq, Structural)]
pub enum CertificateCap {
    /// Monomials in the pool.
    PoolMonomials,
    /// Variable and exponent pairs in the pool.
    PoolEntries,
    /// Polynomials in the input section.
    InputPolys,
    /// Terms in one polynomial.
    TermsPerPoly,
    /// Terms in the certificate.
    TotalTerms,
    /// Nodes in the trace.
    Nodes,
    /// Steps in one combination node.
    CombSteps,
    /// Combination steps in the whole trace.
    TraceSteps,
    /// Elements of the basis.
    Basis,
    /// Pairs of the basis.
    Pairs,
    /// Steps in one division trace.
    DivisionSteps,
    /// Division steps in the whole certificate.
    TotalDivisionSteps,
}

/// Why the emitter could not write a certificate for a candidate.
///
/// Every value names a defect in the basis, the origins, or a polynomial
/// the emitter read, never an exhausted budget.
#[derive(Clone, Copy, Debug, PartialEq, Eq, Structural)]
pub enum EmitterFault {
    /// A polynomial holds an exponent vector of the wrong width.
    ExponentCount {
        /// Where the polynomial sits.
        at: Place,
        /// The width the polynomial holds.
        found: usize,
        /// The number of variables in the ring.
        expected: usize,
    },
    /// A basis element is the zero polynomial.
    BasisElementZero {
        /// The index of the element.
        index: usize,
    },
    /// The origin list does not hold one entry per basis element.
    OriginCount {
        /// The number of entries.
        found: usize,
        /// The number of basis elements.
        expected: usize,
    },
    /// An origin entry does not hold one cofactor per input polynomial.
    OriginEntryCount {
        /// The basis element the entry belongs to.
        basis: usize,
        /// The number of cofactors in the entry.
        found: usize,
        /// The number of input polynomials.
        expected: usize,
    },
    /// The S-polynomial of this pair does not reduce to zero over the
    /// basis, so the basis is not a Gröbner basis.
    NotAGroebnerBasis {
        /// The first element of the pair.
        i: usize,
        /// The second element of the pair.
        j: usize,
    },
    /// This input polynomial has a nonzero remainder on division by the
    /// basis, so the basis does not generate an ideal that holds the input.
    InputHasRemainder {
        /// The index of the input polynomial.
        input: usize,
    },
    /// A basis element is not monic, so no division trace over the basis
    /// holds.
    BasisElementNotMonic {
        /// The index of the element.
        index: usize,
    },
    /// The trace the engine recorded does not describe the basis it
    /// returned.
    Trace(TraceFault),
}

impl From<EmitterFault> for CertifyError {
    fn from(fault: EmitterFault) -> (e: CertifyError) {
        CertifyError::Emitter(fault)
    }
}

impl vstd::std_specs::convert::FromSpecImpl<EmitterFault> for CertifyError {
    open spec fn obeys_from_spec() -> bool {
        true
    }

    open spec fn from_spec(fault: EmitterFault) -> CertifyError {
        CertifyError::Emitter(fault)
    }
}

impl From<TraceFault> for CertifyError {
    fn from(fault: TraceFault) -> (e: CertifyError) {
        CertifyError::Emitter(EmitterFault::Trace(fault))
    }
}

impl vstd::std_specs::convert::FromSpecImpl<TraceFault> for CertifyError {
    open spec fn obeys_from_spec() -> bool {
        true
    }

    open spec fn from_spec(fault: TraceFault) -> CertifyError {
        CertifyError::Emitter(EmitterFault::Trace(fault))
    }
}

impl From<ComputeError> for CertifyError {
    fn from(error: ComputeError) -> (e: CertifyError) {
        CertifyError::Engine(error)
    }
}

impl vstd::std_specs::convert::FromSpecImpl<ComputeError> for CertifyError {
    open spec fn obeys_from_spec() -> bool {
        true
    }

    open spec fn from_spec(error: ComputeError) -> CertifyError {
        CertifyError::Engine(error)
    }
}

impl From<VerifyError> for CertifyError {
    /// An exhausted verifier has reached no verdict, so it is not a
    /// rejection.
    fn from(error: VerifyError) -> (e: CertifyError) {
        if error.is_exhaustion() {
            CertifyError::VerifierExhausted(error)
        } else {
            CertifyError::Rejected(error)
        }
    }
}

impl vstd::std_specs::convert::FromSpecImpl<VerifyError> for CertifyError {
    open spec fn obeys_from_spec() -> bool {
        true
    }

    open spec fn from_spec(error: VerifyError) -> CertifyError {
        if error.is_exhaustion_spec() {
            CertifyError::VerifierExhausted(error)
        } else {
            CertifyError::Rejected(error)
        }
    }
}

/// An exhausted verifier is reported as exhaustion and never as a
/// rejection; a verifier that reached a verdict is reported as a rejection.
pub proof fn law_exhaustion_is_not_rejection(error: VerifyError)
    ensures
        error.is_exhaustion_spec() ==> <CertifyError as vstd::std_specs::convert::FromSpec<
            VerifyError,
        >>::from_spec(error) == CertifyError::VerifierExhausted(error),
        !error.is_exhaustion_spec() ==> <CertifyError as vstd::std_specs::convert::FromSpec<
            VerifyError,
        >>::from_spec(error) == CertifyError::Rejected(error),
{
}

} // verus!
