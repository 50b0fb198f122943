//! How certification errors classify a stop.

use sylvester::certificate::CertifyError;
use sylvester::compute::ComputeError;
use sylvester::verify::{Cap, VerifyError};

#[test]
fn an_exhausted_verifier_is_not_a_rejection() {
    let capped = VerifyError::CapExceeded { cap: Cap::Bytes, limit: 16 };
    assert_eq!(CertifyError::from(capped.clone()), CertifyError::VerifierExhausted(capped));
    assert_eq!(
        CertifyError::from(VerifyError::DeadlineExceeded),
        CertifyError::VerifierExhausted(VerifyError::DeadlineExceeded)
    );

    let wrong = VerifyError::OriginIdentity { basis: 0 };
    assert_eq!(CertifyError::from(wrong.clone()), CertifyError::Rejected(wrong));
}

#[test]
fn an_exhausted_engine_keeps_its_value() {
    assert_eq!(CertifyError::from(ComputeError::Timeout), CertifyError::Engine(ComputeError::Timeout));
}
