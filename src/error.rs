use vstd::prelude::*;

verus! {

/// The error kinds surfaced by the certificate core.
#[derive(Debug, Clone, Copy, PartialEq, Eq, Structural)]
pub enum GatewayError {
    CertificateNotFound,
    CertificateRenewalRequired,
    ACMEIsDisabled,
    ACMEChallengeNotFound,
    ACMEFailed,
    StorageError,
    InvalidEmail,
    InvalidCertificate,
}

} // verus!
