//! Error types of the authorization core.
//!
//! Every failure is returned as a typed result; nothing is logged and
//! swallowed. Failures of the external identity/credential store are the
//! host's to wrap and propagate.

use vstd::prelude::*;

verus! {

/// Failure of a delegated-authorization request.
#[derive(Clone, Copy, Debug, PartialEq, Eq, Structural)]
pub enum PkceAuthError {
    /// The `plain` challenge method was requested while disabled by
    /// configuration; rejected before any password check.
    InsecurePlain,
    /// The password did not match.
    Unauthorized,
}

/// Failure of an access-token redemption.
#[derive(Clone, Copy, Debug, PartialEq, Eq, Structural)]
pub enum PkceTokenError {
    /// No pending authorization exists under the presented code.
    InvalidCode,
    /// The validity window of the pending authorization has elapsed; the
    /// entry is gone, and a retry yields `InvalidCode`.
    ExpiredCode,
    /// The verifier does not match the registered challenge.
    InvalidVerifier,
}

} // verus!
