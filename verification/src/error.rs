//! The errors of the rate limiter.

use vstd::prelude::*;

verus! {

/// Why a change of rules or whitelists was refused.
#[derive(Clone, Copy, Debug, PartialEq, Eq, Structural)]
pub enum Error {
    /// A parameter of a replenishing rule is zero.
    InvalidRateLimitRule,
    /// The key filter is on the whitelist already.
    FilterExisted,
    /// The key filter is not on the whitelist.
    FilterNotExisted,
    /// The whitelist would hold more key filters than a limiter may have.
    MaxFilterExceeded,
}

/// Why an amount was not allowed.
#[derive(Clone, Copy, Debug, PartialEq, Eq, Structural)]
pub enum RateLimiterError {
    /// The amount is more than the quota that remains, or the rule allows
    /// nothing.
    ExceedLimit,
}

} // verus!
