//! What the rate limiter reports of a change that was made.

use vstd::prelude::*;
use crate::rule::RateLimitRule;
use crate::store::RateLimiterId;

verus! {

/// A change of rules or whitelists that was made.
#[derive(Clone, Debug, PartialEq, Eq)]
pub enum Event {
    /// The rate limit rule of a key was set or removed.
    RateLimitRuleUpdated { rate_limiter_id: RateLimiterId, encoded_key: Vec<u8>, update: Option<RateLimitRule> },
    /// A key filter was added to the whitelist of a limiter.
    WhitelistFilterAdded { rate_limiter_id: RateLimiterId },
    /// A key filter was removed from the whitelist of a limiter.
    WhitelistFilterRemoved { rate_limiter_id: RateLimiterId },
    /// The whitelist of a limiter was replaced.
    WhitelistFilterReset { rate_limiter_id: RateLimiterId },
}

impl Event {
    /// The event says that the rule of `encoded_key` under `rate_limiter_id`
    /// became `update`.
    pub open spec fn is_rule_update(
        self,
        rate_limiter_id: RateLimiterId,
        encoded_key: Seq<u8>,
        update: Option<RateLimitRule>,
    ) -> bool {
        match self {
            Event::RateLimitRuleUpdated { rate_limiter_id: id, encoded_key: key, update: rule } => {
                id == rate_limiter_id && key@ == encoded_key && rule == update
            },
            _ => false,
        }
    }
}

} // verus!
