//! Rate limit rules and their validity.

use vstd::prelude::*;

verus! {

/// How the quota of one key is produced.
#[derive(Clone, Copy, Debug, PartialEq, Eq, Structural)]
pub enum RateLimitRule {
    /// Every `blocks_count` blocks the remaining quota is reset to `quota`.
    PerBlocks { blocks_count: u64, quota: u128 },
    /// Every `secs_count` seconds the remaining quota is reset to `quota`.
    PerSeconds { secs_count: u64, quota: u128 },
    /// Every `blocks_count` blocks the remaining quota grows by
    /// `quota_increment`, never beyond `max_quota`.
    TokenBucket { blocks_count: u64, quota_increment: u128, max_quota: u128 },
    /// Every amount is allowed.
    Unlimited,
    /// No amount is allowed, not even zero.
    NotAllowed,
}

impl RateLimitRule {
    /// A rule that produces quota over time, and so keeps a quota state.
    pub open spec fn replenishes(self) -> bool {
        self is PerBlocks || self is PerSeconds || self is TokenBucket
    }

    /// A rule that may be stored: each parameter of a replenishing rule is
    /// non-zero.
    pub open spec fn valid(self) -> bool {
        match self {
            RateLimitRule::PerBlocks { blocks_count, quota } => blocks_count != 0 && quota != 0,
            RateLimitRule::PerSeconds { secs_count, quota } => secs_count != 0 && quota != 0,
            RateLimitRule::TokenBucket { blocks_count, quota_increment, max_quota } => {
                blocks_count != 0 && quota_increment != 0 && max_quota != 0
            },
            RateLimitRule::Unlimited => true,
            RateLimitRule::NotAllowed => true,
        }
    }

    /// Whether the rule produces quota over time.
    pub fn is_replenishing(&self) -> (b: bool)
        ensures
            b == self.replenishes(),
    {
        match self {
            RateLimitRule::PerBlocks { .. } => true,
            RateLimitRule::PerSeconds { .. } => true,
            RateLimitRule::TokenBucket { .. } => true,
            RateLimitRule::Unlimited => false,
            RateLimitRule::NotAllowed => false,
        }
    }

    /// Whether the rule may be stored.
    pub fn is_valid(&self) -> (ok: bool)
        ensures
            ok == self.valid(),
    {
        match self {
            RateLimitRule::PerBlocks { blocks_count, quota } => *blocks_count != 0 && *quota != 0,
            RateLimitRule::PerSeconds { secs_count, quota } => *secs_count != 0 && *quota != 0,
            RateLimitRule::TokenBucket { blocks_count, quota_increment, max_quota } => {
                *blocks_count != 0 && *quota_increment != 0 && *max_quota != 0
            },
            RateLimitRule::Unlimited => true,
            RateLimitRule::NotAllowed => true,
        }
    }
}

} // verus!
