//! The quota engine: how a rule replenishes the remaining quota of a key as
//! blocks and seconds pass, and how consumption is taken from it.

use vstd::prelude::*;
use crate::rule::RateLimitRule;

verus! {

/// What the clocks show when an operation runs.
#[derive(Clone, Copy, Debug, PartialEq, Eq, Structural)]
pub struct Moment {
    /// The current block number.
    pub block_number: u64,
    /// The current wall-clock time, in seconds.
    pub unix_secs: u64,
}

/// The quota state of a key: when it was last replenished (a block number or
/// a time in seconds, as the rule counts), and the quota that remains.
pub type QuotaState = (u64, u128);

/// The quota state of a key that has none stored.
pub open spec fn zero_quota() -> QuotaState {
    (0u64, 0u128)
}

/// The time passed since `last_updated`; none if the clock went backwards.
pub open spec fn elapsed(now: u64, last_updated: u64) -> int {
    if now >= last_updated {
        now - last_updated
    } else {
        0
    }
}

/// The quota state after a fixed window of `interval` with `quota`.
pub open spec fn window_reset(interval: u64, quota: u128, state: QuotaState, now: u64) -> QuotaState {
    if elapsed(now, state.0) >= interval {
        (now, quota)
    } else {
        state
    }
}

/// The quota of a token bucket that held `remaining` after `times` increments.
pub open spec fn refilled(remaining: u128, quota_increment: u128, times: int, max_quota: u128) -> int {
    vstd::math::min(max_quota as int, remaining + quota_increment * times)
}

/// The quota state of a token bucket once the full intervals that have
/// passed are credited. A part of an interval earns nothing.
pub open spec fn bucket_refill(
    blocks_count: u64,
    quota_increment: u128,
    max_quota: u128,
    state: QuotaState,
    now: u64,
) -> QuotaState {
    if blocks_count != 0 && elapsed(now, state.0) >= blocks_count {
        (
            now,
            refilled(state.1, quota_increment, elapsed(now, state.0) / (blocks_count as int), max_quota) as u128,
        )
    } else {
        state
    }
}

/// The quota state that `rule` makes of `state` at `now`.
pub open spec fn replenished(rule: RateLimitRule, state: QuotaState, now: Moment) -> QuotaState {
    match rule {
        RateLimitRule::PerBlocks { blocks_count, quota } => window_reset(blocks_count, quota, state, now.block_number),
        RateLimitRule::PerSeconds { secs_count, quota } => window_reset(secs_count, quota, state, now.unix_secs),
        RateLimitRule::TokenBucket { blocks_count, quota_increment, max_quota } => bucket_refill(
            blocks_count,
            quota_increment,
            max_quota,
            state,
            now.block_number,
        ),
        RateLimitRule::Unlimited => state,
        RateLimitRule::NotAllowed => state,
    }
}

/// The quota state after `amount` was consumed: never below zero.
pub open spec fn consumed(state: QuotaState, amount: u128) -> QuotaState {
    (state.0, if amount >= state.1 { 0u128 } else { (state.1 - amount) as u128 })
}

/// Whether `amount` may be consumed under `rule`, or under no rule, once
/// `state` is replenished at `now`. Without a rule everything is allowed.
pub open spec fn allows(rule: Option<RateLimitRule>, state: QuotaState, now: Moment, amount: u128) -> bool {
    match rule {
        Some(RateLimitRule::Unlimited) => true,
        Some(RateLimitRule::NotAllowed) => false,
        Some(r) => amount <= replenished(r, state, now).1,
        None => true,
    }
}

/// The quota state to store once it was asked whether an amount is allowed:
/// under a replenishing rule the replenished state, else none.
pub open spec fn state_after_check(rule: Option<RateLimitRule>, state: QuotaState, now: Moment) -> Option<
    QuotaState,
> {
    match rule {
        Some(r) if r.replenishes() => Some(replenished(r, state, now)),
        _ => None,
    }
}

/// The quota state to store once `amount` was consumed: under a
/// replenishing rule the state less the amount, else none.
pub open spec fn state_after_record(rule: Option<RateLimitRule>, state: QuotaState, amount: u128) -> Option<
    QuotaState,
> {
    match rule {
        Some(r) if r.replenishes() => Some(consumed(state, amount)),
        _ => None,
    }
}

/// Replenishes `state` as `rule` says, given the clocks at `now`.
pub fn replenish(rule: &RateLimitRule, state: QuotaState, now: &Moment) -> (next: QuotaState)
    ensures
        next == replenished(*rule, state, *now),
{
    match rule {
        RateLimitRule::PerBlocks { blocks_count, quota } => {
            let interval: u64 = now.block_number.saturating_sub(state.0);
            if interval >= *blocks_count {
                (now.block_number, *quota)
            } else {
                state
            }
        },
        RateLimitRule::PerSeconds { secs_count, quota } => {
            let interval: u64 = now.unix_secs.saturating_sub(state.0);
            if interval >= *secs_count {
                (now.unix_secs, *quota)
            } else {
                state
            }
        },
        RateLimitRule::TokenBucket { blocks_count, quota_increment, max_quota } => {
            let interval: u64 = now.block_number.saturating_sub(state.0);
            if *blocks_count != 0 && interval >= *blocks_count {
                let inc_times: u128 = (interval / *blocks_count) as u128;
                let produced: u128 = match quota_increment.checked_mul(inc_times) {
                    Some(p) => p,
                    None => u128::MAX,
                };
                let total: u128 = produced.saturating_add(state.1);
                let remaining: u128 = if total <= *max_quota {
                    total
                } else {
                    *max_quota
                };
                (now.block_number, remaining)
            } else {
                state
            }
        },
        RateLimitRule::Unlimited => state,
        RateLimitRule::NotAllowed => state,
    }
}

/// Takes `amount` from the remaining quota of `state`, stopping at zero.
pub fn consume(state: QuotaState, amount: u128) -> (next: QuotaState)
    ensures
        next == consumed(state, amount),
{
    (state.0, state.1.saturating_sub(amount))
}

/// Decides whether `amount` may be consumed under `rule`, or under no rule,
/// at `now`. Returns the answer and, under a replenishing rule, the
/// replenished quota state, which is to be stored whatever the answer.
pub fn check(rule: Option<RateLimitRule>, state: QuotaState, now: &Moment, amount: u128) -> (outcome: (
    bool,
    Option<QuotaState>,
))
    ensures
        outcome.0 == allows(rule, state, *now, amount),
        outcome.1 == state_after_check(rule, state, *now),
{
    match rule {
        Some(RateLimitRule::Unlimited) => (true, None),
        Some(RateLimitRule::NotAllowed) => (false, None),
        Some(rate_limit_rule) => {
            let next = replenish(&rate_limit_rule, state, now);
            (amount <= next.1, Some(next))
        },
        None => (true, None),
    }
}

/// Settles the consumption of `amount` under `rule`, or under no rule.
/// Returns, under a replenishing rule, the quota state to store.
pub fn settle(rule: Option<RateLimitRule>, state: QuotaState, amount: u128) -> (next: Option<QuotaState>)
    ensures
        next == state_after_record(rule, state, amount),
{
    match rule {
        Some(rate_limit_rule) => {
            if rate_limit_rule.is_replenishing() {
                Some(consume(state, amount))
            } else {
                None
            }
        },
        None => None,
    }
}

/// Once a fixed window has passed, the quota is the full quota of the rule
/// again, and every amount up to it is allowed.
pub proof fn lemma_window_refills(blocks_count: u64, quota: u128, state: QuotaState, now: Moment, amount: u128)
    requires
        (RateLimitRule::PerBlocks { blocks_count, quota }).valid(),
        now.block_number - state.0 >= blocks_count,
        amount <= quota,
    ensures
        replenished(RateLimitRule::PerBlocks { blocks_count, quota }, state, now) == (now.block_number, quota),
        allows(Some(RateLimitRule::PerBlocks { blocks_count, quota }), state, now, amount),
{
}

/// A token bucket that is refilled after `times` full intervals holds what
/// it held and `times` increments, but no more than its maximum. Starting
/// empty, it holds the lesser of the maximum and `times` increments. A
/// bucket within its maximum stays within it.
pub proof fn lemma_bucket_refills(
    blocks_count: u64,
    quota_increment: u128,
    max_quota: u128,
    state: QuotaState,
    now: Moment,
    times: int,
)
    requires
        (RateLimitRule::TokenBucket { blocks_count, quota_increment, max_quota }).valid(),
        times == elapsed(now.block_number, state.0) / (blocks_count as int),
    ensures
        times >= 1 ==> replenished(
            RateLimitRule::TokenBucket { blocks_count, quota_increment, max_quota },
            state,
            now,
        ).1 == vstd::math::min(max_quota as int, state.1 + quota_increment * times),
        state.1 == 0 ==> replenished(
            RateLimitRule::TokenBucket { blocks_count, quota_increment, max_quota },
            state,
            now,
        ).1 == vstd::math::min(max_quota as int, quota_increment * times),
        state.1 <= max_quota ==> replenished(
            RateLimitRule::TokenBucket { blocks_count, quota_increment, max_quota },
            state,
            now,
        ).1 <= max_quota,
{
    let e = elapsed(now.block_number, state.0);
    let b = blocks_count as int;
    assert(e >= b <==> times >= 1) by (nonlinear_arith)
        requires
            times == e / b,
            b > 0,
            e >= 0,
    ;
    assert(quota_increment * times >= 0) by (nonlinear_arith)
        requires
            times == e / b,
            b > 0,
            e >= 0,
            quota_increment >= 0,
    ;
    if times == 0 {
        assert(quota_increment * times == 0) by (nonlinear_arith)
            requires
                times == 0,
        ;
    }
}

/// Consumption takes the amount from the quota that remains and stops at
/// zero: the quota never falls below it, and never grows.
pub proof fn lemma_consumed_floor(state: QuotaState, amount: u128)
    ensures
        consumed(state, amount).1 == vstd::math::max(0, state.1 - amount),
        0 <= consumed(state, amount).1 <= state.1,
        consumed(state, amount).0 == state.0,
{
}

/// Under `NotAllowed` no amount is allowed, not even zero; under
/// `Unlimited` every amount is.
pub proof fn lemma_constant_rules(state: QuotaState, now: Moment, amount: u128)
    ensures
        !allows(Some(RateLimitRule::NotAllowed), state, now, amount),
        allows(Some(RateLimitRule::Unlimited), state, now, amount),
{
}

} // verus!
