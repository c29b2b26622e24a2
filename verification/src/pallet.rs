//! The rate limiter: the rules, quota states and whitelists of all limiters,
//! and the operations on them.

use vstd::prelude::*;
use crate::error::Error;
use crate::error::RateLimiterError;
use crate::event::Event;
use crate::filter::KeyFilter;
use crate::filter::Pattern;
use crate::quota::allows;
use crate::quota::check;
use crate::quota::settle;
use crate::quota::state_after_check;
use crate::quota::state_after_record;
use crate::quota::replenish;
use crate::quota::replenished;
use crate::quota::zero_quota;
use crate::quota::Moment;
use crate::quota::QuotaState;
use crate::rule::RateLimitRule;
use crate::store::EntryKey;
use crate::store::RateLimiterId;
use crate::store::Store;
use crate::whitelist::bypasses;
use crate::whitelist::in_order;
use crate::whitelist::ordered;
use crate::whitelist::patterns;
use crate::whitelist::with_pattern;
use crate::whitelist::without_pattern;
use crate::whitelist::Whitelist;

verus! {

/// The state of the rate limiter.
pub struct Pallet {
    rules: Store<EntryKey, RateLimitRule>,
    quotas: Store<EntryKey, QuotaState>,
    whitelists: Store<RateLimiterId, Whitelist>,
    max_whitelist_filter_count: u32,
}

impl Pallet {
    /// The rule of each key that has one.
    pub closed spec fn rules(&self) -> Map<(RateLimiterId, Seq<u8>), RateLimitRule> {
        self.rules@
    }

    /// The quota state of each key that has one stored.
    pub closed spec fn quotas(&self) -> Map<(RateLimiterId, Seq<u8>), QuotaState> {
        self.quotas@
    }

    /// The whitelist of each limiter that has one stored.
    pub closed spec fn whitelists(&self) -> Map<RateLimiterId, Seq<Pattern>> {
        self.whitelists@.map_values(|w: Whitelist| w@)
    }

    /// The number of key filters that the whitelist of a limiter may hold.
    pub closed spec fn max_filters(&self) -> u32 {
        self.max_whitelist_filter_count
    }

    /// The rule of a key, if it has one.
    pub open spec fn rule_of(&self, limiter_id: RateLimiterId, key: Seq<u8>) -> Option<RateLimitRule> {
        if self.rules().contains_key((limiter_id, key)) {
            Some(self.rules()[(limiter_id, key)])
        } else {
            None
        }
    }

    /// The quota state of a key: the stored one, or zero.
    pub open spec fn quota_of(&self, limiter_id: RateLimiterId, key: Seq<u8>) -> QuotaState {
        if self.quotas().contains_key((limiter_id, key)) {
            self.quotas()[(limiter_id, key)]
        } else {
            zero_quota()
        }
    }

    /// The whitelist of a limiter: the stored one, or an empty one.
    pub open spec fn whitelist_of(&self, limiter_id: RateLimiterId) -> Seq<Pattern> {
        if self.whitelists().contains_key(limiter_id) {
            self.whitelists()[limiter_id]
        } else {
            Seq::empty()
        }
    }

    /// The two states hold the same rules, quota states and whitelists.
    pub open spec fn same_as(&self, other: &Pallet) -> bool {
        &&& self.rules() == other.rules()
        &&& self.quotas() == other.quotas()
        &&& self.whitelists() == other.whitelists()
        &&& self.max_filters() == other.max_filters()
    }

    /// The state is well-formed: every stored rule is valid, and every
    /// whitelist is in order and within the bound.
    pub closed spec fn wf(&self) -> bool {
        &&& self.rules.wf()
        &&& self.quotas.wf()
        &&& self.whitelists.wf()
        &&& forall|k: (RateLimiterId, Seq<u8>)| #[trigger]
            self.rules@.contains_key(k) ==> self.rules@[k].valid()
        &&& forall|id: RateLimiterId| #[trigger]
            self.whitelists@.contains_key(id) ==> self.whitelists@[id].wf() && self.whitelists@[id].bound()
                == self.max_whitelist_filter_count
    }

    /// In a well-formed state every stored rule is valid, and every whitelist
    /// is in order and holds no more key filters than it may.
    pub proof fn lemma_wf(&self)
        requires
            self.wf(),
        ensures
            forall|id: RateLimiterId, key: Seq<u8>| #[trigger]
                self.rules().contains_key((id, key)) ==> self.rules()[(id, key)].valid(),
            forall|id: RateLimiterId| ordered(#[trigger] self.whitelist_of(id)),
            forall|id: RateLimiterId| (#[trigger] self.whitelist_of(id)).len() <= self.max_filters(),
    {
        assert forall|id: RateLimiterId| ordered(#[trigger] self.whitelist_of(id)) && self.whitelist_of(
            id,
        ).len() <= self.max_filters() by {
            if self.whitelists().contains_key(id) {
                assert(self.whitelists@.contains_key(id));
                self.whitelists@[id].lemma_wf();
            }
        }
    }

    /// A rate limiter without rules, quota states or whitelists, in which the
    /// whitelist of a limiter may hold `max_whitelist_filter_count` filters.
    pub fn new(max_whitelist_filter_count: u32) -> (pallet: Pallet)
        ensures
            pallet.wf(),
            pallet.rules() == Map::<(RateLimiterId, Seq<u8>), RateLimitRule>::empty(),
            pallet.quotas() == Map::<(RateLimiterId, Seq<u8>), QuotaState>::empty(),
            pallet.whitelists() == Map::<RateLimiterId, Seq<Pattern>>::empty(),
            pallet.max_filters() == max_whitelist_filter_count,
    {
        let pallet = Pallet {
            rules: Store::new(),
            quotas: Store::new(),
            whitelists: Store::new(),
            max_whitelist_filter_count,
        };
        assert(pallet.whitelists() =~= Map::<RateLimiterId, Seq<Pattern>>::empty());
        pallet
    }

    /// The number of key filters that the whitelist of a limiter may hold.
    pub fn max_whitelist_filter_count(&self) -> (max: u32)
        ensures
            max == self.max_filters(),
    {
        self.max_whitelist_filter_count
    }

    /// The rule of `encoded_key` under `limiter_id`, if it has one.
    pub fn rate_limit_rules(&self, limiter_id: RateLimiterId, encoded_key: &[u8]) -> (rule: Option<
        RateLimitRule,
    >)
        requires
            self.wf(),
        ensures
            rule == self.rule_of(limiter_id, encoded_key@),
    {
        let key = EntryKey::new(limiter_id, encoded_key);
        match self.rules.get(&key) {
            Some(rule) => Some(*rule),
            None => None,
        }
    }

    /// The quota state of `encoded_key` under `limiter_id`: zero if none is
    /// stored.
    pub fn rate_limit_quota(&self, limiter_id: RateLimiterId, encoded_key: &[u8]) -> (state: QuotaState)
        requires
            self.wf(),
        ensures
            state == self.quota_of(limiter_id, encoded_key@),
    {
        let key = EntryKey::new(limiter_id, encoded_key);
        match self.quotas.get(&key) {
            Some(state) => *state,
            None => (0, 0),
        }
    }

    /// The key filters on the whitelist of `limiter_id`, in order.
    pub fn bypass_limit_whitelist(&self, limiter_id: RateLimiterId) -> (filters: Vec<KeyFilter>)
        requires
            self.wf(),
        ensures
            patterns(filters@) == self.whitelist_of(limiter_id),
    {
        let mut filters: Vec<KeyFilter> = Vec::new();
        match self.whitelists.get(&limiter_id) {
            Some(list) => {
                let held = list.filters();
                let mut i: usize = 0;
                while i < held.len()
                    invariant
                        i <= held@.len(),
                        patterns(filters@) == patterns(held@).take(i as int),
                    decreases held@.len() - i,
                {
                    let ghost copied = filters@;
                    filters.push(held[i].duplicate());
                    assert(patterns(filters@) =~= patterns(held@).take(i + 1)) by {
                        assert(patterns(filters@) =~= patterns(copied).push(held@[i as int]@));
                        assert(patterns(held@).take(i + 1) =~= patterns(held@).take(i as int).push(
                            held@[i as int]@,
                        ));
                    }
                    i += 1;
                }
                assert(patterns(held@).take(held@.len() as int) =~= patterns(held@));
            },
            None => {
                assert(patterns(filters@) =~= Seq::<Pattern>::empty());
            },
        }
        filters
    }

    /// Sets the rule of `encoded_key` under `rate_limiter_id` to `update`, or
    /// removes the rule where `update` is `None`, and forgets the quota state
    /// of the key. A replenishing rule with a zero parameter is refused, and
    /// nothing changes.
    pub fn update_rate_limit_rule(
        &mut self,
        rate_limiter_id: RateLimiterId,
        encoded_key: Vec<u8>,
        update: Option<RateLimitRule>,
    ) -> (done: Result<Event, Error>)
        requires
            old(self).wf(),
        ensures
            final(self).wf(),
            final(self).whitelists() == old(self).whitelists(),
            final(self).max_filters() == old(self).max_filters(),
            match update {
                Some(rule) if !rule.valid() => {
                    &&& done == Err::<Event, Error>(Error::InvalidRateLimitRule)
                    &&& final(self).same_as(old(self))
                },
                Some(rule) => {
                    &&& done is Ok
                    &&& done->Ok_0.is_rule_update(rate_limiter_id, encoded_key@, update)
                    &&& final(self).rules() == old(self).rules().insert((rate_limiter_id, encoded_key@), rule)
                    &&& final(self).quotas() == old(self).quotas().remove((rate_limiter_id, encoded_key@))
                },
                None => {
                    &&& done is Ok
                    &&& done->Ok_0.is_rule_update(rate_limiter_id, encoded_key@, update)
                    &&& final(self).rules() == old(self).rules().remove((rate_limiter_id, encoded_key@))
                    &&& final(self).quotas() == old(self).quotas().remove((rate_limiter_id, encoded_key@))
                },
            },
            done is Ok ==> final(self).quota_of(rate_limiter_id, encoded_key@) == zero_quota(),
    {
        let key = EntryKey::new(rate_limiter_id, encoded_key.as_slice());
        match update {
            Some(rule) => {
                if !rule.is_valid() {
                    return Err(Error::InvalidRateLimitRule);
                }
                self.quotas.remove(&key);
                self.rules.insert(key, rule);
            },
            None => {
                self.quotas.remove(&key);
                self.rules.remove(&key);
            },
        }
        Ok(Event::RateLimitRuleUpdated { rate_limiter_id, encoded_key, update })
    }

    /// Adds `key_filter` to the whitelist of `rate_limiter_id`, at its place
    /// in the order. A filter that is on the whitelist already is refused,
    /// and so is any filter once the whitelist is full; nothing changes then.
    pub fn add_whitelist(&mut self, rate_limiter_id: RateLimiterId, key_filter: KeyFilter) -> (done: Result<
        Event,
        Error,
    >)
        requires
            old(self).wf(),
        ensures
            final(self).wf(),
            final(self).rules() == old(self).rules(),
            final(self).quotas() == old(self).quotas(),
            final(self).max_filters() == old(self).max_filters(),
            if old(self).whitelist_of(rate_limiter_id).contains(key_filter@) {
                &&& done == Err::<Event, Error>(Error::FilterExisted)
                &&& final(self).whitelists() == old(self).whitelists()
            } else if old(self).whitelist_of(rate_limiter_id).len() >= old(self).max_filters() {
                &&& done == Err::<Event, Error>(Error::MaxFilterExceeded)
                &&& final(self).whitelists() == old(self).whitelists()
            } else {
                &&& done == Ok::<Event, Error>(Event::WhitelistFilterAdded { rate_limiter_id })
                &&& final(self).whitelists() == old(self).whitelists().insert(
                    rate_limiter_id,
                    with_pattern(old(self).whitelist_of(rate_limiter_id), key_filter@),
                )
            },
    {
        let mut list = match self.whitelists.get(&rate_limiter_id) {
            Some(held) => {
                if held.contains(&key_filter) {
                    return Err(Error::FilterExisted);
                }
                if held.len() >= self.max_whitelist_filter_count as usize {
                    return Err(Error::MaxFilterExceeded);
                }
                self.whitelists.remove(&rate_limiter_id).unwrap()
            },
            None => {
                if self.max_whitelist_filter_count == 0 {
                    return Err(Error::MaxFilterExceeded);
                }
                Whitelist::new(self.max_whitelist_filter_count)
            },
        };
        let added = list.add(key_filter);
        assert(added is Ok);
        self.whitelists.insert(rate_limiter_id, list);
        assert(self.whitelists() =~= old(self).whitelists().insert(
            rate_limiter_id,
            with_pattern(old(self).whitelist_of(rate_limiter_id), key_filter@),
        ));
        Ok(Event::WhitelistFilterAdded { rate_limiter_id })
    }

    /// Removes `key_filter` from the whitelist of `rate_limiter_id`. A filter
    /// that is not on the whitelist is refused, and nothing changes.
    pub fn remove_whitelist(&mut self, rate_limiter_id: RateLimiterId, key_filter: KeyFilter) -> (done:
        Result<Event, Error>)
        requires
            old(self).wf(),
        ensures
            final(self).wf(),
            final(self).rules() == old(self).rules(),
            final(self).quotas() == old(self).quotas(),
            final(self).max_filters() == old(self).max_filters(),
            if old(self).whitelist_of(rate_limiter_id).contains(key_filter@) {
                &&& done == Ok::<Event, Error>(Event::WhitelistFilterRemoved { rate_limiter_id })
                &&& final(self).whitelists() == old(self).whitelists().insert(
                    rate_limiter_id,
                    without_pattern(old(self).whitelist_of(rate_limiter_id), key_filter@),
                )
            } else {
                &&& done == Err::<Event, Error>(Error::FilterNotExisted)
                &&& final(self).whitelists() == old(self).whitelists()
            },
    {
        let mut list = match self.whitelists.get(&rate_limiter_id) {
            Some(held) => {
                if !held.contains(&key_filter) {
                    return Err(Error::FilterNotExisted);
                }
                self.whitelists.remove(&rate_limiter_id).unwrap()
            },
            None => {
                return Err(Error::FilterNotExisted);
            },
        };
        let removed = list.remove(&key_filter);
        assert(removed is Ok);
        self.whitelists.insert(rate_limiter_id, list);
        assert(self.whitelists() =~= old(self).whitelists().insert(
            rate_limiter_id,
            without_pattern(old(self).whitelist_of(rate_limiter_id), key_filter@),
        ));
        Ok(Event::WhitelistFilterRemoved { rate_limiter_id })
    }

    /// Replaces the whitelist of `rate_limiter_id` by the key filters of
    /// `new_list`, put in order. A list of more filters than a whitelist may
    /// hold is refused, and nothing changes.
    pub fn reset_whitelist(&mut self, rate_limiter_id: RateLimiterId, new_list: Vec<KeyFilter>) -> (done:
        Result<Event, Error>)
        requires
            old(self).wf(),
        ensures
            final(self).wf(),
            final(self).rules() == old(self).rules(),
            final(self).quotas() == old(self).quotas(),
            final(self).max_filters() == old(self).max_filters(),
            if new_list@.len() > old(self).max_filters() {
                &&& done == Err::<Event, Error>(Error::MaxFilterExceeded)
                &&& final(self).whitelists() == old(self).whitelists()
            } else {
                &&& done == Ok::<Event, Error>(Event::WhitelistFilterReset { rate_limiter_id })
                &&& final(self).whitelists() == old(self).whitelists().insert(
                    rate_limiter_id,
                    in_order(patterns(new_list@)),
                )
            },
    {
        let ghost wanted = in_order(patterns(new_list@));
        match Whitelist::from_list(new_list, self.max_whitelist_filter_count) {
            Ok(list) => {
                self.whitelists.insert(rate_limiter_id, list);
                assert(self.whitelists() =~= old(self).whitelists().insert(rate_limiter_id, wanted));
                Ok(Event::WhitelistFilterReset { rate_limiter_id })
            },
            Err(_) => Err(Error::MaxFilterExceeded),
        }
    }

    /// Replenishes the quota state of `encoded_key` under `limiter_id` as
    /// `rate_limit_rule` says, stores it, and returns the quota that remains.
    /// A rule that does not replenish leaves the quota state as it is.
    pub fn access_remainer_quota_after_update(
        &mut self,
        rate_limit_rule: RateLimitRule,
        limiter_id: &RateLimiterId,
        encoded_key: &Vec<u8>,
        now: &Moment,
    ) -> (remainer_quota: u128)
        requires
            old(self).wf(),
        ensures
            final(self).wf(),
            final(self).rules() == old(self).rules(),
            final(self).whitelists() == old(self).whitelists(),
            final(self).max_filters() == old(self).max_filters(),
            final(self).quotas() == if rate_limit_rule.replenishes() {
                old(self).quotas().insert(
                    (*limiter_id, encoded_key@),
                    replenished(rate_limit_rule, old(self).quota_of(*limiter_id, encoded_key@), *now),
                )
            } else {
                old(self).quotas()
            },
            remainer_quota == replenished(
                rate_limit_rule,
                old(self).quota_of(*limiter_id, encoded_key@),
                *now,
            ).1,
    {
        let key = EntryKey::new(*limiter_id, encoded_key.as_slice());
        let state: QuotaState = match self.quotas.get(&key) {
            Some(state) => *state,
            None => (0, 0),
        };
        if rate_limit_rule.is_replenishing() {
            let next = replenish(&rate_limit_rule, state, now);
            self.quotas.insert(key, next);
            next.1
        } else {
            state.1
        }
    }

    /// Whether the encoded key is on the whitelist of `limiter_id`, and so
    /// bypasses its limits.
    pub fn bypass_limit(&self, limiter_id: RateLimiterId, key: &[u8]) -> (bypassed: bool)
        requires
            self.wf(),
        ensures
            bypassed == bypasses(self.whitelist_of(limiter_id), key@),
    {
        match self.whitelists.get(&limiter_id) {
            Some(list) => list.is_bypassed(key),
            None => false,
        }
    }

    /// Whether `value` may be consumed for the encoded key under
    /// `limiter_id`. Under a replenishing rule the quota state of the key is
    /// replenished and stored first, whatever the answer; nothing is consumed.
    pub fn is_allowed(&mut self, limiter_id: RateLimiterId, key: &[u8], value: u128, now: &Moment) -> (allowed:
        Result<(), RateLimiterError>)
        requires
            old(self).wf(),
        ensures
            final(self).wf(),
            final(self).rules() == old(self).rules(),
            final(self).whitelists() == old(self).whitelists(),
            final(self).max_filters() == old(self).max_filters(),
            allowed is Ok <==> allows(
                old(self).rule_of(limiter_id, key@),
                old(self).quota_of(limiter_id, key@),
                *now,
                value,
            ),
            allowed is Err ==> allowed == Err::<(), RateLimiterError>(RateLimiterError::ExceedLimit),
            final(self).quotas() == match state_after_check(
                old(self).rule_of(limiter_id, key@),
                old(self).quota_of(limiter_id, key@),
                *now,
            ) {
                Some(state) => old(self).quotas().insert((limiter_id, key@), state),
                None => old(self).quotas(),
            },
    {
        let encoded_key = EntryKey::new(limiter_id, key);
        let rule: Option<RateLimitRule> = match self.rules.get(&encoded_key) {
            Some(rule) => Some(*rule),
            None => None,
        };
        let state: QuotaState = match self.quotas.get(&encoded_key) {
            Some(state) => *state,
            None => (0, 0),
        };
        let (allowed, next) = check(rule, state, now, value);
        match next {
            Some(next) => {
                self.quotas.insert(encoded_key, next);
            },
            None => {},
        }
        if allowed {
            Ok(())
        } else {
            Err(RateLimiterError::ExceedLimit)
        }
    }

    /// Consumes `value` from the quota that remains for the encoded key under
    /// `limiter_id`, stopping at zero. Without a replenishing rule nothing
    /// changes.
    pub fn record(&mut self, limiter_id: RateLimiterId, key: &[u8], value: u128)
        requires
            old(self).wf(),
        ensures
            final(self).wf(),
            final(self).rules() == old(self).rules(),
            final(self).whitelists() == old(self).whitelists(),
            final(self).max_filters() == old(self).max_filters(),
            final(self).quotas() == match state_after_record(
                old(self).rule_of(limiter_id, key@),
                old(self).quota_of(limiter_id, key@),
                value,
            ) {
                Some(state) => old(self).quotas().insert((limiter_id, key@), state),
                None => old(self).quotas(),
            },
    {
        let encoded_key = EntryKey::new(limiter_id, key);
        let rule: Option<RateLimitRule> = match self.rules.get(&encoded_key) {
            Some(rule) => Some(*rule),
            None => None,
        };
        let state: QuotaState = match self.quotas.get(&encoded_key) {
            Some(state) => *state,
            None => (0, 0),
        };
        match settle(rule, state, value) {
            Some(next) => {
                self.quotas.insert(encoded_key, next);
            },
            None => {},
        }
    }
}

} // verus!
