//! The whitelist of one limiter: a bounded list of key filters, kept in
//! their order.

use vstd::prelude::*;
use crate::error::Error;
use crate::filter::lemma_before_total;
use crate::filter::lemma_before_transitive;
use crate::filter::KeyFilter;
use crate::filter::Pattern;
use crate::filter::Relation;

verus! {

/// The patterns of a list of key filters.
pub open spec fn patterns(filters: Seq<KeyFilter>) -> Seq<Pattern> {
    filters.map_values(|f: KeyFilter| f@)
}

/// No pattern of the list comes before an earlier one.
pub open spec fn ordered(s: Seq<Pattern>) -> bool {
    forall|i: int, j: int| 0 <= i < j < s.len() ==> !(#[trigger] s[j]).before(#[trigger] s[i])
}

/// The number of patterns of `s` that come before `p`: in an ordered list,
/// the place where `p` stands or would stand.
pub open spec fn rank(s: Seq<Pattern>, p: Pattern) -> nat
    decreases s.len(),
{
    if s.len() == 0 {
        0
    } else {
        rank(s.drop_last(), p) + if s.last().before(p) {
            1nat
        } else {
            0nat
        }
    }
}

/// The ordered list `s` with `p` put in its place.
pub open spec fn with_pattern(s: Seq<Pattern>, p: Pattern) -> Seq<Pattern> {
    s.insert(rank(s, p) as int, p)
}

/// The ordered list `s`, which holds `p`, with one `p` taken out.
pub open spec fn without_pattern(s: Seq<Pattern>, p: Pattern) -> Seq<Pattern> {
    s.remove(rank(s, p) as int)
}

/// The patterns of `s` in order.
pub open spec fn in_order(s: Seq<Pattern>) -> Seq<Pattern>
    decreases s.len(),
{
    if s.len() == 0 {
        s
    } else {
        with_pattern(in_order(s.drop_last()), s.last())
    }
}

/// Whether some pattern of `s` lets the encoded key through.
pub open spec fn bypasses(s: Seq<Pattern>, key: Seq<u8>) -> bool {
    exists|i: int| 0 <= i < s.len() && (#[trigger] s[i]).matches(key)
}

/// `at` splits `s` into the patterns that come before `p` and the rest.
pub open spec fn splits_at(s: Seq<Pattern>, p: Pattern, at: int) -> bool {
    &&& 0 <= at <= s.len()
    &&& forall|j: int| 0 <= j < at ==> (#[trigger] s[j]).before(p)
    &&& forall|j: int| at <= j < s.len() ==> !(#[trigger] s[j]).before(p)
}

/// Where a list is split around `p`, there is the rank of `p`.
pub proof fn lemma_rank_at_split(s: Seq<Pattern>, p: Pattern, at: int)
    requires
        splits_at(s, p, at),
    ensures
        rank(s, p) == at,
    decreases s.len(),
{
    if s.len() > 0 {
        let t = s.drop_last();
        if at == s.len() {
            assert(s.last() == s[s.len() - 1]);
            assert forall|j: int| 0 <= j < at - 1 implies (#[trigger] t[j]).before(p) by {
                assert(t[j] == s[j]);
            }
            lemma_rank_at_split(t, p, at - 1);
        } else {
            assert(s.last() == s[s.len() - 1]);
            assert forall|j: int| 0 <= j < at implies (#[trigger] t[j]).before(p) by {
                assert(t[j] == s[j]);
            }
            assert forall|j: int| at <= j < t.len() implies !(#[trigger] t[j]).before(p) by {
                assert(t[j] == s[j]);
            }
            lemma_rank_at_split(t, p, at);
        }
    }
}

/// An ordered list is split around `p` at the rank of `p`.
pub proof fn lemma_split_at_rank(s: Seq<Pattern>, p: Pattern)
    requires
        ordered(s),
    ensures
        splits_at(s, p, rank(s, p) as int),
    decreases s.len(),
{
    if s.len() > 0 {
        let t = s.drop_last();
        assert forall|i: int, j: int| 0 <= i < j < t.len() implies !(#[trigger] t[j]).before(
            #[trigger] t[i],
        ) by {
            assert(t[i] == s[i] && t[j] == s[j]);
        }
        lemma_split_at_rank(t, p);
        let r = rank(t, p) as int;
        if s.last().before(p) {
            assert forall|j: int| 0 <= j < s.len() implies (#[trigger] s[j]).before(p) by {
                if j < s.len() - 1 {
                    assert(!s[s.len() - 1].before(s[j]));
                    lemma_before_total(s[j], s.last());
                    if s[j] != s.last() {
                        lemma_before_transitive(s[j], s.last(), p);
                    }
                }
            }
            lemma_rank_at_split(s, p, s.len() as int);
        } else {
            assert forall|j: int| 0 <= j < r implies (#[trigger] s[j]).before(p) by {
                assert(t[j] == s[j]);
            }
            assert forall|j: int| r <= j < s.len() implies !(#[trigger] s[j]).before(p) by {
                if j < s.len() - 1 {
                    assert(t[j] == s[j]);
                }
            }
        }
    }
}

/// In an ordered list, `p` is held exactly if it stands at its rank.
pub proof fn lemma_held_at_rank(s: Seq<Pattern>, p: Pattern)
    requires
        ordered(s),
    ensures
        s.contains(p) <==> (rank(s, p) < s.len() && s[rank(s, p) as int] == p),
{
    lemma_split_at_rank(s, p);
    let r = rank(s, p) as int;
    if s.contains(p) {
        let k = choose|k: int| 0 <= k < s.len() && s[k] == p;
        lemma_before_total(p, p);
        assert(!s[k].before(p));
        assert(r <= k);
        if s[r] != p {
            lemma_before_total(s[r], p);
            assert(p.before(s[r]));
            assert(r < k);
            assert(!s[k].before(s[r]));
        }
    }
}

/// Putting a pattern in its place keeps the list ordered, and the pattern
/// then stands at its rank.
pub proof fn lemma_with_pattern_ordered(s: Seq<Pattern>, p: Pattern)
    requires
        ordered(s),
    ensures
        ordered(with_pattern(s, p)),
        rank(with_pattern(s, p), p) == rank(s, p),
        with_pattern(s, p).contains(p),
{
    lemma_split_at_rank(s, p);
    let r = rank(s, p) as int;
    let t = with_pattern(s, p);
    lemma_before_total(p, p);
    assert forall|i: int, j: int| 0 <= i < j < t.len() implies !(#[trigger] t[j]).before(
        #[trigger] t[i],
    ) by {
        if j < r {
            assert(t[i] == s[i] && t[j] == s[j]);
        } else if j == r {
            assert(t[i] == s[i]);
            lemma_before_total(s[i], p);
        } else if i < r {
            assert(t[i] == s[i] && t[j] == s[j - 1]);
        } else if i == r {
            assert(t[j] == s[j - 1]);
        } else {
            assert(t[i] == s[i - 1] && t[j] == s[j - 1]);
        }
    }
    assert forall|j: int| 0 <= j < r implies (#[trigger] t[j]).before(p) by {
        assert(t[j] == s[j]);
    }
    assert forall|j: int| r <= j < t.len() implies !(#[trigger] t[j]).before(p) by {
        if j > r {
            assert(t[j] == s[j - 1]);
        }
    }
    lemma_rank_at_split(t, p, r);
    assert(t[r] == p);
}

/// Taking a pattern out keeps the list ordered.
pub proof fn lemma_without_pattern_ordered(s: Seq<Pattern>, p: Pattern)
    requires
        ordered(s),
        s.contains(p),
    ensures
        ordered(without_pattern(s, p)),
{
    lemma_held_at_rank(s, p);
    let r = rank(s, p) as int;
    let t = without_pattern(s, p);
    assert forall|i: int, j: int| 0 <= i < j < t.len() implies !(#[trigger] t[j]).before(
        #[trigger] t[i],
    ) by {
        let si = if i < r { i } else { i + 1 };
        let sj = if j < r { j } else { j + 1 };
        assert(t[i] == s[si] && t[j] == s[sj]);
    }
}

/// Taking out a pattern that was just put in its place gives the list as it
/// was.
pub proof fn lemma_add_then_remove(s: Seq<Pattern>, p: Pattern)
    requires
        ordered(s),
        !s.contains(p),
    ensures
        without_pattern(with_pattern(s, p), p) == s,
{
    lemma_with_pattern_ordered(s, p);
    lemma_split_at_rank(s, p);
    assert(s.insert(rank(s, p) as int, p).remove(rank(s, p) as int) =~= s);
}

/// Putting the patterns of a list in order gives an ordered list of the
/// same patterns, each as often as before.
pub proof fn lemma_in_order(s: Seq<Pattern>)
    ensures
        ordered(in_order(s)),
        in_order(s).to_multiset() == s.to_multiset(),
        in_order(s).len() == s.len(),
    decreases s.len(),
{
    broadcast use vstd::seq_lib::group_to_multiset_ensures;

    if s.len() > 0 {
        let rest = s.drop_last();
        lemma_in_order(rest);
        let t = in_order(rest);
        lemma_with_pattern_ordered(t, s.last());
        let r = rank(t, s.last()) as int;
        lemma_split_at_rank(t, s.last());
        assert(s =~= rest.push(s.last()));
        assert(t.insert(r, s.last()).to_multiset() =~= t.to_multiset().insert(s.last()));
        assert(rest.push(s.last()).to_multiset() =~= rest.to_multiset().insert(s.last()));
    }
}

/// Putting in a pattern that a list without repetition does not hold leaves
/// it without repetition.
pub proof fn lemma_add_keeps_distinct(s: Seq<Pattern>, p: Pattern)
    requires
        ordered(s),
        s.no_duplicates(),
        !s.contains(p),
    ensures
        with_pattern(s, p).no_duplicates(),
{
    lemma_split_at_rank(s, p);
    let r = rank(s, p) as int;
    let t = with_pattern(s, p);
    assert forall|i: int, j: int| 0 <= i < t.len() && 0 <= j < t.len() && i != j implies t[i] != t[j] by {
        let si = if i < r { i } else { i - 1 };
        let sj = if j < r { j } else { j - 1 };
        if i == r {
            assert(t[j] == s[sj]);
            assert(s.contains(s[sj]));
        } else if j == r {
            assert(t[i] == s[si]);
            assert(s.contains(s[si]));
        } else {
            assert(t[i] == s[si] && t[j] == s[sj]);
        }
    }
}

/// Taking a pattern out of an ordered list without repetition leaves a list
/// without repetition that does not hold the pattern.
pub proof fn lemma_remove_keeps_distinct(s: Seq<Pattern>, p: Pattern)
    requires
        ordered(s),
        s.no_duplicates(),
        s.contains(p),
    ensures
        without_pattern(s, p).no_duplicates(),
        !without_pattern(s, p).contains(p),
{
    lemma_held_at_rank(s, p);
    let r = rank(s, p) as int;
    let t = without_pattern(s, p);
    assert forall|i: int, j: int| 0 <= i < t.len() && 0 <= j < t.len() && i != j implies t[i] != t[j] by {
        let si = if i < r { i } else { i + 1 };
        let sj = if j < r { j } else { j + 1 };
        assert(t[i] == s[si] && t[j] == s[sj]);
    }
    if t.contains(p) {
        let k = choose|k: int| 0 <= k < t.len() && t[k] == p;
        let sk = if k < r { k } else { k + 1 };
        assert(t[k] == s[sk]);
        assert(s[sk] == s[r]);
    }
}

/// Putting a list without repetition in order gives a list without
/// repetition.
pub proof fn lemma_in_order_distinct(s: Seq<Pattern>)
    requires
        s.no_duplicates(),
    ensures
        in_order(s).no_duplicates(),
{
    lemma_in_order(s);
    s.lemma_multiset_has_no_duplicates();
    in_order(s).lemma_multiset_has_no_duplicates_conv();
}

/// Whether some key filter of the list lets the encoded key through.
pub fn is_bypassed(filters: &[KeyFilter], encoded_key: &[u8]) -> (bypassed: bool)
    ensures
        bypassed == bypasses(patterns(filters@), encoded_key@),
{
    let mut i: usize = 0;
    while i < filters.len()
        invariant
            i <= filters@.len(),
            forall|j: int| 0 <= j < i ==> !(#[trigger] patterns(filters@)[j]).matches(encoded_key@),
        decreases filters@.len() - i,
    {
        assert(filters@[i as int]@ == patterns(filters@)[i as int]);
        if filters[i].matches(encoded_key) {
            return true;
        }
        i += 1;
    }
    false
}

/// The key filters that let the keys of one limiter bypass its limits.
pub struct Whitelist {
    filters: Vec<KeyFilter>,
    capacity: u32,
}

impl View for Whitelist {
    type V = Seq<Pattern>;

    closed spec fn view(&self) -> Seq<Pattern> {
        patterns(self.filters@)
    }
}

impl Whitelist {
    /// The number of key filters that the whitelist may hold.
    pub closed spec fn bound(&self) -> u32 {
        self.capacity
    }

    /// The whitelist is in order and within its bound.
    pub closed spec fn wf(&self) -> bool {
        &&& ordered(self@)
        &&& self.filters@.len() <= self.capacity
    }

    /// A well-formed whitelist is in order and within its bound.
    pub proof fn lemma_wf(&self)
        requires
            self.wf(),
        ensures
            ordered(self@),
            self@.len() <= self.bound(),
    {
    }

    /// An empty whitelist that may hold `capacity` key filters.
    pub fn new(capacity: u32) -> (list: Whitelist)
        ensures
            list.wf(),
            list@ == Seq::<Pattern>::empty(),
            list.bound() == capacity,
    {
        let list = Whitelist { filters: Vec::new(), capacity };
        assert(list@ =~= Seq::<Pattern>::empty());
        list
    }

    /// The number of key filters that the whitelist may hold.
    pub fn capacity(&self) -> (capacity: u32)
        ensures
            capacity == self.bound(),
    {
        self.capacity
    }

    /// The number of key filters on the whitelist.
    pub fn len(&self) -> (n: usize)
        ensures
            n == self@.len(),
    {
        self.filters.len()
    }

    /// The key filters on the whitelist, in order.
    pub fn filters(&self) -> (filters: &Vec<KeyFilter>)
        ensures
            patterns(filters@) == self@,
    {
        &self.filters
    }

    /// The place of the first key filter that does not come before `filter`.
    fn search(&self, filter: &KeyFilter) -> (at: usize)
        requires
            self.wf(),
        ensures
            at == rank(self@, filter@),
            at <= self@.len(),
            at < self@.len() ==> self.filters@[at as int]@ == self@[at as int],
    {
        let mut low: usize = 0;
        let mut high: usize = self.filters.len();
        while low < high
            invariant
                low <= high <= self.filters@.len(),
                self.wf(),
                forall|j: int| 0 <= j < low ==> (#[trigger] self@[j]).before(filter@),
                forall|j: int| high <= j < self@.len() ==> !(#[trigger] self@[j]).before(filter@),
            decreases high - low,
        {
            let mid: usize = low + (high - low) / 2;
            let r = self.filters[mid].relate(filter);
            assert(self.filters@[mid as int]@ == self@[mid as int]);
            if r == Relation::Before {
                assert forall|j: int| 0 <= j < mid + 1 implies (#[trigger] self@[j]).before(
                    filter@,
                ) by {
                    if j < mid {
                        assert(!self@[mid as int].before(self@[j]));
                        lemma_before_total(self@[j], self@[mid as int]);
                        if self@[j] != self@[mid as int] {
                            lemma_before_transitive(self@[j], self@[mid as int], filter@);
                        }
                    }
                }
                low = mid + 1;
            } else {
                assert forall|j: int| mid <= j < self@.len() implies !(#[trigger] self@[j]).before(
                    filter@,
                ) by {
                    if j > mid && self@[j].before(filter@) {
                        assert(!self@[j].before(self@[mid as int]));
                        lemma_before_total(self@[mid as int], self@[j]);
                        if self@[j] != self@[mid as int] {
                            lemma_before_transitive(self@[mid as int], self@[j], filter@);
                        }
                    }
                }
                high = mid;
            }
        }
        proof {
            lemma_rank_at_split(self@, filter@, low as int);
        }
        low
    }

    /// Whether `filter` is on the whitelist.
    pub fn contains(&self, filter: &KeyFilter) -> (held: bool)
        requires
            self.wf(),
        ensures
            held == self@.contains(filter@),
    {
        let at: usize = self.search(filter);
        proof {
            lemma_held_at_rank(self@, filter@);
        }
        at < self.filters.len() && self.filters[at].relate(filter) == Relation::Same
    }

    /// Puts `filter` in its place on the whitelist. A filter that is on it
    /// already is refused, and so is any filter once the whitelist is full.
    pub fn add(&mut self, filter: KeyFilter) -> (done: Result<(), Error>)
        requires
            old(self).wf(),
        ensures
            final(self).wf(),
            final(self).bound() == old(self).bound(),
            old(self)@.contains(filter@) ==> done == Err::<(), Error>(Error::FilterExisted),
            !old(self)@.contains(filter@) && old(self)@.len() >= old(self).bound() ==> done == Err::<
                (),
                Error,
            >(Error::MaxFilterExceeded),
            !old(self)@.contains(filter@) && old(self)@.len() < old(self).bound() ==> done is Ok,
            done is Ok ==> final(self)@ == with_pattern(old(self)@, filter@),
            done is Err ==> final(self)@ == old(self)@,
    {
        let at: usize = self.search(&filter);
        proof {
            lemma_held_at_rank(self@, filter@);
        }
        if at < self.filters.len() && self.filters[at].relate(&filter) == Relation::Same {
            return Err(Error::FilterExisted);
        }
        if self.filters.len() >= self.capacity as usize {
            return Err(Error::MaxFilterExceeded);
        }
        proof {
            lemma_with_pattern_ordered(self@, filter@);
            assert(patterns(self.filters@.insert(at as int, filter)) =~= patterns(self.filters@).insert(
                at as int,
                filter@,
            ));
        }
        self.filters.insert(at, filter);
        Ok(())
    }

    /// Takes `filter` from the whitelist, if it is on it.
    pub fn remove(&mut self, filter: &KeyFilter) -> (done: Result<(), Error>)
        requires
            old(self).wf(),
        ensures
            final(self).wf(),
            final(self).bound() == old(self).bound(),
            old(self)@.contains(filter@) ==> done is Ok && final(self)@ == without_pattern(
                old(self)@,
                filter@,
            ),
            !old(self)@.contains(filter@) ==> done == Err::<(), Error>(Error::FilterNotExisted)
                && final(self)@ == old(self)@,
    {
        let at: usize = self.search(filter);
        proof {
            lemma_held_at_rank(self@, filter@);
        }
        if at < self.filters.len() && self.filters[at].relate(filter) == Relation::Same {
            proof {
                lemma_without_pattern_ordered(self@, filter@);
                assert(patterns(self.filters@.remove(at as int)) =~= patterns(self.filters@).remove(
                    at as int,
                ));
            }
            self.filters.remove(at);
            Ok(())
        } else {
            Err(Error::FilterNotExisted)
        }
    }

    /// The whitelist of the key filters of `new_list`, put in order. A list
    /// of more than `capacity` key filters is refused.
    pub fn from_list(new_list: Vec<KeyFilter>, capacity: u32) -> (made: Result<Whitelist, Error>)
        ensures
            new_list@.len() > capacity ==> made == Err::<Whitelist, Error>(Error::MaxFilterExceeded),
            new_list@.len() <= capacity ==> made is Ok,
            made is Ok ==> {
                &&& made->Ok_0.wf()
                &&& made->Ok_0.bound() == capacity
                &&& made->Ok_0@ == in_order(patterns(new_list@))
            },
    {
        if new_list.len() > capacity as usize {
            return Err(Error::MaxFilterExceeded);
        }
        let ghost all = patterns(new_list@);
        let ghost n = all.len() as int;
        let mut rest = new_list;
        let mut turned: Vec<KeyFilter> = Vec::new();
        while rest.len() > 0
            invariant
                rest@.len() + turned@.len() == n,
                forall|j: int| 0 <= j < rest@.len() ==> (#[trigger] rest@[j])@ == all[j],
                forall|j: int| 0 <= j < turned@.len() ==> (#[trigger] turned@[j])@ == all[n - 1 - j],
            decreases rest.len(),
        {
            let filter = rest.pop().unwrap();
            turned.push(filter);
        }
        let mut list = Whitelist { filters: Vec::new(), capacity };
        assert(list@ =~= in_order(all.take(0)));
        while turned.len() > 0
            invariant
                n <= capacity,
                n == all.len(),
                list.capacity == capacity,
                turned@.len() <= n,
                forall|j: int| 0 <= j < turned@.len() ==> (#[trigger] turned@[j])@ == all[n - 1 - j],
                list@ == in_order(all.take(n - turned@.len())),
            decreases turned.len(),
        {
            let ghost done = n - turned@.len();
            let filter = turned.pop().unwrap();
            proof {
                lemma_in_order(all.take(done));
            }
            let at: usize = list.search(&filter);
            proof {
                assert(filter@ == all[done]);
                assert(all.take(done + 1).drop_last() =~= all.take(done));
                assert(all.take(done + 1).last() == all[done]);
                lemma_with_pattern_ordered(list@, filter@);
                assert(patterns(list.filters@.insert(at as int, filter)) =~= patterns(
                    list.filters@,
                ).insert(at as int, filter@));
            }
            list.filters.insert(at, filter);
        }
        proof {
            assert(all.take(n) =~= all);
            lemma_in_order(all);
        }
        Ok(list)
    }

    /// Whether some key filter of the whitelist lets the encoded key through.
    pub fn is_bypassed(&self, encoded_key: &[u8]) -> (bypassed: bool)
        ensures
            bypassed == bypasses(self@, encoded_key@),
    {
        is_bypassed(self.filters.as_slice(), encoded_key)
    }
}

} // verus!
