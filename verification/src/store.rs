//! A small keyed store: each key holds at most one value.

use vstd::prelude::*;
use crate::filter::bytes_equal;

verus! {

/// The identity of a rate limiter.
pub type RateLimiterId = u64;

/// A key of a store: two keys are the same exactly if their views are.
pub trait StoreKey: View + Sized {
    /// Whether the two keys are the same.
    fn same(&self, other: &Self) -> (b: bool)
        ensures
            b == (self@ == other@),
    ;
}

impl StoreKey for u64 {
    fn same(&self, other: &Self) -> (b: bool) {
        *self == *other
    }
}

/// The key of a rule and of its quota state: a limiter and an encoded key.
#[derive(Clone, Debug, PartialEq, Eq)]
pub struct EntryKey {
    pub limiter_id: RateLimiterId,
    pub encoded_key: Vec<u8>,
}

impl View for EntryKey {
    type V = (RateLimiterId, Seq<u8>);

    open spec fn view(&self) -> (RateLimiterId, Seq<u8>) {
        (self.limiter_id, self.encoded_key@)
    }
}

impl StoreKey for EntryKey {
    fn same(&self, other: &Self) -> (b: bool) {
        self.limiter_id == other.limiter_id && bytes_equal(
            self.encoded_key.as_slice(),
            other.encoded_key.as_slice(),
        )
    }
}

impl EntryKey {
    /// The key of `encoded_key` under the limiter `limiter_id`.
    pub fn new(limiter_id: RateLimiterId, encoded_key: &[u8]) -> (key: EntryKey)
        ensures
            key@ == (limiter_id, encoded_key@),
    {
        EntryKey { limiter_id, encoded_key: slice_to_vec(encoded_key) }
    }
}

/// A copy of the bytes.
pub fn slice_to_vec(bytes: &[u8]) -> (copy: Vec<u8>)
    ensures
        copy@ == bytes@,
{
    let mut copy: Vec<u8> = Vec::new();
    let mut i: usize = 0;
    while i < bytes.len()
        invariant
            i <= bytes@.len(),
            copy@ == bytes@.take(i as int),
        decreases bytes@.len() - i,
    {
        copy.push(bytes[i]);
        assert(copy@ =~= bytes@.take(i + 1));
        i += 1;
    }
    assert(bytes@.take(bytes@.len() as int) =~= bytes@);
    copy
}

/// Values by key. Its view is the map from the keys' views to the values.
pub struct Store<K, V> {
    keys: Vec<K>,
    values: Vec<V>,
}

/// The key at `i` is the one with view `k`.
pub open spec fn key_at<K: View>(keys: Seq<K>, k: K::V, i: int) -> bool {
    0 <= i < keys.len() && keys[i]@ == k
}

/// No two keys of the list are the same.
pub open spec fn distinct<K: View>(keys: Seq<K>) -> bool {
    forall|i: int, j: int| 0 <= i < j < keys.len() ==> (#[trigger] keys[i])@ != (#[trigger] keys[j])@
}

/// The map that a list of distinct keys and the list of their values stand
/// for.
pub open spec fn as_map<K: View, V>(keys: Seq<K>, values: Seq<V>) -> Map<K::V, V> {
    Map::new(
        |k: K::V| exists|i: int| key_at(keys, k, i),
        |k: K::V| values[choose|i: int| key_at(keys, k, i)],
    )
}

/// Where a key stands, there the map has its value.
pub proof fn lemma_as_map_at<K: View, V>(keys: Seq<K>, values: Seq<V>, i: int)
    requires
        distinct(keys),
        0 <= i < keys.len(),
    ensures
        as_map(keys, values).contains_key(keys[i]@),
        as_map(keys, values)[keys[i]@] == values[i],
{
    let k = keys[i]@;
    assert(key_at(keys, k, i));
    let j = choose|j: int| key_at(keys, k, j);
    if j < i {
        assert(keys[j]@ != keys[i]@);
    } else if i < j {
        assert(keys[i]@ != keys[j]@);
    }
}

impl<K: StoreKey, V> View for Store<K, V> {
    type V = Map<K::V, V>;

    closed spec fn view(&self) -> Map<K::V, V> {
        as_map(self.keys@, self.values@)
    }
}

impl<K: StoreKey, V> Store<K, V> {
    /// Each key has its value, and no key stands twice.
    pub closed spec fn wf(&self) -> bool {
        &&& self.keys@.len() == self.values@.len()
        &&& distinct(self.keys@)
    }

    /// A store that holds nothing.
    pub fn new() -> (store: Self)
        ensures
            store.wf(),
            store@ == Map::<K::V, V>::empty(),
    {
        let store = Store { keys: Vec::new(), values: Vec::new() };
        assert(store@ =~= Map::<K::V, V>::empty());
        store
    }

    /// Where `key` stands, if it is held.
    fn find(&self, key: &K) -> (at: Option<usize>)
        requires
            self.wf(),
        ensures
            match at {
                Some(i) => i < self.values@.len() && key_at(self.keys@, key@, i as int)
                    && self@.contains_key(key@) && self@[key@] == self.values@[i as int],
                None => !self@.contains_key(key@),
            },
    {
        let mut i: usize = 0;
        while i < self.keys.len()
            invariant
                self.wf(),
                i <= self.keys@.len(),
                forall|j: int| 0 <= j < i ==> !key_at(self.keys@, key@, j),
            decreases self.keys@.len() - i,
        {
            if self.keys[i].same(key) {
                proof {
                    lemma_as_map_at(self.keys@, self.values@, i as int);
                }
                return Some(i);
            }
            i += 1;
        }
        None
    }

    /// Whether `key` holds a value.
    pub fn contains_key(&self, key: &K) -> (held: bool)
        requires
            self.wf(),
        ensures
            held == self@.contains_key(key@),
    {
        self.find(key).is_some()
    }

    /// The value of `key`, if it holds one.
    pub fn get(&self, key: &K) -> (value: Option<&V>)
        requires
            self.wf(),
        ensures
            match value {
                Some(v) => self@.contains_key(key@) && *v == self@[key@],
                None => !self@.contains_key(key@),
            },
    {
        match self.find(key) {
            Some(i) => Some(&self.values[i]),
            None => None,
        }
    }

    /// Gives `key` the value `value`, in place of the one it may hold.
    pub fn insert(&mut self, key: K, value: V)
        requires
            old(self).wf(),
        ensures
            final(self).wf(),
            final(self)@ == old(self)@.insert(key@, value),
    {
        let ghost keys = self.keys@;
        let ghost values = self.values@;
        match self.find(&key) {
            Some(i) => {
                self.values.set(i, value);
                proof {
                    let after = self.values@;
                    assert forall|k: K::V| #[trigger] self@.contains_key(k) implies self@[k] == old(
                        self,
                    )@.insert(key@, value)[k] by {
                        let j = choose|j: int| key_at(keys, k, j);
                        lemma_as_map_at(keys, after, j);
                        lemma_as_map_at(keys, values, j);
                        if j != i {
                            assert(keys[j]@ != keys[i as int]@);
                        }
                    }
                    assert(self@ =~= old(self)@.insert(key@, value));
                }
            },
            None => {
                self.keys.push(key);
                self.values.push(value);
                proof {
                    let n = keys.len() as int;
                    assert forall|i: int, j: int| 0 <= i < j < self.keys@.len() implies (
                    #[trigger] self.keys@[i])@ != (#[trigger] self.keys@[j])@ by {
                        if j == n {
                            assert(!key_at(keys, key@, i));
                        } else {
                            assert(keys[i]@ != keys[j]@);
                        }
                    }
                    assert forall|k: K::V| #[trigger]
                        old(self)@.insert(key@, value).contains_key(k) implies self@.contains_key(k)
                        && self@[k] == old(self)@.insert(key@, value)[k] by {
                        if k == key@ {
                            lemma_as_map_at(self.keys@, self.values@, n);
                        } else {
                            let j = choose|j: int| key_at(keys, k, j);
                            lemma_as_map_at(keys, values, j);
                            lemma_as_map_at(self.keys@, self.values@, j);
                        }
                    }
                    assert forall|k: K::V| #[trigger] self@.contains_key(k) implies old(self)@.insert(
                        key@,
                        value,
                    ).contains_key(k) by {
                        let j = choose|j: int| key_at(self.keys@, k, j);
                        if j < n {
                            assert(key_at(keys, k, j));
                        }
                    }
                    assert(self@ =~= old(self)@.insert(key@, value));
                }
            },
        }
    }

    /// Takes `key` and its value out of the store, and returns the value.
    pub fn remove(&mut self, key: &K) -> (value: Option<V>)
        requires
            old(self).wf(),
        ensures
            final(self).wf(),
            final(self)@ == old(self)@.remove(key@),
            match value {
                Some(v) => old(self)@.contains_key(key@) && v == old(self)@[key@],
                None => !old(self)@.contains_key(key@),
            },
    {
        let ghost keys = self.keys@;
        let ghost values = self.values@;
        match self.find(key) {
            Some(i) => {
                self.keys.remove(i);
                let value = self.values.remove(i);
                proof {
                    let at = i as int;
                    assert forall|a: int, b: int| 0 <= a < b < self.keys@.len() implies (
                    #[trigger] self.keys@[a])@ != (#[trigger] self.keys@[b])@ by {
                        let sa = if a < at { a } else { a + 1 };
                        let sb = if b < at { b } else { b + 1 };
                        assert(keys[sa]@ != keys[sb]@);
                    }
                    assert forall|k: K::V| #[trigger]
                        old(self)@.remove(key@).contains_key(k) implies self@.contains_key(k)
                        && self@[k] == old(self)@.remove(key@)[k] by {
                        let j = choose|j: int| key_at(keys, k, j);
                        lemma_as_map_at(keys, values, j);
                        let t = if j < at { j } else { j - 1 };
                        assert(self.keys@[t] == keys[j]);
                        lemma_as_map_at(self.keys@, self.values@, t);
                    }
                    assert forall|k: K::V| #[trigger] self@.contains_key(k) implies old(self)@.remove(
                        key@,
                    ).contains_key(k) by {
                        let t = choose|t: int| key_at(self.keys@, k, t);
                        let j = if t < at { t } else { t + 1 };
                        assert(key_at(keys, k, j));
                        if j < at {
                            assert(keys[j]@ != keys[at]@);
                        } else {
                            assert(keys[at]@ != keys[j]@);
                        }
                    }
                    assert(self@ =~= old(self)@.remove(key@));
                }
                Some(value)
            },
            None => {
                assert(self@ =~= old(self)@.remove(key@));
                None
            },
        }
    }
}

} // verus!
