//! Key filters: byte patterns that put an encoded key on a limiter's
//! whitelist, and the order in which a whitelist keeps them.

use vstd::prelude::*;

verus! {

/// A rule deciding whether an encoded key is on the bypass whitelist.
#[derive(Clone, Debug, PartialEq, Eq, PartialOrd, Ord)]
pub enum KeyFilter {
    /// The encoded key equals the bytes.
    Match(Vec<u8>),
    /// The encoded key starts with the bytes.
    StartsWith(Vec<u8>),
    /// The encoded key ends with the bytes.
    EndsWith(Vec<u8>),
}

/// A key filter as a mathematical value.
pub enum Pattern {
    Match(Seq<u8>),
    StartsWith(Seq<u8>),
    EndsWith(Seq<u8>),
}

/// How one value stands to another in a total order.
#[derive(Clone, Copy, Debug, PartialEq, Eq, Structural)]
pub enum Relation {
    Before,
    Same,
    After,
}

/// Lexicographic order on byte strings: the first byte that differs
/// decides, and a proper prefix comes first.
pub open spec fn bytes_before(a: Seq<u8>, b: Seq<u8>) -> bool
    decreases a.len(),
{
    if b.len() == 0 {
        false
    } else if a.len() == 0 {
        true
    } else if a[0] != b[0] {
        a[0] < b[0]
    } else {
        bytes_before(a.skip(1), b.skip(1))
    }
}

impl Pattern {
    /// The bytes of the pattern.
    pub open spec fn bytes(self) -> Seq<u8> {
        match self {
            Pattern::Match(b) => b,
            Pattern::StartsWith(b) => b,
            Pattern::EndsWith(b) => b,
        }
    }

    /// The place of the pattern's kind among the kinds.
    pub open spec fn kind(self) -> int {
        match self {
            Pattern::Match(_) => 0,
            Pattern::StartsWith(_) => 1,
            Pattern::EndsWith(_) => 2,
        }
    }

    /// Whether the encoded key is let through by this pattern.
    pub open spec fn matches(self, key: Seq<u8>) -> bool {
        match self {
            Pattern::Match(b) => key == b,
            Pattern::StartsWith(b) => b.is_prefix_of(key),
            Pattern::EndsWith(b) => b.is_suffix_of(key),
        }
    }

    /// The strict order of patterns: by kind, then by bytes.
    pub open spec fn before(self, other: Pattern) -> bool {
        self.kind() < other.kind() || (self.kind() == other.kind() && bytes_before(
            self.bytes(),
            other.bytes(),
        ))
    }

    /// How `self` stands to `other` in the order of patterns.
    pub open spec fn relation(self, other: Pattern) -> Relation {
        if self.before(other) {
            Relation::Before
        } else if self == other {
            Relation::Same
        } else {
            Relation::After
        }
    }
}

/// No byte string comes before itself.
pub proof fn lemma_bytes_before_irreflexive(a: Seq<u8>)
    ensures
        !bytes_before(a, a),
    decreases a.len(),
{
    if a.len() > 0 {
        lemma_bytes_before_irreflexive(a.skip(1));
    }
}

/// The order of byte strings is transitive.
pub proof fn lemma_bytes_before_transitive(a: Seq<u8>, b: Seq<u8>, c: Seq<u8>)
    requires
        bytes_before(a, b),
        bytes_before(b, c),
    ensures
        bytes_before(a, c),
    decreases a.len(),
{
    if a.len() > 0 && a[0] == b[0] && b[0] == c[0] {
        lemma_bytes_before_transitive(a.skip(1), b.skip(1), c.skip(1));
    }
}

/// Of two different byte strings one comes before the other.
pub proof fn lemma_bytes_before_total(a: Seq<u8>, b: Seq<u8>)
    ensures
        a == b || bytes_before(a, b) || bytes_before(b, a),
    decreases a.len(),
{
    if a.len() > 0 && b.len() > 0 && a[0] == b[0] {
        lemma_bytes_before_total(a.skip(1), b.skip(1));
        if a.skip(1) == b.skip(1) {
            assert(a =~= seq![a[0]] + a.skip(1));
            assert(b =~= seq![b[0]] + b.skip(1));
        }
    } else if a.len() == 0 && b.len() == 0 {
        assert(a =~= b);
    }
}

/// The order of patterns is a strict total order: nothing comes before
/// itself, and of two different patterns exactly one comes first.
pub proof fn lemma_before_total(a: Pattern, b: Pattern)
    ensures
        !a.before(a),
        a == b || a.before(b) || b.before(a),
        !(a.before(b) && b.before(a)),
{
    lemma_bytes_before_irreflexive(a.bytes());
    lemma_bytes_before_total(a.bytes(), b.bytes());
    if a.before(b) && b.before(a) {
        lemma_bytes_before_transitive(a.bytes(), b.bytes(), a.bytes());
    }
}

/// The order of patterns is transitive.
pub proof fn lemma_before_transitive(a: Pattern, b: Pattern, c: Pattern)
    requires
        a.before(b),
        b.before(c),
    ensures
        a.before(c),
{
    if a.kind() == b.kind() && b.kind() == c.kind() {
        lemma_bytes_before_transitive(a.bytes(), b.bytes(), c.bytes());
    }
}

/// Whether two byte strings are equal.
pub fn bytes_equal(a: &[u8], b: &[u8]) -> (same: bool)
    ensures
        same == (a@ == b@),
{
    if a.len() != b.len() {
        return false;
    }
    let mut i: usize = 0;
    while i < a.len()
        invariant
            i <= a.len(),
            a.len() == b.len(),
            forall|j: int| 0 <= j < i ==> a@[j] == b@[j],
        decreases a.len() - i,
    {
        if a[i] != b[i] {
            return false;
        }
        i += 1;
    }
    assert(a@ =~= b@);
    true
}

/// Whether `key` starts with `prefix`.
pub fn starts_with(key: &[u8], prefix: &[u8]) -> (found: bool)
    ensures
        found == prefix@.is_prefix_of(key@),
{
    if prefix.len() > key.len() {
        return false;
    }
    let mut i: usize = 0;
    while i < prefix.len()
        invariant
            i <= prefix.len(),
            prefix.len() <= key.len(),
            forall|j: int| 0 <= j < i ==> key@[j] == prefix@[j],
        decreases prefix.len() - i,
    {
        if key[i] != prefix[i] {
            assert(key@.subrange(0, prefix@.len() as int)[i as int] == key@[i as int]);
            return false;
        }
        i += 1;
    }
    assert(prefix@ =~= key@.subrange(0, prefix@.len() as int));
    true
}

/// Whether `key` ends with `suffix`.
pub fn ends_with(key: &[u8], suffix: &[u8]) -> (found: bool)
    ensures
        found == suffix@.is_suffix_of(key@),
{
    if suffix.len() > key.len() {
        return false;
    }
    let shift: usize = key.len() - suffix.len();
    let mut i: usize = 0;
    while i < suffix.len()
        invariant
            i <= suffix.len(),
            suffix.len() <= key.len(),
            shift == key.len() - suffix.len(),
            forall|j: int| 0 <= j < i ==> key@[shift + j] == suffix@[j],
        decreases suffix.len() - i,
    {
        if key[shift + i] != suffix[i] {
            assert(key@.subrange(shift as int, key@.len() as int)[i as int] == key@[shift + i]);
            return false;
        }
        i += 1;
    }
    assert(suffix@ =~= key@.subrange(shift as int, key@.len() as int));
    true
}

/// How `a` stands to `b` in the lexicographic order of byte strings.
pub fn relate_bytes(a: &[u8], b: &[u8]) -> (r: Relation)
    ensures
        r == Relation::Before <==> bytes_before(a@, b@),
        r == Relation::Same <==> a@ == b@,
        r == Relation::After <==> bytes_before(b@, a@),
{
    let mut i: usize = 0;
    proof {
        assert(a@.skip(0) =~= a@);
        assert(b@.skip(0) =~= b@);
        lemma_bytes_before_total(a@, b@);
        lemma_bytes_before_irreflexive(a@);
        if bytes_before(a@, b@) && bytes_before(b@, a@) {
            lemma_bytes_before_transitive(a@, b@, a@);
        }
    }
    while i < a.len() && i < b.len()
        invariant
            i <= a.len(),
            i <= b.len(),
            forall|j: int| 0 <= j < i ==> a@[j] == b@[j],
            bytes_before(a@, b@) == bytes_before(a@.skip(i as int), b@.skip(i as int)),
            bytes_before(b@, a@) == bytes_before(b@.skip(i as int), a@.skip(i as int)),
        decreases a.len() - i,
    {
        proof {
            assert(a@.skip(i as int).skip(1) =~= a@.skip(i + 1));
            assert(b@.skip(i as int).skip(1) =~= b@.skip(i + 1));
            assert(a@.skip(i as int)[0] == a@[i as int]);
            assert(b@.skip(i as int)[0] == b@[i as int]);
        }
        if a[i] < b[i] {
            return Relation::Before;
        }
        if a[i] > b[i] {
            return Relation::After;
        }
        i += 1;
    }
    if i < b.len() {
        Relation::Before
    } else if i < a.len() {
        Relation::After
    } else {
        assert(a@ =~= b@);
        Relation::Same
    }
}

impl View for KeyFilter {
    type V = Pattern;

    open spec fn view(&self) -> Pattern {
        match self {
            KeyFilter::Match(b) => Pattern::Match(b@),
            KeyFilter::StartsWith(b) => Pattern::StartsWith(b@),
            KeyFilter::EndsWith(b) => Pattern::EndsWith(b@),
        }
    }
}

impl KeyFilter {
    /// The bytes of the filter.
    pub fn bytes(&self) -> (b: &[u8])
        ensures
            b@ == self@.bytes(),
    {
        match self {
            KeyFilter::Match(b) => b.as_slice(),
            KeyFilter::StartsWith(b) => b.as_slice(),
            KeyFilter::EndsWith(b) => b.as_slice(),
        }
    }

    /// The place of the filter's kind among the kinds.
    pub fn kind(&self) -> (k: u8)
        ensures
            k == self@.kind(),
    {
        match self {
            KeyFilter::Match(_) => 0,
            KeyFilter::StartsWith(_) => 1,
            KeyFilter::EndsWith(_) => 2,
        }
    }

    /// Whether the encoded key is let through by this filter.
    pub fn matches(&self, encoded_key: &[u8]) -> (found: bool)
        ensures
            found == self@.matches(encoded_key@),
    {
        match self {
            KeyFilter::Match(b) => bytes_equal(encoded_key, b.as_slice()),
            KeyFilter::StartsWith(b) => starts_with(encoded_key, b.as_slice()),
            KeyFilter::EndsWith(b) => ends_with(encoded_key, b.as_slice()),
        }
    }

    /// How this filter stands to `other` in the order of a whitelist.
    pub fn relate(&self, other: &KeyFilter) -> (r: Relation)
        ensures
            r == self@.relation(other@),
            r == Relation::Before <==> self@.before(other@),
            r == Relation::Same <==> self@ == other@,
            r == Relation::After <==> other@.before(self@),
    {
        let mine: u8 = self.kind();
        let theirs: u8 = other.kind();
        proof {
            lemma_before_total(self@, other@);
            lemma_before_total(other@, self@);
        }
        if mine < theirs {
            Relation::Before
        } else if mine > theirs {
            Relation::After
        } else {
            relate_bytes(self.bytes(), other.bytes())
        }
    }

    /// A copy of the filter.
    pub fn duplicate(&self) -> (copy: KeyFilter)
        ensures
            copy@ == self@,
    {
        match self {
            KeyFilter::Match(b) => KeyFilter::Match(b.clone()),
            KeyFilter::StartsWith(b) => KeyFilter::StartsWith(b.clone()),
            KeyFilter::EndsWith(b) => KeyFilter::EndsWith(b.clone()),
        }
    }
}

} // verus!
