//! The lexicon: a set of packed dictionary words and a set of packed
//! prefixes, each held in a hash set with the FNV hasher.
use vstd::prelude::*;
use fnv::{FnvHashSet, FnvHasher};
use std::hash::BuildHasherDefault;

verus! {

/// fnv's `FnvHasher`, the hasher of the sets; opaque here.
#[verifier::external_type_specification]
#[verifier::external_body]
pub struct ExFnvHasher(FnvHasher);

/// std's `BuildHasherDefault`, through which fnv's `FnvHashSet` builds its
/// hashers; opaque here.
#[verifier::external_type_specification]
#[verifier::external_body]
#[verifier::reject_recursive_types(H)]
pub struct ExBuildHasherDefault<H>(BuildHasherDefault<H>);

/// Relies on `HashSet::insert`, used through fnv's `FnvHashSet`: afterwards
/// the set holds the key besides what it held (`FnvHasher` hashes a `u64`
/// the same way every time, so the set follows the keys' equality).
#[verifier::external_body]
fn fnv_insert(s: &mut FnvHashSet<u64>, k: u64)
    ensures
        final(s)@ == old(s)@.insert(k),
{
    s.insert(k);
}

/// Relies on `HashSet::contains`, used through fnv's `FnvHashSet`: whether
/// the key is in the set (the hashing is deterministic, as for the insert).
#[verifier::external_body]
fn fnv_contains(s: &FnvHashSet<u64>, k: u64) -> (r: bool)
    ensures
        r == s@.contains(k),
{
    s.contains(&k)
}

/// A set of packed words.
pub struct WordSet {
    set: FnvHashSet<u64>,
}

impl View for WordSet {
    type V = Set<u64>;

    closed spec fn view(&self) -> Set<u64> {
        self.set@
    }
}

/// The big-endian value of the bytes `s`.
pub open spec fn be_value(s: Seq<u8>) -> nat
    decreases s.len(),
{
    if s.len() == 0 {
        0
    } else {
        be_value(s.drop_last()) * 256 + s.last() as nat
    }
}

/// The `i`-th eight-byte record of `bytes`, read big-endian.
pub open spec fn record_at(bytes: Seq<u8>, i: int) -> u64 {
    be_value(bytes.subrange(8 * i, 8 * i + 8)) as u64
}

/// The values of all whole eight-byte records of `bytes`; a shorter tail is
/// not a record.
pub open spec fn records_of(bytes: Seq<u8>) -> Set<u64> {
    Set::new(|w: u64| exists|i: int| 0 <= i < bytes.len() / 8 && w == record_at(bytes, i))
}

proof fn lemma_be_value_bound(s: Seq<u8>, k: nat)
    requires
        s.len() == k,
    ensures
        be_value(s) < pow256(k),
    decreases k,
{
    if k > 0 {
        lemma_be_value_bound(s.drop_last(), (k - 1) as nat);
        let a = be_value(s.drop_last());
        let b = pow256((k - 1) as nat);
        assert(a * 256 + s.last() < b * 256) by (nonlinear_arith)
            requires
                a < b,
                s.last() < 256,
        ;
    }
}

/// `256` raised to `k`.
pub open spec fn pow256(k: nat) -> nat
    decreases k,
{
    if k == 0 {
        1
    } else {
        256 * pow256((k - 1) as nat)
    }
}

/// Reads the eight bytes at `start` as a big-endian integer.
fn read_be_u64(bytes: &[u8], start: usize) -> (v: u64)
    requires
        start + 8 <= bytes@.len(),
    ensures
        v == be_value(bytes@.subrange(start as int, start + 8)),
{
    let ghost rec = bytes@.subrange(start as int, start + 8);
    let len = bytes.len();
    let mut acc: u64 = 0;
    let mut k: usize = 0;
    proof {
        assert(pow256(7) == 0x100_0000_0000_0000) by {
            assert(pow256(0) == 1);
            assert(pow256(1) == 256);
            assert(pow256(2) == 65536);
            assert(pow256(3) == 16777216);
            assert(pow256(4) == 4294967296);
            assert(pow256(5) == 1099511627776);
            assert(pow256(6) == 281474976710656);
        }
    }
    while k < 8
        invariant
            start + 8 <= bytes@.len(),
            len == bytes@.len(),
            rec == bytes@.subrange(start as int, start + 8),
            k <= 8,
            acc == be_value(rec.take(k as int)),
            pow256(7) == 0x100_0000_0000_0000,
        decreases 8 - k,
    {
        let ghost s = rec.take(k as int);
        proof {
            lemma_be_value_bound(s, k as nat);
            lemma_pow256_mono(k as nat, 7);
            let b = bytes@[start + k];
            assert((acc << 8) | (b as u64) == acc * 256 + b) by (bit_vector)
                requires
                    acc < 0x100_0000_0000_0000,
            ;
            assert(rec.take(k + 1).drop_last() =~= s);
            assert(rec[k as int] == b);
        }
        acc = (acc << 8) | (bytes[start + k] as u64);
        k += 1;
    }
    assert(rec.take(8) =~= rec);
    acc
}

proof fn lemma_pow256_mono(a: nat, b: nat)
    requires
        a <= b,
    ensures
        pow256(a) <= pow256(b),
    decreases b,
{
    if a < b {
        lemma_pow256_mono(a, (b - 1) as nat);
    }
}

impl WordSet {
    /// An empty set.
    pub fn new() -> (s: WordSet)
        ensures
            s@ == Set::<u64>::empty(),
    {
        WordSet { set: FnvHashSet::default() }
    }

    /// Adds `w`.
    pub fn insert(&mut self, w: u64)
        ensures
            final(self)@ == old(self)@.insert(w),
    {
        fnv_insert(&mut self.set, w);
    }

    /// Whether `w` is in the set.
    pub fn contains(&self, w: u64) -> (r: bool)
        ensures
            r == self@.contains(w),
    {
        fnv_contains(&self.set, w)
    }

    /// The set of the given words.
    pub fn from_words(words: &[u64]) -> (s: WordSet)
        ensures
            s@ == words@.to_set(),
    {
        let mut s = WordSet::new();
        let mut i: usize = 0;
        while i < words.len()
            invariant
                i <= words@.len(),
                s@ == words@.take(i as int).to_set(),
            decreases words@.len() - i,
        {
            s.insert(words[i]);
            proof {
                let t = words@.take(i + 1);
                assert(t == words@.take(i as int).push(words@[i as int]));
                assert(t.to_set() =~= words@.take(i as int).to_set().insert(words@[i as int])) by {
                    assert forall|w: u64| t.to_set().contains(w) implies words@.take(
                        i as int,
                    ).to_set().insert(words@[i as int]).contains(w) by {
                        let j = choose|j: int| 0 <= j < t.len() && t[j] == w;
                        if j < i {
                            assert(words@.take(i as int)[j] == w);
                        }
                    }
                    assert forall|w: u64| words@.take(i as int).to_set().insert(
                        words@[i as int],
                    ).contains(w) implies t.to_set().contains(w) by {
                        if w == words@[i as int] {
                            assert(t[i as int] == w);
                        } else {
                            let j = choose|j: int| 0 <= j < i && words@.take(i as int)[j] == w;
                            assert(t[j] == w);
                        }
                    }
                }
            }
            i += 1;
        }
        proof {
            assert(words@.take(i as int) =~= words@);
        }
        s
    }

    /// The set of the big-endian eight-byte records of `bytes`, the layout of
    /// a binary word list; a shorter tail is ignored.
    pub fn from_be_bytes(bytes: &[u8]) -> (s: WordSet)
        ensures
            s@ == records_of(bytes@),
    {
        let mut s = WordSet::new();
        let len = bytes.len();
        let count = len / 8;
        let mut i: usize = 0;
        while i < count
            invariant
                count == bytes@.len() / 8,
                len == bytes@.len(),
                i <= count,
                s@ == Set::new(|w: u64| exists|j: int| 0 <= j < i && w == record_at(bytes@, j)),
            decreases count - i,
        {
            assert(8 * i + 8 <= bytes@.len()) by (nonlinear_arith)
                requires
                    i < count,
                    count == bytes@.len() / 8,
            ;
            let v = read_be_u64(bytes, 8 * i);
            let ghost before = s@;
            s.insert(v);
            proof {
                let after = Set::new(
                    |w: u64| exists|j: int| 0 <= j < i + 1 && w == record_at(bytes@, j),
                );
                assert(v == record_at(bytes@, i as int));
                assert forall|w: u64| after.contains(w) implies s@.contains(w) by {
                    let j = choose|j: int| 0 <= j < i + 1 && w == record_at(bytes@, j);
                    if j < i {
                        assert(before.contains(w));
                    }
                }
                assert(s@ =~= after);
            }
            i += 1;
        }
        proof {
            assert(s@ =~= records_of(bytes@));
        }
        s
    }
}

/// Shortest candidate checked against the prefix set by default.
pub const PREFIX_LOWER_BOUND: usize = 2;

/// Longest candidate checked against the prefix set by default.
pub const PREFIX_UPPER_BOUND: usize = 8;

/// The dictionary of complete words, the prefix set, and the window of
/// lengths over which partial words are checked against the prefix set.
pub struct Lexicon {
    pub dictionary: WordSet,
    pub prefixes: WordSet,
    pub prefix_lower: usize,
    pub prefix_upper: usize,
}

impl Lexicon {
    /// A lexicon with the default pruning window.
    pub fn new(dictionary: WordSet, prefixes: WordSet) -> (lex: Lexicon)
        ensures
            lex.dictionary@ == dictionary@,
            lex.prefixes@ == prefixes@,
            lex.prefix_lower == PREFIX_LOWER_BOUND,
            lex.prefix_upper == PREFIX_UPPER_BOUND,
    {
        Lexicon {
            dictionary,
            prefixes,
            prefix_lower: PREFIX_LOWER_BOUND,
            prefix_upper: PREFIX_UPPER_BOUND,
        }
    }

    /// A lexicon that checks partial words of length `lower` to `upper`
    /// against the prefix set; an empty window checks none.
    pub fn with_window(dictionary: WordSet, prefixes: WordSet, lower: usize, upper: usize) -> (lex:
        Lexicon)
        ensures
            lex.dictionary@ == dictionary@,
            lex.prefixes@ == prefixes@,
            lex.prefix_lower == lower,
            lex.prefix_upper == upper,
    {
        Lexicon { dictionary, prefixes, prefix_lower: lower, prefix_upper: upper }
    }

    /// Whether `packed` is a complete dictionary word.
    pub fn contains_word(&self, packed: u64) -> (r: bool)
        ensures
            r == self.dictionary@.contains(packed),
    {
        self.dictionary.contains(packed)
    }

    /// Whether `packed` is in the prefix set.
    pub fn contains_prefix(&self, packed: u64) -> (r: bool)
        ensures
            r == self.prefixes@.contains(packed),
    {
        self.prefixes.contains(packed)
    }
}

} // verus!
