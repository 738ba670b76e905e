//! A bounded cache of single-pattern matchers, least recently used out first.

use crate::error::PatternError;
use crate::glob::{glob_matches, matches_any};
use crate::pattern::{compiles_alone, explains, PatternMatcher};
use lru::LruCache;
use std::num::NonZeroUsize;
use vstd::prelude::*;
use vstd::string::*;

verus! {

/// `lru::LruCache`, a hash map that remembers the order of use; what the one
/// used here holds is [`store_entries`].
#[verifier::external_type_specification]
#[verifier::external_body]
#[verifier::reject_recursive_types(K)]
#[verifier::reject_recursive_types(V)]
#[verifier::reject_recursive_types(S)]
pub struct ExLruCache<K, V, S>(LruCache<K, V, S>);

/// `lru::DefaultHasher`, the hasher `LruCache` uses unless given another.
#[verifier::external_type_specification]
#[verifier::external_body]
pub struct ExLruHasher(lru::DefaultHasher);

/// The store behind the cache: pattern text to compiled matcher.
pub type Store = LruCache<String, PatternMatcher>;

/// One entry of the store as plain data: the key and the matcher's patterns.
pub type StoreEntry = (Seq<char>, Seq<Seq<char>>);

/// What the store holds, most recently used first.
pub uninterp spec fn store_entries(store: Store) -> Seq<StoreEntry>;

/// The number of entries the store was made to hold at most.
pub uninterp spec fn store_capacity(store: Store) -> nat;

/// `LruCache::new`: an empty store with the given capacity. The capacity must
/// not be zero, and since the store reserves room for that many entries at
/// once it is kept small enough for the reservation to be unproblematic.
#[verifier::external_body]
pub(crate) fn store_new(capacity: usize) -> (store: Store)
    requires
        0 < capacity <= PatternCache::MAX_CAPACITY,
    ensures
        store_entries(store) == Seq::<StoreEntry>::empty(),
        store_capacity(store) == capacity,
{
    LruCache::new(NonZeroUsize::new(capacity).unwrap())
}

/// `LruCache::get`, asked only whether it found anything: an entry under the
/// key becomes the most recently used; a store without the key is left as it
/// is.
#[verifier::external_body]
pub(crate) fn store_use(store: &mut Store, key: &str) -> (hit: bool)
    ensures
        store_capacity(*final(store)) == store_capacity(*old(store)),
        hit ==> exists|at: int|
            0 <= at < store_entries(*old(store)).len() && (#[trigger] store_entries(
                *old(store),
            )[at]).0 == key@ && store_entries(*final(store)) == seq![
                store_entries(*old(store))[at],
            ] + store_entries(*old(store)).remove(at),
        !hit ==> store_entries(*final(store)) == store_entries(*old(store)) && forall|at: int|
            0 <= at < store_entries(*old(store)).len() ==> (#[trigger] store_entries(
                *old(store),
            )[at]).0 != key@,
    no_unwind
{
    store.get(key).is_some()
}

/// `LruCache::peek`: the value under the key, if there is one; the order of
/// use is not touched.
#[verifier::external_body]
pub(crate) fn store_peek<'a>(store: &'a Store, key: &str) -> (found: Option<&'a PatternMatcher>)
    ensures
        match found {
            Some(matcher) => exists|at: int|
                0 <= at < store_entries(*store).len() && (#[trigger] store_entries(*store)[at])
                    == (key@, matcher@),
            None => forall|at: int|
                0 <= at < store_entries(*store).len() ==> (#[trigger] store_entries(
                    *store,
                )[at]).0 != key@,
        },
{
    store.peek(key)
}

/// `LruCache::put`: the pair becomes the most recently used entry. An entry
/// already under the key is replaced; otherwise, if the store is full, the
/// least recently used entry is dropped to make room.
#[verifier::external_body]
pub(crate) fn store_put(store: &mut Store, key: String, matcher: PatternMatcher)
    ensures
        store_capacity(*final(store)) == store_capacity(*old(store)),
        forall|at: int|
            0 <= at < store_entries(*old(store)).len() && (#[trigger] store_entries(
                *old(store),
            )[at]).0 == key@ ==> store_entries(*final(store)) == seq![(key@, matcher@)]
                + store_entries(*old(store)).remove(at),
        (forall|at: int|
            0 <= at < store_entries(*old(store)).len() ==> (#[trigger] store_entries(
                *old(store),
            )[at]).0 != key@) ==> store_entries(*final(store)) == seq![(key@, matcher@)] + (
        if store_entries(*old(store)).len() >= store_capacity(*old(store)) {
            store_entries(*old(store)).drop_last()
        } else {
            store_entries(*old(store))
        }),
    no_unwind
{
    store.put(key, matcher);
}

/// `LruCache::contains`: whether an entry is under the key; the order of use
/// is not touched.
#[verifier::external_body]
pub(crate) fn store_contains(store: &Store, key: &str) -> (held: bool)
    ensures
        held == (exists|at: int|
            0 <= at < store_entries(*store).len() && (#[trigger] store_entries(*store)[at]).0
                == key@),
{
    store.contains(key)
}

/// `LruCache::len`: the number of entries held.
#[verifier::external_body]
pub(crate) fn store_len(store: &Store) -> (count: usize)
    ensures
        count == store_entries(*store).len(),
{
    store.len()
}

/// The keys of the entries, in the same order.
pub open spec fn keys_of(entries: Seq<StoreEntry>) -> Seq<Seq<char>> {
    entries.map_values(|entry: StoreEntry| entry.0)
}

/// The keys after the one at `at` has been used: it moves to the front.
pub open spec fn promoted(keys: Seq<Seq<char>>, at: int) -> Seq<Seq<char>> {
    seq![keys[at]] + keys.remove(at)
}

/// The keys after a new key has been taken in: it goes to the front, and the
/// key at the back leaves if the cache was full.
pub open spec fn admitted(keys: Seq<Seq<char>>, key: Seq<char>, capacity: nat) -> Seq<Seq<char>> {
    seq![key] + (if keys.len() >= capacity {
        keys.drop_last()
    } else {
        keys
    })
}

/// The keys after `pattern` has been looked up: a cached pattern becomes the
/// most recently used; a new one is taken in if it compiled, evicting the
/// least recently used pattern from a full cache; otherwise nothing changes.
pub open spec fn after_lookup(
    keys: Seq<Seq<char>>,
    capacity: nat,
    pattern: Seq<char>,
    compiled: bool,
) -> Seq<Seq<char>> {
    if keys.contains(pattern) {
        promoted(keys, keys.index_of(pattern))
    } else if compiled {
        admitted(keys, pattern, capacity)
    } else {
        keys
    }
}

/// What the cache keeps true of its store: no pattern is held twice, the
/// bound is kept, and every matcher is the one compiled from its key, which
/// therefore compiles.
pub open spec fn store_ok(entries: Seq<StoreEntry>, capacity: nat) -> bool {
    &&& keys_of(entries).no_duplicates()
    &&& 0 < capacity
    &&& entries.len() <= capacity
    &&& forall|at: int|
        0 <= at < entries.len() ==> (#[trigger] entries[at]).1 == seq![entries[at].0]
            && compiles_alone(entries[at].0)
}

/// Looks `pattern` up in a store in good order; on a hit its entry becomes
/// the most recently used.
fn use_entry(store: &mut Store, pattern: &str) -> (hit: bool)
    requires
        store_ok(store_entries(*old(store)), store_capacity(*old(store))),
    ensures
        store_ok(store_entries(*final(store)), store_capacity(*final(store))),
        store_capacity(*final(store)) == store_capacity(*old(store)),
        hit == keys_of(store_entries(*old(store))).contains(pattern@),
        hit == keys_of(store_entries(*final(store))).contains(pattern@),
        keys_of(store_entries(*final(store))) == after_lookup(
            keys_of(store_entries(*old(store))),
            store_capacity(*old(store)),
            pattern@,
            false,
        ),
    no_unwind
{
    let ghost before = store_entries(*store);
    let ghost keys = keys_of(before);
    let hit = store_use(store, pattern);
    proof {
        if hit {
            let at = choose|at: int|
                0 <= at < before.len() && (#[trigger] before[at]).0 == pattern@ && store_entries(
                    *store,
                ) == seq![before[at]] + before.remove(at);
            lemma_promotion(before, at);
            assert(keys[at] == pattern@);
            assert(keys.index_of(pattern@) == at);
            assert(promoted(keys, at)[0] == pattern@);
        } else {
            if keys.contains(pattern@) {
                let at = choose|at: int| 0 <= at < keys.len() && keys[at] == pattern@;
                assert(before[at].0 == pattern@);
            }
        }
    }
    hit
}

/// Takes a freshly compiled matcher into a store in good order that does not
/// hold its pattern yet.
fn take_in(store: &mut Store, pattern: String, matcher: PatternMatcher)
    requires
        store_ok(store_entries(*old(store)), store_capacity(*old(store))),
        !keys_of(store_entries(*old(store))).contains(pattern@),
        matcher@ == seq![pattern@],
        compiles_alone(pattern@),
    ensures
        store_ok(store_entries(*final(store)), store_capacity(*final(store))),
        store_capacity(*final(store)) == store_capacity(*old(store)),
        keys_of(store_entries(*final(store))) == admitted(
            keys_of(store_entries(*old(store))),
            pattern@,
            store_capacity(*old(store)),
        ),
    no_unwind
{
    let ghost before = store_entries(*store);
    proof {
        assert forall|at: int| 0 <= at < before.len() implies (#[trigger] before[at]).0
            != pattern@ by {
            assert(keys_of(before)[at] == before[at].0);
        }
    }
    store_put(store, pattern, matcher);
    proof {
        lemma_admission(before, store_capacity(*store), pattern@);
    }
}

/// A bounded cache from pattern text to its compiled single-pattern matcher.
/// When it is full, taking in a new pattern evicts the one used least
/// recently.
#[derive(Debug)]
pub struct PatternCache {
    store: Store,
}

impl View for PatternCache {
    type V = Seq<Seq<char>>;

    /// The cached pattern texts, most recently used first.
    closed spec fn view(&self) -> Seq<Seq<char>> {
        keys_of(store_entries(self.store))
    }
}

impl PatternCache {
    /// The number of patterns a cache holds unless told otherwise.
    pub const DEFAULT_CAPACITY: usize = 256;

    /// The largest capacity a cache can be made with.
    pub const MAX_CAPACITY: usize = 65536;

    /// The most patterns the cache holds at a time.
    pub closed spec fn capacity(&self) -> nat {
        store_capacity(self.store)
    }

    /// No pattern is cached twice, the bound is kept, and every cached matcher
    /// is the one compiled from its key.
    #[verifier::type_invariant]
    closed spec fn well_formed(self) -> bool {
        store_ok(store_entries(self.store), store_capacity(self.store))
    }

    /// An empty cache of the default capacity.
    pub fn new() -> (cache: PatternCache)
        ensures
            cache@ == Seq::<Seq<char>>::empty(),
            cache.capacity() == Self::DEFAULT_CAPACITY,
    {
        let store = store_new(Self::DEFAULT_CAPACITY);
        proof {
            assert(keys_of(store_entries(store)) =~= Seq::<Seq<char>>::empty());
        }
        PatternCache { store }
    }

    /// An empty cache of the given capacity; none for a capacity of zero or
    /// one beyond `MAX_CAPACITY`.
    pub fn with_capacity(capacity: usize) -> (made: Option<PatternCache>)
        ensures
            made is Some <==> 0 < capacity <= Self::MAX_CAPACITY,
            made matches Some(cache) ==> cache@ == Seq::<Seq<char>>::empty() && cache.capacity()
                == capacity,
    {
        if capacity == 0 || capacity > Self::MAX_CAPACITY {
            return None;
        }
        let store = store_new(capacity);
        proof {
            assert(keys_of(store_entries(store)) =~= Seq::<Seq<char>>::empty());
        }
        Some(PatternCache { store })
    }

    /// How many patterns are cached. A cache never holds a pattern twice nor
    /// more patterns than its capacity.
    pub fn len(&self) -> (count: usize)
        ensures
            count == self@.len(),
            count <= self.capacity(),
            self@.no_duplicates(),
    {
        proof {
            use_type_invariant(self);
        }
        store_len(&self.store)
    }

    /// Whether `pattern` is cached. Asking does not count as a use.
    pub fn contains(&self, pattern: &str) -> (held: bool)
        ensures
            held == self@.contains(pattern@),
    {
        let held = store_contains(&self.store, pattern);
        proof {
            let entries = store_entries(self.store);
            if held {
                let at = choose|at: int| 0 <= at < entries.len() && (#[trigger] entries[at]).0
                    == pattern@;
                assert(keys_of(entries)[at] == pattern@);
            }
            if self@.contains(pattern@) {
                let at = choose|at: int| 0 <= at < self@.len() && self@[at] == pattern@;
                assert(entries[at].0 == pattern@);
            }
        }
        held
    }

    /// Hands out the matcher compiled from `pattern`, compiling it only if it
    /// is not cached.
    ///
    /// The lookup succeeds exactly when the pattern compiles on its own; what
    /// the cache holds decides only whether it is compiled again. A cached
    /// pattern becomes the most recently used. A pattern that is not cached
    /// is compiled: if that works it is taken in at the front, and a full
    /// cache drops its least recently used pattern; if not, the error comes
    /// back and the cache is unchanged.
    pub fn lookup_or_compile(&mut self, pattern: &str) -> (found: Result<
        PatternMatcher,
        PatternError,
    >)
        ensures
            final(self).capacity() == old(self).capacity(),
            final(self)@ == after_lookup(
                old(self)@,
                old(self).capacity(),
                pattern@,
                found is Ok,
            ),
            found is Ok <==> compiles_alone(pattern@),
            match found {
                Ok(matcher) => matcher@ == seq![pattern@],
                Err(error) => explains(error, pattern@),
            },
            old(self)@.contains(pattern@) ==> found is Ok,
            final(self)@.no_duplicates(),
            final(self)@.len() <= final(self).capacity(),
    {
        proof {
            use_type_invariant(&*self);
        }
        if use_entry(&mut self.store, pattern) {
            let ghost entries = store_entries(self.store);
            match store_peek(&self.store, pattern) {
                Some(matcher) => {
                    proof {
                        let at = choose|at: int|
                            0 <= at < entries.len() && (#[trigger] entries[at]) == (
                                pattern@,
                                matcher@,
                            );
                        assert(matcher@ == seq![pattern@]);
                    }
                    return Ok(matcher.clone());
                },
                None => {
                    proof {
                        let at = choose|at: int|
                            0 <= at < self@.len() && self@[at] == pattern@;
                        assert(entries[at].0 == pattern@);
                    }
                },
            }
        }
        match PatternMatcher::single(pattern) {
            Ok(matcher) => {
                take_in(&mut self.store, String::from_str(pattern), matcher.clone());
                Ok(matcher)
            },
            Err(error) => Err(error),
        }
    }
}

/// Among distinct keys, using the entry at `at` keeps the keys distinct and
/// moves its key to the front.
proof fn lemma_promotion(entries: Seq<StoreEntry>, at: int)
    requires
        0 <= at < entries.len(),
        keys_of(entries).no_duplicates(),
    ensures
        keys_of(seq![entries[at]] + entries.remove(at)) == promoted(keys_of(entries), at),
        promoted(keys_of(entries), at).no_duplicates(),
        forall|k: int|
            0 <= k < entries.len() ==> exists|j: int|
                0 <= j < entries.len() && entries[j] == #[trigger] (seq![entries[at]]
                    + entries.remove(at))[k],
{
    let moved = seq![entries[at]] + entries.remove(at);
    let keys = keys_of(entries);
    assert(keys_of(moved) =~= promoted(keys, at));
    let after = promoted(keys, at);
    assert forall|a: int, b: int| 0 <= a < after.len() && 0 <= b < after.len() && a != b implies after[a]
        != after[b] by {
        let from_a = if a == 0 {
            at
        } else if a - 1 < at {
            a - 1
        } else {
            a
        };
        let from_b = if b == 0 {
            at
        } else if b - 1 < at {
            b - 1
        } else {
            b
        };
        assert(after[a] == keys[from_a]);
        assert(after[b] == keys[from_b]);
        assert(from_a != from_b);
    }
    assert forall|k: int| 0 <= k < entries.len() implies exists|j: int|
        0 <= j < entries.len() && entries[j] == #[trigger] moved[k] by {
        let from = if k == 0 {
            at
        } else if k - 1 < at {
            k - 1
        } else {
            k
        };
        assert(entries[from] == moved[k]);
    }
}

/// Taking a new key into the store keeps the keys distinct and the bound.
proof fn lemma_admission(entries: Seq<StoreEntry>, capacity: nat, key: Seq<char>)
    requires
        keys_of(entries).no_duplicates(),
        !keys_of(entries).contains(key),
        entries.len() <= capacity,
        0 < capacity,
    ensures
        ({
            let kept = if entries.len() >= capacity {
                entries.drop_last()
            } else {
                entries
            };
            let after = seq![(key, seq![key])] + kept;
            &&& keys_of(after) == admitted(keys_of(entries), key, capacity)
            &&& keys_of(after).no_duplicates()
            &&& after.len() <= capacity
            &&& forall|k: int|
                1 <= k < after.len() ==> #[trigger] after[k] == entries[k - 1]
        }),
{
    let kept = if entries.len() >= capacity {
        entries.drop_last()
    } else {
        entries
    };
    let after = seq![(key, seq![key])] + kept;
    let keys = keys_of(entries);
    assert(keys_of(after) =~= admitted(keys, key, capacity));
    let named = keys_of(after);
    assert forall|a: int, b: int| 0 <= a < named.len() && 0 <= b < named.len() && a != b implies named[a]
        != named[b] by {
        if a > 0 {
            assert(named[a] == keys[a - 1]);
        }
        if b > 0 {
            assert(named[b] == keys[b - 1]);
        }
    }
}

/// When a full cache takes in a new pattern, exactly the least recently used
/// pattern leaves: the new one is at the front, every other pattern is still
/// held behind it in its old order, and the one that was last is gone.
pub proof fn law_full_cache_evicts_least_recent(
    keys: Seq<Seq<char>>,
    key: Seq<char>,
    capacity: nat,
)
    requires
        keys.no_duplicates(),
        !keys.contains(key),
        0 < capacity,
        keys.len() == capacity,
    ensures
        after_lookup(keys, capacity, key, true) == seq![key] + keys.drop_last(),
        after_lookup(keys, capacity, key, true).len() == capacity,
        !after_lookup(keys, capacity, key, true).contains(keys.last()),
        forall|i: int|
            0 <= i < keys.len() - 1 ==> after_lookup(keys, capacity, key, true)[i + 1]
                == #[trigger] keys[i],
{
    let after = after_lookup(keys, capacity, key, true);
    if after.contains(keys.last()) {
        let at = choose|at: int| 0 <= at < after.len() && after[at] == keys.last();
        if at == 0 {
            assert(keys[keys.len() - 1] == key);
        } else {
            assert(after[at] == keys[at - 1]);
        }
    }
}

/// The keys after `patterns`, each of which compiles, have been looked up one
/// after the other.
pub open spec fn after_lookups(
    keys: Seq<Seq<char>>,
    capacity: nat,
    patterns: Seq<Seq<char>>,
) -> Seq<Seq<char>>
    decreases patterns.len(),
{
    if patterns.len() == 0 {
        keys
    } else {
        after_lookup(
            after_lookups(keys, capacity, patterns.drop_last()),
            capacity,
            patterns.last(),
            true,
        )
    }
}

/// Distinct patterns that fit into an empty cache pile up in it, the latest
/// in front.
proof fn lemma_fresh_patterns_pile_up(capacity: nat, patterns: Seq<Seq<char>>)
    requires
        patterns.no_duplicates(),
        patterns.len() <= capacity,
    ensures
        after_lookups(Seq::empty(), capacity, patterns).len() == patterns.len(),
        forall|i: int|
            0 <= i < patterns.len() ==> #[trigger] after_lookups(
                Seq::empty(),
                capacity,
                patterns,
            )[i] == patterns[patterns.len() - 1 - i],
    decreases patterns.len(),
{
    if patterns.len() > 0 {
        let fewer = patterns.drop_last();
        lemma_fresh_patterns_pile_up(capacity, fewer);
        let held = after_lookups(Seq::empty(), capacity, fewer);
        if held.contains(patterns.last()) {
            let at = choose|at: int| 0 <= at < held.len() && held[at] == patterns.last();
            assert(held[at] == patterns[fewer.len() - 1 - at]);
        }
    }
}

/// Looking up one distinct pattern more than an empty cache can hold evicts
/// exactly the first of them: the cache is full, the others are all held,
/// the latest in front, and the first is gone.
pub proof fn law_one_pattern_too_many_evicts_the_first(capacity: nat, patterns: Seq<Seq<char>>)
    requires
        0 < capacity,
        patterns.no_duplicates(),
        patterns.len() == capacity + 1,
    ensures
        after_lookups(Seq::empty(), capacity, patterns).len() == capacity,
        forall|i: int|
            0 <= i < capacity ==> #[trigger] after_lookups(Seq::empty(), capacity, patterns)[i]
                == patterns[capacity - i],
        !after_lookups(Seq::empty(), capacity, patterns).contains(patterns[0]),
{
    let fewer = patterns.drop_last();
    lemma_fresh_patterns_pile_up(capacity, fewer);
    let held = after_lookups(Seq::empty(), capacity, fewer);
    if held.contains(patterns.last()) {
        let at = choose|at: int| 0 <= at < held.len() && held[at] == patterns.last();
        assert(held[at] == patterns[fewer.len() - 1 - at]);
    }
    let after = after_lookups(Seq::empty(), capacity, patterns);
    assert(after == admitted(held, patterns.last(), capacity));
    assert forall|i: int| 0 <= i < capacity implies #[trigger] after[i] == patterns[capacity
        - i] by {
        if i > 0 {
            assert(after[i] == held[i - 1]);
        }
    }
    if after.contains(patterns[0]) {
        let at = choose|at: int| 0 <= at < after.len() && after[at] == patterns[0];
        assert(after[at] == patterns[capacity - at]);
    }
}

/// Tells whether `path` matches the single glob `pattern`, compiling the
/// pattern only if `cache` does not hold it. The answer depends on the two
/// texts alone, never on what the cache holds or held; the cache changes as a
/// lookup of `pattern` changes it.
pub fn match_pattern(cache: &mut PatternCache, path: &str, pattern: &str) -> (outcome: Result<
    bool,
    PatternError,
>)
    ensures
        final(cache).capacity() == old(cache).capacity(),
        final(cache)@ == after_lookup(
            old(cache)@,
            old(cache).capacity(),
            pattern@,
            outcome is Ok,
        ),
        outcome is Ok <==> compiles_alone(pattern@),
        match outcome {
            Ok(hit) => hit == glob_matches(pattern@, path@),
            Err(error) => explains(error, pattern@),
        },
        old(cache)@.contains(pattern@) ==> outcome is Ok,
{
    match cache.lookup_or_compile(pattern) {
        Ok(matcher) => {
            let hit = matcher.matches(path);
            proof {
                let globs = seq![pattern@];
                if matches_any(globs, path@) {
                    let i = choose|i: int|
                        0 <= i < globs.len() && glob_matches(#[trigger] globs[i], path@);
                    assert(globs[i] == pattern@);
                }
                if glob_matches(pattern@, path@) {
                    assert(glob_matches(globs[0], path@));
                }
            }
            Ok(hit)
        },
        Err(error) => Err(error),
    }
}

} // verus!
