//! The query cache: a bounded map from query keys to answers that forgets
//! the least recently used entry when it is full.
//!
//! The entries live in an `lru::LruCache`.  Its behaviour is stated by the
//! contracts of three small wrappers; everything else is proved from them.

use crate::model::ProductId;
use lru::LruCache;
use vstd::prelude::*;

verus! {

/// The type `LruCache` of the crate `lru`; nothing is known of what a
/// value of it holds but what the wrappers below state.
#[verifier::external_type_specification]
#[verifier::external_body]
#[verifier::reject_recursive_types(K)]
#[verifier::reject_recursive_types(V)]
#[verifier::reject_recursive_types(S)]
pub struct ExLruCache<K, V, S>(LruCache<K, V, S>);

/// The type `DefaultHasher` of the crate `lru`, with which an `LruCache`
/// hashes its keys unless it is given another.
#[verifier::external_type_specification]
#[verifier::external_body]
pub struct ExLruHasher(lru::DefaultHasher);

/// The entries of an `LruCache`, each a key with its value, from the most
/// recently used to the least recently used.
pub uninterp spec fn lru_entries(c: LruCache<String, Vec<ProductId>>) -> Seq<
    (Seq<char>, Seq<ProductId>),
>;

/// The number of entries that an `LruCache` was made to hold at most.
pub uninterp spec fn lru_cap(c: LruCache<String, Vec<ProductId>>) -> nat;

/// Whether some entry of `entries` has the key `key`.
pub open spec fn holds_key(entries: Seq<(Seq<char>, Seq<ProductId>)>, key: Seq<char>) -> bool {
    exists|i: int| 0 <= i < entries.len() && (#[trigger] entries[i]).0 == key
}

/// The place of an entry with the key `key`.
pub open spec fn key_index(entries: Seq<(Seq<char>, Seq<ProductId>)>, key: Seq<char>) -> int {
    choose|i: int| 0 <= i < entries.len() && (#[trigger] entries[i]).0 == key
}

/// No two entries have the same key.
pub open spec fn distinct_keys(entries: Seq<(Seq<char>, Seq<ProductId>)>) -> bool {
    forall|i: int, j: int|
        0 <= i < j < entries.len() ==> (#[trigger] entries[i]).0 != (#[trigger] entries[j]).0
}

/// The value stored under `key`, if there is one.
pub open spec fn value_of(entries: Seq<(Seq<char>, Seq<ProductId>)>, key: Seq<char>) -> Option<
    Seq<ProductId>,
> {
    if holds_key(entries, key) {
        Some(entries[key_index(entries, key)].1)
    } else {
        None
    }
}

/// The entries after the one at `i` has been used: it moves to the front.
pub open spec fn promoted(entries: Seq<(Seq<char>, Seq<ProductId>)>, i: int) -> Seq<
    (Seq<char>, Seq<ProductId>),
> {
    seq![entries[i]] + entries.remove(i)
}

/// The entries after `value` has been stored under a key held at `i`: the
/// entry gets the new value and moves to the front.
pub open spec fn replaced(
    entries: Seq<(Seq<char>, Seq<ProductId>)>,
    i: int,
    value: Seq<ProductId>,
) -> Seq<(Seq<char>, Seq<ProductId>)> {
    seq![(entries[i].0, value)] + entries.remove(i)
}

/// The entries after `value` has been stored under a key that was not held:
/// the new entry stands at the front, and a cache that was full has lost its
/// last entry, the least recently used one.  A cache made for no entry at all
/// stays empty.
pub open spec fn admitted(
    entries: Seq<(Seq<char>, Seq<ProductId>)>,
    cap: nat,
    key: Seq<char>,
    value: Seq<ProductId>,
) -> Seq<(Seq<char>, Seq<ProductId>)> {
    if cap == 0 {
        entries
    } else if entries.len() == cap {
        seq![(key, value)] + entries.drop_last()
    } else {
        seq![(key, value)] + entries
    }
}

/// `LruCache::new` of the crate `lru`: a cache without entries that holds at
/// most `cap` of them.  The capacity is bounded here because the call
/// reserves room for `cap` entries at once.
#[verifier::external_body]
fn lru_new(cap: usize) -> (c: LruCache<String, Vec<ProductId>>)
    requires
        cap <= 0x10000,
    ensures
        lru_entries(c) == Seq::<(Seq<char>, Seq<ProductId>)>::empty(),
        lru_cap(c) == cap,
{
    LruCache::new(cap)
}

/// `LruCache::get` of the crate `lru`, with the value copied out.  Where an
/// entry has the key, its value is returned and the entry becomes the most
/// recently used one; where none has it, nothing changes.
#[verifier::external_body]
fn lru_get(c: &mut LruCache<String, Vec<ProductId>>, key: &String) -> (found: Option<
    Vec<ProductId>,
>)
    ensures
        lru_cap(*final(c)) == lru_cap(*old(c)),
        match found {
            Some(v) => exists|i: int|
                0 <= i < lru_entries(*old(c)).len() && (#[trigger] lru_entries(*old(c))[i]).0
                    == key@ && v@ == lru_entries(*old(c))[i].1 && lru_entries(*final(c))
                    == promoted(lru_entries(*old(c)), i),
            None => !holds_key(lru_entries(*old(c)), key@) && lru_entries(*final(c))
                == lru_entries(*old(c)),
        },
{
    c.get(key).cloned()
}

/// `LruCache::put` of the crate `lru`.  Where an entry has the key, it gets
/// the new value and becomes the most recently used one.  Where none has it,
/// a new entry is made as the most recently used one, after the least
/// recently used entry has been dropped if the cache was full.
#[verifier::external_body]
fn lru_put(c: &mut LruCache<String, Vec<ProductId>>, key: String, value: Vec<ProductId>)
    ensures
        lru_cap(*final(c)) == lru_cap(*old(c)),
        holds_key(lru_entries(*old(c)), key@) ==> exists|i: int|
            0 <= i < lru_entries(*old(c)).len() && (#[trigger] lru_entries(*old(c))[i]).0 == key@
                && lru_entries(*final(c)) == replaced(lru_entries(*old(c)), i, value@),
        !holds_key(lru_entries(*old(c)), key@) ==> lru_entries(*final(c)) == admitted(
            lru_entries(*old(c)),
            lru_cap(*old(c)),
            key@,
            value@,
        ),
{
    c.put(key, value);
}

/// The number of entries that a query cache holds at most.
pub const CACHE_CAPACITY: usize = 128;

/// A bounded cache of query answers, keyed by the query key.
pub struct QueryCache {
    cache: LruCache<String, Vec<ProductId>>,
}

impl QueryCache {
    /// The entries, from the most recently used to the least recently used.
    pub closed spec fn entries(&self) -> Seq<(Seq<char>, Seq<ProductId>)> {
        lru_entries(self.cache)
    }

    /// The number of entries that the cache holds at most.
    pub closed spec fn capacity(&self) -> nat {
        lru_cap(self.cache)
    }

    /// The cache's invariant: one entry per key, and never more entries than
    /// its capacity, which is not zero.
    pub open spec fn wf(&self) -> bool {
        &&& distinct_keys(self.entries())
        &&& self.entries().len() <= self.capacity()
        &&& self.capacity() > 0
    }

    /// The answer stored under `key`, if there is one.
    pub open spec fn lookup(&self, key: Seq<char>) -> Option<Seq<ProductId>> {
        value_of(self.entries(), key)
    }

    /// The key whose entry goes when a new key is stored in a full cache.
    pub open spec fn eldest(&self) -> Seq<char> {
        self.entries().last().0
    }

    /// Whether the cache holds as many entries as it may.
    pub open spec fn is_full(&self) -> bool {
        self.entries().len() == self.capacity()
    }

    /// An empty cache for `CACHE_CAPACITY` entries.
    pub fn new() -> (cache: Self)
        ensures
            cache.wf(),
            cache.entries() == Seq::<(Seq<char>, Seq<ProductId>)>::empty(),
            cache.capacity() == CACHE_CAPACITY,
    {
        QueryCache { cache: lru_new(CACHE_CAPACITY) }
    }

    /// Looks `key` up.  A hit returns the stored answer and makes the entry
    /// the most recently used one; a miss changes nothing.  Either way every
    /// key keeps its answer.
    pub fn get(&mut self, key: &String) -> (found: Option<Vec<ProductId>>)
        requires
            old(self).wf(),
        ensures
            final(self).wf(),
            final(self).capacity() == old(self).capacity(),
            match found {
                Some(v) => old(self).lookup(key@) == Some(v@) && final(self).entries()
                    == promoted(old(self).entries(), key_index(old(self).entries(), key@)),
                None => old(self).lookup(key@).is_none() && final(self).entries() == old(
                    self,
                ).entries(),
            },
            forall|k: Seq<char>| final(self).lookup(k) == old(self).lookup(k),
    {
        let ghost before = self.entries();
        let found = lru_get(&mut self.cache, key);
        proof {
            if found.is_some() {
                let i = choose|i: int|
                    0 <= i < before.len() && (#[trigger] before[i]).0 == key@ && found.unwrap()@
                        == before[i].1 && self.entries() == promoted(before, i);
                lemma_key_index_is(before, key@, i);
                lemma_promoted_keeps_values(before, i);
            }
        }
        found
    }

    /// Stores `value` under `key`, in place of an earlier answer if there is
    /// one.  The entry becomes the most recently used one.  A new key in a
    /// full cache drives out the least recently used entry, and only that.
    pub fn put(&mut self, key: String, value: Vec<ProductId>)
        requires
            old(self).wf(),
        ensures
            final(self).wf(),
            final(self).capacity() == old(self).capacity(),
            final(self).entries() == if holds_key(old(self).entries(), key@) {
                replaced(old(self).entries(), key_index(old(self).entries(), key@), value@)
            } else {
                admitted(old(self).entries(), old(self).capacity(), key@, value@)
            },
            final(self).lookup(key@) == Some(value@),
            forall|k: Seq<char>|
                k != key@ ==> #[trigger] final(self).lookup(k) == if !holds_key(
                    old(self).entries(),
                    key@,
                ) && old(self).is_full() && k == old(self).eldest() {
                    None
                } else {
                    old(self).lookup(k)
                },
    {
        let ghost before = self.entries();
        let ghost k0 = key@;
        let ghost v0 = value@;
        lru_put(&mut self.cache, key, value);
        proof {
            if holds_key(before, k0) {
                let i = choose|i: int|
                    0 <= i < before.len() && (#[trigger] before[i]).0 == k0 && self.entries()
                        == replaced(before, i, v0);
                lemma_key_index_is(before, k0, i);
                lemma_replaced_values(before, i, v0);
            } else {
                lemma_admitted_values(before, self.capacity(), k0, v0);
            }
        }
    }
}

/// With one entry per key, the place of a key is the place where it is seen.
pub proof fn lemma_key_index_is(entries: Seq<(Seq<char>, Seq<ProductId>)>, key: Seq<char>, i: int)
    requires
        distinct_keys(entries),
        0 <= i < entries.len(),
        entries[i].0 == key,
    ensures
        holds_key(entries, key),
        key_index(entries, key) == i,
        value_of(entries, key) == Some(entries[i].1),
{
    let c = key_index(entries, key);
    assert(entries[c].0 == key);
    if c != i {
        assert(entries[c].0 != entries[i].0);
    }
}

/// Using an entry changes the order of the entries and nothing else.
pub proof fn lemma_promoted_keeps_values(entries: Seq<(Seq<char>, Seq<ProductId>)>, i: int)
    requires
        distinct_keys(entries),
        0 <= i < entries.len(),
    ensures
        distinct_keys(promoted(entries, i)),
        promoted(entries, i).len() == entries.len(),
        forall|k: Seq<char>| value_of(promoted(entries, i), k) == value_of(entries, k),
{
    let after = promoted(entries, i);
    assert(after.len() == entries.len());
    assert(after[0] == entries[i]);
    assert forall|a: int| 1 <= a < after.len() implies #[trigger] after[a] == entries[if a <= i {
        a - 1
    } else {
        a
    }] by {}
    assert forall|a: int, b: int| 0 <= a < b < after.len() implies (#[trigger] after[a]).0 != (
    #[trigger] after[b]).0 by {
        let sa = if a == 0 { i } else if a <= i { a - 1 } else { a };
        let sb = if b <= i { b - 1 } else { b };
        assert(after[a] == entries[sa] && after[b] == entries[sb]);
        assert(sa != sb);
        if sa < sb {
            assert(entries[sa].0 != entries[sb].0);
        } else {
            assert(entries[sb].0 != entries[sa].0);
        }
    }
    assert forall|k: Seq<char>| value_of(after, k) == value_of(entries, k) by {
        if holds_key(entries, k) {
            let s = key_index(entries, k);
            let a = if s == i { 0 } else if s < i { s + 1 } else { s };
            assert(after[a] == entries[s]);
            lemma_key_index_is(after, k, a);
        }
        if holds_key(after, k) {
            let a = key_index(after, k);
            let s = if a == 0 { i } else if a <= i { a - 1 } else { a };
            assert(after[a] == entries[s]);
            lemma_key_index_is(entries, k, s);
        }
    }
}

/// Storing under a held key changes that key's value, the order of the
/// entries, and nothing else.
pub proof fn lemma_replaced_values(
    entries: Seq<(Seq<char>, Seq<ProductId>)>,
    i: int,
    value: Seq<ProductId>,
)
    requires
        distinct_keys(entries),
        0 <= i < entries.len(),
    ensures
        distinct_keys(replaced(entries, i, value)),
        replaced(entries, i, value).len() == entries.len(),
        value_of(replaced(entries, i, value), entries[i].0) == Some(value),
        forall|k: Seq<char>|
            k != entries[i].0 ==> value_of(replaced(entries, i, value), k) == value_of(entries, k),
{
    let after = replaced(entries, i, value);
    let key = entries[i].0;
    assert(after.len() == entries.len());
    assert(after[0] == (key, value));
    assert forall|a: int| 1 <= a < after.len() implies #[trigger] after[a] == entries[if a <= i {
        a - 1
    } else {
        a
    }] by {}
    assert forall|a: int, b: int| 0 <= a < b < after.len() implies (#[trigger] after[a]).0 != (
    #[trigger] after[b]).0 by {
        let sa = if a == 0 { i } else if a <= i { a - 1 } else { a };
        let sb = if b <= i { b - 1 } else { b };
        assert(after[a].0 == entries[sa].0 && after[b] == entries[sb]);
        assert(sa != sb);
        if sa < sb {
            assert(entries[sa].0 != entries[sb].0);
        } else {
            assert(entries[sb].0 != entries[sa].0);
        }
    }
    lemma_key_index_is(after, key, 0);
    assert forall|k: Seq<char>| k != key implies value_of(after, k) == value_of(entries, k) by {
        if holds_key(entries, k) {
            let s = key_index(entries, k);
            let a = if s < i { s + 1 } else { s };
            assert(after[a] == entries[s]);
            lemma_key_index_is(after, k, a);
        }
        if holds_key(after, k) {
            let a = key_index(after, k);
            let s = if a <= i { a - 1 } else { a };
            assert(after[a] == entries[s]);
            lemma_key_index_is(entries, k, s);
        }
    }
}

/// Storing under a new key adds its entry; the only entry that can go is the
/// last one, and it goes exactly when the cache was full.
pub proof fn lemma_admitted_values(
    entries: Seq<(Seq<char>, Seq<ProductId>)>,
    cap: nat,
    key: Seq<char>,
    value: Seq<ProductId>,
)
    requires
        distinct_keys(entries),
        entries.len() <= cap,
        cap > 0,
        !holds_key(entries, key),
    ensures
        distinct_keys(admitted(entries, cap, key, value)),
        admitted(entries, cap, key, value).len() <= cap,
        admitted(entries, cap, key, value).len() == if entries.len() == cap {
            cap
        } else {
            entries.len() + 1
        },
        value_of(admitted(entries, cap, key, value), key) == Some(value),
        forall|k: Seq<char>|
            k != key ==> value_of(admitted(entries, cap, key, value), k) == if entries.len() == cap
                && k == entries.last().0 {
                None
            } else {
                value_of(entries, k)
            },
{
    let after = admitted(entries, cap, key, value);
    assert(after[0] == (key, value));
    assert forall|a: int| 1 <= a < after.len() implies #[trigger] after[a] == entries[a - 1] by {}
    assert forall|a: int, b: int| 0 <= a < b < after.len() implies (#[trigger] after[a]).0 != (
    #[trigger] after[b]).0 by {
        assert(after[b] == entries[b - 1]);
        if a == 0 {
            assert(entries[b - 1].0 != key);
        } else {
            assert(after[a] == entries[a - 1]);
        }
    }
    lemma_key_index_is(after, key, 0);
    assert forall|k: Seq<char>| k != key implies value_of(after, k) == if entries.len() == cap && k
        == entries.last().0 {
        None
    } else {
        value_of(entries, k)
    } by {
        if holds_key(after, k) {
            let a = key_index(after, k);
            assert(after[a] == entries[a - 1]);
            lemma_key_index_is(entries, k, a - 1);
            if entries.len() == cap {
                assert(entries[a - 1].0 != entries.last().0);
            }
        }
        if holds_key(entries, k) {
            let s = key_index(entries, k);
            if entries.len() == cap && s == entries.len() - 1 {
                if holds_key(after, k) {
                    let a = key_index(after, k);
                    assert(after[a] == entries[a - 1]);
                    assert(entries[a - 1].0 != entries[s].0);
                }
            } else {
                assert(after[s + 1] == entries[s]);
                lemma_key_index_is(after, k, s + 1);
                if entries.len() == cap {
                    assert(entries[s].0 != entries.last().0);
                }
            }
        }
    }
}

} // verus!
