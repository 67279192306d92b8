//! A hash map whose keys may fail to hash and fail to compare.

use crate::index::{
    cursor_next, cursor_rest, index_clear, index_insert, index_limit, index_probe_start,
    index_remove, index_retarget, index_slots, index_with_capacity, SlotIndex,
    MAX_INDEX_CAPACITY,
};
use crate::try_traits::{TryEq, TryHash, TryPartialEq};
use crate::walk::{filed_under, lemma_filed_under, lemma_walk_tells, position, walk};
use std::collections::hash_map::RandomState;
use std::hash::{BuildHasher, Hasher};
use vstd::prelude::*;
use vstd::std_specs::convert::FromSpec;

verus! {

/// The hash builder of a map that was not given one.
pub type DefaultHashBuilder = RandomState;

/// The most entries a map without room may hold when another is inserted:
/// a map that grows is made anew for twice its entries and one more, and no
/// map is made for more than `MAX_INDEX_CAPACITY`.
pub const MAX_ENTRIES: usize = (MAX_INDEX_CAPACITY - 1) / 2;

/// A hash map that supports fallible hashing and fallible equality.
///
/// Entries are kept in `entries`, with the hash each is filed under beside
/// them in `hashes`. `index` files every position under its hash, so that a
/// lookup compares the key only against the entries that a probe for its hash
/// turns up. `capacity` is the number of entries that the map was made for
/// when it was created or last grew; it holds no more.
///
/// As for any hash map, a key must not change its hash while it is resident.
pub struct TryHashMap<K, V, S = DefaultHashBuilder> {
    index: SlotIndex,
    hashes: Vec<u64>,
    entries: Vec<(K, V)>,
    capacity: usize,
    hash_builder: S,
}

/// `RandomState::new`: a hash builder with fresh random keys.
#[verifier::external_body]
fn fresh_random_state() -> RandomState {
    RandomState::new()
}

/// `BuildHasher::build_hasher`: a new hasher of the builder.
#[verifier::external_body]
fn start_hasher<S: BuildHasher>(hash_builder: &S) -> S::Hasher {
    hash_builder.build_hasher()
}

/// `Hasher::finish`: the digest of what was fed to the hasher so far.
#[verifier::external_body]
fn finish_hasher<H: Hasher>(hasher: &H) -> u64 {
    hasher.finish()
}

impl<K, V, S> View for TryHashMap<K, V, S> {
    type V = Seq<(K, V)>;

    /// The entries, in the order in which the map keeps them.
    closed spec fn view(&self) -> Seq<(K, V)> {
        self.entries@
    }
}

impl<K, V, S> TryHashMap<K, V, S> {
    /// The hash under which each entry is filed, in the order of the entries.
    pub closed spec fn hashes(&self) -> Seq<u64> {
        self.hashes@
    }

    /// The hash builder.
    pub closed spec fn spec_hasher(&self) -> S {
        self.hash_builder
    }

    /// The number of entries the map can hold before it grows.
    pub closed spec fn spec_capacity(&self) -> nat {
        self.capacity as nat
    }

    /// The number of entries.
    pub open spec fn spec_len(&self) -> nat {
        self@.len()
    }

    /// Whether `order` holds the positions of the entries filed under
    /// `hash`, each of them once. A lookup under `hash` meets the entries in
    /// such an order; which one it is, is up to the index.
    pub open spec fn lists(&self, hash: u64, order: Seq<int>) -> bool {
        &&& order.no_duplicates()
        &&& forall|j: int|
            0 <= j < order.len() ==> 0 <= #[trigger] order[j] < self@.len()
                && self.hashes()[order[j]] == hash
        &&& forall|slot: int|
            0 <= slot < self@.len() && #[trigger] self.hashes()[slot] == hash ==> order.contains(slot)
    }

    /// Whether every lookup of `key` under `hash` comes to `at`, in whatever
    /// order it meets the entries, when comparisons return what `try_eq_spec`
    /// says.
    pub open spec fn looks_up<Q: TryPartialEq<K> + ?Sized>(
        &self,
        hash: u64,
        key: &Q,
        at: Result<Option<int>, Q::Error>,
    ) -> bool {
        forall|order: Seq<int>| #[trigger] self.lists(hash, order) ==> walk(key, self@, order) == at
    }

    /// The invariant of the map: every entry has its hash, the index holds
    /// exactly the positions of the entries, each under its entry's hash, the
    /// index was made for as many positions as the capacity says, and there
    /// are no more entries than that.
    pub closed spec fn wf(&self) -> bool {
        &&& self.entries@.len() <= self.capacity <= MAX_INDEX_CAPACITY
        &&& index_limit(self.index) == self.capacity
        &&& index_slots(self.index).dom().finite()
        &&& self.hashes@.len() == self.entries@.len()
        &&& forall|slot: usize|
            index_slots(self.index).contains_key(slot) <==> slot < self.entries@.len()
        &&& forall|slot: usize|
            slot < self.hashes@.len() ==> #[trigger] index_slots(self.index)[slot]
                == self.hashes@[slot as int]
        &&& index_slots(self.index).len() == self.entries@.len()
    }

    /// Create an empty map with the given hash builder. Nothing is
    /// allocated before the first insertion.
    pub fn with_hasher(hash_builder: S) -> (map: Self)
        ensures
            map.wf(),
            map@.len() == 0,
            map.hashes().len() == 0,
            map.spec_capacity() == 0,
            map.spec_hasher() == hash_builder,
    {
        Self::with_capacity_and_hasher(0, hash_builder)
    }

    /// Create an empty map that can hold `capacity` entries before it grows,
    /// with the given hash builder.
    pub fn with_capacity_and_hasher(capacity: usize, hash_builder: S) -> (map: Self)
        requires
            capacity <= MAX_INDEX_CAPACITY,
        ensures
            map.wf(),
            map@.len() == 0,
            map.hashes().len() == 0,
            map.spec_capacity() == capacity,
            map.spec_hasher() == hash_builder,
    {
        let index = index_with_capacity(capacity);
        Self { index, hashes: Vec::new(), entries: Vec::new(), capacity, hash_builder }
    }

    /// The hash builder.
    pub fn hasher(&self) -> (hash_builder: &S)
        ensures
            *hash_builder == self.spec_hasher(),
    {
        &self.hash_builder
    }

    /// The number of entries the map can hold before it grows.
    pub fn capacity(&self) -> (capacity: usize)
        ensures
            capacity == self.spec_capacity(),
    {
        self.capacity
    }

    /// The number of entries.
    pub fn len(&self) -> (len: usize)
        ensures
            len == self.spec_len(),
    {
        self.entries.len()
    }

    /// Whether the map holds no entry.
    pub fn is_empty(&self) -> (empty: bool)
        ensures
            empty == (self.spec_len() == 0),
    {
        self.len() == 0
    }

    /// Removes every entry. The capacity stays.
    pub fn clear(&mut self)
        requires
            old(self).wf(),
        ensures
            final(self).wf(),
            final(self)@.len() == 0,
            final(self).hashes().len() == 0,
            final(self).spec_capacity() == old(self).spec_capacity(),
            final(self).spec_hasher() == old(self).spec_hasher(),
    {
        index_clear(&mut self.index);
        self.hashes.clear();
        self.entries.clear();
    }
}

impl<K, V, S: BuildHasher> TryHashMap<K, V, S> {
    /// Hashes `key` with the map's hash builder. Which digest comes out is
    /// up to the hash builder and to `try_hash`; whether one comes out is up
    /// to `try_hash` alone. The map relies on it that a key has one digest for
    /// as long as it is resident.
    pub fn hash_key<Q: ?Sized + TryHash>(&self, key: &Q) -> (r: Result<u64, Q::Error>)
        ensures
            Q::obeys_try_hash_spec() ==> match key.try_hash_spec() {
                Ok(_) => r is Ok,
                Err(e) => r == Err::<u64, Q::Error>(e),
            },
    {
        let mut hasher = start_hasher(&self.hash_builder);
        match key.try_hash(&mut hasher) {
            Ok(_) => Ok(finish_hasher(&hasher)),
            Err(e) => Err(e),
        }
    }
}

impl<K, V, S> TryHashMap<K, V, S> {
    /// What a walk over the entries filed under `hash` may come to. A
    /// position that it comes to is that of an entry filed under `hash`, and
    /// where no entry is filed under `hash` it comes to none. Where
    /// comparisons return what `try_eq_spec` says, it comes to the outcome of
    /// `walk` for an order that lists the entries filed under `hash`.
    pub open spec fn walked<Q: TryPartialEq<K> + ?Sized>(
        &self,
        hash: u64,
        key: &Q,
        r: Result<Option<usize>, Q::Error>,
    ) -> bool {
        &&& r matches Ok(Some(slot)) ==> slot < self@.len() && self.hashes()[slot as int] == hash
        &&& (forall|slot: int| 0 <= slot < self@.len() ==> #[trigger] self.hashes()[slot] != hash)
            ==> r == Ok::<Option<usize>, Q::Error>(None)
        &&& Q::obeys_try_eq_spec() ==> exists|order: Seq<int>| #[trigger]
            self.lists(hash, order) && r == position(walk(key, self@, order))
    }

    /// What the outcome of a walk tells of the entries filed under `hash`,
    /// in whatever order it met them: a position that was found is that of an
    /// entry whose key matches, after a walk that found nothing the key of
    /// every entry compares unequal, and the error of a walk is the error of
    /// comparing with the key of one of the entries.
    pub open spec fn told<Q: TryPartialEq<K> + ?Sized>(
        &self,
        hash: u64,
        key: &Q,
        r: Result<Option<usize>, Q::Error>,
    ) -> bool {
        match r {
            Ok(Some(slot)) => key.try_eq_spec(&self@[slot as int].0) == Ok::<bool, Q::Error>(true),
            Ok(None) => forall|slot: int|
                0 <= slot < self@.len() && self.hashes()[slot] == hash ==> key.try_eq_spec(
                    &(#[trigger] self@[slot]).0,
                ) == Ok::<bool, Q::Error>(false),
            Err(e) => exists|slot: int|
                0 <= slot < self@.len() && self.hashes()[slot] == hash && key.try_eq_spec(
                    &(#[trigger] self@[slot]).0,
                ) == Err::<bool, Q::Error>(e),
        }
    }

    /// What `find_with_hash` may return for `key` under `hash`: what a walk
    /// over the entries filed under `hash` comes to, with what that tells of
    /// the entries where comparisons return what `try_eq_spec` says.
    pub open spec fn found<Q: TryPartialEq<K> + ?Sized>(
        &self,
        hash: u64,
        key: &Q,
        r: Result<Option<usize>, Q::Error>,
    ) -> bool {
        &&& self.walked(hash, key, r)
        &&& Q::obeys_try_eq_spec() ==> self.told(hash, key, r)
    }

    /// The outcome of a walk tells of the entries what `told` says.
    pub proof fn lemma_walked_tells<Q: TryPartialEq<K> + ?Sized>(
        &self,
        hash: u64,
        key: &Q,
        r: Result<Option<usize>, Q::Error>,
    )
        requires
            Q::obeys_try_eq_spec(),
            self@.len() <= usize::MAX,
            self.walked(hash, key, r),
        ensures
            self.told(hash, key, r),
    {
        let order = choose|order: Seq<int>| #[trigger]
            self.lists(hash, order) && r == position(walk(key, self@, order));
        lemma_walk_tells(key, self@, order);
        match walk(key, self@, order) {
            Ok(Some(slot)) => {},
            Ok(None) => {
                assert forall|slot: int|
                    0 <= slot < self@.len() && self.hashes()[slot] == hash implies key.try_eq_spec(
                    &(#[trigger] self@[slot]).0,
                ) == Ok::<bool, Q::Error>(false) by {
                    assert(order.contains(slot));
                    let j = choose|j: int| 0 <= j < order.len() && order[j] == slot;
                    assert(key.try_eq_spec(&self@[order[j]].0) == Ok::<bool, Q::Error>(false));
                }
            },
            Err(e) => {
                let j = choose|j: int|
                    0 <= j < order.len() && key.try_eq_spec(&self@[#[trigger] order[j]].0) == Err::<
                        bool,
                        Q::Error,
                    >(e);
                assert(self.hashes()[order[j]] == hash);
            },
        }
    }

    /// In a valid map every entry has its hash, the entries can be counted
    /// in a `usize`, and there are no more of them than the capacity.
    pub proof fn lemma_valid(&self)
        requires
            self.wf(),
        ensures
            self.hashes().len() == self@.len() <= usize::MAX,
            self.spec_len() <= self.spec_capacity(),
    {
        assert(self.entries.len() == self.entries@.len());
    }

    /// Finds the position of the entry whose key matches `key`, among the
    /// entries filed under `hash`. The keys of these entries are compared
    /// with `key` one after the other, up to the first that matches and up to
    /// the first comparison that fails.
    pub fn find_with_hash<Q: ?Sized + TryPartialEq<K>>(&self, hash: u64, key: &Q) -> (r: Result<
        Option<usize>,
        Q::Error,
    >)
        requires
            self.wf(),
        ensures
            self.found(hash, key, r),
    {
        let r = self.probe_for(hash, key);
        proof {
            self.lemma_valid();
            if Q::obeys_try_eq_spec() {
                self.lemma_walked_tells(hash, key, r);
            }
        }
        r
    }

    /// Walks the probe for `hash` and compares `key` with the key of each
    /// entry filed under `hash` that it turns up.
    fn probe_for<Q: ?Sized + TryPartialEq<K>>(&self, hash: u64, key: &Q) -> (r: Result<
        Option<usize>,
        Q::Error,
    >)
        requires
            self.wf(),
        ensures
            self.walked(hash, key, r),
    {
        let mut cursor = index_probe_start(&self.index, hash);
        let ghost raw = cursor_rest(cursor);
        let ghost order = filed_under(raw, self.hashes@, hash);
        let ghost mut done: int = 0;
        proof {
            assert(self.entries.len() == self.entries@.len());
            assert(raw.skip(0) == raw);
            assert forall|j: int| 0 <= j < raw.len() implies (#[trigger] raw[j])
                < self.hashes@.len() by {
                assert(index_slots(self.index).contains_key(raw[j]));
            }
            lemma_filed_under(raw, self.hashes@, hash);
            assert forall|slot: int|
                0 <= slot < self@.len() && #[trigger] self.hashes()[slot] == hash implies order.contains(
                slot,
            ) by {
                assert(index_slots(self.index)[slot as usize] == hash);
                assert(raw.contains(slot as usize));
            }
        }
        loop
            invariant
                self.wf(),
                self.lists(hash, order),
                order == filed_under(raw, self.hashes@, hash),
                0 <= done <= raw.len(),
                cursor_rest(cursor) == raw.skip(done),
                forall|j: int| 0 <= j < raw.len() ==> (#[trigger] raw[j]) < self.hashes@.len(),
                Q::obeys_try_eq_spec() ==> walk(
                    key,
                    self@,
                    filed_under(raw.skip(done), self.hashes@, hash),
                ) == walk(key, self@, order),
            decreases raw.len() - done,
        {
            match cursor_next(&mut cursor) {
                None => {
                    return Ok(None);
                },
                Some(slot) => {
                    proof {
                        assert(raw.skip(done).skip(1) == raw.skip(done + 1));
                    }
                    if self.hashes[slot] == hash {
                        proof {
                            assert(filed_under(raw.skip(done), self.hashes@, hash).skip(1)
                                == filed_under(raw.skip(done + 1), self.hashes@, hash));
                            assert(self.hashes()[slot as int] == hash);
                        }
                        match key.try_eq(&self.entries[slot].0) {
                            Ok(true) => {
                                return Ok(Some(slot));
                            },
                            Ok(false) => {},
                            Err(e) => {
                                return Err(e);
                            },
                        }
                    }
                    proof {
                        done = done + 1;
                    }
                },
            }
        }
    }
}

impl<K, V, S> TryHashMap<K, V, S> {
    /// What `get_key_value_with_hash` returns where `find_with_hash`
    /// returns `at`: the entry at the position found.
    pub open spec fn fetched_at<Q: TryPartialEq<K> + ?Sized>(
        &self,
        hash: u64,
        key: &Q,
        r: Result<Option<(&K, &V)>, Q::Error>,
        at: Result<Option<usize>, Q::Error>,
    ) -> bool {
        self.found(hash, key, at) && match at {
            Ok(Some(slot)) => r matches Ok(Some(entry)) && self@[slot as int] == (
                *entry.0,
                *entry.1,
            ),
            Ok(None) => r == Ok::<Option<(&K, &V)>, Q::Error>(None),
            Err(e) => r == Err::<Option<(&K, &V)>, Q::Error>(e),
        }
    }

    /// What `get_key_value_with_hash` may return for `key` under `hash`.
    pub open spec fn fetched<Q: TryPartialEq<K> + ?Sized>(
        &self,
        hash: u64,
        key: &Q,
        r: Result<Option<(&K, &V)>, Q::Error>,
    ) -> bool {
        exists|at: Result<Option<usize>, Q::Error>| #[trigger]
            self.found(hash, key, at) && self.fetched_at(hash, key, r, at)
    }

    /// Whether `self` is `pre` but for the value at `slot`, which is `value`.
    pub open spec fn overwrote(&self, pre: &Self, slot: int, value: V) -> bool {
        &&& 0 <= slot < pre@.len()
        &&& self@ == pre@.update(slot, (pre@[slot].0, value))
        &&& self.hashes() == pre.hashes()
        &&& self.spec_capacity() == pre.spec_capacity()
        &&& self.spec_hasher() == pre.spec_hasher()
    }

    /// Retrieves the entry whose key matches `key`, among the entries filed
    /// under `hash`.
    pub fn get_key_value_with_hash<Q: ?Sized + TryPartialEq<K>>(&self, hash: u64, key: &Q) -> (r:
        Result<Option<(&K, &V)>, Q::Error>)
        requires
            self.wf(),
        ensures
            self.fetched(hash, key, r),
    {
        proof {
            self.lemma_valid();
        }
        match self.find_with_hash(hash, key) {
            Ok(Some(slot)) => {
                let entry = &self.entries[slot];
                Ok(Some((&entry.0, &entry.1)))
            },
            Ok(None) => Ok(None),
            Err(e) => Err(e),
        }
    }

    /// What `get_key_value_mut_with_hash` does where `find_with_hash`
    /// returns `at`. A match is handed out, and `loan` holds the entry that
    /// was found and the value that the caller leaves in it; anything else
    /// leaves the map as it was.
    pub open spec fn lent_at<Q: TryPartialEq<K> + ?Sized>(
        pre: &Self,
        hash: u64,
        key: &Q,
        post: &Self,
        loan: Result<Option<((K, V), V)>, Q::Error>,
        at: Result<Option<usize>, Q::Error>,
    ) -> bool {
        pre.found(hash, key, at) && match at {
            Ok(Some(slot)) => loan matches Ok(Some(lent)) && pre@[slot as int] == lent.0
                && post.overwrote(pre, slot as int, lent.1),
            Ok(None) => loan == Ok::<Option<((K, V), V)>, Q::Error>(None) && *post == *pre,
            Err(e) => loan == Err::<Option<((K, V), V)>, Q::Error>(e) && *post == *pre,
        }
    }

    /// What `get_key_value_mut_with_hash` may do for `key` under `hash`.
    pub open spec fn lent<Q: TryPartialEq<K> + ?Sized>(
        pre: &Self,
        hash: u64,
        key: &Q,
        post: &Self,
        loan: Result<Option<((K, V), V)>, Q::Error>,
    ) -> bool {
        exists|at: Result<Option<usize>, Q::Error>| #[trigger]
            pre.found(hash, key, at) && Self::lent_at(pre, hash, key, post, loan, at)
    }

    /// Retrieves the entry whose key matches `key`, among the entries filed
    /// under `hash`, with its value open to change.
    pub fn get_key_value_mut_with_hash<Q: ?Sized + TryPartialEq<K>>(
        &mut self,
        hash: u64,
        key: &Q,
    ) -> (r: Result<Option<(&K, &mut V)>, Q::Error>)
        requires
            old(self).wf(),
        ensures
            final(self).wf(),
            r is Err ==> *final(self) == *old(self),
            Self::lent(
                old(self),
                hash,
                key,
                final(self),
                match r {
                    Ok(Some(entry)) => Ok(Some(((*entry.0, *entry.1), *final(entry.1)))),
                    Ok(None) => Ok(None),
                    Err(e) => Err(e),
                },
            ),
    {
        proof {
            self.lemma_valid();
        }
        let at = self.find_with_hash(hash, key);
        match at {
            Ok(Some(slot)) => {
                let entry = &mut self.entries[slot];
                Ok(Some((&entry.0, &mut entry.1)))
            },
            Ok(None) => Ok(None),
            Err(e) => Err(e),
        }
    }
}

impl<K, V, S> TryHashMap<K, V, S> {
    /// Whether `self` is `pre` without the entry at `slot`: the last entry
    /// has taken its place.
    pub open spec fn dropped(&self, pre: &Self, slot: int) -> bool {
        &&& 0 <= slot < pre@.len()
        &&& self@ == pre@.update(slot, pre@.last()).drop_last()
        &&& self.hashes() == pre.hashes().update(slot, pre.hashes().last()).drop_last()
        &&& self.spec_capacity() == pre.spec_capacity()
        &&& self.spec_hasher() == pre.spec_hasher()
    }

    /// What `remove_entry_with_hash` does where `find_with_hash` returns
    /// `at`: a match is taken out and returned, and anything else leaves the
    /// map as it was.
    pub open spec fn removed_at<Q: TryPartialEq<K> + ?Sized>(
        pre: &Self,
        hash: u64,
        key: &Q,
        post: &Self,
        r: Result<Option<(K, V)>, Q::Error>,
        at: Result<Option<usize>, Q::Error>,
    ) -> bool {
        pre.found(hash, key, at) && match at {
            Ok(Some(slot)) => r == Ok::<Option<(K, V)>, Q::Error>(Some(pre@[slot as int]))
                && post.dropped(pre, slot as int),
            Ok(None) => r == Ok::<Option<(K, V)>, Q::Error>(None) && *post == *pre,
            Err(e) => r == Err::<Option<(K, V)>, Q::Error>(e) && *post == *pre,
        }
    }

    /// What `remove_entry_with_hash` may do for `key` under `hash`.
    pub open spec fn removed<Q: TryPartialEq<K> + ?Sized>(
        pre: &Self,
        hash: u64,
        key: &Q,
        post: &Self,
        r: Result<Option<(K, V)>, Q::Error>,
    ) -> bool {
        exists|at: Result<Option<usize>, Q::Error>| #[trigger]
            pre.found(hash, key, at) && Self::removed_at(pre, hash, key, post, r, at)
    }

    /// Takes the entry at `slot` out of the map. The last entry moves into
    /// its place.
    fn take(&mut self, slot: usize) -> (entry: (K, V))
        requires
            old(self).wf(),
            slot < old(self)@.len(),
        ensures
            final(self).wf(),
            entry == old(self)@[slot as int],
            final(self).dropped(old(self), slot as int),
    {
        let last = self.entries.len() - 1;
        index_remove(&mut self.index, self.hashes[slot], slot);
        if slot != last {
            index_retarget(&mut self.index, self.hashes[last], last, slot);
        }
        self.hashes.swap_remove(slot);
        self.entries.swap_remove(slot)
    }

    /// Removes the entry whose key matches `key`, among the entries filed
    /// under `hash`, and returns it.
    pub fn remove_entry_with_hash<Q: ?Sized + TryPartialEq<K>>(&mut self, hash: u64, key: &Q) -> (r:
        Result<Option<(K, V)>, Q::Error>)
        requires
            old(self).wf(),
        ensures
            final(self).wf(),
            r is Err ==> *final(self) == *old(self),
            Self::removed(old(self), hash, key, final(self), r),
    {
        proof {
            self.lemma_valid();
        }
        match self.find_with_hash(hash, key) {
            Ok(Some(slot)) => Ok(Some(self.take(slot))),
            Ok(None) => Ok(None),
            Err(e) => Err(e),
        }
    }
}

/// Whether `outer` is `inner` with its error, if it holds one, converted.
pub open spec fn converted<T, E, F: From<E>>(inner: Result<T, E>, outer: Result<T, F>) -> bool {
    match inner {
        Ok(t) => outer == Ok::<T, F>(t),
        Err(e) => outer is Err && (F::obeys_from_spec() ==> outer == Err::<T, F>(F::from_spec(e))),
    }
}

impl<K, V, S> TryHashMap<K, V, S> where
    K: TryEq + TryHash,
    <K as TryHash>::Error: From<<K as TryPartialEq>::Error>,
    S: BuildHasher,
 {
    /// Whether the map can take another entry without growing.
    pub open spec fn has_room(&self) -> bool {
        self.spec_len() < self.spec_capacity()
    }

    /// Whether hashing is known to succeed on every resident key.
    pub open spec fn rehash_succeeds(&self) -> bool {
        K::obeys_try_hash_spec() && forall|slot: int|
            0 <= slot < self@.len() ==> (#[trigger] self@[slot]).0.try_hash_spec() is Ok
    }

    /// Whether `e` may be the error of hashing the resident keys anew: where
    /// hashing returns what `try_hash_spec` says, it is the error of the
    /// first resident key that cannot be hashed.
    pub open spec fn rehash_fails_with(&self, e: <K as TryHash>::Error) -> bool {
        K::obeys_try_hash_spec() ==> exists|slot: int|
            0 <= slot < self@.len() && (#[trigger] self@[slot]).0.try_hash_spec() == Err::<
                (),
                <K as TryHash>::Error,
            >(e) && forall|before: int|
                0 <= before < slot ==> (#[trigger] self@[before]).0.try_hash_spec() is Ok
    }

    /// Whether `self` is `pre` with one more entry, `(key, value)`, filed
    /// under `hash`. Where `pre` had room the other entries are filed as they
    /// were. Where it had none the map has grown to hold twice as many entries
    /// and one more, and the other entries are filed under what hashing their
    /// keys anew has given.
    pub open spec fn appended(&self, pre: &Self, hash: u64, key: K, value: V) -> bool {
        &&& self@ == pre@.push((key, value))
        &&& self.hashes().len() == self@.len()
        &&& self.hashes().last() == hash
        &&& pre.has_room() ==> self.hashes() == pre.hashes().push(hash) && self.spec_capacity()
            == pre.spec_capacity()
        &&& !pre.has_room() ==> self.spec_capacity() == 2 * pre.spec_len() + 1
        &&& self.spec_hasher() == pre.spec_hasher()
    }

    /// What `insert_with_hash` does where `find_with_hash` returns `at`. A
    /// comparison that fails leaves the map as it was and is reported. A match
    /// has its value replaced and the old value returned. Without a match the
    /// entry is added, after growing where there is no room; growing hashes
    /// the resident keys anew, and where that fails the map is left as it was
    /// and the error is reported.
    pub open spec fn inserted_at(
        pre: &Self,
        hash: u64,
        key: K,
        value: V,
        post: &Self,
        r: Result<Option<V>, <K as TryHash>::Error>,
        at: Result<Option<usize>, <K as TryPartialEq>::Error>,
    ) -> bool {
        pre.found(hash, &key, at) && match at {
            Ok(Some(slot)) => r == Ok::<Option<V>, <K as TryHash>::Error>(Some(pre@[slot as int].1))
                && post.overwrote(pre, slot as int, value),
            Ok(None) => {
                &&& pre.has_room() || pre.rehash_succeeds() ==> r is Ok
                &&& match r {
                    Ok(previous) => previous is None && post.appended(pre, hash, key, value),
                    Err(e) => *post == *pre && !pre.has_room() && pre.rehash_fails_with(e),
                }
            },
            Err(e) => *post == *pre && converted(Err::<Option<V>, <K as TryPartialEq>::Error>(e), r),
        }
    }

    /// What `insert_with_hash` may do with `key` and `value` under `hash`.
    pub open spec fn inserted(
        pre: &Self,
        hash: u64,
        key: K,
        value: V,
        post: &Self,
        r: Result<Option<V>, <K as TryHash>::Error>,
    ) -> bool {
        exists|at: Result<Option<usize>, <K as TryPartialEq>::Error>| #[trigger]
            pre.found(hash, &key, at) && Self::inserted_at(pre, hash, key, value, post, r, at)
    }

    /// Hashes every resident key anew, up to the first that cannot be
    /// hashed.
    fn rehash(&self) -> (r: Result<Vec<u64>, <K as TryHash>::Error>)
        ensures
            match r {
                Ok(fresh) => fresh.len() == self@.len(),
                Err(e) => self.rehash_fails_with(e),
            },
            self.rehash_succeeds() ==> r is Ok,
    {
        let mut fresh: Vec<u64> = Vec::new();
        let mut slot: usize = 0;
        while slot < self.entries.len()
            invariant
                slot <= self.entries.len(),
                fresh.len() == slot,
                K::obeys_try_hash_spec() ==> forall|before: int|
                    0 <= before < slot ==> (#[trigger] self@[before]).0.try_hash_spec() is Ok,
            decreases self.entries.len() - slot,
        {
            match self.hash_key(&self.entries[slot].0) {
                Ok(hash) => {
                    fresh.push(hash);
                },
                Err(e) => {
                    return Err(e);
                },
            }
            slot += 1;
        }
        Ok(fresh)
    }

    /// Builds the index anew, for `capacity` entries, and files every entry
    /// under the hash that `fresh` holds for it.
    fn regrow(&mut self, fresh: Vec<u64>, capacity: usize)
        requires
            old(self).wf(),
            fresh.len() == old(self)@.len(),
            old(self)@.len() <= capacity <= MAX_INDEX_CAPACITY,
        ensures
            final(self).wf(),
            final(self)@ == old(self)@,
            final(self).hashes() == fresh@,
            final(self).spec_capacity() == capacity,
            final(self).spec_hasher() == old(self).spec_hasher(),
    {
        let mut index = index_with_capacity(capacity);
        let mut slot: usize = 0;
        while slot < fresh.len()
            invariant
                slot <= fresh.len() <= capacity <= MAX_INDEX_CAPACITY,
                index_limit(index) == capacity,
                index_slots(index).dom().finite(),
                index_slots(index).len() == slot,
                forall|stored: usize| index_slots(index).contains_key(stored) <==> stored < slot,
                forall|stored: usize|
                    stored < slot ==> #[trigger] index_slots(index)[stored] == fresh[stored as int],
            decreases fresh.len() - slot,
        {
            index_insert(&mut index, fresh[slot], slot, &fresh);
            slot += 1;
        }
        self.index = index;
        self.hashes = fresh;
        self.capacity = capacity;
    }

    /// Adds `(key, value)` to the map, taking `hash` for the hash of `key`.
    /// Where an entry filed under `hash` has a key that matches `key`, its
    /// value is replaced and returned.
    ///
    /// A map without room grows before it takes the entry. Growing hashes
    /// every resident key anew, and only when all of them have been hashed is
    /// the index built anew: a resident key that cannot be hashed leaves the
    /// map as it was, with all its entries in reach.
    pub fn insert_with_hash(&mut self, hash: u64, key: K, value: V) -> (r: Result<
        Option<V>,
        <K as TryHash>::Error,
    >)
        requires
            old(self).wf(),
            old(self).has_room() || old(self).spec_len() <= MAX_ENTRIES,
        ensures
            final(self).wf(),
            r is Err ==> *final(self) == *old(self),
            Self::inserted(old(self), hash, key, value, final(self), r),
    {
        proof {
            self.lemma_valid();
        }
        match self.find_with_hash(hash, &key) {
            Ok(Some(slot)) => {
                let mut value = value;
                std::mem::swap(&mut self.entries[slot].1, &mut value);
                return Ok(Some(value));
            },
            Ok(None) => {},
            Err(e) => {
                return Err(From::from(e));
            },
        }
        let len = self.entries.len();
        if self.capacity() <= len {
            match self.rehash() {
                Ok(fresh) => {
                    self.regrow(fresh, 2 * len + 1);
                },
                Err(e) => {
                    return Err(e);
                },
            }
        }
        self.hashes.push(hash);
        self.entries.push((key, value));
        index_insert(&mut self.index, hash, len, &self.hashes);
        Ok(None)
    }
}

/// Whether hashing `key` may fail with `e`: where hashing returns what
/// `try_hash_spec` says, `e` is the error that it gives.
pub open spec fn hash_fails_with<Q: TryHash + ?Sized>(key: &Q, e: Q::Error) -> bool {
    Q::obeys_try_hash_spec() ==> key.try_hash_spec() == Err::<(), Q::Error>(e)
}

/// Whether hashing `key` may succeed.
pub open spec fn hash_may_succeed<Q: TryHash + ?Sized>(key: &Q) -> bool {
    Q::obeys_try_hash_spec() ==> key.try_hash_spec() is Ok
}

/// The value of the entry that a lookup has returned.
pub open spec fn value_of<'a, K, V, E>(inner: Result<Option<(&'a K, &'a V)>, E>) -> Result<
    Option<&'a V>,
    E,
> {
    match inner {
        Ok(Some(entry)) => Ok(Some(entry.1)),
        Ok(None) => Ok(None),
        Err(e) => Err(e),
    }
}

/// The value that a lookup has handed out, and the value that the caller
/// leaves in its place.
pub open spec fn value_lent<K, V, E>(inner: Result<Option<((K, V), V)>, E>) -> Result<
    Option<(V, V)>,
    E,
> {
    match inner {
        Ok(Some(lent)) => Ok(Some((lent.0.1, lent.1))),
        Ok(None) => Ok(None),
        Err(e) => Err(e),
    }
}

/// The value of the entry that a removal has returned.
pub open spec fn value_taken<K, V, E>(inner: Result<Option<(K, V)>, E>) -> Result<Option<V>, E> {
    match inner {
        Ok(Some(entry)) => Ok(Some(entry.1)),
        Ok(None) => Ok(None),
        Err(e) => Err(e),
    }
}

impl<K, V> TryHashMap<K, V, DefaultHashBuilder> {
    /// Create an empty map. Nothing is allocated before the first insertion.
    pub fn new() -> (map: Self)
        ensures
            map.wf(),
            map@.len() == 0,
            map.hashes().len() == 0,
            map.spec_capacity() == 0,
    {
        Self::with_hasher(fresh_random_state())
    }

    /// Create an empty map that can hold `capacity` entries before it
    /// grows.
    pub fn with_capacity(capacity: usize) -> (map: Self)
        requires
            capacity <= MAX_INDEX_CAPACITY,
        ensures
            map.wf(),
            map@.len() == 0,
            map.hashes().len() == 0,
            map.spec_capacity() == capacity,
    {
        Self::with_capacity_and_hasher(capacity, fresh_random_state())
    }
}

impl<K, V> Default for TryHashMap<K, V, DefaultHashBuilder> {
    fn default() -> (map: Self)
        ensures
            map.wf(),
            map@.len() == 0,
            map.hashes().len() == 0,
            map.spec_capacity() == 0,
    {
        Self::new()
    }
}

impl<K, V, S> TryHashMap<K, V, S> where
    K: TryEq + TryHash,
    <K as TryHash>::Error: From<<K as TryPartialEq>::Error>,
    S: BuildHasher,
 {
    /// Retrieves the entry whose key matches `key`. Fails where hashing
    /// `key` fails, or a comparison on the way to the entry.
    pub fn get_key_value<Q: ?Sized>(&self, key: &Q) -> (r: Result<
        Option<(&K, &V)>,
        <Q as TryHash>::Error,
    >) where
        Q: TryHash + TryPartialEq<K>,
        <Q as TryHash>::Error: From<<Q as TryPartialEq<K>>::Error>,

        requires
            self.wf(),
        ensures
            (r matches Err(e) && hash_fails_with(key, e)) || (hash_may_succeed(key) && exists|
                hash: u64,
                inner: Result<Option<(&K, &V)>, <Q as TryPartialEq<K>>::Error>,
            | #[trigger] self.fetched(hash, key, inner) && converted(inner, r)),
    {
        let hash = match self.hash_key(key) {
            Ok(hash) => hash,
            Err(e) => {
                return Err(e);
            },
        };
        let inner = self.get_key_value_with_hash(hash, key);
        match inner {
            Ok(found) => Ok(found),
            Err(e) => Err(From::from(e)),
        }
    }

    /// Retrieves the value of the entry whose key matches `key`. Fails where
    /// hashing `key` fails, or a comparison on the way to the entry.
    pub fn get<Q: ?Sized>(&self, key: &Q) -> (r: Result<Option<&V>, <Q as TryHash>::Error>) where
        Q: TryHash + TryPartialEq<K>,
        <Q as TryHash>::Error: From<<Q as TryPartialEq<K>>::Error>,

        requires
            self.wf(),
        ensures
            (r matches Err(e) && hash_fails_with(key, e)) || (hash_may_succeed(key) && exists|
                hash: u64,
                inner: Result<Option<(&K, &V)>, <Q as TryPartialEq<K>>::Error>,
            | #[trigger] self.fetched(hash, key, inner) && converted(value_of(inner), r)),
    {
        let hash = match self.hash_key(key) {
            Ok(hash) => hash,
            Err(e) => {
                return Err(e);
            },
        };
        let inner = self.get_key_value_with_hash(hash, key);
        match inner {
            Ok(Some(entry)) => Ok(Some(entry.1)),
            Ok(None) => Ok(None),
            Err(e) => Err(From::from(e)),
        }
    }

    /// Retrieves the entry whose key matches `key`, with its value open to
    /// change. Fails where hashing `key` fails, or a comparison on the way to
    /// the entry; a call that fails leaves the map as it was.
    pub fn get_key_value_mut<Q: ?Sized>(&mut self, key: &Q) -> (r: Result<
        Option<(&K, &mut V)>,
        <Q as TryHash>::Error,
    >) where
        Q: TryHash + TryPartialEq<K>,
        <Q as TryHash>::Error: From<<Q as TryPartialEq<K>>::Error>,

        requires
            old(self).wf(),
        ensures
            final(self).wf(),
            r is Err ==> *final(self) == *old(self),
            (r matches Err(e) && hash_fails_with(key, e)) || (hash_may_succeed(key) && exists|
                hash: u64,
                inner: Result<Option<((K, V), V)>, <Q as TryPartialEq<K>>::Error>,
            | #[trigger]
                Self::lent(old(self), hash, key, final(self), inner) && converted(
                    inner,
                    match r {
                        Ok(Some(entry)) => Ok(Some(((*entry.0, *entry.1), *final(entry.1)))),
                        Ok(None) => Ok(None),
                        Err(e) => Err(e),
                    },
                )),
    {
        let hash = match self.hash_key(key) {
            Ok(hash) => hash,
            Err(e) => {
                return Err(e);
            },
        };
        let inner = self.get_key_value_mut_with_hash(hash, key);
        match inner {
            Ok(found) => Ok(found),
            Err(e) => Err(From::from(e)),
        }
    }

    /// Retrieves the value of the entry whose key matches `key`, open to
    /// change. Fails where hashing `key` fails, or a comparison on the way to
    /// the entry; a call that fails leaves the map as it was.
    pub fn get_mut<Q: ?Sized>(&mut self, key: &Q) -> (r: Result<
        Option<&mut V>,
        <Q as TryHash>::Error,
    >) where
        Q: TryHash + TryPartialEq<K>,
        <Q as TryHash>::Error: From<<Q as TryPartialEq<K>>::Error>,

        requires
            old(self).wf(),
        ensures
            final(self).wf(),
            r is Err ==> *final(self) == *old(self),
            (r matches Err(e) && hash_fails_with(key, e)) || (hash_may_succeed(key) && exists|
                hash: u64,
                inner: Result<Option<((K, V), V)>, <Q as TryPartialEq<K>>::Error>,
            | #[trigger]
                Self::lent(old(self), hash, key, final(self), inner) && converted(
                    value_lent(inner),
                    match r {
                        Ok(Some(value)) => Ok(Some((*value, *final(value)))),
                        Ok(None) => Ok(None),
                        Err(e) => Err(e),
                    },
                )),
    {
        let hash = match self.hash_key(key) {
            Ok(hash) => hash,
            Err(e) => {
                return Err(e);
            },
        };
        let inner = self.get_key_value_mut_with_hash(hash, key);
        match inner {
            Ok(Some(entry)) => Ok(Some(entry.1)),
            Ok(None) => Ok(None),
            Err(e) => Err(From::from(e)),
        }
    }

    /// Adds `(key, value)` to the map. Where the map holds an entry whose key
    /// matches `key`, its value is replaced and returned. Fails where
    /// hashing `key` fails, or a comparison on the way to the entry, or,
    /// where the map must grow, hashing a resident key; a call that fails
    /// leaves the map as it was.
    pub fn insert(&mut self, key: K, value: V) -> (r: Result<Option<V>, <K as TryHash>::Error>)
        requires
            old(self).wf(),
            old(self).has_room() || old(self).spec_len() <= MAX_ENTRIES,
        ensures
            final(self).wf(),
            r is Err ==> *final(self) == *old(self),
            (r matches Err(e) && hash_fails_with(&key, e)) || (hash_may_succeed(&key) && exists|
                hash: u64,
            | #[trigger] Self::inserted(old(self), hash, key, value, final(self), r)),
    {
        let hash = match self.hash_key(&key) {
            Ok(hash) => hash,
            Err(e) => {
                return Err(e);
            },
        };
        self.insert_with_hash(hash, key, value)
    }

    /// Removes the entry whose key matches `key` and returns it. Fails where
    /// hashing `key` fails, or a comparison on the way to the entry; a call
    /// that fails leaves the map as it was.
    pub fn remove_entry<Q: ?Sized>(&mut self, key: &Q) -> (r: Result<
        Option<(K, V)>,
        <Q as TryHash>::Error,
    >) where
        Q: TryHash + TryPartialEq<K>,
        <Q as TryHash>::Error: From<<Q as TryPartialEq<K>>::Error>,

        requires
            old(self).wf(),
        ensures
            final(self).wf(),
            r is Err ==> *final(self) == *old(self),
            (r matches Err(e) && hash_fails_with(key, e)) || (hash_may_succeed(key) && exists|
                hash: u64,
                inner: Result<Option<(K, V)>, <Q as TryPartialEq<K>>::Error>,
            | #[trigger]
                Self::removed(old(self), hash, key, final(self), inner) && converted(inner, r)),
    {
        let hash = match self.hash_key(key) {
            Ok(hash) => hash,
            Err(e) => {
                return Err(e);
            },
        };
        let inner = self.remove_entry_with_hash(hash, key);
        match inner {
            Ok(taken) => Ok(taken),
            Err(e) => Err(From::from(e)),
        }
    }

    /// Removes the entry whose key matches `key` and returns its value.
    /// Fails where hashing `key` fails, or a comparison on the way to the
    /// entry; a call that fails leaves the map as it was.
    pub fn remove<Q: ?Sized>(&mut self, key: &Q) -> (r: Result<Option<V>, <Q as TryHash>::Error>) where
        Q: TryHash + TryPartialEq<K>,
        <Q as TryHash>::Error: From<<Q as TryPartialEq<K>>::Error>,

        requires
            old(self).wf(),
        ensures
            final(self).wf(),
            r is Err ==> *final(self) == *old(self),
            (r matches Err(e) && hash_fails_with(key, e)) || (hash_may_succeed(key) && exists|
                hash: u64,
                inner: Result<Option<(K, V)>, <Q as TryPartialEq<K>>::Error>,
            | #[trigger]
                Self::removed(old(self), hash, key, final(self), inner) && converted(
                    value_taken(inner),
                    r,
                )),
    {
        let hash = match self.hash_key(key) {
            Ok(hash) => hash,
            Err(e) => {
                return Err(e);
            },
        };
        let inner = self.remove_entry_with_hash(hash, key);
        match inner {
            Ok(Some(entry)) => Ok(Some(entry.1)),
            Ok(None) => Ok(None),
            Err(e) => Err(From::from(e)),
        }
    }
}

} // verus!
