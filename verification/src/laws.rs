//! What holds of the map from one call to the next, proved from the
//! contracts of its operations.
//!
//! The laws speak of the states before and after a call and of the hash that
//! the call worked with. Hashing is the caller's: the laws hold for keys whose
//! hash does not change while they are resident, which they assume by taking
//! one hash for one key and, where the map has grown, by taking the resident
//! entries to be filed as before. The order in which a lookup meets the entries
//! filed under a hash is the index's: the laws hold for every such order.

use crate::map::TryHashMap;
use crate::try_traits::{TryEq, TryHash, TryPartialEq};
use crate::walk::{lemma_walk_none, lemma_walk_one, position, walk};
use std::hash::BuildHasher;
use vstd::prelude::*;

verus! {

impl<K, V, S> TryHashMap<K, V, S> {
    /// A lookup finds nothing where the key of every entry filed under
    /// `hash` compares unequal to `key`, in whatever order it meets them.
    pub proof fn lemma_looks_up_none<Q: TryPartialEq<K> + ?Sized>(&self, hash: u64, key: &Q)
        requires
            forall|slot: int|
                0 <= slot < self@.len() && self.hashes()[slot] == hash ==> key.try_eq_spec(
                    &(#[trigger] self@[slot]).0,
                ) == Ok::<bool, Q::Error>(false),
        ensures
            self.looks_up(hash, key, Ok(None)),
    {
        assert forall|order: Seq<int>| #[trigger] self.lists(hash, order) implies walk(
            key,
            self@,
            order,
        ) == Ok::<Option<int>, Q::Error>(None) by {
            assert forall|j: int| 0 <= j < order.len() implies key.try_eq_spec(
                &self@[#[trigger] order[j]].0,
            ) == Ok::<bool, Q::Error>(false) by {
                assert(self.hashes()[order[j]] == hash);
            }
            lemma_walk_none(key, self@, order);
        }
    }

    /// A lookup finds the entry at `slot` where that entry is filed under
    /// `hash` and has a key that matches `key`, while the key of every other
    /// entry filed under `hash` compares unequal to `key`, in whatever order
    /// it meets them.
    pub proof fn lemma_looks_up_one<Q: TryPartialEq<K> + ?Sized>(
        &self,
        hash: u64,
        key: &Q,
        slot: int,
    )
        requires
            0 <= slot < self@.len(),
            self.hashes()[slot] == hash,
            key.try_eq_spec(&self@[slot].0) == Ok::<bool, Q::Error>(true),
            forall|other: int|
                0 <= other < self@.len() && other != slot && self.hashes()[other] == hash
                    ==> key.try_eq_spec(&(#[trigger] self@[other]).0) == Ok::<bool, Q::Error>(false),
        ensures
            self.looks_up(hash, key, Ok(Some(slot))),
    {
        assert forall|order: Seq<int>| #[trigger] self.lists(hash, order) implies walk(
            key,
            self@,
            order,
        ) == Ok::<Option<int>, Q::Error>(Some(slot)) by {
            assert(order.contains(slot));
            let at = choose|at: int| 0 <= at < order.len() && order[at] == slot;
            assert forall|j: int| 0 <= j < order.len() && j != at implies key.try_eq_spec(
                &self@[#[trigger] order[j]].0,
            ) == Ok::<bool, Q::Error>(false) by {
                assert(order[j] != slot && self.hashes()[order[j]] == hash);
            }
            lemma_walk_one(key, self@, order, at);
        }
    }

    /// Where every lookup comes to one outcome, `find_with_hash` returns it.
    pub proof fn lemma_found_is<Q: TryPartialEq<K> + ?Sized>(
        &self,
        hash: u64,
        key: &Q,
        every: Result<Option<int>, Q::Error>,
        at: Result<Option<usize>, Q::Error>,
    )
        requires
            Q::obeys_try_eq_spec(),
            self.looks_up(hash, key, every),
            self.found(hash, key, at),
        ensures
            at == position(every),
    {
        let order = choose|order: Seq<int>| #[trigger]
            self.lists(hash, order) && at == position(walk(key, self@, order));
        assert(walk(key, self@, order) == every);
    }

    /// Where every lookup comes to one outcome, `get_key_value_with_hash`
    /// returns what it returns for that outcome.
    pub proof fn lemma_fetched_where<Q: TryPartialEq<K> + ?Sized>(
        &self,
        hash: u64,
        key: &Q,
        every: Result<Option<int>, Q::Error>,
        r: Result<Option<(&K, &V)>, Q::Error>,
    )
        requires
            Q::obeys_try_eq_spec(),
            self.looks_up(hash, key, every),
            self.fetched(hash, key, r),
        ensures
            self.fetched_at(hash, key, r, position(every)),
    {
        let at = choose|at: Result<Option<usize>, Q::Error>| #[trigger]
            self.found(hash, key, at) && self.fetched_at(hash, key, r, at);
        self.lemma_found_is(hash, key, every, at);
    }

    /// Where every lookup comes to one outcome, `remove_entry_with_hash`
    /// does what it does for that outcome.
    pub proof fn lemma_removed_where<Q: TryPartialEq<K> + ?Sized>(
        pre: &Self,
        hash: u64,
        key: &Q,
        every: Result<Option<int>, Q::Error>,
        post: &Self,
        r: Result<Option<(K, V)>, Q::Error>,
    )
        requires
            Q::obeys_try_eq_spec(),
            pre.looks_up(hash, key, every),
            Self::removed(pre, hash, key, post, r),
        ensures
            Self::removed_at(pre, hash, key, post, r, position(every)),
    {
        let at = choose|at: Result<Option<usize>, Q::Error>| #[trigger]
            pre.found(hash, key, at) && Self::removed_at(pre, hash, key, post, r, at);
        pre.lemma_found_is(hash, key, every, at);
    }

    /// Whether no two entries have keys that match: comparing the keys of
    /// any two entries tells them apart.
    pub open spec fn keys_apart(&self) -> bool where K: TryPartialEq<K> {
        forall|s: int, t: int|
            0 <= s < self@.len() && 0 <= t < self@.len() && s != t ==> (
            #[trigger] self@[s]).0.try_eq_spec(&(#[trigger] self@[t]).0) == Ok::<
                bool,
                <K as TryPartialEq<K>>::Error,
            >(false)
    }

    /// A removal leaves no two entries with keys that match, where there
    /// were none before.
    pub proof fn law_remove_keeps_keys_apart<Q: TryPartialEq<K> + ?Sized>(
        pre: &Self,
        hash: u64,
        key: &Q,
        post: &Self,
        r: Result<Option<(K, V)>, Q::Error>,
    ) where K: TryPartialEq<K>
        requires
            pre.keys_apart(),
            Self::removed(pre, hash, key, post, r),
        ensures
            post.keys_apart(),
    {
        let at = choose|at: Result<Option<usize>, Q::Error>| #[trigger]
            pre.found(hash, key, at) && Self::removed_at(pre, hash, key, post, r, at);
        match at {
            Ok(Some(slot)) => {
                let last = pre@.len() - 1;
                assert forall|s: int, t: int|
                    0 <= s < post@.len() && 0 <= t < post@.len() && s != t implies (
                #[trigger] post@[s]).0.try_eq_spec(&(#[trigger] post@[t]).0) == Ok::<
                    bool,
                    <K as TryPartialEq<K>>::Error,
                >(false) by {
                    let was_s = if s == slot { last } else { s };
                    let was_t = if t == slot { last } else { t };
                    assert(post@[s] == pre@[was_s] && post@[t] == pre@[was_t]);
                }
            },
            _ => {},
        }
    }

    /// Removing a resident key, then missing it: where the entry at `slot`
    /// is filed under `hash` and has a key that matches `key`, and the key of
    /// every other entry filed under `hash` compares unequal to `key`,
    /// `remove_entry_with_hash` returns that entry, and
    /// `get_key_value_with_hash` afterwards finds nothing and does not fail.
    pub proof fn law_remove_then_miss<Q: TryPartialEq<K> + ?Sized>(
        pre: &Self,
        hash: u64,
        key: &Q,
        slot: int,
        post: &Self,
        removed: Result<Option<(K, V)>, Q::Error>,
        got: Result<Option<(&K, &V)>, Q::Error>,
    )
        requires
            pre.wf(),
            post.wf(),
            Q::obeys_try_eq_spec(),
            0 <= slot < pre@.len(),
            pre.hashes()[slot] == hash,
            key.try_eq_spec(&pre@[slot].0) == Ok::<bool, Q::Error>(true),
            forall|other: int|
                0 <= other < pre@.len() && other != slot && pre.hashes()[other] == hash
                    ==> key.try_eq_spec(&(#[trigger] pre@[other]).0) == Ok::<bool, Q::Error>(false),
            Self::removed(pre, hash, key, post, removed),
            post.fetched(hash, key, got),
        ensures
            removed == Ok::<Option<(K, V)>, Q::Error>(Some(pre@[slot])),
            post@.len() == pre@.len() - 1,
            post.looks_up(hash, key, Ok(None)),
            got == Ok::<Option<(&K, &V)>, Q::Error>(None),
    {
        pre.lemma_valid();
        post.lemma_valid();
        pre.lemma_looks_up_one(hash, key, slot);
        Self::lemma_removed_where(pre, hash, key, Ok(Some(slot)), post, removed);
        let last = pre@.len() - 1;
        assert forall|now: int|
            0 <= now < post@.len() && post.hashes()[now] == hash implies key.try_eq_spec(
            &(#[trigger] post@[now]).0,
        ) == Ok::<bool, Q::Error>(false) by {
            if now == slot {
                assert(post@[now] == pre@[last]);
            } else {
                assert(post@[now] == pre@[now]);
            }
        }
        post.lemma_looks_up_none(hash, key);
        post.lemma_fetched_where(hash, key, Ok(None), got);
    }
}

impl<K, V, S> TryHashMap<K, V, S> where
    K: TryEq + TryHash,
    <K as TryHash>::Error: From<<K as TryPartialEq>::Error>,
    S: BuildHasher,
 {
    /// Whether the entries of `pre` are filed in `post` under the hashes
    /// they had in `pre`: what the stability of hashes gives for a map that
    /// has grown.
    pub open spec fn kept_hashes(pre: &Self, post: &Self) -> bool {
        &&& pre.hashes().len() <= post.hashes().len()
        &&& post.hashes().take(pre.hashes().len() as int) == pre.hashes()
    }

    /// Where every lookup comes to one outcome, `insert_with_hash` does
    /// what it does for that outcome.
    pub proof fn lemma_inserted_where(
        pre: &Self,
        hash: u64,
        key: K,
        value: V,
        every: Result<Option<int>, <K as TryPartialEq>::Error>,
        post: &Self,
        r: Result<Option<V>, <K as TryHash>::Error>,
    )
        requires
            K::obeys_try_eq_spec(),
            pre.looks_up(hash, &key, every),
            Self::inserted(pre, hash, key, value, post, r),
        ensures
            Self::inserted_at(pre, hash, key, value, post, r, position(every)),
    {
        let at = choose|at: Result<Option<usize>, <K as TryPartialEq>::Error>| #[trigger]
            pre.found(hash, &key, at) && Self::inserted_at(pre, hash, key, value, post, r, at);
        pre.lemma_found_is(hash, &key, every, at);
    }

    /// After a call of `insert_with_hash` that found no match, no entry
    /// that was filed under `hash` has a key that matches `key`, the new entry
    /// is the last one, and every lookup of `key` under `hash` finds it.
    pub proof fn lemma_inserted_new(
        pre: &Self,
        hash: u64,
        key: K,
        value: V,
        post: &Self,
        r: Result<Option<V>, <K as TryHash>::Error>,
    )
        requires
            pre.wf(),
            post.wf(),
            K::obeys_try_eq_spec(),
            key.try_eq_spec(&key) == Ok::<bool, <K as TryPartialEq>::Error>(true),
            Self::inserted(pre, hash, key, value, post, r),
            r == Ok::<Option<V>, <K as TryHash>::Error>(None),
            Self::kept_hashes(pre, post),
        ensures
            forall|slot: int|
                0 <= slot < pre@.len() && pre.hashes()[slot] == hash ==> key.try_eq_spec(
                    &(#[trigger] pre@[slot]).0,
                ) == Ok::<bool, <K as TryPartialEq>::Error>(false),
            post@ == pre@.push((key, value)),
            post.hashes() == pre.hashes().push(hash),
            post.looks_up(hash, &key, Ok(Some(pre@.len() as int))),
    {
        pre.lemma_valid();
        post.lemma_valid();
        let at = choose|at: Result<Option<usize>, <K as TryPartialEq>::Error>| #[trigger]
            pre.found(hash, &key, at) && Self::inserted_at(pre, hash, key, value, post, r, at);
        assert(at == Ok::<Option<usize>, <K as TryPartialEq>::Error>(None));
        assert(post.hashes() =~= pre.hashes().push(hash)) by {
            assert forall|slot: int| 0 <= slot < pre.hashes().len() implies post.hashes()[slot]
                == pre.hashes()[slot] by {
                assert(post.hashes().take(pre.hashes().len() as int)[slot] == post.hashes()[slot]);
            }
        }
        assert forall|other: int|
            0 <= other < post@.len() && other != pre@.len() && post.hashes()[other]
                == hash implies key.try_eq_spec(&(#[trigger] post@[other]).0) == Ok::<
            bool,
            <K as TryPartialEq>::Error,
        >(false) by {
            assert(post@[other] == pre@[other]);
        }
        post.lemma_looks_up_one(hash, &key, pre@.len() as int);
    }

    /// Inserting a key twice, under one hash: where the first call found no
    /// match, the second returns the value of the first, and
    /// `get_key_value_with_hash` afterwards returns the key with the value of
    /// the second.
    pub proof fn law_overwrite(
        first: &Self,
        second: &Self,
        third: &Self,
        hash: u64,
        key: K,
        value1: V,
        value2: V,
        inserted1: Result<Option<V>, <K as TryHash>::Error>,
        inserted2: Result<Option<V>, <K as TryHash>::Error>,
        got: Result<Option<(&K, &V)>, <K as TryPartialEq>::Error>,
    )
        requires
            first.wf(),
            second.wf(),
            third.wf(),
            K::obeys_try_eq_spec(),
            key.try_eq_spec(&key) == Ok::<bool, <K as TryPartialEq>::Error>(true),
            Self::inserted(first, hash, key, value1, second, inserted1),
            inserted1 == Ok::<Option<V>, <K as TryHash>::Error>(None),
            Self::kept_hashes(first, second),
            Self::inserted(second, hash, key, value2, third, inserted2),
            third.fetched(hash, &key, got),
        ensures
            inserted2 == Ok::<Option<V>, <K as TryHash>::Error>(Some(value1)),
            third@ == first@.push((key, value2)),
            third.looks_up(hash, &key, Ok(Some(first@.len() as int))),
            got matches Ok(Some(entry)) && *entry.0 == key && *entry.1 == value2,
    {
        Self::lemma_inserted_new(first, hash, key, value1, second, inserted1);
        second.lemma_valid();
        let slot = first@.len() as int;
        Self::lemma_inserted_where(second, hash, key, value2, Ok(Some(slot)), third, inserted2);
        assert(third@ =~= first@.push((key, value2)));
        assert forall|other: int|
            0 <= other < third@.len() && other != slot && third.hashes()[other]
                == hash implies key.try_eq_spec(&(#[trigger] third@[other]).0) == Ok::<
            bool,
            <K as TryPartialEq>::Error,
        >(false) by {
            assert(third@[other] == first@[other]);
        }
        third.lemma_looks_up_one(hash, &key, slot);
        third.lemma_fetched_where(hash, &key, Ok(Some(slot)), got);
    }

    /// Two keys that share a hash and compare unequal: after both were
    /// inserted, neither call finding a match, the map holds an entry for
    /// each, and `get_key_value_with_hash` returns for either its own entry.
    pub proof fn law_colliding_keys(
        first: &Self,
        second: &Self,
        third: &Self,
        hash: u64,
        a: K,
        value_a: V,
        b: K,
        value_b: V,
        inserted_a: Result<Option<V>, <K as TryHash>::Error>,
        inserted_b: Result<Option<V>, <K as TryHash>::Error>,
        got_a: Result<Option<(&K, &V)>, <K as TryPartialEq>::Error>,
        got_b: Result<Option<(&K, &V)>, <K as TryPartialEq>::Error>,
    )
        requires
            first.wf(),
            second.wf(),
            third.wf(),
            K::obeys_try_eq_spec(),
            a.try_eq_spec(&a) == Ok::<bool, <K as TryPartialEq>::Error>(true),
            b.try_eq_spec(&b) == Ok::<bool, <K as TryPartialEq>::Error>(true),
            a.try_eq_spec(&b) == Ok::<bool, <K as TryPartialEq>::Error>(false),
            Self::inserted(first, hash, a, value_a, second, inserted_a),
            inserted_a == Ok::<Option<V>, <K as TryHash>::Error>(None),
            Self::kept_hashes(first, second),
            Self::inserted(second, hash, b, value_b, third, inserted_b),
            inserted_b == Ok::<Option<V>, <K as TryHash>::Error>(None),
            Self::kept_hashes(second, third),
            third.fetched(hash, &a, got_a),
            third.fetched(hash, &b, got_b),
        ensures
            third@ == first@.push((a, value_a)).push((b, value_b)),
            got_a matches Ok(Some(entry)) && *entry.0 == a && *entry.1 == value_a,
            got_b matches Ok(Some(entry)) && *entry.0 == b && *entry.1 == value_b,
    {
        Self::lemma_inserted_new(first, hash, a, value_a, second, inserted_a);
        Self::lemma_inserted_new(second, hash, b, value_b, third, inserted_b);
        third.lemma_valid();
        let slot_a = first@.len() as int;
        assert forall|other: int|
            0 <= other < third@.len() && other != slot_a && third.hashes()[other]
                == hash implies a.try_eq_spec(&(#[trigger] third@[other]).0) == Ok::<
            bool,
            <K as TryPartialEq>::Error,
        >(false) by {
            if other < slot_a {
                assert(third@[other] == first@[other]);
            }
        }
        third.lemma_looks_up_one(hash, &a, slot_a);
        third.lemma_fetched_where(hash, &a, Ok(Some(slot_a)), got_a);
        third.lemma_fetched_where(hash, &b, Ok(Some(slot_a + 1)), got_b);
    }

    /// An insertion leaves no two entries with keys that match, where there
    /// were none before and `key` compares with the resident keys as a key
    /// should: no comparison fails, a resident key that `key` matches is filed
    /// under `hash`, and a resident key that `key` does not match does not
    /// match `key` either. This is what replacing the value of a match, in
    /// place of adding a second entry, is for.
    pub proof fn law_insert_keeps_keys_apart(
        pre: &Self,
        hash: u64,
        key: K,
        value: V,
        post: &Self,
        r: Result<Option<V>, <K as TryHash>::Error>,
    )
        requires
            pre.wf(),
            post.wf(),
            K::obeys_try_eq_spec(),
            pre.keys_apart(),
            forall|slot: int|
                0 <= slot < pre@.len() ==> key.try_eq_spec(&(#[trigger] pre@[slot]).0) is Ok,
            forall|slot: int|
                0 <= slot < pre@.len() && key.try_eq_spec(&(#[trigger] pre@[slot]).0) == Ok::<
                    bool,
                    <K as TryPartialEq>::Error,
                >(true) ==> pre.hashes()[slot] == hash,
            forall|slot: int|
                0 <= slot < pre@.len() && key.try_eq_spec(&(#[trigger] pre@[slot]).0) == Ok::<
                    bool,
                    <K as TryPartialEq>::Error,
                >(false) ==> pre@[slot].0.try_eq_spec(&key) == Ok::<bool, <K as TryPartialEq>::Error>(
                    false,
                ),
            Self::inserted(pre, hash, key, value, post, r),
        ensures
            post.keys_apart(),
    {
        pre.lemma_valid();
        post.lemma_valid();
        let at = choose|at: Result<Option<usize>, <K as TryPartialEq>::Error>| #[trigger]
            pre.found(hash, &key, at) && Self::inserted_at(pre, hash, key, value, post, r, at);
        match at {
            Ok(Some(slot)) => {
                assert forall|s: int, t: int|
                    0 <= s < post@.len() && 0 <= t < post@.len() && s != t implies (
                #[trigger] post@[s]).0.try_eq_spec(&(#[trigger] post@[t]).0) == Ok::<
                    bool,
                    <K as TryPartialEq>::Error,
                >(false) by {
                    assert(post@[s].0 == pre@[s].0 && post@[t].0 == pre@[t].0);
                }
            },
            Ok(None) => {
                if r is Ok {
                    let new = pre@.len() as int;
                    assert forall|slot: int| 0 <= slot < pre@.len() implies key.try_eq_spec(
                        &(#[trigger] pre@[slot]).0,
                    ) == Ok::<bool, <K as TryPartialEq>::Error>(false) by {
                        let verdict = key.try_eq_spec(&pre@[slot].0);
                        assert(verdict == Ok::<bool, <K as TryPartialEq>::Error>(verdict->Ok_0));
                    }
                    assert forall|s: int, t: int|
                        0 <= s < post@.len() && 0 <= t < post@.len() && s != t implies (
                    #[trigger] post@[s]).0.try_eq_spec(&(#[trigger] post@[t]).0) == Ok::<
                        bool,
                        <K as TryPartialEq>::Error,
                    >(false) by {
                        if s == new {
                            assert(post@[t] == pre@[t]);
                        } else if t == new {
                            assert(post@[s] == pre@[s]);
                        } else {
                            assert(post@[s] == pre@[s] && post@[t] == pre@[t]);
                        }
                    }
                }
            },
            Err(e) => {},
        }
    }
}

} // verus!
