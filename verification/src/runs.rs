//! What holds of a map after a run of insertions, proved from the contract
//! of `insert_with_hash`.
//!
//! A run starts with an empty map and takes one insertion after the other,
//! each with success. As in the laws on single calls, the hashes are the
//! caller's: every step brings the hash of its key, keys that match bring the
//! same hash, and where the map grows the resident entries stay filed as they
//! were.

use crate::map::TryHashMap;
use crate::try_traits::{TryEq, TryHash, TryPartialEq};
use std::hash::BuildHasher;
use vstd::prelude::*;

verus! {

impl<K, V, S> TryHashMap<K, V, S> where
    K: TryEq + TryHash,
    <K as TryHash>::Error: From<<K as TryPartialEq>::Error>,
    S: BuildHasher,
 {
    /// What comparing the key of step `i` with the key of step `j` yields.
    pub open spec fn verdict(steps: Seq<(u64, K, V)>, i: int, j: int) -> Result<
        bool,
        <K as TryPartialEq>::Error,
    > {
        steps[i].1.try_eq_spec(&steps[j].1)
    }

    /// Whether the key of step `i` matches the key of step `j`.
    pub open spec fn same_key(steps: Seq<(u64, K, V)>, i: int, j: int) -> bool {
        Self::verdict(steps, i, j) == Ok::<bool, <K as TryPartialEq>::Error>(true)
    }

    /// Whether the keys of `steps` compare as keys should: comparisons
    /// return what `try_eq_spec` says and never fail, matching is reflexive,
    /// symmetric and transitive, and keys that match have the same hash.
    pub open spec fn lawful_keys(steps: Seq<(u64, K, V)>) -> bool {
        &&& K::obeys_try_eq_spec()
        &&& forall|i: int, j: int|
            0 <= i < steps.len() && 0 <= j < steps.len() ==> #[trigger] Self::verdict(steps, i, j) is Ok
        &&& forall|i: int| 0 <= i < steps.len() ==> #[trigger] Self::same_key(steps, i, i)
        &&& forall|i: int, j: int|
            0 <= i < steps.len() && 0 <= j < steps.len() && #[trigger] Self::same_key(steps, i, j)
                ==> Self::same_key(steps, j, i)
        &&& forall|i: int, j: int, l: int|
            0 <= i < steps.len() && 0 <= j < steps.len() && 0 <= l < steps.len()
                && #[trigger] Self::same_key(steps, i, j) && #[trigger] Self::same_key(steps, j, l)
                ==> Self::same_key(steps, i, l)
        &&& forall|i: int, j: int|
            0 <= i < steps.len() && 0 <= j < steps.len() && #[trigger] Self::same_key(steps, i, j)
                ==> steps[i].0 == steps[j].0
    }

    /// Whether `post` is what a successful call of `insert_with_hash` with
    /// the hash, key and value of `step` may leave of `pre`, with the entries
    /// of `pre` filed as they were.
    pub open spec fn stepped(pre: &Self, step: (u64, K, V), post: &Self) -> bool {
        &&& exists|r: Result<Option<V>, <K as TryHash>::Error>|
            r is Ok && #[trigger] Self::inserted(pre, step.0, step.1, step.2, post, r)
        &&& Self::kept_hashes(pre, post)
    }

    /// Whether `states` are the states of a map that starts empty and takes
    /// the insertions `steps` one after the other, each with success.
    pub open spec fn run(states: Seq<Self>, steps: Seq<(u64, K, V)>) -> bool {
        &&& states.len() == steps.len() + 1
        &&& states[0]@.len() == 0
        &&& forall|i: int| 0 <= i < states.len() ==> (#[trigger] states[i]).wf()
        &&& forall|i: int|
            0 <= i < steps.len() ==> Self::stepped(&states[i], #[trigger] steps[i], &states[i + 1])
    }

    /// Whether step `l` is the last of `steps` whose key matches the key of
    /// step `i`.
    pub open spec fn is_latest(steps: Seq<(u64, K, V)>, i: int, l: int) -> bool {
        &&& i <= l < steps.len()
        &&& Self::same_key(steps, i, l)
        &&& forall|later: int| l < later < steps.len() ==> !#[trigger] Self::same_key(steps, i, later)
    }

    /// Among the first `m` steps, the last whose key matches the key of step
    /// `j`.
    spec fn latest_of(steps: Seq<(u64, K, V)>, m: int, j: int) -> int
        decreases m - j,
    {
        if m <= j + 1 {
            j
        } else if Self::same_key(steps, j, m - 1) {
            m - 1
        } else {
            Self::latest_of(steps, m - 1, j)
        }
    }

    /// For each entry that the first `m` steps leave, the step that added
    /// it.
    spec fn origins(steps: Seq<(u64, K, V)>, m: int) -> Seq<int>
        decreases m,
    {
        if m <= 0 {
            Seq::empty()
        } else {
            let before = Self::origins(steps, m - 1);
            if exists|s: int| 0 <= s < before.len() && Self::same_key(steps, m - 1, #[trigger] before[s]) {
                before
            } else {
                before.push(m - 1)
            }
        }
    }

    /// Whether the key of step `j` matches the key of one of the steps that
    /// `origins` names.
    spec fn has_origin(steps: Seq<(u64, K, V)>, m: int, j: int) -> bool {
        exists|s: int|
            0 <= s < Self::origins(steps, m).len() && Self::same_key(
                steps,
                j,
                #[trigger] Self::origins(steps, m)[s],
            )
    }

    /// Whether the entry at `s` is the one that the first `m` steps leave
    /// there: it has the key and the hash of the step that added it, and the
    /// value of the last step whose key matches.
    spec fn holds_slot(state: &Self, steps: Seq<(u64, K, V)>, m: int, s: int) -> bool {
        let from = Self::origins(steps, m)[s];
        &&& state@[s].0 == steps[from].1
        &&& state.hashes()[s] == steps[from].0
        &&& state@[s].1 == steps[Self::latest_of(steps, m, from)].2
    }

    /// Whether `state` holds what the first `m` steps leave: one entry for
    /// each step that brought a new key.
    spec fn holds_run(state: &Self, steps: Seq<(u64, K, V)>, m: int) -> bool {
        &&& state@.len() == Self::origins(steps, m).len()
        &&& state.hashes().len() == Self::origins(steps, m).len()
        &&& forall|s: int|
            0 <= s < Self::origins(steps, m).len() ==> #[trigger] Self::holds_slot(state, steps, m, s)
    }

    /// `latest_of` is the last of the first `m` steps whose key matches.
    proof fn lemma_latest_of(steps: Seq<(u64, K, V)>, m: int, j: int)
        requires
            Self::lawful_keys(steps),
            0 <= j < m <= steps.len(),
        ensures
            j <= Self::latest_of(steps, m, j) < m,
            Self::same_key(steps, j, Self::latest_of(steps, m, j)),
            forall|later: int|
                Self::latest_of(steps, m, j) < later < m ==> !#[trigger] Self::same_key(
                    steps,
                    j,
                    later,
                ),
        decreases m - j,
    {
        if m > j + 1 && !Self::same_key(steps, j, m - 1) {
            Self::lemma_latest_of(steps, m - 1, j);
        }
    }

    /// The steps that `origins` names are steps that came, no two of them
    /// have keys that match, and the key of every step that came matches the
    /// key of one of them.
    proof fn lemma_origins(steps: Seq<(u64, K, V)>, m: int)
        requires
            Self::lawful_keys(steps),
            0 <= m <= steps.len(),
        ensures
            forall|s: int|
                0 <= s < Self::origins(steps, m).len() ==> 0 <= #[trigger] Self::origins(steps, m)[s]
                    < m,
            forall|s: int, t: int|
                0 <= s < Self::origins(steps, m).len() && 0 <= t < Self::origins(steps, m).len() && s
                    != t ==> !Self::same_key(
                    steps,
                    #[trigger] Self::origins(steps, m)[s],
                    #[trigger] Self::origins(steps, m)[t],
                ),
            forall|j: int| 0 <= j < m ==> #[trigger] Self::has_origin(steps, m, j),
        decreases m,
    {
        if m > 0 {
            Self::lemma_origins(steps, m - 1);
            let before = Self::origins(steps, m - 1);
            let now = Self::origins(steps, m);
            if exists|s: int| 0 <= s < before.len() && Self::same_key(steps, m - 1, #[trigger] before[s]) {
                let s = choose|s: int|
                    0 <= s < before.len() && Self::same_key(steps, m - 1, #[trigger] before[s]);
                assert forall|j: int| 0 <= j < m implies #[trigger] Self::has_origin(steps, m, j) by {
                    if j == m - 1 {
                        assert(Self::same_key(steps, j, now[s]));
                    } else {
                        assert(Self::has_origin(steps, m - 1, j));
                        let t = choose|t: int|
                            0 <= t < before.len() && Self::same_key(steps, j, #[trigger] before[t]);
                        assert(Self::same_key(steps, j, now[t]));
                    }
                }
            } else {
                assert forall|s: int, t: int|
                    0 <= s < now.len() && 0 <= t < now.len() && s != t implies !Self::same_key(
                    steps,
                    #[trigger] now[s],
                    #[trigger] now[t],
                ) by {
                    if s == before.len() {
                        assert(now[t] == before[t]);
                        assert(!Self::same_key(steps, m - 1, before[t]));
                    } else if t == before.len() {
                        assert(now[s] == before[s]);
                        assert(!Self::same_key(steps, m - 1, before[s]));
                        if Self::same_key(steps, before[s], m - 1) {
                            assert(Self::same_key(steps, m - 1, before[s]));
                        }
                    } else {
                        assert(now[s] == before[s] && now[t] == before[t]);
                    }
                }
                assert forall|j: int| 0 <= j < m implies #[trigger] Self::has_origin(steps, m, j) by {
                    if j == m - 1 {
                        assert(now[before.len() as int] == m - 1);
                        assert(Self::same_key(steps, j, now[before.len() as int]));
                    } else {
                        assert(Self::has_origin(steps, m - 1, j));
                        let t = choose|t: int|
                            0 <= t < before.len() && Self::same_key(steps, j, #[trigger] before[t]);
                        assert(now[t] == before[t]);
                        assert(Self::same_key(steps, j, now[t]));
                    }
                }
            }
        }
    }

    /// A comparison that does not fail and does not match tells the keys
    /// apart.
    proof fn lemma_unlike(steps: Seq<(u64, K, V)>, i: int, j: int)
        requires
            Self::verdict(steps, i, j) is Ok,
            !Self::same_key(steps, i, j),
        ensures
            Self::verdict(steps, i, j) == Ok::<bool, <K as TryPartialEq>::Error>(false),
    {
        let verdict = Self::verdict(steps, i, j);
        let matched = verdict->Ok_0;
        assert(verdict == Ok::<bool, <K as TryPartialEq>::Error>(matched));
    }

    /// One more step of a run leaves what `holds_run` says.
    proof fn lemma_step(pre: &Self, post: &Self, steps: Seq<(u64, K, V)>, m: int)
        requires
            Self::lawful_keys(steps),
            0 <= m < steps.len(),
            pre.wf(),
            post.wf(),
            Self::holds_run(pre, steps, m),
            Self::stepped(pre, steps[m], post),
        ensures
            Self::holds_run(post, steps, m + 1),
    {
        let from = Self::origins(steps, m);
        let now = Self::origins(steps, m + 1);
        let hash = steps[m].0;
        let key = steps[m].1;
        let value = steps[m].2;
        Self::lemma_origins(steps, m);
        pre.lemma_valid();
        post.lemma_valid();
        assert forall|s: int| 0 <= s < from.len() implies 0 <= from[s] < m && pre@[s].0
            == steps[from[s]].1 && pre.hashes()[s] == steps[from[s]].0 && pre@[s].1
            == steps[Self::latest_of(steps, m, from[s])].2 && #[trigger] key.try_eq_spec(&pre@[s].0)
            == Self::verdict(steps, m, from[s]) by {
            assert(Self::holds_slot(pre, steps, m, s));
        }
        let r = choose|r: Result<Option<V>, <K as TryHash>::Error>|
            r is Ok && #[trigger] Self::inserted(pre, hash, key, value, post, r);
        if exists|s: int| 0 <= s < from.len() && Self::same_key(steps, m, #[trigger] from[s]) {
            let at = choose|s: int| 0 <= s < from.len() && Self::same_key(steps, m, #[trigger] from[s]);
            assert(Self::same_key(steps, from[at], m));
            assert forall|other: int|
                0 <= other < pre@.len() && other != at && pre.hashes()[other]
                    == hash implies key.try_eq_spec(&(#[trigger] pre@[other]).0) == Ok::<
                bool,
                <K as TryPartialEq>::Error,
            >(false) by {
                assert(key.try_eq_spec(&pre@[other].0) == Self::verdict(steps, m, from[other]));
                assert(Self::verdict(steps, m, from[other]) is Ok);
                if Self::same_key(steps, m, from[other]) {
                    assert(Self::same_key(steps, from[at], from[other]));
                }
                Self::lemma_unlike(steps, m, from[other]);
            }
            assert(key.try_eq_spec(&pre@[at].0) == Self::verdict(steps, m, from[at]));
            pre.lemma_looks_up_one(hash, &key, at);
            Self::lemma_inserted_where(pre, hash, key, value, Ok(Some(at)), post, r);
            assert(now == from);
            assert forall|s: int| 0 <= s < now.len() implies #[trigger] Self::holds_slot(
                post,
                steps,
                m + 1,
                s,
            ) by {
                assert(key.try_eq_spec(&pre@[s].0) == Self::verdict(steps, m, from[s]));
                if s != at {
                    if Self::same_key(steps, from[s], m) {
                        assert(Self::same_key(steps, from[s], from[at]));
                    }
                }
            }
        } else {
            assert forall|slot: int|
                0 <= slot < pre@.len() && pre.hashes()[slot] == hash implies key.try_eq_spec(
                &(#[trigger] pre@[slot]).0,
            ) == Ok::<bool, <K as TryPartialEq>::Error>(false) by {
                assert(key.try_eq_spec(&pre@[slot].0) == Self::verdict(steps, m, from[slot]));
                assert(Self::verdict(steps, m, from[slot]) is Ok);
                assert(!Self::same_key(steps, m, from[slot]));
                Self::lemma_unlike(steps, m, from[slot]);
            }
            pre.lemma_looks_up_none(hash, &key);
            Self::lemma_inserted_where(pre, hash, key, value, Ok(None), post, r);
            assert(post.hashes() =~= pre.hashes().push(hash)) by {
                assert forall|slot: int| 0 <= slot < pre.hashes().len() implies post.hashes()[slot]
                    == pre.hashes()[slot] by {
                    assert(post.hashes().take(pre.hashes().len() as int)[slot]
                        == post.hashes()[slot]);
                }
            }
            assert(now == from.push(m));
            assert(Self::same_key(steps, m, m));
            assert forall|s: int| 0 <= s < now.len() implies #[trigger] Self::holds_slot(
                post,
                steps,
                m + 1,
                s,
            ) by {
                if s < from.len() {
                    assert(key.try_eq_spec(&pre@[s].0) == Self::verdict(steps, m, from[s]));
                    if Self::same_key(steps, from[s], m) {
                        assert(Self::same_key(steps, m, from[s]));
                    }
                }
            }
        }
    }

    /// Every state of a run holds what `holds_run` says.
    proof fn lemma_run(states: Seq<Self>, steps: Seq<(u64, K, V)>, m: int)
        requires
            Self::run(states, steps),
            Self::lawful_keys(steps),
            0 <= m <= steps.len(),
        ensures
            Self::holds_run(&states[m], steps, m),
        decreases m,
    {
        if m > 0 {
            Self::lemma_run(states, steps, m - 1);
            assert(Self::stepped(&states[m - 1], steps[m - 1], &states[m - 1 + 1]));
            Self::lemma_step(&states[m - 1], &states[m], steps, m - 1);
        } else {
            states[0].lemma_valid();
        }
    }

    /// Inserting, then getting: after a run of successful insertions into
    /// a map that was empty, with keys that compare as `lawful_keys` asks,
    /// `get_key_value_with_hash` finds for the key of any step an entry, and
    /// its value is the one that the last step with a matching key has
    /// inserted.
    pub proof fn law_round_trip(
        states: Seq<Self>,
        steps: Seq<(u64, K, V)>,
        i: int,
        got: Result<Option<(&K, &V)>, <K as TryPartialEq>::Error>,
    )
        requires
            Self::run(states, steps),
            Self::lawful_keys(steps),
            0 <= i < steps.len(),
            states.last().fetched(steps[i].0, &steps[i].1, got),
        ensures
            exists|l: int| #[trigger]
                Self::is_latest(steps, i, l) && (got matches Ok(Some(entry)) && *entry.1
                    == steps[l].2),
    {
        let n = steps.len() as int;
        let end = states.last();
        let from = Self::origins(steps, n);
        let hash = steps[i].0;
        let key = steps[i].1;
        Self::lemma_run(states, steps, n);
        Self::lemma_origins(steps, n);
        end.lemma_valid();
        assert(Self::has_origin(steps, n, i));
        let slot = choose|s: int| 0 <= s < from.len() && Self::same_key(steps, i, #[trigger] from[s]);
        let l = Self::latest_of(steps, n, from[slot]);
        Self::lemma_latest_of(steps, n, from[slot]);
        assert forall|s: int| 0 <= s < from.len() implies 0 <= from[s] < n && end@[s].0
            == steps[from[s]].1 && end.hashes()[s] == steps[from[s]].0 && end@[s].1
            == steps[Self::latest_of(steps, n, from[s])].2 && #[trigger] key.try_eq_spec(&end@[s].0)
            == Self::verdict(steps, i, from[s]) by {
            assert(Self::holds_slot(&end, steps, n, s));
        }
        assert(Self::same_key(steps, from[slot], i));
        assert forall|other: int|
            0 <= other < end@.len() && other != slot && end.hashes()[other]
                == hash implies key.try_eq_spec(&(#[trigger] end@[other]).0) == Ok::<
            bool,
            <K as TryPartialEq>::Error,
        >(false) by {
            assert(key.try_eq_spec(&end@[other].0) == Self::verdict(steps, i, from[other]));
            if Self::same_key(steps, i, from[other]) {
                assert(Self::same_key(steps, from[slot], from[other]));
            }
            Self::lemma_unlike(steps, i, from[other]);
        }
        assert(key.try_eq_spec(&end@[slot].0) == Self::verdict(steps, i, from[slot]));
        end.lemma_looks_up_one(hash, &key, slot);
        end.lemma_fetched_where(hash, &key, Ok(Some(slot)), got);
        assert(Self::is_latest(steps, i, l)) by {
            assert(Self::same_key(steps, i, l));
            if l < i {
                assert(!Self::same_key(steps, from[slot], i));
            }
            assert forall|later: int| l < later < steps.len() implies !#[trigger] Self::same_key(
                steps,
                i,
                later,
            ) by {
                if Self::same_key(steps, i, later) {
                    assert(Self::same_key(steps, from[slot], later));
                }
            }
        }
    }

    /// Growth keeps the entries: after a run of successful insertions into
    /// a map that was empty, with keys that compare as `lawful_keys` asks and
    /// of which no two match, the map holds one entry for each step and has
    /// room for as many, however often it has grown, and
    /// `get_key_value_with_hash` finds for the key of any step the entry that
    /// the step has added.
    pub proof fn law_growth_keeps_entries(
        states: Seq<Self>,
        steps: Seq<(u64, K, V)>,
        i: int,
        got: Result<Option<(&K, &V)>, <K as TryPartialEq>::Error>,
    )
        requires
            Self::run(states, steps),
            Self::lawful_keys(steps),
            forall|a: int, b: int|
                0 <= a < steps.len() && 0 <= b < steps.len() && a != b ==> !#[trigger] Self::same_key(
                    steps,
                    a,
                    b,
                ),
            0 <= i < steps.len(),
            states.last().fetched(steps[i].0, &steps[i].1, got),
        ensures
            states.last().spec_len() == steps.len(),
            states.last().spec_capacity() >= steps.len(),
            states.last()@[i] == (steps[i].1, steps[i].2),
            got matches Ok(Some(entry)) && *entry.0 == steps[i].1 && *entry.1 == steps[i].2,
    {
        let n = steps.len() as int;
        let end = states.last();
        let key = steps[i].1;
        Self::lemma_run(states, steps, n);
        Self::lemma_distinct_origins(steps, n);
        Self::lemma_latest_of(steps, n, i);
        end.lemma_valid();
        assert forall|s: int| 0 <= s < n implies end@[s].0 == steps[s].1 && end.hashes()[s]
            == steps[s].0 && end@[s].1 == steps[Self::latest_of(steps, n, s)].2
            && #[trigger] key.try_eq_spec(&end@[s].0) == Self::verdict(steps, i, s) by {
            assert(Self::holds_slot(&end, steps, n, s));
        }
        assert forall|other: int|
            0 <= other < end@.len() && other != i && end.hashes()[other]
                == steps[i].0 implies key.try_eq_spec(&(#[trigger] end@[other]).0) == Ok::<
            bool,
            <K as TryPartialEq>::Error,
        >(false) by {
            assert(key.try_eq_spec(&end@[other].0) == Self::verdict(steps, i, other));
            Self::lemma_unlike(steps, i, other);
        }
        assert(key.try_eq_spec(&end@[i].0) == Self::verdict(steps, i, i));
        end.lemma_looks_up_one(steps[i].0, &key, i);
        end.lemma_fetched_where(steps[i].0, &key, Ok(Some(i)), got);
    }

    /// Where no two keys match, every step adds an entry.
    proof fn lemma_distinct_origins(steps: Seq<(u64, K, V)>, m: int)
        requires
            forall|a: int, b: int|
                0 <= a < steps.len() && 0 <= b < steps.len() && a != b ==> !#[trigger] Self::same_key(
                    steps,
                    a,
                    b,
                ),
            0 <= m <= steps.len(),
        ensures
            Self::origins(steps, m).len() == m,
            forall|s: int| 0 <= s < m ==> #[trigger] Self::origins(steps, m)[s] == s,
        decreases m,
    {
        if m > 0 {
            Self::lemma_distinct_origins(steps, m - 1);
        }
    }
}

} // verus!
