//! Walks: how a lookup goes through the entries that a probe turns up.

use crate::try_traits::TryPartialEq;
use vstd::prelude::*;

verus! {

/// The positions among `raw` whose recorded hash is `hash`, in the order of
/// `raw`.
pub open spec fn filed_under(raw: Seq<usize>, hashes: Seq<u64>, hash: u64) -> Seq<int>
    decreases raw.len(),
{
    if raw.len() == 0 {
        Seq::empty()
    } else if hashes[raw[0] as int] == hash {
        seq![raw[0] as int] + filed_under(raw.skip(1), hashes, hash)
    } else {
        filed_under(raw.skip(1), hashes, hash)
    }
}

/// The outcome of comparing `key` against the keys at `slots`, one after the
/// other: the first comparison that fails ends the walk with its error, the
/// first that matches ends it with that slot, and a walk that runs out of
/// slots has found nothing.
pub open spec fn walk<Q: TryPartialEq<K> + ?Sized, K, V>(
    key: &Q,
    entries: Seq<(K, V)>,
    slots: Seq<int>,
) -> Result<Option<int>, Q::Error>
    decreases slots.len(),
{
    if slots.len() == 0 {
        Ok(None)
    } else {
        match key.try_eq_spec(&entries[slots[0]].0) {
            Ok(false) => walk(key, entries, slots.skip(1)),
            Ok(true) => Ok(Some(slots[0])),
            Err(e) => Err(e),
        }
    }
}

/// The outcome of a walk, with the slot as a position.
pub open spec fn position<E>(at: Result<Option<int>, E>) -> Result<Option<usize>, E> {
    match at {
        Ok(Some(slot)) => Ok(Some(slot as usize)),
        Ok(None) => Ok(None),
        Err(e) => Err(e),
    }
}

/// `filed_under` keeps, in order and as often as they come, exactly the
/// positions whose recorded hash is `hash`.
pub proof fn lemma_filed_under(raw: Seq<usize>, hashes: Seq<u64>, hash: u64)
    requires
        forall|j: int| 0 <= j < raw.len() ==> (#[trigger] raw[j]) < hashes.len(),
    ensures
        forall|j: int|
            0 <= j < filed_under(raw, hashes, hash).len() ==> 0 <= #[trigger] filed_under(
                raw,
                hashes,
                hash,
            )[j] < hashes.len() && hashes[filed_under(raw, hashes, hash)[j]] == hash
                && raw.contains(filed_under(raw, hashes, hash)[j] as usize),
        forall|slot: usize|
            raw.contains(slot) && hashes[slot as int] == hash ==> filed_under(
                raw,
                hashes,
                hash,
            ).contains(slot as int),
        raw.no_duplicates() ==> filed_under(raw, hashes, hash).no_duplicates(),
    decreases raw.len(),
{
    if raw.len() > 0 {
        let tail = raw.skip(1);
        lemma_filed_under(tail, hashes, hash);
        let kept = filed_under(raw, hashes, hash);
        let kept_tail = filed_under(tail, hashes, hash);
        let first = hashes[raw[0] as int] == hash;
        assert forall|j: int| 0 <= j < kept.len() implies 0 <= #[trigger] kept[j] < hashes.len()
            && hashes[kept[j]] == hash && raw.contains(kept[j] as usize) by {
            if !first || j > 0 {
                let i = choose|i: int| 0 <= i < tail.len() && tail[i] == kept[j] as usize;
                assert(raw[i + 1] == kept[j] as usize);
            }
        }
        assert forall|slot: usize| raw.contains(slot) && hashes[slot as int] == hash implies kept.contains(
            slot as int,
        ) by {
            let i = choose|i: int| 0 <= i < raw.len() && raw[i] == slot;
            if i == 0 {
                assert(kept[0] == slot as int);
            } else {
                assert(tail[i - 1] == slot);
                let j = choose|j: int| 0 <= j < kept_tail.len() && kept_tail[j] == slot as int;
                if first {
                    assert(kept[j + 1] == slot as int);
                }
            }
        }
        if raw.no_duplicates() && first {
            assert forall|i: int, j: int| 0 <= i < kept.len() && 0 <= j < kept.len() && i != j implies kept[i]
                != kept[j] by {
                if i == 0 {
                    let t = choose|t: int| 0 <= t < tail.len() && tail[t] == kept[j] as usize;
                    assert(raw[t + 1] != raw[0]);
                } else if j == 0 {
                    let t = choose|t: int| 0 <= t < tail.len() && tail[t] == kept[i] as usize;
                    assert(raw[t + 1] != raw[0]);
                }
            }
        }
    }
}

/// A walk over slots whose keys all compare unequal to `key` finds nothing.
pub proof fn lemma_walk_none<Q: TryPartialEq<K> + ?Sized, K, V>(
    key: &Q,
    entries: Seq<(K, V)>,
    slots: Seq<int>,
)
    requires
        forall|j: int|
            0 <= j < slots.len() ==> key.try_eq_spec(&entries[#[trigger] slots[j]].0) == Ok::<
                bool,
                Q::Error,
            >(false),
    ensures
        walk(key, entries, slots) == Ok::<Option<int>, Q::Error>(None),
    decreases slots.len(),
{
    if slots.len() > 0 {
        assert forall|j: int| 0 <= j < slots.skip(1).len() implies key.try_eq_spec(
            &entries[#[trigger] slots.skip(1)[j]].0,
        ) == Ok::<bool, Q::Error>(false) by {
            assert(slots.skip(1)[j] == slots[j + 1]);
        }
        lemma_walk_none(key, entries, slots.skip(1));
    }
}

/// A walk over slots of which one has a key that matches `key`, while the
/// keys of all others compare unequal to it, finds that slot.
pub proof fn lemma_walk_one<Q: TryPartialEq<K> + ?Sized, K, V>(
    key: &Q,
    entries: Seq<(K, V)>,
    slots: Seq<int>,
    at: int,
)
    requires
        0 <= at < slots.len(),
        key.try_eq_spec(&entries[slots[at]].0) == Ok::<bool, Q::Error>(true),
        forall|j: int|
            0 <= j < slots.len() && j != at ==> key.try_eq_spec(&entries[#[trigger] slots[j]].0)
                == Ok::<bool, Q::Error>(false),
    ensures
        walk(key, entries, slots) == Ok::<Option<int>, Q::Error>(Some(slots[at])),
    decreases slots.len(),
{
    if at > 0 {
        assert forall|j: int| 0 <= j < slots.skip(1).len() && j != at - 1 implies key.try_eq_spec(
            &entries[#[trigger] slots.skip(1)[j]].0,
        ) == Ok::<bool, Q::Error>(false) by {
            assert(slots.skip(1)[j] == slots[j + 1]);
        }
        lemma_walk_one(key, entries, slots.skip(1), at - 1);
    }
}

/// What the outcome of a walk tells of the slots: a slot that was found has
/// a key that matches, after a walk that found nothing every key compares
/// unequal, and the error of a walk is the error of comparing with one of the
/// keys.
pub proof fn lemma_walk_tells<Q: TryPartialEq<K> + ?Sized, K, V>(
    key: &Q,
    entries: Seq<(K, V)>,
    slots: Seq<int>,
)
    ensures
        match walk(key, entries, slots) {
            Ok(Some(slot)) => slots.contains(slot) && key.try_eq_spec(&entries[slot].0) == Ok::<
                bool,
                Q::Error,
            >(true),
            Ok(None) => forall|j: int|
                0 <= j < slots.len() ==> key.try_eq_spec(&entries[#[trigger] slots[j]].0) == Ok::<
                    bool,
                    Q::Error,
                >(false),
            Err(e) => exists|j: int|
                0 <= j < slots.len() && key.try_eq_spec(&entries[#[trigger] slots[j]].0) == Err::<
                    bool,
                    Q::Error,
                >(e),
        },
    decreases slots.len(),
{
    if slots.len() > 0 {
        let tail = slots.skip(1);
        lemma_walk_tells(key, entries, tail);
        match key.try_eq_spec(&entries[slots[0]].0) {
            Ok(false) => {
                match walk(key, entries, tail) {
                    Ok(Some(slot)) => {
                        let j = choose|j: int| 0 <= j < tail.len() && tail[j] == slot;
                        assert(slots[j + 1] == slot);
                    },
                    Ok(None) => {
                        assert forall|j: int| 0 <= j < slots.len() implies key.try_eq_spec(
                            &entries[#[trigger] slots[j]].0,
                        ) == Ok::<bool, Q::Error>(false) by {
                            if j > 0 {
                                assert(tail[j - 1] == slots[j]);
                            }
                        }
                    },
                    Err(e) => {
                        let j = choose|j: int|
                            0 <= j < tail.len() && key.try_eq_spec(&entries[#[trigger] tail[j]].0)
                                == Err::<bool, Q::Error>(e);
                        assert(slots[j + 1] == tail[j]);
                    },
                }
            },
            Ok(true) => {
                assert(slots.contains(slots[0]));
            },
            Err(e) => {},
        }
    }
}

} // verus!
