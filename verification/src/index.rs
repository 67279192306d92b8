//! The open-addressing index of the map.
//!
//! The index is a `hashbrown::HashTable<usize>`. It stores, filed under a
//! 64-bit hash, the positions at which the map keeps its entries. The
//! functions of this module that call into `hashbrown` are not proved: their
//! contracts state what the `hashbrown` source shows, and the map's proofs
//! rest on them.

use hashbrown::hash_table::IterHash;
use hashbrown::HashTable;
use vstd::prelude::*;

verus! {

/// The largest limit an index is ever made with. `hashbrown` panics where a
/// table would not fit in `isize::MAX` bytes. A table made for a limit takes
/// the next power of two above eight sevenths of the limit as its number of
/// buckets, and for each bucket a position and a control byte. Where removals
/// have used up its room it makes room anew, and while it holds no more
/// positions than its limit it doubles its buckets at most once for that. Up
/// to this limit it therefore takes less than a third of `usize::MAX` bytes.
pub const MAX_INDEX_CAPACITY: usize = usize::MAX / 128;

/// A `hashbrown::HashTable<usize>`. The table has a parameter for its
/// allocator that cannot be named from outside `hashbrown`, so it is kept
/// behind this struct, out of the verifier's sight.
#[verifier::external_body]
pub struct SlotIndex {
    table: HashTable<usize>,
}

/// `hashbrown::hash_table::IterHash`, the iterator that `HashTable::iter_hash`
/// returns.
#[verifier::external_type_specification]
#[verifier::external_body]
#[verifier::reject_recursive_types(T)]
pub struct ExIterHash<'a, T>(IterHash<'a, T>);

/// What the table holds: each stored position, with the hash under which it
/// was inserted. No position is stored twice: `index_insert` and
/// `index_retarget` ask that the position they store is not yet held.
pub uninterp spec fn index_slots(ix: SlotIndex) -> Map<usize, u64>;

/// The limit that the table was made with: the capacity that was handed to
/// `HashTable::with_capacity`. `index_insert` asks that the table holds fewer
/// positions than its limit, so that it never holds more.
pub uninterp spec fn index_limit(ix: SlotIndex) -> nat;

/// The positions that an `IterHash` has yet to yield, in order.
pub uninterp spec fn cursor_rest(cursor: IterHash<usize>) -> Seq<usize>;

/// The model of a table that holds nothing.
pub open spec fn no_slots() -> Map<usize, u64> {
    Map::empty()
}

/// `HashTable::with_capacity`: an empty table, made to hold `limit`
/// positions. For a limit of zero nothing is allocated.
#[verifier::external_body]
pub(crate) fn index_with_capacity(limit: usize) -> (ix: SlotIndex)
    requires
        limit <= MAX_INDEX_CAPACITY,
    ensures
        index_slots(ix) == no_slots(),
        index_limit(ix) == limit,
{
    SlotIndex { table: HashTable::with_capacity(limit) }
}

/// `HashTable::clear`: afterwards the table holds nothing.
#[verifier::external_body]
pub(crate) fn index_clear(ix: &mut SlotIndex)
    ensures
        index_slots(*final(ix)) == no_slots(),
        index_limit(*final(ix)) == index_limit(*old(ix)),
{
    ix.table.clear()
}

/// `HashTable::iter_hash`: starts a probe for `hash`. The probe yields
/// stored positions only and none of them twice, and it leaves out none that
/// was inserted under `hash`; it may yield positions that were inserted under
/// another hash. The order in which they come is the table's own.
#[verifier::external_body]
pub(crate) fn index_probe_start(ix: &SlotIndex, hash: u64) -> (cursor: IterHash<'_, usize>)
    ensures
        cursor_rest(cursor).no_duplicates(),
        forall|j: int|
            0 <= j < cursor_rest(cursor).len() ==> index_slots(*ix).contains_key(
                #[trigger] cursor_rest(cursor)[j],
            ),
        forall|slot: usize|
            index_slots(*ix).contains_key(slot) && #[trigger] index_slots(*ix)[slot] == hash
                ==> cursor_rest(cursor).contains(slot),
{
    ix.table.iter_hash(hash)
}

/// `IterHash::next`: yields the next position of the probe, if one is left.
#[verifier::external_body]
pub(crate) fn cursor_next(cursor: &mut IterHash<'_, usize>) -> (next: Option<usize>)
    ensures
        match next {
            Some(slot) => cursor_rest(*old(cursor)).len() > 0 && slot == cursor_rest(
                *old(cursor),
            )[0] && cursor_rest(*final(cursor)) == cursor_rest(*old(cursor)).skip(1),
            None => cursor_rest(*old(cursor)).len() == 0 && cursor_rest(*final(cursor)).len() == 0,
        },
{
    cursor.next().copied()
}

/// Whether a stored position is the one looked for.
pub(crate) fn is_slot(stored: &usize, slot: usize) -> (same: bool)
    ensures
        same == (*stored == slot),
{
    *stored == slot
}

/// The hash that `hashes` records for a stored position.
pub(crate) fn hash_of_slot(hashes: &Vec<u64>, stored: &usize) -> (hash: u64)
    requires
        *stored < hashes.len(),
    ensures
        hash == hashes[*stored as int],
{
    hashes[*stored]
}

/// `HashTable::insert_unique`, on a table that holds fewer positions than
/// its limit: stores `slot` under `hash`. Where removals have used up the
/// room of the table it makes room anew before it stores `slot`, and asks the
/// function handed to it for the hash of each position stored; `hashes` holds
/// these hashes.
#[verifier::external_body]
pub(crate) fn index_insert(ix: &mut SlotIndex, hash: u64, slot: usize, hashes: &Vec<u64>)
    requires
        !index_slots(*old(ix)).contains_key(slot),
        index_slots(*old(ix)).len() < index_limit(*old(ix)) <= MAX_INDEX_CAPACITY,
        forall|stored: usize| #[trigger]
            index_slots(*old(ix)).contains_key(stored) ==> stored < hashes.len() && hashes[stored as int]
                == index_slots(*old(ix))[stored],
    ensures
        index_slots(*final(ix)) == index_slots(*old(ix)).insert(slot, hash),
        index_limit(*final(ix)) == index_limit(*old(ix)),
{
    ix.table.insert_unique(hash, slot, |stored| hash_of_slot(hashes, stored));
}

/// `HashTable::find_entry` and `OccupiedEntry::remove`: takes out `slot`,
/// which is stored under `hash`.
#[verifier::external_body]
pub(crate) fn index_remove(ix: &mut SlotIndex, hash: u64, slot: usize)
    requires
        index_slots(*old(ix)).contains_pair(slot, hash),
    ensures
        index_slots(*final(ix)) == index_slots(*old(ix)).remove(slot),
        index_limit(*final(ix)) == index_limit(*old(ix)),
{
    if let Ok(entry) = ix.table.find_entry(hash, |stored| is_slot(stored, slot)) {
        entry.remove();
    }
}

/// `HashTable::find_mut`: the place that holds `from`, which is stored under
/// `hash`, holds `to` afterwards, under the same hash.
#[verifier::external_body]
pub(crate) fn index_retarget(ix: &mut SlotIndex, hash: u64, from: usize, to: usize)
    requires
        index_slots(*old(ix)).contains_pair(from, hash),
        !index_slots(*old(ix)).contains_key(to),
    ensures
        index_slots(*final(ix)) == index_slots(*old(ix)).remove(from).insert(to, hash),
        index_limit(*final(ix)) == index_limit(*old(ix)),
{
    if let Some(stored) = ix.table.find_mut(hash, |stored| is_slot(stored, from)) {
        *stored = to;
    }
}

} // verus!
