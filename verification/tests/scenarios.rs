use std::convert::Infallible;
use std::hash::{BuildHasher, Hasher};
use try_hashmap::{TryEq, TryHash, TryHashMap, TryPartialEq};

/// What went wrong with a `Label`.
#[derive(Debug, PartialEq, Eq, Clone, Copy)]
enum LabelError {
    Hash,
    Compare,
}

/// A key that cannot be hashed when it reads "bad" and cannot be compared
/// when it reads "odd".
#[derive(Debug, Clone, Copy)]
struct Label(&'static str);

impl TryPartialEq for Label {
    type Error = LabelError;

    fn try_eq(&self, rhs: &Label) -> Result<bool, LabelError> {
        if self.0 == "odd" || rhs.0 == "odd" {
            Err(LabelError::Compare)
        } else {
            Ok(self.0 == rhs.0)
        }
    }
}

impl TryEq for Label {}

impl TryHash for Label {
    type Error = LabelError;

    fn try_hash<H: Hasher>(&self, hasher: &mut H) -> Result<(), LabelError> {
        if self.0 == "bad" {
            Err(LabelError::Hash)
        } else {
            hasher.write(self.0.as_bytes());
            Ok(())
        }
    }
}

/// A hash builder under which every key has the same hash.
#[derive(Clone, Copy, Default)]
struct OneBucket;

struct OneBucketHasher;

impl Hasher for OneBucketHasher {
    fn write(&mut self, _bytes: &[u8]) {}

    fn finish(&self) -> u64 {
        7
    }
}

impl BuildHasher for OneBucket {
    type Hasher = OneBucketHasher;

    fn build_hasher(&self) -> OneBucketHasher {
        OneBucketHasher
    }
}

#[test]
fn insert_twice_then_get() {
    let mut m: TryHashMap<&'static str, i32> = TryHashMap::new();
    assert_eq!(m.insert("a", 1), Ok::<_, Infallible>(None));
    assert_eq!(m.insert("a", 2), Ok(Some(1)));
    assert_eq!(m.get(&"a"), Ok(Some(&2)));
    assert_eq!(m.len(), 1);
}

#[test]
fn failing_hash_leaves_map_empty() {
    let mut m: TryHashMap<Label, i32> = TryHashMap::new();
    assert_eq!(m.insert(Label("bad"), 1), Err(LabelError::Hash));
    assert_eq!(m.len(), 0);
    assert!(m.is_empty());
    assert_eq!(m.capacity(), 0);
}

#[test]
fn ten_keys_from_capacity_zero() {
    let mut m: TryHashMap<u32, u32> = TryHashMap::with_capacity(0);
    assert_eq!(m.capacity(), 0);
    for k in 0..10u32 {
        assert_eq!(m.insert(k, k), Ok(None));
    }
    assert_eq!(m.len(), 10);
    assert!(m.capacity() >= 10);
    for k in 0..10u32 {
        assert_eq!(m.get(&k), Ok(Some(&k)));
    }
}

#[test]
fn remove_entry_then_miss() {
    let mut m: TryHashMap<&'static str, i32> = TryHashMap::new();
    assert_eq!(m.insert("x", 10), Ok(None));
    assert_eq!(m.remove_entry(&"x"), Ok(Some(("x", 10))));
    assert_eq!(m.get(&"x"), Ok(None));
    assert_eq!(m.len(), 0);
}

#[test]
fn colliding_keys_coexist() {
    let mut m: TryHashMap<&'static str, i32, OneBucket> = TryHashMap::with_hasher(OneBucket);
    assert_eq!(m.hash_key(&"A"), Ok(7));
    assert_eq!(m.hash_key(&"B"), Ok(7));
    assert_eq!(m.insert("A", 1), Ok(None));
    assert_eq!(m.insert("B", 2), Ok(None));
    assert_eq!(m.len(), 2);
    assert_eq!(m.get(&"A"), Ok(Some(&1)));
    assert_eq!(m.get(&"B"), Ok(Some(&2)));
}

#[test]
fn failing_hash_is_reported_by_every_operation() {
    let mut m: TryHashMap<Label, i32> = TryHashMap::new();
    assert_eq!(m.insert(Label("fine"), 1), Ok(None));
    assert_eq!(m.hash_key(&Label("bad")), Err(LabelError::Hash));
    assert_eq!(m.get(&Label("bad")), Err(LabelError::Hash));
    assert!(matches!(m.get_key_value(&Label("bad")), Err(LabelError::Hash)));
    assert!(matches!(m.get_mut(&Label("bad")), Err(LabelError::Hash)));
    assert!(matches!(m.get_key_value_mut(&Label("bad")), Err(LabelError::Hash)));
    assert_eq!(m.remove(&Label("bad")), Err(LabelError::Hash));
    assert!(matches!(m.remove_entry(&Label("bad")), Err(LabelError::Hash)));
    assert_eq!(m.insert(Label("bad"), 2), Err(LabelError::Hash));
    assert_eq!(m.len(), 1);
    assert_eq!(m.get(&Label("fine")), Ok(Some(&1)));
}

#[test]
fn failing_comparison_is_reported_and_changes_nothing() {
    let mut m: TryHashMap<Label, i32, OneBucket> = TryHashMap::with_capacity_and_hasher(8, OneBucket);
    assert_eq!(m.insert(Label("odd"), 1), Ok(None));
    let capacity = m.capacity();
    assert_eq!(m.insert(Label("even"), 2), Err(LabelError::Compare));
    assert_eq!(m.get(&Label("even")), Err(LabelError::Compare));
    assert!(matches!(m.get_key_value(&Label("even")), Err(LabelError::Compare)));
    assert!(matches!(m.get_mut(&Label("even")), Err(LabelError::Compare)));
    assert!(matches!(m.get_key_value_mut(&Label("even")), Err(LabelError::Compare)));
    assert_eq!(m.remove(&Label("even")), Err(LabelError::Compare));
    assert!(matches!(m.remove_entry(&Label("even")), Err(LabelError::Compare)));
    assert_eq!(m.len(), 1);
    assert_eq!(m.capacity(), capacity);
    assert!(matches!(m.get_key_value_with_hash(8, &Label("even")), Ok(None)));
}
