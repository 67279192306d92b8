use std::cell::Cell;
use std::collections::HashMap;
use std::hash::{BuildHasher, Hasher};
use std::rc::Rc;
use try_hashmap::{TryEq, TryHash, TryHashMap, TryPartialEq};

/// A hash builder under which a key's hash is the sum of its bytes, modulo
/// four: many keys collide.
#[derive(Clone, Copy, Default)]
struct FourBuckets;

struct FourBucketsHasher(u64);

impl Hasher for FourBucketsHasher {
    fn write(&mut self, bytes: &[u8]) {
        for b in bytes {
            self.0 = self.0.wrapping_add(u64::from(*b));
        }
    }

    fn finish(&self) -> u64 {
        self.0 % 4
    }
}

impl BuildHasher for FourBuckets {
    type Hasher = FourBucketsHasher;

    fn build_hasher(&self) -> FourBucketsHasher {
        FourBucketsHasher(0)
    }
}

/// The error of a key that has turned sour.
#[derive(Debug, PartialEq, Eq)]
struct Sour;

/// A key that cannot be hashed while its flag is set.
#[derive(Debug, Clone)]
struct Moody {
    id: u32,
    sour: Rc<Cell<bool>>,
}

impl TryPartialEq for Moody {
    type Error = Sour;

    fn try_eq(&self, rhs: &Moody) -> Result<bool, Sour> {
        Ok(self.id == rhs.id)
    }
}

impl TryEq for Moody {}

impl TryHash for Moody {
    type Error = Sour;

    fn try_hash<H: Hasher>(&self, hasher: &mut H) -> Result<(), Sour> {
        if self.sour.get() {
            Err(Sour)
        } else {
            hasher.write_u32(self.id);
            Ok(())
        }
    }
}

#[test]
fn round_trip_returns_the_latest_value() {
    let steps: [(u32, &str); 9] = [
        (1, "a"),
        (2, "b"),
        (3, "c"),
        (1, "d"),
        (4, "e"),
        (2, "f"),
        (5, "g"),
        (1, "h"),
        (6, "i"),
    ];
    let mut m: TryHashMap<u32, &str> = TryHashMap::new();
    for (k, v) in steps {
        assert!(m.insert(k, v).is_ok());
    }
    assert_eq!(m.len(), 6);
    assert_eq!(m.get(&1), Ok(Some(&"h")));
    assert_eq!(m.get(&2), Ok(Some(&"f")));
    assert_eq!(m.get(&3), Ok(Some(&"c")));
    assert_eq!(m.get(&4), Ok(Some(&"e")));
    assert_eq!(m.get(&5), Ok(Some(&"g")));
    assert_eq!(m.get(&6), Ok(Some(&"i")));
    assert_eq!(m.get(&7), Ok(None));
}

#[test]
fn overwrite_returns_the_previous_value() {
    let mut m: TryHashMap<u64, u64> = TryHashMap::with_capacity(4);
    assert_eq!(m.insert(9, 100), Ok(None));
    assert_eq!(m.insert(9, 200), Ok(Some(100)));
    assert_eq!(m.insert(9, 300), Ok(Some(200)));
    assert_eq!(m.get(&9), Ok(Some(&300)));
    assert_eq!(m.get_key_value(&9), Ok(Some((&9, &300))));
    assert_eq!(m.len(), 1);
}

#[test]
fn remove_returns_the_resident_pair_then_misses() {
    let mut m: TryHashMap<u32, char, FourBuckets> = TryHashMap::with_hasher(FourBuckets);
    for (k, v) in [(10u32, 'a'), (11, 'b'), (14, 'c'), (18, 'd')] {
        assert_eq!(m.insert(k, v), Ok(None));
    }
    assert_eq!(m.remove_entry(&14), Ok(Some((14, 'c'))));
    assert_eq!(m.get(&14), Ok(None));
    assert_eq!(m.remove_entry(&14), Ok(None));
    assert_eq!(m.len(), 3);
    assert_eq!(m.get(&10), Ok(Some(&'a')));
    assert_eq!(m.get(&11), Ok(Some(&'b')));
    assert_eq!(m.get(&18), Ok(Some(&'d')));
}

#[test]
fn failed_growth_changes_nothing() {
    let resident = Rc::new(Cell::new(false));
    let fresh = Rc::new(Cell::new(false));
    let mut m: TryHashMap<Moody, u32> = TryHashMap::new();
    let mut id = 0u32;
    while m.len() == 0 || m.len() < m.capacity() {
        assert_eq!(m.insert(Moody { id, sour: resident.clone() }, id), Ok(None));
        id += 1;
    }
    let len = m.len();
    let capacity = m.capacity();
    assert_eq!(len, capacity);

    resident.set(true);
    let r = m.insert(Moody { id: 1000, sour: fresh.clone() }, 1000);
    assert_eq!(r, Err(Sour));
    assert_eq!(m.len(), len);
    assert_eq!(m.capacity(), capacity);

    resident.set(false);
    for k in 0..id {
        assert_eq!(m.get(&Moody { id: k, sour: fresh.clone() }), Ok(Some(&k)));
    }
    assert_eq!(m.get(&Moody { id: 1000, sour: fresh.clone() }), Ok(None));
    assert_eq!(m.insert(Moody { id: 1000, sour: fresh.clone() }, 1000), Ok(None));
    assert_eq!(m.len(), len + 1);
    assert_eq!(m.capacity(), 2 * len + 1);
}

#[test]
fn collisions_resolve_independently() {
    let mut m: TryHashMap<u32, u32, FourBuckets> = TryHashMap::with_hasher(FourBuckets);
    assert_eq!(m.hash_key(&1u32), m.hash_key(&5u32));
    for k in 0..64u32 {
        assert_eq!(m.insert(k, k * 3), Ok(None));
    }
    assert_eq!(m.len(), 64);
    for k in 0..64u32 {
        assert_eq!(m.get(&k), Ok(Some(&(k * 3))));
    }
    for k in (0..64u32).filter(|k| k % 2 == 0) {
        assert_eq!(m.remove(&k), Ok(Some(k * 3)));
    }
    assert_eq!(m.len(), 32);
    for k in 0..64u32 {
        let expected = if k % 2 == 0 { None } else { Some(k * 3) };
        assert_eq!(m.get(&k).map(|v| v.copied()), Ok(expected));
    }
}

#[test]
fn growth_preserves_entries() {
    let n = 1000usize;
    let mut m: TryHashMap<usize, String> = TryHashMap::with_capacity(0);
    for k in 0..n {
        assert_eq!(m.insert(k, format!("value {k}")), Ok(None));
        assert_eq!(m.len(), k + 1);
        assert!(m.capacity() >= m.len());
    }
    assert_eq!(m.len(), n);
    assert!(m.capacity() >= n);
    for k in 0..n {
        assert_eq!(m.get(&k), Ok(Some(&format!("value {k}"))));
    }
}

#[test]
fn a_full_map_grows_to_twice_its_length_and_one() {
    let mut m: TryHashMap<u32, u32> = TryHashMap::new();
    assert_eq!(m.capacity(), 0);
    let mut capacities = vec![0];
    for k in 0..200u32 {
        let len = m.len();
        let capacity = m.capacity();
        assert_eq!(m.insert(k, k), Ok(None));
        if len >= capacity {
            assert_eq!(m.capacity(), 2 * len + 1);
            capacities.push(m.capacity());
        } else {
            assert_eq!(m.capacity(), capacity);
        }
    }
    assert_eq!(capacities, vec![0, 1, 3, 7, 15, 31, 63, 127, 255]);
}

#[test]
fn behaves_like_a_map() {
    let mut m: TryHashMap<u16, u32> = TryHashMap::new();
    let mut model: HashMap<u16, u32> = HashMap::new();
    let mut state = 0x2545_f491u32;
    for step in 0..20_000u32 {
        state = state.wrapping_mul(1_664_525).wrapping_add(1_013_904_223);
        let key = ((state >> 8) % 300) as u16;
        match (state >> 28) % 4 {
            0 | 1 => assert_eq!(m.insert(key, step), Ok(model.insert(key, step))),
            2 => assert_eq!(m.remove_entry(&key), Ok(model.remove_entry(&key))),
            _ => assert_eq!(m.get(&key), Ok(model.get(&key))),
        }
        assert_eq!(m.len(), model.len());
        assert!(m.capacity() >= m.len());
    }
    for key in 0..300u16 {
        assert_eq!(m.get_key_value(&key), Ok(model.get_key_value(&key)));
    }
}
