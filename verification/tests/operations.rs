use std::hash::{BuildHasher, Hasher};
use try_hashmap::{DefaultHashBuilder, TryEq, TryHash, TryHashMap, TryPartialEq};

/// A hash builder that carries a number, under which the hash of a key is the
/// last byte written for it.
#[derive(Debug, Clone, Copy, PartialEq, Eq)]
struct LastByte(u32);

struct LastByteHasher(u64);

impl Hasher for LastByteHasher {
    fn write(&mut self, bytes: &[u8]) {
        if let Some(b) = bytes.last() {
            self.0 = u64::from(*b);
        }
    }

    fn finish(&self) -> u64 {
        self.0
    }
}

impl BuildHasher for LastByte {
    type Hasher = LastByteHasher;

    fn build_hasher(&self) -> LastByteHasher {
        LastByteHasher(0)
    }
}

/// The error of comparing with a `Word`.
#[derive(Debug, PartialEq, Eq)]
struct Unreadable;

/// The error of a lookup of a `Word`.
#[derive(Debug, PartialEq, Eq)]
enum WordError {
    Empty,
    Compare(Unreadable),
}

impl From<Unreadable> for WordError {
    fn from(e: Unreadable) -> WordError {
        WordError::Compare(e)
    }
}

/// A key that cannot be hashed when it is empty and cannot be compared with
/// a word that starts with a question mark.
#[derive(Debug, Clone)]
struct Word(String);

impl TryPartialEq for Word {
    type Error = Unreadable;

    fn try_eq(&self, rhs: &Word) -> Result<bool, Unreadable> {
        if self.0.starts_with('?') || rhs.0.starts_with('?') {
            Err(Unreadable)
        } else {
            Ok(self.0 == rhs.0)
        }
    }
}

impl TryEq for Word {}

impl TryHash for Word {
    type Error = WordError;

    fn try_hash<H: Hasher>(&self, hasher: &mut H) -> Result<(), WordError> {
        if self.0.is_empty() {
            Err(WordError::Empty)
        } else {
            hasher.write(self.0.as_bytes());
            Ok(())
        }
    }
}

fn word(s: &str) -> Word {
    Word(String::from(s))
}

#[test]
fn new_map_is_empty_and_has_no_capacity() {
    let m: TryHashMap<u8, u8> = TryHashMap::new();
    assert_eq!(m.len(), 0);
    assert!(m.is_empty());
    assert_eq!(m.capacity(), 0);
    assert_eq!(m.get(&1), Ok(None));
}

#[test]
fn default_map_is_empty() {
    let m: TryHashMap<u8, u8, DefaultHashBuilder> = Default::default();
    assert!(m.is_empty());
    assert_eq!(m.capacity(), 0);
}

#[test]
fn with_capacity_holds_that_many_without_growing() {
    let mut m: TryHashMap<u32, u32> = TryHashMap::with_capacity(100);
    assert_eq!(m.capacity(), 100);
    for k in 0..100u32 {
        assert_eq!(m.insert(k, k), Ok(None));
        assert_eq!(m.capacity(), 100);
    }
    assert_eq!(m.len(), 100);
    assert!(!m.is_empty());
    assert_eq!(m.insert(100, 100), Ok(None));
    assert_eq!(m.capacity(), 201);
    assert_eq!(m.len(), 101);
}

#[test]
fn with_hasher_keeps_the_builder() {
    let m: TryHashMap<u8, u8, LastByte> = TryHashMap::with_hasher(LastByte(42));
    assert_eq!(*m.hasher(), LastByte(42));
    assert_eq!(m.capacity(), 0);
    let n: TryHashMap<u8, u8, LastByte> = TryHashMap::with_capacity_and_hasher(5, LastByte(43));
    assert_eq!(*n.hasher(), LastByte(43));
    assert_eq!(n.capacity(), 5);
}

#[test]
fn hash_key_feeds_the_key_to_the_builder() {
    let m: TryHashMap<Word, u8, LastByte> = TryHashMap::with_hasher(LastByte(0));
    assert_eq!(m.hash_key(&word("ab")), Ok(u64::from(b'b')));
    assert_eq!(m.hash_key(&word("xyz")), Ok(u64::from(b'z')));
    assert_eq!(m.hash_key(&word("")), Err(WordError::Empty));
}

#[test]
fn clear_forgets_the_entries_and_keeps_the_capacity() {
    let mut m: TryHashMap<u32, u32> = TryHashMap::new();
    for k in 0..20u32 {
        assert_eq!(m.insert(k, k), Ok(None));
    }
    let capacity = m.capacity();
    m.clear();
    assert_eq!(m.len(), 0);
    assert!(m.is_empty());
    assert_eq!(m.capacity(), capacity);
    for k in 0..20u32 {
        assert_eq!(m.get(&k), Ok(None));
    }
    assert_eq!(m.insert(3, 33), Ok(None));
    assert_eq!(m.get(&3), Ok(Some(&33)));
    assert_eq!(m.len(), 1);
}

#[test]
fn get_mut_opens_the_value_to_change() {
    let mut m: TryHashMap<&'static str, Vec<u8>> = TryHashMap::new();
    assert_eq!(m.insert("k", vec![1]), Ok(None));
    match m.get_mut(&"k") {
        Ok(Some(v)) => v.push(2),
        _ => panic!("the key is resident"),
    }
    assert_eq!(m.get(&"k"), Ok(Some(&vec![1, 2])));
    assert!(matches!(m.get_mut(&"missing"), Ok(None)));
}

#[test]
fn get_key_value_mut_hands_out_the_resident_key() {
    let mut m: TryHashMap<String, u32> = TryHashMap::new();
    assert_eq!(m.insert(String::from("one"), 1), Ok(None));
    assert_eq!(m.insert(String::from("two"), 2), Ok(None));
    match m.get_key_value_mut(&String::from("two")) {
        Ok(Some((k, v))) => {
            assert_eq!(k, "two");
            *v += 40;
        }
        _ => panic!("the key is resident"),
    }
    assert_eq!(m.get_key_value(&String::from("two")), Ok(Some((&String::from("two"), &42))));
    assert_eq!(m.get(&String::from("one")), Ok(Some(&1)));
    assert!(matches!(m.get_key_value_mut(&String::from("three")), Ok(None)));
}

#[test]
fn removing_any_entry_leaves_the_others_in_reach() {
    for gone in 0..7u32 {
        let mut m: TryHashMap<u32, u32> = TryHashMap::new();
        for k in 0..7u32 {
            assert_eq!(m.insert(k, k + 100), Ok(None));
        }
        assert_eq!(m.remove(&gone), Ok(Some(gone + 100)));
        assert_eq!(m.len(), 6);
        for k in 0..7u32 {
            let expected = if k == gone { None } else { Some(k + 100) };
            assert_eq!(m.get(&k).map(|v| v.copied()), Ok(expected));
        }
        assert_eq!(m.insert(gone, 1), Ok(None));
        assert_eq!(m.len(), 7);
        assert_eq!(m.get(&gone), Ok(Some(&1)));
    }
}

#[test]
fn removing_a_missing_key_returns_none() {
    let mut m: TryHashMap<u32, u32> = TryHashMap::new();
    assert_eq!(m.remove(&1), Ok(None));
    assert_eq!(m.remove_entry(&1), Ok(None));
    assert_eq!(m.insert(2, 2), Ok(None));
    assert_eq!(m.remove(&1), Ok(None));
    assert_eq!(m.len(), 1);
}

#[test]
fn emptying_and_refilling_a_map() {
    let mut m: TryHashMap<u32, u32> = TryHashMap::new();
    for round in 0..10u32 {
        for k in 0..50u32 {
            assert_eq!(m.insert(k, k + round), Ok(None));
        }
        assert_eq!(m.len(), 50);
        assert_eq!(m.capacity(), 63);
        for k in 0..50u32 {
            assert_eq!(m.remove_entry(&k), Ok(Some((k, k + round))));
        }
        assert!(m.is_empty());
        assert_eq!(m.capacity(), 63);
    }
}

#[test]
fn a_map_that_stays_full_takes_any_number_of_exchanges() {
    let mut m: TryHashMap<u64, u64> = TryHashMap::with_capacity(64);
    for k in 0..64u64 {
        assert_eq!(m.insert(k, k), Ok(None));
    }
    for k in 64..20_000u64 {
        assert_eq!(m.remove(&(k - 64)), Ok(Some(k - 64)));
        assert_eq!(m.insert(k, k), Ok(None));
        assert_eq!(m.len(), 64);
        assert_eq!(m.capacity(), 64);
    }
    for k in 0..20_000u64 {
        let expected = if k < 20_000 - 64 { None } else { Some(k) };
        assert_eq!(m.get(&k).map(|v| v.copied()), Ok(expected));
    }
}

#[test]
fn lookup_by_another_type_of_key() {
    let mut m: TryHashMap<String, u32> = TryHashMap::new();
    assert_eq!(m.insert(String::from("alpha"), 1), Ok(None));
    assert_eq!(m.insert(String::from("beta"), 2), Ok(None));
    let key: &str = "beta";
    assert_eq!(m.get(&key), Ok(Some(&2)));
    assert_eq!(m.get_key_value(&key), Ok(Some((&String::from("beta"), &2))));
    assert_eq!(m.remove_entry(&key), Ok(Some((String::from("beta"), 2))));
    assert_eq!(m.get(&key), Ok(None));
    assert_eq!(m.len(), 1);
}

#[test]
fn comparison_error_is_converted() {
    let mut m: TryHashMap<Word, u32, LastByte> = TryHashMap::with_hasher(LastByte(0));
    assert_eq!(m.insert(word("?a"), 1), Ok(None));
    assert_eq!(m.insert(word("ba"), 2), Err(WordError::Compare(Unreadable)));
    assert_eq!(m.get(&word("ba")), Err(WordError::Compare(Unreadable)));
    assert_eq!(m.remove(&word("ba")), Err(WordError::Compare(Unreadable)));
    assert_eq!(m.insert(word(""), 3), Err(WordError::Empty));
    assert_eq!(m.insert(word("bc"), 4), Ok(None));
    assert_eq!(m.get(&word("bc")), Ok(Some(&4)));
    assert_eq!(m.len(), 2);
}

#[test]
fn operations_with_a_given_hash() {
    let mut m: TryHashMap<Word, u32, LastByte> = TryHashMap::with_capacity_and_hasher(8, LastByte(0));
    assert_eq!(m.insert_with_hash(1, word("a"), 10), Ok(None));
    assert_eq!(m.insert_with_hash(1, word("b"), 20), Ok(None));
    assert_eq!(m.insert_with_hash(2, word("c"), 30), Ok(None));
    assert_eq!(m.insert_with_hash(1, word("a"), 11), Ok(Some(10)));
    assert_eq!(m.len(), 3);

    assert_eq!(m.find_with_hash(1, &word("a")), Ok(Some(0)));
    assert_eq!(m.find_with_hash(1, &word("b")), Ok(Some(1)));
    assert_eq!(m.find_with_hash(2, &word("c")), Ok(Some(2)));
    assert_eq!(m.find_with_hash(2, &word("a")), Ok(None));
    assert_eq!(m.find_with_hash(3, &word("a")), Ok(None));

    match m.get_key_value_with_hash(1, &word("b")) {
        Ok(Some((k, v))) => {
            assert_eq!(k.0, "b");
            assert_eq!(*v, 20);
        }
        _ => panic!("the key is resident"),
    }
    match m.get_key_value_mut_with_hash(2, &word("c")) {
        Ok(Some((k, v))) => {
            assert_eq!(k.0, "c");
            *v = 31;
        }
        _ => panic!("the key is resident"),
    }
    assert!(matches!(m.get_key_value_with_hash(2, &word("c")), Ok(Some((_, 31)))));
    assert!(matches!(m.get_key_value_mut_with_hash(2, &word("b")), Ok(None)));

    match m.remove_entry_with_hash(1, &word("a")) {
        Ok(Some((k, v))) => {
            assert_eq!(k.0, "a");
            assert_eq!(v, 11);
        }
        _ => panic!("the key is resident"),
    }
    assert_eq!(m.len(), 2);
    assert_eq!(m.find_with_hash(1, &word("a")), Ok(None));
    assert_eq!(m.find_with_hash(2, &word("c")), Ok(Some(0)));
    assert_eq!(m.find_with_hash(1, &word("b")), Ok(Some(1)));
    assert!(matches!(m.remove_entry_with_hash(1, &word("?")), Err(Unreadable)));
    assert_eq!(m.len(), 2);
}

#[test]
fn comparison_stops_at_the_first_failure() {
    let mut m: TryHashMap<Word, u32, LastByte> = TryHashMap::with_capacity_and_hasher(8, LastByte(0));
    assert_eq!(m.insert_with_hash(5, word("x"), 1), Ok(None));
    assert_eq!(m.find_with_hash(5, &word("?")), Err(Unreadable));
    assert_eq!(m.find_with_hash(6, &word("?")), Ok(None));
    assert_eq!(m.insert_with_hash(6, word("?"), 2), Ok(None));
    assert_eq!(m.find_with_hash(6, &word("y")), Err(Unreadable));
    assert_eq!(m.find_with_hash(5, &word("x")), Ok(Some(0)));
    assert_eq!(m.insert_with_hash(6, word("y"), 3), Err(WordError::Compare(Unreadable)));
    assert_eq!(m.len(), 2);
}

#[test]
fn growing_files_the_entries_under_the_hashes_of_their_keys() {
    let mut m: TryHashMap<Word, u32, LastByte> = TryHashMap::with_capacity_and_hasher(1, LastByte(0));
    assert_eq!(m.insert_with_hash(1, word("a"), 10), Ok(None));
    assert_eq!(m.find_with_hash(1, &word("a")), Ok(Some(0)));
    assert_eq!(m.get(&word("a")), Ok(None));

    assert_eq!(m.insert(word("b"), 20), Ok(None));
    assert_eq!(m.capacity(), 3);
    assert_eq!(m.find_with_hash(1, &word("a")), Ok(None));
    assert_eq!(m.find_with_hash(u64::from(b'a'), &word("a")), Ok(Some(0)));
    assert_eq!(m.get(&word("a")), Ok(Some(&10)));
    assert_eq!(m.get(&word("b")), Ok(Some(&20)));
}
