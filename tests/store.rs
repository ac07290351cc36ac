use segment_relay::relay::{
    delete_entry, get_entry, list_entries, put_entry, PutOutcome, RelayError,
};
use segment_relay::trie::Trie;

fn sorted(mut keys: Vec<Vec<u8>>) -> Vec<Vec<u8>> {
    keys.sort();
    keys
}

fn keys_of(list: &[&str]) -> Vec<Vec<u8>> {
    sorted(list.iter().map(|k| k.as_bytes().to_vec()).collect())
}

#[test]
fn insert_then_get() {
    let mut t: Trie<u64> = Trie::new();
    assert_eq!(t.insert(b"a/b", 7), None);
    assert_eq!(t.get(b"a/b"), Some(7));
    assert_eq!(t.get(b"a"), None);
    assert_eq!(t.get(b"a/b/c"), None);
    assert_eq!(t.get(b""), None);
}

#[test]
fn insert_returns_previous_value() {
    let mut t: Trie<u64> = Trie::new();
    assert_eq!(t.insert(b"seg", 1), None);
    assert_eq!(t.insert(b"seg", 2), Some(1));
    assert_eq!(t.get(b"seg"), Some(2));
}

#[test]
fn remove_returns_value_and_keeps_others() {
    let mut t: Trie<u64> = Trie::new();
    t.insert(b"a", 1);
    t.insert(b"ab", 2);
    t.insert(b"abc", 3);
    assert_eq!(t.remove(b"ab"), Some(2));
    assert_eq!(t.get(b"ab"), None);
    assert_eq!(t.get(b"a"), Some(1));
    assert_eq!(t.get(b"abc"), Some(3));
    assert_eq!(t.remove(b"ab"), None);
    assert_eq!(t.remove(b"abc"), Some(3));
    assert_eq!(sorted(t.keys()), keys_of(&["a"]));
}

#[test]
fn keys_include_keys_with_children() {
    let mut t: Trie<u64> = Trie::new();
    t.insert(b"a", 1);
    t.insert(b"ab", 2);
    t.insert(b"b", 3);
    assert_eq!(sorted(t.keys()), keys_of(&["a", "ab", "b"]));
}

#[test]
fn prefix_enumeration() {
    let mut t: Trie<u64> = Trie::new();
    for (i, k) in ["a", "ab", "abc", "b"].iter().enumerate() {
        t.insert(k.as_bytes(), i as u64);
    }
    assert_eq!(sorted(t.keys_by_prefix(b"ab")), keys_of(&["ab", "abc"]));
    assert_eq!(sorted(t.keys_by_prefix(b"a")), keys_of(&["a", "ab", "abc"]));
    assert_eq!(t.keys_by_prefix(b"z"), Vec::<Vec<u8>>::new());
    assert_eq!(sorted(t.keys_by_prefix(b"")), keys_of(&["a", "ab", "abc", "b"]));
    assert_eq!(t.keys_by_prefix(b"ab").len(), 2);
    assert_eq!(t.keys_by_prefix(b"a").len(), 3);
    assert_eq!(t.keys().len(), 4);
}

#[test]
fn listings_put_a_key_before_its_extensions() {
    let mut t: Trie<u64> = Trie::new();
    for (i, k) in ["abc", "b", "ab", "a"].iter().enumerate() {
        t.insert(k.as_bytes(), i as u64);
    }
    let all = t.keys();
    let pos = |k: &str| all.iter().position(|x| x == k.as_bytes()).unwrap();
    assert!(pos("a") < pos("ab"));
    assert!(pos("ab") < pos("abc"));
    let under = t.keys_by_prefix(b"ab");
    assert_eq!(under, vec![b"ab".to_vec(), b"abc".to_vec()]);
    assert_eq!(t.keys_by_prefix(b"a")[0], b"a".to_vec());
}

#[test]
fn pruning_frees_every_node_no_key_needs() {
    let mut t: Trie<u64> = Trie::new();
    t.insert(b"abc", 1);
    assert_eq!(t.arena_size(), 4);
    t.insert(b"abd", 2);
    assert_eq!(t.arena_size(), 5);
    assert_eq!(t.remove(b"abd"), Some(2));
    assert_eq!(t.free_nodes(), 1);
    assert_eq!(t.remove(b"zz"), None);
    assert_eq!(t.free_nodes(), 1);
    assert_eq!(t.remove(b"ab"), None);
    assert_eq!(t.free_nodes(), 1);
    assert_eq!(t.remove(b"abc"), Some(1));
    assert_eq!(t.free_nodes(), 4);
    assert_eq!(t.arena_size(), 5);
    t.insert(b"xy", 3);
    assert_eq!(t.free_nodes(), 2);
    assert_eq!(t.arena_size(), 5);
}

#[test]
fn multibyte_keys_are_byte_paths() {
    let mut t: Trie<u64> = Trie::new();
    t.insert("é/x".as_bytes(), 1);
    assert_eq!(t.get("é/x".as_bytes()), Some(1));
    assert_eq!(sorted(t.keys_by_prefix("é".as_bytes())), keys_of(&["é/x"]));
    assert_eq!(t.keys_by_prefix(&"é".as_bytes()[..1]).len(), 1);
}

#[test]
fn arena_reuse() {
    let prefix = "stream/1/representation/video/";
    let n = 8;
    let mut t: Trie<u64> = Trie::new();
    for i in 0..n {
        t.insert(format!("{}a{}", prefix, i).as_bytes(), i);
    }
    let grown = t.arena_size();
    for i in 0..n {
        assert_eq!(t.remove(format!("{}a{}", prefix, i).as_bytes()), Some(i));
    }
    assert_eq!(t.arena_size(), grown);
    assert_eq!(t.free_nodes(), grown - 1);
    assert_eq!(t.keys(), Vec::<Vec<u8>>::new());
    for i in 0..n {
        t.insert(format!("{}b{}", prefix, i).as_bytes(), i);
    }
    assert_eq!(t.arena_size(), grown);
    assert_eq!(t.get(format!("{}b3", prefix).as_bytes()), Some(3));
    assert_eq!(t.get(format!("{}a3", prefix).as_bytes()), None);
}

#[test]
fn put_reports_created_then_replaced() {
    let mut t: Trie<u64> = Trie::new();
    assert_eq!(put_entry(&mut t, b"p", 1), PutOutcome::Created);
    assert_eq!(put_entry(&mut t, b"p", 2), PutOutcome::Replaced);
    assert_eq!(get_entry(&t, b"p"), Ok(2));
}

#[test]
fn overwrite_isolation() {
    let mut t: Trie<u64> = Trie::new();
    put_entry(&mut t, b"video/seg1", 10);
    let held = get_entry(&t, b"video/seg1").unwrap();
    assert_eq!(put_entry(&mut t, b"video/seg1", 20), PutOutcome::Replaced);
    assert_eq!(get_entry(&t, b"video/seg1"), Ok(20));
    assert_eq!(held, 10);
}

#[test]
fn get_absent_is_not_found() {
    let t: Trie<u64> = Trie::new();
    assert_eq!(get_entry(&t, b"nope"), Err(RelayError::NotFound));
}

#[test]
fn idempotent_delete() {
    let mut t: Trie<u64> = Trie::new();
    put_entry(&mut t, b"x", 1);
    delete_entry(&mut t, b"absent");
    delete_entry(&mut t, b"absent");
    assert_eq!(get_entry(&t, b"x"), Ok(1));
    delete_entry(&mut t, b"x");
    delete_entry(&mut t, b"x");
    assert_eq!(get_entry(&t, b"x"), Err(RelayError::NotFound));
    assert_eq!(t.keys(), Vec::<Vec<u8>>::new());
}

#[test]
fn list_by_prefix_and_not_found() {
    let mut t: Trie<u64> = Trie::new();
    put_entry(&mut t, b"live/a.m4s", 1);
    put_entry(&mut t, b"live/b.m4s", 2);
    put_entry(&mut t, b"vod/c.m4s", 3);
    assert_eq!(
        sorted(list_entries(&t, b"live/").unwrap()),
        keys_of(&["live/a.m4s", "live/b.m4s"])
    );
    assert_eq!(list_entries(&t, b"other"), Err(RelayError::NotFound));
    delete_entry(&mut t, b"vod/c.m4s");
    assert_eq!(list_entries(&t, b"vod"), Err(RelayError::NotFound));
}

#[test]
fn list_empty_prefix_is_the_root() {
    let mut t: Trie<u64> = Trie::new();
    assert_eq!(list_entries(&t, b""), Ok(Vec::new()));
    put_entry(&mut t, b"k", 1);
    assert_eq!(list_entries(&t, b""), Ok(vec![b"k".to_vec()]));
}

#[test]
fn value_slots_are_reused() {
    let mut t: Trie<u64> = Trie::new();
    assert_eq!(t.value_slots(), 0);
    t.insert(b"a", 1);
    t.insert(b"b", 2);
    assert_eq!(t.value_slots(), 2);
    t.insert(b"a", 3);
    assert_eq!(t.value_slots(), 2);
    assert_eq!(t.remove(b"a"), Some(3));
    assert_eq!(t.free_values(), 1);
    t.insert(b"c", 4);
    assert_eq!(t.free_values(), 0);
    assert_eq!(t.value_slots(), 2);
    assert_eq!(t.get(b"c"), Some(4));
    assert_eq!(t.get(b"b"), Some(2));
}
