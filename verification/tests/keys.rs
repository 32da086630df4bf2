use trie_root::{Storage, TrieNodeKey};

#[test]
fn from_bytes_splits_into_nibbles() {
    let k = TrieNodeKey::from_bytes(&[0xAB, 0x05]);
    assert_eq!(k.nibbles, vec![0x0A, 0x0B, 0x00, 0x05]);
}

#[test]
fn to_bytes_truncate_drops_trailing_nibble() {
    let even = TrieNodeKey { nibbles: vec![0x0A, 0x0B, 0x00, 0x05] };
    assert_eq!(even.to_bytes_truncate(), vec![0xAB, 0x05]);
    let odd = TrieNodeKey { nibbles: vec![0x0A, 0x0B, 0x00] };
    assert_eq!(odd.to_bytes_truncate(), vec![0xAB]);
}

#[test]
fn ancestor_test_even_length() {
    let k = TrieNodeKey::from_bytes(&[0x12]);
    assert!(k.is_ancestor_or_equal(&[0x12]));
    assert!(k.is_ancestor_or_equal(&[0x12, 0x34]));
    assert!(!k.is_ancestor_or_equal(&[0x13]));
    assert!(!k.is_ancestor_or_equal(&[]));
}

#[test]
fn ancestor_test_odd_length_checks_half_nibble() {
    let k = TrieNodeKey { nibbles: vec![0x01, 0x02, 0x03] };
    // The byte form truncates to [0x12]; the next key byte must start with
    // nibble 3.
    assert!(k.is_ancestor_or_equal(&[0x12, 0x34]));
    assert!(k.is_ancestor_or_equal(&[0x12, 0x3F, 0x00]));
    assert!(!k.is_ancestor_or_equal(&[0x12]));
    assert!(!k.is_ancestor_or_equal(&[0x12, 0x44]));
}

#[test]
fn empty_key_is_ancestor_of_everything() {
    let k = TrieNodeKey::new_empty();
    assert!(k.is_ancestor_or_equal(&[]));
    assert!(k.is_ancestor_or_equal(&[0xFF]));
}

#[test]
fn get_value_returns_latest_binding() {
    let mut s = Storage::new();
    assert!(s.get_value(b"k").is_none());
    s.insert(b"k".to_vec(), b"v1".to_vec());
    assert_eq!(s.get_value(b"k").unwrap(), b"v1".to_vec());
    s.insert(b"k".to_vec(), b"v2".to_vec());
    assert_eq!(s.get_value(b"k").unwrap(), b"v2".to_vec());
    assert!(s.get_value(b"other").is_none());
}

#[test]
fn prefix_keys_returns_all_matching_keys() {
    let mut s = Storage::new();
    s.insert(b"do".to_vec(), b"1".to_vec());
    s.insert(b"dog".to_vec(), b"2".to_vec());
    s.insert(b"cat".to_vec(), b"3".to_vec());
    let mut under_do = s.prefix_keys(b"do");
    under_do.sort();
    assert_eq!(under_do, vec![b"do".to_vec(), b"dog".to_vec()]);
    let all = s.prefix_keys(b"");
    assert_eq!(all.len(), 3);
    assert_eq!(s.prefix_keys(b"x").len(), 0);
}
