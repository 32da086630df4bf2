use trie_root::{root_merkle_value, CalculationCache, Config, Storage};

fn storage_of(pairs: &[(&[u8], &[u8])]) -> Storage {
    let mut s = Storage::new();
    for (k, v) in pairs {
        s.insert(k.to_vec(), v.to_vec());
    }
    s
}

fn root_of(pairs: &[(&[u8], &[u8])]) -> Vec<u8> {
    let s = storage_of(pairs);
    let mut cache = CalculationCache::empty();
    root_merkle_value(Config { storage: &s }, &mut cache)
}

#[test]
fn foo_bar_pinned_root() {
    let root = root_of(&[(b"foo", b"bar")]);
    assert_eq!(
        root,
        vec![
            204, 86, 28, 213, 155, 206, 247, 145, 28, 169, 212, 146, 182, 159, 224, 82, 116, 162,
            143, 156, 19, 43, 183, 8, 41, 178, 204, 69, 41, 37, 224, 91
        ]
    );
}

#[test]
fn empty_storage_root_is_hash_of_zero_byte() {
    let root = root_of(&[]);
    assert_eq!(root.len(), 32);
    let direct = blake2_rfc::blake2b::blake2b(32, &[], &[0u8]);
    assert_eq!(root.as_slice(), direct.as_bytes());
}

#[test]
fn root_is_32_bytes_and_deterministic() {
    let cases: &[&[(&[u8], &[u8])]] = &[
        &[],
        &[(b"foo", b"bar")],
        &[(b"a", b"1"), (b"b", b"2")],
        &[(b"do", b"verb"), (b"dog", b"puppy"), (b"doge", b"coin")],
    ];
    for case in cases {
        let r1 = root_of(case);
        let r2 = root_of(case);
        assert_eq!(r1.len(), 32);
        assert_eq!(r1, r2);
    }
}

#[test]
fn insertion_order_does_not_matter() {
    let r1 = root_of(&[(b"a", b"1"), (b"b", b"2")]);
    let r2 = root_of(&[(b"b", b"2"), (b"a", b"1")]);
    assert_eq!(r1, r2);

    let r3 = root_of(&[(b"do", b"verb"), (b"dog", b"puppy"), (b"doge", b"coin")]);
    let r4 = root_of(&[(b"doge", b"coin"), (b"do", b"verb"), (b"dog", b"puppy")]);
    assert_eq!(r3, r4);
}

#[test]
fn later_insert_supersedes_earlier() {
    let r1 = root_of(&[(b"a", b"old"), (b"a", b"new")]);
    let r2 = root_of(&[(b"a", b"new")]);
    assert_eq!(r1, r2);
}

#[test]
fn cached_and_fresh_roots_agree() {
    let s = storage_of(&[(b"do", b"verb"), (b"dog", b"puppy"), (b"doge", b"coin")]);
    let mut cache = CalculationCache::empty();
    let r1 = root_merkle_value(Config { storage: &s }, &mut cache);
    // Second run reuses the now-populated cache.
    let r2 = root_merkle_value(Config { storage: &s }, &mut cache);
    let mut fresh = CalculationCache::empty();
    let r3 = root_merkle_value(Config { storage: &s }, &mut fresh);
    assert_eq!(r1, r2);
    assert_eq!(r1, r3);
}

#[test]
fn invalidated_cache_agrees_with_fresh_cache() {
    let mut s = storage_of(&[(b"do", b"verb"), (b"dog", b"puppy")]);
    let mut cache = CalculationCache::empty();
    let _ = root_merkle_value(Config { storage: &s }, &mut cache);

    // Mutate the storage and invalidate the touched key.
    s.insert(b"doge".to_vec(), b"coin".to_vec());
    cache.invalidate_node(b"doge");
    let r_cached = root_merkle_value(Config { storage: &s }, &mut cache);
    let mut fresh = CalculationCache::empty();
    let r_fresh = root_merkle_value(Config { storage: &s }, &mut fresh);
    assert_eq!(r_cached, r_fresh);
}

#[test]
fn invalidate_prefix_agrees_with_fresh_cache() {
    let mut s = storage_of(&[(b"aa", b"1"), (b"ab", b"2"), (b"zz", b"3")]);
    let mut cache = CalculationCache::empty();
    let _ = root_merkle_value(Config { storage: &s }, &mut cache);

    s.insert(b"ac".to_vec(), b"4".to_vec());
    cache.invalidate_prefix(b"a");
    let r_cached = root_merkle_value(Config { storage: &s }, &mut cache);
    let mut fresh = CalculationCache::empty();
    let r_fresh = root_merkle_value(Config { storage: &s }, &mut fresh);
    assert_eq!(r_cached, r_fresh);
}

#[test]
fn default_cache_behaves_like_empty() {
    let s = storage_of(&[(b"foo", b"bar")]);
    let mut cache = CalculationCache::default();
    let r = root_merkle_value(Config { storage: &s }, &mut cache);
    assert_eq!(r, root_of(&[(b"foo", b"bar")]));
}

#[test]
fn shared_prefix_pair_differs_from_each_leaf_alone() {
    // Two keys sharing a long prefix: a branch node with no stored value and
    // skip compression above it.
    let a: &[u8] = &[0x11, 0x22, 0x33, 0x44];
    let b: &[u8] = &[0x11, 0x22, 0x33, 0x55];
    let r_pair = root_of(&[(a, b"left"), (b, b"right")]);
    assert_eq!(r_pair.len(), 32);
    assert_ne!(r_pair, root_of(&[(a, b"left")]));
    assert_ne!(r_pair, root_of(&[(b, b"right")]));
    // Order of the two leaves does not matter.
    assert_eq!(r_pair, root_of(&[(b, b"right"), (a, b"left")]));
}

#[test]
fn changed_value_changes_root() {
    let r1 = root_of(&[(b"a", b"1"), (b"b", b"2")]);
    let r2 = root_of(&[(b"a", b"1"), (b"b", b"3")]);
    assert_ne!(r1, r2);
}

#[test]
fn changed_key_changes_root() {
    let r1 = root_of(&[(b"a", b"1"), (b"b", b"2")]);
    let r2 = root_of(&[(b"a", b"1"), (b"c", b"2")]);
    assert_ne!(r1, r2);
}

#[test]
fn extra_key_changes_root() {
    let r1 = root_of(&[(b"do", b"verb"), (b"dog", b"puppy")]);
    let r2 = root_of(&[(b"do", b"verb"), (b"dog", b"puppy"), (b"doge", b"coin")]);
    assert_ne!(r1, r2);
}

#[test]
fn long_key_exercises_multi_byte_header() {
    // A 128-byte key has 256 nibbles: the partial-key length no longer fits
    // the six header bits and spills into extra length bytes.
    let long_key: Vec<u8> = (0u8..128).collect();
    let r1 = root_of(&[(long_key.as_slice(), b"v")]);
    let r2 = root_of(&[(long_key.as_slice(), b"v")]);
    assert_eq!(r1.len(), 32);
    assert_eq!(r1, r2);
    assert_ne!(r1, root_of(&[(long_key.as_slice(), b"w")]));

    // A 200-byte key has 400 nibbles: the header length spills over a full
    // 255 block and needs two extra bytes.
    let longer_key: Vec<u8> = (0..200).map(|i| (i % 251) as u8).collect();
    let r3 = root_of(&[(longer_key.as_slice(), b"v")]);
    assert_eq!(r3.len(), 32);
    assert_eq!(r3, root_of(&[(longer_key.as_slice(), b"v")]));
    assert_ne!(r3, r1);
}

#[test]
fn long_value_exercises_wider_length_prefix() {
    // Values beyond 63 bytes need the two-byte length mode; 1 KiB stays in
    // that mode but crosses several block boundaries.
    let v100: Vec<u8> = vec![7u8; 100];
    let v1k: Vec<u8> = vec![9u8; 1024];
    let r100 = root_of(&[(b"key", v100.as_slice())]);
    let r1k = root_of(&[(b"key", v1k.as_slice())]);
    assert_eq!(r100.len(), 32);
    assert_eq!(r1k.len(), 32);
    assert_ne!(r100, r1k);
    assert_eq!(r1k, root_of(&[(b"key", v1k.as_slice())]));
}

#[test]
fn round_trip_mutations_with_cache() {
    let mut s = Storage::new();
    let mut cache = CalculationCache::empty();
    s.insert(b"one".to_vec(), b"1".to_vec());
    s.insert(b"two".to_vec(), b"2".to_vec());
    let _ = root_merkle_value(Config { storage: &s }, &mut cache);

    let mutations: &[(&[u8], &[u8])] = &[
        (b"three", b"3"),
        (b"two", b"22"),
        (b"onward", b"x"),
    ];
    for (k, v) in mutations {
        s.insert(k.to_vec(), v.to_vec());
        cache.invalidate_node(k);
        let r_cached = root_merkle_value(Config { storage: &s }, &mut cache);
        let mut fresh = CalculationCache::empty();
        let r_fresh = root_merkle_value(Config { storage: &s }, &mut fresh);
        assert_eq!(r_cached, r_fresh);
    }
}
