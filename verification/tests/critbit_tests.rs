use critbit::{crit_bit_pos, get_bit, CritBitTree};

// --- bit helpers --------------------------------------------------------

#[test]
fn get_bit_lsb_of_byte0() {
    // 0b00000001 — only the LSB is set, global bit index 0
    assert_eq!(get_bit(&[0b00000001], 0), 1);
    assert_eq!(get_bit(&[0b00000001], 1), 0);
}

#[test]
fn get_bit_msb_of_byte0() {
    // 0b10000000 — only the MSB of byte 0 is set, global bit index 7
    assert_eq!(get_bit(&[0b10000000], 7), 1);
    assert_eq!(get_bit(&[0b10000000], 0), 0);
}

#[test]
fn get_bit_second_byte() {
    // 0x00 0x01 — bit 8 (LSB of byte 1)
    assert_eq!(get_bit(&[0x00, 0x01], 8), 1);
    assert_eq!(get_bit(&[0x00, 0x01], 9), 0);
}

#[test]
fn crit_bit_pos_lsb() {
    // 0 vs 1 differ at global bit 0 (LSB of byte 0)
    assert_eq!(crit_bit_pos(&[0u8], &[1u8]), Some(0));
}

#[test]
fn crit_bit_pos_msb_of_byte0() {
    // 0x00 vs 0x80 differ at bit 7 (MSB of byte 0)
    assert_eq!(crit_bit_pos(&[0x00], &[0x80]), Some(7));
}

#[test]
fn crit_bit_pos_byte_boundary() {
    // [0,0] vs [0,1] differ at bit 8 (LSB of byte 1)
    assert_eq!(crit_bit_pos(&[0x00, 0x00], &[0x00, 0x01]), Some(8));
}

#[test]
fn crit_bit_pos_same_keys_returns_none() {
    assert_eq!(crit_bit_pos(b"abc", b"abc"), None);
}

#[test]
fn crit_bit_roundtrip() {
    // The bit that crit_bit_pos identifies must be extractable by get_bit.
    let a = [0b10110100u8];
    let b = [0b10100100u8]; // differ at bit 4 (the 5th bit from LSB)
    let cb = crit_bit_pos(&a, &b).unwrap();
    assert_eq!(cb, 4);
    // In `a` that bit is 1; in `b` it is 0.
    assert_eq!(get_bit(&a, cb), 1);
    assert_eq!(get_bit(&b, cb), 0);
}

// --- empty tree ---------------------------------------------------------

#[test]
fn empty_tree_contains_nothing() {
    let t = CritBitTree::new();
    assert!(!t.contains(b"anything"));
}

#[test]
fn empty_tree_delete_returns_false() {
    let mut t = CritBitTree::new();
    assert!(!t.delete(b"nope"));
}

#[test]
fn empty_tree_prefix_collect_empty() {
    let t = CritBitTree::new();
    assert!(t.prefix_collect(b"x").is_empty());
}

// --- single-element tree ------------------------------------------------

#[test]
fn single_insert_contains() {
    let mut t = CritBitTree::new();
    assert!(t.insert(b"hello".to_vec()));
    assert!(t.contains(b"hello"));
    assert!(!t.contains(b"hell"));
    assert!(!t.contains(b"helloo"));
}

#[test]
fn duplicate_insert_returns_false() {
    let mut t = CritBitTree::new();
    assert!(t.insert(b"x".to_vec()));
    assert!(!t.insert(b"x".to_vec()));
}

#[test]
fn single_delete_empties_tree() {
    let mut t = CritBitTree::new();
    t.insert(b"only".to_vec());
    assert!(t.delete(b"only"));
    assert!(!t.contains(b"only"));
    assert!(t.is_empty());
}

// --- multi-element operations -------------------------------------------

#[test]
fn insert_multiple_all_present() {
    let mut t = CritBitTree::new();
    let keys: &[&[u8]] = &[b"apple", b"banana", b"cherry", b"date"];
    for k in keys {
        t.insert(k.to_vec());
    }
    for k in keys {
        assert!(t.contains(k), "{k:?} should be present");
    }
}

#[test]
fn delete_one_others_remain() {
    let mut t = CritBitTree::new();
    t.insert(b"ant".to_vec());
    t.insert(b"bee".to_vec());
    t.insert(b"cat".to_vec());

    assert!(t.delete(b"bee"));
    assert!(!t.contains(b"bee"));
    assert!(t.contains(b"ant"));
    assert!(t.contains(b"cat"));
}

#[test]
fn delete_absent_key_returns_false() {
    let mut t = CritBitTree::new();
    t.insert(b"foo".to_vec());
    assert!(!t.delete(b"bar"));
    assert!(t.contains(b"foo")); // unaffected
}

#[test]
fn delete_all_one_by_one() {
    let keys: &[&[u8]] = &[b"one", b"two", b"three", b"four"];
    let mut t = CritBitTree::new();
    for k in keys {
        t.insert(k.to_vec());
    }
    for k in keys {
        assert!(t.delete(k));
    }
    assert!(t.is_empty());
    for k in keys {
        assert!(!t.contains(k));
    }
}

// --- prefix collect -----------------------------------------------------

#[test]
fn prefix_collect_basic() {
    let mut t = CritBitTree::new();
    t.insert(b"apple".to_vec());
    t.insert(b"application".to_vec());
    t.insert(b"apply".to_vec());
    t.insert(b"banana".to_vec());

    let mut results = t.prefix_collect(b"app");
    results.sort();
    assert_eq!(results, vec![b"apple".as_slice(), b"application", b"apply"]);
}

#[test]
fn prefix_collect_exact_match_only() {
    let mut t = CritBitTree::new();
    t.insert(b"cat".to_vec());
    t.insert(b"catch".to_vec());
    t.insert(b"dog".to_vec());

    // Prefix "cat" matches "cat" and "catch"
    let mut results = t.prefix_collect(b"cat");
    results.sort();
    assert_eq!(results, vec![b"cat".as_slice(), b"catch"]);
}

#[test]
fn prefix_collect_no_match_returns_empty() {
    let mut t = CritBitTree::new();
    t.insert(b"alpha".to_vec());
    t.insert(b"beta".to_vec());
    assert!(t.prefix_collect(b"gamma").is_empty());
}

#[test]
fn prefix_collect_empty_prefix_returns_all() {
    let mut t = CritBitTree::new();
    let keys: &[&[u8]] = &[b"x", b"y", b"z"];
    for k in keys {
        t.insert(k.to_vec());
    }
    // Empty prefix matches every key.
    let mut results = t.prefix_collect(b"");
    results.sort();
    assert_eq!(results, vec![b"x".as_slice(), b"y", b"z"]);
}

// --- ordering and edge cases --------------------------------------------

#[test]
fn keys_differing_only_in_length() {
    let mut t = CritBitTree::new();
    t.insert(b"ab".to_vec());
    t.insert(b"abc".to_vec());
    assert!(t.contains(b"ab"));
    assert!(t.contains(b"abc"));
}

#[test]
fn single_byte_keys() {
    let mut t = CritBitTree::new();
    for b in 0u8..=255 {
        t.insert(vec![b]);
    }
    for b in 0u8..=255 {
        assert!(t.contains(&[b]));
    }
    for b in 0u8..=255 {
        assert!(t.delete(&[b]));
    }
    assert!(t.is_empty());
}
