use critbit::{crit_bit_pos, get_bit, CritBitTree};

#[test]
fn get_bit_past_end_reads_zero() {
    assert_eq!(get_bit(&[0xff], 8), 0);
    assert_eq!(get_bit(&[], 0), 0);
    assert_eq!(get_bit(&[0xff, 0x80], 15), 1);
}

#[test]
fn crit_bit_pos_takes_highest_differing_bit() {
    // Bytes 0 and 1 both differ; the highest-numbered differing bit is in byte 1.
    assert_eq!(crit_bit_pos(&[0x01, 0x00], &[0x00, 0x01]), Some(8));
    assert_eq!(crit_bit_pos(&[0xff, 0x10], &[0x00, 0x00]), Some(12));
}

#[test]
fn crit_bit_pos_different_lengths() {
    // The shorter key reads as zero past its end.
    assert_eq!(crit_bit_pos(b"a", &[b'a', 0x80]), Some(15));
    assert_eq!(crit_bit_pos(b"ab", b"abc"), Some(22));
    // Keys that differ only in trailing zero bytes split just past the shorter one.
    assert_eq!(crit_bit_pos(b"ab", &[b'a', b'b', 0, 0]), Some(16));
    assert_eq!(crit_bit_pos(&[], &[0]), Some(0));
    assert_eq!(crit_bit_pos(&[0], &[]), Some(0));
}

#[test]
fn crit_bit_pos_is_symmetric() {
    let pairs: &[(&[u8], &[u8])] = &[
        (b"three", b"two"),
        (b"ab", b"ab\0"),
        (&[0x01, 0x00], &[0x00, 0x01]),
        (b"same", b"same"),
        (b"", b"x"),
    ];
    for (a, b) in pairs {
        assert_eq!(crit_bit_pos(a, b), crit_bit_pos(b, a));
    }
}

#[test]
fn crit_bit_roundtrip_on_longer_keys() {
    let a = b"three";
    let b = b"two";
    let cb = crit_bit_pos(a, b).unwrap();
    assert_ne!(get_bit(a, cb), get_bit(b, cb));
    assert_eq!(get_bit(a, cb) + get_bit(b, cb), 1);
}

#[test]
fn keys_differing_in_several_bytes() {
    let mut t = CritBitTree::new();
    assert!(t.insert(vec![0, 1]));
    assert!(t.insert(vec![1, 0]));
    assert!(t.insert(vec![0, 0]));
    assert!(t.contains(&[0, 1]));
    assert!(t.contains(&[1, 0]));
    assert!(t.contains(&[0, 0]));
    assert!(!t.contains(&[1, 1]));
}

#[test]
fn keys_differing_only_in_trailing_zeros_are_distinct() {
    let mut t = CritBitTree::new();
    assert!(t.insert(b"ab".to_vec()));
    assert!(t.insert(vec![b'a', b'b', 0]));
    assert!(!t.insert(vec![b'a', b'b', 0]));
    assert!(t.insert(vec![b'a', b'b', 0, 0]));
    assert!(t.insert(b"aB".to_vec()));
    assert!(t.contains(b"ab"));
    assert!(t.contains(&[b'a', b'b', 0]));
    assert!(t.contains(&[b'a', b'b', 0, 0]));
    assert!(t.contains(b"aB"));
    assert!(!t.contains(&[b'a', b'b', 0, 0, 0]));
    let mut all = t.prefix_collect(b"ab");
    all.sort();
    assert_eq!(all, vec![b"ab".as_slice(), &[b'a', b'b', 0], &[b'a', b'b', 0, 0]]);
    assert!(t.delete(&[b'a', b'b', 0]));
    assert!(!t.contains(&[b'a', b'b', 0]));
    assert!(t.contains(b"ab"));
    assert!(t.contains(&[b'a', b'b', 0, 0]));
}

#[test]
fn zero_tail_insertion_order_does_not_matter() {
    let keys: Vec<Vec<u8>> = vec![vec![], vec![0], vec![0, 0], vec![0, 0, 0], vec![1], vec![1, 0]];
    let orders: [[usize; 6]; 4] = [
        [0, 1, 2, 3, 4, 5],
        [5, 4, 3, 2, 1, 0],
        [2, 0, 3, 1, 5, 4],
        [3, 5, 1, 4, 0, 2],
    ];
    for order in orders {
        let mut t = CritBitTree::new();
        for &i in order.iter() {
            assert!(t.insert(keys[i].clone()));
        }
        for k in &keys {
            assert!(t.contains(k));
        }
        let mut all = t.prefix_collect(b"");
        all.sort();
        let mut expected: Vec<&[u8]> = keys.iter().map(|k| k.as_slice()).collect();
        expected.sort();
        assert_eq!(all, expected);
        for &i in order.iter().rev() {
            assert!(t.delete(&keys[i]));
            assert!(!t.contains(&keys[i]));
        }
        assert!(t.is_empty());
    }
}

#[test]
fn insert_then_delete_restores() {
    let mut t = CritBitTree::new();
    t.insert(b"kiwi".to_vec());
    t.insert(b"lime".to_vec());
    assert!(t.insert(b"lemon".to_vec()));
    assert!(t.delete(b"lemon"));
    assert!(!t.contains(b"lemon"));
    let mut all = t.prefix_collect(b"");
    all.sort();
    assert_eq!(all, vec![b"kiwi".as_slice(), b"lime"]);
}

#[test]
fn delete_then_insert_restores() {
    let mut t = CritBitTree::new();
    for k in [b"red".as_slice(), b"green", b"blue"] {
        t.insert(k.to_vec());
    }
    assert!(t.delete(b"green"));
    assert!(t.insert(b"green".to_vec()));
    let mut all = t.prefix_collect(b"");
    all.sort();
    assert_eq!(all, vec![b"blue".as_slice(), b"green", b"red"]);
}

#[test]
fn key_is_its_own_prefix() {
    let mut t = CritBitTree::new();
    t.insert(b"car".to_vec());
    t.insert(b"cart".to_vec());
    t.insert(b"care".to_vec());
    assert_eq!(t.prefix_collect(b"cart"), vec![b"cart".as_slice()]);
    let mut r = t.prefix_collect(b"car");
    r.sort();
    assert_eq!(r, vec![b"car".as_slice(), b"care", b"cart"]);
}

#[test]
fn prefix_longer_than_every_key() {
    let mut t = CritBitTree::new();
    t.insert(b"ab".to_vec());
    t.insert(b"cd".to_vec());
    assert!(t.prefix_collect(b"abc").is_empty());
}

#[test]
fn new_tree_is_empty() {
    let mut t = CritBitTree::new();
    assert!(t.is_empty());
    t.insert(b"z".to_vec());
    assert!(!t.is_empty());
}

#[test]
fn empty_key_is_stored() {
    let mut t = CritBitTree::new();
    assert!(t.insert(Vec::new()));
    assert!(t.insert(b"a".to_vec()));
    assert!(t.contains(&[]));
    assert!(t.delete(&[]));
    assert!(!t.contains(&[]));
    assert!(t.contains(b"a"));
}
