//! Properties that relate the tree operations to one another, stated over
//! the key sets and bit positions that their contracts speak of.
use vstd::prelude::*;

verus! {

use crate::bits::{
    crit_bit_result, is_crit_bit, key_bit, lemma_key_bit_is_binary, same_bits, split_pos,
};
use crate::tree::with_prefix;

/// Two keys split at one position only.
pub proof fn law_split_pos_unique(a: Seq<u8>, b: Seq<u8>, p: nat, q: nat)
    requires
        split_pos(a, b, p),
        split_pos(a, b, q),
    ensures
        p == q,
{
    if !same_bits(a, b) && p != q {
        if p < q {
            assert(key_bit(a, q) == key_bit(b, q));
        } else {
            assert(key_bit(a, p) == key_bit(b, p));
        }
    }
}

/// `crit_bit_pos` has one possible result for given keys, and swapping the
/// keys does not change it.
pub proof fn law_crit_bit_pos_deterministic_and_symmetric(
    a: Seq<u8>,
    b: Seq<u8>,
    r1: Option<usize>,
    r2: Option<usize>,
    r3: Option<usize>,
)
    requires
        crit_bit_result(a, b, r1),
        crit_bit_result(a, b, r2),
        crit_bit_result(b, a, r3),
    ensures
        r1 == r2,
        r1 == r3,
{
    if let Some(p) = r1 {
        let q = r2->0;
        let t = r3->0;
        law_split_pos_unique(a, b, p as nat, q as nat);
        assert(split_pos(a, b, t as nat));
        law_split_pos_unique(a, b, p as nat, t as nat);
    }
}

/// Whenever two keys differ in some bit, `get_bit` reads opposite bits of
/// them at the index that `crit_bit_pos` returns: one key has a 0 and the
/// other a 1.
pub proof fn law_crit_bit_roundtrip(a: Seq<u8>, b: Seq<u8>, pos: nat)
    requires
        !same_bits(a, b),
        split_pos(a, b, pos),
    ensures
        is_crit_bit(a, b, pos),
        key_bit(a, pos) != key_bit(b, pos),
        key_bit(a, pos) + key_bit(b, pos) == 1,
{
    lemma_key_bit_is_binary(a, pos);
    lemma_key_bit_is_binary(b, pos);
}

/// After inserting `key`, the tree contains it, and every other key is
/// contained exactly when it was before.
pub proof fn law_insert_then_contains(keys: Set<Seq<u8>>, key: Seq<u8>, other: Seq<u8>)
    ensures
        keys.insert(key).contains(key),
        other != key ==> keys.insert(key).contains(other) == keys.contains(other),
{
}

/// The order of two insertions does not matter.
pub proof fn law_insert_order_irrelevant(keys: Set<Seq<u8>>, a: Seq<u8>, b: Seq<u8>)
    ensures
        keys.insert(a).insert(b) == keys.insert(b).insert(a),
{
    assert(keys.insert(a).insert(b) =~= keys.insert(b).insert(a));
}

/// Inserting a key that is already present changes nothing.
pub proof fn law_insert_present_is_noop(keys: Set<Seq<u8>>, key: Seq<u8>)
    requires
        keys.contains(key),
    ensures
        keys.insert(key) == keys,
{
    assert(keys.insert(key) =~= keys);
}

/// A successful insertion followed by a deletion of the same key gives back
/// the original key set.
pub proof fn law_insert_then_delete(keys: Set<Seq<u8>>, key: Seq<u8>)
    requires
        !keys.contains(key),
    ensures
        keys.insert(key).remove(key) == keys,
{
    assert(keys.insert(key).remove(key) =~= keys);
}

/// Deleting a stored key and inserting it again gives back the original key set.
pub proof fn law_delete_then_insert(keys: Set<Seq<u8>>, key: Seq<u8>)
    requires
        keys.contains(key),
    ensures
        !keys.remove(key).contains(key),
        keys.remove(key).insert(key) == keys,
{
    assert(keys.remove(key).insert(key) =~= keys);
}

/// After a deletion the key is absent and every other key is unaffected.
pub proof fn law_delete_then_absent(keys: Set<Seq<u8>>, key: Seq<u8>, other: Seq<u8>)
    ensures
        !keys.remove(key).contains(key),
        other != key ==> keys.remove(key).contains(other) == keys.contains(other),
{
}

/// The empty prefix matches every key.
pub proof fn law_empty_prefix_matches_all(keys: Set<Seq<u8>>)
    ensures
        with_prefix(keys, Seq::empty()) == keys,
{
    assert forall|k: Seq<u8>| keys.contains(k) implies Seq::<u8>::empty().is_prefix_of(k) by {
        assert(Seq::<u8>::empty() =~= k.subrange(0, 0));
    }
    assert(with_prefix(keys, Seq::empty()) =~= keys);
}

/// Every key matches itself as a prefix, so a stored key is always among the
/// keys collected for it.
pub proof fn law_key_matches_itself(keys: Set<Seq<u8>>, key: Seq<u8>)
    requires
        keys.contains(key),
    ensures
        with_prefix(keys, key).contains(key),
{
    assert(key =~= key.subrange(0, key.len() as int));
}

} // verus!
