//! Bit addressing of byte-string keys.
//!
//! Convention: bit 0 is the least significant bit of byte 0, and bit `n` is
//! bit `n % 8` (counted from the least significant end) of byte `n / 8`.
//! Bytes past the end of a key read as zero.
use vstd::prelude::*;

verus! {

use vstd::std_specs::bits::{u8_leading_zeros, axiom_u8_leading_zeros};

/// Longest key whose every bit index fits in a `usize`.
pub open spec fn max_key_len() -> nat {
    (usize::MAX / 8) as nat
}

/// Byte `i` of `key`, with zero past the end.
pub open spec fn key_byte(key: Seq<u8>, i: int) -> u8 {
    if 0 <= i < key.len() {
        key[i]
    } else {
        0u8
    }
}

/// Bit `index` of `key` under the LSB-first convention (0 or 1).
pub open spec fn key_bit(key: Seq<u8>, index: nat) -> u8 {
    (key_byte(key, (index / 8) as int) >> ((index % 8) as u8)) & 1u8
}

/// `a` and `b` hold the same bit at every index above `pos`.
pub open spec fn agree_above(a: Seq<u8>, b: Seq<u8>, pos: nat) -> bool {
    forall|i: nat| i > pos ==> #[trigger] key_bit(a, i) == key_bit(b, i)
}

/// `a` and `b` hold the same bit at every index: they differ at most in
/// trailing zero bytes.
pub open spec fn same_bits(a: Seq<u8>, b: Seq<u8>) -> bool {
    forall|i: nat| #[trigger] key_bit(a, i) == key_bit(b, i)
}

/// `pos` is the most significant (highest-numbered) bit at which `a` and `b` differ.
pub open spec fn is_crit_bit(a: Seq<u8>, b: Seq<u8>, pos: nat) -> bool {
    &&& key_bit(a, pos) != key_bit(b, pos)
    &&& agree_above(a, b, pos)
}

/// Length of the shorter of `a` and `b`.
pub open spec fn min_len(a: Seq<u8>, b: Seq<u8>) -> nat {
    if a.len() <= b.len() {
        a.len()
    } else {
        b.len()
    }
}

/// Length of the longer of `a` and `b`.
pub open spec fn max_len(a: Seq<u8>, b: Seq<u8>) -> nat {
    if a.len() >= b.len() {
        a.len()
    } else {
        b.len()
    }
}

/// `pos` is where `a` and `b` split: the most significant bit at which they
/// differ, or, for keys that hold the same bits (they differ only in trailing
/// zero bytes), the first bit past the shorter key.
pub open spec fn split_pos(a: Seq<u8>, b: Seq<u8>, pos: nat) -> bool {
    if same_bits(a, b) {
        pos == 8 * min_len(a, b)
    } else {
        is_crit_bit(a, b, pos)
    }
}

/// `pos` is what `crit_bit_pos(a, b)` returns: `None` for identical keys,
/// otherwise the position where they split.
pub open spec fn crit_bit_result(a: Seq<u8>, b: Seq<u8>, pos: Option<usize>) -> bool {
    match pos {
        None => a == b,
        Some(p) => a != b && split_pos(a, b, p as nat),
    }
}

/// A bit is always 0 or 1.
pub proof fn lemma_key_bit_is_binary(key: Seq<u8>, index: nat)
    ensures
        key_bit(key, index) == 0 || key_bit(key, index) == 1,
{
    let x = key_byte(key, (index / 8) as int);
    let s = (index % 8) as u8;
    assert((x >> s) & 1u8 == 0u8 || (x >> s) & 1u8 == 1u8) by (bit_vector);
}

/// Two bits that differ are each other's complement.
pub proof fn lemma_bits_differ(a: Seq<u8>, ia: nat, b: Seq<u8>, ib: nat)
    requires
        key_bit(a, ia) != key_bit(b, ib),
    ensures
        key_bit(a, ia) == 1 - key_bit(b, ib),
{
    lemma_key_bit_is_binary(a, ia);
    lemma_key_bit_is_binary(b, ib);
}

/// Agreement above a position is symmetric and transitive, and agreement
/// above `p` gives agreement above every `q >= p`.
pub proof fn lemma_agree_above_trans(a: Seq<u8>, b: Seq<u8>, c: Seq<u8>, p: nat, q: nat)
    requires
        agree_above(a, b, p),
        agree_above(b, c, q),
    ensures
        agree_above(a, c, if p >= q { p } else { q }),
        agree_above(c, a, if p >= q { p } else { q }),
{
}

/// Keys that agree byte for byte (zero past the end) agree bit for bit.
pub proof fn lemma_bytes_to_bits(a: Seq<u8>, b: Seq<u8>, i: nat)
    requires
        key_byte(a, (i / 8) as int) == key_byte(b, (i / 8) as int),
    ensures
        key_bit(a, i) == key_bit(b, i),
{
}

/// Returns the value (0 or 1) of bit `bit_index` in `key`; bits past the
/// end of `key` read as 0.
pub fn get_bit(key: &[u8], bit_index: usize) -> (bit: usize)
    ensures
        bit == key_bit(key@, bit_index as nat),
        bit <= 1,
{
    proof {
        lemma_key_bit_is_binary(key@, bit_index as nat);
    }
    let byte_index = bit_index / 8;
    if byte_index >= key.len() {
        proof {
            let z = ((bit_index as nat) % 8) as u8;
            assert((0u8 >> z) & 1u8 == 0u8) by (bit_vector);
        }
        return 0;
    }
    let bit_in_byte: u8 = (bit_index % 8) as u8;
    ((key[byte_index] >> bit_in_byte) & 1u8) as usize
}

/// The byte of `key` at `i`, zero past the end.
fn byte_or_zero(key: &[u8], i: usize) -> (b: u8)
    ensures
        b == key_byte(key@, i as int),
{
    if i < key.len() {
        key[i]
    } else {
        0
    }
}

/// Within one byte: the highest bit where `x` and `y` differ is
/// `7 - leading_zeros(x ^ y)`, and they agree on every higher bit.
proof fn lemma_xor_top_bit(x: u8, y: u8)
    requires
        x != y,
    ensures
        u8_leading_zeros(x ^ y) < 8,
        (x >> (7 - u8_leading_zeros(x ^ y)) as u8) & 1u8 != (y >> (7 - u8_leading_zeros(
            x ^ y,
        )) as u8) & 1u8,
        forall|j: u8|
            7 - u8_leading_zeros(x ^ y) < j < 8 ==> #[trigger] ((x >> j) & 1u8) == (y >> j) & 1u8,
{
    let z = x ^ y;
    axiom_u8_leading_zeros(z);
    assert(x != y ==> x ^ y != 0u8) by (bit_vector);
    let lz = u8_leading_zeros(z);
    let t: u8 = (7 - lz) as u8;
    assert((z >> t) & 1u8 != 0u8);
    assert(z == x ^ y ==> (z >> t) & 1u8 != 0u8 ==> (x >> t) & 1u8 != (y >> t) & 1u8)
        by (bit_vector);
    assert forall|j: u8| 7 - lz < j < 8 implies #[trigger] ((x >> j) & 1u8) == (y >> j) & 1u8 by {
        assert(8 - lz <= j);
        assert((z >> j) & 1u8 == 0u8);
        assert(z == x ^ y ==> (z >> j) & 1u8 == 0u8 ==> (x >> j) & 1u8 == (y >> j) & 1u8)
            by (bit_vector);
    }
}

/// Returns the global bit index (LSB = 0) of the most significant bit where
/// `a` and `b` differ, or `None` if they are identical.
///
/// "Most significant" in the LSB-first convention is the highest-numbered of
/// all the bits at which the two keys differ. The shorter key reads as zero
/// past its end; when that leaves no differing bit (the keys differ only in
/// trailing zero bytes), the result is the first bit past the shorter key.
pub fn crit_bit_pos(a: &[u8], b: &[u8]) -> (pos: Option<usize>)
    requires
        a@.len() <= max_key_len(),
        b@.len() <= max_key_len(),
    ensures
        crit_bit_result(a@, b@, pos),
        pos matches Some(p) ==> (p as nat) < 8 * max_len(a@, b@),
{
    let longest = if a.len() >= b.len() {
        a.len()
    } else {
        b.len()
    };
    let mut i = longest;
    while i > 0
        invariant
            i <= longest,
            longest == max_len(a@, b@),
            longest <= max_key_len(),
            forall|j: int| i <= j < longest ==> #[trigger] key_byte(a@, j) == key_byte(b@, j),
        decreases i,
    {
        i = i - 1;
        let x = byte_or_zero(a, i);
        let y = byte_or_zero(b, i);
        if x != y {
            let xor = x ^ y;
            proof {
                lemma_xor_top_bit(x, y);
            }
            let bit_in_byte: usize = 7 - xor.leading_zeros() as usize;
            let p = i * 8 + bit_in_byte;
            proof {
                let pn = p as nat;
                assert(pn / 8 == i as nat);
                assert(pn % 8 == bit_in_byte as nat);
                assert forall|k: nat| k > pn implies #[trigger] key_bit(a@, k) == key_bit(b@, k) by {
                    if k / 8 == i as nat {
                        let j = (k % 8) as u8;
                        assert(7 - u8_leading_zeros(x ^ y) < j < 8);
                        assert(((x >> j) & 1u8) == (y >> j) & 1u8);
                    } else {
                        assert(k / 8 > i as nat);
                        if k / 8 < longest {
                            assert(key_byte(a@, (k / 8) as int) == key_byte(b@, (k / 8) as int));
                        }
                        lemma_bytes_to_bits(a@, b@, k);
                    }
                }
            }
            proof {
                assert(is_crit_bit(a@, b@, p as nat));
                assert(!same_bits(a@, b@));
            }
            return Some(p);
        }
    }
    proof {
        assert forall|k: nat| #[trigger] key_bit(a@, k) == key_bit(b@, k) by {
            lemma_bytes_to_bits(a@, b@, k);
        }
    }
    if a.len() != b.len() {
        let shortest = if a.len() <= b.len() {
            a.len()
        } else {
            b.len()
        };
        return Some(shortest * 8);
    }
    proof {
        assert forall|j: int| 0 <= j < a@.len() implies a@[j] == b@[j] by {
            assert(key_byte(a@, j) == key_byte(b@, j));
        }
        assert(a@ =~= b@);
    }
    None
}

} // verus!
