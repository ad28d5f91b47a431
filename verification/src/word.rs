//! One byte inside one machine word.
//!
//! The traced process's memory is read and written a word at a time. A
//! breakpoint lives in the byte at the word's address, which on a
//! little-endian machine is the word's lowest byte.

use vstd::prelude::*;

verus! {

/// The one-byte instruction that stops the traced process.
pub const TRAP_OPCODE: u8 = 0xCC;

/// The byte at position `index` of `word`, position 0 being the lowest.
pub open spec fn byte_of(word: u64, index: nat) -> u8 {
    ((word as int / pow256(index)) % 256) as u8
}

/// 256 to the power `index`.
pub open spec fn pow256(index: nat) -> int
    decreases index,
{
    if index == 0 {
        1
    } else {
        256 * pow256((index - 1) as nat)
    }
}

/// `word` with its lowest byte replaced by `byte`.
pub open spec fn replace_low(word: u64, byte: u8) -> u64 {
    ((word / 256) * 256 + byte) as u64
}

/// The lowest byte of `word`.
pub fn low_byte(word: u64) -> (byte: u8)
    ensures
        byte == byte_of(word, 0),
        byte == word % 256,
{
    assert(word & 0xff == word % 256) by (bit_vector);
    assert(pow256(0) == 1);
    (word & 0xff) as u8
}

/// Replaces the lowest byte of `word` and keeps the seven others.
pub fn with_low_byte(word: u64, byte: u8) -> (patched: u64)
    ensures
        patched == replace_low(word, byte),
        byte_of(patched, 0) == byte,
        forall|i: nat| 1 <= i < 8 ==> byte_of(patched, i) == byte_of(word, i),
{
    let wide: u64 = byte as u64;
    let patched: u64 = (word & !0xffu64) | wide;
    assert(patched == (word / 256) * 256 + wide) by (bit_vector)
        requires
            patched == (word & !0xffu64) | wide,
            wide < 256,
    ;
    proof {
        lemma_replace_low(word, byte);
    }
    patched
}

/// Replacing the lowest byte sets that byte and leaves the others alone.
pub proof fn lemma_replace_low(word: u64, byte: u8)
    ensures
        (word / 256) * 256 + byte <= u64::MAX,
        byte_of(replace_low(word, byte), 0) == byte,
        forall|i: nat| 1 <= i < 8 ==> byte_of(replace_low(word, byte), i) == byte_of(word, i),
        replace_low(word, byte_of(word, 0)) == word,
{
    let patched = (word / 256) * 256 + byte;
    assert(pow256(0) == 1);
    assert(patched / 256 == word / 256);
    assert forall|i: nat| 1 <= i < 8 implies byte_of(patched as u64, i) == byte_of(word, i) by {
        let p = pow256((i - 1) as nat);
        lemma_pow256_positive((i - 1) as nat);
        assert(pow256(i) == 256 * p);
        lemma_div_twice(patched, p);
        lemma_div_twice(word as int, p);
    }
}

/// Every power of 256 is positive.
pub proof fn lemma_pow256_positive(index: nat)
    ensures
        pow256(index) > 0,
    decreases index,
{
    if index > 0 {
        lemma_pow256_positive((index - 1) as nat);
    }
}

proof fn lemma_div_twice(x: int, p: int)
    requires
        0 <= x,
        p > 0,
    ensures
        x / (256 * p) == (x / 256) / p,
{
    vstd::arithmetic::div_mod::lemma_div_denominator(x, 256, p);
}

} // verus!
