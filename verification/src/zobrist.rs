//! Zobrist hashing.
//!
//! Every (color, vertex) pair has a fixed pseudo-random 64-bit constant;
//! the hash of a position is the XOR of the constants of its occupied
//! vertices. The constants are produced by a splitmix-style mixer, so no
//! table needs to be stored.

use vstd::prelude::*;

verus! {

/// `(a * b) mod 2^64`.
pub open spec fn mul_mod64(a: u64, b: u64) -> u64 {
    (((a as int) * (b as int)) % 0x1_0000_0000_0000_0000) as u64
}

/// One splitmix64 finalization round.
pub open spec fn splitmix(x: u64) -> u64 {
    let z1 = mul_mod64(x ^ (x >> 30), 0xBF58476D1CE4E5B9);
    let z2 = mul_mod64(z1 ^ (z1 >> 27), 0x94D049BB133111EB);
    z2 ^ (z2 >> 31)
}

/// The Zobrist constant for color byte `c` (1 or 2) at vertex `v`.
pub open spec fn zobrist_at(c: int, v: int) -> u64 {
    splitmix(mul_mod64((c * 368 + v + 1) as u64, 0x9E37_79B9_7F4A_7C15))
}

fn mul_wrap(a: u64, b: u64) -> (r: u64)
    ensures
        r == mul_mod64(a, b),
{
    proof {
        assert(0 <= (a as int) * (b as int)
            < 0x1_0000_0000_0000_0000_0000_0000_0000_0000) by (nonlinear_arith)
            requires
                0 <= (a as int) < 0x1_0000_0000_0000_0000,
                0 <= (b as int) < 0x1_0000_0000_0000_0000,
        ;
    }
    let wide: u128 = (a as u128) * (b as u128);
    let r: u64 = (wide % 0x1_0000_0000_0000_0000u128) as u64;
    assert(r == mul_mod64(a, b)) by {
        assert(wide == (a as int) * (b as int));
    }
    r
}

/// The Zobrist constant for color byte `c` at vertex `v`, computed on the fly.
pub fn zobrist_value(c: u8, v: usize) -> (r: u64)
    requires
        c == 1 || c == 2,
        v < 368,
    ensures
        r == zobrist_at(c as int, v as int),
{
    let seed: u64 = (c as u64) * 368 + (v as u64) + 1;
    assert(seed == ((c as int) * 368 + (v as int) + 1) as u64);
    let x = mul_wrap(seed, 0x9E37_79B9_7F4A_7C15);
    let z1 = mul_wrap(x ^ (x >> 30), 0xBF58476D1CE4E5B9);
    let z2 = mul_wrap(z1 ^ (z1 >> 27), 0x94D049BB133111EB);
    z2 ^ (z2 >> 31)
}

/// The hash contribution of vertex `j`: the Zobrist constant of the stone
/// there, or 0 for an empty or sentinel cell.
pub open spec fn stone_contrib(s: Seq<u8>, j: int) -> u64 {
    if s[j] == 1 || s[j] == 2 {
        zobrist_at(s[j] as int, j)
    } else {
        0
    }
}

/// XOR of the contributions of vertices `[0, k)`.
pub open spec fn xor_upto(s: Seq<u8>, k: int) -> u64
    decreases k,
{
    if k <= 0 {
        0
    } else {
        xor_upto(s, k - 1) ^ stone_contrib(s, k - 1)
    }
}

/// The Zobrist hash of a whole position.
pub open spec fn xor_all(s: Seq<u8>) -> u64 {
    xor_upto(s, 361)
}

pub proof fn lemma_xor_zero(a: u64)
    ensures
        a ^ 0 == a,
        0 ^ a == a,
{
    assert(a ^ 0 == a && 0 ^ a == a) by (bit_vector);
}

pub proof fn lemma_xor_assoc(a: u64, b: u64, c: u64)
    ensures
        (a ^ b) ^ c == a ^ (b ^ c),
{
    assert((a ^ b) ^ c == a ^ (b ^ c)) by (bit_vector);
}

pub proof fn lemma_xor_cancel(a: u64, b: u64)
    ensures
        a ^ (a ^ b) == b,
{
    assert(a ^ (a ^ b) == b) by (bit_vector);
}

proof fn lemma_xor_shuffle(a: u64, b: u64, c: u64)
    ensures
        ((a ^ b) ^ b) ^ c == a ^ c,
{
    assert(((a ^ b) ^ b) ^ c == a ^ c) by (bit_vector);
}

proof fn lemma_xor_reorder(x: u64, a: u64, b: u64, c: u64)
    ensures
        ((x ^ a) ^ b) ^ c == ((x ^ c) ^ a) ^ b,
{
    assert(((x ^ a) ^ b) ^ c == ((x ^ c) ^ a) ^ b) by (bit_vector);
}

/// A position with no stones below `k` hashes to 0.
pub proof fn lemma_xor_upto_empty(s: Seq<u8>, k: int)
    requires
        forall|j: int| 0 <= j < k ==> s[j] != 1 && s[j] != 2,
    ensures
        xor_upto(s, k) == 0,
    decreases k,
{
    if k > 0 {
        lemma_xor_upto_empty(s, k - 1);
        lemma_xor_zero(0);
    }
}

/// Changing one vertex changes the fold by exactly the old and new
/// contributions of that vertex.
pub proof fn lemma_xor_upto_update(s1: Seq<u8>, s2: Seq<u8>, x: int, k: int)
    requires
        forall|j: int| 0 <= j < k && j != x ==> stone_contrib(s1, j) == stone_contrib(s2, j),
        0 <= x,
    ensures
        k <= x ==> xor_upto(s2, k) == xor_upto(s1, k),
        x < k ==> xor_upto(s2, k) == (xor_upto(s1, k) ^ stone_contrib(s1, x)) ^ stone_contrib(
            s2,
            x,
        ),
    decreases k,
{
    if k > 0 {
        lemma_xor_upto_update(s1, s2, x, k - 1);
        if x == k - 1 {
            lemma_xor_shuffle(xor_upto(s1, k - 1), stone_contrib(s1, x), stone_contrib(s2, x));
        } else if x < k - 1 {
            lemma_xor_reorder(
                xor_upto(s1, k - 1),
                stone_contrib(s1, x),
                stone_contrib(s2, x),
                stone_contrib(s1, k - 1),
            );
        }
    }
}

/// Placing a stone of color byte `c` on the empty vertex `i` XORs that
/// stone's constant into the position hash.
pub proof fn lemma_xor_all_place(s: Seq<u8>, c: u8, i: int)
    requires
        0 <= i < 361,
        s[i] == 0,
        c == 1 || c == 2,
        s.len() == 368,
    ensures
        xor_all(s.update(i, c)) == xor_all(s) ^ zobrist_at(c as int, i),
{
    let s2 = s.update(i, c);
    assert(forall|j: int| 0 <= j < 361 && j != i ==> stone_contrib(s, j) == stone_contrib(s2, j));
    lemma_xor_upto_update(s, s2, i, 361);
    assert(stone_contrib(s, i) == 0);
    assert(stone_contrib(s2, i) == zobrist_at(c as int, i));
    lemma_xor_zero(xor_all(s));
}

/// Clearing the stone on vertex `i` XORs that stone's constant out of the
/// position hash.
pub proof fn lemma_xor_all_clear(s: Seq<u8>, i: int)
    requires
        0 <= i < 361,
        s[i] == 1 || s[i] == 2,
        s.len() == 368,
    ensures
        xor_all(s.update(i, 0)) == xor_all(s) ^ zobrist_at(s[i] as int, i),
{
    let s2 = s.update(i, 0);
    assert(forall|j: int| 0 <= j < 361 && j != i ==> stone_contrib(s, j) == stone_contrib(s2, j));
    lemma_xor_upto_update(s, s2, i, 361);
    assert(stone_contrib(s2, i) == 0);
    lemma_xor_zero(xor_all(s) ^ stone_contrib(s, i));
}

} // verus!
