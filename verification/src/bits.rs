//! Rotations and exclusive-or facts on 32-bit words.
//!
//! All rolling-hash accumulators in this crate are 32-bit words combined by
//! exclusive-or under bit rotations; the lemmas here are the algebra that the
//! streaming proofs rest on.
use vstd::prelude::*;

verus! {

use vstd::arithmetic::div_mod::{lemma_add_mod_noop, lemma_fundamental_div_mod, lemma_mod_bound, lemma_mod_multiples_vanish};

/// A rotation amount, reduced to the word width.
pub open spec fn rot_amt(n: int) -> u32 {
    (n % 32) as u32
}

/// Rotate a 32-bit word left by `n` bits, for `n < 32`.
pub open spec fn spec_rotl(x: u32, n: u32) -> u32
    recommends
        n < 32,
{
    if n == 0 {
        x
    } else {
        (x << n) | (x >> ((32 - n) as u32))
    }
}

/// Rotate a 32-bit word left by `n` bits, for any integer `n`; a negative `n`
/// is a right rotation.
pub open spec fn rotl_i(x: u32, n: int) -> u32 {
    spec_rotl(x, rot_amt(n))
}

/// Rotate a 32-bit word left by `n < 32` bits.
pub fn rotl(x: u32, n: u32) -> (r: u32)
    requires
        n < 32,
    ensures
        r == spec_rotl(x, n),
{
    if n == 0 {
        x
    } else {
        (x << n) | (x >> (32 - n))
    }
}

/// Rotate a 32-bit word right by `n < 32` bits.
pub fn rotr(x: u32, n: u32) -> (r: u32)
    requires
        n < 32,
    ensures
        r == rotl_i(x, -(n as int)),
{
    proof {
        lemma_rotr_is_rotl(x, n);
    }
    if n == 0 {
        x
    } else {
        (x >> n) | (x << (32 - n))
    }
}

proof fn lemma_rotr_is_rotl(x: u32, n: u32)
    by (bit_vector)
    requires
        n < 32,
    ensures
        (if n == 0 {
            x
        } else {
            (x >> n) | (x << ((32 - n) as u32))
        }) == spec_rotl(x, ((32 - n) % 32) as u32),
{
}

/// Rotation distributes over exclusive-or.
pub proof fn lemma_rotl_xor(x: u32, y: u32, n: u32)
    by (bit_vector)
    requires
        n < 32,
    ensures
        spec_rotl(x ^ y, n) == spec_rotl(x, n) ^ spec_rotl(y, n),
{
}

/// Two rotations compose into one by the summed amount.
#[verifier::rlimit(100)]
pub proof fn lemma_rotl_compose(x: u32, a: u32, b: u32)
    by (bit_vector)
    requires
        a < 32,
        b < 32,
    ensures
        spec_rotl(spec_rotl(x, a), b) == spec_rotl(x, ((a + b) % 32) as u32),
{
}

/// Integer-amount version of `lemma_rotl_xor`.
pub proof fn lemma_rotl_i_xor(x: u32, y: u32, n: int)
    ensures
        rotl_i(x ^ y, n) == rotl_i(x, n) ^ rotl_i(y, n),
{
    lemma_rotl_xor(x, y, rot_amt(n));
}

/// Integer-amount version of `lemma_rotl_compose`.
pub proof fn lemma_rotl_i_compose(x: u32, a: int, b: int)
    ensures
        rotl_i(rotl_i(x, a), b) == rotl_i(x, a + b),
{
    lemma_add_mod_noop(a, b, 32);
    lemma_rotl_compose(x, rot_amt(a), rot_amt(b));
}

/// Rotating by nothing changes nothing.
pub proof fn lemma_rotl_i_zero(x: u32)
    ensures
        rotl_i(x, 0) == x,
{
}

/// The zero word is fixed by every rotation.
pub proof fn lemma_rotl_zero_word(n: u32)
    by (bit_vector)
    requires
        n < 32,
    ensures
        spec_rotl(0u32, n) == 0u32,
{
}

/// Rotation amounts only matter up to whole turns.
pub proof fn lemma_rot_amt_turns(n: int, c: int)
    ensures
        rot_amt(n + 32 * c) == rot_amt(n),
{
    lemma_mod_multiples_vanish(c, n, 32);
}

/// The zero word is fixed by rotation by any integer amount.
pub proof fn lemma_rotl_i_zero_word(n: int)
    ensures
        rotl_i(0u32, n) == 0u32,
{
    lemma_mod_bound(n, 32);
    lemma_rotl_zero_word(rot_amt(n));
}

/// Reducing a nonnegative amount modulo the word width does not change a
/// right rotation by it.
pub proof fn lemma_rot_amt_reduce(n: int)
    requires
        0 <= n,
    ensures
        rot_amt(-(n % 32)) == rot_amt(-n),
{
    lemma_fundamental_div_mod(n, 32);
    lemma_rot_amt_turns(-(n % 32), -(n / 32));
}

/// Exclusive-or lets the last two operands trade places.
pub proof fn lemma_xor_swap(a: u32, b: u32, c: u32)
    by (bit_vector)
    ensures
        ((a ^ b) ^ c) == ((a ^ c) ^ b),
{
}

/// A 2-bit symbol's complement is again a 2-bit symbol, and complementing
/// twice gives the symbol back.
pub proof fn lemma_complement_sym(b: u8)
    by (bit_vector)
    ensures
        ((b ^ 2) ^ 2) == b,
        b < 4 ==> (b ^ 2) < 4,
{
}


/// Exclusive-or cancellation and unit.
pub proof fn lemma_xor_basics(a: u32, b: u32)
    by (bit_vector)
    ensures
        ((a ^ b) ^ b) == a,
        (a ^ 0u32) == a,
        (0u32 ^ a) == a,
        (a ^ b) == (b ^ a),
{
}

} // verus!
