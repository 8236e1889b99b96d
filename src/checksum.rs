//! The 32-bit FNV-1a checksum that protects every frame's payload.

use vstd::arithmetic::div_mod::{lemma_mod_multiples_vanish, lemma_mul_mod_noop_left, lemma_small_mod};
use vstd::arithmetic::mul::{lemma_mul_is_associative, lemma_mul_is_distributive_add};
use vstd::prelude::*;

verus! {

pub const FNV_OFFSET_BASIS: u32 = 0x811C9DC5;

pub const FNV_PRIME: u32 = 0x01000193;

/// The multiplicative inverse of `FNV_PRIME` modulo 2^32.
const FNV_PRIME_INVERSE: u32 = 0x359C449B;

/// One FNV-1a round: xor the byte into the hash, then multiply by the prime
/// modulo 2^32.
pub open spec fn fnv1a_step(hash: u32, byte: u8) -> u32 {
    (((hash ^ (byte as u32)) as nat * FNV_PRIME as nat) % 0x1_0000_0000nat) as u32
}

/// FNV-1a of a byte sequence: the offset basis folded through every byte,
/// first to last.
pub open spec fn fnv1a_spec(data: Seq<u8>) -> u32
    decreases data.len(),
{
    if data.len() == 0 {
        FNV_OFFSET_BASIS
    } else {
        fnv1a_step(fnv1a_spec(data.drop_last()), data.last())
    }
}

/// Computes the FNV-1a checksum of `data`.
pub fn fnv1a32(data: &[u8]) -> (r: u32)
    ensures
        r == fnv1a_spec(data@),
{
    let mut hash: u32 = FNV_OFFSET_BASIS;
    let mut i: usize = 0;
    while i < data.len()
        invariant
            i <= data@.len(),
            hash == fnv1a_spec(data@.subrange(0, i as int)),
        decreases data@.len() - i,
    {
        hash ^= data[i] as u32;
        hash = hash.wrapping_mul(FNV_PRIME);
        assert(data@.subrange(0, i + 1).drop_last() == data@.subrange(0, i as int));
        i += 1;
    }
    assert(data@.subrange(0, data@.len() as int) == data@);
    hash
}

/// The empty input hashes to the offset basis, and the checksum is a
/// function of the bytes alone: equal inputs always give equal results.
pub proof fn lemma_checksum_determinism(a: Seq<u8>, b: Seq<u8>)
    requires
        a == b,
    ensures
        fnv1a_spec(Seq::<u8>::empty()) == FNV_OFFSET_BASIS,
        fnv1a_spec(a) == fnv1a_spec(b),
{
}

/// Multiplying by the prime and then by its inverse, modulo 2^32, gives
/// back the value it started from.
proof fn lemma_mul_prime_inverse(z: int)
    requires
        0 <= z < 0x1_0000_0000int,
    ensures
        ((z * FNV_PRIME as int) % 0x1_0000_0000int) * FNV_PRIME_INVERSE as int % 0x1_0000_0000int
            == z,
{
    let m: int = 0x1_0000_0000;
    let p: int = FNV_PRIME as int;
    let q: int = FNV_PRIME_INVERSE as int;
    let k: int = (p * q - 1) / m;
    assert(p * q == 1 + m * k);
    lemma_mul_mod_noop_left(z * p, q, m);
    lemma_mul_is_associative(z, p, q);
    lemma_mul_is_distributive_add(z, 1, m * k);
    lemma_mul_is_associative(z, m, k);
    lemma_mul_is_associative(m, z, k);
    assert(z * (m * k) == m * (z * k));
    lemma_mod_multiples_vanish(z * k, z, m);
    lemma_small_mod(z as nat, m as nat);
}

/// Multiplying by the prime modulo 2^32 loses no information.
proof fn lemma_mul_prime_injective(x: nat, y: nat)
    requires
        x < 0x1_0000_0000nat,
        y < 0x1_0000_0000nat,
        (x * FNV_PRIME as nat) % 0x1_0000_0000nat == (y * FNV_PRIME as nat) % 0x1_0000_0000nat,
    ensures
        x == y,
{
    lemma_mul_prime_inverse(x as int);
    lemma_mul_prime_inverse(y as int);
}

/// Distinct hashes stay distinct after a round with the same byte.
pub proof fn lemma_step_injective_hash(h1: u32, h2: u32, byte: u8)
    requires
        h1 != h2,
    ensures
        fnv1a_step(h1, byte) != fnv1a_step(h2, byte),
{
    let x = h1 ^ (byte as u32);
    let y = h2 ^ (byte as u32);
    assert(x != y) by (bit_vector)
        requires
            h1 != h2,
            x == h1 ^ (byte as u32),
            y == h2 ^ (byte as u32),
    ;
    if fnv1a_step(h1, byte) == fnv1a_step(h2, byte) {
        lemma_mul_prime_injective(x as nat, y as nat);
    }
}

/// From the same hash, distinct bytes give distinct hashes.
pub proof fn lemma_step_injective_byte(h: u32, b1: u8, b2: u8)
    requires
        b1 != b2,
    ensures
        fnv1a_step(h, b1) != fnv1a_step(h, b2),
{
    let x = h ^ (b1 as u32);
    let y = h ^ (b2 as u32);
    assert(x != y) by (bit_vector)
        requires
            b1 != b2,
            x == h ^ (b1 as u32),
            y == h ^ (b2 as u32),
    ;
    if fnv1a_step(h, b1) == fnv1a_step(h, b2) {
        lemma_mul_prime_injective(x as nat, y as nat);
    }
}

/// Changing exactly one byte of the input always changes the checksum.
pub proof fn lemma_single_byte_change_detected(data: Seq<u8>, i: int, v: u8)
    requires
        0 <= i < data.len(),
        data[i] != v,
    ensures
        fnv1a_spec(data.update(i, v)) != fnv1a_spec(data),
    decreases data.len(),
{
    let changed = data.update(i, v);
    if i == data.len() - 1 {
        assert(changed.drop_last() == data.drop_last());
        lemma_step_injective_byte(fnv1a_spec(data.drop_last()), v, data.last());
    } else {
        assert(changed.drop_last() == data.drop_last().update(i, v));
        lemma_single_byte_change_detected(data.drop_last(), i, v);
        lemma_step_injective_hash(
            fnv1a_spec(changed.drop_last()),
            fnv1a_spec(data.drop_last()),
            data.last(),
        );
    }
}

} // verus!
