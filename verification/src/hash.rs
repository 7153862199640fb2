//! Stable hashing.
//!
//! FNV-1a: small, dependency-free, and **identical across processes and releases**. The
//! platform relies on that: idempotency keys, cache keys, and mock provider responses all
//! have to agree between a coordinator that restarted and one that did not.

use vstd::prelude::*;

verus! {

/// FNV-1a offset basis.
pub const OFFSET: u64 = 0xcbf2_9ce4_8422_2325;

/// FNV-1a prime.
pub const PRIME: u64 = 0x0000_0100_0000_01b3;

/// One FNV-1a step: mix in a byte, then multiply by the prime, modulo two to the 64.
pub open spec fn fnv_step(hash: u64, byte: u8) -> u64 {
    ((hash ^ (byte as u64)) as int * PRIME as int % 0x1_0000_0000_0000_0000) as u64
}

/// The FNV-1a hash of `bytes`, started from `hash`.
pub open spec fn fnv(hash: u64, bytes: Seq<u8>) -> u64 {
    bytes.fold_left(hash, |h: u64, b: u8| fnv_step(h, b))
}

/// Fold `bytes` into `hash`. Chain calls to hash several fields.
pub fn fnv1a(hash: u64, bytes: &[u8]) -> (r: u64)
    ensures
        r == fnv(hash, bytes@),
{
    let mut h: u64 = hash;
    assert(bytes@.take(0) =~= seq![]);
    for i in 0..bytes.len()
        invariant
            h == fnv(hash, bytes@.take(i as int)),
    {
        assert(bytes@.take(i + 1).drop_last() =~= bytes@.take(i as int));
        h = (h ^ (bytes[i] as u64)).wrapping_mul(PRIME);
    }
    assert(bytes@.take(bytes@.len() as int) =~= bytes@);
    h
}

/// Hash of a single byte string.
pub fn stable_hash(bytes: &[u8]) -> (r: u64)
    ensures
        r == fnv(OFFSET, bytes@),
{
    fnv1a(OFFSET, bytes)
}

/// Hashing two byte strings one after the other is hashing their concatenation, so field
/// boundaries are invisible unless the caller inserts a separator.
pub proof fn law_chaining_is_concatenation(hash: u64, first: Seq<u8>, second: Seq<u8>)
    ensures
        fnv(fnv(hash, first), second) == fnv(hash, first + second),
    decreases second.len(),
{
    if second.len() == 0 {
        assert(first + second =~= first);
    } else {
        law_chaining_is_concatenation(hash, first, second.drop_last());
        assert((first + second).drop_last() =~= first + second.drop_last());
    }
}

/// What undoes a multiplication by the prime, modulo two to the 64.
spec fn undone(product: int) -> int {
    product * 0xce96_5057_aff6_957b % 0x1_0000_0000_0000_0000
}

/// A multiplication by the prime can be undone.
proof fn lemma_undone(x: u64)
    ensures
        undone(x as int * PRIME as int % 0x1_0000_0000_0000_0000) == x,
{
    let m: int = 0x1_0000_0000_0000_0000;
    let p: int = PRIME as int;
    let q: int = 0xce96_5057_aff6_957b;
    let n = x as int;
    vstd::arithmetic::div_mod::lemma_mul_mod_noop_left(n * p, q, m);
    vstd::arithmetic::mul::lemma_mul_is_associative(n, p, q);
    vstd::arithmetic::div_mod::lemma_mul_mod_noop_right(n, p * q, m);
    assert(p * q % m == 1) by (nonlinear_arith)
        requires
            p == 0x100_0000_01b3,
            q == 0xce96_5057_aff6_957b,
            m == 0x1_0000_0000_0000_0000,
    ;
    vstd::arithmetic::div_mod::lemma_small_mod(x as nat, m as nat);
}

/// One step keeps two hashes apart, and two bytes set one hash apart.
pub proof fn law_a_step_keeps_hashes_apart(one: u64, other: u64, byte: u8, second: u8)
    ensures
        one != other ==> fnv_step(one, byte) != fnv_step(other, byte),
        byte != second ==> fnv_step(one, byte) != fnv_step(one, second),
{
    let a = one ^ (byte as u64);
    let b = other ^ (byte as u64);
    let c = one ^ (second as u64);
    lemma_undone(a);
    lemma_undone(b);
    lemma_undone(c);
    assert(one != other ==> one ^ (byte as u64) != other ^ (byte as u64)) by (bit_vector);
    assert(byte != second ==> one ^ (byte as u64) != one ^ (second as u64)) by (bit_vector);
}

/// Folding the same bytes into two different hashes leaves them different.
pub proof fn law_the_same_bytes_keep_hashes_apart(one: u64, other: u64, bytes: Seq<u8>)
    requires
        one != other,
    ensures
        fnv(one, bytes) != fnv(other, bytes),
    decreases bytes.len(),
{
    if bytes.len() > 0 {
        law_the_same_bytes_keep_hashes_apart(one, other, bytes.drop_last());
        law_a_step_keeps_hashes_apart(
            fnv(one, bytes.drop_last()),
            fnv(other, bytes.drop_last()),
            bytes.last(),
            bytes.last(),
        );
    }
}

/// Two byte strings that differ in just one place have different hashes.
pub proof fn law_one_byte_makes_a_difference(
    hash: u64,
    before: Seq<u8>,
    one: u8,
    other: u8,
    after: Seq<u8>,
)
    requires
        one != other,
    ensures
        fnv(hash, before + seq![one] + after) != fnv(hash, before + seq![other] + after),
{
    let start = fnv(hash, before);
    law_chaining_is_concatenation(hash, before, seq![one]);
    law_chaining_is_concatenation(hash, before, seq![other]);
    law_chaining_is_concatenation(hash, before + seq![one], after);
    law_chaining_is_concatenation(hash, before + seq![other], after);
    lemma_one_byte(start, one);
    lemma_one_byte(start, other);
    law_a_step_keeps_hashes_apart(start, start, one, other);
    law_the_same_bytes_keep_hashes_apart(fnv_step(start, one), fnv_step(start, other), after);
}

/// Hashing one byte is one step.
pub proof fn lemma_one_byte(hash: u64, byte: u8)
    ensures
        fnv(hash, seq![byte]) == fnv_step(hash, byte),
{
    assert(seq![byte].drop_last() =~= seq![]);
    reveal_with_fuel(Seq::fold_left, 2);
}

} // verus!
