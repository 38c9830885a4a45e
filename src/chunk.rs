//! The slime chunk predicate: a seed derived from the world seed and the
//! chunk's coordinates, fed to a fresh generator.

use vstd::prelude::*;
use vstd::arithmetic::div_mod::*;
use crate::javarandom::{JavaRandom, bounded_draw, scramble};

verus! {

pub const SLIME_CHUNK_NUMBER_A: i32 = 0x4c1906;

pub const SLIME_CHUNK_NUMBER_B: i32 = 0x5ac0db;

pub const SLIME_CHUNK_NUMBER_C: i64 = 0x4307a7;

pub const SLIME_CHUNK_NUMBER_D: i32 = 0x5f24f;

pub const SLIME_CHUNK_NUMBER_E: i64 = 0x3ad8025f;

/// The two's-complement value of `v` in a word with `m` values.
pub open spec fn signed_residue(v: int, m: int) -> int {
    if v % m >= m / 2 {
        v % m - m
    } else {
        v % m
    }
}

/// `v` wrapped to a 32-bit signed integer.
pub open spec fn wrap32(v: int) -> int {
    signed_residue(v, 0x1_0000_0000)
}

/// `v` wrapped to a 64-bit signed integer.
pub open spec fn wrap64(v: int) -> int {
    signed_residue(v, 0x1_0000_0000_0000_0000)
}

/// The seed of the generator that classifies chunk `(x, z)`: the products of
/// the coordinates are taken on 32 bits, the sum on 64 bits.
pub open spec fn chunk_seed(seed: i64, x: i32, z: i32) -> i64 {
    (wrap64(
        seed + wrap32(x * x * 0x4c1906) + wrap32(x * 0x5ac0db) + wrap32(z * z) * 0x4307a7 + wrap32(
            z * 0x5f24f,
        ),
    ) as i64) ^ 0x3ad8025fi64
}

/// Chunk `(x, z)` of the world with seed `seed` is a slime chunk: a draw below
/// ten from its generator is zero.
pub open spec fn slime_chunk(seed: i64, x: i32, z: i32) -> bool {
    bounded_draw(scramble(chunk_seed(seed, x, z)), 10).0 == 0
}

proof fn lemma_residue_mod(v: int, m: int)
    requires
        m > 0,
        m % 2 == 0,
    ensures
        signed_residue(v, m) % m == v % m,
        -(m / 2) <= signed_residue(v, m) < m / 2,
{
    lemma_mod_bound(v, m);
    lemma_mod_mod_self(v, m);
    if v % m >= m / 2 {
        lemma_mod_sub_multiple(v % m, m);
    }
}

pub(crate) proof fn lemma_mod_mod_self(v: int, m: int)
    requires
        m > 0,
    ensures
        (v % m) % m == v % m,
{
    lemma_mod_bound(v, m);
    lemma_small_mod((v % m) as nat, m as nat);
}

proof fn lemma_mod_sub_multiple(a: int, m: int)
    requires
        m > 0,
    ensures
        (a - m) % m == a % m,
{
    lemma_mod_multiples_vanish(-1, a, m);
}

/// Wrapping an operand first changes nothing in a wrapped product or sum.
pub(crate) proof fn lemma_wrap_ops(a: int, b: int, m: int)
    requires
        m > 0,
        m % 2 == 0,
    ensures
        signed_residue(signed_residue(a, m) * b, m) == signed_residue(a * b, m),
        signed_residue(signed_residue(a, m) + b, m) == signed_residue(a + b, m),
{
    lemma_residue_mod(a, m);
    lemma_mul_mod_noop_left(signed_residue(a, m), b, m);
    lemma_mul_mod_noop_left(a, b, m);
    lemma_add_mod_noop(signed_residue(a, m), b, m);
    lemma_add_mod_noop(a, b, m);
}

/// A value already in range is its own residue.
proof fn lemma_residue_in_range(v: int, m: int)
    requires
        m > 0,
        m % 2 == 0,
        -(m / 2) <= v < m / 2,
    ensures
        signed_residue(v, m) == v,
{
    if v >= 0 {
        lemma_small_mod(v as nat, m as nat);
    } else {
        lemma_mod_multiples_vanish(1, v, m);
        lemma_small_mod((v + m) as nat, m as nat);
    }
}

pub(crate) proof fn lemma_i32_ops(x: i32, y: i32)
    ensures
        x.wrapping_mul(y) as int == wrap32(x * y),
        x.wrapping_add(y) as int == wrap32(x + y),
{
    let m: int = 0x1_0000_0000;
    lemma_residue_mod(x * y, m);
    let s = x + y;
    if s > i32::MAX {
        lemma_residue_in_range(s - m, m);
        lemma_wrap_ops(s, -m, m);
        lemma_mod_sub_multiple(s, m);
    } else if s < i32::MIN {
        lemma_residue_in_range(s + m, m);
        lemma_mod_multiples_vanish(1, s, m);
    } else {
        lemma_residue_in_range(s, m);
    }
}

proof fn lemma_i64_ops(x: i64, y: i64)
    ensures
        x.wrapping_mul(y) as int == wrap64(x * y),
        x.wrapping_add(y) as int == wrap64(x + y),
{
    let m: int = 0x1_0000_0000_0000_0000;
    lemma_residue_mod(x * y, m);
    let s = x + y;
    if s > i64::MAX {
        lemma_residue_in_range(s - m, m);
        lemma_mod_sub_multiple(s, m);
    } else if s < i64::MIN {
        lemma_residue_in_range(s + m, m);
        lemma_mod_multiples_vanish(1, s, m);
    } else {
        lemma_residue_in_range(s, m);
    }
}

/// Whether chunk `(x, z)` is a slime chunk in the world with seed `seed`.
pub fn is_slime_chunk(seed: i64, x: i32, z: i32) -> (r: bool)
    ensures
        r == slime_chunk(seed, x, z),
{
    let xx = x.wrapping_mul(x);
    let xxa = xx.wrapping_mul(SLIME_CHUNK_NUMBER_A);
    let xb = x.wrapping_mul(SLIME_CHUNK_NUMBER_B);
    let zz = z.wrapping_mul(z);
    let zzc = (zz as i64).wrapping_mul(SLIME_CHUNK_NUMBER_C);
    let zd = z.wrapping_mul(SLIME_CHUNK_NUMBER_D);
    let s1 = seed.wrapping_add(xxa as i64);
    let s2 = s1.wrapping_add(xb as i64);
    let s3 = s2.wrapping_add(zzc);
    let s4 = s3.wrapping_add(zd as i64);
    proof {
        let m32: int = 0x1_0000_0000;
        let m64: int = 0x1_0000_0000_0000_0000;
        lemma_i32_ops(x, x);
        lemma_i32_ops(xx, SLIME_CHUNK_NUMBER_A);
        lemma_wrap_ops(x * x, 0x4c1906, m32);
        lemma_i32_ops(x, SLIME_CHUNK_NUMBER_B);
        lemma_i32_ops(z, z);
        lemma_i64_ops(zz as i64, SLIME_CHUNK_NUMBER_C);
        lemma_i32_ops(z, SLIME_CHUNK_NUMBER_D);
        lemma_i64_ops(seed, xxa as i64);
        lemma_i64_ops(s1, xb as i64);
        lemma_i64_ops(s2, zzc);
        lemma_i64_ops(s3, zd as i64);
        let t1 = seed + wrap32(x * x * 0x4c1906);
        let t2 = wrap32(x * 0x5ac0db);
        let t3 = wrap32(z * z) * 0x4307a7;
        let t4 = wrap32(z * 0x5f24f);
        lemma_residue_mod(t3, m64);
        lemma_residue_mod(z * z, m32);
        assert(-0x80000000 * 0x4307a7 <= t3 <= 0x80000000 * 0x4307a7) by (nonlinear_arith)
            requires
                t3 == wrap32(z * z) * 0x4307a7,
                -0x80000000 <= wrap32(z * z) < 0x80000000,
        ;
        lemma_residue_in_range(t3, m64);
        lemma_wrap_ops(t1, t2, m64);
        lemma_wrap_ops(t1 + t2, t3, m64);
        lemma_wrap_ops(t1 + t2 + t3, t4, m64);
    }
    let java_seed = s4 ^ SLIME_CHUNK_NUMBER_E;
    let mut rng = JavaRandom::new(java_seed);
    rng.next_int(10) == 0
}

/// The test depends on the seed and the coordinates alone: any two
/// evaluations on the same inputs agree.
pub proof fn lemma_slime_chunk_deterministic(seed: i64, x: i32, z: i32, first: bool, second: bool)
    requires
        first == slime_chunk(seed, x, z),
        second == slime_chunk(seed, x, z),
    ensures
        first == second,
{
}

} // verus!
