//! The 48-bit linear congruential generator and its bounded draw.

use vstd::prelude::*;
use vstd::arithmetic::div_mod::*;
use vstd::arithmetic::power2::*;
use vstd::bits::*;
use crate::chunk::wrap32;

verus! {

/// Number of distinct generator states: states are kept below 2^48.
pub open spec fn state_modulus() -> int {
    0x1000000000000
}

/// The state made from a seed: the seed scrambled and cut to 48 bits.
pub open spec fn scramble(seed: i64) -> int {
    ((seed ^ 0x5DEECE66Di64) & 0xFFFFFFFFFFFFi64) as int
}

/// One advance of the generator.
pub open spec fn lcg_step(s: int) -> int {
    (s * 0x5DEECE66D + 0xB) % state_modulus()
}

/// The state after `k` advances from `s`.
pub open spec fn lcg_iter(s: int, k: nat) -> int
    decreases k,
{
    if k == 0 {
        s
    } else {
        lcg_step(lcg_iter(s, (k - 1) as nat))
    }
}

/// The top 31 of the 48 bits of a state.
pub open spec fn top31(s: int) -> int {
    s / 0x20000
}

/// `bound` is a power of two, tested as the generator tests it.
pub open spec fn is_power_of_two_bound(bound: i32) -> bool {
    bound & ((bound - 1) as i32) == 0
}

/// A 31-bit draw `u` is kept for `bound` unless taking `u % bound` would favour
/// the low values: that is when `u - u % bound + (bound - 1)` passes `i32::MAX`.
pub open spec fn accepts(u: int, bound: int) -> bool {
    u - u % bound + (bound - 1) <= 0x7FFFFFFF
}

/// Draws from `s` until a draw is accepted, giving up after `fuel` more draws.
/// With a fuel of 2^47 it never gives up (`lemma_rejection_continues`).
pub open spec fn rejection_draw(s: int, bound: int, fuel: nat) -> (int, int)
    decreases fuel,
{
    let t = lcg_step(s);
    if accepts(top31(t), bound) || fuel == 0 {
        (top31(t) % bound, t)
    } else {
        rejection_draw(t, bound, (fuel - 1) as nat)
    }
}

/// Half of the state space: the number of draws after which the top bit of
/// the state has flipped.
pub open spec fn half_period() -> nat {
    0x800000000000
}

/// The value in `[0, bound)` drawn from state `s`, and the state after it.
pub open spec fn bounded_draw(s: int, bound: i32) -> (int, int) {
    if is_power_of_two_bound(bound) {
        let t = lcg_step(s);
        ((bound * top31(t)) / 0x80000000, t)
    } else {
        rejection_draw(s, bound as int, half_period())
    }
}

pub struct JavaRandom {
    seed: i64,
}

impl View for JavaRandom {
    type V = int;

    closed spec fn view(&self) -> int {
        self.seed as int
    }
}

impl JavaRandom {
    /// The state always fits in 48 bits.
    pub closed spec fn wf(&self) -> bool {
        0 <= self.seed < state_modulus()
    }

    pub fn new(seed: i64) -> (r: JavaRandom)
        ensures
            r.wf(),
            r@ == scramble(seed),
    {
        let mixed = seed ^ 0x5DEECE66D;
        assert(0 <= mixed & 0xFFFFFFFFFFFFi64 < 0x1000000000000) by (bit_vector);
        JavaRandom { seed: mixed & 0xFFFFFFFFFFFF }
    }

    /// Advances the state and returns its top `bits` bits, read as a signed
    /// 32-bit integer.
    pub fn next(&mut self, bits: i32) -> (r: i32)
        requires
            old(self).wf(),
            1 <= bits <= 32,
        ensures
            final(self).wf(),
            final(self)@ == lcg_step(old(self)@),
            r as int == wrap32(final(self)@ / pow2((48 - bits) as nat) as int),
            bits <= 31 ==> r as int == final(self)@ / pow2((48 - bits) as nat) as int,
            bits == 31 ==> r as int == top31(final(self)@),
    {
        let s = self.seed as u64;
        let n = s.wrapping_mul(0x5DEECE66D).wrapping_add(0xB) & 0xFFFFFFFFFFFF;
        proof {
            lemma_step_bits(s, n);
        }
        self.seed = n as i64;
        let shift = (48 - bits) as u64;
        let top = n >> shift;
        proof {
            lemma_u64_shr_is_div(n, shift);
            lemma2_to64();
            lemma_pow2_increases(16, shift as nat);
            lemma_div_is_ordered_by_denominator(n as int, 0x10000, pow2(shift as nat) as int);
            if bits <= 31 {
                lemma_pow2_increases(17, shift as nat);
                lemma_div_is_ordered_by_denominator(n as int, 0x20000, pow2(shift as nat) as int);
            }
            assert(pow2(16) == 0x10000);
            assert(pow2(17) == 0x20000);
            lemma_small_mod(top as nat, 0x1_0000_0000);
        }
        if top > 0x7FFF_FFFF {
            (top as i64 - 0x1_0000_0000) as i32
        } else {
            top as i32
        }
    }

    /// Draws a value in `[0, bound)`.
    pub fn next_int(&mut self, bound: i32) -> (r: i32)
        requires
            old(self).wf(),
            bound >= 1,
        ensures
            final(self).wf(),
            (r as int, final(self)@) == bounded_draw(old(self)@, bound),
            0 <= r < bound,
    {
        let ghost start = self@;
        let mut r = self.next(31);
        let m = bound - 1;
        if (bound & m) == 0 {
            assert(0 <= bound * r < bound * 0x80000000) by (nonlinear_arith)
                requires
                    0 <= r < 0x80000000,
                    bound >= 1,
            ;
            let p = bound as i64 * r as i64;
            assert(p >> 31 == p / 0x80000000) by (bit_vector)
                requires
                    p >= 0,
            ;
            assert(p / 0x80000000 < bound) by (nonlinear_arith)
                requires
                    0 <= p < bound * 0x80000000,
            ;
            r = (p >> 31) as i32;
        } else {
            let mut u = r;
            r = u % bound;
            let ghost first = self@;
            let ghost mut prev = start;
            let ghost mut k: nat = 0;
            proof {
                lemma_overflow_test(u, r, bound);
            }
            while (u - r).wrapping_add(m) < 0
                invariant
                    self.wf(),
                    bound >= 1,
                    m == bound - 1,
                    !is_power_of_two_bound(bound),
                    0 <= start < state_modulus(),
                    0 <= first < state_modulus(),
                    self@ == lcg_step(prev),
                    self@ == lcg_iter(first, k),
                    u as int == top31(self@),
                    0 <= u,
                    r as int == u as int % bound as int,
                    k <= half_period(),
                    k > 0 ==> !accepts(top31(first), bound as int),
                    rejection_draw(start, bound as int, half_period()) == rejection_draw(
                        prev,
                        bound as int,
                        (half_period() - k) as nat,
                    ),
                decreases half_period() - k,
            {
                proof {
                    lemma_rejection_continues(first, k, bound as int);
                    lemma_rejection_unfold(prev, bound as int, (half_period() - k) as nat);
                }
                let ghost before = self@;
                u = self.next(31);
                r = u % bound;
                proof {
                    lemma_overflow_test(u, r, bound);
                    prev = before;
                    k = k + 1;
                }
            }
            assert(accepts(u as int, bound as int));
        }
        r
    }
}

proof fn lemma_pow2_increases(a: nat, b: nat)
    requires
        a <= b,
    ensures
        pow2(a) <= pow2(b),
{
    if a < b {
        lemma_pow2_strictly_increases(a, b);
    }
}

/// What the wrapping 64-bit advance followed by the 48-bit mask computes.
proof fn lemma_step_bits(s: u64, n: u64)
    requires
        s < 0x1000000000000,
        n == (s.wrapping_mul(0x5DEECE66D).wrapping_add(0xB) & 0xFFFFFFFFFFFF),
    ensures
        n as int == lcg_step(s as int),
        n < 0x1000000000000,
{
    let w = s.wrapping_mul(0x5DEECE66D);
    let v = w.wrapping_add(0xB);
    assert(v & 0xFFFFFFFFFFFF == v % 0x1000000000000) by (bit_vector);
    let m48: int = 0x1000000000000;
    let m64: int = 0x10000000000000000;
    let p: int = s as int * 0x5DEECE66D;
    assert(w as int == p % m64);
    assert(v as int == (w as int + 11) % m64);
    assert(m64 == m48 * 0x10000);
    lemma_mod_mod(w as int + 11, m48, 0x10000);
    lemma_mod_mod(p, m48, 0x10000);
    lemma_add_mod_noop(w as int, 11, m48);
    lemma_add_mod_noop(p, 11, m48);
    assert(11int % m48 == 11);
}

/// A draw that is turned down is at least 2^30, so its state has the top bit set.
proof fn lemma_rejected_is_high(u: int, bound: int)
    requires
        0 <= u < 0x80000000,
        1 <= bound <= 0x7FFFFFFF,
        !accepts(u, bound),
    ensures
        u >= 0x40000000,
{
    lemma_fundamental_div_mod(u, bound);
    lemma_mod_bound(u, bound);
    if u < bound {
        lemma_small_mod(u as nat, bound as nat);
    }
}

/// The generator's overflow test on 32-bit integers says whether a draw is kept.
proof fn lemma_overflow_test(u: i32, r: i32, bound: i32)
    requires
        0 <= u,
        bound >= 1,
        r as int == u as int % bound as int,
    ensures
        0 <= r <= u,
        ((u - r) as i32).wrapping_add((bound - 1) as i32) < 0 <==> !accepts(u as int, bound as int),
{
    lemma_mod_bound(u as int, bound as int);
    lemma_mod_decreases(u as nat, bound as nat);
}

/// A turned-down draw passes on to the next one.
proof fn lemma_rejection_unfold(s: int, bound: int, fuel: nat)
    requires
        fuel > 0,
        !accepts(top31(lcg_step(s)), bound),
    ensures
        rejection_draw(s, bound, fuel) == rejection_draw(lcg_step(s), bound, (fuel - 1) as nat),
{
}

/// While draws are turned down, fewer than 2^47 of them have been made since
/// the first: the state's top bit flips within that many advances.
proof fn lemma_rejection_continues(first: int, k: nat, bound: int)
    requires
        0 <= first < state_modulus(),
        1 <= bound <= 0x7FFFFFFF,
        k <= half_period(),
        k > 0 ==> !accepts(top31(first), bound),
        !accepts(top31(lcg_iter(first, k)), bound),
        0 <= lcg_iter(first, k) < state_modulus(),
    ensures
        k < half_period(),
{
    let cur = lcg_iter(first, k);
    lemma_rejected_is_high(top31(cur), bound);
    if k == half_period() {
        lemma_half_period_flips(first);
        lemma_rejected_is_high(top31(first), bound);
    }
}

proof fn lemma_rejection_result(prev: int, first: int, k: nat, bound: int)
    requires
        0 <= first < state_modulus(),
        1 <= bound <= 0x7FFFFFFF,
        k <= half_period(),
        k > 0 ==> !accepts(top31(first), bound),
        lcg_step(prev) == lcg_iter(first, k),
    ensures
        accepts(
            top31(rejection_draw(prev, bound, (half_period() - k) as nat).1),
            bound,
        ),
        rejection_draw(prev, bound, (half_period() - k) as nat).0 == top31(
            rejection_draw(prev, bound, (half_period() - k) as nat).1,
        ) % bound,
    decreases half_period() - k,
{
    let t = lcg_step(prev);
    if !accepts(top31(t), bound) {
        lemma_rejection_continues(first, k, bound);
        lemma_rejection_unfold(prev, bound, (half_period() - k) as nat);
        lemma_rejection_result(t, first, k + 1, bound);
    }
}

/// The rejection loop ends before its fuel runs out: for a bound that is not a
/// power of two, the value drawn is the remainder of an accepted draw, the
/// first one that the generator makes.
pub proof fn lemma_bounded_draw_accepted(s: int, bound: i32)
    requires
        0 <= s < state_modulus(),
        bound >= 1,
        !is_power_of_two_bound(bound),
    ensures
        accepts(top31(bounded_draw(s, bound).1), bound as int),
        bounded_draw(s, bound).0 == top31(bounded_draw(s, bound).1) % (bound as int),
{
    lemma_rejection_result(s, lcg_step(s), 0, bound as int);
}

/// Advancing `j` and then `k` times is advancing `j + k` times.
proof fn lemma_iter_add(s: int, j: nat, k: nat)
    ensures
        lcg_iter(s, j + k) == lcg_iter(lcg_iter(s, j), k),
    decreases k,
{
    if k > 0 {
        lemma_iter_add(s, j, (k - 1) as nat);
        assert(lcg_iter(s, j + k) == lcg_step(lcg_iter(s, (j + k - 1) as nat)));
    }
}

/// Multiplier and increment of the generator advanced 2^e times at once.
spec fn jump(e: nat) -> (int, int)
    decreases e,
{
    if e == 0 {
        (0x5DEECE66D, 0xB)
    } else {
        let (a, c) = jump((e - 1) as nat);
        ((a * a) % state_modulus(), (a * c + c) % state_modulus())
    }
}

proof fn lemma_jump_unfold(e: nat)
    requires
        e > 0,
    ensures
        jump(e) == ((jump((e - 1) as nat).0 * jump((e - 1) as nat).0) % state_modulus(), (jump(
            (e - 1) as nat,
        ).0 * jump((e - 1) as nat).1 + jump((e - 1) as nat).1) % state_modulus()),
{
}

proof fn lemma_iter_jump(s: int, e: nat)
    ensures
        lcg_iter(s, pow2(e)) == (jump(e).0 * s + jump(e).1) % state_modulus(),
    decreases e,
{
    let m = state_modulus();
    if e == 0 {
        lemma2_to64();
        assert(lcg_iter(s, 1) == lcg_step(lcg_iter(s, 0)));
    } else {
        let h = pow2((e - 1) as nat);
        lemma_pow2_adds((e - 1) as nat, 1);
        lemma2_to64();
        assert(pow2(e) == h + h);
        lemma_iter_jump(s, (e - 1) as nat);
        let t = lcg_iter(s, h);
        lemma_iter_add(s, h, h);
        lemma_iter_jump(t, (e - 1) as nat);
        let (a, c) = jump((e - 1) as nat);
        // (a * ((a * s + c) % m) + c) % m == ((a * a) % m * s + (a * c + c) % m) % m
        lemma_mul_mod_noop_right(a, a * s + c, m);
        lemma_add_mod_noop(a * ((a * s + c) % m), c, m);
        lemma_add_mod_noop(a * (a * s + c), c, m);
        lemma_mul_mod_noop_left(a * a, s, m);
        lemma_add_mod_noop((a * a) * s, a * c + c, m);
        lemma_add_mod_noop((a * a) % m * s, (a * c + c), m);
        assert(a * (a * s + c) + c == (a * a) * s + (a * c + c)) by (nonlinear_arith);
    }
}

/// After 2^47 advances the state has moved by exactly 2^47.
proof fn lemma_half_period_flips(s: int)
    requires
        0 <= s < state_modulus(),
    ensures
        lcg_iter(s, half_period()) == (s + half_period()) % state_modulus(),
{
    assert(jump(0) == (0x5deece66dint, 0xbint));
    assert(jump(1) == (0xbb20b4600a69int, 0x40942de6baint)) by {
        lemma_jump_unfold(1);
    }
    assert(jump(2) == (0x32eb772c5f11int, 0x2d3873c4cd04int)) by {
        lemma_jump_unfold(2);
    }
    assert(jump(3) == (0x75489f259f21int, 0x7cba449ae648int)) by {
        lemma_jump_unfold(3);
    }
    assert(jump(4) == (0x6dc260740241int, 0xd0352014d90int)) by {
        lemma_jump_unfold(4);
    }
    assert(jump(5) == (0xfac6caed1481int, 0x1e4c4c311f20int)) by {
        lemma_jump_unfold(5);
    }
    assert(jump(6) == (0xab768c7e6901int, 0xf77b98004e40int)) by {
        lemma_jump_unfold(6);
    }
    assert(jump(7) == (0xa430a00dd201int, 0x6cc0d398dc80int)) by {
        lemma_jump_unfold(7);
    }
    assert(jump(8) == (0x4fa0405fa401int, 0xa7a83e92b900int)) by {
        lemma_jump_unfold(8);
    }
    assert(jump(9) == (0x94fba1cf4801int, 0x9e1922a97200int)) by {
        lemma_jump_unfold(9);
    }
    assert(jump(10) == (0xba5cc7de9001int, 0xaba71b62e400int)) by {
        lemma_jump_unfold(10);
    }
    assert(jump(11) == (0xba17a0bd2001int, 0xe5b38f05c800int)) by {
        lemma_jump_unfold(11);
    }
    assert(jump(12) == (0x27e7857a4001int, 0x698c7f0b9000int)) by {
        lemma_jump_unfold(12);
    }
    assert(jump(13) == (0x10b01af48001int, 0x702e82172000int)) by {
        lemma_jump_unfold(13);
    }
    assert(jump(14) == (0xb4e475e90001int, 0x78b3142e4000int)) by {
        lemma_jump_unfold(14);
    }
    assert(jump(15) == (0x37d9ebd20001int, 0x72be685c8000int)) by {
        lemma_jump_unfold(15);
    }
    assert(jump(16) == (0xa7f7d7a40001int, 0xeaddd0b90000int)) by {
        lemma_jump_unfold(16);
    }
    assert(jump(17) == (0x30ffaf480001int, 0xeb3fa1720000int)) by {
        lemma_jump_unfold(17);
    }
    assert(jump(18) == (0xe63f5e900001int, 0x2c8f42e40000int)) by {
        lemma_jump_unfold(18);
    }
    assert(jump(19) == (0xdd7ebd200001int, 0xb15e85c80000int)) by {
        lemma_jump_unfold(19);
    }
    assert(jump(20) == (0xfefd7a400001int, 0xc3bd0b900000int)) by {
        lemma_jump_unfold(20);
    }
    assert(jump(21) == (0xdfaf4800001int, 0xb7a17200000int)) by {
        lemma_jump_unfold(21);
    }
    assert(jump(22) == (0x5bf5e9000001int, 0x26f42e400000int)) by {
        lemma_jump_unfold(22);
    }
    assert(jump(23) == (0xb7ebd2000001int, 0x8de85c800000int)) by {
        lemma_jump_unfold(23);
    }
    assert(jump(24) == (0x6fd7a4000001int, 0x1bd0b9000000int)) by {
        lemma_jump_unfold(24);
    }
    assert(jump(25) == (0xdfaf48000001int, 0x37a172000000int)) by {
        lemma_jump_unfold(25);
    }
    assert(jump(26) == (0xbf5e90000001int, 0x6f42e4000000int)) by {
        lemma_jump_unfold(26);
    }
    assert(jump(27) == (0x7ebd20000001int, 0xde85c8000000int)) by {
        lemma_jump_unfold(27);
    }
    assert(jump(28) == (0xfd7a40000001int, 0xbd0b90000000int)) by {
        lemma_jump_unfold(28);
    }
    assert(jump(29) == (0xfaf480000001int, 0x7a1720000000int)) by {
        lemma_jump_unfold(29);
    }
    assert(jump(30) == (0xf5e900000001int, 0xf42e40000000int)) by {
        lemma_jump_unfold(30);
    }
    assert(jump(31) == (0xebd200000001int, 0xe85c80000000int)) by {
        lemma_jump_unfold(31);
    }
    assert(jump(32) == (0xd7a400000001int, 0xd0b900000000int)) by {
        lemma_jump_unfold(32);
    }
    assert(jump(33) == (0xaf4800000001int, 0xa17200000000int)) by {
        lemma_jump_unfold(33);
    }
    assert(jump(34) == (0x5e9000000001int, 0x42e400000000int)) by {
        lemma_jump_unfold(34);
    }
    assert(jump(35) == (0xbd2000000001int, 0x85c800000000int)) by {
        lemma_jump_unfold(35);
    }
    assert(jump(36) == (0x7a4000000001int, 0xb9000000000int)) by {
        lemma_jump_unfold(36);
    }
    assert(jump(37) == (0xf48000000001int, 0x172000000000int)) by {
        lemma_jump_unfold(37);
    }
    assert(jump(38) == (0xe90000000001int, 0x2e4000000000int)) by {
        lemma_jump_unfold(38);
    }
    assert(jump(39) == (0xd20000000001int, 0x5c8000000000int)) by {
        lemma_jump_unfold(39);
    }
    assert(jump(40) == (0xa40000000001int, 0xb90000000000int)) by {
        lemma_jump_unfold(40);
    }
    assert(jump(41) == (0x480000000001int, 0x720000000000int)) by {
        lemma_jump_unfold(41);
    }
    assert(jump(42) == (0x900000000001int, 0xe40000000000int)) by {
        lemma_jump_unfold(42);
    }
    assert(jump(43) == (0x200000000001int, 0xc80000000000int)) by {
        lemma_jump_unfold(43);
    }
    assert(jump(44) == (0x400000000001int, 0x900000000000int)) by {
        lemma_jump_unfold(44);
    }
    assert(jump(45) == (0x800000000001int, 0x200000000000int)) by {
        lemma_jump_unfold(45);
    }
    assert(jump(46) == (0x1int, 0x400000000000int)) by {
        lemma_jump_unfold(46);
    }
    assert(jump(47) == (0x1int, 0x800000000000int)) by {
        lemma_jump_unfold(47);
    }
    lemma_iter_jump(s, 47);
    lemma2_to64_rest();
}

} // verus!
