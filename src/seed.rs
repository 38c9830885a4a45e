//! World seeds given as text: a number, or else the string hash of the text.

use vstd::prelude::*;
use vstd::std_specs::iter::IteratorSpec;
use vstd::arithmetic::div_mod::*;
use crate::chunk::{lemma_mod_mod_self, wrap32};

verus! {

/// What `str::parse::<i64>` reads from the text: the number, or nothing.
pub uninterp spec fn parsed_i64(s: Seq<char>) -> Option<i64>;

/// The polynomial string hash `sum of s[i] * 31^(n - 1 - i)`, unbounded.
pub open spec fn poly_hash(s: Seq<char>) -> int
    decreases s.len(),
{
    if s.len() == 0 {
        0
    } else {
        poly_hash(s.drop_last()) * 31 + (s.last() as u32) as int
    }
}

/// The seed a text stands for: the number it reads as, else its hash cut to
/// 32 bits and sign-extended.
pub open spec fn seed_of_text(parsed: Option<i64>, s: Seq<char>) -> i64 {
    match parsed {
        Some(v) => v,
        None => wrap32(poly_hash(s)) as i64,
    }
}

/// Relies on `str::parse::<i64>`: the number the text reads as, if any.
#[verifier::external_body]
fn parse_i64(s: &str) -> (r: Option<i64>)
    ensures
        r == parsed_i64(s@),
{
    s.parse::<i64>().ok()
}

proof fn lemma_hash_step(h: u32, p: int, c: u32)
    requires
        h as int == p % 0x1_0000_0000,
    ensures
        h.wrapping_mul(31).wrapping_add(c) as int == (p * 31 + c) % 0x1_0000_0000,
{
    let m: int = 0x1_0000_0000;
    let w = h.wrapping_mul(31);
    lemma_mul_mod_noop_left(p, 31, m);
    lemma_add_mod_noop(w as int, c as int, m);
    lemma_add_mod_noop(p * 31, c as int, m);
    lemma_small_mod(c as nat, m as nat);
    lemma_mod_mod_self((p * 31) % m, m);
    let t = w.wrapping_add(c);
    if w + c > u32::MAX {
        lemma_mod_multiples_vanish(-1, w + c, m);
        lemma_small_mod((w + c - m) as nat, m as nat);
    } else {
        lemma_small_mod((w + c) as nat, m as nat);
    }
}

/// The string hash of `s` on 32 bits, sign-extended.
pub fn string_hash(s: &str) -> (h: i64)
    ensures
        h as int == wrap32(poly_hash(s@)),
{
    let mut h: u32 = 0;
    let mut chars = s.chars();
    let ghost mut i: int = 0;
    proof {
        assert(s@.take(0) == Seq::<char>::empty());
    }
    loop
        invariant
            0 <= i <= s@.len(),
            chars.remaining() == s@.skip(i),
            h as int == poly_hash(s@.take(i)) % 0x1_0000_0000,
        ensures
            h as int == poly_hash(s@) % 0x1_0000_0000,
        decreases s@.len() - i,
    {
        match chars.next() {
            Some(c) => {
                let k = c as u32;
                proof {
                    assert(c == s@[i]);
                    assert(s@.take(i + 1).drop_last() == s@.take(i));
                    assert(s@.take(i + 1).last() == c);
                    lemma_hash_step(h, poly_hash(s@.take(i)), k);
                    i = i + 1;
                }
                h = h.wrapping_mul(31).wrapping_add(k);
            },
            None => {
                assert(s@.skip(i).len() == 0);
                assert(s@.take(i) == s@);
                break ;
            },
        }
    }
    if h > 0x7FFF_FFFF {
        h as i64 - 0x1_0000_0000
    } else {
        h as i64
    }
}

/// The seed for a text, given what `str::parse::<i64>` read from it.
pub fn seed_from_parsed(parsed: Option<i64>, s: &str) -> (seed: i64)
    ensures
        seed == seed_of_text(parsed, s@),
{
    match parsed {
        Some(v) => v,
        None => string_hash(s),
    }
}

/// The seed for a text: the number it reads as, or else its string hash.
pub fn to_hash(s: &str) -> (seed: i64)
    ensures
        seed == seed_of_text(parsed_i64(s@), s@),
{
    let parsed = parse_i64(s);
    seed_from_parsed(parsed, s)
}

} // verus!
