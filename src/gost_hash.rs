//! The GOST R 34.11-94 compression function with two-bit "bytes": a state is
//! 64 bits, that is 32 symbols or four 16-bit blocks.

use crate::magma::{Magma, encrypt_spec};
use crate::packing::{lemma_pack_syms, lemma_sym_ext, lemma_sym_or, lemma_sym_xor, pack_spec, sym};
use vstd::prelude::*;

verus! {

/// The constant mixed into the third intermediate key.
pub const C2: u64 = 0xCF03C33CCCCCCCCC;

/// `phi(x) = 8 * ((x - 1) mod 4) + (x - 1) div 4 + 1`, on `1..=32`.
pub open spec fn phi_spec(x: int) -> int {
    8 * ((x - 1) % 4) + (x - 1) / 4 + 1
}

/// P moves the symbol at `phi(j + 1) - 1` to position `j`.
pub open spec fn p_source(j: int) -> int {
    phi_spec(j + 1) - 1
}

/// P moves the symbol at `t` to position `p_target(t)`, so P^-1 fills
/// position `t` from `p_target(t)`.
pub open spec fn p_target(t: int) -> int {
    4 * (t % 8) + t / 8
}

/// The permutation P of the 32 symbols of a state.
pub open spec fn p_spec(x: u64) -> u64 {
    pack_spec(Seq::new(32, |j: int| sym(x, p_source(j)) as u8))
}

/// The inverse permutation P^-1.
pub open spec fn p_rev_spec(k: u64) -> u64 {
    pack_spec(Seq::new(32, |t: int| sym(k, p_target(t)) as u8))
}

/// psi: with nibbles `g0..g15` from low to high, the nibbles shift down by
/// one and the new top nibble is `g0 ^ g1 ^ g2 ^ g3 ^ g12 ^ g15`.
pub open spec fn psy_spec(x: u64) -> u64 {
    (x >> 4u64) | (((x & 0xf) ^ ((x >> 4u64) & 0xf) ^ ((x >> 8u64) & 0xf) ^ ((x >> 12u64) & 0xf)
        ^ ((x >> 48u64) & 0xf) ^ ((x >> 60u64) & 0xf)) << 60u64)
}

/// The inverse of psi: the nibbles shift up by one and the old bottom nibble
/// `g0` is recovered from the top nibble and nibbles 0, 1, 2, 11 and 14.
pub open spec fn psy_rev_spec(x: u64) -> u64 {
    (x << 4u64) | ((x >> 60u64) ^ (x & 0xf) ^ ((x >> 4u64) & 0xf) ^ ((x >> 8u64) & 0xf) ^ ((x
        >> 44u64) & 0xf) ^ ((x >> 56u64) & 0xf))
}

/// psi applied `n` times, or its inverse applied `-n` times when `n < 0`.
pub open spec fn psy_pow_spec(x: u64, n: int) -> u64
    decreases (if n < 0 {
        -n
    } else {
        n
    }),
{
    if n > 0 {
        psy_spec(psy_pow_spec(x, n - 1))
    } else if n < 0 {
        psy_rev_spec(psy_pow_spec(x, n + 1))
    } else {
        x
    }
}

/// A: with blocks `y1..y4` from low to high, the result is
/// `(y1 ^ y2), y4, y3, y2` from high to low.
pub open spec fn a_spec(x: u64) -> u64 {
    (x >> 16u64) | (((x ^ (x >> 16u64)) & 0xffff) << 48u64)
}

/// The four intermediate keys derived from a state and a message.
pub open spec fn key_gen_spec(h: u64, m: u64) -> (u64, u64, u64, u64) {
    let k0 = p_spec(h ^ m);
    let h1 = a_spec(h);
    let m1 = a_spec(a_spec(m));
    let k1 = p_spec(h1 ^ m1);
    let h2 = a_spec(h1) ^ C2;
    let m2 = a_spec(a_spec(m1));
    let k2 = p_spec(h2 ^ m2);
    let h3 = a_spec(h2);
    let m3 = a_spec(a_spec(m2));
    let k3 = p_spec(h3 ^ m3);
    (k0, k1, k2, k3)
}

/// Block `i` (bits `16i..16i+16`) of a state.
pub open spec fn block_of(s: u64, i: u64) -> u16 {
    (s >> ((16 * i) as u64)) as u16
}

/// The state made of four blocks, `b0` lowest.
pub open spec fn join_blocks(b0: u16, b1: u16, b2: u16, b3: u16) -> u64 {
    (b0 as u64) | ((b1 as u64) << 16u64) | ((b2 as u64) << 32u64) | ((b3 as u64) << 48u64)
}

/// The output transformation `psi^61(h ^ psi(m ^ psi^12(s)))`.
pub open spec fn output_spec(s: u64, h: u64, m: u64) -> u64 {
    psy_pow_spec(h ^ psy_spec(m ^ psy_pow_spec(s, 12)), 61)
}

/// The compression function: each block of `h` is encrypted under its
/// intermediate key, then the output transformation is applied.
pub open spec fn compress_spec(h: u64, m: u64) -> u64 {
    let k = key_gen_spec(h, m);
    let s = join_blocks(
        encrypt_spec(k.0, block_of(h, 0)),
        encrypt_spec(k.1, block_of(h, 1)),
        encrypt_spec(k.2, block_of(h, 2)),
        encrypt_spec(k.3, block_of(h, 3)),
    );
    output_spec(s, h, m)
}

proof fn lemma_p_positions()
    ensures
        forall|t: int| 0 <= t < 32 ==> 0 <= #[trigger] p_target(t) < 32 && p_source(p_target(t)) == t,
        forall|j: int| 0 <= j < 32 ==> 0 <= #[trigger] p_source(j) < 32 && p_target(p_source(j)) == j,
{
}

proof fn lemma_p_syms(x: u64)
    ensures
        forall|j: int| 0 <= j < 32 ==> #[trigger] sym(p_spec(x), j) == sym(x, p_source(j)),
        forall|t: int| 0 <= t < 32 ==> #[trigger] sym(p_rev_spec(x), t) == sym(x, p_target(t)),
{
    lemma_p_positions();
    let v = Seq::new(32, |j: int| sym(x, p_source(j)) as u8);
    let w = Seq::new(32, |t: int| sym(x, p_target(t)) as u8);
    assert forall|i: int| 0 <= i < 32 implies sym(x, i) < 4 && (sym(x, i) as u8) as u64 == sym(x, i) by {
        lemma_sym_xor(x, x, i);
    }
    lemma_pack_syms(v);
    lemma_pack_syms(w);
}

/// P^-1 undoes P and P undoes P^-1.
pub proof fn lemma_p_bijection(s: u64)
    ensures
        p_rev_spec(p_spec(s)) == s,
        p_spec(p_rev_spec(s)) == s,
{
    lemma_p_positions();
    lemma_p_syms(s);
    lemma_p_syms(p_spec(s));
    lemma_p_syms(p_rev_spec(s));
    lemma_sym_ext(p_rev_spec(p_spec(s)), s);
    lemma_sym_ext(p_spec(p_rev_spec(s)), s);
}

proof fn lemma_psy_bits(x: u64, y: u64)
    by (bit_vector)
    ensures
        psy_rev_spec(psy_spec(x)) == x,
        psy_spec(psy_rev_spec(x)) == x,
        psy_spec(x ^ y) == psy_spec(x) ^ psy_spec(y),
        psy_rev_spec(x ^ y) == psy_rev_spec(x) ^ psy_rev_spec(y),
{
}

/// psi^-1 undoes psi and psi undoes psi^-1.
pub proof fn lemma_psy_bijection(s: u64)
    ensures
        psy_rev_spec(psy_spec(s)) == s,
        psy_spec(psy_rev_spec(s)) == s,
{
    lemma_psy_bits(s, 0);
}

proof fn lemma_psy_pow_step(x: u64, n: int)
    ensures
        psy_pow_spec(x, n + 1) == psy_spec(psy_pow_spec(x, n)),
        psy_pow_spec(x, n - 1) == psy_rev_spec(psy_pow_spec(x, n)),
{
    if n < 0 {
        lemma_psy_bijection(psy_pow_spec(x, n + 1));
    }
    if n > 0 {
        lemma_psy_bijection(psy_pow_spec(x, n - 1));
    }
}

/// `psi^(a + b) = psi^a . psi^b` for all integers `a` and `b`.
pub proof fn lemma_psy_pow_add(s: u64, a: int, b: int)
    ensures
        psy_pow_spec(psy_pow_spec(s, b), a) == psy_pow_spec(s, a + b),
    decreases (if a < 0 {
        -a
    } else {
        a
    }),
{
    if a > 0 {
        lemma_psy_pow_add(s, a - 1, b);
        lemma_psy_pow_step(s, a - 1 + b);
    } else if a < 0 {
        lemma_psy_pow_add(s, a + 1, b);
        lemma_psy_pow_step(s, a + 1 + b);
    }
}

/// Every power of psi is linear over exclusive or.
pub proof fn lemma_psy_pow_xor(x: u64, y: u64, n: int)
    ensures
        psy_pow_spec(x ^ y, n) == psy_pow_spec(x, n) ^ psy_pow_spec(y, n),
    decreases (if n < 0 {
        -n
    } else {
        n
    }),
{
    if n > 0 {
        lemma_psy_pow_xor(x, y, n - 1);
        lemma_psy_bits(psy_pow_spec(x, n - 1), psy_pow_spec(y, n - 1));
    } else if n < 0 {
        lemma_psy_pow_xor(x, y, n + 1);
        lemma_psy_bits(psy_pow_spec(x, n + 1), psy_pow_spec(y, n + 1));
    }
}

/// P^-1 is linear over exclusive or.
pub proof fn lemma_p_rev_xor(a: u64, b: u64)
    ensures
        p_rev_spec(a ^ b) == p_rev_spec(a) ^ p_rev_spec(b),
{
    lemma_p_positions();
    lemma_p_syms(a ^ b);
    lemma_p_syms(a);
    lemma_p_syms(b);
    assert forall|t: int| 0 <= t < 32 implies #[trigger] sym(p_rev_spec(a ^ b), t) == sym(
        p_rev_spec(a) ^ p_rev_spec(b),
        t,
    ) by {
        lemma_sym_xor(a, b, p_target(t));
        lemma_sym_xor(p_rev_spec(a), p_rev_spec(b), t);
    }
    lemma_sym_ext(p_rev_spec(a ^ b), p_rev_spec(a) ^ p_rev_spec(b));
}

struct IntermediateKeys(u64, u64, u64, u64);

struct IntermediateState(u16, u16, u16, u16);

impl IntermediateState {
    fn to_state(&self) -> (s: u64)
        ensures
            s == join_blocks(self.0, self.1, self.2, self.3),
    {
        (self.0 as u64) | ((self.1 as u64) << 16u64) | ((self.2 as u64) << 32u64) | ((self.3 as u64)
            << 48u64)
    }

    fn from_state(&mut self, s: u64)
        ensures
            final(self).0 == block_of(s, 0),
            final(self).1 == block_of(s, 1),
            final(self).2 == block_of(s, 2),
            final(self).3 == block_of(s, 3),
    {
        assert(s >> 0u64 == s) by (bit_vector);
        self.0 = s as u16;
        self.1 = (s >> 16u64) as u16;
        self.2 = (s >> 32u64) as u16;
        self.3 = (s >> 48u64) as u16;
    }
}

/// The reduced GOST hash. Its compression function is the part that the
/// collision search attacks.
pub struct GostHash {
    _state: u64,
}

impl GostHash {
    pub fn new() -> GostHash {
        GostHash { _state: 0 }
    }

    /// The compression function: takes a state and a message block and
    /// returns the next state.
    pub fn compress(h: u64, m: u64) -> (r: u64)
        ensures
            r == compress_spec(h, m),
    {
        let k = Self::key_gen(h, m);
        let mut s = IntermediateState(0, 0, 0, 0);
        s.from_state(h);
        let mut c0 = Magma::new(k.0);
        s.0 = c0.encrypt_block(s.0);
        let mut c1 = Magma::new(k.1);
        s.1 = c1.encrypt_block(s.1);
        let mut c2 = Magma::new(k.2);
        s.2 = c2.encrypt_block(s.2);
        let mut c3 = Magma::new(k.3);
        s.3 = c3.encrypt_block(s.3);
        Self::output_transformation(s.to_state(), h, m)
    }

    fn key_gen(h: u64, m: u64) -> (k: IntermediateKeys)
        ensures
            (k.0, k.1, k.2, k.3) == key_gen_spec(h, m),
    {
        let mut cur_h = h;
        let mut cur_m = m;
        let k0 = Self::p(cur_h ^ cur_m);
        cur_h = Self::a(cur_h);
        cur_m = Self::a(Self::a(cur_m));
        let k1 = Self::p(cur_h ^ cur_m);
        cur_h = Self::a(cur_h) ^ C2;
        cur_m = Self::a(Self::a(cur_m));
        let k2 = Self::p(cur_h ^ cur_m);
        cur_h = Self::a(cur_h);
        cur_m = Self::a(Self::a(cur_m));
        let k3 = Self::p(cur_h ^ cur_m);
        IntermediateKeys(k0, k1, k2, k3)
    }

    /// The permutation P: output symbol `i - 1` is input symbol `phi(i) - 1`.
    pub fn p(x: u64) -> (k: u64)
        ensures
            k == p_spec(x),
    {
        let ghost v = Seq::new(32, |j: int| sym(x, p_source(j)) as u8);
        let mut k: u64 = 0;
        let mut i: usize = 1;
        while i <= 32
            invariant
                1 <= i <= 33,
                v == Seq::new(32, |j: int| sym(x, p_source(j)) as u8),
                k == pack_spec(v.take(i - 1)),
            decreases 33 - i,
        {
            proof {
                lemma_sym_xor(x, x, p_source(i - 1));
                assert(v.take(i as int).drop_last() =~= v.take(i - 1));
            }
            k = k | (((x >> (((Self::phi(i) - 1) * 2) as u64)) & 3) << (((i - 1) * 2) as u64));
            i = i + 1;
        }
        assert(v.take(32) =~= v);
        k
    }

    /// The inverse permutation: input symbol `i - 1` goes back to position
    /// `phi(i) - 1`.
    pub fn p_rev(k: u64) -> (x: u64)
        ensures
            x == p_rev_spec(k),
    {
        proof {
            lemma_p_positions();
        }
        let mut x: u64 = 0;
        let mut i: usize = 1;
        proof {
            assert forall|t: int| 0 <= t < 32 implies #[trigger] sym(x, t) == 0 by {
                lemma_sym_or(0, 0, 0, t as u64);
            }
        }
        while i <= 32
            invariant
                1 <= i <= 33,
                forall|t: int| 0 <= t < 32 ==> 0 <= #[trigger] p_target(t) < 32 && p_source(p_target(t)) == t,
                forall|j: int| 0 <= j < 32 ==> 0 <= #[trigger] p_source(j) < 32 && p_target(p_source(j)) == j,
                forall|t: int|
                    0 <= t < 32 ==> #[trigger] sym(x, t) == (if p_target(t) < i - 1 {
                        sym(k, p_target(t))
                    } else {
                        0
                    }),
            decreases 33 - i,
        {
            let ghost m = p_source(i - 1);
            let ghost b = sym(k, i - 1);
            let ghost x0 = x;
            proof {
                lemma_sym_xor(k, k, i - 1);
            }
            x = x | (((k >> (((i - 1) * 2) as u64)) & 3) << (((Self::phi(i) - 1) * 2) as u64));
            proof {
                assert forall|t: int| 0 <= t < 32 implies #[trigger] sym(x, t) == (if p_target(t)
                    < i {
                    sym(k, p_target(t))
                } else {
                    0
                }) by {
                    lemma_sym_or(x0, b, m as u64, t as u64);
                }
            }
            i = i + 1;
        }
        proof {
            lemma_p_syms(k);
            lemma_sym_ext(x, p_rev_spec(k));
        }
        x
    }

    fn phi(x: usize) -> (r: usize)
        requires
            1 <= x <= 32,
        ensures
            r == phi_spec(x as int),
    {
        let k = (x - 1) / 4 + 1;
        let i = (x - 1) % 4;
        8 * i + k
    }

    fn a(x: u64) -> (r: u64)
        ensures
            r == a_spec(x),
    {
        let s = x >> 16u64;
        s | (((x ^ s) & 0xffff) << 48u64)
    }

    /// The linear map psi.
    pub fn psy(x: u64) -> (r: u64)
        ensures
            r == psy_spec(x),
    {
        let s = x >> 4u64;
        let acc = (x & 0xf) ^ ((x >> 4u64) & 0xf) ^ ((x >> 8u64) & 0xf) ^ ((x >> 12u64) & 0xf) ^ ((
        x >> 48u64) & 0xf) ^ ((x >> 60u64) & 0xf);
        s | (acc << 60u64)
    }

    /// The inverse of psi.
    pub fn psy_rev(x: u64) -> (r: u64)
        ensures
            r == psy_rev_spec(x),
    {
        let s = x << 4u64;
        let gamma0 = (x >> 60u64) ^ (x & 0xf) ^ ((x >> 4u64) & 0xf) ^ ((x >> 8u64) & 0xf) ^ ((x
            >> 44u64) & 0xf) ^ ((x >> 56u64) & 0xf);
        s | gamma0
    }

    /// psi applied `n` times, or psi^-1 applied `-n` times when `n` is negative.
    pub fn psy_pow(x: u64, n: i32) -> (r: u64)
        ensures
            r == psy_pow_spec(x, n as int),
    {
        let mut tmp = x;
        if n >= 0 {
            let mut i: i32 = 0;
            while i < n
                invariant
                    0 <= i <= n,
                    tmp == psy_pow_spec(x, i as int),
                decreases n - i,
            {
                tmp = Self::psy(tmp);
                i = i + 1;
            }
        } else {
            let mut i: i64 = 0;
            while i > n as i64
                invariant
                    n as i64 <= i <= 0,
                    tmp == psy_pow_spec(x, i as int),
                decreases i - n,
            {
                tmp = Self::psy_rev(tmp);
                i = i - 1;
            }
        }
        tmp
    }

    fn output_transformation(s: u64, h: u64, m: u64) -> (r: u64)
        ensures
            r == output_spec(s, h, m),
    {
        Self::psy_pow(h ^ Self::psy(m ^ Self::psy_pow(s, 12)), 61)
    }
}

} // verus!
