//! Meet-in-the-middle collision search against the reduced compression
//! function, for states whose first quarter is symmetric.

use crate::gost_hash::{
    GostHash, compress_spec, lemma_p_bijection, lemma_p_rev_xor, lemma_psy_pow_xor, p_rev_spec,
    p_spec, psy_pow_spec,
};
use crate::input::{StateError, state_check, validate_state};
use crate::magma::{Magma, join_halves, round_spec};
use crate::packing::{
    all_symbols, lemma_pack_unpack, lemma_sym_xor, pack, pack_spec, unpack,
};
use std::collections::{HashMap, HashSet};
use vstd::prelude::*;

verus! {

/// The operator L: the low block of `psi^-12(P^-1(k))`. It is linear over
/// exclusive or.
pub open spec fn op_spec(k: u64) -> u16 {
    (psy_pow_spec(p_rev_spec(k), -12) & 0xffff) as u16
}

/// `b` holds the images of L on the 64 unit vectors.
pub open spec fn operator_table(b: Seq<u16>) -> bool {
    b.len() == 64 && forall|i: int| 0 <= i < 64 ==> #[trigger] b[i] == op_spec(1u64 << (i as u64))
}

/// The exclusive or of `b[i]` over the set bits `i < n` of `k`.
pub open spec fn xor_sum(b: Seq<u16>, k: u64, n: nat) -> u16
    decreases n,
{
    if n == 0 {
        0
    } else {
        xor_sum(b, k, (n - 1) as nat) ^ (if (k >> ((n - 1) as u64)) & 1 == 1 {
            b[n - 1]
        } else {
            0u16
        })
    }
}

/// The bits of `k` below `n`.
pub open spec fn low_bits(k: u64, n: u64) -> u64 {
    if n >= 64 {
        k
    } else {
        k & (((1u64 << n) - 1) as u64)
    }
}

proof fn lemma_bits(k: u64, n: u64, x: u64, y: u64, a: u16)
    by (bit_vector)
    requires
        n < 64,
    ensures
        low_bits(k, 0) == 0,
        low_bits(k, 64) == k,
        low_bits(k, (n + 1) as u64) == low_bits(k, n) ^ (if (k >> n) & 1 == 1 {
            1u64 << n
        } else {
            0u64
        }),
        ((x ^ y) & 0xffff) as u16 == ((x & 0xffff) as u16) ^ ((y & 0xffff) as u16),
        a ^ 0u16 == a,
        a ^ a == 0u16,
        x ^ 0u64 == x,
{
}

/// L is linear: `L(k1 ^ k2) == L(k1) ^ L(k2)`.
pub proof fn lemma_op_xor(k1: u64, k2: u64)
    ensures
        op_spec(k1 ^ k2) == op_spec(k1) ^ op_spec(k2),
{
    lemma_p_rev_xor(k1, k2);
    lemma_psy_pow_xor(p_rev_spec(k1), p_rev_spec(k2), -12);
    lemma_bits(0, 0, psy_pow_spec(p_rev_spec(k1), -12), psy_pow_spec(p_rev_spec(k2), -12), 0);
}

proof fn lemma_op_zero()
    ensures
        op_spec(0) == 0,
{
    lemma_op_xor(0, 0);
    lemma_bits(0, 0, 0, 0, op_spec(0));
    assert(0u64 ^ 0u64 == 0u64) by (bit_vector);
}

/// The exclusive or of the table entries over the set bits of `k` is L(k).
pub proof fn lemma_operator_table(b: Seq<u16>, k: u64)
    requires
        operator_table(b),
    ensures
        xor_sum(b, k, 64) == op_spec(k),
{
    lemma_operator_table_prefix(b, k, 64);
    lemma_bits(k, 0, 0, 0, 0);
}

proof fn lemma_operator_table_prefix(b: Seq<u16>, k: u64, n: nat)
    requires
        operator_table(b),
        n <= 64,
    ensures
        xor_sum(b, k, n) == op_spec(low_bits(k, n as u64)),
    decreases n,
{
    lemma_bits(k, 0, 0, 0, 0);
    if n == 0 {
        lemma_op_zero();
    } else {
        let m = (n - 1) as nat;
        lemma_operator_table_prefix(b, k, m);
        lemma_bits(k, m as u64, 0, 0, 0);
        let bit: u64 = if (k >> (m as u64)) & 1 == 1 {
            1u64 << (m as u64)
        } else {
            0u64
        };
        lemma_op_xor(low_bits(k, m as u64), bit);
        lemma_op_zero();
        lemma_bits(0, 0, 0, 0, op_spec(low_bits(k, m as u64)));
    }
}

/// Size of the fixed-point set at which the collision search starts.
pub const FIXED_POINT_TARGET: usize = 16777216;

/// Number of 32-bit half-keys.
pub const HALF_KEYS: u64 = 0x1_0000_0000;

/// Four Magma rounds with round keys `k0..k3`, in that order.
pub open spec fn four_rounds(x: (u8, u8), k0: u8, k1: u8, k2: u8, k3: u8) -> (u8, u8) {
    let y0 = round_spec(x.0, x.1, k0);
    let y1 = round_spec(y0.0, y0.1, k1);
    let y2 = round_spec(y1.0, y1.1, k2);
    round_spec(y2.0, y2.1, k3)
}

/// The meeting block of the forward sweep: four rounds from the low two
/// half-blocks of `h`, keyed by the bytes of `k1` from low to high.
pub open spec fn forward_block(h: u64, k1: u32) -> u16 {
    let y = four_rounds(
        (h as u8, (h >> 8u64) as u8),
        k1 as u8,
        (k1 >> 8u32) as u8,
        (k1 >> 16u32) as u8,
        (k1 >> 24u32) as u8,
    );
    join_halves(y.1, y.0)
}

/// The meeting block of the backward sweep: four rounds from the swapped
/// low half-blocks of `h`, keyed by the bytes of `k2` from high to low.
pub open spec fn backward_block(h: u64, k2: u32) -> u16 {
    let y = four_rounds(
        ((h >> 8u64) as u8, h as u8),
        (k2 >> 24u32) as u8,
        (k2 >> 16u32) as u8,
        (k2 >> 8u32) as u8,
        k2 as u8,
    );
    join_halves(y.0, y.1)
}

/// A half-key placed as subkeys 0..3 (first half) or 4..7 of a key.
pub open spec fn half_key_of(half_key: u32, first_half: bool) -> u64 {
    if first_half {
        half_key as u64
    } else {
        (half_key as u64) << 32u64
    }
}

/// The key whose high half is `k2` and whose low half is `k1`.
pub open spec fn full_key(k2: u32, k1: u32) -> u64 {
    ((k2 as u64) << 32u64) | (k1 as u64)
}

/// The message whose first intermediate key under `h` is `key`.
pub open spec fn message_of(h: u64, key: u64) -> u64 {
    p_rev_spec(key) ^ h
}

/// The message's first intermediate key `P(h ^ m)` is mapped to `d` by L,
/// and its halves meet in the middle of the first four rounds.
pub open spec fn is_fixed_point(h: u64, d: u16, m: u64) -> bool {
    let key = p_spec(h ^ m);
    op_spec(key) == d && forward_block(h, key as u32) == backward_block(h, (key >> 32u64) as u32)
}

/// Every entry of `t` maps a forward meeting block to a half-key `k1` that
/// reaches it with `L(k1) == d1`.
pub open spec fn forward_entries(h: u64, d1: u16, t: Map<u16, u32>) -> bool {
    forall|blk: u16|
        #[trigger] t.contains_key(blk) ==> op_spec(t[blk] as u64) == d1 && forward_block(h, t[blk])
            == blk
}

/// `t` is the forward table of target `d1` over the half-keys below `end`.
pub open spec fn forward_table(h: u64, d1: u16, t: Map<u16, u32>, end: int) -> bool {
    &&& forward_entries(h, d1, t)
    &&& forall|blk: u16| #[trigger] t.contains_key(blk) ==> t[blk] < end
    &&& forall|k1: u32|
        k1 < end && op_spec(k1 as u64) == d1 ==> #[trigger] t.contains_key(forward_block(h, k1))
}

/// The backward sweep passes this half-key: `L(k2 << 32) == d2` and its
/// meeting block is in the forward table.
pub open spec fn backward_hit(h: u64, d2: u16, t: Map<u16, u32>, k2: u32) -> bool {
    op_spec((k2 as u64) << 32u64) == d2 && t.contains_key(backward_block(h, k2))
}

/// The messages that the backward sweep finds among the half-keys below `end`.
pub open spec fn backward_found(h: u64, d2: u16, t: Map<u16, u32>, end: int) -> Set<u64> {
    Set::new(
        |m: u64|
            exists|k2: u32|
                k2 < end && #[trigger] backward_hit(h, d2, t, k2) && m == message_of(
                    h,
                    full_key(k2, t[backward_block(h, k2)]),
                ),
    )
}

/// Round `i` of the fixed-point search has left its messages in `f`.
pub open spec fn round_done(h: u64, d: u16, i: u16, f: Set<u64>) -> bool {
    exists|t: Map<u16, u32>|
        forward_table(h, i, t, HALF_KEYS as int) && #[trigger] backward_found(
            h,
            i ^ d,
            t,
            HALF_KEYS as int,
        ).subset_of(f)
}

/// Two distinct messages of `f` compress `h` to the same state.
pub open spec fn has_collision(h: u64, f: Set<u64>) -> bool {
    exists|m1: u64, m2: u64|
        f.contains(m1) && f.contains(m2) && m1 != m2 && #[trigger] compress_spec(h, m1)
            == #[trigger] compress_spec(h, m2)
}

/// The parameter `d` for state `h` and random block `c`:
/// `c ^ low(psi^-12(h)) ^ low(psi^-13(h))`.
pub open spec fn d_spec(h: u64, c: u16) -> u16 {
    let y1 = psy_pow_spec(h, -12);
    let y2 = psy_pow_spec(y1, -1);
    c ^ ((y1 & 0xffff) as u16) ^ ((y2 & 0xffff) as u16)
}

proof fn lemma_key_bits(k2: u32, k1: u32, h: u64, x: u64, a: u16, b: u16)
    by (bit_vector)
    ensures
        full_key(k2, k1) as u32 == k1,
        (full_key(k2, k1) >> 32u64) as u32 == k2,
        full_key(k2, k1) == ((k2 as u64) << 32u64) ^ (k1 as u64),
        h ^ (x ^ h) == x,
        (a ^ b) ^ b == a,
        (a ^ b) ^ a == b,
        a ^ (a ^ b) == b,
{
}

/// A message that the sweeps of round `d1` find is a fixed point for `d`.
proof fn lemma_found_is_fixed_point(h: u64, d: u16, d1: u16, k2: u32, k1: u32)
    requires
        op_spec(k1 as u64) == d1,
        op_spec((k2 as u64) << 32u64) == d1 ^ d,
        forward_block(h, k1) == backward_block(h, k2),
    ensures
        is_fixed_point(h, d, message_of(h, full_key(k2, k1))),
{
    let key = full_key(k2, k1);
    let m = message_of(h, key);
    lemma_key_bits(k2, k1, h, p_rev_spec(key), d1, d);
    assert(h ^ m == p_rev_spec(key));
    lemma_p_bijection(key);
    assert(p_spec(h ^ m) == key);
    lemma_op_xor((k2 as u64) << 32u64, k1 as u64);
    assert(op_spec(key) == d);
}

proof fn lemma_backward_found_step(h: u64, d2: u16, t: Map<u16, u32>, k: u32)
    ensures
        backward_hit(h, d2, t, k) ==> backward_found(h, d2, t, k + 1) == backward_found(
            h,
            d2,
            t,
            k as int,
        ).insert(message_of(h, full_key(k, t[backward_block(h, k)]))),
        !backward_hit(h, d2, t, k) ==> backward_found(h, d2, t, k + 1) == backward_found(
            h,
            d2,
            t,
            k as int,
        ),
{
    let lo = backward_found(h, d2, t, k as int);
    let hi = backward_found(h, d2, t, k + 1);
    let m = message_of(h, full_key(k, t[backward_block(h, k)]));
    if backward_hit(h, d2, t, k) {
        assert(hi.contains(m));
        assert(hi =~= lo.insert(m));
    } else {
        assert(hi =~= lo);
    }
}

/// Relies on `rand::random`, which draws from the thread-local generator:
/// any block may come back.
#[verifier::external_body]
fn draw_block() -> u16 {
    rand::random::<u16>()
}

/// The collision search for one starting state.
pub struct GostAttack {
    h: u64,
    d: u16,
    fixed_points: HashSet<u64>,
    fixed_list: Vec<u64>,
    operator_on_base_vectors: [u16; 64],
}

impl GostAttack {
    /// The state under attack.
    pub closed spec fn state(&self) -> u64 {
        self.h
    }

    /// The current parameter `d`.
    pub closed spec fn param_d(&self) -> u16 {
        self.d
    }

    /// The fixed points found so far.
    pub closed spec fn fixed_point_set(&self) -> Set<u64> {
        self.fixed_points@
    }

    /// The operator table is right, the list holds the set's messages once
    /// each, and each of them is a fixed point for the current `d`.
    pub closed spec fn wf(&self) -> bool {
        &&& operator_table(self.operator_on_base_vectors@)
        &&& self.fixed_list@.no_duplicates()
        &&& forall|m: u64| #[trigger]
            self.fixed_points@.contains(m) <==> self.fixed_list@.contains(m)
        &&& forall|m: u64| #[trigger]
            self.fixed_points@.contains(m) ==> is_fixed_point(self.h, self.d, m)
    }

    /// A search on the state `h`, with a parameter `d` drawn at random.
    pub fn new(h: &[u8]) -> (r: Result<GostAttack, StateError>)
        ensures
            r matches Err(e) ==> state_check(h@) == Err::<(), StateError>(e),
            r is Ok <==> state_check(h@) is Ok,
            r matches Ok(a) ==> a.wf() && a.state() == pack_spec(h@) && a.fixed_point_set().is_empty()
                && exists|c: u16| a.param_d() == d_spec(pack_spec(h@), c),
    {
        let c = draw_block();
        Self::with_c(h, c)
    }

    /// A search on the state `h`, with the parameter `d` derived from the
    /// block `c`.
    pub fn with_c(h: &[u8], c: u16) -> (r: Result<GostAttack, StateError>)
        ensures
            r matches Err(e) ==> state_check(h@) == Err::<(), StateError>(e),
            r is Ok <==> state_check(h@) is Ok,
            r matches Ok(a) ==> a.wf() && a.state() == pack_spec(h@) && a.fixed_point_set().is_empty()
                && a.param_d() == d_spec(pack_spec(h@), c),
    {
        match validate_state(h) {
            Err(e) => Err(e),
            Ok(()) => {
                let h_state = pack(h);
                let res = GostAttack {
                    h: h_state,
                    d: Self::calculate_d(h_state, c),
                    fixed_points: HashSet::new(),
                    fixed_list: Vec::new(),
                    operator_on_base_vectors: Self::get_operator_values(),
                };
                Ok(res)
            },
        }
    }

    /// The parameter `d` for the state `h` and the block `c`.
    pub fn calculate_d(h: u64, c: u16) -> (d: u16)
        ensures
            d == d_spec(h, c),
    {
        let mut d = c;
        let y = GostHash::psy_pow(h, -12);
        d = d ^ ((y & 0xffff) as u16);
        let y = GostHash::psy_pow(y, -1);
        d = d ^ ((y & 0xffff) as u16);
        d
    }

    /// L on one key, computed directly.
    pub fn _apply_operator(k0: u64) -> (r: u16)
        ensures
            r == op_spec(k0),
    {
        (GostHash::psy_pow(GostHash::p_rev(k0), -12) & 0xffff) as u16
    }

    /// The table of L on the 64 unit vectors.
    pub fn get_operator_values() -> (b: [u16; 64])
        ensures
            operator_table(b@),
    {
        let mut ret = [0u16; 64];
        let mut i: usize = 0;
        while i < 64
            invariant
                i <= 64,
                ret@.len() == 64,
                forall|j: int| 0 <= j < i ==> #[trigger] ret@[j] == op_spec(1u64 << (j as u64)),
            decreases 64 - i,
        {
            ret[i] = Self::_apply_operator(1u64 << (i as u64));
            i = i + 1;
        }
        ret
    }

    /// The exclusive or of the table entries over the set bits of `k`.
    pub fn apply_operator(b: &[u16; 64], k: u64) -> (r: u16)
        ensures
            r == xor_sum(b@, k, 64),
    {
        let mut acc: u16 = 0;
        let mut i: usize = 0;
        while i < 64
            invariant
                i <= 64,
                acc == xor_sum(b@, k, i as nat),
            decreases 64 - i,
        {
            proof {
                lemma_bits(0, 0, 0, 0, acc);
            }
            if (k >> (i as u64)) & 1 == 1 {
                acc = acc ^ b[i];
            }
            i = i + 1;
        }
        acc
    }

    /// Whether `L(k) == d`, where `k` holds the half-key as subkeys 0..3
    /// (`first_half`) or 4..7.
    fn check_equasion(b: &[u16; 64], half_key: u32, d: u16, first_half: bool) -> (r: bool)
        requires
            operator_table(b@),
        ensures
            r == (op_spec(half_key_of(half_key, first_half)) == d),
    {
        let mut mock_key = half_key as u64;
        if !first_half {
            mock_key = mock_key << 32u64;
        }
        proof {
            lemma_operator_table(b@, mock_key);
        }
        Self::apply_operator(b, mock_key) == d
    }

    /// The forward table of target `d1`: every half-key `k1` with
    /// `L(k1) == d1` is run through four rounds from the state's low block,
    /// and its meeting block is mapped to it.
    fn seek_forward(&self, d1: u16) -> (l: HashMap<u16, u32>)
        requires
            self.wf(),
        ensures
            forward_table(self.h, d1, l@, HALF_KEYS as int),
    {
        let mut l: HashMap<u16, u32> = HashMap::new();
        let mut k: u64 = 0;
        while k < HALF_KEYS
            invariant
                self.wf(),
                k <= HALF_KEYS,
                forward_table(self.h, d1, l@, k as int),
            decreases HALF_KEYS - k,
        {
            let half_key = k as u32;
            if Self::check_equasion(&self.operator_on_base_vectors, half_key, d1, true) {
                let block = Self::forward_meet(self.h, half_key);
                l.insert(block, half_key);
            }
            k = k + 1;
        }
        l
    }

    fn insert_fixed_point(&mut self, m: u64)
        requires
            old(self).wf(),
            is_fixed_point(old(self).h, old(self).d, m),
        ensures
            final(self).wf(),
            final(self).h == old(self).h,
            final(self).d == old(self).d,
            final(self).fixed_points@ == old(self).fixed_points@.insert(m),
    {
        if !self.fixed_points.contains(&m) {
            self.fixed_points.insert(m);
            self.fixed_list.push(m);
            assert(self.fixed_list@[self.fixed_list@.len() - 1] == m);
            assert forall|x: u64| #[trigger]
                self.fixed_points@.contains(x) <==> self.fixed_list@.contains(x) by {
                if old(self).fixed_list@.contains(x) {
                    let j = choose|j: int|
                        0 <= j < old(self).fixed_list@.len() && old(self).fixed_list@[j] == x;
                    assert(self.fixed_list@[j] == x);
                }
                if self.fixed_list@.contains(x) && x != m {
                    let j = choose|j: int| 0 <= j < self.fixed_list@.len() && self.fixed_list@[j] == x;
                    assert(old(self).fixed_list@[j] == x);
                }
            }
        } else {
            assert(self.fixed_points@ =~= old(self).fixed_points@.insert(m));
        }
    }

    /// The backward sweep's work on one half-key `k2`.
    fn seek_backward_key(&mut self, l: &HashMap<u16, u32>, d2: u16, half_key: u32)
        requires
            old(self).wf(),
            forward_entries(old(self).h, d2 ^ old(self).d, l@),
        ensures
            final(self).wf(),
            final(self).h == old(self).h,
            final(self).d == old(self).d,
            backward_hit(old(self).h, d2, l@, half_key) ==> final(self).fixed_points@ == old(
                self,
            ).fixed_points@.insert(
                message_of(
                    old(self).h,
                    full_key(half_key, l@[backward_block(old(self).h, half_key)]),
                ),
            ),
            !backward_hit(old(self).h, d2, l@, half_key) ==> final(self).fixed_points@ == old(
                self,
            ).fixed_points@,
    {
        if Self::check_equasion(&self.operator_on_base_vectors, half_key, d2, false) {
            let block = Self::backward_meet(self.h, half_key);
            match l.get(&block) {
                Some(first_key_half) => {
                    let key = ((half_key as u64) << 32u64) | (*first_key_half as u64);
                    let m = Self::convert_to_message(self.h, key);
                    proof {
                        lemma_key_bits(0, 0, 0, 0, d2, self.d);
                        lemma_found_is_fixed_point(
                            self.h,
                            self.d,
                            d2 ^ self.d,
                            half_key,
                            *first_key_half,
                        );
                    }
                    self.insert_fixed_point(m);
                },
                None => {},
            }
        }
    }

    /// The backward sweep of target `d2`: every half-key `k2` with
    /// `L(k2 << 32) == d2` is run backwards through four rounds; where its
    /// meeting block is in the forward table, the message of the joined key
    /// is a fixed point.
    fn seek_backward(&mut self, l: &HashMap<u16, u32>, d2: u16)
        requires
            old(self).wf(),
            forward_entries(old(self).h, d2 ^ old(self).d, l@),
        ensures
            final(self).wf(),
            final(self).h == old(self).h,
            final(self).d == old(self).d,
            final(self).fixed_points@ == old(self).fixed_points@ + backward_found(
                old(self).h,
                d2,
                l@,
                HALF_KEYS as int,
            ),
    {
        let ghost f0 = self.fixed_points@;
        let ghost h = self.h;
        let ghost d = self.d;
        let mut k: u64 = 0;
        assert(f0 + backward_found(h, d2, l@, 0) =~= f0);
        while k < HALF_KEYS
            invariant
                self.wf(),
                self.h == h,
                self.d == d,
                k <= HALF_KEYS,
                forward_entries(h, d2 ^ d, l@),
                self.fixed_points@ == f0 + backward_found(h, d2, l@, k as int),
            decreases HALF_KEYS - k,
        {
            let half_key = k as u32;
            self.seek_backward_key(l, d2, half_key);
            proof {
                lemma_backward_found_step(h, d2, l@, half_key);
                assert(self.fixed_points@ =~= f0 + backward_found(h, d2, l@, k + 1));
            }
            k = k + 1;
        }
    }

    fn forward_meet(h: u64, half_key: u32) -> (block: u16)
        ensures
            block == forward_block(h, half_key),
    {
        let mut left = h as u8;
        let mut right = (h >> 8u64) as u8;
        Magma::round(&mut left, &mut right, half_key as u8);
        Magma::round(&mut left, &mut right, (half_key >> 8u32) as u8);
        Magma::round(&mut left, &mut right, (half_key >> 16u32) as u8);
        Magma::round(&mut left, &mut right, (half_key >> 24u32) as u8);
        ((right as u16) << 8u16) | (left as u16)
    }

    fn backward_meet(h: u64, half_key: u32) -> (block: u16)
        ensures
            block == backward_block(h, half_key),
    {
        let mut right = h as u8;
        let mut left = (h >> 8u64) as u8;
        Magma::round(&mut left, &mut right, (half_key >> 24u32) as u8);
        Magma::round(&mut left, &mut right, (half_key >> 16u32) as u8);
        Magma::round(&mut left, &mut right, (half_key >> 8u32) as u8);
        Magma::round(&mut left, &mut right, half_key as u8);
        ((left as u16) << 8u16) | (right as u16)
    }

    /// The message whose first intermediate key under `h` is `key`.
    fn convert_to_message(h: u64, key: u64) -> (m: u64)
        ensures
            m == message_of(h, key),
    {
        GostHash::p_rev(key) ^ h
    }

    /// Round `i` of the fixed-point search: the forward sweep with target
    /// `d1 = i`, then the backward sweep with target `d1 ^ d`.
    fn find_fixed_points_round(&mut self, i: u16)
        requires
            old(self).wf(),
        ensures
            final(self).wf(),
            final(self).h == old(self).h,
            final(self).d == old(self).d,
            exists|t: Map<u16, u32>|
                forward_table(old(self).h, i, t, HALF_KEYS as int) && final(self).fixed_points@
                    == old(self).fixed_points@ + #[trigger] backward_found(
                    old(self).h,
                    i ^ old(self).d,
                    t,
                    HALF_KEYS as int,
                ),
    {
        let d1 = i;
        let d2 = d1 ^ self.d;
        let l = self.seek_forward(d1);
        proof {
            lemma_key_bits(0, 0, 0, 0, d1, self.d);
        }
        self.seek_backward(&l, d2);
    }

    /// Runs the rounds `i = 0, 1, ...` until the fixed-point set holds
    /// `FIXED_POINT_TARGET` messages or every 16-bit target has had its round.
    fn find_fixed_points(&mut self)
        requires
            old(self).wf(),
        ensures
            final(self).wf(),
            final(self).h == old(self).h,
            final(self).d == old(self).d,
            old(self).fixed_points@.subset_of(final(self).fixed_points@),
            final(self).fixed_points@.len() >= FIXED_POINT_TARGET || forall|j: u16| #[trigger]
                round_done(final(self).h, final(self).d, j, final(self).fixed_points@),
    {
        let ghost f0 = self.fixed_points@;
        let mut i: u32 = 0;
        while i < 65536 && self.fixed_points.len() < FIXED_POINT_TARGET
            invariant
                self.wf(),
                self.h == old(self).h,
                self.d == old(self).d,
                i <= 65536,
                f0.subset_of(self.fixed_points@),
                forall|j: u16| j < i ==> #[trigger] round_done(self.h, self.d, j, self.fixed_points@),
            decreases 65536 - i,
        {
            let ghost before = self.fixed_points@;
            assert(forall|j: u16| j < i ==> #[trigger] round_done(self.h, self.d, j, before));
            self.find_fixed_points_round(i as u16);
            proof {
                assert(before.subset_of(self.fixed_points@));
                assert forall|j: u16| j < i + 1 implies #[trigger] round_done(
                    self.h,
                    self.d,
                    j,
                    self.fixed_points@,
                ) by {
                    if j < i {
                        assert(round_done(self.h, self.d, j, before));
                        let t = choose|t: Map<u16, u32>|
                            forward_table(self.h, j, t, HALF_KEYS as int) && #[trigger] backward_found(
                                self.h,
                                j ^ self.d,
                                t,
                                HALF_KEYS as int,
                            ).subset_of(before);
                        assert(backward_found(self.h, j ^ self.d, t, HALF_KEYS as int).subset_of(
                            self.fixed_points@,
                        ));
                    } else {
                        assert(j == i as u16);
                        let t = choose|t: Map<u16, u32>|
                            forward_table(self.h, j, t, HALF_KEYS as int) && self.fixed_points@
                                == before + #[trigger] backward_found(
                                self.h,
                                j ^ self.d,
                                t,
                                HALF_KEYS as int,
                            );
                        assert(backward_found(self.h, j ^ self.d, t, HALF_KEYS as int).subset_of(
                            self.fixed_points@,
                        ));
                    }
                }
            }
            i = i + 1;
        }
    }

    /// A pair of distinct fixed points that compress the state to the same
    /// value, if the set holds one.
    fn get_collision(&self) -> (r: Option<(u64, u64)>)
        requires
            self.wf(),
        ensures
            r is None <==> !has_collision(self.h, self.fixed_points@),
            r matches Some((m1, m2)) ==> self.fixed_points@.contains(m1)
                && self.fixed_points@.contains(m2) && m1 != m2 && compress_spec(self.h, m1)
                == compress_spec(self.h, m2),
    {
        let ghost list = self.fixed_list@;
        let mut seen: HashMap<u64, u64> = HashMap::new();
        let mut j: usize = 0;
        while j < self.fixed_list.len()
            invariant
                self.wf(),
                list == self.fixed_list@,
                j <= list.len(),
                forall|c: u64| #[trigger]
                    seen@.contains_key(c) ==> exists|a: int|
                        0 <= a < j && list[a] == seen@[c] && compress_spec(self.h, list[a]) == c,
                forall|a: int| 0 <= a < j ==> #[trigger] seen@.contains_key(compress_spec(self.h, list[a])),
                forall|a: int, b: int|
                    0 <= a < b < j ==> compress_spec(self.h, #[trigger] list[a]) != compress_spec(
                        self.h,
                        #[trigger] list[b],
                    ),
            decreases list.len() - j,
        {
            let m = self.fixed_list[j];
            let c = GostHash::compress(self.h, m);
            match seen.get(&c) {
                Some(prev) => {
                    let ghost a = choose|a: int|
                        0 <= a < j && list[a] == seen@[c] && compress_spec(self.h, list[a]) == c;
                    assert(list[j as int] == m);
                    assert(self.fixed_points@.contains(m));
                    assert(self.fixed_points@.contains(*prev));
                    return Some((*prev, m));
                },
                None => {
                    seen.insert(c, m);
                },
            }
            j = j + 1;
        }
        proof {
            if has_collision(self.h, self.fixed_points@) {
                let (m1, m2) = choose|m1: u64, m2: u64|
                    self.fixed_points@.contains(m1) && self.fixed_points@.contains(m2) && m1 != m2
                        && #[trigger] compress_spec(self.h, m1) == #[trigger] compress_spec(self.h, m2);
                assert(list.contains(m1));
                assert(list.contains(m2));
                let a = choose|a: int| 0 <= a < list.len() && list[a] == m1;
                let b = choose|b: int| 0 <= b < list.len() && list[b] == m2;
                if a < b {
                    assert(compress_spec(self.h, list[a]) != compress_spec(self.h, list[b]));
                } else {
                    assert(compress_spec(self.h, list[b]) != compress_spec(self.h, list[a]));
                }
            }
        }
        None
    }

    /// One attempt under the current `d`: collects fixed points, then looks
    /// for a colliding pair among them.
    pub fn search(&mut self) -> (r: Option<(u64, u64)>)
        requires
            old(self).wf(),
        ensures
            final(self).wf(),
            final(self).state() == old(self).state(),
            final(self).param_d() == old(self).param_d(),
            old(self).fixed_point_set().subset_of(final(self).fixed_point_set()),
            final(self).fixed_point_set().len() >= FIXED_POINT_TARGET || forall|j: u16| #[trigger]
                round_done(final(self).state(), final(self).param_d(), j, final(self).fixed_point_set()),
            r is None <==> !has_collision(final(self).state(), final(self).fixed_point_set()),
            r matches Some((m1, m2)) ==> final(self).fixed_point_set().contains(m1)
                && final(self).fixed_point_set().contains(m2) && m1 != m2 && compress_spec(
                final(self).state(),
                m1,
            ) == compress_spec(final(self).state(), m2),
    {
        self.find_fixed_points();
        self.get_collision()
    }

    /// Clears the fixed points and draws a fresh parameter `d`.
    fn restart(&mut self)
        requires
            old(self).wf(),
        ensures
            final(self).wf(),
            final(self).h == old(self).h,
            final(self).fixed_points@.is_empty(),
            exists|c: u16| final(self).d == d_spec(old(self).h, c),
    {
        self.fixed_points.clear();
        self.fixed_list = Vec::new();
        let c = draw_block();
        self.d = Self::calculate_d(self.h, c);
    }

    /// Runs up to `max_attempts` attempts, each after the first with the
    /// fixed points cleared and a fresh `d`, and returns the first colliding
    /// pair of messages as symbol vectors. When none is found, the fixed
    /// points of the last attempt are kept.
    pub fn generate_collision(&mut self, max_attempts: u32) -> (r: Option<([u8; 32], [u8; 32])>)
        requires
            old(self).wf(),
        ensures
            final(self).wf(),
            final(self).state() == old(self).state(),
            max_attempts == 0 ==> r is None && final(self).fixed_point_set() == old(
                self,
            ).fixed_point_set(),
            r is None && max_attempts > 0 ==> !has_collision(
                final(self).state(),
                final(self).fixed_point_set(),
            ) && (final(self).fixed_point_set().len() >= FIXED_POINT_TARGET || forall|j: u16|
                #[trigger] round_done(
                    final(self).state(),
                    final(self).param_d(),
                    j,
                    final(self).fixed_point_set(),
                )),
            r matches Some((a, b)) ==> all_symbols(a@) && all_symbols(b@) && a@ != b@
                && compress_spec(old(self).state(), pack_spec(a@)) == compress_spec(
                old(self).state(),
                pack_spec(b@),
            ),
    {
        let mut attempt: u32 = 0;
        while attempt < max_attempts
            invariant
                self.wf(),
                self.h == old(self).h,
                attempt <= max_attempts,
                attempt == 0 ==> self.fixed_points@ == old(self).fixed_points@,
                attempt > 0 ==> !has_collision(self.h, self.fixed_points@) && (
                self.fixed_points@.len() >= FIXED_POINT_TARGET || forall|j: u16| #[trigger]
                    round_done(self.h, self.d, j, self.fixed_points@)),
            decreases max_attempts - attempt,
        {
            if attempt > 0 {
                self.restart();
            }
            match self.search() {
                Some((m1, m2)) => {
                    let mut first = [0u8; 32];
                    let mut second = [0u8; 32];
                    unpack(&mut first, m1);
                    unpack(&mut second, m2);
                    proof {
                        lemma_pack_unpack(m1);
                        lemma_pack_unpack(m2);
                        assert forall|i: int| 0 <= i < 32 implies first@[i] < 4 && second@[i] < 4 by {
                            lemma_sym_xor(m1, m2, i);
                            lemma_sym_xor(m2, m1, i);
                        }
                    }
                    return Some((first, second));
                },
                None => {},
            }
            attempt = attempt + 1;
        }
        None
    }
}

} // verus!
