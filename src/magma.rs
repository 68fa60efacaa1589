//! Magma, the GOST block cipher, scaled down to two-bit "bytes": a Feistel
//! network over 16-bit blocks, with a 64-bit key and 32 rounds.

use vstd::prelude::*;

verus! {

/// Image of one symbol under the substitution table `{0->1, 1->3, 2->0, 3->2}`.
pub open spec fn sbox_symbol(s: u8) -> u8 {
    if s == 0 {
        1
    } else if s == 1 {
        3
    } else if s == 2 {
        0
    } else {
        2
    }
}

/// The substitution applied to each of the four symbols of a half-block.
pub open spec fn s_box_spec(x: u8) -> u8 {
    sbox_symbol(x & 3) | (sbox_symbol((x >> 2u8) & 3) << 2u8) | (sbox_symbol((x >> 4u8) & 3)
        << 4u8) | (sbox_symbol((x >> 6u8) & 3) << 6u8)
}

/// Symbol-wise addition modulo 4 with the carry passed upward, which is
/// addition modulo 256 of the packed half-blocks.
pub open spec fn add_halfblock(a: u8, b: u8) -> u8 {
    ((a + b) % 256) as u8
}

/// Rotation of a half-block left by three bit positions.
pub open spec fn rotl3(x: u8) -> u8 {
    (x << 3u8) | (x >> 5u8)
}

/// One Feistel round on `(left, right)` with round key `k`; the halves are
/// swapped at its end.
pub open spec fn round_spec(left: u8, right: u8, k: u8) -> (u8, u8) {
    (right, left ^ rotl3(s_box_spec(add_halfblock(right, k))))
}

/// Subkey `i` (bits `8i..8i+8`) of a key.
pub open spec fn subkey(key: u64, i: int) -> u8 {
    (key >> ((8 * i) as u64)) as u8
}

/// The key used in round `r`: subkeys 0..7 three times, then 7..0.
pub open spec fn round_key(key: u64, r: int) -> u8 {
    if r < 24 {
        subkey(key, r % 8)
    } else {
        subkey(key, 7 - r % 8)
    }
}

/// The 32 round keys in the order encryption uses them.
pub open spec fn schedule(key: u64) -> Seq<u8> {
    Seq::new(32, |r: int| round_key(key, r))
}

/// The halves after the first `n` rounds of encryption.
pub open spec fn encrypt_rounds(key: u64, x: (u8, u8), n: nat) -> (u8, u8)
    decreases n,
{
    if n == 0 {
        x
    } else {
        let y = encrypt_rounds(key, x, (n - 1) as nat);
        round_spec(y.0, y.1, round_key(key, n - 1))
    }
}

/// The halves after the first `n` rounds of decryption, which takes the
/// round keys from last to first.
pub open spec fn decrypt_rounds(key: u64, x: (u8, u8), n: nat) -> (u8, u8)
    decreases n,
{
    if n == 0 {
        x
    } else {
        let y = decrypt_rounds(key, x, (n - 1) as nat);
        round_spec(y.0, y.1, round_key(key, 32 - n))
    }
}

/// A block as `(left, right)`: left is its low half.
pub open spec fn halves(b: u16) -> (u8, u8) {
    ((b & 0xff) as u8, (b >> 8u16) as u8)
}

/// The block whose high half is `hi` and whose low half is `lo`.
pub open spec fn join_halves(hi: u8, lo: u8) -> u16 {
    ((hi as u16) << 8u16) | (lo as u16)
}

/// Encryption of one block: 32 rounds, then the left half goes high.
pub open spec fn encrypt_spec(key: u64, block: u16) -> u16 {
    let y = encrypt_rounds(key, halves(block), 32);
    join_halves(y.0, y.1)
}

/// Decryption of one block: the rounds with the keys in reverse order.
pub open spec fn decrypt_spec(key: u64, block: u16) -> u16 {
    let y = decrypt_rounds(key, halves(block), 32);
    join_halves(y.0, y.1)
}

proof fn lemma_halfblock_bits(l: u8, g: u8, b: u16)
    by (bit_vector)
    ensures
        (l ^ g) ^ g == l,
        ((((l as u16) << 8u16) | (g as u16)) & 0xff) as u8 == g,
        ((((l as u16) << 8u16) | (g as u16)) >> 8u16) as u8 == l,
        ((((b >> 8u16) as u8) as u16) << 8u16) | (((b & 0xff) as u8) as u16) == b,
{
}

/// A round undoes itself once its input and output halves are swapped.
proof fn lemma_round_undo(l: u8, r: u8, k: u8)
    ensures
        ({
            let y = round_spec(l, r, k);
            round_spec(y.1, y.0, k) == (r, l)
        }),
{
    let g = rotl3(s_box_spec(add_halfblock(r, k)));
    lemma_halfblock_bits(l, g, 0);
}

proof fn lemma_decrypt_encrypt_rounds(key: u64, x: (u8, u8), m: nat)
    requires
        m <= 32,
    ensures
        ({
            let e = encrypt_rounds(key, x, 32);
            let y = encrypt_rounds(key, x, (32 - m) as nat);
            decrypt_rounds(key, (e.1, e.0), m) == (y.1, y.0)
        }),
    decreases m,
{
    if m > 0 {
        lemma_decrypt_encrypt_rounds(key, x, (m - 1) as nat);
        let y = encrypt_rounds(key, x, (32 - m) as nat);
        lemma_round_undo(y.0, y.1, round_key(key, 32 - m));
    }
}

/// Decryption under a key undoes encryption under the same key.
pub proof fn lemma_decrypt_encrypt(key: u64, block: u16)
    ensures
        decrypt_spec(key, encrypt_spec(key, block)) == block,
{
    let x = halves(block);
    let e = encrypt_rounds(key, x, 32);
    lemma_halfblock_bits(e.0, e.1, block);
    assert(halves(encrypt_spec(key, block)) == (e.1, e.0));
    lemma_decrypt_encrypt_rounds(key, x, 32);
    assert(encrypt_rounds(key, x, 0) == x);
}

/// The cipher's key: eight 8-bit subkeys, subkey `i` in bits `8i..8i+8`.
pub struct MagmaKey {
    key: u64,
}

/// Hands out the 32 round keys of a `MagmaKey`, from the front (encryption
/// order) or from the back (decryption order).
pub struct MagmaKeyScheduler {
    key: u64,
    front: usize,
    back: usize,
}

struct MagmaState {
    left: u8,
    right: u8,
}

/// The reduced Magma block cipher under one key.
pub struct Magma {
    key: MagmaKey,
    state: MagmaState,
}

impl View for MagmaKey {
    type V = u64;

    closed spec fn view(&self) -> u64 {
        self.key
    }
}

impl View for MagmaKeyScheduler {
    type V = Seq<u8>;

    /// The round keys not handed out yet, in encryption order.
    closed spec fn view(&self) -> Seq<u8> {
        schedule(self.key).subrange(self.front as int, self.back as int)
    }
}

impl View for Magma {
    type V = u64;

    closed spec fn view(&self) -> u64 {
        self.key.key
    }
}

fn sbox_lookup(s: u8) -> (r: u8)
    ensures
        r == sbox_symbol(s),
{
    if s == 0 {
        1
    } else if s == 1 {
        3
    } else if s == 2 {
        0
    } else {
        2
    }
}

/// Applies the substitution table to each symbol of a half-block.
pub fn s_box(x: u8) -> (r: u8)
    ensures
        r == s_box_spec(x),
{
    sbox_lookup(x & 3) | (sbox_lookup((x >> 2u8) & 3) << 2u8) | (sbox_lookup((x >> 4u8) & 3)
        << 4u8) | (sbox_lookup((x >> 6u8) & 3) << 6u8)
}

fn rotate3(x: u8) -> (r: u8)
    ensures
        r == rotl3(x),
{
    (x << 3u8) | (x >> 5u8)
}

fn round_key_at(key: u64, r: usize) -> (k: u8)
    requires
        r < 32,
    ensures
        k == round_key(key, r as int),
{
    if r < 24 {
        (key >> ((8 * (r % 8)) as u64)) as u8
    } else {
        (key >> ((8 * (7 - r % 8)) as u64)) as u8
    }
}

impl MagmaKey {
    pub fn new(key: u64) -> (k: MagmaKey)
        ensures
            k@ == key,
    {
        MagmaKey { key }
    }

    pub fn scheduler(&self) -> (s: MagmaKeyScheduler)
        ensures
            s@ == schedule(self@),
    {
        MagmaKeyScheduler::new(self)
    }
}

impl MagmaKeyScheduler {
    #[verifier::type_invariant]
    spec fn inv(&self) -> bool {
        self.front <= self.back <= 32
    }

    /// A scheduler that has handed out none of the 32 round keys.
    pub fn new(key: &MagmaKey) -> (s: MagmaKeyScheduler)
        ensures
            s@ == schedule(key@),
    {
        let s = MagmaKeyScheduler { key: key.key, front: 0, back: 32 };
        assert(s@ =~= schedule(key@));
        s
    }

    /// The next round key in encryption order, if any is left.
    pub fn next(&mut self) -> (r: Option<u8>)
        ensures
            old(self)@.len() == 0 ==> r is None && final(self)@ == old(self)@,
            old(self)@.len() > 0 ==> r == Some(old(self)@[0]) && final(self)@ == old(
                self,
            )@.drop_first(),
    {
        proof {
            use_type_invariant(&*self);
        }
        if self.front < self.back {
            let k = round_key_at(self.key, self.front);
            self.front = self.front + 1;
            assert(self@ =~= old(self)@.drop_first());
            Some(k)
        } else {
            None
        }
    }

    /// The next round key in decryption order (from the back), if any is left.
    pub fn next_back(&mut self) -> (r: Option<u8>)
        ensures
            old(self)@.len() == 0 ==> r is None && final(self)@ == old(self)@,
            old(self)@.len() > 0 ==> r == Some(old(self)@.last()) && final(self)@ == old(
                self,
            )@.drop_last(),
    {
        proof {
            use_type_invariant(&*self);
        }
        if self.front < self.back {
            let k = round_key_at(self.key, self.back - 1);
            self.back = self.back - 1;
            assert(self@ =~= old(self)@.drop_last());
            Some(k)
        } else {
            None
        }
    }
}

impl MagmaState {
    fn new() -> MagmaState {
        MagmaState { left: 0u8, right: 0u8 }
    }
}

impl Magma {
    /// A cipher under the given 64-bit key.
    pub fn new(key: u64) -> (m: Magma)
        ensures
            m@ == key,
    {
        let key = MagmaKey::new(key);
        let state = MagmaState::new();
        Magma { key, state }
    }

    /// Encrypts one block.
    pub fn encrypt_block(&mut self, block: u16) -> (r: u16)
        ensures
            final(self)@ == old(self)@,
            r == encrypt_spec(old(self)@, block),
    {
        let ghost key = self@;
        let mut left: u8 = (block & 0xff) as u8;
        let mut right: u8 = (block >> 8u16) as u8;
        let mut key_scheduler = self.key.scheduler();
        loop
            invariant
                key == self@,
                key_scheduler@.len() <= 32,
                key_scheduler@ == schedule(key).subrange(32 - key_scheduler@.len(), 32),
                (left, right) == encrypt_rounds(
                    key,
                    halves(block),
                    (32 - key_scheduler@.len()) as nat,
                ),
            ensures
                (left, right) == encrypt_rounds(key, halves(block), 32),
            decreases key_scheduler@.len(),
        {
            match key_scheduler.next() {
                Some(rk) => {
                    Self::round(&mut left, &mut right, rk);
                    assert(key_scheduler@ =~= schedule(key).subrange(
                        32 - key_scheduler@.len(),
                        32,
                    ));
                },
                None => break,
            }
        }
        self.state.left = left;
        self.state.right = right;
        ((left as u16) << 8u16) | (right as u16)
    }

    /// Decrypts one block.
    pub fn decrypt_block(&mut self, block: u16) -> (r: u16)
        ensures
            final(self)@ == old(self)@,
            r == decrypt_spec(old(self)@, block),
    {
        let ghost key = self@;
        let mut left: u8 = (block & 0xff) as u8;
        let mut right: u8 = (block >> 8u16) as u8;
        let mut key_scheduler = self.key.scheduler();
        loop
            invariant
                key == self@,
                key_scheduler@.len() <= 32,
                key_scheduler@ == schedule(key).subrange(0, key_scheduler@.len() as int),
                (left, right) == decrypt_rounds(
                    key,
                    halves(block),
                    (32 - key_scheduler@.len()) as nat,
                ),
            ensures
                (left, right) == decrypt_rounds(key, halves(block), 32),
            decreases key_scheduler@.len(),
        {
            match key_scheduler.next_back() {
                Some(rk) => {
                    Self::round(&mut left, &mut right, rk);
                    assert(key_scheduler@ =~= schedule(key).subrange(
                        0,
                        key_scheduler@.len() as int,
                    ));
                },
                None => break,
            }
        }
        self.state.left = left;
        self.state.right = right;
        ((left as u16) << 8u16) | (right as u16)
    }

    /// One Feistel round. `left` is the low half of the block, `right` the
    /// high half; they are swapped at the end.
    pub fn round(left: &mut u8, right: &mut u8, key: u8)
        ensures
            (*final(left), *final(right)) == round_spec(*old(left), *old(right), key),
    {
        let sum = right.wrapping_add(key);
        *left = *left ^ rotate3(s_box(sum));
        std::mem::swap(left, right);
    }
}

} // verus!
