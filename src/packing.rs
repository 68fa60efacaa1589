//! Packing of two-bit symbols into integers: symbol `i` occupies bits
//! `2i..2i+2`.

use vstd::prelude::*;

verus! {

/// Symbol `i` of a packed value.
pub open spec fn sym(x: u64, i: int) -> u64 {
    (x >> ((2 * i) as u64)) & 3
}

/// Every entry is a symbol, that is, below 4.
pub open spec fn all_symbols(v: Seq<u8>) -> bool {
    forall|i: int| 0 <= i < v.len() ==> #[trigger] v[i] < 4
}

/// The integer whose symbol `i` is `v[i]`.
pub open spec fn pack_spec(v: Seq<u8>) -> u64
    decreases v.len(),
{
    if v.len() == 0 {
        0
    } else {
        pack_spec(v.drop_last()) | ((v.last() as u64) << ((2 * (v.len() - 1)) as u64))
    }
}

/// The first `n` symbols of `y`.
pub open spec fn unpack_spec(y: u64, n: nat) -> Seq<u8> {
    Seq::new(n, |i: int| sym(y, i) as u8)
}

proof fn lemma_sym_append(a: u64, b: u64, m: u64, j: u64)
    by (bit_vector)
    requires
        m < 32,
        j < 32,
        b < 4,
        a >> ((2 * m) as u64) == 0,
    ensures
        ((a | (b << ((2 * m) as u64))) >> ((2 * j) as u64)) & 3 == (if j == m {
            b
        } else if j < m {
            (a >> ((2 * j) as u64)) & 3
        } else {
            0
        }),
        (a | (b << ((2 * m) as u64))) >> ((2 * (m + 1)) as u64) == 0,
{
}

/// Symbol `j` of a packed vector is its entry `j`, or 0 past its end.
pub proof fn lemma_pack_syms(v: Seq<u8>)
    requires
        v.len() <= 32,
        all_symbols(v),
    ensures
        pack_spec(v) >> ((2 * v.len()) as u64) == 0,
        forall|j: int| 0 <= j < 32 ==> #[trigger] sym(pack_spec(v), j) == (if j < v.len() {
            v[j] as u64
        } else {
            0
        }),
    decreases v.len(),
{
    if v.len() == 0 {
        assert forall|j: int| 0 <= j < 32 implies #[trigger] sym(0, j) == 0 by {
            let jj = j as u64;
            assert((0u64 >> ((2 * jj) as u64)) & 3 == 0) by (bit_vector);
        }
        assert(0u64 >> 0u64 == 0) by (bit_vector);
    } else {
        let w = v.drop_last();
        lemma_pack_syms(w);
        let a = pack_spec(w);
        let m = (v.len() - 1) as u64;
        let b = v.last() as u64;
        assert(b < 4);
        assert(pack_spec(v) == a | (b << ((2 * m) as u64)));
        assert forall|j: int| 0 <= j < 32 implies #[trigger] sym(pack_spec(v), j) == (if j
            < v.len() {
            v[j] as u64
        } else {
            0
        }) by {
            let jj = j as u64;
            lemma_sym_append(a, b, m, jj);
            assert(sym(pack_spec(v), j) == ((a | (b << ((2 * m) as u64))) >> ((2 * jj) as u64)) & 3);
            if j < m {
                assert(w[j] == v[j]);
                assert(sym(a, j) == (a >> ((2 * jj) as u64)) & 3);
            }
        }
        lemma_sym_append(a, b, m, 0);
    }
}

/// Unpacking a packed vector of symbols gives the vector back.
pub proof fn lemma_unpack_pack(v: Seq<u8>)
    requires
        v.len() <= 32,
        all_symbols(v),
    ensures
        unpack_spec(pack_spec(v), v.len()) == v,
{
    lemma_pack_syms(v);
    assert(unpack_spec(pack_spec(v), v.len()) =~= v);
}

/// The low `n` symbols of `y`, the others cleared.
pub open spec fn low_symbols(y: u64, n: u64) -> u64 {
    if n >= 32 {
        y
    } else {
        y & (((1u64 << ((2 * n) as u64)) - 1) as u64)
    }
}

proof fn lemma_low_symbols_step(y: u64, m: u64)
    by (bit_vector)
    requires
        m < 32,
    ensures
        low_symbols(y, 0) == 0,
        low_symbols(y, m) | (((y >> ((2 * m) as u64)) & 3) << ((2 * m) as u64)) == low_symbols(
            y,
            (m + 1) as u64,
        ),
        (y >> ((2 * m) as u64)) & 3 < 4,
{
}

proof fn lemma_pack_unpack_prefix(y: u64, n: nat)
    requires
        n <= 32,
    ensures
        pack_spec(unpack_spec(y, n)) == low_symbols(y, n as u64),
    decreases n,
{
    lemma_low_symbols_step(y, 0);
    if n > 0 {
        let m = (n - 1) as nat;
        lemma_pack_unpack_prefix(y, m);
        assert(unpack_spec(y, n).drop_last() =~= unpack_spec(y, m));
        lemma_low_symbols_step(y, m as u64);
        assert(unpack_spec(y, n).last() as u64 == sym(y, m as int));
    }
}

/// Packing the 32 symbols of a state gives the state back.
pub proof fn lemma_pack_unpack(y: u64)
    ensures
        pack_spec(unpack_spec(y, 32)) == y,
{
    lemma_pack_unpack_prefix(y, 32);
}

/// Packs a vector of at most 32 symbols, symbol `i` into bits `2i..2i+2`.
pub fn pack(x: &[u8]) -> (r: u64)
    requires
        x@.len() <= 32,
        all_symbols(x@),
    ensures
        r == pack_spec(x@),
{
    let mut tmp: u64 = 0;
    let mut offset: u64 = 0;
    let mut i: usize = 0;
    while i < x.len()
        invariant
            i <= x@.len(),
            x@.len() <= 32,
            all_symbols(x@),
            offset == 2 * i,
            tmp == pack_spec(x@.take(i as int)),
        decreases x@.len() - i,
    {
        assert(x@.take(i + 1).drop_last() =~= x@.take(i as int));
        tmp = tmp | ((x[i] as u64) << offset);
        offset = offset + 2;
        i = i + 1;
    }
    assert(x@.take(i as int) =~= x@);
    tmp
}

/// Writes the first `x.len()` symbols of `y` into `x`.
pub fn unpack(x: &mut [u8], y: u64)
    requires
        old(x)@.len() <= 32,
    ensures
        final(x)@ == unpack_spec(y, old(x)@.len()),
{
    let n = x.len();
    let mut i: usize = 0;
    let mut offset: u64 = 0;
    while i < n
        invariant
            n == x@.len(),
            n <= 32,
            i <= n,
            offset == 2 * i,
            forall|j: int| 0 <= j < i ==> x@[j] == sym(y, j) as u8,
        decreases n - i,
    {
        x[i] = ((y >> offset) & 3) as u8;
        offset = offset + 2;
        i = i + 1;
    }
    assert(x@ =~= unpack_spec(y, n as nat));
}

/// Two states with the same 32 symbols are equal.
pub proof fn lemma_sym_ext(a: u64, b: u64)
    requires
        forall|t: int| 0 <= t < 32 ==> #[trigger] sym(a, t) == sym(b, t),
    ensures
        a == b,
{
    assert(unpack_spec(a, 32) =~= unpack_spec(b, 32));
    lemma_pack_unpack(a);
    lemma_pack_unpack(b);
}

proof fn lemma_sym_bits(a: u64, b: u64, t: u64)
    by (bit_vector)
    requires
        t < 32,
    ensures
        ((a ^ b) >> ((2 * t) as u64)) & 3 == ((a >> ((2 * t) as u64)) & 3) ^ ((b >> ((2 * t)
            as u64)) & 3),
        (a >> ((2 * t) as u64)) & 3 < 4,
{
}

/// A symbol of an exclusive or is the exclusive or of the symbols; every
/// symbol is below 4.
pub proof fn lemma_sym_xor(a: u64, b: u64, t: int)
    requires
        0 <= t < 32,
    ensures
        sym(a ^ b, t) == sym(a, t) ^ sym(b, t),
        sym(a, t) < 4,
{
    lemma_sym_bits(a, b, t as u64);
}

proof fn lemma_sym_or_bits(x: u64, b: u64, m: u64, t: u64)
    by (bit_vector)
    requires
        m < 32,
        t < 32,
        b < 4,
    ensures
        ((x | (b << ((2 * m) as u64))) >> ((2 * t) as u64)) & 3 == (if t == m {
            ((x >> ((2 * t) as u64)) & 3) | b
        } else {
            (x >> ((2 * t) as u64)) & 3
        }),
        (0u64 >> ((2 * t) as u64)) & 3 == 0,
        0u64 | b == b,
{
}

/// Setting bits of symbol `m` leaves the other symbols as they were.
pub proof fn lemma_sym_or(x: u64, b: u64, m: u64, t: u64)
    requires
        m < 32,
        t < 32,
        b < 4,
    ensures
        sym(x | (b << ((2 * m) as u64)), t as int) == (if t == m {
            sym(x, t as int) | b
        } else {
            sym(x, t as int)
        }),
        sym(0, t as int) == 0,
        0u64 | b == b,
{
    lemma_sym_or_bits(x, b, m, t);
}

} // verus!
