use gost_collision::gost_hash::GostHash;
use gost_collision::packing::{pack, unpack};

const X: u64 = 0x0123456789abcdef;

#[test]
fn compress_fixture() {
    let h_symbols: Vec<u8> = [0u8, 1, 2, 3].iter().cycle().take(32).cloned().collect();
    let m_symbols: Vec<u8> = [3u8, 1, 3, 0, 2, 3, 0, 1].iter().cycle().take(32).cloned().collect();
    let h = pack(&h_symbols);
    let m = pack(&m_symbols);
    assert_eq!(h, 0xe4e4e4e4e4e4e4e4);
    assert_eq!(m, 0x4e374e374e374e37);
    let out = GostHash::compress(h, m);
    assert_eq!(out, 0x0d78f51b5acb6263);
    let mut symbols = [0u8; 32];
    unpack(&mut symbols, out);
    assert_eq!(
        symbols,
        [3, 0, 2, 1, 2, 0, 2, 1, 3, 2, 0, 3, 2, 2, 1, 1, 3, 2, 1, 0, 1, 1, 3, 3, 0, 2, 3, 1, 1, 3, 0, 0]
    );
}

#[test]
fn p_is_a_bijection() {
    let k = GostHash::p(X);
    assert_eq!(k, 0x1b001b551baa1bff);
    assert_eq!(GostHash::p_rev(k), X);
    assert_eq!(GostHash::p(GostHash::p_rev(X)), X);
}

#[test]
fn p_keeps_top_symbol() {
    assert_eq!(GostHash::p(3u64 << 62), 3u64 << 62);
    assert_eq!(GostHash::p_rev(3u64 << 62), 3u64 << 62);
    assert_eq!(GostHash::p(3u64 << 2), 3u64 << 8);
}

#[test]
fn psy_is_a_bijection() {
    assert_eq!(GostHash::psy(X), 0x30123456789abcde);
    assert_eq!(GostHash::psy_rev(GostHash::psy(X)), X);
    assert_eq!(GostHash::psy(GostHash::psy_rev(X)), X);
}

#[test]
fn psy_pow_additivity() {
    assert_eq!(GostHash::psy_pow(X, 0), X);
    assert_eq!(GostHash::psy_pow(X, 5), 0x304530123456789a);
    assert_eq!(GostHash::psy_pow(X, -7), 0x789abcdef9ef80de);
    assert_eq!(GostHash::psy_pow(X, -12), 0xcdef9ef80de79ef0);
    assert_eq!(GostHash::psy_pow(GostHash::psy_pow(X, 5), -12), GostHash::psy_pow(X, -7));
    assert_eq!(GostHash::psy_pow(GostHash::psy_pow(X, -12), 12), X);
}

#[test]
fn pack_unpack_round_trip() {
    let v: Vec<u8> = [0u8, 1, 2, 3].iter().cycle().take(32).cloned().collect();
    let packed = pack(&v);
    assert_eq!(packed, 0xe4e4e4e4e4e4e4e4);
    let mut back = vec![0u8; 32];
    unpack(&mut back, packed);
    assert_eq!(back, v);
    let short = [3u8, 2, 1];
    assert_eq!(pack(&short), 0b00_01_10_11);
    let mut three = [0u8; 3];
    unpack(&mut three, pack(&short));
    assert_eq!(three, short);
    assert_eq!(pack(&[]), 0);
}
