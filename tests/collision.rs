use gost_collision::gost_collision::GostAttack;
use gost_collision::input::{collect_block, parse_state, validate_state, StateError};
use rand::Rng;
use std::sync::Arc;

#[test]
fn operator_application_methods() {
    let a = Arc::new(GostAttack::get_operator_values());
    let mut k;
    let mut rand_gen = rand::thread_rng();

    for _ in 0..1280 {
        k = rand_gen.gen();
        assert_eq!(
            GostAttack::_apply_operator(k),
            GostAttack::apply_operator(&a, k)
        );
    }
}

#[test]
fn operator_table_values() {
    let b = GostAttack::get_operator_values();
    assert_eq!(&b[..4], &[4096, 8192, 4113, 8226]);
    assert_eq!(GostAttack::apply_operator(&b, 0xdeadbeef12345678), 49193);
    assert_eq!(GostAttack::_apply_operator(0xdeadbeef12345678), 49193);
    assert_eq!(GostAttack::apply_operator(&b, 0), 0);
}

#[test]
fn operator_is_linear() {
    let k1 = 0x0123456789abcdef;
    let k2 = 0xfedcba9876543210;
    let l = GostAttack::_apply_operator(k1 ^ k2);
    assert_eq!(l, 4095);
    assert_eq!(l, GostAttack::_apply_operator(k1) ^ GostAttack::_apply_operator(k2));
}

#[test]
fn parameter_d_values() {
    assert_eq!(GostAttack::calculate_d(0, 5), 5);
    assert_eq!(GostAttack::calculate_d(0xaaaaaaaaaaaa3939, 0x1234), 0x280d);
}

#[test]
fn attack_rejects_bad_states() {
    let mut h = vec![0u8; 32];
    assert!(GostAttack::with_c(&h, 7).is_ok());
    assert!(GostAttack::new(&h).is_ok());
    h[1] = 1;
    assert!(matches!(GostAttack::with_c(&h, 7), Err(StateError::NotSymmetric)));
    h[5] = 1;
    assert!(GostAttack::with_c(&h, 7).is_ok());
    h[20] = 4;
    assert!(matches!(GostAttack::new(&h), Err(StateError::SymbolOutOfRange)));
    assert!(matches!(GostAttack::new(&h[..31]), Err(StateError::WrongLength)));
}

#[test]
fn attack_without_attempts_gives_nothing() {
    let h = vec![0u8; 32];
    let mut attack = match GostAttack::with_c(&h, 0) {
        Ok(a) => a,
        Err(_) => panic!("all-zero state is valid"),
    };
    assert!(attack.generate_collision(0).is_none());
}

#[test]
fn validate_state_checks_in_order() {
    assert_eq!(validate_state(&[0u8; 32]), Ok(()));
    assert_eq!(validate_state(&[0u8; 33]), Err(StateError::WrongLength));
    assert_eq!(validate_state(&[]), Err(StateError::WrongLength));
    let mut h = [3u8; 32];
    h[3] = 2;
    assert_eq!(validate_state(&h), Err(StateError::NotSymmetric));
    h[7] = 2;
    assert_eq!(validate_state(&h), Ok(()));
    h[31] = 9;
    assert_eq!(validate_state(&h), Err(StateError::SymbolOutOfRange));
}

#[test]
fn collect_block_parses_numbers() {
    assert_eq!(collect_block("1 2 3"), Ok(vec![1, 2, 3]));
    assert_eq!(collect_block("+3 007 255"), Ok(vec![3, 7, 255]));
    assert_eq!(collect_block("1  2"), Err(StateError::NotANumber));
    assert_eq!(collect_block(""), Err(StateError::NotANumber));
    assert_eq!(collect_block("256"), Err(StateError::NotANumber));
    assert_eq!(collect_block("1 x"), Err(StateError::NotANumber));
    assert_eq!(collect_block("+"), Err(StateError::NotANumber));
    assert_eq!(collect_block("-1"), Err(StateError::NotANumber));
    assert_eq!(collect_block("1 "), Err(StateError::NotANumber));
}

#[test]
fn parse_state_checks() {
    let zeros = vec!["0"; 32].join(" ");
    assert_eq!(parse_state(&zeros), Ok(vec![0u8; 32]));
    let sym = "1 2 3 0 1 2 3 0 2 2 2 2 2 2 2 2 2 2 2 2 2 2 2 2 2 2 2 2 2 2 2 2";
    assert_eq!(parse_state(sym).map(|v| v.len()), Ok(32));
    let short = vec!["0"; 31].join(" ");
    assert_eq!(parse_state(&short), Err(StateError::WrongLength));
    let asym = "1 2 3 0 1 2 3 1 2 2 2 2 2 2 2 2 2 2 2 2 2 2 2 2 2 2 2 2 2 2 2 2";
    assert_eq!(parse_state(asym), Err(StateError::NotSymmetric));
    let big = "1 2 3 0 1 2 3 0 2 2 2 2 2 2 2 2 2 2 2 2 2 2 2 2 2 2 2 2 2 2 2 4";
    assert_eq!(parse_state(big), Err(StateError::SymbolOutOfRange));
    let word = "1 2 3 0 1 2 3 0 2 2 2 2 2 2 2 2 2 2 2 2 2 2 2 2 2 2 2 2 2 2 2 a";
    assert_eq!(parse_state(word), Err(StateError::NotANumber));
}
