use gost_collision::magma::{s_box, Magma, MagmaKey, MagmaKeyScheduler};

const KEY: u64 = 0b0001101100011011000110110001101100011011000110110001101111100100;

#[test]
fn ecryption_decryption_test() {
    let key = 0b0001101100011011000110110001101100011011000110110001101111100100;
    let block = 0b0110110000011110;

    let mut magma = Magma::new(key);
    let ecrypted = magma.encrypt_block(block);

    let decrypted = magma.decrypt_block(ecrypted);

    assert_eq!(
        block, decrypted,
        "Initial and decrypted blocks does not match."
    );
}

#[test]
fn magma_key_schedule_test() {
    let key = MagmaKey::new(KEY);
    let expected = [
        0b11100100, 0b00011011, 0b00011011, 0b00011011, 0b00011011, 0b00011011, 0b00011011,
        0b00011011, 0b11100100, 0b00011011, 0b00011011, 0b00011011, 0b00011011, 0b00011011,
        0b00011011, 0b00011011, 0b11100100, 0b00011011, 0b00011011, 0b00011011, 0b00011011,
        0b00011011, 0b00011011, 0b00011011, 0b00011011, 0b00011011, 0b00011011, 0b00011011,
        0b00011011, 0b00011011, 0b00011011, 0b11100100,
    ];

    let mut key_schedule = MagmaKeyScheduler::new(&key);

    let mut i = 0;
    while let Some(roundkey) = key_schedule.next() {
        assert_eq!(roundkey, expected[i], "Key schedule is broken");
        i += 1;
    }
    assert_eq!(i, 32, "Key schedule is broken");
}

#[test]
fn key_schedule_rev_test() {
    let key = MagmaKey::new(KEY);
    let expected = [
        0b11100100, 0b00011011, 0b00011011, 0b00011011, 0b00011011, 0b00011011, 0b00011011,
        0b00011011, 0b00011011, 0b00011011, 0b00011011, 0b00011011, 0b00011011, 0b00011011,
        0b00011011, 0b11100100, 0b00011011, 0b00011011, 0b00011011, 0b00011011, 0b00011011,
        0b00011011, 0b00011011, 0b11100100, 0b00011011, 0b00011011, 0b00011011, 0b00011011,
        0b00011011, 0b00011011, 0b00011011, 0b11100100,
    ];

    let mut key_schedule = MagmaKeyScheduler::new(&key);

    let mut i = 0;
    while let Some(roundkey) = key_schedule.next_back() {
        assert_eq!(roundkey, expected[i], "Key schedule is broken");
        i += 1;
    }
    assert_eq!(i, 32, "Key schedule is broken");
}

#[test]
fn sbox_test() {
    let x = 0b00011011;
    let expected = 0b01110010;

    let res = s_box(x);

    assert_eq!(res, expected, "SBOX transformation does not work.");
}

#[test]
fn magma_fixture_round_trip() {
    let mut magma = Magma::new(0x1B1B1B1B1B1B1BE4);
    let encrypted = magma.encrypt_block(0x061E);
    assert_eq!(encrypted, 0x0329);
    assert_eq!(magma.decrypt_block(encrypted), 0x061E);
}

#[test]
fn magma_zero_key_block() {
    let mut magma = Magma::new(0);
    assert_eq!(magma.encrypt_block(0), 0xaa00);
    let mut other = Magma::new(0x0123456789abcdef);
    assert_eq!(other.encrypt_block(0xbeef), 0x4d5f);
    assert_eq!(other.decrypt_block(0x4d5f), 0xbeef);
}

#[test]
fn magma_single_round() {
    let mut left = 0x12u8;
    let mut right = 0x34u8;
    Magma::round(&mut left, &mut right, 0x56);
    assert_eq!((left, right), (0x34, 0x92));
}

#[test]
fn key_scheduler_mixed_ends() {
    let key = MagmaKey::new(KEY);
    let mut s = key.scheduler();
    assert_eq!(s.next(), Some(0xE4));
    assert_eq!(s.next_back(), Some(0xE4));
    assert_eq!(s.next_back(), Some(0x1B));
    let mut left = 0;
    while s.next().is_some() {
        left += 1;
    }
    assert_eq!(left, 29);
    assert_eq!(s.next_back(), None);
}
