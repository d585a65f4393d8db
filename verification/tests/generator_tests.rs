use ratio_spoof_core::generator::{repeats_fit_exec, GeneratorError, KeyGenerator, PeerIdGenerator, ValueRounder};

#[test]
fn test_key_generation() {
    let key = KeyGenerator::generate();
    assert_eq!(key.len(), 8);
    assert!(key.chars().all(|c| c.is_ascii_hexdigit() && c.is_uppercase()));
}

#[test]
fn test_peer_id_generation() {
    let peer_id = PeerIdGenerator::generate("-qB4030-[A-Za-z0-9]{12}").unwrap();
    assert!(peer_id.starts_with("-qB4030-"));
}

#[test]
fn test_value_rounding() {
    let rounder = ValueRounder::new(524288); // 512 KiB pieces

    let (d, u, l) = rounder.round_values(1000000, 1000000, 1000000);

    // Downloaded should be exact
    assert_eq!(d, 1000000);

    // Uploaded is rounded down to whole 64 KiB steps
    assert_eq!(u, 983040); // (1000000 / 65536) * 65536

    // Left should be rounded to piece size
    assert_eq!(l, 524288); // (1000000 / 524288) * 524288
}

#[test]
fn key_text_of_given_bytes() {
    assert_eq!(KeyGenerator::format([0x00, 0x12, 0xAB, 0xFF]), "AABCABFF");
    assert_eq!(KeyGenerator::format([0x6C, 0x9E, 0x7D, 0x38]), "ACDEBDDC");
}

#[test]
fn invalid_regex_is_refused() {
    assert_eq!(PeerIdGenerator::generate("(").err(), Some(GeneratorError::InvalidRegex));
    assert_eq!(PeerIdGenerator::generate("^ab").err(), Some(GeneratorError::InvalidRegex));
}

#[test]
fn upload_rounding_steps() {
    let rounder = ValueRounder::new(10);
    assert_eq!(rounder.round_values(7, 65535, 99), (7, 0, 90));
    assert_eq!(rounder.round_values(7, 65536, 100), (7, 65536, 100));
    // Rounding again changes nothing.
    let (_, u, l) = rounder.round_values(0, 1000000, 1000000);
    assert_eq!(rounder.round_values(0, u, l), (0, u, l));
}

#[test]
fn adds_pieces() {
    let rounder = ValueRounder::new(100);
    assert_eq!(rounder.add_pieces(5, 3), 305);
    for _ in 0..50 {
        let v = rounder.add_random_pieces(1000, (1, 10));
        assert!(v >= 1100 && v <= 2000 && (v - 1000) % 100 == 0);
    }
    assert_eq!(rounder.add_random_pieces(1000, (4, 4)), 1400);
}

#[test]
fn repetitions_that_reach_too_far_are_refused() {
    assert!(repeats_fit_exec("-qB4030-[A-Za-z0-9_~\\(\\)!\\.\\*-]{12}", 100));
    assert!(repeats_fit_exec("-qB4030-[A-Za-z0-9]{12}", 100));
    assert!(!repeats_fit_exec("a{4294967295,}", 100));
    assert!(!repeats_fit_exec("([ab]{65536}){65536}", 100));
    assert!(!repeats_fit_exec("([ab]{0,70000}){0,70000}", 100));
    assert_eq!(PeerIdGenerator::generate("a{4294967295,}").err(), Some(GeneratorError::InvalidRegex));
    assert_eq!(PeerIdGenerator::generate("([ab]{65536}){65536}").err(), Some(GeneratorError::InvalidRegex));
    let id = PeerIdGenerator::generate("x[0-9]{3}").unwrap();
    assert_eq!(id.len(), 4);
    assert!(id.starts_with('x'));
}
