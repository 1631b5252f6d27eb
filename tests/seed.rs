use netwalk::rng::{GameRng, GameSeed, InvalidSeedError};

fn counting_bytes() -> Vec<u8> {
    (0u8..32).map(|i| i.wrapping_mul(37).wrapping_add(5)).collect()
}

#[test]
fn seed_text_is_lowercase_hex() {
    let bytes: Vec<u8> = (0u8..32).collect();
    let seed = GameSeed::from_slice(&bytes);
    assert_eq!(
        seed.to_string(),
        "000102030405060708090a0b0c0d0e0f101112131415161718191a1b1c1d1e1f"
    );
    let high = GameSeed::from_slice(&[0xab; 32]);
    assert_eq!(high.to_string(), "ab".repeat(32));
}

#[test]
fn seed_round_trip() {
    let bytes = counting_bytes();
    let seed = GameSeed::from_slice(&bytes);
    let text = seed.to_string();
    assert_eq!(text.len(), 64);
    let back = GameSeed::from_str(&text).unwrap();
    assert_eq!(back, seed);
    assert_eq!(back.to_string(), text);
}

#[test]
fn seed_from_string_and_default() {
    let zero = GameSeed::default();
    assert_eq!(zero.to_string(), "0".repeat(64));
    assert_eq!(GameSeed::from_string("0".repeat(64)), Ok(zero));
    let s = "ff".repeat(32);
    assert_eq!(GameSeed::from_string(s.clone()).unwrap().to_string(), s);
}

#[test]
fn seed_rejects_bad_text() {
    assert_eq!(GameSeed::from_str(""), Err(InvalidSeedError));
    assert_eq!(GameSeed::from_str(&"0".repeat(63)), Err(InvalidSeedError));
    assert_eq!(GameSeed::from_str(&"0".repeat(62)), Err(InvalidSeedError));
    assert_eq!(GameSeed::from_str(&"0".repeat(66)), Err(InvalidSeedError));
    let mut bad = "0".repeat(63);
    bad.push('g');
    assert_eq!(GameSeed::from_str(&bad), Err(InvalidSeedError));
    assert_eq!(GameSeed::from_str(&"AB".repeat(32)), Err(InvalidSeedError));
}

#[test]
fn from_slice_takes_the_first_32_bytes() {
    let mut bytes = counting_bytes();
    bytes.extend_from_slice(&[1, 2, 3]);
    assert_eq!(GameSeed::from_slice(&bytes), GameSeed::from_slice(&counting_bytes()));
}

#[test]
fn fresh_seeds_are_seed_text() {
    let s = GameSeed::new();
    let text = s.to_string();
    assert_eq!(text.len(), 64);
    assert_eq!(GameSeed::from_str(&text), Ok(s));
}

#[test]
fn rng_keeps_its_seed_and_draws_in_range() {
    let seed = GameSeed::from_slice(&counting_bytes());
    let mut rng = GameRng::from(seed);
    for _ in 0..100 {
        let a = rng.gen_range_i32(-3, 4);
        assert!((-3..4).contains(&a));
        let b = rng.gen_range_usize(2, 5);
        assert!((2..5).contains(&b));
    }
    assert_eq!(*rng.seed(), seed);
}

#[test]
fn same_seed_same_stream() {
    let seed = GameSeed::from_slice(&counting_bytes());
    let mut a = GameRng::from(seed);
    let mut b = GameRng::from(seed);
    for _ in 0..50 {
        assert_eq!(a.gen_range_usize(0, 1000), b.gen_range_usize(0, 1000));
    }
}
