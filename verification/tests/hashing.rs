use dupfinder::bytes::{read_word, rotate_right};
use dupfinder::hash::{fold_tail, hash_8, hash_n, mix, Hasher, PHI};
use dupfinder::seeded::{fold_tagged, Builder, Hasher as SeededHasher};

fn digest(input: &[u8]) -> u64 {
    let mut h = Hasher::default();
    h.write(input);
    h.finish()
}

fn pattern(n: usize) -> Vec<u8> {
    (0..n).map(|i| (i % 251) as u8).collect()
}

#[test]
fn empty_input_keeps_the_start_state() {
    let mut h = Hasher::default();
    h.write(&[]);
    assert_eq!(h.finish(), mix(PHI));
    assert_eq!(digest(b""), 0xb70fb2cc55af013f);
}

#[test]
fn digests_of_known_inputs() {
    assert_eq!(digest(b"abc"), 0x2be43e5f6aaad8f4);
    assert_eq!(digest(b"01234567"), 0x213dd5c0c02f65e1);
    assert_eq!(digest(b"hello, world!"), 0x3cd387824cb61a86);
    assert_eq!(digest(&pattern(300)), 0x65379a8a7466ae69);
}

#[test]
fn absorb_state_values() {
    assert_eq!(hash_n(PHI, b"abc"), 0x41aa37572809ceec);
    assert_eq!(hash_n(PHI, &pattern(300)), 0x1e6853673bd5c9bb);
    assert_eq!(hash_n(12345, &[]), 12345);
}

#[test]
fn integer_writes() {
    let mut h = Hasher::default();
    h.write_u8(0xab);
    assert_eq!(h.finish(), 0x3c59f9023c79c443);
    let mut h = Hasher::default();
    h.write_u16(0xabcd);
    assert_eq!(h.finish(), 0x128ef999983736fb);
    let mut h = Hasher::default();
    h.write_u32(0xdeadbeef);
    assert_eq!(h.finish(), 0x991c04be11ab50e6);
    let mut h = Hasher::default();
    h.write_u64(0x0123456789abcdef);
    assert_eq!(h.finish(), 0x5779a0612c0f5512);
    let mut h = Hasher::default();
    h.write_u128(0x0123456789abcdef_fedcba9876543210);
    assert_eq!(h.finish(), 0x7495194cc0b9acb7);
}

#[test]
fn usize_write_is_tagged_with_its_width() {
    let mut h = Hasher::default();
    h.write_usize(12345);
    let mut g = Hasher::default();
    g.write_u64(12345);
    if usize::BITS == 64 {
        assert_eq!(h.finish(), g.finish());
        assert_eq!(h.finish(), 0xe9e60ca0a9fe5197);
    }
}

#[test]
fn finalizer_of_zero_is_zero() {
    assert_eq!(mix(0), 0);
    assert_eq!(mix(PHI), 0xb70fb2cc55af013f);
}

#[test]
fn tail_packing_is_little_endian() {
    let bytes: Vec<u8> = (0x11..0x18).collect();
    for n in 0..8 {
        let expected = bytes[..n].iter().rev().fold(0u64, |acc, &b| acc << 8 | b as u64);
        assert_eq!(fold_tail(&bytes[..n], 0), expected);
    }
    assert_eq!(fold_tail(&[1, 2, 3, 4, 5, 6, 7, 8, 9, 10], 3), 0x000a_0908_0706_0504);
}

#[test]
fn words_and_rotations() {
    let bytes = [1u8, 2, 3, 4, 5, 6, 7, 8, 9];
    assert_eq!(read_word(&bytes, 0), 0x0807060504030201);
    assert_eq!(read_word(&bytes, 1), 0x0908070605040302);
    assert_eq!(rotate_right(1, 1), 1 << 63);
    assert_eq!(rotate_right(0xbeef00000000dead, 16), 0xdeadbeef00000000);
    assert_eq!(rotate_right(0xdeadbeef, 128), 0xdeadbeef);
    assert_eq!(hash_8(0, 0, 0), 0);
    assert_eq!(hash_8(1, 0, 0), PHI);
}

#[test]
fn different_short_inputs_give_different_states() {
    let a = hash_n(PHI, b"abcd");
    let b = hash_n(PHI, b"abce");
    assert_ne!(a, b);
    let c = hash_n(7, b"12345678");
    let d = hash_n(7, b"12345679");
    assert_ne!(c, d);
}

#[test]
fn seeded_digests() {
    let seeded = |seed: u64, input: &[u8]| {
        let mut h = Builder::from_seed(seed).build_hasher();
        h.write(input);
        h.finish()
    };
    let unseeded = |input: &[u8]| {
        let mut h = SeededHasher::default();
        h.write(input);
        h.finish()
    };
    assert_eq!(unseeded(b""), 0x78a9666a39c1a1b5);
    assert_eq!(unseeded(b"abc"), 0xae1d80ff8b3a7579);
    assert_eq!(unseeded(b"01234567"), 0x9819a522d4f1452b);
    assert_eq!(unseeded(b"hello, world!"), 0x25396a86b2f33989);
    assert_eq!(unseeded(&pattern(300)), 0x91aa8297d0930bdb);
    assert_eq!(seeded(42, b""), 0x2cb4a7ee46cb76cc);
    assert_eq!(seeded(42, b"abc"), 0x772ef315b73a719a);
    assert_eq!(seeded(42, &pattern(300)), 0x71576c4347b9fc4e);
}

#[test]
fn seeded_tail_word_records_its_length() {
    assert_eq!(fold_tagged(b"abc", 0), 0x03_63_62_61);
    assert_eq!(fold_tagged(b"a", 0), 0x01_61);
    assert_eq!(fold_tagged(b"xa", 1), 0x01_61);
    assert_ne!(fold_tagged(&[0], 0), fold_tagged(&[0, 0], 0));
}
