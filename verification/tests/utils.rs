use crypto::sha2::Sha256;
use hashsign::utils::{chain, eq};
use rand::Rng;

fn sha(data: &[u8]) -> Vec<u8> {
    <Sha256 as hashsign::utils::Hash>::hash(data)
}

fn random_data(len: usize) -> Vec<u8> {
    rand::OsRng::new().unwrap().gen_iter().take(len).collect::<Vec<u8>>()
}

#[test]
fn test_hash_macro() {
    let data = random_data(64);

    assert_eq!(data, chain::<Sha256>(&data, 0));
    assert_eq!(sha(&data), chain::<Sha256>(&data, 1));
    assert_eq!(
        sha(&sha(&sha(&data))),
        chain::<Sha256>(&data, 3)
    );
}

#[test]
fn test_eq() {
    assert!(eq(b"Hello world.", b"Hello world."));
    assert!(!eq(b"Hello world.", b"Hello-world!"));
}

#[test]
fn eq_tells_lengths_and_last_bytes_apart() {
    assert!(eq(b"", b""));
    assert!(!eq(b"", b"a"));
    assert!(!eq(b"abc", b"abcd"));
    assert!(!eq(b"abcd", b"abce"));
    assert!(!eq(b"xbcd", b"abcd"));
    assert!(!eq(&[0x0f], &[0xf0]));
    assert!(eq(&[0xff, 0x00], &[0xff, 0x00]));
}

#[test]
fn sha256_of_abc() {
    let expected: [u8; 32] = [
        0xba, 0x78, 0x16, 0xbf, 0x8f, 0x01, 0xcf, 0xea, 0x41, 0x41, 0x40, 0xde, 0x5d, 0xae, 0x22,
        0x23, 0xb0, 0x03, 0x61, 0xa3, 0x96, 0x17, 0x7a, 0x9c, 0xb4, 0x10, 0xff, 0x61, 0xf2, 0x00,
        0x15, 0xad,
    ];
    assert_eq!(sha(b"abc"), expected.to_vec());
    assert_eq!(sha(b"").len(), 32);
}

#[test]
fn sha256_is_256_bits_in_32_bytes() {
    assert_eq!(<Sha256 as hashsign::utils::Hash>::bits(), 256);
    assert_eq!(<Sha256 as hashsign::utils::Hash>::bytes(), 32);
    assert_eq!(<Sha256 as hashsign::utils::Hash>::bits(), 8 * <Sha256 as hashsign::utils::Hash>::bytes());
}

#[test]
fn chain_steps_add_up() {
    let seed = b"seed".to_vec();
    assert_eq!(chain::<Sha256>(&seed, 0), seed);
    for (a, b) in [(0usize, 5usize), (3, 0), (2, 7), (1, 1), (10, 246)] {
        assert_eq!(
            chain::<Sha256>(&seed, a + b),
            chain::<Sha256>(&chain::<Sha256>(&seed, a), b)
        );
    }
    assert_eq!(
        chain::<Sha256>(&seed, 2),
        sha(&sha(&seed))
    );
}
