use triforge::tri::crypto::hash_data;
use triforge::tri::crypto::id_of_digest;
use triforge::tri::crypto::verify_hash;
use triforge::tri::crypto::EncryptionKey;

fn stream_block(password: &str, salt: &[u8], block: u64) -> [u8; 32] {
    let mut hasher = blake3::Hasher::new();
    hasher.update(b"triforge.encryption.v1");
    hasher.update(salt);
    hasher.update(password.as_bytes());
    let key = *hasher.finalize().as_bytes();
    let mut nonce_hasher = blake3::Hasher::new();
    nonce_hasher.update(b"triforge.nonce.v1");
    nonce_hasher.update(&key);
    let nonce_hash = nonce_hasher.finalize();
    let mut stream = blake3::Hasher::new();
    stream.update(&key);
    stream.update(&nonce_hash.as_bytes()[..12]);
    stream.update(&block.to_le_bytes());
    *stream.finalize().as_bytes()
}

#[test]
fn the_id_of_nothing() {
    assert_eq!(hash_data(b""), "af1349b9f5f9a1a6a0404dea36dcc9499bcb25c9adc112b7cc9a93cae41f3262");
}

#[test]
fn an_id_is_the_digest_in_hexadecimal() {
    let id = hash_data(b"hello world");
    assert_eq!(id.len(), 64);
    assert_eq!(id, blake3::hash(b"hello world").to_hex().to_string());
    assert_ne!(id, hash_data(b"hello world!"));
    assert_eq!(id, hash_data(b"hello world"));
    assert_eq!(id_of_digest(&[0x01, 0xab]), "01ab");
}

#[test]
fn the_private_verify_hash_accepts_the_id_and_nothing_else() {
    let id = hash_data(b"data");
    assert!(verify_hash(b"data", &id));
    assert!(!verify_hash(b"datb", &id));
    assert!(!verify_hash(b"data", &id.to_uppercase()));
    assert!(!verify_hash(b"data", ""));
}

#[test]
fn decrypting_undoes_encrypting() {
    let key = EncryptionKey::from_password("correct horse", &[7u8; 32]);
    for len in [0usize, 1, 31, 32, 33, 63, 64, 65, 100, 1000] {
        let data: Vec<u8> = (0..len).map(|i| (i * 7 % 256) as u8).collect();
        let sealed = key.encrypt(&data);
        assert_eq!(sealed.len(), data.len());
        assert_eq!(key.decrypt(&sealed), data);
        assert_eq!(key.encrypt(&sealed), data);
        if len >= 8 {
            assert_ne!(sealed, data);
        }
    }
}

#[test]
fn the_key_stream_is_hashed_block_by_block() {
    let salt = [9u8; 32];
    let key = EncryptionKey::from_password("pw", &salt);
    let zeros = vec![0u8; 70];
    let stream = key.encrypt(&zeros);
    assert_eq!(&stream[..32], &stream_block("pw", &salt, 0)[..]);
    assert_eq!(&stream[32..64], &stream_block("pw", &salt, 1)[..]);
    assert_eq!(&stream[64..70], &stream_block("pw", &salt, 2)[..6]);
    let data: Vec<u8> = (0..70u8).collect();
    let sealed = key.encrypt(&data);
    for i in 0..70 {
        assert_eq!(sealed[i], data[i] ^ stream[i]);
    }
}

#[test]
fn the_same_password_and_salt_give_the_same_key() {
    let a = EncryptionKey::from_password("pw", b"salt");
    let b = EncryptionKey::from_password("pw", b"salt");
    assert_eq!(a.encrypt(&[0u8; 40]), b.encrypt(&[0u8; 40]));
    assert_eq!(a.derive_subkey(b"index"), b.derive_subkey(b"index"));
}

#[test]
fn another_salt_gives_another_key() {
    let a = EncryptionKey::from_password("pw", &[1u8; 32]);
    let b = EncryptionKey::from_password("pw", &[2u8; 32]);
    assert_ne!(a.encrypt(&[0u8; 40]), b.encrypt(&[0u8; 40]));
    assert_ne!(a.derive_subkey(b""), b.derive_subkey(b""));
    let sealed = a.encrypt(b"secret message, long enough to matter");
    assert_ne!(b.decrypt(&sealed), b"secret message, long enough to matter".to_vec());
}

#[test]
fn another_password_gives_another_key() {
    let a = EncryptionKey::from_password("pw", &[1u8; 32]);
    let b = EncryptionKey::from_password("pW", &[1u8; 32]);
    assert_ne!(a.encrypt(&[0u8; 40]), b.encrypt(&[0u8; 40]));
}

#[test]
fn salt_and_password_are_told_apart_by_the_tag_only() {
    // The key is the digest of tag, salt and password in this order.
    let key = EncryptionKey::from_password("word", b"pass");
    let mut hasher = blake3::Hasher::new();
    hasher.update(b"triforge.encryption.v1password");
    let expected = *hasher.finalize().as_bytes();
    let mut sub = blake3::Hasher::new();
    sub.update(b"triforge.subkey.v1");
    sub.update(&expected);
    sub.update(b"ctx");
    assert_eq!(key.derive_subkey(b"ctx"), *sub.finalize().as_bytes());
}

#[test]
fn a_salt_is_the_digest_of_clock_and_process() {
    let salt = EncryptionKey::generate_salt(1_700_000_000_123_456_789, 4242);
    let mut hasher = blake3::Hasher::new();
    hasher.update(b"triforge.salt.v1");
    hasher.update(&1_700_000_000_123_456_789u128.to_le_bytes());
    hasher.update(&4242u32.to_le_bytes());
    assert_eq!(salt, *hasher.finalize().as_bytes());
    assert_ne!(salt, EncryptionKey::generate_salt(1_700_000_000_123_456_790, 4242));
    assert_ne!(salt, EncryptionKey::generate_salt(1_700_000_000_123_456_789, 4243));
}

#[test]
fn data_and_stream_are_combined_by_exclusive_or() {
    assert_eq!(
        triforge::tri::crypto::combine(&[0x00, 0xff, 0x0f, 0xaa], &[0x5a, 0x5a, 0xff, 0xaa, 0x01]),
        vec![0x5a, 0xa5, 0xf0, 0x00]
    );
    assert_eq!(triforge::tri::crypto::combine(&[], &[1, 2, 3]), Vec::<u8>::new());
    let mut digest = [0u8; 32];
    for i in 0..32 {
        digest[i] = i as u8 + 1;
    }
    assert_eq!(triforge::tri::crypto::nonce_of(&digest), [1, 2, 3, 4, 5, 6, 7, 8, 9, 10, 11, 12]);
    let key = EncryptionKey::from_password("pw", b"salt");
    let stream = key.key_stream(70);
    assert_eq!(stream.len(), 70);
    assert_eq!(key.encrypt(&[0u8; 70]), stream);
    assert_eq!(key.key_stream(0), Vec::<u8>::new());
    assert_eq!(key.key_stream(33), stream[..33].to_vec());
}
