use magicutil::codec::aes_128_ecb_decrypt;
use magicutil::codec::aes_128_ecb_encrypt;
use magicutil::codec::decrypt_hashmap;
use magicutil::properties::PropertiesMut;
use magicutil::codec::pkcs5_padding;
use magicutil::codec::pkcs5_unpadding;
use magicutil::errors::PropErrorKind;

#[test]
fn test_if_decryption_works() {
    let key = "rNu7RWwJGnBN7GgI1TlyVvysAG6ELBeb";
    let encrypted_str = "6deMja63wuUxVeDncdUBog==";

    let decrypted = aes_128_ecb_decrypt(key, encrypted_str);
    assert_eq!(decrypted.is_ok(), true);
    let decrypted_value = decrypted.unwrap();
    assert_eq!(decrypted_value, "testing");
}

#[test]
fn test_if_encryption_works() {
    let key = "rNu7RWwJGnBN7GgI1TlyVvysAG6ELBeb";
    let plain_str = "testing";

    let encrypted = aes_128_ecb_encrypt(key, plain_str);
    assert_eq!(encrypted.is_ok(), true);
    let encrypted_value = encrypted.unwrap();
    assert_eq!(encrypted_value, "6deMja63wuUxVeDncdUBog==");
}

#[test]
fn cipher_round_trip_short_value() {
    let key = "0123456789abcdefXYZ";
    let value = "hello world";
    let encrypted = aes_128_ecb_encrypt(key, value).unwrap();
    let decrypted = aes_128_ecb_decrypt(key, &encrypted).unwrap();
    assert_eq!(decrypted, value);
}

#[test]
fn cipher_round_trip_empty_value() {
    let key = "0123456789abcdef";
    let encrypted = aes_128_ecb_encrypt(key, "").unwrap();
    let decrypted = aes_128_ecb_decrypt(key, &encrypted).unwrap();
    assert_eq!(decrypted, "");
}

#[test]
fn cipher_round_trip_multi_block_value() {
    let key = "averylongkeythatgoesbeyond16bytes";
    let value = "a value that is much longer than one cipher block, with = signs and unicode: åßç";
    let encrypted = aes_128_ecb_encrypt(key, value).unwrap();
    let decrypted = aes_128_ecb_decrypt(key, &encrypted).unwrap();
    assert_eq!(decrypted, value);
}

#[test]
fn cipher_round_trip_exact_block_value() {
    // A plaintext of exactly one block still gets a whole padding block.
    let key = "0123456789abcdef";
    let value = "0123456789abcdef";
    let encrypted = aes_128_ecb_encrypt(key, value).unwrap();
    // 16 bytes of data + 16 of padding encrypt to 32 bytes: 44 base64 chars.
    assert_eq!(encrypted.len(), 44);
    let decrypted = aes_128_ecb_decrypt(key, &encrypted).unwrap();
    assert_eq!(decrypted, value);
}

#[test]
fn ecb_mode_repeats_equal_blocks() {
    // Two equal 16-byte plaintext blocks give two equal ciphertext blocks.
    let key = "rNu7RWwJGnBN7GgI1TlyVvysAG6ELBeb";
    let value = "0123456789abcdef0123456789abcdef";
    let encrypted = aes_128_ecb_encrypt(key, value).unwrap();
    let raw = base64::decode(&encrypted).unwrap();
    assert_eq!(raw.len(), 48);
    assert_eq!(raw[0..16], raw[16..32]);
}

#[test]
fn encrypt_rejects_short_key() {
    let result = aes_128_ecb_encrypt("shortkey", "value");
    let err = result.unwrap_err();
    assert_eq!(err.kind, PropErrorKind::CipherKeyTooShort);
    assert_eq!(err.message(), "Expected an encryption key of at least 16 bytes");
}

#[test]
fn encrypt_accepts_exactly_16_byte_key() {
    assert!(aes_128_ecb_encrypt("0123456789abcdef", "v").is_ok());
}

#[test]
fn decrypt_rejects_short_key() {
    let result = aes_128_ecb_decrypt("15bytes15bytes!", "6deMja63wuUxVeDncdUBog==");
    let err = result.unwrap_err();
    assert_eq!(err.kind, PropErrorKind::CipherKeyTooShort);
}

#[test]
fn decrypt_rejects_invalid_base64() {
    let result = aes_128_ecb_decrypt("0123456789abcdef", "this is not base64!!!");
    let err = result.unwrap_err();
    assert_eq!(err.kind, PropErrorKind::CipherDecodeError);
}

#[test]
fn decrypt_rejects_partial_block() {
    // "YWJj" is valid base64 for 3 bytes: not a whole cipher block.
    let result = aes_128_ecb_decrypt("0123456789abcdef", "YWJj");
    let err = result.unwrap_err();
    assert_eq!(err.kind, PropErrorKind::CipherDecodeError);
}

#[test]
fn decrypt_rejects_empty_input() {
    let result = aes_128_ecb_decrypt("0123456789abcdef", "");
    let err = result.unwrap_err();
    assert_eq!(err.kind, PropErrorKind::CipherDecodeError);
}

#[test]
fn padding_fills_to_block_size() {
    let padded = pkcs5_padding(b"abc", 16);
    assert_eq!(padded.len(), 16);
    assert_eq!(&padded[0..3], b"abc");
    for i in 3..16 {
        assert_eq!(padded[i], 13);
    }
}

#[test]
fn padding_adds_whole_block_on_boundary() {
    let padded = pkcs5_padding(b"0123456789abcdef", 16);
    assert_eq!(padded.len(), 32);
    for i in 16..32 {
        assert_eq!(padded[i], 16);
    }
}

#[test]
fn unpadding_reads_final_byte() {
    let data: Vec<u8> = vec![104, 105, 3, 3, 3];
    let clear = pkcs5_unpadding(&data);
    assert_eq!(clear, b"hi");
}

#[test]
fn unpadding_inverts_padding() {
    let padded = pkcs5_padding(b"some longer input data", 16);
    let clear = pkcs5_unpadding(&padded);
    assert_eq!(clear, b"some longer input data");
}

#[test]
fn batch_decrypt_replaces_only_decryptable_values() {
    let key = "rNu7RWwJGnBN7GgI1TlyVvysAG6ELBeb";
    let content = "secret = 6deMja63wuUxVeDncdUBog==\nplain = hello\n";
    let mut snapshot = PropertiesMut::new("config.properties").get_hashmap_content(content);
    decrypt_hashmap(&mut snapshot, key);
    assert_eq!(snapshot.get("secret"), Some(String::from("testing")));
    assert_eq!(snapshot.get("plain"), Some(String::from("hello")));
    assert_eq!(snapshot.len(), 2);
}

#[test]
fn batch_decrypt_with_short_key_changes_nothing() {
    let content = "secret = 6deMja63wuUxVeDncdUBog==\n";
    let mut snapshot = PropertiesMut::new("config.properties").get_hashmap_content(content);
    decrypt_hashmap(&mut snapshot, "short");
    assert_eq!(snapshot.get("secret"), Some(String::from("6deMja63wuUxVeDncdUBog==")));
}
