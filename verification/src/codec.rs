//! The block cipher codec: AES-128 in ECB mode with PKCS-style padding and
//! a base64 wire form, for encrypted property values.
//!
//! The mode is a deliberate compatibility constraint with the host
//! application's legacy encryption scheme: every 16-byte block is
//! enciphered independently, with no chaining and no per-message nonce, so
//! identical plaintext blocks under the same key give identical ciphertext
//! blocks. This is a known weak construction inherited from the system
//! being replaced, not a recommended one.

use vstd::prelude::*;

use aes::Aes128;
use aes::BlockDecrypt;
use aes::cipher::BlockEncrypt;
use aes::cipher::NewBlockCipher;
use aes::cipher::generic_array::GenericArray;

use crate::errors::PropError;
use crate::errors::PropErrorKind;
use crate::properties::PropertyMap;
use vstd::utf8::valid_utf8;
use vstd::utf8::decode_utf8;
use vstd::utf8::encode_utf8;
use vstd::utf8::encode_utf8_valid_utf8;
use vstd::utf8::encode_utf8_decode_utf8;

verus! {

/// The cipher's block size in bytes, and the number of key bytes used.
pub const BLOCK_SIZE: usize = 16;

// ---------------------------------------------------------------------------
// PKCS-style padding
// ---------------------------------------------------------------------------

/// The number of padding bytes appended to data of length `n`: enough to
/// reach the next multiple of `bs`, and a whole block when `n` is already a
/// multiple. Always in `1..=bs`.
pub open spec fn pad_count(n: nat, bs: nat) -> nat {
    (bs - (n % bs)) as nat
}

/// `data` with PKCS-style padding appended: `p` bytes each of value `p`,
/// where `p` is `pad_count` of the data's length.
pub open spec fn pad_spec(data: Seq<u8>, bs: nat) -> Seq<u8> {
    data + Seq::new(pad_count(data.len(), bs), |i: int| pad_count(data.len(), bs) as u8)
}

/// `data` with its PKCS-style padding removed: the final byte's value is
/// read as the pad count and that many bytes are truncated from the end.
/// The padding bytes themselves are not validated.
pub open spec fn unpad_spec(data: Seq<u8>) -> Seq<u8> {
    data.take(data.len() - (data.last() as int))
}

/// Appends PKCS-style padding: `p` bytes each of value `p`, where `p` is
/// the distance to the next multiple of `block_size` (a whole block when
/// the length is already a multiple).
pub fn pkcs5_padding(data: &[u8], block_size: usize) -> (r: Vec<u8>)
    requires
        1 <= block_size <= 255,
        data@.len() + block_size <= usize::MAX,
    ensures
        r@ == pad_spec(data@, block_size as nat),
        r@.len() == data@.len() + pad_count(data@.len(), block_size as nat),
        r@.len() % (block_size as nat) == 0,
{
    let n = data.len();
    let padding = block_size - (n % block_size);
    let mut r: Vec<u8> = Vec::new();
    let mut i: usize = 0;
    while i < n
        invariant
            n == data@.len(),
            0 <= i <= n,
            r@ == data@.take(i as int),
        decreases n - i,
    {
        r.push(data[i]);
        proof {
            assert(r@ =~= data@.take(i as int + 1));
        }
        i = i + 1;
    }
    proof {
        assert(data@.take(n as int) =~= data@);
    }
    let mut j: usize = 0;
    while j < padding
        invariant
            n == data@.len(),
            padding == pad_count(n as nat, block_size as nat),
            padding <= block_size <= 255,
            0 <= j <= padding,
            r@ == data@ + Seq::new(j as nat, |k: int| padding as u8),
        decreases padding - j,
    {
        r.push(padding as u8);
        proof {
            assert(r@ =~= data@ + Seq::new(j as nat + 1, |k: int| padding as u8));
        }
        j = j + 1;
    }
    proof {
        assert(r@ =~= pad_spec(data@, block_size as nat));
        lemma_padded_len_divides(data@.len(), block_size as nat);
    }
    r
}

/// Padded data's length is a multiple of the block size.
proof fn lemma_padded_len_divides(n: nat, bs: nat)
    requires
        bs >= 1,
    ensures
        (n + pad_count(n, bs)) % bs == 0,
{
    assert((n + ((bs - (n % bs)) as nat)) % bs == 0) by (nonlinear_arith)
        requires
            bs >= 1,
    ;
}

/// Removes PKCS-style padding: reads the final byte's value as the pad
/// count and truncates that many bytes from the end, without validating
/// that the padding bytes all carry that value.
pub fn pkcs5_unpadding(data: &[u8]) -> (r: Vec<u8>)
    requires
        data@.len() > 0,
        data@.last() as int <= data@.len(),
    ensures
        r@ == unpad_spec(data@),
{
    let n = data.len();
    let padding = data[n - 1] as usize;
    let keep = n - padding;
    let mut r: Vec<u8> = Vec::new();
    let mut i: usize = 0;
    while i < keep
        invariant
            n == data@.len(),
            keep <= n,
            0 <= i <= keep,
            r@ == data@.take(i as int),
        decreases keep - i,
    {
        r.push(data[i]);
        proof {
            assert(r@ =~= data@.take(i as int + 1));
        }
        i = i + 1;
    }
    r
}

/// Removing the padding that `pad_spec` appended gives back the data.
pub proof fn lemma_pad_round_trip(data: Seq<u8>, bs: nat)
    requires
        1 <= bs <= 255,
    ensures
        unpad_spec(pad_spec(data, bs)) == data,
{
    let p = pad_count(data.len(), bs);
    let padded = pad_spec(data, bs);
    assert(0 < p <= bs);
    assert(padded.last() == p as u8);
    assert(unpad_spec(padded) =~= data);
}

// ---------------------------------------------------------------------------
// Trusted views of the outside cipher and codec calls
// ---------------------------------------------------------------------------

/// What AES-128 block encryption returns for a 16-byte key and block.
pub uninterp spec fn aes128_enc(key: Seq<u8>, block: Seq<u8>) -> Seq<u8>;

/// What AES-128 block decryption returns for a 16-byte key and block.
pub uninterp spec fn aes128_dec(key: Seq<u8>, block: Seq<u8>) -> Seq<u8>;

/// Relies on `aes::Aes128` (`BlockEncrypt::encrypt_block`): one 16-byte
/// block enciphered under a 16-byte key. The result is a function of key
/// and block alone, is one block long, and `decrypt_block` inverts it (the
/// crate documents the pair as a block cipher and its inverse).
#[verifier::external_body]
fn aes128_encrypt_block(key: &[u8], block: &[u8]) -> (r: Vec<u8>)
    requires
        key@.len() == 16,
        block@.len() == 16,
    ensures
        r@.len() == 16,
        r@ == aes128_enc(key@, block@),
        aes128_dec(key@, r@) == block@,
{
    let cipher = Aes128::new(GenericArray::from_slice(key));
    let mut b = GenericArray::clone_from_slice(block);
    cipher.encrypt_block(&mut b);
    b.to_vec()
}

/// Relies on `aes::Aes128` (`BlockDecrypt::decrypt_block`): one 16-byte
/// block deciphered under a 16-byte key. The result is a function of key
/// and block alone and is one block long.
#[verifier::external_body]
fn aes128_decrypt_block(key: &[u8], block: &[u8]) -> (r: Vec<u8>)
    requires
        key@.len() == 16,
        block@.len() == 16,
    ensures
        r@.len() == 16,
        r@ == aes128_dec(key@, block@),
{
    let cipher = Aes128::new(GenericArray::from_slice(key));
    let mut b = GenericArray::clone_from_slice(block);
    cipher.decrypt_block(&mut b);
    b.to_vec()
}

/// What base64 encoding (standard alphabet, padded) returns for the bytes.
pub uninterp spec fn b64_encode_of(data: Seq<u8>) -> Seq<char>;

/// What base64 decoding (standard alphabet, padded) returns for the text:
/// the decoded bytes, or `None` where the text is not valid base64.
pub uninterp spec fn b64_decode_of(text: Seq<char>) -> Option<Seq<u8>>;

/// Relies on `base64::encode` (standard alphabet, padded): the encoding is
/// a function of the input bytes alone, and `base64::decode` decodes it
/// back to exactly those bytes.
#[verifier::external_body]
fn b64_encode(data: &[u8]) -> (r: String)
    ensures
        r@ == b64_encode_of(data@),
        b64_decode_of(r@) == Some(data@),
{
    base64::encode(data)
}

/// Relies on `base64::decode` (standard alphabet, padded): the result is a
/// function of the input text alone; invalid base64 is reported as an
/// error, returned here as the decoder's message.
#[verifier::external_body]
fn b64_decode(text: &str) -> (r: Result<Vec<u8>, String>)
    ensures
        match r {
            Ok(v) => b64_decode_of(text@) == Some(v@),
            Err(_) => b64_decode_of(text@) is None,
        },
{
    match base64::decode(text) {
        Ok(v) => Ok(v),
        Err(e) => Err(format!("{}", e)),
    }
}

// ---------------------------------------------------------------------------
// The ECB mode over the block primitives
// ---------------------------------------------------------------------------

/// The data enciphered 16-byte block by 16-byte block, each independently
/// (ECB mode); a trailing fragment shorter than a block is dropped, though
/// the codec only ever passes multiples of the block size.
pub open spec fn ecb_encrypt_spec(key: Seq<u8>, data: Seq<u8>) -> Seq<u8>
    decreases data.len(),
{
    if data.len() < 16 {
        seq![]
    } else {
        aes128_enc(key, data.take(16)) + ecb_encrypt_spec(key, data.skip(16))
    }
}

/// The data deciphered 16-byte block by 16-byte block, each independently.
pub open spec fn ecb_decrypt_spec(key: Seq<u8>, data: Seq<u8>) -> Seq<u8>
    decreases data.len(),
{
    if data.len() < 16 {
        seq![]
    } else {
        aes128_dec(key, data.take(16)) + ecb_decrypt_spec(key, data.skip(16))
    }
}

/// Enciphering one more block at the end extends the ECB stream by that
/// block's ciphertext.
pub proof fn lemma_ecb_encrypt_append(key: Seq<u8>, data: Seq<u8>, block: Seq<u8>)
    requires
        data.len() % 16 == 0,
        block.len() == 16,
    ensures
        ecb_encrypt_spec(key, data + block) == ecb_encrypt_spec(key, data) + aes128_enc(
            key,
            block,
        ),
    decreases data.len(),
{
    if data.len() == 0 {
        assert(data + block =~= block);
        assert(block.take(16) =~= block);
        assert(block.skip(16).len() == 0);
        assert(ecb_encrypt_spec(key, block.skip(16)) == Seq::<u8>::empty());
        assert(ecb_encrypt_spec(key, block) =~= aes128_enc(key, block));
        assert(ecb_encrypt_spec(key, data) + aes128_enc(key, block) =~= aes128_enc(key, block));
    } else {
        let whole = data + block;
        assert(whole.take(16) =~= data.take(16));
        assert(whole.skip(16) =~= data.skip(16) + block);
        lemma_ecb_encrypt_append(key, data.skip(16), block);
        assert(ecb_encrypt_spec(key, whole) =~= ecb_encrypt_spec(key, data) + aes128_enc(
            key,
            block,
        ));
    }
}

/// Deciphering one more block at the end extends the ECB stream by that
/// block's plaintext.
pub proof fn lemma_ecb_decrypt_append(key: Seq<u8>, data: Seq<u8>, block: Seq<u8>)
    requires
        data.len() % 16 == 0,
        block.len() == 16,
    ensures
        ecb_decrypt_spec(key, data + block) == ecb_decrypt_spec(key, data) + aes128_dec(
            key,
            block,
        ),
    decreases data.len(),
{
    if data.len() == 0 {
        assert(data + block =~= block);
        assert(block.take(16) =~= block);
        assert(block.skip(16).len() == 0);
        assert(ecb_decrypt_spec(key, block.skip(16)) == Seq::<u8>::empty());
        assert(ecb_decrypt_spec(key, block) =~= aes128_dec(key, block));
        assert(ecb_decrypt_spec(key, data) + aes128_dec(key, block) =~= aes128_dec(key, block));
    } else {
        let whole = data + block;
        assert(whole.take(16) =~= data.take(16));
        assert(whole.skip(16) =~= data.skip(16) + block);
        lemma_ecb_decrypt_append(key, data.skip(16), block);
        assert(ecb_decrypt_spec(key, whole) =~= ecb_decrypt_spec(key, data) + aes128_dec(
            key,
            block,
        ));
    }
}

/// The `i`-th 16-byte block of `data`.
pub open spec fn block_at(data: Seq<u8>, i: int) -> Seq<u8> {
    data.subrange(16 * i, 16 * i + 16)
}

/// The ciphertext blocks of `data` under `key`: one enciphered block per
/// plaintext block.
pub open spec fn ecb_blocks(key: Seq<u8>, data: Seq<u8>) -> Seq<Seq<u8>> {
    Seq::new(data.len() / 16, |i: int| aes128_enc(key, block_at(data, i)))
}

/// The ECB stream is exactly its per-block ciphertexts, concatenated.
pub proof fn lemma_ecb_encrypt_is_blocks(key: Seq<u8>, data: Seq<u8>)
    requires
        data.len() % 16 == 0,
    ensures
        ecb_encrypt_spec(key, data) == ecb_blocks(key, data).flatten(),
    decreases data.len(),
{
    if data.len() == 0 {
        assert(ecb_blocks(key, data) =~= Seq::<Seq<u8>>::empty());
        assert(ecb_blocks(key, data).flatten() =~= Seq::<u8>::empty());
    } else {
        let rest = data.skip(16);
        lemma_ecb_encrypt_is_blocks(key, rest);
        assert forall|j: int| 0 <= j < rest.len() / 16 implies ecb_blocks(key, rest)[j]
            == ecb_blocks(key, data).drop_first()[j] by {
            assert(block_at(rest, j) =~= block_at(data, j + 1));
        }
        assert(ecb_blocks(key, rest) =~= ecb_blocks(key, data).drop_first());
        assert(ecb_blocks(key, data)[0] == aes128_enc(key, data.take(16))) by {
            assert(block_at(data, 0) =~= data.take(16));
        }
        assert(ecb_blocks(key, data).flatten() == ecb_blocks(key, data)[0] + ecb_blocks(
            key,
            data,
        ).drop_first().flatten());
    }
}

/// The ECB determinism property: two equal plaintext blocks of the same
/// message give two equal ciphertext blocks, since each block is
/// enciphered independently under the same key.
pub proof fn lemma_ecb_determinism(key: Seq<u8>, data: Seq<u8>, i: int, j: int)
    requires
        data.len() % 16 == 0,
        0 <= i,
        16 * i + 16 <= data.len(),
        0 <= j,
        16 * j + 16 <= data.len(),
        block_at(data, i) == block_at(data, j),
    ensures
        ecb_blocks(key, data)[i] == ecb_blocks(key, data)[j],
{
    assert(16 * i < 16 * (data.len() / 16)) by (nonlinear_arith)
        requires
            data.len() % 16 == 0,
            16 * i + 16 <= data.len(),
    ;
    assert(i < data.len() / 16);
    assert(j < data.len() / 16) by {
        assert(16 * j < 16 * (data.len() / 16)) by (nonlinear_arith)
            requires
                data.len() % 16 == 0,
                16 * j + 16 <= data.len(),
        ;
    }
}

// ---------------------------------------------------------------------------
// Key material and the codec's contract-level model
// ---------------------------------------------------------------------------

/// Whether the key string carries at least 16 bytes of key material.
pub open spec fn key_ok(key: Seq<char>) -> bool {
    encode_utf8(key).len() >= 16
}

/// The raw cipher key: the first 16 bytes of the key string's UTF-8 form.
pub open spec fn cipher_key(key: Seq<char>) -> Seq<u8> {
    encode_utf8(key).take(16)
}

/// What decryption recovers from `encrypted` under `key` (with at least 16
/// key bytes): base64-decode, decipher block by block, remove the padding,
/// validate UTF-8. `None` where any step rejects the input: text that is
/// not base64, a byte count that is zero or not a whole number of blocks, a
/// pad count larger than the buffer, or recovered bytes that are not valid
/// UTF-8.
pub open spec fn decrypt_spec(key: Seq<char>, encrypted: Seq<char>) -> Option<Seq<char>> {
    match b64_decode_of(encrypted) {
        None => None,
        Some(ct) => if ct.len() == 0 || ct.len() % 16 != 0 {
            None
        } else {
            let pt = ecb_decrypt_spec(cipher_key(key), ct);
            if pt.len() == 0 || pt.last() as int > pt.len() {
                None
            } else {
                let clear = unpad_spec(pt);
                if valid_utf8(clear) {
                    Some(decode_utf8(clear))
                } else {
                    None
                }
            }
        },
    }
}

/// Relies on `String::from_utf8` (std): succeeds exactly on valid UTF-8 and
/// yields the decoded characters; failure is returned as the converter's
/// message.
#[verifier::external_body]
pub(crate) fn bytes_to_string(bytes: Vec<u8>) -> (r: Result<String, String>)
    ensures
        match r {
            Ok(s) => valid_utf8(bytes@) && s@ == decode_utf8(bytes@),
            Err(_) => !valid_utf8(bytes@),
        },
{
    match String::from_utf8(bytes) {
        Ok(s) => Ok(s),
        Err(e) => Err(format!("{}", e)),
    }
}

// ---------------------------------------------------------------------------
// The codec itself
// ---------------------------------------------------------------------------

/// Two multiples of the block size that differ, differ by a whole block.
proof fn lemma_block_step(pos: int, len: int)
    requires
        pos % 16 == 0,
        len % 16 == 0,
        pos < len,
    ensures
        pos + 16 <= len,
{
    assert(pos + 16 <= len) by (nonlinear_arith)
        requires
            pos % 16 == 0,
            len % 16 == 0,
            pos < len,
    ;
}

/// Encrypts `value` under the first 16 bytes of `key`: PKCS-style padding,
/// AES-128-ECB block by block, base64 text as the wire form. Fails exactly
/// when the key carries fewer than 16 bytes. A successful result decrypts
/// back to `value` under the same key ([`decrypt_spec`] of it is the
/// original plaintext): the cipher round trip is part of this contract.
pub fn aes_128_ecb_encrypt(key: &str, value: &str) -> (r: Result<String, PropError>)
    requires
        encode_utf8(value@).len() + 16 <= usize::MAX,
    ensures
        !key_ok(key@) ==> r is Err && r->Err_0.kind == PropErrorKind::CipherKeyTooShort,
        key_ok(key@) ==> r is Ok && r->Ok_0@ == b64_encode_of(
            ecb_encrypt_spec(cipher_key(key@), pad_spec(encode_utf8(value@), 16)),
        ) && decrypt_spec(key@, r->Ok_0@) == Some(value@),
{
    let key_bytes = key.as_bytes();
    if key_bytes.len() < BLOCK_SIZE {
        return Err(
            PropError::new(
                PropErrorKind::CipherKeyTooShort,
                "Expected an encryption key of at least 16 bytes".to_owned(),
            ),
        );
    }
    let key16 = &key_bytes[0..BLOCK_SIZE];
    proof {
        assert(key16@ =~= cipher_key(key@));
    }
    let padded = pkcs5_padding(value.as_bytes(), BLOCK_SIZE);
    let ghost ck = cipher_key(key@);
    let ghost clear_bytes = encode_utf8(value@);
    let mut ct: Vec<u8> = Vec::new();
    let mut pos: usize = 0;
    proof {
        assert(padded@.skip(0) =~= padded@);
        assert(ecb_decrypt_spec(ck, ct@) =~= padded@.take(0));
    }
    let n = padded.len();
    while pos < n
        invariant
            n == padded@.len(),
            n % 16 == 0,
            pos % 16 == 0,
            0 <= pos <= n,
            key16@ == ck,
            ck.len() == 16,
            ct@.len() == pos,
            ecb_encrypt_spec(ck, padded@) == ct@ + ecb_encrypt_spec(
                ck,
                padded@.skip(pos as int),
            ),
            ecb_decrypt_spec(ck, ct@) == padded@.take(pos as int),
        decreases n - pos,
    {
        proof {
            lemma_block_step(pos as int, n as int);
        }
        let block = &padded.as_slice()[pos..pos + BLOCK_SIZE];
        let mut enc = aes128_encrypt_block(key16, block);
        let ghost rest = padded@.skip(pos as int);
        let ghost ct_before = ct@;
        proof {
            assert(rest.take(16) =~= block@);
            assert(rest.skip(16) =~= padded@.skip(pos as int + 16));
            lemma_ecb_decrypt_append(ck, ct_before, enc@);
        }
        ct.append(&mut enc);
        proof {
            assert(ecb_encrypt_spec(ck, rest) == aes128_enc(ck, rest.take(16))
                + ecb_encrypt_spec(ck, rest.skip(16)));
            assert(ecb_encrypt_spec(ck, padded@) == ct@ + ecb_encrypt_spec(
                ck,
                padded@.skip(pos as int + 16),
            )) by {
                assert(ct_before + (aes128_enc(ck, block@) + ecb_encrypt_spec(
                    ck,
                    padded@.skip(pos as int + 16),
                )) =~= ct@ + ecb_encrypt_spec(ck, padded@.skip(pos as int + 16)));
            }
            assert(ecb_decrypt_spec(ck, ct@) =~= padded@.take(pos as int + 16));
        }
        pos = pos + BLOCK_SIZE;
    }
    proof {
        assert(padded@.skip(n as int).len() == 0);
        assert(ecb_encrypt_spec(ck, padded@.skip(n as int)) == Seq::<u8>::empty());
        assert(ct@ =~= ecb_encrypt_spec(ck, padded@));
        assert(padded@.take(n as int) =~= padded@);
    }
    let encoded = b64_encode(ct.as_slice());
    proof {
        let p = pad_count(clear_bytes.len(), 16);
        assert(padded@.last() == p as u8);
        lemma_pad_round_trip(clear_bytes, 16);
        encode_utf8_valid_utf8(value@);
        encode_utf8_decode_utf8(value@);
        assert(decrypt_spec(key@, encoded@) == Some(value@));
    }
    Ok(encoded)
}

/// Decrypts base64 `encrypted` under the first 16 bytes of `key`: base64
/// decode, AES-128-ECB block by block, padding removed by the final byte's
/// count, UTF-8 validated. Fails with `CipherKeyTooShort` exactly when the
/// key carries fewer than 16 bytes, and with `CipherDecodeError` exactly on
/// the inputs [`decrypt_spec`] rejects: text that is not base64, a byte
/// count that is zero or not a whole number of blocks, a pad count larger
/// than the buffer, or recovered bytes that are not valid UTF-8.
pub fn aes_128_ecb_decrypt(key: &str, encrypted: &str) -> (r: Result<String, PropError>)
    ensures
        !key_ok(key@) ==> r is Err && r->Err_0.kind == PropErrorKind::CipherKeyTooShort,
        key_ok(key@) ==> match decrypt_spec(key@, encrypted@) {
            Some(clear) => r is Ok && r->Ok_0@ == clear,
            None => r is Err && r->Err_0.kind == PropErrorKind::CipherDecodeError,
        },
{
    let key_bytes = key.as_bytes();
    if key_bytes.len() < BLOCK_SIZE {
        return Err(
            PropError::new(
                PropErrorKind::CipherKeyTooShort,
                "Expected an encryption key of at least 16 bytes".to_owned(),
            ),
        );
    }
    let key16 = &key_bytes[0..BLOCK_SIZE];
    proof {
        assert(key16@ =~= cipher_key(key@));
    }
    let ct = match b64_decode(encrypted) {
        Ok(v) => v,
        Err(msg) => {
            let detail = "Could not base64 decode encrypted string: ".to_owned().concat(
                msg.as_str(),
            );
            return Err(PropError::new(PropErrorKind::CipherDecodeError, detail));
        },
    };
    if ct.len() == 0 || ct.len() % BLOCK_SIZE != 0 {
        return Err(
            PropError::new(
                PropErrorKind::CipherDecodeError,
                "Expected the encrypted value to be a whole number of cipher blocks".to_owned(),
            ),
        );
    }
    let ghost ck = cipher_key(key@);
    let mut pt: Vec<u8> = Vec::new();
    let mut pos: usize = 0;
    proof {
        assert(ct@.skip(0) =~= ct@);
    }
    let n = ct.len();
    while pos < n
        invariant
            n == ct@.len(),
            n % 16 == 0,
            pos % 16 == 0,
            0 <= pos <= n,
            key16@ == ck,
            ck.len() == 16,
            pt@.len() == pos,
            ecb_decrypt_spec(ck, ct@) == pt@ + ecb_decrypt_spec(ck, ct@.skip(pos as int)),
        decreases n - pos,
    {
        proof {
            lemma_block_step(pos as int, n as int);
        }
        let block = &ct.as_slice()[pos..pos + BLOCK_SIZE];
        let mut dec = aes128_decrypt_block(key16, block);
        let ghost rest = ct@.skip(pos as int);
        let ghost pt_before = pt@;
        proof {
            assert(rest.take(16) =~= block@);
            assert(rest.skip(16) =~= ct@.skip(pos as int + 16));
        }
        pt.append(&mut dec);
        proof {
            assert(ecb_decrypt_spec(ck, rest) == aes128_dec(ck, rest.take(16))
                + ecb_decrypt_spec(ck, rest.skip(16)));
            assert(ecb_decrypt_spec(ck, ct@) == pt@ + ecb_decrypt_spec(
                ck,
                ct@.skip(pos as int + 16),
            )) by {
                assert(pt_before + (aes128_dec(ck, block@) + ecb_decrypt_spec(
                    ck,
                    ct@.skip(pos as int + 16),
                )) =~= pt@ + ecb_decrypt_spec(ck, ct@.skip(pos as int + 16)));
            }
        }
        pos = pos + BLOCK_SIZE;
    }
    proof {
        assert(ct@.skip(n as int).len() == 0);
        assert(ecb_decrypt_spec(ck, ct@.skip(n as int)) == Seq::<u8>::empty());
        assert(pt@ =~= ecb_decrypt_spec(ck, ct@));
    }
    let padding = pt[pt.len() - 1] as usize;
    if padding > pt.len() {
        return Err(
            PropError::new(
                PropErrorKind::CipherDecodeError,
                "Expected the final decrypted byte to be a valid padding count".to_owned(),
            ),
        );
    }
    let clear = pkcs5_unpadding(pt.as_slice());
    match bytes_to_string(clear) {
        Ok(s) => Ok(s),
        Err(msg) => {
            let detail = "Could not parse decrypted value into a string: ".to_owned().concat(
                msg.as_str(),
            );
            Err(PropError::new(PropErrorKind::CipherDecodeError, detail))
        },
    }
}

/// What an opportunistic batch decryption leaves for one stored value: the
/// recovered plaintext where decryption succeeds, the stored value
/// unchanged where it fails — a caller cannot always tell an encrypted
/// value from a plain one, so failures are not errors here.
pub open spec fn decrypt_or_keep(key: Seq<char>, value: Seq<char>) -> Seq<char> {
    if key_ok(key) && decrypt_spec(key, value) is Some {
        decrypt_spec(key, value)->0
    } else {
        value
    }
}

/// Tries to decrypt every value in the listing with the given key. A value
/// that decrypts is replaced by its plaintext; every other value, and every
/// key, stays exactly as it was.
pub fn decrypt_hashmap(map: &mut PropertyMap, encryption_key: &str)
    requires
        old(map).wf(),
    ensures
        final(map).wf(),
        final(map)@.len() == old(map)@.len(),
        forall|i: int| 0 <= i < old(map)@.len() ==> final(map)@[i] == (
            old(map)@[i].0,
            decrypt_or_keep(encryption_key@, old(map)@[i].1),
        ),
{
    let ghost orig = map@;
    let n = map.entries.len();
    let mut i: usize = 0;
    while i < n
        invariant
            n == map.entries.len(),
            orig.len() == n,
            0 <= i <= n,
            forall|j: int| 0 <= j < i ==> map@[j] == (
                orig[j].0,
                decrypt_or_keep(encryption_key@, orig[j].1),
            ),
            forall|j: int| i <= j < n ==> map@[j] == orig[j],
        decreases n - i,
    {
        let value = map.entries[i].1.clone();
        match aes_128_ecb_decrypt(encryption_key, value.as_str()) {
            Ok(decrypted) => {
                let key = map.entries[i].0.clone();
                let ghost before = map@;
                map.entries.remove(i);
                map.entries.insert(i, (key, decrypted));
                proof {
                    assert(map@ =~= before.update(
                        i as int,
                        (orig[i as int].0, decrypt_or_keep(encryption_key@, orig[i as int].1)),
                    ));
                }
            },
            Err(_) => {},
        }
        i = i + 1;
    }
    proof {
        assert(forall|j: int| 0 <= j < n ==> final(map)@[j].0 == orig[j].0);
        assert(crate::properties::e_wf(final(map)@));
    }
}

} // verus!
