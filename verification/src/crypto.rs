//! The cryptographic primitives the vault format is built on, each
//! behind a trusted wrapper around an outside crate.  The wrappers name
//! their results with uninterpreted spec functions; everything the rest
//! of the crate proves rests on the contracts stated here.

use std::io::Read;
use std::io::Write;

use vstd::prelude::*;

verus! {

/// The SHA-256 digest of a byte sequence.
pub uninterp spec fn sha256_of(data: Seq<u8>) -> Seq<u8>;

/// The HMAC-SHA-256 tag of a message under a key.
pub uninterp spec fn hmac_sha256_of(key: Seq<u8>, data: Seq<u8>) -> Seq<u8>;

/// The AES-256 encryption of a single 16-byte block.
pub uninterp spec fn aes_enc_block(key: Seq<u8>, block: Seq<u8>) -> Seq<u8>;

/// The AES-256 decryption of a single 16-byte block.
pub uninterp spec fn aes_dec_block(key: Seq<u8>, block: Seq<u8>) -> Seq<u8>;

/// The first `len` bytes of the ChaCha20 keystream for a key and nonce.
pub uninterp spec fn chacha_stream_of(key: Seq<u8>, nonce: Seq<u8>, len: nat) -> Seq<u8>;

/// The 32-byte Argon2id digest for the given secret, salt and cost
/// parameters.
pub uninterp spec fn argon2_of(secret: Seq<u8>, salt: Seq<u8>, mem_kib: u32, iters: u32, par: u32) -> Seq<u8>;

/// The gzip compression of a byte sequence at the default level.
pub uninterp spec fn gzip_of(data: Seq<u8>) -> Seq<u8>;

/// The gzip decompression of a byte sequence; `None` when the bytes are
/// not a well-formed gzip stream.
pub uninterp spec fn gunzip_of(data: Seq<u8>) -> Option<Seq<u8>>;

/// Relies on sha2's `Sha256`: a 32-byte digest determined by the input
/// bytes alone.
#[verifier::external_body]
pub fn sha256(data: &[u8]) -> (r: Vec<u8>)
    ensures
        r@ == sha256_of(data@),
        r@.len() == 32,
{
    <sha2::Sha256 as sha2::Digest>::digest(data).to_vec()
}

/// Relies on hmac's `Hmac<Sha256>`: a 32-byte tag determined by key and
/// message alone; keys of any length are accepted.
#[verifier::external_body]
pub fn hmac_sha256(key: &[u8], data: &[u8]) -> (r: Vec<u8>)
    ensures
        r@ == hmac_sha256_of(key@, data@),
        r@.len() == 32,
{
    let mut mac = <hmac::Hmac<sha2::Sha256> as hmac::KeyInit>::new_from_slice(key).expect(
        "HMAC accepts keys of any length",
    );
    hmac::Mac::update(&mut mac, data);
    hmac::Mac::finalize(mac).into_bytes().to_vec()
}

/// Relies on aes's `Aes256::encrypt_block`; decrypting the result with
/// the same key gives the block back, as AES decryption inverts
/// encryption.
#[verifier::external_body]
pub fn aes256_encrypt_block(key: &[u8], block: &[u8]) -> (r: Vec<u8>)
    requires
        key@.len() == 32,
        block@.len() == 16,
    ensures
        r@ == aes_enc_block(key@, block@),
        aes_dec_block(key@, r@) == block@,
        r@.len() == 16,
{
    let cipher = <aes::Aes256 as aes::cipher::KeyInit>::new_from_slice(key).expect(
        "key length is 32",
    );
    let mut b = aes::Block::try_from(block).expect("block length is 16");
    aes::cipher::BlockCipherEncrypt::encrypt_block(&cipher, &mut b);
    b.to_vec()
}

/// Relies on aes's `Aes256::decrypt_block`; encrypting the result with
/// the same key gives the block back, as AES encryption inverts
/// decryption.
#[verifier::external_body]
pub fn aes256_decrypt_block(key: &[u8], block: &[u8]) -> (r: Vec<u8>)
    requires
        key@.len() == 32,
        block@.len() == 16,
    ensures
        r@ == aes_dec_block(key@, block@),
        aes_enc_block(key@, r@) == block@,
        r@.len() == 16,
{
    let cipher = <aes::Aes256 as aes::cipher::KeyInit>::new_from_slice(key).expect(
        "key length is 32",
    );
    let mut b = aes::Block::try_from(block).expect("block length is 16");
    aes::cipher::BlockCipherDecrypt::decrypt_block(&cipher, &mut b);
    b.to_vec()
}

/// Relies on chacha20's `ChaCha20`: the keystream is determined by key
/// and nonce alone.  The length bound keeps the request far below the
/// cipher's keystream limit, past which it would panic.
#[verifier::external_body]
pub fn chacha20_keystream(key: &[u8], nonce: &[u8], len: usize) -> (r: Vec<u8>)
    requires
        key@.len() == 32,
        nonce@.len() == 12,
        len <= 0xffff_ffff,
    ensures
        r@ == chacha_stream_of(key@, nonce@, len as nat),
        r@.len() == len,
{
    let mut cipher = <chacha20::ChaCha20 as chacha20::cipher::KeyIvInit>::new_from_slices(
        key,
        nonce,
    ).expect("key length is 32 and nonce length is 12");
    let mut buf = vec![0u8; len];
    chacha20::cipher::StreamCipher::apply_keystream(&mut cipher, &mut buf);
    buf
}

/// Relies on argon2's `Argon2::hash_password_into` with the Argon2id
/// algorithm: a 32-byte digest determined by secret, salt and the cost
/// parameters alone.  The parameter bounds are the crate's own; with
/// them only an allocation failure is left, reported as `None`.
#[verifier::external_body]
pub fn argon2_derive(secret: &[u8], salt: &[u8], mem_kib: u32, iters: u32, par: u32) -> (r:
    Option<Vec<u8>>)
    requires
        8 <= mem_kib,
        1 <= iters,
        1 <= par <= 0xffffff,
        mem_kib >= 8 * par,
        8 <= salt@.len() <= 64,
        secret@.len() <= 0xffff_ffff,
    ensures
        r matches Some(v) ==> v@ == argon2_of(secret@, salt@, mem_kib, iters, par) && v@.len()
            == 32,
{
    let params = match argon2::Params::new(mem_kib, iters, par, Some(32)) {
        Ok(p) => p,
        Err(_) => return None,
    };
    let a = argon2::Argon2::new(argon2::Algorithm::Argon2id, argon2::Version::V0x13, params);
    let mut out = [0u8; 32];
    match a.hash_password_into(secret, salt, &mut out) {
        Ok(()) => Some(out.to_vec()),
        Err(_) => None,
    }
}

/// Relies on flate2's `GzEncoder` over a `Vec` sink, which emits a
/// reproducible stream (zero timestamp, fixed platform byte), so the
/// result is determined by the input alone; decompressing it gives the
/// input back, as gzip is lossless.  With an in-memory sink the write
/// path cannot fail: the vector accepts every byte, and the compressor
/// reports no error for its own default parameters, so the expects
/// never fire.
#[verifier::external_body]
pub fn gzip_compress(data: &[u8]) -> (r: Vec<u8>)
    ensures
        r@ == gzip_of(data@),
        gunzip_of(r@) == Some(data@),
{
    let mut enc = flate2::write::GzEncoder::new(Vec::new(), flate2::Compression::default());
    enc.write_all(data).expect("writing to a vector cannot fail");
    enc.finish().expect("finishing into a vector cannot fail")
}

/// Relies on flate2's `GzDecoder`: the decompressed bytes are determined
/// by the input alone, and a malformed stream fails.
#[verifier::external_body]
pub fn gzip_decompress(data: &[u8]) -> (r: Option<Vec<u8>>)
    ensures
        match r {
            Some(v) => gunzip_of(data@) == Some(v@),
            None => gunzip_of(data@) is None,
        },
{
    let mut dec = flate2::read::GzDecoder::new(data);
    let mut out = Vec::new();
    match dec.read_to_end(&mut out) {
        Ok(_) => Some(out),
        Err(_) => None,
    }
}

/// Relies on rand's `random`: an unpredictable value, about which
/// nothing is promised.
#[verifier::external_body]
pub fn random_u128() -> u128 {
    rand::random()
}

} // verus!
