//! Key derivation: password and key-file material are hashed into a
//! composite key, stretched by the header's key-derivation function, and
//! split into the cipher key and the authentication chain key.
//!
//! A key file is accepted as 32 raw bytes, as 64 bytes (read as
//! hexadecimal digits when they are ones, and hashed down to 32 bytes
//! otherwise), or as an XML wrapper whose first `Data` element holds the
//! key in base64.

use vstd::prelude::*;

use vstd::string::StringSliceAdditionalSpecFns;

use crate::bytes::{bytes_eq, copy_range, push_bytes};
use crate::crypto::{
    aes256_encrypt_block, aes_enc_block, argon2_derive, argon2_of, sha256, sha256_of,
};
use crate::error::Error;
use crate::header::{Header, SpecHeader, SpecKdf, spec_header_wf, spec_kdf_wf};

verus! {

/// The legacy stretch: both halves of the key encrypted under the seed,
/// round after round.
pub open spec fn spec_aes_kdf(seed: Seq<u8>, x: Seq<u8>, n: nat) -> Seq<u8>
    decreases n,
{
    if n == 0 {
        x
    } else {
        spec_aes_kdf(
            seed,
            aes_enc_block(seed, x.take(16)) + aes_enc_block(seed, x.skip(16)),
            (n - 1) as nat,
        )
    }
}

/// Runs the legacy stretch.
pub fn aes_kdf(seed: &[u8], key: &[u8], rounds: u64) -> (r: Vec<u8>)
    requires
        seed@.len() == 32,
        key@.len() == 32,
    ensures
        r@ == spec_aes_kdf(seed@, key@, rounds as nat),
{
    let mut cur = copy_range(key, 0, 32);
    proof {
        assert(cur@ =~= key@);
    }
    let mut i: u64 = 0;
    while i < rounds
        invariant
            seed@.len() == 32,
            i <= rounds,
            cur@.len() == 32,
            spec_aes_kdf(seed@, key@, rounds as nat) == spec_aes_kdf(
                seed@,
                cur@,
                (rounds - i) as nat,
            ),
        decreases rounds - i,
    {
        let lo = copy_range(cur.as_slice(), 0, 16);
        let hi = copy_range(cur.as_slice(), 16, 32);
        let elo = aes256_encrypt_block(seed, lo.as_slice());
        let ehi = aes256_encrypt_block(seed, hi.as_slice());
        let mut next: Vec<u8> = Vec::new();
        push_bytes(&mut next, elo.as_slice());
        push_bytes(&mut next, ehi.as_slice());
        proof {
            assert(lo@ =~= cur@.take(16));
            assert(hi@ =~= cur@.skip(16));
            assert(next@ =~= aes_enc_block(seed@, cur@.take(16)) + aes_enc_block(
                seed@,
                cur@.skip(16),
            ));
        }
        cur = next;
        i = i + 1;
    }
    cur
}

/// The value of one hexadecimal digit.
pub open spec fn spec_hex_val(c: u8) -> Option<u8> {
    if 48 <= c <= 57 {
        Some((c - 48) as u8)
    } else if 97 <= c <= 102 {
        Some((c - 87) as u8)
    } else if 65 <= c <= 70 {
        Some((c - 55) as u8)
    } else {
        None
    }
}

/// Hexadecimal decoding; `None` on odd length or a stray character.
pub open spec fn spec_hex_decode(s: Seq<u8>) -> Option<Seq<u8>>
    decreases s.len(),
{
    if s.len() == 0 {
        Some(Seq::empty())
    } else if s.len() == 1 {
        None
    } else {
        match (spec_hex_val(s[0]), spec_hex_val(s[1])) {
            (Some(hi), Some(lo)) => match spec_hex_decode(s.skip(2)) {
                Some(rest) => Some(seq![(hi * 16 + lo) as u8] + rest),
                None => None,
            },
            _ => None,
        }
    }
}

fn hex_val(c: u8) -> (r: Option<u8>)
    ensures
        r == spec_hex_val(c),
{
    if 48 <= c && c <= 57 {
        Some(c - 48)
    } else if 97 <= c && c <= 102 {
        Some(c - 87)
    } else if 65 <= c && c <= 70 {
        Some(c - 55)
    } else {
        None
    }
}

/// Decodes a hexadecimal string.
pub fn hex_decode(s: &[u8]) -> (r: Option<Vec<u8>>)
    ensures
        match r {
            Some(v) => spec_hex_decode(s@) == Some(v@),
            None => spec_hex_decode(s@) is None,
        },
{
    let mut out: Vec<u8> = Vec::new();
    let mut pos: usize = 0;
    proof {
        assert(s@.skip(0) =~= s@);
        match spec_hex_decode(s@) {
            Some(rest) => {
                assert(Seq::<u8>::empty() + rest =~= rest);
            },
            None => {},
        }
    }
    while pos < s.len()
        invariant
            pos <= s@.len(),
            pos % 2 == 0,
            (match spec_hex_decode(s@.skip(pos as int)) {
                Some(rest) => spec_hex_decode(s@) == Some(out@ + rest),
                None => spec_hex_decode(s@) is None,
            }),
        decreases s@.len() - pos,
    {
        let ghost suffix = s@.skip(pos as int);
        if s.len() - pos == 1 {
            return None;
        }
        let hi = match hex_val(s[pos]) {
            Some(v) => v,
            None => {
                return None;
            },
        };
        let lo = match hex_val(s[pos + 1]) {
            Some(v) => v,
            None => {
                return None;
            },
        };
        out.push(hi * 16 + lo);
        proof {
            assert(suffix[0] == s@[pos as int] && suffix[1] == s@[pos as int + 1]);
            assert(suffix.skip(2) =~= s@.skip(pos as int + 2));
            match spec_hex_decode(s@.skip(pos as int + 2)) {
                Some(rest) => {
                    assert(out@ + rest =~= out@.drop_last() + (seq![out@.last()] + rest));
                },
                None => {},
            }
        }
        pos = pos + 2;
    }
    proof {
        assert(s@.skip(s@.len() as int) =~= Seq::<u8>::empty());
        assert(out@ + Seq::<u8>::empty() =~= out@);
    }
    Some(out)
}

/// A decoded hexadecimal string holds one byte per digit pair.
pub proof fn lemma_hex_decode_len(s: Seq<u8>)
    ensures
        spec_hex_decode(s) matches Some(k) ==> k.len() == s.len() / 2,
    decreases s.len(),
{
    if s.len() >= 2 {
        lemma_hex_decode_len(s.skip(2));
    }
}

/// The value of one base64 character of the standard alphabet.
pub open spec fn spec_b64_val(c: u8) -> Option<u8> {
    if 65 <= c <= 90 {
        Some((c - 65) as u8)
    } else if 97 <= c <= 122 {
        Some((c - 71) as u8)
    } else if 48 <= c <= 57 {
        Some((c + 4) as u8)
    } else if c == 43 {
        Some(62u8)
    } else if c == 47 {
        Some(63u8)
    } else {
        None
    }
}

/// The three bytes of one full base64 group.
pub open spec fn spec_b64_group(a: u8, b: u8, c: u8, d: u8) -> Seq<u8> {
    seq![
        ((a * 4) + (b / 16)) as u8,
        (((b % 16) * 16) + (c / 4)) as u8,
        (((c % 4) * 64) + d) as u8,
    ]
}

/// Base64 decoding of the standard alphabet with `=` padding in the
/// final group only; `None` on any other shape.
pub open spec fn spec_b64_decode(s: Seq<u8>) -> Option<Seq<u8>>
    decreases s.len(),
{
    if s.len() == 0 {
        Some(Seq::empty())
    } else if s.len() % 4 != 0 {
        None
    } else {
        match (spec_b64_val(s[0]), spec_b64_val(s[1])) {
            (Some(a), Some(b)) => {
                if s.len() == 4 && s[3] == 61 {
                    if s[2] == 61 {
                        Some(seq![((a * 4) + (b / 16)) as u8])
                    } else {
                        match spec_b64_val(s[2]) {
                            Some(c) => Some(
                                seq![
                                    ((a * 4) + (b / 16)) as u8,
                                    (((b % 16) * 16) + (c / 4)) as u8,
                                ],
                            ),
                            None => None,
                        }
                    }
                } else {
                    match (spec_b64_val(s[2]), spec_b64_val(s[3])) {
                        (Some(c), Some(d)) => match spec_b64_decode(s.skip(4)) {
                            Some(rest) => Some(spec_b64_group(a, b, c, d) + rest),
                            None => None,
                        },
                        _ => None,
                    }
                }
            },
            _ => None,
        }
    }
}

fn b64_val(c: u8) -> (r: Option<u8>)
    ensures
        r == spec_b64_val(c),
{
    if 65 <= c && c <= 90 {
        Some(c - 65)
    } else if 97 <= c && c <= 122 {
        Some(c - 71)
    } else if 48 <= c && c <= 57 {
        Some(c + 4)
    } else if c == 43 {
        Some(62)
    } else if c == 47 {
        Some(63)
    } else {
        None
    }
}

/// Decodes a base64 string.
#[verifier::rlimit(100)]
pub fn b64_decode(s: &[u8]) -> (r: Option<Vec<u8>>)
    ensures
        match r {
            Some(v) => spec_b64_decode(s@) == Some(v@),
            None => spec_b64_decode(s@) is None,
        },
{
    let mut out: Vec<u8> = Vec::new();
    let mut pos: usize = 0;
    if s.len() % 4 != 0 {
        if s.len() == 0 {
            return Some(out);
        }
        return None;
    }
    proof {
        assert(s@.skip(0) =~= s@);
        match spec_b64_decode(s@) {
            Some(rest) => {
                assert(Seq::<u8>::empty() + rest =~= rest);
            },
            None => {},
        }
    }
    while pos < s.len()
        invariant
            pos <= s@.len(),
            pos % 4 == 0,
            s@.len() % 4 == 0,
            (match spec_b64_decode(s@.skip(pos as int)) {
                Some(rest) => spec_b64_decode(s@) == Some(out@ + rest),
                None => spec_b64_decode(s@) is None,
            }),
        decreases s@.len() - pos,
    {
        let ghost suffix = s@.skip(pos as int);
        proof {
            assert(suffix.len() % 4 == 0 && suffix.len() > 0);
            assert(suffix[0] == s@[pos as int] && suffix[1] == s@[pos as int + 1] && suffix[2]
                == s@[pos as int + 2] && suffix[3] == s@[pos as int + 3]);
        }
        let a = match b64_val(s[pos]) {
            Some(v) => v,
            None => {
                return None;
            },
        };
        let b = match b64_val(s[pos + 1]) {
            Some(v) => v,
            None => {
                return None;
            },
        };
        if s.len() - pos == 4 && s[pos + 3] == 61 {
            if s[pos + 2] == 61 {
                out.push((a * 4) + (b / 16));
                proof {
                    assert(spec_b64_decode(suffix) == Some(seq![(((a * 4) + (b / 16)) as u8)]));
                    assert(out@ =~= out@.drop_last() + seq![out@.last()]);
                }
                return Some(out);
            }
            let c = match b64_val(s[pos + 2]) {
                Some(v) => v,
                None => {
                    return None;
                },
            };
            out.push((a * 4) + (b / 16));
            out.push(((b % 16) * 16) + (c / 4));
            proof {
                assert(out@ =~= out@.subrange(0, out@.len() - 2) + seq![
                    out@[out@.len() - 2],
                    out@.last(),
                ]);
            }
            return Some(out);
        }
        let c = match b64_val(s[pos + 2]) {
            Some(v) => v,
            None => {
                return None;
            },
        };
        let d = match b64_val(s[pos + 3]) {
            Some(v) => v,
            None => {
                return None;
            },
        };
        proof {
            assert(!(suffix.len() == 4 && suffix[3] == 61));
        }
        out.push((a * 4) + (b / 16));
        out.push(((b % 16) * 16) + (c / 4));
        out.push(((c % 4) * 64) + d);
        proof {
            assert(suffix.skip(4) =~= s@.skip(pos as int + 4));
            match spec_b64_decode(s@.skip(pos as int + 4)) {
                Some(rest) => {
                    assert(out@ + rest =~= out@.subrange(0, out@.len() - 3) + (spec_b64_group(
                        a,
                        b,
                        c,
                        d,
                    ) + rest));
                },
                None => {},
            }
        }
        pos = pos + 4;
    }
    proof {
        assert(s@.skip(s@.len() as int) =~= Seq::<u8>::empty());
        assert(out@ + Seq::<u8>::empty() =~= out@);
    }
    Some(out)
}

} // verus!

verus! {

/// The smallest index at or after `from` where `pat` occurs in `s`.
pub open spec fn spec_find_sub(s: Seq<u8>, pat: Seq<u8>, from: int) -> Option<int>
    decreases s.len() + 1 - from,
{
    if from < 0 || from + pat.len() > s.len() {
        None
    } else if s.subrange(from, from + pat.len() as int) == pat {
        Some(from)
    } else {
        spec_find_sub(s, pat, from + 1)
    }
}

/// Finds the first occurrence of `pat` in `s` at or after `from`.
pub fn find_sub(s: &[u8], pat: &[u8], from: usize) -> (r: Option<usize>)
    ensures
        match r {
            Some(i) => spec_find_sub(s@, pat@, from as int) == Some(i as int) && i
                + pat@.len() <= s@.len(),
            None => spec_find_sub(s@, pat@, from as int) is None,
        },
{
    let mut i = from;
    loop
        invariant
            from <= i,
            spec_find_sub(s@, pat@, from as int) == spec_find_sub(s@, pat@, i as int),
        decreases s@.len() + 1 - i,
    {
        if i > s.len() || s.len() - i < pat.len() {
            proof {
                assert(i as int + pat@.len() > s@.len());
            }
            return None;
        }
        let window = crate::bytes::copy_range(s, i, i + pat.len());
        if bytes_eq(window.as_slice(), pat) {
            return Some(i);
        }
        proof {
            if pat@.len() == 0 {
                assert(window@ =~= pat@);
            }
        }
        i = i + 1;
    }
}

/// The bytes that open and close the key element of an XML key file.
pub open spec fn spec_data_open() -> Seq<u8> {
    seq![60u8, 68u8, 97u8, 116u8, 97u8, 62u8]
}

pub open spec fn spec_data_close() -> Seq<u8> {
    seq![60u8, 47u8, 68u8, 97u8, 116u8, 97u8, 62u8]
}

/// The 32-byte key a key file stands for.  32 raw bytes are the key
/// itself; a 64-byte file is read as hexadecimal digits when its bytes
/// are ones and hashed down to 32 bytes otherwise, so it is always
/// accepted; any other file must be an XML wrapper whose first `Data`
/// element holds the key in base64, or `None`.
pub open spec fn spec_keyfile_key(data: Seq<u8>) -> Option<Seq<u8>> {
    if data.len() == 32 {
        Some(data)
    } else if data.len() == 64 {
        match spec_hex_decode(data) {
            Some(k) => Some(k),
            None => Some(sha256_of(data)),
        }
    } else {
        match spec_find_sub(data, spec_data_open(), 0) {
            Some(i) => {
                let start = i + 6;
                match spec_find_sub(data, spec_data_close(), start) {
                    Some(j) => match spec_b64_decode(data.subrange(start, j)) {
                        Some(k) => if k.len() == 32 {
                            Some(k)
                        } else {
                            None
                        },
                        None => None,
                    },
                    None => None,
                }
            },
            None => None,
        }
    }
}

/// Reads a key file; exactly `spec_keyfile_key`.
pub fn keyfile_key(data: &[u8]) -> (r: Option<Vec<u8>>)
    ensures
        match r {
            Some(v) => spec_keyfile_key(data@) == Some(v@) && v@.len() == 32,
            None => spec_keyfile_key(data@) is None,
        },
{
    if data.len() == 32 {
        let v = copy_range(data, 0, 32);
        proof {
            assert(v@ =~= data@);
        }
        return Some(v);
    }
    if data.len() == 64 {
        return match hex_decode(data) {
            Some(k) => {
                proof {
                    lemma_hex_decode_len(data@);
                }
                Some(k)
            },
            None => Some(sha256(data)),
        };
    }
    let dopen: [u8; 6] = [60, 68, 97, 116, 97, 62];
    let dclose: [u8; 7] = [60, 47, 68, 97, 116, 97, 62];
    proof {
        assert(dopen@ =~= spec_data_open());
        assert(dclose@ =~= spec_data_close());
    }
    let i = match find_sub(data, dopen.as_slice(), 0) {
        Some(i) => i,
        None => {
            return None;
        },
    };
    let start = i + 6;
    let j = match find_sub(data, dclose.as_slice(), start) {
        Some(j) => j,
        None => {
            return None;
        },
    };
    proof {
        assert(start <= j) by {
            lemma_find_sub_range(data@, spec_data_close(), start as int);
        }
    }
    let inner = copy_range(data, start, j);
    match b64_decode(inner.as_slice()) {
        Some(k) => {
            if k.len() == 32 {
                Some(k)
            } else {
                None
            }
        },
        None => None,
    }
}

/// A found occurrence lies at or after the starting point.
pub proof fn lemma_find_sub_range(s: Seq<u8>, pat: Seq<u8>, from: int)
    ensures
        spec_find_sub(s, pat, from) matches Some(i) ==> from <= i && i + pat.len() <= s.len(),
    decreases s.len() + 1 - from,
{
    if !(from < 0 || from + pat.len() > s.len()) {
        if s.subrange(from, from + pat.len() as int) != pat {
            lemma_find_sub_range(s, pat, from + 1);
        }
    }
}

/// The hash a present, non-empty password contributes.
pub open spec fn spec_password_part(pw: Option<Seq<u8>>) -> Seq<u8> {
    match pw {
        Some(p) => if p.len() > 0 {
            sha256_of(p)
        } else {
            Seq::empty()
        },
        None => Seq::empty(),
    }
}

/// Whether any credential material is present; an empty password counts
/// as absent.
pub open spec fn spec_has_credential(pw: Option<Seq<u8>>, kf: Option<Seq<u8>>) -> bool {
    (match pw {
        Some(p) => p.len() > 0,
        None => false,
    }) || kf is Some
}

/// The composite key: hash of the concatenated credential hashes.
pub open spec fn spec_composite(pw: Option<Seq<u8>>, kf_key: Seq<u8>) -> Seq<u8> {
    sha256_of(spec_password_part(pw) + kf_key)
}

/// The stretched key under the header's derivation parameters.
pub open spec fn spec_transformed(composite: Seq<u8>, kdf: SpecKdf) -> Seq<u8> {
    match kdf {
        SpecKdf::Aes { rounds, seed } => sha256_of(spec_aes_kdf(seed, composite, rounds as nat)),
        SpecKdf::Argon2 { memory_kib, iterations, parallelism, salt } => argon2_of(
            composite,
            salt,
            memory_kib,
            iterations,
            parallelism,
        ),
    }
}

/// The master key, mixing in the header's master seed.
pub open spec fn spec_master_key(master_seed: Seq<u8>, transformed: Seq<u8>) -> Seq<u8> {
    sha256_of(master_seed + transformed)
}

/// The body cipher key.
pub open spec fn spec_cipher_key(mk: Seq<u8>) -> Seq<u8> {
    sha256_of(mk + seq![0u8])
}

/// The authentication chain key.
pub open spec fn spec_hmac_key(mk: Seq<u8>) -> Seq<u8> {
    sha256_of(mk + seq![1u8])
}

/// The cipher and chain keys for a header and credential pair, when the
/// credentials are acceptable.
pub open spec fn spec_derived_keys(
    h: SpecHeader,
    pw: Option<Seq<u8>>,
    kf_key: Seq<u8>,
) -> (Seq<u8>, Seq<u8>) {
    let mk = spec_master_key(h.master_seed, spec_transformed(spec_composite(pw, kf_key), h.kdf));
    (spec_cipher_key(mk), spec_hmac_key(mk))
}

/// The key-file key, or nothing when no key file is given.
pub open spec fn spec_kf_part(kf: Option<Seq<u8>>) -> Seq<u8> {
    match kf {
        Some(d) => match spec_keyfile_key(d) {
            Some(k) => k,
            None => Seq::empty(),
        },
        None => Seq::empty(),
    }
}

/// Derives the cipher and chain keys from a password and/or key file.
///
/// `NoCredential` exactly when both are absent (an empty password counts
/// as absent); `InvalidKeyFile` exactly when a key file is given and fits
/// none of the accepted shapes.  With the legacy derivation function
/// success is then owed; the memory-hard one can also fail on memory
/// exhaustion, reported as `Cipher`.
pub fn derive_key(password: Option<&str>, keyfile: Option<&[u8]>, h: &Header) -> (r: Result<
    (Vec<u8>, Vec<u8>),
    Error,
>)
    requires
        spec_header_wf(h@),
    ensures
        ({
            let pw = match password {
                Some(p) => Some(p.spec_bytes()),
                None => None,
            };
            let kf = match keyfile {
                Some(d) => Some(d@),
                None => None,
            };
            match r {
                Ok((ck, hk)) => {
                    &&& spec_has_credential(pw, kf)
                    &&& (kf matches Some(d) ==> spec_keyfile_key(d) is Some)
                    &&& (ck@, hk@) == spec_derived_keys(h@, pw, spec_kf_part(kf))
                    &&& ck@.len() == 32
                },
                Err(e) => {
                    &&& (e == Error::NoCredential <==> !spec_has_credential(pw, kf))
                    &&& (e == Error::InvalidKeyFile <==> spec_has_credential(pw, kf) && (
                    kf matches Some(d) && spec_keyfile_key(d) is None))
                    &&& (e == Error::Cipher ==> h@.kdf is Argon2)
                    &&& (e == Error::NoCredential || e == Error::InvalidKeyFile || e
                        == Error::Cipher)
                },
            }
        }),
        h@.kdf is Aes ==> (r is Ok <==> ({
            let pw = match password {
                Some(p) => Some(p.spec_bytes()),
                None => None,
            };
            let kf = match keyfile {
                Some(d) => Some(d@),
                None => None,
            };
            spec_has_credential(pw, kf) && (kf matches Some(d) ==> spec_keyfile_key(d) is Some)
        })),
{
    let has_pw = match password {
        Some(p) => p.as_bytes().len() > 0,
        None => false,
    };
    if !has_pw && keyfile.is_none() {
        return Err(Error::NoCredential);
    }
    let mut kf_key: Vec<u8> = match keyfile {
        Some(d) => match keyfile_key(d) {
            Some(k) => k,
            None => {
                return Err(Error::InvalidKeyFile);
            },
        },
        None => Vec::new(),
    };
    let mut material: Vec<u8> = Vec::new();
    if let Some(p) = password {
        if p.as_bytes().len() > 0 {
            let ph = sha256(p.as_bytes());
            push_bytes(&mut material, ph.as_slice());
        }
    }
    push_bytes(&mut material, kf_key.as_slice());
    let mut composite = sha256(material.as_slice());
    let mut transformed: Vec<u8> = match &h.kdf {
        crate::header::KdfParams::Aes { rounds, seed } => {
            let mut stretched = aes_kdf(seed.as_slice(), composite.as_slice(), *rounds);
            let t = sha256(stretched.as_slice());
            crate::bytes::wipe(&mut stretched);
            t
        },
        crate::header::KdfParams::Argon2 { memory_kib, iterations, parallelism, salt } => {
            match argon2_derive(
                composite.as_slice(),
                salt.as_slice(),
                *memory_kib,
                *iterations,
                *parallelism,
            ) {
                Some(t) => t,
                None => {
                    return Err(Error::Cipher);
                },
            }
        },
    };
    let mut mix: Vec<u8> = Vec::new();
    push_bytes(&mut mix, h.master_seed.as_slice());
    push_bytes(&mut mix, transformed.as_slice());
    let mut mk = sha256(mix.as_slice());
    let mut ckb: Vec<u8> = Vec::new();
    push_bytes(&mut ckb, mk.as_slice());
    ckb.push(0u8);
    let ck = sha256(ckb.as_slice());
    let mut hkb: Vec<u8> = Vec::new();
    push_bytes(&mut hkb, mk.as_slice());
    hkb.push(1u8);
    let hk = sha256(hkb.as_slice());
    proof {
        let pw = match password {
            Some(p) => Some(p.spec_bytes()),
            None => None,
        };
        let kf = match keyfile {
            Some(d) => Some(d@),
            None => None,
        };
        assert(material@ =~= spec_password_part(pw) + spec_kf_part(kf));
        assert(mix@ =~= h@.master_seed + transformed@);
        assert(ckb@ =~= mk@ + seq![0u8]);
        assert(hkb@ =~= mk@ + seq![1u8]);
    }
    // The session's intermediate key material is zeroed before it is
    // dropped; only the two derived keys leave this function.
    crate::bytes::wipe(&mut kf_key);
    crate::bytes::wipe(&mut material);
    crate::bytes::wipe(&mut composite);
    crate::bytes::wipe(&mut transformed);
    crate::bytes::wipe(&mut mix);
    crate::bytes::wipe(&mut mk);
    crate::bytes::wipe(&mut ckb);
    crate::bytes::wipe(&mut hkb);
    Ok((ck, hk))
}

} // verus!
