//! The vault's outer header: magic bytes, version, cipher and
//! compression selection, master seed, IV and key-derivation parameters.
//! The parser's contract is a total specification: it returns exactly
//! what `spec_parse_header` says, error case by error case.
//!
//! Two layouts are supported.  The legacy version 3 layout uses
//! fixed-purpose fields with 16-bit lengths and rejects unknown field
//! identifiers; the current version 4 layout uses a generic
//! identifier/length/value list with 32-bit lengths whose unknown fields
//! are skipped, for forward compatibility.

use vstd::prelude::*;

use crate::bytes::{
    copy_range, push_bytes, push_u16_le, push_u32_le, push_u64_le, read_u16_le, read_u32_le,
    read_u64_le, spec_u16_bytes, spec_u16_le, spec_u32_bytes, spec_u32_le, spec_u64_bytes,
    spec_u64_le,
};
use crate::error::Error;

verus! {

/// The symmetric cipher that encrypts the vault body.
#[derive(Clone, Copy, Debug, PartialEq, Eq, Structural)]
pub enum CipherId {
    Aes256,
    ChaCha20,
}

/// Whether the body plaintext is compressed before encryption.
#[derive(Clone, Copy, Debug, PartialEq, Eq, Structural)]
pub enum Compression {
    Plain,
    Gzip,
}

/// Key-derivation parameters, as the file declares them.
#[derive(Clone, Debug, PartialEq, Eq)]
pub enum KdfParams {
    /// The legacy key-derivation function: AES-256 applied to the key
    /// for `rounds` rounds under `seed`.
    Aes { rounds: u64, seed: Vec<u8> },
    /// The memory-hard key-derivation function with its cost
    /// parameters.
    Argon2 { memory_kib: u32, iterations: u32, parallelism: u32, salt: Vec<u8> },
}

/// The parsed outer header.
#[derive(Clone, Debug, PartialEq, Eq)]
pub struct Header {
    pub version_major: u16,
    pub version_minor: u16,
    pub cipher: CipherId,
    pub compression: Compression,
    pub master_seed: Vec<u8>,
    pub iv: Vec<u8>,
    pub kdf: KdfParams,
}

/// Mathematical view of `KdfParams`.
pub enum SpecKdf {
    Aes { rounds: u64, seed: Seq<u8> },
    Argon2 { memory_kib: u32, iterations: u32, parallelism: u32, salt: Seq<u8> },
}

/// Mathematical view of `Header`.
pub struct SpecHeader {
    pub version_major: u16,
    pub version_minor: u16,
    pub cipher: CipherId,
    pub compression: Compression,
    pub master_seed: Seq<u8>,
    pub iv: Seq<u8>,
    pub kdf: SpecKdf,
}

pub open spec fn kdf_view(k: KdfParams) -> SpecKdf {
    match k {
        KdfParams::Aes { rounds, seed } => SpecKdf::Aes { rounds, seed: seed@ },
        KdfParams::Argon2 { memory_kib, iterations, parallelism, salt } => SpecKdf::Argon2 {
            memory_kib,
            iterations,
            parallelism,
            salt: salt@,
        },
    }
}

impl View for KdfParams {
    type V = SpecKdf;

    open spec fn view(&self) -> SpecKdf {
        kdf_view(*self)
    }
}

impl View for Header {
    type V = SpecHeader;

    open spec fn view(&self) -> SpecHeader {
        SpecHeader {
            version_major: self.version_major,
            version_minor: self.version_minor,
            cipher: self.cipher,
            compression: self.compression,
            master_seed: self.master_seed@,
            iv: self.iv@,
            kdf: kdf_view(self.kdf),
        }
    }
}

/// The magic bytes every vault file begins with.
pub open spec fn spec_magic() -> Seq<u8> {
    seq![0x03u8, 0xd9u8, 0xa2u8, 0x9au8, 0x67u8, 0xfbu8, 0x4bu8, 0xb5u8]
}

/// The IV length a cipher calls for.
pub open spec fn spec_iv_len(c: CipherId) -> nat {
    match c {
        CipherId::Aes256 => 16,
        CipherId::ChaCha20 => 12,
    }
}

/// The wire code of a cipher.
pub open spec fn spec_cipher_code(c: CipherId) -> u32 {
    match c {
        CipherId::Aes256 => 1,
        CipherId::ChaCha20 => 2,
    }
}

/// The wire code of a compression choice.
pub open spec fn spec_compression_code(c: Compression) -> u32 {
    match c {
        Compression::Plain => 0,
        Compression::Gzip => 1,
    }
}

/// Validity of key-derivation parameters.  The bounds on the memory-hard
/// branch are those under which derivation is owed to succeed.
pub open spec fn spec_kdf_wf(k: SpecKdf) -> bool {
    match k {
        SpecKdf::Aes { rounds, seed } => seed.len() == 32 && rounds >= 1,
        SpecKdf::Argon2 { memory_kib, iterations, parallelism, salt } => {
            &&& salt.len() == 32
            &&& 8 <= memory_kib
            &&& memory_kib >= 8 * parallelism
            &&& 1 <= iterations
            &&& 1 <= parallelism <= 0xffffff
        },
    }
}

/// Validity of a header: supported version, seed and IV of the right
/// size, well-formed key-derivation parameters, and the legacy version
/// paired with the legacy derivation function.
pub open spec fn spec_header_wf(h: SpecHeader) -> bool {
    &&& h.version_major == 3 || h.version_major == 4
    &&& h.version_major == 3 ==> h.kdf is Aes
    &&& 16 <= h.master_seed.len() <= 32
    &&& h.iv.len() == spec_iv_len(h.cipher)
    &&& spec_kdf_wf(h.kdf)
}

/// The raw field values collected while walking the field list.
pub struct RawFields {
    pub cipher: Option<u32>,
    pub compression: Option<u32>,
    pub master_seed: Option<Seq<u8>>,
    pub iv: Option<Seq<u8>>,
    pub transform_seed: Option<Seq<u8>>,
    pub transform_rounds: Option<u64>,
    pub kdf: Option<Seq<u8>>,
}

pub open spec fn spec_empty_fields() -> RawFields {
    RawFields {
        cipher: None,
        compression: None,
        master_seed: None,
        iv: None,
        transform_seed: None,
        transform_rounds: None,
        kdf: None,
    }
}

/// One step of the field walk: applies the field at `id` to the
/// accumulator, or reports a malformed field.
pub open spec fn spec_apply_field(acc: RawFields, id: u8, val: Seq<u8>, v4: bool) -> Option<
    RawFields,
> {
    if id == 2 {
        if val.len() == 4 {
            Some(RawFields { cipher: Some(spec_u32_le(val)), ..acc })
        } else {
            None
        }
    } else if id == 3 {
        if val.len() == 4 {
            Some(RawFields { compression: Some(spec_u32_le(val)), ..acc })
        } else {
            None
        }
    } else if id == 4 {
        Some(RawFields { master_seed: Some(val), ..acc })
    } else if id == 7 {
        Some(RawFields { iv: Some(val), ..acc })
    } else if id == 5 && !v4 {
        Some(RawFields { transform_seed: Some(val), ..acc })
    } else if id == 6 && !v4 {
        if val.len() == 8 {
            Some(RawFields { transform_rounds: Some(spec_u64_le(val)), ..acc })
        } else {
            None
        }
    } else if id == 11 && v4 {
        Some(RawFields { kdf: Some(val), ..acc })
    } else if v4 {
        Some(acc)
    } else {
        None
    }
}

/// Walks the identifier/length/value list from `pos` until the end
/// marker; `None` on truncation or, in the legacy layout, on an unknown
/// field.  Returns the collected fields and the offset just past the end
/// marker.
pub open spec fn spec_parse_fields(b: Seq<u8>, pos: int, v4: bool, acc: RawFields) -> Option<(
    RawFields,
    int,
)>
    decreases b.len() - pos,
{
    let lenlen: int = if v4 {
        4
    } else {
        2
    };
    if pos < 0 || pos + 1 + lenlen > b.len() {
        None
    } else {
        let id = b[pos];
        let len: int = if v4 {
            spec_u32_le(b.subrange(pos + 1, pos + 5)) as int
        } else {
            spec_u16_le(b.subrange(pos + 1, pos + 3)) as int
        };
        if pos + 1 + lenlen + len > b.len() {
            None
        } else {
            let val = b.subrange(pos + 1 + lenlen, pos + 1 + lenlen + len);
            let next = pos + 1 + lenlen + len;
            if id == 0 {
                if len == 0 {
                    Some((acc, next))
                } else {
                    None
                }
            } else {
                match spec_apply_field(acc, id, val, v4) {
                    Some(acc2) => spec_parse_fields(b, next, v4, acc2),
                    None => None,
                }
            }
        }
    }
}

/// The memory-hard parameter block: memory, iterations, parallelism and
/// a 32-byte salt.
pub open spec fn spec_parse_kdf(val: Seq<u8>) -> Option<SpecKdf> {
    if val.len() < 4 {
        None
    } else {
        let algo = spec_u32_le(val.subrange(0, 4));
        if algo == 1 {
            if val.len() == 4 + 8 + 32 {
                Some(
                    SpecKdf::Aes {
                        rounds: spec_u64_le(val.subrange(4, 12)),
                        seed: val.subrange(12, 44),
                    },
                )
            } else {
                None
            }
        } else if algo == 2 {
            if val.len() == 4 + 4 + 4 + 4 + 32 {
                Some(
                    SpecKdf::Argon2 {
                        memory_kib: spec_u32_le(val.subrange(4, 8)),
                        iterations: spec_u32_le(val.subrange(8, 12)),
                        parallelism: spec_u32_le(val.subrange(12, 16)),
                        salt: val.subrange(16, 48),
                    },
                )
            } else {
                None
            }
        } else {
            None
        }
    }
}

/// Assembles a header from the collected fields.  An unsupported cipher
/// code is a `Cipher` error; a missing or malformed field, or a whole
/// that is not well-formed, is a `Format` error.
pub open spec fn spec_assemble(major: u16, minor: u16, rf: RawFields) -> Result<
    SpecHeader,
    Error,
> {
    if rf.cipher is None || rf.compression is None || rf.master_seed is None || rf.iv is None {
        Err(Error::Format)
    } else if rf.cipher->0 != 1 && rf.cipher->0 != 2 {
        Err(Error::Cipher)
    } else {
        let cipher = if rf.cipher->0 == 1 {
            CipherId::Aes256
        } else {
            CipherId::ChaCha20
        };
        let compression = if rf.compression->0 == 0 {
            Some(Compression::Plain)
        } else if rf.compression->0 == 1 {
            Some(Compression::Gzip)
        } else {
            None
        };
        let kdf = if major == 3 {
            if rf.transform_seed is Some && rf.transform_rounds is Some {
                Some(SpecKdf::Aes { rounds: rf.transform_rounds->0, seed: rf.transform_seed->0 })
            } else {
                None
            }
        } else {
            match rf.kdf {
                Some(val) => spec_parse_kdf(val),
                None => None,
            }
        };
        if compression is Some && kdf is Some {
            let h = SpecHeader {
                version_major: major,
                version_minor: minor,
                cipher,
                compression: compression->0,
                master_seed: rf.master_seed->0,
                iv: rf.iv->0,
                kdf: kdf->0,
            };
            if spec_header_wf(h) {
                Ok(h)
            } else {
                Err(Error::Format)
            }
        } else {
            Err(Error::Format)
        }
    }
}

/// The whole parse, with its exact error: a wrong magic is
/// `BadSignature`, an unsupported major version is
/// `UnsupportedVersion`, and every other malformation is `Format`.
pub open spec fn spec_parse_header(b: Seq<u8>) -> Result<(SpecHeader, int), Error> {
    if b.len() < 8 || b.take(8) != spec_magic() {
        Err(Error::BadSignature)
    } else if b.len() < 12 {
        Err(Error::Format)
    } else {
        let minor = spec_u16_le(b.subrange(8, 10));
        let major = spec_u16_le(b.subrange(10, 12));
        if major != 3 && major != 4 {
            Err(Error::UnsupportedVersion)
        } else {
            match spec_parse_fields(b, 12, major == 4, spec_empty_fields()) {
                Some((rf, end)) => match spec_assemble(major, minor, rf) {
                    Ok(h) => Ok((h, end)),
                    Err(e) => Err(e),
                },
                None => Err(Error::Format),
            }
        }
    }
}

/// One encoded field: identifier, length, value.
pub open spec fn spec_field(id: u8, val: Seq<u8>, v4: bool) -> Seq<u8> {
    if v4 {
        seq![id] + spec_u32_bytes(val.len() as u32) + val
    } else {
        seq![id] + spec_u16_bytes(val.len() as u16) + val
    }
}

/// The encoded key-derivation parameter block of the current layout.
pub open spec fn spec_kdf_bytes(k: SpecKdf) -> Seq<u8> {
    match k {
        SpecKdf::Aes { rounds, seed } => spec_u32_bytes(1) + spec_u64_bytes(rounds) + seed,
        SpecKdf::Argon2 { memory_kib, iterations, parallelism, salt } => spec_u32_bytes(2)
            + spec_u32_bytes(memory_kib) + spec_u32_bytes(iterations) + spec_u32_bytes(
            parallelism,
        ) + salt,
    }
}

/// The canonical encoding of a well-formed header.
pub open spec fn spec_write_header(h: SpecHeader) -> Seq<u8> {
    let v4 = h.version_major == 4;
    let common = spec_magic() + spec_u16_bytes(h.version_minor) + spec_u16_bytes(h.version_major)
        + spec_field(2, spec_u32_bytes(spec_cipher_code(h.cipher)), v4) + spec_field(
        3,
        spec_u32_bytes(spec_compression_code(h.compression)),
        v4,
    ) + spec_field(4, h.master_seed, v4) + spec_field(7, h.iv, v4);
    let kdf_part = match h.kdf {
        SpecKdf::Aes { rounds, seed } => {
            if v4 {
                spec_field(11, spec_kdf_bytes(h.kdf), v4)
            } else {
                spec_field(5, seed, v4) + spec_field(6, spec_u64_bytes(rounds), v4)
            }
        },
        SpecKdf::Argon2 { .. } => spec_field(11, spec_kdf_bytes(h.kdf), v4),
    };
    common + kdf_part + spec_field(0, Seq::empty(), v4)
}

} // verus!

verus! {

/// The ghost accumulator the parser's locals stand for.
pub open spec fn spec_acc_of(
    cipher: Option<u32>,
    compression: Option<u32>,
    master_seed: Option<Vec<u8>>,
    iv: Option<Vec<u8>>,
    transform_seed: Option<Vec<u8>>,
    transform_rounds: Option<u64>,
    kdf: Option<Vec<u8>>,
) -> RawFields {
    RawFields {
        cipher,
        compression,
        master_seed: match master_seed {
            Some(v) => Some(v@),
            None => None,
        },
        iv: match iv {
            Some(v) => Some(v@),
            None => None,
        },
        transform_seed: match transform_seed {
            Some(v) => Some(v@),
            None => None,
        },
        transform_rounds,
        kdf: match kdf {
            Some(v) => Some(v@),
            None => None,
        },
    }
}

/// Parses the outer header.  Returns the header and the offset where the
/// body begins; the result, including which error is raised, is exactly
/// `spec_parse_header`.
pub fn parse_header(b: &[u8]) -> (r: Result<(Header, usize), Error>)
    ensures
        match r {
            Ok((h, off)) => spec_parse_header(b@) == Ok::<_, Error>((h@, off as int))
                && spec_header_wf(h@) && 12 <= off <= b@.len(),
            Err(e) => spec_parse_header(b@) == Err::<(SpecHeader, int), _>(e),
        },
{
    let magic: [u8; 8] = [0x03, 0xd9, 0xa2, 0x9a, 0x67, 0xfb, 0x4b, 0xb5];
    if b.len() < 8 {
        proof {
            assert(b@.len() < 8);
        }
        return Err(Error::BadSignature);
    }
    let mut m: usize = 0;
    while m < 8
        invariant
            8 <= b@.len(),
            m <= 8,
            magic@ == spec_magic(),
            forall|j: int| 0 <= j < m ==> b@[j] == spec_magic()[j],
        decreases 8 - m,
    {
        if b[m] != magic[m] {
            proof {
                assert(b@.take(8)[m as int] != spec_magic()[m as int]);
            }
            return Err(Error::BadSignature);
        }
        m = m + 1;
    }
    proof {
        assert(b@.take(8) =~= spec_magic());
    }
    if b.len() < 12 {
        return Err(Error::Format);
    }
    let minor = read_u16_le(b, 8);
    let major = read_u16_le(b, 10);
    if major != 3 && major != 4 {
        return Err(Error::UnsupportedVersion);
    }
    let v4 = major == 4;
    let lenlen: usize = if v4 {
        4
    } else {
        2
    };

    let mut cipher_o: Option<u32> = None;
    let mut comp_o: Option<u32> = None;
    let mut seed_o: Option<Vec<u8>> = None;
    let mut iv_o: Option<Vec<u8>> = None;
    let mut tseed_o: Option<Vec<u8>> = None;
    let mut trounds_o: Option<u64> = None;
    let mut kdf_o: Option<Vec<u8>> = None;
    let mut pos: usize = 12;

    loop
        invariant
            b@.len() >= 12,
            b@.take(8) == spec_magic(),
            minor == spec_u16_le(b@.subrange(8, 10)),
            major == spec_u16_le(b@.subrange(10, 12)),
            major == 3 || major == 4,
            v4 == (major == 4),
            lenlen == if v4 {
                4int
            } else {
                2int
            },
            12 <= pos <= b@.len(),
            spec_parse_fields(b@, 12, v4, spec_empty_fields()) == spec_parse_fields(
                b@,
                pos as int,
                v4,
                spec_acc_of(cipher_o, comp_o, seed_o, iv_o, tseed_o, trounds_o, kdf_o),
            ),
        decreases b@.len() - pos,
    {
        let ghost acc = spec_acc_of(cipher_o, comp_o, seed_o, iv_o, tseed_o, trounds_o, kdf_o);
        if pos >= b.len() || b.len() - pos < 1 + lenlen {
            proof {
                assert(pos as int + 1 + lenlen as int > b@.len());
            }
            return Err(Error::Format);
        }
        let id = b[pos];
        let len: usize = if v4 {
            read_u32_le(b, pos + 1) as usize
        } else {
            read_u16_le(b, pos + 1) as usize
        };
        let vstart = pos + 1 + lenlen;
        if len > b.len() - vstart {
            proof {
                assert(pos as int + 1 + lenlen as int + len as int > b@.len());
            }
            return Err(Error::Format);
        }
        let next = vstart + len;
        let ghost val = b@.subrange(vstart as int, next as int);
        if id == 0 {
            if len != 0 {
                return Err(Error::Format);
            }
            proof {
                assert(spec_parse_fields(b@, pos as int, v4, acc) == Some((acc, next as int)));
            }
            let end = next;
            // Assemble and validate; every failure from here on is `Format`.
            let ghost rf = acc;
            let cipher_code = match cipher_o {
                Some(c) => c,
                None => {
                    return Err(Error::Format);
                },
            };
            let comp_code = match comp_o {
                Some(c) => c,
                None => {
                    return Err(Error::Format);
                },
            };
            let master_seed = match seed_o {
                Some(v) => v,
                None => {
                    return Err(Error::Format);
                },
            };
            let iv = match iv_o {
                Some(v) => v,
                None => {
                    return Err(Error::Format);
                },
            };
            let cipher = if cipher_code == 1 {
                CipherId::Aes256
            } else if cipher_code == 2 {
                CipherId::ChaCha20
            } else {
                return Err(Error::Cipher);
            };
            let compression = if comp_code == 0 {
                Compression::Plain
            } else if comp_code == 1 {
                Compression::Gzip
            } else {
                return Err(Error::Format);
            };
            let kdf: KdfParams = if major == 3 {
                let ts = match tseed_o {
                    Some(v) => v,
                    None => {
                        return Err(Error::Format);
                    },
                };
                let tr = match trounds_o {
                    Some(v) => v,
                    None => {
                        return Err(Error::Format);
                    },
                };
                KdfParams::Aes { rounds: tr, seed: ts }
            } else {
                let kv = match kdf_o {
                    Some(v) => v,
                    None => {
                        return Err(Error::Format);
                    },
                };
                match parse_kdf(kv.as_slice()) {
                    Some(k) => k,
                    None => {
                        return Err(Error::Format);
                    },
                }
            };
            let h = Header {
                version_major: major,
                version_minor: minor,
                cipher,
                compression,
                master_seed,
                iv,
                kdf,
            };
            if !header_wf_check(&h) {
                return Err(Error::Format);
            }
            proof {
                assert(spec_assemble(major, minor, rf) == Ok::<_, Error>(h@));
            }
            return Ok((h, end));
        }
        if id == 2 {
            if len != 4 {
                return Err(Error::Format);
            }
            cipher_o = Some(read_u32_le(b, vstart));
        } else if id == 3 {
            if len != 4 {
                return Err(Error::Format);
            }
            comp_o = Some(read_u32_le(b, vstart));
        } else if id == 4 {
            seed_o = Some(copy_range(b, vstart, next));
        } else if id == 7 {
            iv_o = Some(copy_range(b, vstart, next));
        } else if id == 5 && !v4 {
            tseed_o = Some(copy_range(b, vstart, next));
        } else if id == 6 && !v4 {
            if len != 8 {
                return Err(Error::Format);
            }
            trounds_o = Some(read_u64_le(b, vstart));
        } else if id == 11 && v4 {
            kdf_o = Some(copy_range(b, vstart, next));
        } else if !v4 {
            return Err(Error::Format);
        }
        proof {
            let acc2 = spec_acc_of(cipher_o, comp_o, seed_o, iv_o, tseed_o, trounds_o, kdf_o);
            assert(spec_apply_field(acc, id, val, v4) == Some(acc2));
            assert(spec_parse_fields(b@, pos as int, v4, acc) == spec_parse_fields(
                b@,
                next as int,
                v4,
                acc2,
            ));
        }
        pos = next;
    }
}

/// Decodes the key-derivation parameter block of the current layout.
fn parse_kdf(val: &[u8]) -> (r: Option<KdfParams>)
    ensures
        match r {
            Some(k) => spec_parse_kdf(val@) == Some(kdf_view(k)),
            None => spec_parse_kdf(val@) is None,
        },
{
    if val.len() < 4 {
        return None;
    }
    let algo = read_u32_le(val, 0);
    if algo == 1 {
        if val.len() != 44 {
            return None;
        }
        let rounds = read_u64_le(val, 4);
        let seed = copy_range(val, 12, 44);
        Some(KdfParams::Aes { rounds, seed })
    } else if algo == 2 {
        if val.len() != 48 {
            return None;
        }
        let memory_kib = read_u32_le(val, 4);
        let iterations = read_u32_le(val, 8);
        let parallelism = read_u32_le(val, 12);
        let salt = copy_range(val, 16, 48);
        Some(KdfParams::Argon2 { memory_kib, iterations, parallelism, salt })
    } else {
        None
    }
}

/// Whether the header is well-formed; exactly `spec_header_wf`.
pub fn header_wf_check(h: &Header) -> (r: bool)
    ensures
        r == spec_header_wf(h@),
{
    let version_ok = h.version_major == 3 || h.version_major == 4;
    let legacy_ok = h.version_major != 3 || matches!(h.kdf, KdfParams::Aes { .. });
    let seed_ok = 16 <= h.master_seed.len() && h.master_seed.len() <= 32;
    let iv_ok = match h.cipher {
        CipherId::Aes256 => h.iv.len() == 16,
        CipherId::ChaCha20 => h.iv.len() == 12,
    };
    let kdf_ok = match &h.kdf {
        KdfParams::Aes { rounds, seed } => seed.len() == 32 && *rounds >= 1,
        KdfParams::Argon2 { memory_kib, iterations, parallelism, salt } => salt.len() == 32 && 8
            <= *memory_kib && (*memory_kib as u64) >= 8 * (*parallelism as u64) && 1
            <= *iterations && 1 <= *parallelism && *parallelism <= 0xffffff,
    };
    version_ok && legacy_ok && seed_ok && iv_ok && kdf_ok
}

/// Appends one encoded field.
fn push_field(out: &mut Vec<u8>, id: u8, val: &[u8], v4: bool)
    requires
        val@.len() <= 0xffff || v4,
        val@.len() <= 0xffff_ffff,
    ensures
        final(out)@ == old(out)@ + spec_field(id, val@, v4),
{
    out.push(id);
    if v4 {
        push_u32_le(out, val.len() as u32);
    } else {
        push_u16_le(out, val.len() as u16);
    }
    push_bytes(out, val);
    assert(final(out)@ =~= old(out)@ + spec_field(id, val@, v4));
}

/// Encodes a well-formed header canonically: `parse_header` accepts the
/// result.
pub fn write_header(h: &Header) -> (r: Vec<u8>)
    requires
        spec_header_wf(h@),
    ensures
        r@ == spec_write_header(h@),
{
    let v4 = h.version_major == 4;
    let mut out: Vec<u8> = Vec::new();
    let magic: [u8; 8] = [0x03, 0xd9, 0xa2, 0x9a, 0x67, 0xfb, 0x4b, 0xb5];
    push_bytes(&mut out, magic.as_slice());
    proof {
        assert(out@ =~= spec_magic());
    }
    push_u16_le(&mut out, h.version_minor);
    push_u16_le(&mut out, h.version_major);

    let mut code: Vec<u8> = Vec::new();
    push_u32_le(
        &mut code,
        match h.cipher {
            CipherId::Aes256 => 1,
            CipherId::ChaCha20 => 2,
        },
    );
    push_field(&mut out, 2, code.as_slice(), v4);

    let mut comp: Vec<u8> = Vec::new();
    push_u32_le(
        &mut comp,
        match h.compression {
            Compression::Plain => 0,
            Compression::Gzip => 1,
        },
    );
    push_field(&mut out, 3, comp.as_slice(), v4);

    push_field(&mut out, 4, h.master_seed.as_slice(), v4);
    push_field(&mut out, 7, h.iv.as_slice(), v4);

    match &h.kdf {
        KdfParams::Aes { rounds, seed } => {
            if v4 {
                let mut kv: Vec<u8> = Vec::new();
                push_u32_le(&mut kv, 1);
                push_u64_le(&mut kv, *rounds);
                push_bytes(&mut kv, seed.as_slice());
                assert(kv@ =~= spec_kdf_bytes(h@.kdf));
                push_field(&mut out, 11, kv.as_slice(), v4);
            } else {
                push_field(&mut out, 5, seed.as_slice(), v4);
                let mut rv: Vec<u8> = Vec::new();
                push_u64_le(&mut rv, *rounds);
                push_field(&mut out, 6, rv.as_slice(), v4);
            }
        },
        KdfParams::Argon2 { memory_kib, iterations, parallelism, salt } => {
            let mut kv: Vec<u8> = Vec::new();
            push_u32_le(&mut kv, 2);
            push_u32_le(&mut kv, *memory_kib);
            push_u32_le(&mut kv, *iterations);
            push_u32_le(&mut kv, *parallelism);
            push_bytes(&mut kv, salt.as_slice());
            assert(kv@ =~= spec_kdf_bytes(h@.kdf));
            push_field(&mut out, 11, kv.as_slice(), v4);
        },
    }

    let empty: Vec<u8> = Vec::new();
    push_field(&mut out, 0, empty.as_slice(), v4);
    assert(out@ =~= spec_write_header(h@));
    out
}

} // verus!

use crate::bytes::{lemma_u16_roundtrip, lemma_u32_roundtrip, lemma_u64_roundtrip};
use crate::document::lemma_sub_piece;

verus! {

/// The length of one encoded field.
pub open spec fn spec_field_len(val: Seq<u8>, v4: bool) -> int {
    if v4 {
        5 + val.len() as int
    } else {
        3 + val.len() as int
    }
}

/// Parsing one known, well-sized field advances past it and applies it.
proof fn lemma_parse_field_step(
    b: Seq<u8>,
    pos: int,
    id: u8,
    val: Seq<u8>,
    v4: bool,
    acc: RawFields,
    acc2: RawFields,
)
    requires
        0 <= pos,
        pos + spec_field_len(val, v4) <= b.len(),
        b.subrange(pos, pos + spec_field_len(val, v4)) == spec_field(id, val, v4),
        val.len() <= 0xffff || v4,
        val.len() <= 0xffff_ffff,
        id != 0,
        spec_apply_field(acc, id, val, v4) == Some(acc2),
    ensures
        spec_parse_fields(b, pos, v4, acc) == spec_parse_fields(
            b,
            pos + spec_field_len(val, v4),
            v4,
            acc2,
        ),
{
    let enc = spec_field(id, val, v4);
    let lenlen: int = if v4 {
        4
    } else {
        2
    };
    assert(enc.len() == 1 + lenlen + val.len());
    assert(b[pos] == id) by {
        assert(b.subrange(pos, pos + enc.len() as int)[0] == enc[0]);
    }
    if v4 {
        assert(enc.subrange(1, 5) =~= spec_u32_bytes(val.len() as u32));
        lemma_sub_piece(b, pos, enc, 1, 5);
        lemma_u32_roundtrip(val.len() as u32);
    } else {
        assert(enc.subrange(1, 3) =~= spec_u16_bytes(val.len() as u16));
        lemma_sub_piece(b, pos, enc, 1, 3);
        lemma_u16_roundtrip(val.len() as u16);
    }
    assert(enc.subrange(1 + lenlen, enc.len() as int) =~= val);
    lemma_sub_piece(b, pos, enc, 1 + lenlen, enc.len() as int);
}

/// Parsing the end marker stops the walk just past it.
proof fn lemma_parse_field_end(b: Seq<u8>, pos: int, v4: bool, acc: RawFields)
    requires
        0 <= pos,
        pos + spec_field_len(Seq::empty(), v4) <= b.len(),
        b.subrange(pos, pos + spec_field_len(Seq::empty(), v4)) == spec_field(
            0,
            Seq::empty(),
            v4,
        ),
    ensures
        spec_parse_fields(b, pos, v4, acc) == Some(
            (acc, pos + spec_field_len(Seq::empty(), v4)),
        ),
{
    let enc = spec_field(0, Seq::empty(), v4);
    let lenlen: int = if v4 {
        4
    } else {
        2
    };
    assert(enc.len() == 1 + lenlen);
    assert(b[pos] == 0) by {
        assert(b.subrange(pos, pos + enc.len() as int)[0] == enc[0]);
    }
    if v4 {
        assert(enc.subrange(1, 5) =~= spec_u32_bytes(0));
        lemma_sub_piece(b, pos, enc, 1, 5);
        lemma_u32_roundtrip(0);
    } else {
        assert(enc.subrange(1, 3) =~= spec_u16_bytes(0));
        lemma_sub_piece(b, pos, enc, 1, 3);
        lemma_u16_roundtrip(0);
    }
}

/// Decoding the encoded derivation parameters gives them back.
proof fn lemma_parse_kdf_roundtrip(k: SpecKdf)
    requires
        spec_kdf_wf(k),
    ensures
        spec_parse_kdf(spec_kdf_bytes(k)) == Some(k),
{
    let val = spec_kdf_bytes(k);
    match k {
        SpecKdf::Aes { rounds, seed } => {
            assert(val.len() == 44);
            assert(val.subrange(0, 4) =~= spec_u32_bytes(1));
            lemma_u32_roundtrip(1);
            assert(val.subrange(4, 12) =~= spec_u64_bytes(rounds));
            lemma_u64_roundtrip(rounds);
            assert(val.subrange(12, 44) =~= seed);
        },
        SpecKdf::Argon2 { memory_kib, iterations, parallelism, salt } => {
            assert(val.len() == 48);
            assert(val.subrange(0, 4) =~= spec_u32_bytes(2));
            lemma_u32_roundtrip(2);
            assert(val.subrange(4, 8) =~= spec_u32_bytes(memory_kib));
            lemma_u32_roundtrip(memory_kib);
            assert(val.subrange(8, 12) =~= spec_u32_bytes(iterations));
            lemma_u32_roundtrip(iterations);
            assert(val.subrange(12, 16) =~= spec_u32_bytes(parallelism));
            lemma_u32_roundtrip(parallelism);
            assert(val.subrange(16, 48) =~= salt);
        },
    }
}

/// The encoded field region of a header: everything after the magic and
/// version words.
pub open spec fn spec_header_fields(h: SpecHeader) -> Seq<u8> {
    let v4 = h.version_major == 4;
    let kdf_part = match h.kdf {
        SpecKdf::Aes { rounds, seed } => {
            if v4 {
                spec_field(11, spec_kdf_bytes(h.kdf), v4)
            } else {
                spec_field(5, seed, v4) + spec_field(6, spec_u64_bytes(rounds), v4)
            }
        },
        SpecKdf::Argon2 { .. } => spec_field(11, spec_kdf_bytes(h.kdf), v4),
    };
    spec_field(2, spec_u32_bytes(spec_cipher_code(h.cipher)), v4) + spec_field(
        3,
        spec_u32_bytes(spec_compression_code(h.compression)),
        v4,
    ) + spec_field(4, h.master_seed, v4) + spec_field(7, h.iv, v4) + kdf_part + spec_field(
        0,
        Seq::empty(),
        v4,
    )
}

/// Parsing the canonical encoding of a well-formed header, with anything
/// after it, gives the header back together with the offset where the
/// rest begins.
#[verifier::rlimit(100)]
pub proof fn lemma_parse_write_header(h: SpecHeader, rest: Seq<u8>)
    requires
        spec_header_wf(h),
    ensures
        spec_parse_header(spec_write_header(h) + rest) == Ok::<_, Error>(
            (h, spec_write_header(h).len() as int),
        ),
{
    let enc = spec_write_header(h);
    let b = enc + rest;
    let v4 = h.version_major == 4;
    assert(b.subrange(0, enc.len() as int) =~= enc);
    assert(b.take(8) =~= spec_magic());
    assert(enc.subrange(8, 10) =~= spec_u16_bytes(h.version_minor));
    assert(enc.subrange(10, 12) =~= spec_u16_bytes(h.version_major));
    lemma_sub_piece(b, 0, enc, 8, 10);
    lemma_sub_piece(b, 0, enc, 10, 12);
    lemma_u16_roundtrip(h.version_minor);
    lemma_u16_roundtrip(h.version_major);
    assert(enc =~= (spec_magic() + spec_u16_bytes(h.version_minor) + spec_u16_bytes(
        h.version_major,
    )) + spec_header_fields(h));
    assert(b.subrange(12, 12 + spec_header_fields(h).len() as int) == spec_header_fields(h)) by {
        lemma_sub_piece(b, 0, enc, 12, enc.len() as int);
        assert(enc.subrange(12, enc.len() as int) =~= spec_header_fields(h));
    }
    lemma_walk_header_fields(h, b);
    assert(spec_parse_header(b) == Ok::<_, Error>((h, enc.len() as int)));
}

/// Walks the four fixed fields at the head of the field region.
#[verifier::rlimit(100)]
proof fn lemma_walk_common_fields(h: SpecHeader, b: Seq<u8>)
    requires
        spec_header_wf(h),
        12 + spec_header_fields(h).len() <= b.len(),
        b.subrange(12, 12 + spec_header_fields(h).len() as int) == spec_header_fields(h),
    ensures
        ({
            let v4 = h.version_major == 4;
            let a1 = spec_apply_field(
                spec_empty_fields(),
                2,
                spec_u32_bytes(spec_cipher_code(h.cipher)),
                v4,
            )->0;
            let a2 = spec_apply_field(
                a1,
                3,
                spec_u32_bytes(spec_compression_code(h.compression)),
                v4,
            )->0;
            let a3 = spec_apply_field(a2, 4, h.master_seed, v4)->0;
            let a4 = spec_apply_field(a3, 7, h.iv, v4)->0;
            let pk = 12 + spec_field_len(spec_u32_bytes(spec_cipher_code(h.cipher)), v4)
                + spec_field_len(spec_u32_bytes(spec_compression_code(h.compression)), v4)
                + spec_field_len(h.master_seed, v4) + spec_field_len(h.iv, v4);
            spec_parse_fields(b, 12, v4, spec_empty_fields()) == spec_parse_fields(b, pk, v4, a4)
        }),
{
    let v4 = h.version_major == 4;
    let flds = spec_header_fields(h);
    let f2 = spec_field(2, spec_u32_bytes(spec_cipher_code(h.cipher)), v4);
    let f3 = spec_field(3, spec_u32_bytes(spec_compression_code(h.compression)), v4);
    let f4 = spec_field(4, h.master_seed, v4);
    let f7 = spec_field(7, h.iv, v4);
    let p2 = 12int;
    let p3 = p2 + spec_field_len(spec_u32_bytes(spec_cipher_code(h.cipher)), v4);
    let p4 = p3 + spec_field_len(spec_u32_bytes(spec_compression_code(h.compression)), v4);
    let p7 = p4 + spec_field_len(h.master_seed, v4);
    let pk = p7 + spec_field_len(h.iv, v4);
    let a0 = spec_empty_fields();
    let a1 = spec_apply_field(a0, 2, spec_u32_bytes(spec_cipher_code(h.cipher)), v4)->0;
    assert(spec_parse_fields(b, p2, v4, a0) == spec_parse_fields(b, p3, v4, a1)) by {
        assert(flds.subrange(p2 - 12, p3 - 12) =~= f2);
        lemma_sub_piece(b, 12, flds, p2 - 12, p3 - 12);
        lemma_parse_field_step(b, p2, 2, spec_u32_bytes(spec_cipher_code(h.cipher)), v4, a0, a1);
    }
    let a2 = spec_apply_field(a1, 3, spec_u32_bytes(spec_compression_code(h.compression)), v4)->0;
    assert(spec_parse_fields(b, p3, v4, a1) == spec_parse_fields(b, p4, v4, a2)) by {
        assert(flds.subrange(p3 - 12, p4 - 12) =~= f3);
        lemma_sub_piece(b, 12, flds, p3 - 12, p4 - 12);
        lemma_parse_field_step(
            b,
            p3,
            3,
            spec_u32_bytes(spec_compression_code(h.compression)),
            v4,
            a1,
            a2,
        );
    }
    let a3 = spec_apply_field(a2, 4, h.master_seed, v4)->0;
    assert(spec_parse_fields(b, p4, v4, a2) == spec_parse_fields(b, p7, v4, a3)) by {
        assert(flds.subrange(p4 - 12, p7 - 12) =~= f4);
        lemma_sub_piece(b, 12, flds, p4 - 12, p7 - 12);
        lemma_parse_field_step(b, p4, 4, h.master_seed, v4, a2, a3);
    }
    let a4 = spec_apply_field(a3, 7, h.iv, v4)->0;
    assert(spec_parse_fields(b, p7, v4, a3) == spec_parse_fields(b, pk, v4, a4)) by {
        assert(flds.subrange(p7 - 12, pk - 12) =~= f7);
        lemma_sub_piece(b, 12, flds, p7 - 12, pk - 12);
        lemma_parse_field_step(b, p7, 7, h.iv, v4, a3, a4);
    }
}

/// Walks the encoded field region, collecting exactly the header's
/// fields and assembling the header back.
#[verifier::rlimit(100)]
proof fn lemma_walk_header_fields(h: SpecHeader, b: Seq<u8>)
    requires
        spec_header_wf(h),
        12 + spec_header_fields(h).len() <= b.len(),
        b.subrange(12, 12 + spec_header_fields(h).len() as int) == spec_header_fields(h),
    ensures
        ({
            let v4 = h.version_major == 4;
            match spec_parse_fields(b, 12, v4, spec_empty_fields()) {
                Some((rf, end)) => end == 12 + spec_header_fields(h).len() && spec_assemble(
                    h.version_major,
                    h.version_minor,
                    rf,
                ) == Ok::<_, Error>(h),
                None => false,
            }
        }),
{
    let v4 = h.version_major == 4;
    let flds = spec_header_fields(h);
    let f2 = spec_field(2, spec_u32_bytes(spec_cipher_code(h.cipher)), v4);
    let f3 = spec_field(3, spec_u32_bytes(spec_compression_code(h.compression)), v4);
    let f4 = spec_field(4, h.master_seed, v4);
    let f7 = spec_field(7, h.iv, v4);
    let kdf_part = match h.kdf {
        SpecKdf::Aes { rounds, seed } => {
            if v4 {
                spec_field(11, spec_kdf_bytes(h.kdf), v4)
            } else {
                spec_field(5, seed, v4) + spec_field(6, spec_u64_bytes(rounds), v4)
            }
        },
        SpecKdf::Argon2 { .. } => spec_field(11, spec_kdf_bytes(h.kdf), v4),
    };
    let fend = spec_field(0, Seq::empty(), v4);
    assert(flds == f2 + f3 + f4 + f7 + kdf_part + fend);

    let p2 = 12int;
    let p3 = p2 + spec_field_len(spec_u32_bytes(spec_cipher_code(h.cipher)), v4);
    let p4 = p3 + spec_field_len(spec_u32_bytes(spec_compression_code(h.compression)), v4);
    let p7 = p4 + spec_field_len(h.master_seed, v4);
    let pk = p7 + spec_field_len(h.iv, v4);
    let pe = pk + kdf_part.len() as int;
    let end = pe + spec_field_len(Seq::empty(), v4);
    assert(end == 12 + flds.len());

    let a0 = spec_empty_fields();
    let a1 = spec_apply_field(a0, 2, spec_u32_bytes(spec_cipher_code(h.cipher)), v4)->0;
    let a2 = spec_apply_field(a1, 3, spec_u32_bytes(spec_compression_code(h.compression)), v4)->0;
    let a3 = spec_apply_field(a2, 4, h.master_seed, v4)->0;
    let a4 = spec_apply_field(a3, 7, h.iv, v4)->0;
    lemma_walk_common_fields(h, b);
    assert(spec_parse_fields(b, 12, v4, a0) == spec_parse_fields(b, pk, v4, a4));

    let a5: RawFields = match h.kdf {
        SpecKdf::Aes { rounds, seed } => {
            if v4 {
                let n = spec_apply_field(a4, 11, spec_kdf_bytes(h.kdf), v4)->0;
                assert(spec_parse_fields(b, pk, v4, a4) == spec_parse_fields(b, pe, v4, n)) by {
                    assert(flds.subrange(pk - 12, pe - 12) =~= spec_field(
                        11,
                        spec_kdf_bytes(h.kdf),
                        v4,
                    ));
                    lemma_sub_piece(b, 12, flds, pk - 12, pe - 12);
                    lemma_parse_field_step(b, pk, 11, spec_kdf_bytes(h.kdf), v4, a4, n);
                }
                n
            } else {
                let p6 = pk + spec_field_len(seed, v4);
                let n5 = spec_apply_field(a4, 5, seed, v4)->0;
                assert(spec_parse_fields(b, pk, v4, a4) == spec_parse_fields(b, p6, v4, n5)) by {
                    assert(flds.subrange(pk - 12, p6 - 12) =~= spec_field(5, seed, v4));
                    lemma_sub_piece(b, 12, flds, pk - 12, p6 - 12);
                    lemma_parse_field_step(b, pk, 5, seed, v4, a4, n5);
                }
                let n6 = spec_apply_field(n5, 6, spec_u64_bytes(rounds), v4)->0;
                assert(spec_parse_fields(b, p6, v4, n5) == spec_parse_fields(b, pe, v4, n6)) by {
                    assert(flds.subrange(p6 - 12, pe - 12) =~= spec_field(
                        6,
                        spec_u64_bytes(rounds),
                        v4,
                    ));
                    lemma_sub_piece(b, 12, flds, p6 - 12, pe - 12);
                    lemma_parse_field_step(b, p6, 6, spec_u64_bytes(rounds), v4, n5, n6);
                }
                lemma_u64_roundtrip(rounds);
                n6
            }
        },
        SpecKdf::Argon2 { .. } => {
            let n = spec_apply_field(a4, 11, spec_kdf_bytes(h.kdf), v4)->0;
            assert(spec_parse_fields(b, pk, v4, a4) == spec_parse_fields(b, pe, v4, n)) by {
                assert(flds.subrange(pk - 12, pe - 12) =~= spec_field(
                    11,
                    spec_kdf_bytes(h.kdf),
                    v4,
                ));
                lemma_sub_piece(b, 12, flds, pk - 12, pe - 12);
                lemma_parse_field_step(b, pk, 11, spec_kdf_bytes(h.kdf), v4, a4, n);
            }
            n
        },
    };

    assert(spec_parse_fields(b, pe, v4, a5) == Some((a5, end))) by {
        assert(flds.subrange(pe - 12, end - 12) =~= fend);
        lemma_sub_piece(b, 12, flds, pe - 12, end - 12);
        lemma_parse_field_end(b, pe, v4, a5);
    }
    assert(spec_parse_fields(b, 12, v4, a0) == Some((a5, end)));

    lemma_u32_roundtrip(spec_cipher_code(h.cipher));
    lemma_u32_roundtrip(spec_compression_code(h.compression));
    if v4 {
        lemma_parse_kdf_roundtrip(h.kdf);
    }
    assert(spec_assemble(h.version_major, h.version_minor, a5) == Ok::<_, Error>(h));
}

} // verus!
