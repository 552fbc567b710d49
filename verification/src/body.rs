//! The authenticated encoding of the vault body's ciphertext.
//!
//! The legacy layout splits the ciphertext into chained blocks, each
//! carrying a keyed tag under a per-index key; the current layout
//! carries one tag over header and ciphertext together.  Authentication
//! is checked before any plaintext is handed on.  Each direction's
//! contract also states that the other direction undoes it, which is
//! what the body round-trip law rests on.

use vstd::prelude::*;

use crate::bytes::{
    bytes_eq, copy_range, lemma_u32_roundtrip, push_bytes, push_u32_le, push_u64_le,
    spec_u32_bytes, spec_u32_le, spec_u64_bytes,
};
use crate::crypto::{hmac_sha256, hmac_sha256_of, sha256, sha256_of};
use crate::error::Error;

verus! {

/// The size of a full ciphertext block in the legacy chained layout.
pub const BLOCK_LEN: usize = 65536;

/// The per-block authentication key: the chain key stretched with the
/// block index.
pub open spec fn spec_block_key(hk: Seq<u8>, i: u64) -> Seq<u8> {
    sha256_of(hk + spec_u64_bytes(i))
}

/// The tag of block `i` over its index, length and data.
pub open spec fn spec_block_tag(hk: Seq<u8>, i: u64, data: Seq<u8>) -> Seq<u8> {
    hmac_sha256_of(
        spec_block_key(hk, i),
        spec_u64_bytes(i) + spec_u32_bytes(data.len() as u32) + data,
    )
}

/// The canonical chained encoding of a ciphertext: full blocks, then a
/// final partial block if one is needed, then an empty terminator block.
/// The block index wraps in principle; a body long enough for that
/// cannot exist in memory.
pub open spec fn spec_chain(hk: Seq<u8>, ct: Seq<u8>, i: u64) -> Seq<u8>
    decreases ct.len(),
{
    if ct.len() == 0 {
        spec_block_tag(hk, i, Seq::empty()) + spec_u32_bytes(0)
    } else if ct.len() >= BLOCK_LEN {
        let data = ct.take(BLOCK_LEN as int);
        spec_block_tag(hk, i, data) + spec_u32_bytes(BLOCK_LEN as u32) + data + spec_chain(
            hk,
            ct.skip(BLOCK_LEN as int),
            add_wrap(i, 1),
        )
    } else {
        spec_block_tag(hk, i, ct) + spec_u32_bytes(ct.len() as u32) + ct + spec_block_tag(
            hk,
            add_wrap(i, 1),
            Seq::empty(),
        ) + spec_u32_bytes(0)
    }
}

/// `u64` addition that wraps.
pub open spec fn add_wrap(i: u64, j: u64) -> u64 {
    if i + j > u64::MAX {
        (i + j - 0x1_0000_0000_0000_0000) as u64
    } else {
        (i + j) as u64
    }
}

/// Parses and authenticates a chained body, returning the ciphertext;
/// `None` on any truncation, non-canonical block size or tag mismatch.
pub open spec fn spec_parse_chain(hk: Seq<u8>, b: Seq<u8>, i: u64) -> Option<Seq<u8>>
    decreases b.len(),
{
    if b.len() < 36 {
        None
    } else {
        let tag = b.take(32);
        let len = spec_u32_le(b.subrange(32, 36)) as int;
        if 36 + len > b.len() {
            None
        } else {
            let data = b.subrange(36, 36 + len);
            if tag != spec_block_tag(hk, i, data) {
                None
            } else if len == 0 {
                if b.len() == 36 {
                    Some(Seq::empty())
                } else {
                    None
                }
            } else if len == BLOCK_LEN {
                match spec_parse_chain(hk, b.skip(36 + BLOCK_LEN as int), add_wrap(i, 1)) {
                    Some(rest) => Some(data + rest),
                    None => None,
                }
            } else if len > BLOCK_LEN {
                None
            } else {
                let rest = b.skip(36 + len);
                if rest.len() == 36 && rest.take(32) == spec_block_tag(
                    hk,
                    add_wrap(i, 1),
                    Seq::empty(),
                ) && spec_u32_le(rest.subrange(32, 36)) == 0 {
                    Some(data)
                } else {
                    None
                }
            }
        }
    }
}

/// Computes the tag of block `i` over `data`.
fn block_tag(hk: &[u8], i: u64, data: &[u8]) -> (r: Vec<u8>)
    requires
        data@.len() <= 0xffff_ffff,
    ensures
        r@ == spec_block_tag(hk@, i, data@),
        r@.len() == 32,
{
    let mut keysrc: Vec<u8> = Vec::new();
    push_bytes(&mut keysrc, hk);
    push_u64_le(&mut keysrc, i);
    let bk = sha256(keysrc.as_slice());
    let mut msg: Vec<u8> = Vec::new();
    push_u64_le(&mut msg, i);
    push_u32_le(&mut msg, data.len() as u32);
    push_bytes(&mut msg, data);
    let tag = hmac_sha256(bk.as_slice(), msg.as_slice());
    proof {
        assert(keysrc@ =~= hk@ + spec_u64_bytes(i));
        assert(msg@ =~= spec_u64_bytes(i) + spec_u32_bytes(data@.len() as u32) + data@);
    }
    tag
}

/// One encoded block: tag, length, data.
pub open spec fn spec_block_bytes(hk: Seq<u8>, i: u64, data: Seq<u8>) -> Seq<u8> {
    spec_block_tag(hk, i, data) + spec_u32_bytes(data.len() as u32) + data
}

/// Parsing a well-formed block at the head continues behind it.
proof fn lemma_parse_block_step(hk: Seq<u8>, i: u64, data: Seq<u8>, tag: Seq<u8>, z: Seq<u8>)
    requires
        tag == spec_block_tag(hk, i, data),
        tag.len() == 32,
        0 < data.len() <= 0xffff_ffff,
    ensures
        data.len() == BLOCK_LEN ==> spec_parse_chain(hk, (tag + spec_u32_bytes(
            data.len() as u32,
        ) + data) + z, i) == (match spec_parse_chain(hk, z, add_wrap(i, 1)) {
            Some(r) => Some(data + r),
            None => None::<Seq<u8>>,
        }),
{
    let b = (tag + spec_u32_bytes(data.len() as u32) + data) + z;
    lemma_u32_roundtrip(data.len() as u32);
    assert(b.len() == 36 + data.len() + z.len());
    assert(b.take(32) =~= tag);
    assert(b.subrange(32, 36) =~= spec_u32_bytes(data.len() as u32));
    assert(b.subrange(36, 36 + data.len() as int) =~= data);
    if data.len() == BLOCK_LEN {
        assert(b.skip(36 + BLOCK_LEN as int) =~= z);
    }
}

/// Parsing a final partial block followed by the terminator ends the
/// chain with that block's data.
proof fn lemma_parse_partial_end(
    hk: Seq<u8>,
    i: u64,
    data: Seq<u8>,
    tag: Seq<u8>,
    tterm: Seq<u8>,
)
    requires
        tag == spec_block_tag(hk, i, data),
        tag.len() == 32,
        tterm == spec_block_tag(hk, add_wrap(i, 1), Seq::empty()),
        tterm.len() == 32,
        0 < data.len() < BLOCK_LEN,
    ensures
        spec_parse_chain(
            hk,
            (tag + spec_u32_bytes(data.len() as u32) + data) + (tterm + spec_u32_bytes(0)),
            i,
        ) == Some(data),
{
    let b = (tag + spec_u32_bytes(data.len() as u32) + data) + (tterm + spec_u32_bytes(0));
    lemma_u32_roundtrip(data.len() as u32);
    lemma_u32_roundtrip(0);
    assert(b.len() == 36 + data.len() + 36);
    assert(b.take(32) =~= tag);
    assert(b.subrange(32, 36) =~= spec_u32_bytes(data.len() as u32));
    assert(b.subrange(36, 36 + data.len() as int) =~= data);
    let rest = b.skip(36 + data.len() as int);
    assert(rest =~= tterm + spec_u32_bytes(0));
    assert(rest.len() == 36);
    assert(rest.take(32) =~= tterm);
    assert(rest.subrange(32, 36) =~= spec_u32_bytes(0));
}

/// Parsing a lone terminator ends the chain with no data.
proof fn lemma_parse_term(hk: Seq<u8>, i: u64, tterm: Seq<u8>)
    requires
        tterm == spec_block_tag(hk, i, Seq::empty()),
        tterm.len() == 32,
    ensures
        spec_parse_chain(hk, tterm + spec_u32_bytes(0), i) == Some(Seq::<u8>::empty()),
{
    let b = tterm + spec_u32_bytes(0);
    lemma_u32_roundtrip(0);
    assert(b.len() == 36);
    assert(b.take(32) =~= tterm);
    assert(b.subrange(32, 36) =~= spec_u32_bytes(0));
    assert(b.subrange(36, 36) =~= Seq::<u8>::empty());
}

/// Encodes a ciphertext as the canonical authenticated chain; parsing
/// the result under the same chain key gives the ciphertext back.
#[verifier::rlimit(100)]
pub fn chain_encode(hk: &[u8], ct: &[u8]) -> (r: Vec<u8>)
    requires
        ct@.len() + BLOCK_LEN < 0x1_0000_0000_0000_0000,
    ensures
        r@ == spec_chain(hk@, ct@, 0),
        spec_parse_chain(hk@, r@, 0) == Some(ct@),
{
    let mut out: Vec<u8> = Vec::new();
    let mut pos: usize = 0;
    let mut i: u64 = 0;
    proof {
        assert(ct@.skip(0) =~= ct@);
        assert(Seq::<u8>::empty() + spec_chain(hk@, ct@, 0) =~= spec_chain(hk@, ct@, 0));
        assert forall|z: Seq<u8>|
            #[trigger] spec_parse_chain(hk@, Seq::<u8>::empty() + z, 0) == (
            match spec_parse_chain(hk@, z, 0u64) {
                Some(r) => Some(ct@.take(0) + r),
                None => None::<Seq<u8>>,
            }) by {
            assert(Seq::<u8>::empty() + z =~= z);
            match spec_parse_chain(hk@, z, 0u64) {
                Some(r) => {
                    assert(ct@.take(0) + r =~= r);
                },
                None => {},
            }
        }
    }
    while ct.len() - pos >= BLOCK_LEN
        invariant
            pos <= ct@.len(),
            ct@.len() + BLOCK_LEN < 0x1_0000_0000_0000_0000,
            pos == i * BLOCK_LEN,
            out@ + spec_chain(hk@, ct@.skip(pos as int), i) == spec_chain(hk@, ct@, 0),
            forall|z: Seq<u8>| #[trigger] spec_parse_chain(hk@, out@ + z, 0) == (
            match spec_parse_chain(hk@, z, i) {
                Some(r) => Some(ct@.take(pos as int) + r),
                None => None::<Seq<u8>>,
            }),
        decreases ct@.len() - pos,
    {
        let ghost out0 = out@;
        let ghost i0 = i;
        let ghost pos0 = pos as int;
        let data = copy_range(ct, pos, pos + BLOCK_LEN);
        let tag = block_tag(hk, i, data.as_slice());
        push_bytes(&mut out, tag.as_slice());
        push_u32_le(&mut out, BLOCK_LEN as u32);
        push_bytes(&mut out, data.as_slice());
        proof {
            assert(data@ =~= ct@.skip(pos0).take(BLOCK_LEN as int));
            assert(out@ =~= out0 + spec_block_bytes(hk@, i0, data@));
            assert(ct@.skip(pos0).skip(BLOCK_LEN as int) =~= ct@.skip(pos0 + BLOCK_LEN as int));
            assert(out@ + spec_chain(hk@, ct@.skip(pos0 + BLOCK_LEN as int), add_wrap(i0, 1))
                =~= spec_chain(hk@, ct@, 0));
            assert forall|z: Seq<u8>|
                #[trigger] spec_parse_chain(hk@, out@ + z, 0) == (match spec_parse_chain(
                    hk@,
                    z,
                    add_wrap(i0, 1),
                ) {
                    Some(r) => Some(ct@.take(pos0 + BLOCK_LEN as int) + r),
                    None => None::<Seq<u8>>,
                }) by {
                let bb = spec_block_bytes(hk@, i0, data@);
                assert(out@ + z =~= out0 + (bb + z));
                lemma_parse_block_step(hk@, i0, data@, spec_block_tag(hk@, i0, data@), z);
                match spec_parse_chain(hk@, z, add_wrap(i0, 1)) {
                    Some(r) => {
                        assert(spec_parse_chain(hk@, bb + z, i0) == Some(data@ + r));
                        assert(ct@.take(pos0) + (data@ + r) =~= ct@.take(
                            pos0 + BLOCK_LEN as int,
                        ) + r);
                    },
                    None => {},
                }
            }
        }
        pos = pos + BLOCK_LEN;
        i = i + 1;
        proof {
            assert(pos == i * BLOCK_LEN) by (nonlinear_arith)
                requires
                    pos == (i - 1) * BLOCK_LEN + BLOCK_LEN,
            ;
        }
    }
    let ghost out0 = out@;
    let ghost i0 = i;
    let ghost pos0 = pos as int;
    let rem = ct.len() - pos;
    if rem > 0 {
        let data = copy_range(ct, pos, ct.len());
        let tag = block_tag(hk, i, data.as_slice());
        let tterm = block_tag(hk, i + 1, &[]);
        push_bytes(&mut out, tag.as_slice());
        push_u32_le(&mut out, rem as u32);
        push_bytes(&mut out, data.as_slice());
        push_bytes(&mut out, tterm.as_slice());
        push_u32_le(&mut out, 0);
        proof {
            assert(data@ =~= ct@.skip(pos0));
            assert(data@.len() == rem);
            let tail = (spec_block_tag(hk@, i0, data@) + spec_u32_bytes(rem as u32) + data@) + (
            spec_block_tag(hk@, add_wrap(i0, 1), Seq::empty()) + spec_u32_bytes(0));
            assert(out@ =~= out0 + tail);
            assert(spec_chain(hk@, ct@.skip(pos0), i0) =~= tail);
            assert(out@ =~= spec_chain(hk@, ct@, 0));
            lemma_parse_partial_end(
                hk@,
                i0,
                data@,
                spec_block_tag(hk@, i0, data@),
                spec_block_tag(hk@, add_wrap(i0, 1), Seq::empty()),
            );
            assert(spec_parse_chain(hk@, out@, 0) == (match spec_parse_chain(hk@, tail, i0) {
                Some(r) => Some(ct@.take(pos0) + r),
                None => None::<Seq<u8>>,
            }));
            assert(ct@.take(pos0) + data@ =~= ct@);
        }
    } else {
        let tterm = block_tag(hk, i, &[]);
        push_bytes(&mut out, tterm.as_slice());
        push_u32_le(&mut out, 0);
        proof {
            let tail = spec_block_tag(hk@, i0, Seq::empty()) + spec_u32_bytes(0);
            assert(out@ =~= out0 + tail);
            assert(ct@.skip(pos0) =~= Seq::<u8>::empty());
            assert(spec_chain(hk@, ct@.skip(pos0), i0) =~= tail);
            assert(out@ =~= spec_chain(hk@, ct@, 0));
            lemma_parse_term(hk@, i0, spec_block_tag(hk@, i0, Seq::empty()));
            assert(spec_parse_chain(hk@, out@, 0) == (match spec_parse_chain(hk@, tail, i0) {
                Some(r) => Some(ct@.take(pos0) + r),
                None => None::<Seq<u8>>,
            }));
            assert(ct@.take(pos0) + Seq::<u8>::empty() =~= ct@);
        }
    }
    out
}

/// Parses and authenticates a chained body; `Integrity` on any
/// truncation, non-canonical block size or tag mismatch.  An accepted
/// body is exactly the canonical chain of the returned ciphertext.
#[verifier::rlimit(100)]
pub fn chain_decode(hk: &[u8], body: &[u8]) -> (r: Result<Vec<u8>, Error>)
    ensures
        match r {
            Ok(ct) => spec_parse_chain(hk@, body@, 0) == Some(ct@) && body@ == spec_chain(
                hk@,
                ct@,
                0,
            ),
            Err(e) => e == Error::Integrity && spec_parse_chain(hk@, body@, 0) is None,
        },
{
    let mut out: Vec<u8> = Vec::new();
    let mut pos: usize = 0;
    let mut i: u64 = 0;
    proof {
        assert(body@.skip(0) =~= body@);
        assert forall|rest: Seq<u8>|
            #[trigger] spec_chain(hk@, Seq::<u8>::empty() + rest, 0) == body@.take(0)
                + spec_chain(hk@, rest, 0u64) by {
            assert(Seq::<u8>::empty() + rest =~= rest);
            assert(body@.take(0) + spec_chain(hk@, rest, 0u64) =~= spec_chain(hk@, rest, 0u64));
        }
        assert(match spec_parse_chain(hk@, body@, 0u64) {
            Some(rest) => Some(Seq::<u8>::empty() + rest) == Some(rest),
            None => true,
        }) by {
            match spec_parse_chain(hk@, body@, 0u64) {
                Some(rest) => {
                    assert(Seq::<u8>::empty() + rest =~= rest);
                },
                None => {},
            }
        }
    }
    loop
        invariant
            pos <= body@.len(),
            36 * i <= pos,
            spec_parse_chain(hk@, body@, 0) == (match spec_parse_chain(
                hk@,
                body@.skip(pos as int),
                i,
            ) {
                Some(rest) => Some(out@ + rest),
                None => None::<Seq<u8>>,
            }),
            forall|rest: Seq<u8>| #[trigger] spec_chain(hk@, out@ + rest, 0) == body@.take(
                pos as int,
            ) + spec_chain(hk@, rest, i),
        decreases body@.len() - pos,
    {
        let ghost out0 = out@;
        let ghost pos0 = pos as int;
        let ghost i0 = i;
        let ghost suffix = body@.skip(pos0);
        if body.len() - pos < 36 {
            return Err(Error::Integrity);
        }
        let tag = copy_range(body, pos, pos + 32);
        let len = crate::bytes::read_u32_le(body, pos + 32) as usize;
        proof {
            assert(suffix.take(32) =~= tag@);
            assert(suffix.subrange(32, 36) =~= body@.subrange(pos0 + 32, pos0 + 36));
        }
        if len > body.len() - pos - 36 {
            proof {
                assert(36 + len as int > suffix.len());
            }
            return Err(Error::Integrity);
        }
        let data = copy_range(body, pos + 36, pos + 36 + len);
        proof {
            assert(suffix.subrange(36, 36 + len as int) =~= data@);
        }
        let expected = block_tag(hk, i, data.as_slice());
        if !bytes_eq(tag.as_slice(), expected.as_slice()) {
            return Err(Error::Integrity);
        }
        if len == 0 {
            if pos + 36 != body.len() {
                return Err(Error::Integrity);
            }
            proof {
                assert(spec_parse_chain(hk@, suffix, i0) == Some(Seq::<u8>::empty()));
                assert(out0 + Seq::<u8>::empty() =~= out0);
                let tail = spec_block_tag(hk@, i0, Seq::empty()) + spec_u32_bytes(0);
                assert(suffix =~= tail) by {
                    lemma_u32_roundtrip(0);
                    assert(suffix.take(32) == spec_block_tag(hk@, i0, Seq::empty()));
                    assert(suffix.subrange(32, 36) =~= spec_u32_bytes(
                        spec_u32_le(suffix.subrange(32, 36)),
                    )) by {
                        lemma_u32_bytes_inverse(suffix.subrange(32, 36));
                    }
                }
                assert(spec_chain(hk@, out0 + Seq::<u8>::empty(), 0) == body@.take(pos0)
                    + spec_chain(hk@, Seq::<u8>::empty(), i0));
                assert(body@.take(pos0) + suffix =~= body@);
                assert(spec_chain(hk@, out0, 0) == body@);
            }
            return Ok(out);
        }
        if len == BLOCK_LEN {
            proof {
                assert(i < u64::MAX);
            }
            crate::bytes::push_bytes(&mut out, data.as_slice());
            proof {
                assert(out@ =~= out0 + data@);
                assert(suffix.skip(36 + BLOCK_LEN as int) =~= body@.skip(
                    pos0 + 36 + BLOCK_LEN as int,
                ));
                assert forall|rest: Seq<u8>|
                    #[trigger] spec_chain(hk@, out@ + rest, 0) == body@.take(
                        pos0 + 36 + BLOCK_LEN as int,
                    ) + spec_chain(hk@, rest, add_wrap(i0, 1)) by {
                    assert(out@ + rest =~= out0 + (data@ + rest));
                    assert(spec_chain(hk@, out0 + (data@ + rest), 0) == body@.take(pos0)
                        + spec_chain(hk@, data@ + rest, i0));
                    assert((data@ + rest).take(BLOCK_LEN as int) =~= data@);
                    assert((data@ + rest).skip(BLOCK_LEN as int) =~= rest);
                    assert(spec_chain(hk@, data@ + rest, i0) == spec_block_tag(hk@, i0, data@)
                        + spec_u32_bytes(BLOCK_LEN as u32) + data@ + spec_chain(
                        hk@,
                        rest,
                        add_wrap(i0, 1),
                    ));
                    assert(body@.take(pos0) + (spec_block_tag(hk@, i0, data@) + spec_u32_bytes(
                        BLOCK_LEN as u32,
                    ) + data@) =~= body@.take(pos0 + 36 + BLOCK_LEN as int)) by {
                        lemma_u32_roundtrip(BLOCK_LEN as u32);
                        assert(suffix.subrange(32, 36) =~= spec_u32_bytes(BLOCK_LEN as u32)) by {
                            lemma_u32_bytes_inverse(suffix.subrange(32, 36));
                        }
                        assert(suffix.take(36 + BLOCK_LEN as int) =~= spec_block_tag(
                            hk@,
                            i0,
                            data@,
                        ) + spec_u32_bytes(BLOCK_LEN as u32) + data@);
                    }
                }
            }
            pos = pos + 36 + BLOCK_LEN;
            i = i + 1;
            continue;
        }
        if len > BLOCK_LEN {
            return Err(Error::Integrity);
        }
        // Final partial block: the terminator must follow immediately.
        let rest_pos = pos + 36 + len;
        if body.len() - rest_pos != 36 {
            return Err(Error::Integrity);
        }
        let ttag = copy_range(body, rest_pos, rest_pos + 32);
        let tlen = crate::bytes::read_u32_le(body, rest_pos + 32);
        proof {
            assert(i < u64::MAX);
        }
        let texpected = block_tag(hk, i + 1, &[]);
        proof {
            let rest = suffix.skip(36 + len as int);
            assert(rest =~= body@.skip(rest_pos as int));
            assert(rest.len() == 36);
            assert(rest.take(32) =~= ttag@);
            assert(rest.subrange(32, 36) =~= body@.subrange(rest_pos as int + 32, rest_pos as int
                + 36));
        }
        if !bytes_eq(ttag.as_slice(), texpected.as_slice()) || tlen != 0 {
            return Err(Error::Integrity);
        }
        crate::bytes::push_bytes(&mut out, data.as_slice());
        proof {
            assert(spec_parse_chain(hk@, suffix, i0) == Some(data@));
            assert(out@ =~= out0 + data@);
            let tail = (spec_block_tag(hk@, i0, data@) + spec_u32_bytes(len as u32) + data@) + (
            spec_block_tag(hk@, add_wrap(i0, 1), Seq::empty()) + spec_u32_bytes(0));
            assert(suffix =~= tail) by {
                lemma_u32_bytes_inverse(suffix.subrange(32, 36));
                lemma_u32_bytes_inverse(body@.subrange(rest_pos as int + 32, rest_pos as int + 36));
                lemma_u32_roundtrip(len as u32);
                lemma_u32_roundtrip(0);
            }
            assert(spec_chain(hk@, out0 + data@, 0) == body@.take(pos0) + spec_chain(
                hk@,
                data@,
                i0,
            ));
            assert(spec_chain(hk@, data@, i0) =~= tail);
            assert(body@.take(pos0) + suffix =~= body@);
            assert(spec_chain(hk@, out@, 0) == body@);
        }
        return Ok(out);
    }
}

/// A four-byte sequence is the encoding of its decoded value.
pub proof fn lemma_u32_bytes_inverse(b: Seq<u8>)
    requires
        b.len() == 4,
    ensures
        spec_u32_bytes(spec_u32_le(b)) == b,
{
    let x = spec_u32_le(b);
    let b0 = b[0];
    let b1 = b[1];
    let b2 = b[2];
    let b3 = b[3];
    assert((((b0 as u32) | ((b1 as u32) << 8) | ((b2 as u32) << 16) | ((b3 as u32) << 24)) & 0xff)
        as u8 == b0) by (bit_vector);
    assert(((((b0 as u32) | ((b1 as u32) << 8) | ((b2 as u32) << 16) | ((b3 as u32) << 24)) >> 8)
        & 0xff) as u8 == b1) by (bit_vector);
    assert(((((b0 as u32) | ((b1 as u32) << 8) | ((b2 as u32) << 16) | ((b3 as u32) << 24)) >> 16)
        & 0xff) as u8 == b2) by (bit_vector);
    assert(((((b0 as u32) | ((b1 as u32) << 8) | ((b2 as u32) << 16) | ((b3 as u32) << 24)) >> 24)
        & 0xff) as u8 == b3) by (bit_vector);
    assert(spec_u32_bytes(x) =~= b);
}

} // verus!

use crate::bytes::{lemma_xor_involution, spec_xor, xor_bytes};
use crate::cipher::{
    cbc_decrypt, cbc_encrypt, lemma_pad_unpad, lemma_unpad_pad, pad, spec_cbc_decrypt,
    spec_cbc_encrypt, spec_pad, spec_unpad, unpad,
};
use crate::crypto::{
    chacha20_keystream, chacha_stream_of, gunzip_of, gzip_compress, gzip_decompress, gzip_of,
};
use crate::header::{CipherId, Compression, Header, SpecHeader, spec_header_wf};

verus! {

/// The whole-body tag of the current layout, covering the raw header
/// bytes and the ciphertext.
pub open spec fn spec_v4_tag(hk: Seq<u8>, hraw: Seq<u8>, ct: Seq<u8>) -> Seq<u8> {
    hmac_sha256_of(hk, hraw + ct)
}

/// Splits a current-layout body into ciphertext and tag and checks the
/// tag; `None` on truncation or mismatch.
pub open spec fn spec_parse_v4(hk: Seq<u8>, hraw: Seq<u8>, b: Seq<u8>) -> Option<Seq<u8>> {
    if b.len() < 32 {
        None
    } else {
        let ct = b.take(b.len() - 32);
        if b.skip(b.len() - 32) == spec_v4_tag(hk, hraw, ct) {
            Some(ct)
        } else {
            None
        }
    }
}

/// Appends the whole-body tag; parsing the result gives the ciphertext
/// back.
pub fn v4_encode(hk: &[u8], hraw: &[u8], ct: &[u8]) -> (r: Vec<u8>)
    ensures
        r@ == ct@ + spec_v4_tag(hk@, hraw@, ct@),
        spec_parse_v4(hk@, hraw@, r@) == Some(ct@),
{
    let mut msg: Vec<u8> = Vec::new();
    push_bytes(&mut msg, hraw);
    push_bytes(&mut msg, ct);
    let tag = hmac_sha256(hk, msg.as_slice());
    let mut out: Vec<u8> = Vec::new();
    push_bytes(&mut out, ct);
    push_bytes(&mut out, tag.as_slice());
    proof {
        assert(msg@ =~= hraw@ + ct@);
        assert(out@ =~= ct@ + spec_v4_tag(hk@, hraw@, ct@));
        assert(out@.take(out@.len() - 32) =~= ct@);
        assert(out@.skip(out@.len() - 32) =~= spec_v4_tag(hk@, hraw@, ct@));
    }
    out
}

/// Checks the whole-body tag and returns the ciphertext; an accepted
/// body is exactly the ciphertext followed by its tag.
pub fn v4_decode(hk: &[u8], hraw: &[u8], body: &[u8]) -> (r: Result<Vec<u8>, Error>)
    ensures
        match r {
            Ok(ct) => spec_parse_v4(hk@, hraw@, body@) == Some(ct@) && body@ == ct@ + spec_v4_tag(
                hk@,
                hraw@,
                ct@,
            ),
            Err(e) => e == Error::Integrity && spec_parse_v4(hk@, hraw@, body@) is None,
        },
{
    if body.len() < 32 {
        return Err(Error::Integrity);
    }
    let ct = copy_range(body, 0, body.len() - 32);
    let tag = copy_range(body, body.len() - 32, body.len());
    let mut msg: Vec<u8> = Vec::new();
    push_bytes(&mut msg, hraw);
    push_bytes(&mut msg, ct.as_slice());
    let expected = hmac_sha256(hk, msg.as_slice());
    proof {
        assert(msg@ =~= hraw@ + ct@);
        assert(ct@ =~= body@.take(body@.len() - 32));
        assert(tag@ =~= body@.skip(body@.len() - 32));
    }
    if !bytes_eq(tag.as_slice(), expected.as_slice()) {
        return Err(Error::Integrity);
    }
    proof {
        assert(body@ =~= ct@ + spec_v4_tag(hk@, hraw@, ct@));
    }
    Ok(ct)
}

/// The encrypted, authenticated encoding of a plaintext body: compress
/// if the header says so, encrypt under the header's cipher, then
/// authenticate in the header's layout.
pub open spec fn spec_encrypt_body(
    h: SpecHeader,
    hraw: Seq<u8>,
    pt: Seq<u8>,
    ck: Seq<u8>,
    hk: Seq<u8>,
) -> Seq<u8> {
    let pt1 = match h.compression {
        Compression::Plain => pt,
        Compression::Gzip => gzip_of(pt),
    };
    let ct = match h.cipher {
        CipherId::Aes256 => spec_cbc_encrypt(ck, h.iv, spec_pad(pt1)),
        CipherId::ChaCha20 => spec_xor(pt1, chacha_stream_of(ck, h.iv, pt1.len())),
    };
    if h.version_major == 3 {
        spec_chain(hk, ct, 0)
    } else {
        ct + spec_v4_tag(hk, hraw, ct)
    }
}

/// What decrypting a body yields: `Integrity` when authentication
/// fails, `Cipher` when the authenticated ciphertext cannot be a valid
/// encryption (wrong block alignment, malformed padding, oversize, or a
/// compressed payload that does not inflate), and the plaintext
/// otherwise.
pub open spec fn spec_decrypt_body(
    h: SpecHeader,
    hraw: Seq<u8>,
    body: Seq<u8>,
    ck: Seq<u8>,
    hk: Seq<u8>,
) -> Result<Seq<u8>, Error> {
    let ct_opt = if h.version_major == 3 {
        spec_parse_chain(hk, body, 0)
    } else {
        spec_parse_v4(hk, hraw, body)
    };
    match ct_opt {
        None => Err(Error::Integrity),
        Some(ct) => {
            if ct.len() > 0xffff_ffff {
                Err(Error::Cipher)
            } else {
                let pt0: Result<Seq<u8>, Error> = match h.cipher {
                    CipherId::Aes256 => {
                        if ct.len() > 0 && ct.len() % 16 == 0 {
                            match spec_unpad(spec_cbc_decrypt(ck, h.iv, ct)) {
                                Some(p) => Ok(p),
                                None => Err(Error::Cipher),
                            }
                        } else {
                            Err(Error::Cipher)
                        }
                    },
                    CipherId::ChaCha20 => Ok(spec_xor(ct, chacha_stream_of(ck, h.iv, ct.len()))),
                };
                match pt0 {
                    Ok(p) => match h.compression {
                        Compression::Plain => Ok(p),
                        Compression::Gzip => match gunzip_of(p) {
                            Some(x) => Ok(x),
                            None => Err(Error::Cipher),
                        },
                    },
                    Err(e) => Err(e),
                }
            }
        },
    }
}

/// Authenticates and decrypts a body.  The result, error case by error
/// case, is exactly `spec_decrypt_body`; and re-encrypting an accepted
/// uncompressed plaintext under the same keys reproduces the body byte
/// for byte.
pub fn decrypt_body(h: &Header, hraw: &[u8], body: &[u8], ck: &[u8], hk: &[u8]) -> (r: Result<
    Vec<u8>,
    Error,
>)
    requires
        spec_header_wf(h@),
        ck@.len() == 32,
    ensures
        match r {
            Ok(pt) => spec_decrypt_body(h@, hraw@, body@, ck@, hk@) == Ok::<_, Error>(pt@),
            Err(e) => spec_decrypt_body(h@, hraw@, body@, ck@, hk@) == Err::<Seq<u8>, _>(e),
        },
        h@.compression is Plain ==> (r matches Ok(pt) ==> spec_encrypt_body(
            h@,
            hraw@,
            pt@,
            ck@,
            hk@,
        ) == body@),
{
    let ct = if h.version_major == 3 {
        match chain_decode(hk, body) {
            Ok(ct) => ct,
            Err(e) => {
                return Err(e);
            },
        }
    } else {
        match v4_decode(hk, hraw, body) {
            Ok(ct) => ct,
            Err(e) => {
                return Err(e);
            },
        }
    };
    if ct.len() > 0xffff_ffff {
        return Err(Error::Cipher);
    }
    let pt1 = match h.cipher {
        CipherId::Aes256 => {
            if ct.len() == 0 || ct.len() % 16 != 0 {
                return Err(Error::Cipher);
            }
            let padded = cbc_decrypt(ck, h.iv.as_slice(), ct.as_slice());
            match unpad(padded.as_slice()) {
                Some(p) => {
                    proof {
                        lemma_unpad_pad(padded@);
                    }
                    p
                },
                None => {
                    return Err(Error::Cipher);
                },
            }
        },
        CipherId::ChaCha20 => {
            let ks = chacha20_keystream(ck, h.iv.as_slice(), ct.len());
            let p = xor_bytes(ct.as_slice(), ks.as_slice());
            proof {
                lemma_xor_involution(ct@, ks@);
            }
            p
        },
    };
    match h.compression {
        Compression::Plain => Ok(pt1),
        Compression::Gzip => match gzip_decompress(pt1.as_slice()) {
            Some(x) => Ok(x),
            None => Err(Error::Cipher),
        },
    }
}

/// Compresses, encrypts and authenticates a plaintext body.  An
/// accepted result is exactly `spec_encrypt_body`, and decrypting it
/// under the same keys gives the plaintext back.  Only an oversize body
/// can fail, so success is owed whenever what goes to the cipher fits
/// its bound.
pub fn encrypt_body(h: &Header, hraw: &[u8], pt: &[u8], ck: &[u8], hk: &[u8]) -> (r: Result<
    Vec<u8>,
    Error,
>)
    requires
        spec_header_wf(h@),
        ck@.len() == 32,
    ensures
        match r {
            Ok(v) => v@ == spec_encrypt_body(h@, hraw@, pt@, ck@, hk@) && spec_decrypt_body(
                h@,
                hraw@,
                v@,
                ck@,
                hk@,
            ) == Ok::<_, Error>(pt@),
            Err(e) => e == Error::Cipher,
        },
        (match h@.compression {
            Compression::Plain => pt@.len() <= 0xff00_0000,
            Compression::Gzip => gzip_of(pt@).len() <= 0xff00_0000,
        }) ==> r is Ok,
{
    let pt1: Vec<u8> = match h.compression {
        Compression::Plain => {
            let c = copy_range(pt, 0, pt.len());
            proof {
                assert(c@ =~= pt@);
            }
            c
        },
        Compression::Gzip => gzip_compress(pt),
    };
    if pt1.len() > 0xff00_0000 {
        return Err(Error::Cipher);
    }
    let ct: Vec<u8> = match h.cipher {
        CipherId::Aes256 => {
            let padded = pad(pt1.as_slice());
            proof {
                lemma_pad_unpad(pt1@);
            }
            cbc_encrypt(ck, h.iv.as_slice(), padded.as_slice())
        },
        CipherId::ChaCha20 => {
            let ks = chacha20_keystream(ck, h.iv.as_slice(), pt1.len());
            let c = xor_bytes(pt1.as_slice(), ks.as_slice());
            proof {
                lemma_xor_involution(pt1@, ks@);
                assert(spec_xor(spec_xor(pt1@, ks@), ks@) == pt1@);
            }
            c
        },
    };
    let out = if h.version_major == 3 {
        chain_encode(hk, ct.as_slice())
    } else {
        v4_encode(hk, hraw, ct.as_slice())
    };
    proof {
        if h@.compression is Gzip {
            assert(gunzip_of(pt1@) == Some(pt@));
        }
    }
    Ok(out)
}

} // verus!
