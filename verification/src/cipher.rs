//! AES-256 in cipher-block-chaining mode with PKCS#7 padding, built as
//! verified logic over the trusted single-block primitives.  Each
//! direction's contract also states that the other direction undoes it,
//! which is what the body round-trip law rests on.

use vstd::prelude::*;

use crate::bytes::{lemma_xor_involution, spec_xor, xor_bytes};
use crate::crypto::{aes256_decrypt_block, aes256_encrypt_block, aes_dec_block, aes_enc_block};

verus! {

/// A byte sequence split into 16-byte blocks.
pub open spec fn spec_blocks16(b: Seq<u8>) -> Seq<Seq<u8>>
    recommends
        b.len() % 16 == 0,
    decreases b.len(),
{
    if b.len() < 16 {
        Seq::empty()
    } else {
        seq![b.take(16)] + spec_blocks16(b.skip(16))
    }
}

/// Flattening the blocks of a block-aligned sequence gives it back.
pub proof fn lemma_flatten_blocks16(b: Seq<u8>)
    requires
        b.len() % 16 == 0,
    ensures
        spec_blocks16(b).flatten() == b,
        spec_blocks16(b).len() == b.len() / 16,
    decreases b.len(),
{
    if b.len() < 16 {
        assert(b.len() == 0);
        assert(spec_blocks16(b).flatten() =~= b);
    } else {
        assert(b.skip(16).len() % 16 == 0);
        lemma_flatten_blocks16(b.skip(16));
        let bs = spec_blocks16(b);
        assert(bs.first() == b.take(16));
        assert(bs.drop_first() =~= spec_blocks16(b.skip(16)));
        assert(bs.flatten() == b.take(16) + spec_blocks16(b.skip(16)).flatten());
        assert(bs.flatten() =~= b);
    }
}

/// Splitting a flat sequence of 16-byte blocks gives the blocks back.
pub proof fn lemma_blocks16_flatten(bs: Seq<Seq<u8>>)
    requires
        forall|j: int| 0 <= j < bs.len() ==> (#[trigger] bs[j]).len() == 16,
    ensures
        bs.flatten().len() == 16 * bs.len(),
        spec_blocks16(bs.flatten()) == bs,
    decreases bs.len(),
{
    if bs.len() == 0 {
        assert(spec_blocks16(bs.flatten()) =~= bs);
    } else {
        assert(forall|j: int|
            0 <= j < bs.drop_first().len() ==> (#[trigger] bs.drop_first()[j]).len() == 16);
        lemma_blocks16_flatten(bs.drop_first());
        let flat = bs.flatten();
        assert(flat == bs[0] + bs.drop_first().flatten());
        assert(flat.len() == 16 * bs.len());
        assert(flat.take(16) =~= bs[0]);
        assert(flat.skip(16) =~= bs.drop_first().flatten());
        assert(spec_blocks16(flat) =~= bs);
    }
}

/// Cipher-block chaining over 16-byte blocks: each plaintext block is
/// masked with the previous ciphertext block (or the IV) and encrypted.
pub open spec fn spec_cbc_enc_blocks(key: Seq<u8>, prev: Seq<u8>, pts: Seq<Seq<u8>>) -> Seq<
    Seq<u8>,
>
    decreases pts.len(),
{
    if pts.len() == 0 {
        Seq::empty()
    } else {
        let c0 = aes_enc_block(key, spec_xor(pts[0], prev));
        seq![c0] + spec_cbc_enc_blocks(key, c0, pts.drop_first())
    }
}

/// The inverse chaining: each ciphertext block is decrypted and unmasked
/// with the previous ciphertext block (or the IV).
pub open spec fn spec_cbc_dec_blocks(key: Seq<u8>, prev: Seq<u8>, cts: Seq<Seq<u8>>) -> Seq<
    Seq<u8>,
>
    decreases cts.len(),
{
    if cts.len() == 0 {
        Seq::empty()
    } else {
        seq![spec_xor(aes_dec_block(key, cts[0]), prev)] + spec_cbc_dec_blocks(
            key,
            cts[0],
            cts.drop_first(),
        )
    }
}

/// The ciphertext of a block-aligned plaintext under AES-256-CBC.
pub open spec fn spec_cbc_encrypt(key: Seq<u8>, iv: Seq<u8>, pt: Seq<u8>) -> Seq<u8> {
    spec_cbc_enc_blocks(key, iv, spec_blocks16(pt)).flatten()
}

/// The plaintext of a block-aligned ciphertext under AES-256-CBC.
pub open spec fn spec_cbc_decrypt(key: Seq<u8>, iv: Seq<u8>, ct: Seq<u8>) -> Seq<u8> {
    spec_cbc_dec_blocks(key, iv, spec_blocks16(ct)).flatten()
}

/// Chaining one more ciphertext block decrypts it against the last block
/// before it.
pub proof fn lemma_cbc_dec_blocks_snoc(key: Seq<u8>, prev: Seq<u8>, cts: Seq<Seq<u8>>, blk: Seq<
    u8,
>)
    ensures
        spec_cbc_dec_blocks(key, prev, cts.push(blk)) == spec_cbc_dec_blocks(
            key,
            prev,
            cts,
        ).push(
            spec_xor(
                aes_dec_block(key, blk),
                if cts.len() == 0 {
                    prev
                } else {
                    cts.last()
                },
            ),
        ),
    decreases cts.len(),
{
    if cts.len() == 0 {
        reveal_with_fuel(spec_cbc_dec_blocks, 3);
        assert(cts.push(blk)[0] == blk);
        assert(cts.push(blk).drop_first() =~= Seq::<Seq<u8>>::empty());
        assert(spec_cbc_dec_blocks(key, blk, Seq::<Seq<u8>>::empty()) =~= Seq::<Seq<u8>>::empty());
        assert(spec_cbc_dec_blocks(key, prev, cts.push(blk)) =~= spec_cbc_dec_blocks(
            key,
            prev,
            cts,
        ).push(spec_xor(aes_dec_block(key, blk), prev)));
    } else {
        reveal_with_fuel(spec_cbc_dec_blocks, 3);
        assert(cts.push(blk)[0] == cts[0]);
        assert(cts.push(blk).drop_first() =~= cts.drop_first().push(blk));
        lemma_cbc_dec_blocks_snoc(key, cts[0], cts.drop_first(), blk);
        let prior = if cts.drop_first().len() == 0 {
            cts[0]
        } else {
            cts.drop_first().last()
        };
        assert(prior == cts.last());
        assert(spec_cbc_dec_blocks(key, prev, cts.push(blk)) =~= spec_cbc_dec_blocks(
            key,
            prev,
            cts,
        ).push(spec_xor(aes_dec_block(key, blk), cts.last())));
    }
}

/// The chain of ciphertext blocks has one entry per plaintext block.
pub proof fn lemma_cbc_enc_blocks_len(key: Seq<u8>, prev: Seq<u8>, pts: Seq<Seq<u8>>)
    ensures
        spec_cbc_enc_blocks(key, prev, pts).len() == pts.len(),
    decreases pts.len(),
{
    if pts.len() > 0 {
        let c0 = aes_enc_block(key, spec_xor(pts[0], prev));
        lemma_cbc_enc_blocks_len(key, c0, pts.drop_first());
    }
}

/// Chaining one more plaintext block encrypts it against the last
/// ciphertext block produced so far.
pub proof fn lemma_cbc_enc_blocks_snoc(key: Seq<u8>, prev: Seq<u8>, pts: Seq<Seq<u8>>, blk: Seq<
    u8,
>)
    ensures
        ({
            let cts = spec_cbc_enc_blocks(key, prev, pts);
            spec_cbc_enc_blocks(key, prev, pts.push(blk)) == cts.push(
                aes_enc_block(
                    key,
                    spec_xor(
                        blk,
                        if cts.len() == 0 {
                            prev
                        } else {
                            cts.last()
                        },
                    ),
                ),
            )
        }),
    decreases pts.len(),
{
    lemma_cbc_enc_blocks_len(key, prev, pts);
    if pts.len() == 0 {
        reveal_with_fuel(spec_cbc_enc_blocks, 3);
        assert(pts.push(blk)[0] == blk);
        assert(pts.push(blk).drop_first() =~= Seq::<Seq<u8>>::empty());
        assert(spec_cbc_enc_blocks(
            key,
            aes_enc_block(key, spec_xor(blk, prev)),
            Seq::<Seq<u8>>::empty(),
        ) =~= Seq::<Seq<u8>>::empty());
        assert(spec_cbc_enc_blocks(key, prev, pts.push(blk)) =~= spec_cbc_enc_blocks(
            key,
            prev,
            pts,
        ).push(aes_enc_block(key, spec_xor(blk, prev))));
    } else {
        reveal_with_fuel(spec_cbc_enc_blocks, 3);
        assert(pts.push(blk)[0] == pts[0]);
        assert(pts.push(blk).drop_first() =~= pts.drop_first().push(blk));
        let c0 = aes_enc_block(key, spec_xor(pts[0], prev));
        lemma_cbc_enc_blocks_snoc(key, c0, pts.drop_first(), blk);
        let cts = spec_cbc_enc_blocks(key, prev, pts);
        let rest = spec_cbc_enc_blocks(key, c0, pts.drop_first());
        lemma_cbc_enc_blocks_len(key, c0, pts.drop_first());
        assert(cts == seq![c0] + rest);
        if rest.len() == 0 {
            assert(cts.last() == c0);
        } else {
            assert(cts.last() == rest.last());
        }
        assert(spec_cbc_enc_blocks(key, prev, pts.push(blk)) =~= cts.push(
            aes_enc_block(
                key,
                spec_xor(
                    blk,
                    if cts.len() == 0 {
                        prev
                    } else {
                        cts.last()
                    },
                ),
            ),
        ));
    }
}

/// Encrypts a block-aligned plaintext with AES-256-CBC.  Decrypting the
/// result with the same key and IV gives the plaintext back.
pub fn cbc_encrypt(key: &[u8], iv: &[u8], pt: &[u8]) -> (r: Vec<u8>)
    requires
        key@.len() == 32,
        iv@.len() == 16,
        pt@.len() % 16 == 0,
    ensures
        r@ == spec_cbc_encrypt(key@, iv@, pt@),
        spec_cbc_decrypt(key@, iv@, r@) == pt@,
        r@.len() == pt@.len(),
{
    broadcast use vstd::prelude::Seq::lemma_flatten_push;

    let mut out: Vec<u8> = Vec::new();
    let mut prev: Vec<u8> = crate::bytes::copy_range(iv, 0, 16);
    let mut i: usize = 0;
    let ghost pts = spec_blocks16(pt@);
    let ghost n = pt@.len() / 16;
    let ghost done: Seq<Seq<u8>> = Seq::empty();
    let mut done_enc: Ghost<Seq<Seq<u8>>> = Ghost(Seq::empty());
    let mut done_pt: Ghost<Seq<Seq<u8>>> = Ghost(Seq::empty());
    proof {
        lemma_flatten_blocks16(pt@);
        assert(done_pt@ =~= pts.take(0));
        assert(Seq::<Seq<u8>>::empty().flatten() =~= Seq::<u8>::empty());
    }
    while i < pt.len() / 16
        invariant
            key@.len() == 32,
            iv@.len() == 16,
            pt@.len() % 16 == 0,
            pts == spec_blocks16(pt@),
            pts.flatten() == pt@,
            pts.len() == pt@.len() / 16,
            0 <= i <= pt@.len() / 16,
            prev@.len() == 16,
            prev@ == if i == 0 {
                iv@
            } else {
                done_enc@.last()
            },
            done_pt@ =~= pts.take(i as int),
            done_enc@ == spec_cbc_enc_blocks(key@, iv@, done_pt@),
            done_enc@.len() == i,
            forall|j: int| 0 <= j < i ==> (#[trigger] done_enc@[j]).len() == 16,
            spec_cbc_dec_blocks(key@, iv@, done_enc@) == done_pt@,
            out@ == done_enc@.flatten(),
            out@.len() == 16 * i,
        decreases pt@.len() / 16 - i,
    {
        let blk = crate::bytes::copy_range(pt, 16 * i, 16 * i + 16);
        proof {
            assert(pts.skip(i as int)[0] =~= blk@) by {
                assert(pts[i as int] == pt@.skip(16 * i as int).take(16)) by {
                    lemma_blocks16_index(pt@, i as int);
                }
                assert(pt@.skip(16 * i as int).take(16) =~= pt@.subrange(
                    16 * i as int,
                    16 * i as int + 16,
                ));
            }
        }
        let masked = xor_bytes(blk.as_slice(), prev.as_slice());
        let ct = aes256_encrypt_block(key, masked.as_slice());
        proof {
            lemma_cbc_enc_blocks_snoc(key@, iv@, done_pt@, blk@);
            assert(done_pt@.push(blk@) =~= pts.take(i as int + 1));
            lemma_cbc_dec_blocks_snoc(key@, iv@, done_enc@, ct@);
            lemma_xor_involution(blk@, prev@);
            assert(aes_dec_block(key@, ct@) == masked@);
            assert(spec_xor(masked@, prev@) =~= blk@);
        }
        crate::bytes::push_bytes(&mut out, ct.as_slice());
        proof {
            let de_old = done_enc@;
            done_enc@ = done_enc@.push(ct@);
            done_pt@ = done_pt@.push(blk@);
            de_old.lemma_flatten_push(ct@);
            assert(done_enc@.flatten() == de_old.flatten() + ct@);
        }
        prev = ct;
        i = i + 1;
    }
    proof {
        assert(done_pt@ =~= pts);
        assert(spec_cbc_enc_blocks(key@, iv@, pts) == done_enc@);
        lemma_blocks16_flatten(done_enc@);
        assert(spec_blocks16(out@) == done_enc@);
    }
    out
}

/// The blocks of a block-aligned sequence, element-wise.
pub proof fn lemma_blocks16_index(b: Seq<u8>, i: int)
    requires
        b.len() % 16 == 0,
        0 <= i < b.len() / 16,
    ensures
        spec_blocks16(b)[i] == b.skip(16 * i).take(16),
        spec_blocks16(b).len() == b.len() / 16,
    decreases i,
{
    lemma_flatten_blocks16(b);
    if i == 0 {
        assert(spec_blocks16(b)[0] == b.take(16));
        assert(b.skip(0) =~= b);
    } else {
        assert(b.skip(16).len() % 16 == 0);
        lemma_blocks16_index(b.skip(16), i - 1);
        assert(spec_blocks16(b)[i] == spec_blocks16(b.skip(16))[i - 1]);
        assert(b.skip(16).skip(16 * (i - 1)) =~= b.skip(16 * i));
    }
}

/// Decrypts a block-aligned ciphertext with AES-256-CBC.  Encrypting the
/// result with the same key and IV gives the ciphertext back.
pub fn cbc_decrypt(key: &[u8], iv: &[u8], ct: &[u8]) -> (r: Vec<u8>)
    requires
        key@.len() == 32,
        iv@.len() == 16,
        ct@.len() % 16 == 0,
    ensures
        r@ == spec_cbc_decrypt(key@, iv@, ct@),
        spec_cbc_encrypt(key@, iv@, r@) == ct@,
        r@.len() == ct@.len(),
{
    broadcast use vstd::prelude::Seq::lemma_flatten_push;

    let mut out: Vec<u8> = Vec::new();
    let mut prev: Vec<u8> = crate::bytes::copy_range(iv, 0, 16);
    let mut i: usize = 0;
    let ghost cts = spec_blocks16(ct@);
    let mut done_dec: Ghost<Seq<Seq<u8>>> = Ghost(Seq::empty());
    let mut done_ct: Ghost<Seq<Seq<u8>>> = Ghost(Seq::empty());
    proof {
        lemma_flatten_blocks16(ct@);
        assert(done_ct@ =~= cts.take(0));
        assert(Seq::<Seq<u8>>::empty().flatten() =~= Seq::<u8>::empty());
    }
    while i < ct.len() / 16
        invariant
            key@.len() == 32,
            iv@.len() == 16,
            ct@.len() % 16 == 0,
            cts == spec_blocks16(ct@),
            cts.flatten() == ct@,
            cts.len() == ct@.len() / 16,
            0 <= i <= ct@.len() / 16,
            prev@.len() == 16,
            prev@ == if i == 0 {
                iv@
            } else {
                done_ct@.last()
            },
            done_ct@ =~= cts.take(i as int),
            done_dec@ == spec_cbc_dec_blocks(key@, iv@, done_ct@),
            done_dec@.len() == i,
            forall|j: int| 0 <= j < i ==> (#[trigger] done_dec@[j]).len() == 16,
            spec_cbc_enc_blocks(key@, iv@, done_dec@) == done_ct@,
            out@ == done_dec@.flatten(),
            out@.len() == 16 * i,
        decreases ct@.len() / 16 - i,
    {
        let blk = crate::bytes::copy_range(ct, 16 * i, 16 * i + 16);
        proof {
            assert(cts.skip(i as int)[0] =~= blk@) by {
                assert(cts[i as int] == ct@.skip(16 * i as int).take(16)) by {
                    lemma_blocks16_index(ct@, i as int);
                }
                assert(ct@.skip(16 * i as int).take(16) =~= ct@.subrange(
                    16 * i as int,
                    16 * i as int + 16,
                ));
            }
        }
        let unmasked = aes256_decrypt_block(key, blk.as_slice());
        let ptb = xor_bytes(unmasked.as_slice(), prev.as_slice());
        proof {
            lemma_cbc_dec_blocks_snoc(key@, iv@, done_ct@, blk@);
            assert(done_ct@.push(blk@) =~= cts.take(i as int + 1));
            lemma_cbc_enc_blocks_snoc(key@, iv@, done_dec@, ptb@);
            lemma_cbc_enc_blocks_len(key@, iv@, done_dec@);
            lemma_xor_involution(unmasked@, prev@);
            assert(spec_xor(ptb@, prev@) =~= unmasked@);
            assert(aes_enc_block(key@, unmasked@) == blk@);
        }
        crate::bytes::push_bytes(&mut out, ptb.as_slice());
        proof {
            let dd_old = done_dec@;
            done_dec@ = done_dec@.push(ptb@);
            done_ct@ = done_ct@.push(blk@);
            dd_old.lemma_flatten_push(ptb@);
            assert(done_dec@.flatten() == dd_old.flatten() + ptb@);
        }
        prev = blk;
        i = i + 1;
    }
    proof {
        assert(done_ct@ =~= cts);
        assert(spec_cbc_dec_blocks(key@, iv@, cts) == done_dec@);
        lemma_blocks16_flatten(done_dec@);
        assert(spec_blocks16(out@) == done_dec@);
    }
    out
}

/// PKCS#7 padding: between 1 and 16 bytes, each holding the pad length.
pub open spec fn spec_pad(pt: Seq<u8>) -> Seq<u8> {
    let k = 16 - (pt.len() % 16);
    pt + Seq::new(k as nat, |i: int| k as u8)
}

/// PKCS#7 unpadding; `None` when the tail is not a well-formed pad.
pub open spec fn spec_unpad(b: Seq<u8>) -> Option<Seq<u8>> {
    if b.len() == 0 || b.len() % 16 != 0 {
        None
    } else {
        let k = b.last() as int;
        if 1 <= k <= 16 && k <= b.len() && (forall|i: int|
            b.len() - k <= i < b.len() ==> b[i] == b.last()) {
            Some(b.take(b.len() - k))
        } else {
            None
        }
    }
}

/// Unpadding undoes padding.
pub proof fn lemma_pad_unpad(pt: Seq<u8>)
    ensures
        spec_pad(pt).len() == pt.len() + 16 - (pt.len() % 16),
        spec_pad(pt).len() % 16 == 0,
        spec_unpad(spec_pad(pt)) == Some(pt),
{
    let k = 16 - (pt.len() % 16);
    let b = spec_pad(pt);
    assert(b.len() == pt.len() + k);
    assert(b.len() % 16 == 0) by (nonlinear_arith)
        requires
            k == 16 - (pt.len() % 16),
            b.len() == pt.len() + k,
    ;
    assert(b.last() == k as u8);
    assert(forall|i: int| b.len() - k <= i < b.len() ==> b[i] == b.last());
    assert(b.take(b.len() - k) =~= pt);
}

/// A sequence that unpads successfully is exactly the pad of its
/// content: the pad is canonical.
pub proof fn lemma_unpad_pad(b: Seq<u8>)
    ensures
        spec_unpad(b) matches Some(pt) ==> spec_pad(pt) == b,
{
    if spec_unpad(b) is Some {
        let k = b.last() as int;
        let pt = b.take(b.len() - k);
        assert(pt.len() == b.len() - k);
        assert(pt.len() % 16 == (16 - k) % 16) by (nonlinear_arith)
            requires
                b.len() % 16 == 0,
                1 <= k <= 16,
                pt.len() == b.len() - k,
        ;
        if k == 16 {
            assert(pt.len() % 16 == 0);
        } else {
            assert((16 - k) % 16 == 16 - k);
        }
        assert(16 - (pt.len() % 16) == k);
        assert(spec_pad(pt) =~= b);
    }
}

/// Appends a PKCS#7 pad.
pub fn pad(pt: &[u8]) -> (r: Vec<u8>)
    ensures
        r@ == spec_pad(pt@),
        r@.len() % 16 == 0,
        r@.len() == pt@.len() + 16 - (pt@.len() % 16),
{
    proof {
        lemma_pad_unpad(pt@);
    }
    let k: usize = 16 - (pt.len() % 16);
    let mut out = crate::bytes::copy_range(pt, 0, pt.len());
    let mut i: usize = 0;
    while i < k
        invariant
            1 <= k <= 16,
            k == 16 - (pt@.len() % 16),
            i <= k,
            out@ == pt@ + Seq::new(i as nat, |j: int| k as u8),
        decreases k - i,
    {
        out.push(k as u8);
        i = i + 1;
        assert(out@ =~= pt@ + Seq::new(i as nat, |j: int| k as u8));
    }
    assert(out@ =~= spec_pad(pt@));
    out
}

/// Strips a PKCS#7 pad, if the tail holds one.
pub fn unpad(b: &[u8]) -> (r: Option<Vec<u8>>)
    ensures
        match r {
            Some(v) => spec_unpad(b@) == Some(v@),
            None => spec_unpad(b@) is None,
        },
{
    if b.len() == 0 || b.len() % 16 != 0 {
        return None;
    }
    let k = b[b.len() - 1] as usize;
    if k < 1 || k > 16 || k > b.len() {
        return None;
    }
    let mut i: usize = b.len() - k;
    while i < b.len()
        invariant
            b@.len() >= k,
            b@.len() % 16 == 0,
            b@.len() > 0,
            1 <= k <= 16,
            k == b@.last() as usize,
            i <= b@.len(),
            b@.len() - k <= i,
            forall|j: int| b@.len() - k <= j < i ==> b@[j] == b@.last(),
        decreases b.len() - i,
    {
        if b[i] != b[b.len() - 1] {
            proof {
                assert(spec_unpad(b@) is None) by {
                    let kk = b@.last() as int;
                    assert(kk == k);
                    assert(b@.len() - kk <= i < b@.len());
                    assert(b@[i as int] != b@.last());
                }
            }
            return None;
        }
        i = i + 1;
    }
    Some(crate::bytes::copy_range(b, 0, b.len() - k))
}

} // verus!
