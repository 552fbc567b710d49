//! The decrypted body's inner document: an inner header carrying the
//! stream key for protected fields, followed by the group/entry tree in
//! a binary record layout.  Protected field values are masked with one
//! sequential keystream in document order, each field consuming the next
//! segment.

use vstd::prelude::*;

use crate::bytes::{
    copy_range, push_bytes, push_u32_le, push_u128_le, read_u32_le, read_u128_le,
    lemma_u32_roundtrip, lemma_u128_roundtrip, spec_u32_bytes, spec_u32_le, spec_u128_bytes,
    spec_u128_le, spec_xor, xor_bytes,
};
use crate::error::Error;
use crate::model::{
    lemma_nodes_view, node_view, nodes_view, Entry, Field, Group, Node, SpecEntry, SpecField,
    SpecGroup, SpecNode, Uuid,
};

verus! {

/// The code of the inner stream cipher; only ChaCha20 is spoken.
pub const INNER_CIPHER_CHACHA20: u32 = 2;

/// How many protected bytes a node's subtree holds, in document order.
pub open spec fn spec_prot_len(n: SpecNode) -> nat
    decreases n,
{
    match n {
        SpecNode::Group(g) => spec_prot_len_list(g.children),
        SpecNode::Entry(e) => spec_prot_len_fields(e.fields),
    }
}

pub open spec fn spec_prot_len_list(cs: Seq<SpecNode>) -> nat
    decreases cs,
{
    if cs.len() == 0 {
        0
    } else {
        spec_prot_len(cs[0]) + spec_prot_len_list(cs.drop_first())
    }
}

pub open spec fn spec_prot_len_fields(fs: Seq<SpecField>) -> nat
    decreases fs,
{
    if fs.len() == 0 {
        0
    } else {
        (if fs[0].protected {
            fs[0].value.len()
        } else {
            0
        }) + spec_prot_len_fields(fs.drop_first())
    }
}

/// Masks every protected value in the subtree with the keystream
/// segment at its running offset, in document order.
pub open spec fn spec_apply_node(n: SpecNode, ks: Seq<u8>, off: nat) -> SpecNode
    decreases n,
{
    match n {
        SpecNode::Group(g) => SpecNode::Group(
            SpecGroup { uuid: g.uuid, name: g.name, children: spec_apply_list(g.children, ks, off) },
        ),
        SpecNode::Entry(e) => SpecNode::Entry(
            SpecEntry { uuid: e.uuid, fields: spec_apply_fields(e.fields, ks, off) },
        ),
    }
}

pub open spec fn spec_apply_list(cs: Seq<SpecNode>, ks: Seq<u8>, off: nat) -> Seq<SpecNode>
    decreases cs,
{
    if cs.len() == 0 {
        cs
    } else {
        seq![spec_apply_node(cs[0], ks, off)] + spec_apply_list(
            cs.drop_first(),
            ks,
            off + spec_prot_len(cs[0]),
        )
    }
}

pub open spec fn spec_apply_fields(fs: Seq<SpecField>, ks: Seq<u8>, off: nat) -> Seq<SpecField>
    decreases fs,
{
    if fs.len() == 0 {
        fs
    } else {
        let f = fs[0];
        let f2 = if f.protected {
            SpecField {
                name: f.name,
                protected: true,
                value: spec_xor(f.value, ks.subrange(off as int, off as int + f.value.len() as int)),
            }
        } else {
            f
        };
        seq![f2] + spec_apply_fields(
            fs.drop_first(),
            ks,
            off + if f.protected {
                f.value.len()
            } else {
                0
            },
        )
    }
}

/// Masking keeps every length, name, flag and identifier: only
/// protected values change, so the protected byte count is unchanged.
pub proof fn lemma_apply_prot_len(n: SpecNode, ks: Seq<u8>, off: nat)
    ensures
        spec_prot_len(spec_apply_node(n, ks, off)) == spec_prot_len(n),
    decreases n,
{
    match n {
        SpecNode::Group(g) => {
            lemma_apply_prot_len_list(g.children, ks, off);
        },
        SpecNode::Entry(e) => {
            lemma_apply_prot_len_fields(e.fields, ks, off);
        },
    }
}

pub proof fn lemma_apply_prot_len_list(cs: Seq<SpecNode>, ks: Seq<u8>, off: nat)
    ensures
        spec_prot_len_list(spec_apply_list(cs, ks, off)) == spec_prot_len_list(cs),
    decreases cs,
{
    if cs.len() > 0 {
        lemma_apply_prot_len(cs[0], ks, off);
        lemma_apply_prot_len_list(cs.drop_first(), ks, off + spec_prot_len(cs[0]));
        let out = spec_apply_list(cs, ks, off);
        assert(out[0] == spec_apply_node(cs[0], ks, off));
        assert(out.drop_first() =~= spec_apply_list(cs.drop_first(), ks, off + spec_prot_len(
            cs[0],
        )));
    }
}

pub proof fn lemma_apply_prot_len_fields(fs: Seq<SpecField>, ks: Seq<u8>, off: nat)
    ensures
        spec_prot_len_fields(spec_apply_fields(fs, ks, off)) == spec_prot_len_fields(fs),
    decreases fs,
{
    if fs.len() > 0 {
        let f = fs[0];
        let step: nat = if f.protected {
            f.value.len()
        } else {
            0
        };
        lemma_apply_prot_len_fields(fs.drop_first(), ks, off + step);
        let out = spec_apply_fields(fs, ks, off);
        assert(out.drop_first() =~= spec_apply_fields(fs.drop_first(), ks, off + step));
    }
}

/// Masking twice with the same keystream and offset gives the subtree
/// back.
pub proof fn lemma_apply_involution(n: SpecNode, ks: Seq<u8>, off: nat)
    ensures
        spec_apply_node(spec_apply_node(n, ks, off), ks, off) == n,
    decreases n,
{
    match n {
        SpecNode::Group(g) => {
            lemma_apply_involution_list(g.children, ks, off);
        },
        SpecNode::Entry(e) => {
            lemma_apply_involution_fields(e.fields, ks, off);
        },
    }
}

pub proof fn lemma_apply_involution_list(cs: Seq<SpecNode>, ks: Seq<u8>, off: nat)
    ensures
        spec_apply_list(spec_apply_list(cs, ks, off), ks, off) == cs,
    decreases cs,
{
    if cs.len() > 0 {
        lemma_apply_involution(cs[0], ks, off);
        lemma_apply_prot_len(cs[0], ks, off);
        lemma_apply_involution_list(cs.drop_first(), ks, off + spec_prot_len(cs[0]));
        let out = spec_apply_list(cs, ks, off);
        assert(out[0] == spec_apply_node(cs[0], ks, off));
        assert(out.drop_first() =~= spec_apply_list(cs.drop_first(), ks, off + spec_prot_len(
            cs[0],
        )));
        assert(spec_apply_list(out, ks, off) =~= cs);
    }
}

pub proof fn lemma_apply_involution_fields(fs: Seq<SpecField>, ks: Seq<u8>, off: nat)
    ensures
        spec_apply_fields(spec_apply_fields(fs, ks, off), ks, off) == fs,
    decreases fs,
{
    if fs.len() > 0 {
        let f = fs[0];
        let step: nat = if f.protected {
            f.value.len()
        } else {
            0
        };
        lemma_apply_involution_fields(fs.drop_first(), ks, off + step);
        let out = spec_apply_fields(fs, ks, off);
        assert(out.drop_first() =~= spec_apply_fields(fs.drop_first(), ks, off + step));
        if f.protected {
            let seg = ks.subrange(off as int, off as int + f.value.len() as int);
            crate::bytes::lemma_xor_involution(f.value, seg);
            assert(out[0].value.len() == f.value.len());
            assert(spec_apply_fields(out, ks, off)[0] == fs[0]);
        }
        assert(spec_apply_fields(out, ks, off) =~= fs);
    }
}

} // verus!

verus! {

/// The largest length or count a document record may carry.
pub const MAX_LEN: usize = 0xffff_ffff;

/// Whether a subtree fits the record layout: every name, value and
/// count fits its 32-bit field.
pub open spec fn spec_doc_wf(n: SpecNode) -> bool
    decreases n,
{
    match n {
        SpecNode::Group(g) => {
            &&& g.name.len() <= MAX_LEN
            &&& g.children.len() <= MAX_LEN
            &&& spec_doc_wf_list(g.children)
        },
        SpecNode::Entry(e) => {
            &&& e.fields.len() <= MAX_LEN
            &&& spec_doc_wf_fields(e.fields)
        },
    }
}

pub open spec fn spec_doc_wf_list(cs: Seq<SpecNode>) -> bool
    decreases cs,
{
    if cs.len() == 0 {
        true
    } else {
        spec_doc_wf(cs[0]) && spec_doc_wf_list(cs.drop_first())
    }
}

pub open spec fn spec_doc_wf_fields(fs: Seq<SpecField>) -> bool
    decreases fs,
{
    if fs.len() == 0 {
        true
    } else {
        fs[0].name.len() <= MAX_LEN && fs[0].value.len() <= MAX_LEN && spec_doc_wf_fields(
            fs.drop_first(),
        )
    }
}

/// One encoded field: name length, name, protection flag, value length,
/// value.
pub open spec fn spec_encode_field(f: SpecField) -> Seq<u8> {
    spec_u32_bytes(f.name.len() as u32) + f.name + seq![
        if f.protected {
            1u8
        } else {
            0u8
        },
    ] + spec_u32_bytes(f.value.len() as u32) + f.value
}

pub open spec fn spec_encode_fields(fs: Seq<SpecField>) -> Seq<u8>
    decreases fs,
{
    if fs.len() == 0 {
        Seq::empty()
    } else {
        spec_encode_field(fs[0]) + spec_encode_fields(fs.drop_first())
    }
}

/// One encoded node.  A group is its identifier, name and counted
/// children; an entry is its identifier and counted fields.
pub open spec fn spec_encode_node(n: SpecNode) -> Seq<u8>
    decreases n,
{
    match n {
        SpecNode::Group(g) => seq![1u8] + spec_u128_bytes(g.uuid.0) + spec_u32_bytes(
            g.name.len() as u32,
        ) + g.name + spec_u32_bytes(g.children.len() as u32) + spec_encode_list(g.children),
        SpecNode::Entry(e) => seq![2u8] + spec_u128_bytes(e.uuid.0) + spec_u32_bytes(
            e.fields.len() as u32,
        ) + spec_encode_fields(e.fields),
    }
}

pub open spec fn spec_encode_list(cs: Seq<SpecNode>) -> Seq<u8>
    decreases cs,
{
    if cs.len() == 0 {
        Seq::empty()
    } else {
        spec_encode_node(cs[0]) + spec_encode_list(cs.drop_first())
    }
}

/// Parses one node at `pos`; `None` on truncation or an unknown record
/// tag.  The returned offset is just past the node.
pub open spec fn spec_parse_node(b: Seq<u8>, pos: int) -> Option<(SpecNode, int)>
    decreases b.len() - pos, 0nat,
{
    if pos < 0 || pos + 21 > b.len() {
        None
    } else {
        let tag = b[pos];
        let uuid = spec_u128_le(b.subrange(pos + 1, pos + 17));
        if tag == 1 {
            let nlen = spec_u32_le(b.subrange(pos + 17, pos + 21)) as int;
            if pos + 21 + nlen + 4 > b.len() {
                None
            } else {
                let name = b.subrange(pos + 21, pos + 21 + nlen);
                let cnt = spec_u32_le(b.subrange(pos + 21 + nlen, pos + 25 + nlen)) as int;
                match spec_parse_nodes(b, pos + 25 + nlen, cnt as nat) {
                    Some((cs, end)) => Some(
                        (
                            SpecNode::Group(SpecGroup { uuid: Uuid(uuid), name, children: cs }),
                            end,
                        ),
                    ),
                    None => None,
                }
            }
        } else if tag == 2 {
            let fcnt = spec_u32_le(b.subrange(pos + 17, pos + 21)) as int;
            match spec_parse_fields_k(b, pos + 21, fcnt as nat) {
                Some((fs, end)) => Some(
                    (SpecNode::Entry(SpecEntry { uuid: Uuid(uuid), fields: fs }), end),
                ),
                None => None,
            }
        } else {
            None
        }
    }
}

/// Parses `k` nodes in sequence.
pub open spec fn spec_parse_nodes(b: Seq<u8>, pos: int, k: nat) -> Option<(Seq<SpecNode>, int)>
    decreases b.len() - pos, k,
{
    if k == 0 {
        if 0 <= pos <= b.len() {
            Some((Seq::empty(), pos))
        } else {
            None
        }
    } else {
        match spec_parse_node(b, pos) {
            Some((n, p2)) => {
                if p2 <= pos || p2 > b.len() {
                    None
                } else {
                    match spec_parse_nodes(b, p2, (k - 1) as nat) {
                        Some((rest, end)) => Some((seq![n] + rest, end)),
                        None => None,
                    }
                }
            },
            None => None,
        }
    }
}

/// Parses `k` fields in sequence.  The protection flag must be zero or
/// one.
pub open spec fn spec_parse_fields_k(b: Seq<u8>, pos: int, k: nat) -> Option<(Seq<SpecField>, int)>
    decreases k,
{
    if k == 0 {
        if 0 <= pos <= b.len() {
            Some((Seq::empty(), pos))
        } else {
            None
        }
    } else if pos < 0 || pos + 4 > b.len() {
        None
    } else {
        let nlen = spec_u32_le(b.subrange(pos, pos + 4)) as int;
        if pos + 4 + nlen + 5 > b.len() {
            None
        } else {
            let name = b.subrange(pos + 4, pos + 4 + nlen);
            let prot = b[pos + 4 + nlen];
            let vlen = spec_u32_le(b.subrange(pos + 5 + nlen, pos + 9 + nlen)) as int;
            if prot != 0 && prot != 1 {
                None
            } else if pos + 9 + nlen + vlen > b.len() {
                None
            } else {
                let value = b.subrange(pos + 9 + nlen, pos + 9 + nlen + vlen);
                let f = SpecField { name, protected: prot == 1, value };
                match spec_parse_fields_k(b, pos + 9 + nlen + vlen, (k - 1) as nat) {
                    Some((rest, end)) => Some((seq![f] + rest, end)),
                    None => None,
                }
            }
        }
    }
}

} // verus!

verus! {

/// A window equality transfers to every sub-window.
pub proof fn lemma_sub_piece(b: Seq<u8>, pos: int, enc: Seq<u8>, lo: int, hi: int)
    requires
        0 <= pos,
        pos + enc.len() <= b.len(),
        b.subrange(pos, pos + enc.len() as int) == enc,
        0 <= lo <= hi <= enc.len(),
    ensures
        b.subrange(pos + lo, pos + hi) == enc.subrange(lo, hi),
{
    assert forall|i: int| 0 <= i < hi - lo implies b.subrange(pos + lo, pos + hi)[i]
        == enc.subrange(lo, hi)[i] by {
        assert(b.subrange(pos, pos + enc.len() as int)[lo + i] == enc[lo + i]);
    }
    assert(b.subrange(pos + lo, pos + hi) =~= enc.subrange(lo, hi));
}

/// Every encoded node starts with its tag byte.
pub proof fn lemma_encode_len_pos(n: SpecNode)
    ensures
        spec_encode_node(n).len() >= 21,
{
    match n {
        SpecNode::Group(_) => {},
        SpecNode::Entry(_) => {},
    }
}

/// Parsing an encoded node out of a larger buffer gives the node back
/// and stops just past it.
pub proof fn lemma_parse_encode_node(n: SpecNode, b: Seq<u8>, pos: int)
    requires
        spec_doc_wf(n),
        0 <= pos,
        pos + spec_encode_node(n).len() <= b.len(),
        b.subrange(pos, pos + spec_encode_node(n).len() as int) == spec_encode_node(n),
    ensures
        spec_parse_node(b, pos) == Some((n, pos + spec_encode_node(n).len() as int)),
    decreases n,
{
    let enc = spec_encode_node(n);
    let end = pos + enc.len() as int;
    match n {
        SpecNode::Group(g) => {
            let nl = g.name.len() as int;
            let lst = spec_encode_list(g.children);
            assert(enc.len() == 25 + nl + lst.len());
            assert(b[pos] == 1) by {
                assert(b.subrange(pos, end)[0] == enc[0]);
            }
            assert(enc.subrange(1, 17) =~= spec_u128_bytes(g.uuid.0));
            assert(enc.subrange(17, 21) =~= spec_u32_bytes(g.name.len() as u32));
            assert(enc.subrange(21, 21 + nl) =~= g.name);
            assert(enc.subrange(21 + nl, 25 + nl) =~= spec_u32_bytes(g.children.len() as u32));
            assert(enc.subrange(25 + nl, 25 + nl + lst.len() as int) =~= lst);
            lemma_sub_piece(b, pos, enc, 1, 17);
            lemma_sub_piece(b, pos, enc, 17, 21);
            lemma_sub_piece(b, pos, enc, 21, 21 + nl);
            lemma_sub_piece(b, pos, enc, 21 + nl, 25 + nl);
            lemma_sub_piece(b, pos, enc, 25 + nl, 25 + nl + lst.len() as int);
            lemma_u128_roundtrip(g.uuid.0);
            lemma_u32_roundtrip(g.name.len() as u32);
            lemma_u32_roundtrip(g.children.len() as u32);
            lemma_parse_encode_list(g.children, b, pos + 25 + nl);
            assert(spec_parse_nodes(b, pos + 25 + nl, g.children.len()) == Some(
                (g.children, end),
            ));
        },
        SpecNode::Entry(e) => {
            let flds = spec_encode_fields(e.fields);
            assert(enc.len() == 21 + flds.len());
            assert(b[pos] == 2) by {
                assert(b.subrange(pos, end)[0] == enc[0]);
            }
            assert(enc.subrange(1, 17) =~= spec_u128_bytes(e.uuid.0));
            assert(enc.subrange(17, 21) =~= spec_u32_bytes(e.fields.len() as u32));
            assert(enc.subrange(21, 21 + flds.len() as int) =~= flds);
            lemma_sub_piece(b, pos, enc, 1, 17);
            lemma_sub_piece(b, pos, enc, 17, 21);
            lemma_sub_piece(b, pos, enc, 21, 21 + flds.len() as int);
            lemma_u128_roundtrip(e.uuid.0);
            lemma_u32_roundtrip(e.fields.len() as u32);
            lemma_parse_encode_fields(e.fields, b, pos + 21);
        },
    }
}

/// Parsing an encoded forest gives the nodes back in order.
pub proof fn lemma_parse_encode_list(cs: Seq<SpecNode>, b: Seq<u8>, pos: int)
    requires
        spec_doc_wf_list(cs),
        0 <= pos,
        pos + spec_encode_list(cs).len() <= b.len(),
        b.subrange(pos, pos + spec_encode_list(cs).len() as int) == spec_encode_list(cs),
    ensures
        spec_parse_nodes(b, pos, cs.len()) == Some(
            (cs, pos + spec_encode_list(cs).len() as int),
        ),
    decreases cs,
{
    if cs.len() == 0 {
        assert(spec_encode_list(cs).len() == 0);
    } else {
        let enc = spec_encode_list(cs);
        let e0 = spec_encode_node(cs[0]);
        let rest = spec_encode_list(cs.drop_first());
        assert(spec_encode_list(cs) == e0 + rest);
        lemma_encode_len_pos(cs[0]);
        assert(enc.subrange(0, e0.len() as int) =~= e0);
        assert(enc.subrange(e0.len() as int, enc.len() as int) =~= rest);
        lemma_sub_piece(b, pos, enc, 0, e0.len() as int);
        lemma_sub_piece(b, pos, enc, e0.len() as int, enc.len() as int);
        lemma_parse_encode_node(cs[0], b, pos);
        let p2 = pos + e0.len() as int;
        lemma_parse_encode_list(cs.drop_first(), b, p2);
        assert(seq![cs[0]] + cs.drop_first() =~= cs);
    }
}

/// Parsing encoded fields gives them back in order.
pub proof fn lemma_parse_encode_fields(fs: Seq<SpecField>, b: Seq<u8>, pos: int)
    requires
        spec_doc_wf_fields(fs),
        0 <= pos,
        pos + spec_encode_fields(fs).len() <= b.len(),
        b.subrange(pos, pos + spec_encode_fields(fs).len() as int) == spec_encode_fields(fs),
    ensures
        spec_parse_fields_k(b, pos, fs.len()) == Some(
            (fs, pos + spec_encode_fields(fs).len() as int),
        ),
    decreases fs,
{
    if fs.len() == 0 {
        assert(spec_encode_fields(fs).len() == 0);
    } else {
        let enc = spec_encode_fields(fs);
        let f = fs[0];
        let e0 = spec_encode_field(f);
        let rest = spec_encode_fields(fs.drop_first());
        let nl = f.name.len() as int;
        let vl = f.value.len() as int;
        assert(e0.len() == 9 + nl + vl);
        assert(spec_encode_fields(fs) == e0 + rest);
        assert(enc.subrange(0, 4) =~= spec_u32_bytes(f.name.len() as u32));
        assert(enc.subrange(4, 4 + nl) =~= f.name);
        assert(enc[4 + nl] == (if f.protected {
            1u8
        } else {
            0u8
        }));
        assert(enc.subrange(5 + nl, 9 + nl) =~= spec_u32_bytes(f.value.len() as u32));
        assert(enc.subrange(9 + nl, 9 + nl + vl) =~= f.value);
        assert(enc.subrange(9 + nl + vl, enc.len() as int) =~= rest);
        lemma_sub_piece(b, pos, enc, 0, 4);
        lemma_sub_piece(b, pos, enc, 4, 4 + nl);
        lemma_sub_piece(b, pos, enc, 4 + nl, 5 + nl);
        lemma_sub_piece(b, pos, enc, 5 + nl, 9 + nl);
        lemma_sub_piece(b, pos, enc, 9 + nl, 9 + nl + vl);
        lemma_sub_piece(b, pos, enc, 9 + nl + vl, enc.len() as int);
        assert(b[pos + 4 + nl] == (if f.protected {
            1u8
        } else {
            0u8
        })) by {
            assert(b.subrange(pos + 4 + nl, pos + 5 + nl) == enc.subrange(4 + nl, 5 + nl));
            assert(b.subrange(pos + 4 + nl, pos + 5 + nl)[0] == b[pos + 4 + nl]);
            assert(enc.subrange(4 + nl, 5 + nl)[0] == enc[4 + nl]);
        }
        lemma_u32_roundtrip(f.name.len() as u32);
        lemma_u32_roundtrip(f.value.len() as u32);
        let p2 = pos + e0.len() as int;
        lemma_parse_encode_fields(fs.drop_first(), b, p2);
        assert(seq![f] + fs.drop_first() =~= fs);
    }
}

} // verus!

verus! {

/// Appends the record encoding of a node.
#[verifier::loop_isolation(false)]
pub fn encode_node(out: &mut Vec<u8>, n: &Node)
    requires
        spec_doc_wf(node_view(*n)),
    ensures
        final(out)@ == old(out)@ + spec_encode_node(node_view(*n)),
    decreases n,
{
    match n {
        Node::Group(g) => {
            let ghost vs = nodes_view(g.children@);
            proof {
                lemma_nodes_view(g.children@);
            }
            out.push(1u8);
            push_u128_le(out, g.uuid.0);
            push_u32_le(out, g.name.len() as u32);
            push_bytes(out, g.name.as_slice());
            push_u32_le(out, g.children.len() as u32);
            let ghost hdr_done = out@;
            proof {
                assert(vs.skip(0) =~= vs);
            }
            let mut i: usize = 0;
            while i < g.children.len()
                invariant
                    spec_doc_wf(node_view(Node::Group(*g))),
                    i <= g.children@.len(),
                    vs == nodes_view(g.children@),
                    vs.len() == g.children@.len(),
                    forall|j: int| 0 <= j < g.children@.len() ==> vs[j] == node_view(
                        g.children@[j],
                    ),
                    out@ + spec_encode_list(vs.skip(i as int)) == hdr_done + spec_encode_list(vs),
                decreases g.children@.len() - i,
            {
                proof {
                    assert(spec_doc_wf_list(vs.skip(i as int))) by {
                        lemma_doc_wf_list_skip(vs, i as int);
                    }
                    assert(vs.skip(i as int)[0] == vs[i as int]);
                }
                encode_node(out, &g.children[i]);
                proof {
                    assert(vs.skip(i as int).drop_first() =~= vs.skip(i as int + 1));
                }
                i = i + 1;
            }
            proof {
                assert(vs.skip(vs.len() as int) =~= Seq::<SpecNode>::empty());
                assert(out@ =~= old(out)@ + spec_encode_node(node_view(Node::Group(*g))));
            }
        },
        Node::Entry(e) => {
            out.push(2u8);
            push_u128_le(out, e.uuid.0);
            push_u32_le(out, e.fields.len() as u32);
            let ghost hdr_done = out@;
            let ghost fvs = e.fields@.map_values(|f: Field| crate::model::field_view(f));
            proof {
                assert(fvs.skip(0) =~= fvs);
            }
            let mut i: usize = 0;
            while i < e.fields.len()
                invariant
                    spec_doc_wf(node_view(Node::Entry(*e))),
                    i <= e.fields@.len(),
                    fvs == e.fields@.map_values(|f: Field| crate::model::field_view(f)),
                    fvs.len() == e.fields@.len(),
                    out@ + spec_encode_fields(fvs.skip(i as int)) == hdr_done
                        + spec_encode_fields(fvs),
                decreases e.fields@.len() - i,
            {
                proof {
                    assert(spec_doc_wf_fields(fvs.skip(i as int))) by {
                        lemma_doc_wf_fields_skip(fvs, i as int);
                    }
                    assert(fvs.skip(i as int)[0] == fvs[i as int]);
                    assert(fvs[i as int] == crate::model::field_view(e.fields@[i as int]));
                }
                let f = &e.fields[i];
                push_u32_le(out, f.name.len() as u32);
                push_bytes(out, f.name.as_slice());
                out.push(if f.protected {
                    1u8
                } else {
                    0u8
                });
                push_u32_le(out, f.value.len() as u32);
                push_bytes(out, f.value.as_slice());
                proof {
                    assert(fvs.skip(i as int).drop_first() =~= fvs.skip(i as int + 1));
                }
                i = i + 1;
            }
            proof {
                assert(fvs.skip(fvs.len() as int) =~= Seq::<SpecField>::empty());
                assert(out@ =~= old(out)@ + spec_encode_node(node_view(Node::Entry(*e))));
            }
        },
    }
}

/// Well-formedness restricted to a suffix.
pub proof fn lemma_doc_wf_list_skip(cs: Seq<SpecNode>, i: int)
    requires
        0 <= i <= cs.len(),
        spec_doc_wf_list(cs),
    ensures
        spec_doc_wf_list(cs.skip(i)),
    decreases i,
{
    if i > 0 {
        lemma_doc_wf_list_skip(cs.drop_first(), i - 1);
        assert(cs.drop_first().skip(i - 1) =~= cs.skip(i));
    } else {
        assert(cs.skip(0) =~= cs);
    }
}

pub proof fn lemma_doc_wf_fields_skip(fs: Seq<SpecField>, i: int)
    requires
        0 <= i <= fs.len(),
        spec_doc_wf_fields(fs),
    ensures
        spec_doc_wf_fields(fs.skip(i)),
    decreases i,
{
    if i > 0 {
        lemma_doc_wf_fields_skip(fs.drop_first(), i - 1);
        assert(fs.drop_first().skip(i - 1) =~= fs.skip(i));
    } else {
        assert(fs.skip(0) =~= fs);
    }
}

/// Parses one node at `pos`; exactly `spec_parse_node`.
#[verifier::loop_isolation(false)]
pub fn parse_node(b: &[u8], pos: usize) -> (r: Option<(Node, usize)>)
    ensures
        match r {
            Some((n, end)) => spec_parse_node(b@, pos as int) == Some((node_view(n), end as int))
                && pos < end <= b@.len(),
            None => spec_parse_node(b@, pos as int) is None,
        },
    decreases b@.len() - pos, 0nat,
{
    if pos >= b.len() || b.len() - pos < 21 {
        return None;
    }
    let tag = b[pos];
    let uuid = Uuid(read_u128_le(b, pos + 1));
    if tag == 1 {
        let nlen = read_u32_le(b, pos + 17) as usize;
        if nlen > b.len() - pos - 21 || b.len() - pos - 21 - nlen < 4 {
            proof {
                assert(pos as int + 21 + nlen as int + 4 > b@.len());
            }
            return None;
        }
        let name = copy_range(b, pos + 21, pos + 21 + nlen);
        let cnt = read_u32_le(b, pos + 21 + nlen) as usize;
        let start = pos + 25 + nlen;
        let mut children: Vec<Node> = Vec::new();
        let mut cur = start;
        let mut j: usize = 0;
        proof {
            lemma_nodes_view(children@);
            assert(nodes_view(children@) =~= Seq::<SpecNode>::empty());
        }
        while j < cnt
            invariant
                j <= cnt,
                pos < start <= cur <= b@.len(),
                cnt <= 0xffff_ffff,
                nodes_view(children@).len() == j,
                (match spec_parse_nodes(b@, cur as int, (cnt - j) as nat) {
                    Some((rest, end)) => spec_parse_nodes(b@, start as int, cnt as nat) == Some(
                        (nodes_view(children@) + rest, end),
                    ),
                    None => spec_parse_nodes(b@, start as int, cnt as nat) is None,
                }),
            decreases cnt - j,
        {
            let ghost done = nodes_view(children@);
            let ghost cs_old = children@;
            match parse_node(b, cur) {
                Some((n, end)) => {
                    let ghost nv = node_view(n);
                    children.push(n);
                    proof {
                        lemma_nodes_view(cs_old);
                        lemma_nodes_view(children@);
                        assert(forall|k: int| 0 <= k < cs_old.len() ==> children@[k] == cs_old[k]);
                        assert(nodes_view(children@) =~= done.push(nv));
                        assert(spec_parse_nodes(b@, cur as int, (cnt - j) as nat) == (
                        match spec_parse_nodes(b@, end as int, (cnt - j - 1) as nat) {
                            Some((rest2, e2)) => Some((seq![nv] + rest2, e2)),
                            None => None::<(Seq<SpecNode>, int)>,
                        }));
                        match spec_parse_nodes(b@, end as int, (cnt - j - 1) as nat) {
                            Some((rest2, e2)) => {
                                assert(done + (seq![nv] + rest2) =~= done.push(nv) + rest2);
                            },
                            None => {},
                        }
                    }
                    cur = end;
                    j = j + 1;
                },
                None => {
                    return None;
                },
            }
        }
        proof {
            assert(spec_parse_nodes(b@, cur as int, 0nat) == Some(
                (Seq::<SpecNode>::empty(), cur as int),
            ));
            assert(nodes_view(children@) + Seq::<SpecNode>::empty() =~= nodes_view(children@));
        }
        let node = Node::Group(Group { uuid, name, children });
        proof {
            lemma_nodes_view(node->Group_0.children@);
        }
        Some((node, cur))
    } else if tag == 2 {
        let fcnt = read_u32_le(b, pos + 17) as usize;
        let mut fields: Vec<Field> = Vec::new();
        let mut cur = pos + 21;
        let mut j: usize = 0;
        proof {
            assert(fields@.map_values(|f: Field| crate::model::field_view(f)) =~= Seq::<
                SpecField,
            >::empty());
        }
        while j < fcnt
            invariant
                j <= fcnt,
                pos + 21 <= cur <= b@.len(),
                fields@.len() == j,
                (match spec_parse_fields_k(b@, cur as int, (fcnt - j) as nat) {
                    Some((rest, end)) => spec_parse_fields_k(b@, pos as int + 21, fcnt as nat)
                        == Some(
                        (fields@.map_values(|f: Field| crate::model::field_view(f)) + rest, end),
                    ),
                    None => spec_parse_fields_k(b@, pos as int + 21, fcnt as nat) is None,
                }),
            decreases fcnt - j,
        {
            let ghost done = fields@.map_values(|f: Field| crate::model::field_view(f));
            if cur >= b.len() || b.len() - cur < 4 {
                return None;
            }
            let nlen = read_u32_le(b, cur) as usize;
            if nlen > b.len() - cur - 4 || b.len() - cur - 4 - nlen < 5 {
                proof {
                    assert(cur as int + 4 + nlen as int + 5 > b@.len());
                }
                return None;
            }
            let fname = copy_range(b, cur + 4, cur + 4 + nlen);
            let prot = b[cur + 4 + nlen];
            let vlen = read_u32_le(b, cur + 5 + nlen) as usize;
            if prot != 0 && prot != 1 {
                return None;
            }
            if vlen > b.len() - cur - 9 - nlen {
                proof {
                    assert(cur as int + 9 + nlen as int + vlen as int > b@.len());
                }
                return None;
            }
            let fvalue = copy_range(b, cur + 9 + nlen, cur + 9 + nlen + vlen);
            let ghost specf = SpecField {
                name: b@.subrange(cur as int + 4, cur as int + 4 + nlen as int),
                protected: prot == 1,
                value: b@.subrange(cur as int + 9 + nlen as int, cur as int + 9 + nlen as int
                    + vlen as int),
            };
            let fld = Field { name: fname, protected: prot == 1, value: fvalue };
            fields.push(fld);
            proof {
                let fvsnew = fields@.map_values(|f: Field| crate::model::field_view(f));
                assert(fvsnew =~= done.push(specf));
                assert(spec_parse_fields_k(b@, cur as int, (fcnt - j) as nat) == (
                match spec_parse_fields_k(
                    b@,
                    cur as int + 9 + nlen as int + vlen as int,
                    (fcnt - j - 1) as nat,
                ) {
                    Some((rest2, e2)) => Some((seq![specf] + rest2, e2)),
                    None => None::<(Seq<SpecField>, int)>,
                }));
                match spec_parse_fields_k(
                    b@,
                    cur as int + 9 + nlen as int + vlen as int,
                    (fcnt - j - 1) as nat,
                ) {
                    Some((rest2, e2)) => {
                        assert(done + (seq![specf] + rest2) =~= done.push(specf) + rest2);
                    },
                    None => {},
                }
            }
            cur = cur + 9 + nlen + vlen;
            j = j + 1;
        }
        proof {
            assert(spec_parse_fields_k(b@, cur as int, 0nat) == Some(
                (Seq::<SpecField>::empty(), cur as int),
            ));
            let fvs = fields@.map_values(|f: Field| crate::model::field_view(f));
            assert(fvs + Seq::<SpecField>::empty() =~= fvs);
        }
        Some((Node::Entry(Entry { uuid, fields }), cur))
    } else {
        None
    }
}

} // verus!

use crate::crypto::{chacha20_keystream, chacha_stream_of, sha256, sha256_of};

verus! {

/// The inner header: the key from which the protected-field stream is
/// derived.
#[derive(Clone, Debug, PartialEq, Eq)]
pub struct InnerHeader {
    pub stream_key: Vec<u8>,
}

/// Masking keeps the record-layout bounds: only values change, length
/// for length.
pub proof fn lemma_apply_doc_wf(n: SpecNode, ks: Seq<u8>, off: nat)
    ensures
        spec_doc_wf(spec_apply_node(n, ks, off)) == spec_doc_wf(n),
    decreases n,
{
    match n {
        SpecNode::Group(g) => {
            lemma_apply_doc_wf_list(g.children, ks, off);
        },
        SpecNode::Entry(e) => {
            lemma_apply_doc_wf_fields(e.fields, ks, off);
        },
    }
}

pub proof fn lemma_apply_doc_wf_list(cs: Seq<SpecNode>, ks: Seq<u8>, off: nat)
    ensures
        spec_doc_wf_list(spec_apply_list(cs, ks, off)) == spec_doc_wf_list(cs),
        spec_apply_list(cs, ks, off).len() == cs.len(),
    decreases cs,
{
    if cs.len() > 0 {
        lemma_apply_doc_wf(cs[0], ks, off);
        lemma_apply_doc_wf_list(cs.drop_first(), ks, off + spec_prot_len(cs[0]));
        let out = spec_apply_list(cs, ks, off);
        assert(out[0] == spec_apply_node(cs[0], ks, off));
        assert(out.drop_first() =~= spec_apply_list(cs.drop_first(), ks, off + spec_prot_len(
            cs[0],
        )));
    }
}

pub proof fn lemma_apply_doc_wf_fields(fs: Seq<SpecField>, ks: Seq<u8>, off: nat)
    ensures
        spec_doc_wf_fields(spec_apply_fields(fs, ks, off)) == spec_doc_wf_fields(fs),
        spec_apply_fields(fs, ks, off).len() == fs.len(),
    decreases fs,
{
    if fs.len() > 0 {
        let f = fs[0];
        let step: nat = if f.protected {
            f.value.len()
        } else {
            0
        };
        lemma_apply_doc_wf_fields(fs.drop_first(), ks, off + step);
        let out = spec_apply_fields(fs, ks, off);
        assert(out.drop_first() =~= spec_apply_fields(fs.drop_first(), ks, off + step));
        assert(out[0].name == f.name && out[0].value.len() == f.value.len());
    }
}

/// Counts the protected bytes of a subtree; `None` if the count
/// overflows the machine word.
#[verifier::loop_isolation(false)]
pub fn prot_len_node(n: &Node) -> (r: Option<u64>)
    ensures
        match r {
            Some(v) => v == spec_prot_len(node_view(*n)),
            None => spec_prot_len(node_view(*n)) > u64::MAX,
        },
    decreases n,
{
    match n {
        Node::Group(g) => {
            proof {
                lemma_nodes_view(g.children@);
            }
            let ghost vs = nodes_view(g.children@);
            let mut acc: u64 = 0;
            let mut i: usize = 0;
            proof {
                assert(vs.skip(0) =~= vs);
            }
            while i < g.children.len()
                invariant
                    i <= g.children@.len(),
                    vs == nodes_view(g.children@),
                    vs.len() == g.children@.len(),
                    forall|j: int| 0 <= j < g.children@.len() ==> vs[j] == node_view(
                        g.children@[j],
                    ),
                    acc + spec_prot_len_list(vs.skip(i as int)) == spec_prot_len_list(vs),
                decreases g.children@.len() - i,
            {
                proof {
                    assert(vs.skip(i as int)[0] == vs[i as int]);
                    assert(vs.skip(i as int).drop_first() =~= vs.skip(i as int + 1));
                }
                match prot_len_node(&g.children[i]) {
                    Some(v) => {
                        if acc > u64::MAX - v {
                            return None;
                        }
                        acc = acc + v;
                    },
                    None => {
                        return None;
                    },
                }
                i = i + 1;
            }
            proof {
                assert(vs.skip(vs.len() as int) =~= Seq::<SpecNode>::empty());
            }
            Some(acc)
        },
        Node::Entry(e) => {
            let ghost fvs = e.fields@.map_values(|f: Field| crate::model::field_view(f));
            let mut acc: u64 = 0;
            let mut i: usize = 0;
            proof {
                assert(fvs.skip(0) =~= fvs);
            }
            while i < e.fields.len()
                invariant
                    i <= e.fields@.len(),
                    fvs == e.fields@.map_values(|f: Field| crate::model::field_view(f)),
                    fvs.len() == e.fields@.len(),
                    acc + spec_prot_len_fields(fvs.skip(i as int)) == spec_prot_len_fields(fvs),
                decreases e.fields@.len() - i,
            {
                proof {
                    assert(fvs.skip(i as int)[0] == fvs[i as int]);
                    assert(fvs[i as int] == crate::model::field_view(e.fields@[i as int]));
                    assert(fvs.skip(i as int).drop_first() =~= fvs.skip(i as int + 1));
                }
                if e.fields[i].protected {
                    let v = e.fields[i].value.len();
                    if v as u64 > u64::MAX - acc {
                        return None;
                    }
                    acc = acc + v as u64;
                }
                i = i + 1;
            }
            proof {
                assert(fvs.skip(fvs.len() as int) =~= Seq::<SpecField>::empty());
            }
            Some(acc)
        },
    }
}

/// Rebuilds a subtree with every protected value masked against the
/// keystream at its running offset; returns the offset after the
/// subtree.
#[verifier::loop_isolation(false)]
pub fn apply_stream(n: &Node, ks: &[u8], off: usize) -> (r: (Node, usize))
    requires
        off + spec_prot_len(node_view(*n)) <= ks@.len(),
    ensures
        node_view(r.0) == spec_apply_node(node_view(*n), ks@, off as nat),
        r.1 == off + spec_prot_len(node_view(*n)),
    decreases n,
{
    match n {
        Node::Group(g) => {
            proof {
                lemma_nodes_view(g.children@);
            }
            let ghost vs = nodes_view(g.children@);
            let mut out: Vec<Node> = Vec::new();
            let mut cur = off;
            let mut i: usize = 0;
            proof {
                assert(vs.skip(0) =~= vs);
                assert(nodes_view(out@) =~= Seq::<SpecNode>::empty());
                lemma_prot_len_list_split(vs, 0);
            }
            while i < g.children.len()
                invariant
                    i <= g.children@.len(),
                    vs == nodes_view(g.children@),
                    vs.len() == g.children@.len(),
                    forall|j: int| 0 <= j < g.children@.len() ==> vs[j] == node_view(
                        g.children@[j],
                    ),
                    cur == off + spec_prot_len_list(vs.take(i as int)),
                    cur + spec_prot_len_list(vs.skip(i as int)) <= ks@.len(),
                    nodes_view(out@).len() == i,
                    spec_apply_list(vs, ks@, off as nat) == nodes_view(out@) + spec_apply_list(
                        vs.skip(i as int),
                        ks@,
                        cur as nat,
                    ),
                decreases g.children@.len() - i,
            {
                proof {
                    assert(vs.skip(i as int)[0] == vs[i as int]);
                    assert(vs.skip(i as int).drop_first() =~= vs.skip(i as int + 1));
                    lemma_prot_len_list_split(vs, i as int);
                }
                let ghost out_old = out@;
                let (n2, cur2) = apply_stream(&g.children[i], ks, cur);
                out.push(n2);
                proof {
                    lemma_nodes_view(out_old);
                    lemma_nodes_view(out@);
                    assert(forall|k: int| 0 <= k < out_old.len() ==> out@[k] == out_old[k]);
                    assert(nodes_view(out@) =~= nodes_view(out_old).push(node_view(n2)));
                    assert(vs.take(i as int + 1) =~= vs.take(i as int).push(vs[i as int]));
                    lemma_prot_len_list_snoc(vs.take(i as int), vs[i as int]);
                    assert(nodes_view(out_old) + (seq![node_view(n2)] + spec_apply_list(
                        vs.skip(i as int + 1),
                        ks@,
                        cur2 as nat,
                    )) =~= nodes_view(out@) + spec_apply_list(
                        vs.skip(i as int + 1),
                        ks@,
                        cur2 as nat,
                    ));
                }
                cur = cur2;
                i = i + 1;
            }
            proof {
                assert(vs.skip(vs.len() as int) =~= Seq::<SpecNode>::empty());
                assert(vs.take(vs.len() as int) =~= vs);
                assert(nodes_view(out@) + Seq::<SpecNode>::empty() =~= nodes_view(out@));
            }
            let name2 = copy_range(g.name.as_slice(), 0, g.name.len());
            proof {
                assert(name2@ =~= g.name@);
            }
            (Node::Group(Group { uuid: g.uuid, name: name2, children: out }), cur)
        },
        Node::Entry(e) => {
            let ghost fvs = e.fields@.map_values(|f: Field| crate::model::field_view(f));
            let mut out: Vec<Field> = Vec::new();
            let mut cur = off;
            let mut i: usize = 0;
            proof {
                assert(fvs.skip(0) =~= fvs);
                assert(out@.map_values(|f: Field| crate::model::field_view(f)) =~= Seq::<
                    SpecField,
                >::empty());
                lemma_prot_len_fields_split(fvs, 0);
            }
            while i < e.fields.len()
                invariant
                    i <= e.fields@.len(),
                    fvs == e.fields@.map_values(|f: Field| crate::model::field_view(f)),
                    fvs.len() == e.fields@.len(),
                    cur == off + spec_prot_len_fields(fvs.take(i as int)),
                    cur + spec_prot_len_fields(fvs.skip(i as int)) <= ks@.len(),
                    out@.len() == i,
                    spec_apply_fields(fvs, ks@, off as nat) == out@.map_values(
                        |f: Field| crate::model::field_view(f),
                    ) + spec_apply_fields(fvs.skip(i as int), ks@, cur as nat),
                decreases e.fields@.len() - i,
            {
                proof {
                    assert(fvs.skip(i as int)[0] == fvs[i as int]);
                    assert(fvs[i as int] == crate::model::field_view(e.fields@[i as int]));
                    assert(fvs.skip(i as int).drop_first() =~= fvs.skip(i as int + 1));
                    lemma_prot_len_fields_split(fvs, i as int);
                    assert(fvs.take(i as int + 1) =~= fvs.take(i as int).push(fvs[i as int]));
                    lemma_prot_len_fields_snoc(fvs.take(i as int), fvs[i as int]);
                }
                let ghost out_old = out@;
                let f = &e.fields[i];
                proof {
                    if f.protected {
                        assert(spec_prot_len_fields(fvs.skip(i as int)) >= f.value@.len());
                        assert(cur + f.value@.len() <= ks@.len());
                    }
                }
                let name2 = copy_range(f.name.as_slice(), 0, f.name.len());
                let (value2, step): (Vec<u8>, usize) = if f.protected {
                    let ks_len = ks.len();
                    proof {
                        assert(cur + f.value@.len() <= ks_len);
                    }
                    let seg = copy_range(ks, cur, cur + f.value.len());
                    let v2 = crate::bytes::xor_bytes(f.value.as_slice(), seg.as_slice());
                    (v2, f.value.len())
                } else {
                    (copy_range(f.value.as_slice(), 0, f.value.len()), 0)
                };
                let f2 = Field { name: name2, protected: f.protected, value: value2 };
                out.push(f2);
                proof {
                    let fvsnew = out@.map_values(|f: Field| crate::model::field_view(f));
                    let fvsold = out_old.map_values(|f: Field| crate::model::field_view(f));
                    assert(fvsnew =~= fvsold.push(crate::model::field_view(out@.last())));
                    assert(name2@ =~= f.name@);
                    if !f.protected {
                        assert(value2@ =~= f.value@);
                    }
                    assert(crate::model::field_view(out@.last()) == spec_apply_fields(
                        fvs.skip(i as int),
                        ks@,
                        cur as nat,
                    )[0]);
                    assert(fvsold + (seq![crate::model::field_view(out@.last())]
                        + spec_apply_fields(fvs.skip(i as int + 1), ks@, (cur + step) as nat))
                        =~= fvsnew + spec_apply_fields(
                        fvs.skip(i as int + 1),
                        ks@,
                        (cur + step) as nat,
                    ));
                }
                cur = cur + step;
                i = i + 1;
            }
            proof {
                assert(fvs.skip(fvs.len() as int) =~= Seq::<SpecField>::empty());
                assert(fvs.take(fvs.len() as int) =~= fvs);
                let fvsnew = out@.map_values(|f: Field| crate::model::field_view(f));
                assert(fvsnew + Seq::<SpecField>::empty() =~= fvsnew);
            }
            (Node::Entry(Entry { uuid: e.uuid, fields: out }), cur)
        },
    }
}

/// The protected count of a prefix and its remainder sum to the whole.
pub proof fn lemma_prot_len_list_split(cs: Seq<SpecNode>, i: int)
    requires
        0 <= i <= cs.len(),
    ensures
        spec_prot_len_list(cs.take(i)) + spec_prot_len_list(cs.skip(i)) == spec_prot_len_list(cs),
    decreases i,
{
    if i == 0 {
        assert(cs.take(0) =~= Seq::<SpecNode>::empty());
        assert(cs.skip(0) =~= cs);
    } else {
        lemma_prot_len_list_split(cs.drop_first(), i - 1);
        assert(cs.take(i)[0] == cs[0]);
        assert(cs.take(i).drop_first() =~= cs.drop_first().take(i - 1));
        assert(cs.skip(i) =~= cs.drop_first().skip(i - 1));
    }
}

pub proof fn lemma_prot_len_fields_split(fs: Seq<SpecField>, i: int)
    requires
        0 <= i <= fs.len(),
    ensures
        spec_prot_len_fields(fs.take(i)) + spec_prot_len_fields(fs.skip(i))
            == spec_prot_len_fields(fs),
    decreases i,
{
    if i == 0 {
        assert(fs.take(0) =~= Seq::<SpecField>::empty());
        assert(fs.skip(0) =~= fs);
    } else {
        lemma_prot_len_fields_split(fs.drop_first(), i - 1);
        assert(fs.take(i)[0] == fs[0]);
        assert(fs.take(i).drop_first() =~= fs.drop_first().take(i - 1));
        assert(fs.skip(i) =~= fs.drop_first().skip(i - 1));
    }
}

/// Appending a node adds its protected count at the end.
pub proof fn lemma_prot_len_list_snoc(cs: Seq<SpecNode>, n: SpecNode)
    ensures
        spec_prot_len_list(cs.push(n)) == spec_prot_len_list(cs) + spec_prot_len(n),
    decreases cs,
{
    if cs.len() == 0 {
        assert(cs.push(n)[0] == n);
        assert(cs.push(n).drop_first() =~= Seq::<SpecNode>::empty());
        assert(spec_prot_len_list(Seq::<SpecNode>::empty()) == 0);
        assert(spec_prot_len_list(cs) == 0);
    } else {
        assert(cs.push(n)[0] == cs[0]);
        assert(cs.push(n).drop_first() =~= cs.drop_first().push(n));
        lemma_prot_len_list_snoc(cs.drop_first(), n);
    }
}

pub proof fn lemma_prot_len_fields_snoc(fs: Seq<SpecField>, f: SpecField)
    ensures
        spec_prot_len_fields(fs.push(f)) == spec_prot_len_fields(fs) + (if f.protected {
            f.value.len()
        } else {
            0
        }),
    decreases fs,
{
    if fs.len() == 0 {
        assert(fs.push(f)[0] == f);
        assert(fs.push(f).drop_first() =~= Seq::<SpecField>::empty());
        assert(spec_prot_len_fields(Seq::<SpecField>::empty()) == 0);
        assert(spec_prot_len_fields(fs) == 0);
    } else {
        assert(fs.push(f)[0] == fs[0]);
        assert(fs.push(f).drop_first() =~= fs.drop_first().push(f));
        lemma_prot_len_fields_snoc(fs.drop_first(), f);
    }
}

} // verus!

verus! {

/// The stream cipher key derived from the inner key.
pub open spec fn spec_stream_key(k: Seq<u8>) -> Seq<u8> {
    sha256_of(k + seq![2u8])
}

/// The stream cipher nonce derived from the inner key.
pub open spec fn spec_stream_nonce(k: Seq<u8>) -> Seq<u8> {
    sha256_of(k + seq![3u8]).take(12)
}

/// The protected-field keystream for an inner key.
pub open spec fn spec_doc_stream(k: Seq<u8>, len: nat) -> Seq<u8> {
    chacha_stream_of(spec_stream_key(k), spec_stream_nonce(k), len)
}

/// The encoded inner header: stream cipher code, key length, key.
pub open spec fn spec_inner_header_bytes(k: Seq<u8>) -> Seq<u8> {
    spec_u32_bytes(INNER_CIPHER_CHACHA20) + spec_u32_bytes(32) + k
}

/// The whole plaintext document: inner header, then the tree with its
/// protected values masked.
pub open spec fn spec_encode_document(k: Seq<u8>, root: SpecNode) -> Seq<u8> {
    spec_inner_header_bytes(k) + spec_encode_node(
        spec_apply_node(root, spec_doc_stream(k, spec_prot_len(root)), 0),
    )
}

/// Decoding a plaintext document: inner header, one group record
/// covering the rest, protected values unmasked.
pub open spec fn spec_decode_document(pt: Seq<u8>) -> Result<(Seq<u8>, SpecNode), Error> {
    if pt.len() < 40 {
        Err(Error::Parse)
    } else if spec_u32_le(pt.subrange(0, 4)) != INNER_CIPHER_CHACHA20 || spec_u32_le(
        pt.subrange(4, 8),
    ) != 32 {
        Err(Error::Parse)
    } else {
        let key = pt.subrange(8, 40);
        match spec_parse_node(pt, 40) {
            Some((raw, end)) => {
                if end != pt.len() {
                    Err(Error::Parse)
                } else if !(raw is Group) {
                    Err(Error::Parse)
                } else if spec_prot_len(raw) > 0xffff_ffff {
                    Err(Error::Parse)
                } else {
                    Ok((key, spec_apply_node(raw, spec_doc_stream(key, spec_prot_len(raw)), 0)))
                }
            },
            None => Err(Error::Parse),
        }
    }
}

/// Derives the protected-field keystream from the inner key.
pub fn doc_stream(key: &[u8], len: usize) -> (r: Vec<u8>)
    requires
        key@.len() == 32,
        len <= 0xffff_ffff,
    ensures
        r@ == spec_doc_stream(key@, len as nat),
        r@.len() == len,
{
    let mut kb: Vec<u8> = Vec::new();
    push_bytes(&mut kb, key);
    kb.push(2u8);
    let sk = sha256(kb.as_slice());
    let mut nb: Vec<u8> = Vec::new();
    push_bytes(&mut nb, key);
    nb.push(3u8);
    let nh = sha256(nb.as_slice());
    let nonce = copy_range(nh.as_slice(), 0, 12);
    proof {
        assert(kb@ =~= key@ + seq![2u8]);
        assert(nb@ =~= key@ + seq![3u8]);
        assert(nonce@ =~= spec_stream_nonce(key@));
    }
    chacha20_keystream(sk.as_slice(), nonce.as_slice(), len)
}

/// Group-level counterpart of `apply_stream`.
#[verifier::loop_isolation(false)]
pub fn apply_stream_group(g: &Group, ks: &[u8], off: usize) -> (r: (Group, usize))
    requires
        off + spec_prot_len(SpecNode::Group(g@)) <= ks@.len(),
    ensures
        SpecNode::Group(r.0@) == spec_apply_node(SpecNode::Group(g@), ks@, off as nat),
        r.1 == off + spec_prot_len(SpecNode::Group(g@)),
{
    proof {
        lemma_nodes_view(g.children@);
    }
    let ghost vs = nodes_view(g.children@);
    let mut out: Vec<Node> = Vec::new();
    let mut cur = off;
    let mut i: usize = 0;
    proof {
        assert(vs.skip(0) =~= vs);
        assert(nodes_view(out@) =~= Seq::<SpecNode>::empty());
        lemma_prot_len_list_split(vs, 0);
    }
    while i < g.children.len()
        invariant
            i <= g.children@.len(),
            vs == nodes_view(g.children@),
            vs.len() == g.children@.len(),
            forall|j: int| 0 <= j < g.children@.len() ==> vs[j] == node_view(g.children@[j]),
            cur == off + spec_prot_len_list(vs.take(i as int)),
            cur + spec_prot_len_list(vs.skip(i as int)) <= ks@.len(),
            nodes_view(out@).len() == i,
            spec_apply_list(vs, ks@, off as nat) == nodes_view(out@) + spec_apply_list(
                vs.skip(i as int),
                ks@,
                cur as nat,
            ),
        decreases g.children@.len() - i,
    {
        proof {
            assert(vs.skip(i as int)[0] == vs[i as int]);
            assert(vs.skip(i as int).drop_first() =~= vs.skip(i as int + 1));
            lemma_prot_len_list_split(vs, i as int);
        }
        let ghost out_old = out@;
        let (n2, cur2) = apply_stream(&g.children[i], ks, cur);
        out.push(n2);
        proof {
            lemma_nodes_view(out_old);
            lemma_nodes_view(out@);
            assert(forall|k: int| 0 <= k < out_old.len() ==> out@[k] == out_old[k]);
            assert(nodes_view(out@) =~= nodes_view(out_old).push(node_view(n2)));
            assert(vs.take(i as int + 1) =~= vs.take(i as int).push(vs[i as int]));
            lemma_prot_len_list_snoc(vs.take(i as int), vs[i as int]);
            assert(nodes_view(out_old) + (seq![node_view(n2)] + spec_apply_list(
                vs.skip(i as int + 1),
                ks@,
                cur2 as nat,
            )) =~= nodes_view(out@) + spec_apply_list(vs.skip(i as int + 1), ks@, cur2 as nat));
        }
        cur = cur2;
        i = i + 1;
    }
    proof {
        assert(vs.skip(vs.len() as int) =~= Seq::<SpecNode>::empty());
        assert(vs.take(vs.len() as int) =~= vs);
        assert(nodes_view(out@) + Seq::<SpecNode>::empty() =~= nodes_view(out@));
    }
    let name2 = copy_range(g.name.as_slice(), 0, g.name.len());
    proof {
        assert(name2@ =~= g.name@);
    }
    (Group { uuid: g.uuid, name: name2, children: out }, cur)
}

/// Encodes a whole document: inner header, then the tree with its
/// protected values masked against a fresh keystream.  Fails only when
/// the protected bytes outrun the keystream bound.
pub fn encode_document(ih: &InnerHeader, root: &Group) -> (r: Result<Vec<u8>, Error>)
    requires
        ih.stream_key@.len() == 32,
        spec_doc_wf(SpecNode::Group(root@)),
    ensures
        match r {
            Ok(v) => v@ == spec_encode_document(ih.stream_key@, SpecNode::Group(root@))
                && spec_prot_len(SpecNode::Group(root@)) <= 0xffff_ffff,
            Err(e) => e == Error::Parse && spec_prot_len(SpecNode::Group(root@)) > 0xffff_ffff,
        },
{
    let ghost rootv = SpecNode::Group(root@);
    let total = match prot_len_group(root) {
        Some(t) => t,
        None => {
            return Err(Error::Parse);
        },
    };
    if total > 0xffff_ffff {
        return Err(Error::Parse);
    }
    let ks = doc_stream(ih.stream_key.as_slice(), total as usize);
    let (masked, _end) = apply_stream_group(root, ks.as_slice(), 0);
    let mut out: Vec<u8> = Vec::new();
    push_u32_le(&mut out, INNER_CIPHER_CHACHA20);
    push_u32_le(&mut out, 32);
    push_bytes(&mut out, ih.stream_key.as_slice());
    proof {
        assert(out@ =~= spec_inner_header_bytes(ih.stream_key@));
        lemma_apply_doc_wf(rootv, ks@, 0);
    }
    let masked_node = Node::Group(masked);
    encode_node(&mut out, &masked_node);
    proof {
        assert(node_view(masked_node) == spec_apply_node(rootv, spec_doc_stream(
            ih.stream_key@,
            spec_prot_len(rootv),
        ), 0));
        assert(out@ =~= spec_encode_document(ih.stream_key@, rootv));
    }
    Ok(out)
}

/// Group-level counterpart of `prot_len_node`.
#[verifier::loop_isolation(false)]
pub fn prot_len_group(g: &Group) -> (r: Option<u64>)
    ensures
        match r {
            Some(v) => v == spec_prot_len(SpecNode::Group(g@)),
            None => spec_prot_len(SpecNode::Group(g@)) > u64::MAX,
        },
{
    proof {
        lemma_nodes_view(g.children@);
    }
    let ghost vs = nodes_view(g.children@);
    let mut acc: u64 = 0;
    let mut i: usize = 0;
    proof {
        assert(vs.skip(0) =~= vs);
    }
    while i < g.children.len()
        invariant
            i <= g.children@.len(),
            vs == nodes_view(g.children@),
            vs.len() == g.children@.len(),
            forall|j: int| 0 <= j < g.children@.len() ==> vs[j] == node_view(g.children@[j]),
            acc + spec_prot_len_list(vs.skip(i as int)) == spec_prot_len_list(vs),
        decreases g.children@.len() - i,
    {
        proof {
            assert(vs.skip(i as int)[0] == vs[i as int]);
            assert(vs.skip(i as int).drop_first() =~= vs.skip(i as int + 1));
        }
        match prot_len_node(&g.children[i]) {
            Some(v) => {
                if acc > u64::MAX - v {
                    return None;
                }
                acc = acc + v;
            },
            None => {
                return None;
            },
        }
        i = i + 1;
    }
    proof {
        assert(vs.skip(vs.len() as int) =~= Seq::<SpecNode>::empty());
    }
    Some(acc)
}

/// Decodes a plaintext document; exactly `spec_decode_document`.
pub fn decode_document(pt: &[u8]) -> (r: Result<(InnerHeader, Group), Error>)
    ensures
        match r {
            Ok((ih, g)) => spec_decode_document(pt@) == Ok::<_, Error>(
                (ih.stream_key@, SpecNode::Group(g@)),
            ) && ih.stream_key@.len() == 32,
            Err(e) => spec_decode_document(pt@) == Err::<(Seq<u8>, SpecNode), _>(e),
        },
{
    if pt.len() < 40 {
        return Err(Error::Parse);
    }
    let cipher_code = read_u32_le(pt, 0);
    let key_len = read_u32_le(pt, 4);
    if cipher_code != INNER_CIPHER_CHACHA20 || key_len != 32 {
        return Err(Error::Parse);
    }
    let key = copy_range(pt, 8, 40);
    proof {
        assert(key@ =~= pt@.subrange(8, 40));
    }
    let (raw, end) = match parse_node(pt, 40) {
        Some(p) => p,
        None => {
            return Err(Error::Parse);
        },
    };
    if end != pt.len() {
        return Err(Error::Parse);
    }
    let rawg = match raw {
        Node::Group(g) => g,
        Node::Entry(e) => {
            proof {
                assert(!(node_view(Node::Entry(e)) is Group));
            }
            return Err(Error::Parse);
        },
    };
    let total = match prot_len_group(&rawg) {
        Some(t) => t,
        None => {
            return Err(Error::Parse);
        },
    };
    if total > 0xffff_ffff {
        return Err(Error::Parse);
    }
    let ks = doc_stream(key.as_slice(), total as usize);
    let (clear, _end2) = apply_stream_group(&rawg, ks.as_slice(), 0);
    Ok((InnerHeader { stream_key: key }, clear))
}

/// Decoding an encoded document gives the inner key and the tree back.
pub proof fn lemma_document_roundtrip(key: Seq<u8>, root: SpecNode)
    requires
        key.len() == 32,
        root is Group,
        spec_doc_wf(root),
        spec_prot_len(root) <= 0xffff_ffff,
    ensures
        spec_decode_document(spec_encode_document(key, root)) == Ok::<_, Error>((key, root)),
{
    let ks = spec_doc_stream(key, spec_prot_len(root));
    let applied = spec_apply_node(root, ks, 0);
    let enc = spec_encode_node(applied);
    let pt = spec_encode_document(key, root);
    lemma_apply_prot_len(root, ks, 0);
    lemma_apply_doc_wf(root, ks, 0);
    lemma_encode_len_pos(applied);
    assert(pt.len() == 40 + enc.len());
    assert(pt.subrange(0, 4) =~= spec_u32_bytes(INNER_CIPHER_CHACHA20));
    assert(pt.subrange(4, 8) =~= spec_u32_bytes(32));
    assert(pt.subrange(8, 40) =~= key);
    lemma_u32_roundtrip(INNER_CIPHER_CHACHA20);
    lemma_u32_roundtrip(32);
    assert(pt.subrange(40, 40 + enc.len() as int) =~= enc);
    lemma_parse_encode_node(applied, pt, 40);
    assert(applied is Group);
    lemma_apply_involution(root, ks, 0);
}

} // verus!

verus! {

/// Whether a node fits the record layout; exactly `spec_doc_wf`.
#[verifier::loop_isolation(false)]
pub fn doc_wf_check_node(n: &Node) -> (r: bool)
    ensures
        r == spec_doc_wf(node_view(*n)),
    decreases n,
{
    match n {
        Node::Group(g) => {
            proof {
                lemma_nodes_view(g.children@);
            }
            let ghost vs = nodes_view(g.children@);
            if g.name.len() > MAX_LEN || g.children.len() > MAX_LEN {
                return false;
            }
            let mut i: usize = 0;
            proof {
                assert(vs.skip(0) =~= vs);
            }
            while i < g.children.len()
                invariant
                    i <= g.children@.len(),
                    spec_doc_wf_list(vs) == spec_doc_wf_list(vs.skip(i as int)),
                decreases g.children@.len() - i,
            {
                proof {
                    assert(vs.skip(i as int)[0] == vs[i as int]);
                    assert(vs.skip(i as int).drop_first() =~= vs.skip(i as int + 1));
                }
                if !doc_wf_check_node(&g.children[i]) {
                    return false;
                }
                i = i + 1;
            }
            proof {
                assert(vs.skip(vs.len() as int) =~= Seq::<SpecNode>::empty());
            }
            true
        },
        Node::Entry(e) => {
            let ghost fvs = e.fields@.map_values(|f: Field| crate::model::field_view(f));
            if e.fields.len() > MAX_LEN {
                return false;
            }
            let mut i: usize = 0;
            proof {
                assert(fvs.skip(0) =~= fvs);
            }
            while i < e.fields.len()
                invariant
                    i <= e.fields@.len(),
                    spec_doc_wf_fields(fvs) == spec_doc_wf_fields(fvs.skip(i as int)),
                decreases e.fields@.len() - i,
            {
                proof {
                    assert(fvs.skip(i as int)[0] == fvs[i as int]);
                    assert(fvs[i as int] == crate::model::field_view(e.fields@[i as int]));
                    assert(fvs.skip(i as int).drop_first() =~= fvs.skip(i as int + 1));
                }
                if e.fields[i].name.len() > MAX_LEN || e.fields[i].value.len() > MAX_LEN {
                    return false;
                }
                i = i + 1;
            }
            proof {
                assert(fvs.skip(fvs.len() as int) =~= Seq::<SpecField>::empty());
            }
            true
        },
    }
}

/// Group-level counterpart of `doc_wf_check_node`.
#[verifier::loop_isolation(false)]
pub fn doc_wf_check_group(g: &Group) -> (r: bool)
    ensures
        r == spec_doc_wf(SpecNode::Group(g@)),
{
    proof {
        lemma_nodes_view(g.children@);
    }
    let ghost vs = nodes_view(g.children@);
    if g.name.len() > MAX_LEN || g.children.len() > MAX_LEN {
        return false;
    }
    let mut i: usize = 0;
    proof {
        assert(vs.skip(0) =~= vs);
    }
    while i < g.children.len()
        invariant
            i <= g.children@.len(),
            spec_doc_wf_list(vs) == spec_doc_wf_list(vs.skip(i as int)),
        decreases g.children@.len() - i,
    {
        proof {
            assert(vs.skip(i as int)[0] == vs[i as int]);
            assert(vs.skip(i as int).drop_first() =~= vs.skip(i as int + 1));
        }
        if !doc_wf_check_node(&g.children[i]) {
            return false;
        }
        i = i + 1;
    }
    proof {
        assert(vs.skip(vs.len() as int) =~= Seq::<SpecNode>::empty());
    }
    true
}

} // verus!
