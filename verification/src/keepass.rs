//! The vault itself: opening a file image into a database, sealing a
//! database back into a file image, and the query and mutation surface
//! over the group/entry tree.

use vstd::prelude::*;

use vstd::string::StringSliceAdditionalSpecFns;

use crate::body::{decrypt_body, encrypt_body, spec_decrypt_body, spec_encrypt_body};
use crate::bytes::{copy_range, push_bytes, push_u128_le};
use crate::document::{
    decode_document, encode_document, spec_decode_document, spec_doc_wf, spec_encode_document,
    InnerHeader,
};
use crate::error::Error;
use crate::header::{
    parse_header, spec_header_wf, spec_parse_header, spec_write_header, write_header, Header,
    KdfParams, SpecHeader,
};
use crate::kdf::{
    derive_key, spec_derived_keys, spec_has_credential, spec_keyfile_key, spec_kf_part,
};
use crate::model::{
    find_in_list, lemma_find_ids_list, lemma_nodes_view, node_view, nodes_view, spec_find,
    spec_get_path, spec_ids, spec_ids_list, spec_path_bytes, spec_uuid_of, Entry, Group, Node,
    NodeRef, SpecEntry, SpecGroup, SpecNode, Uuid,
};
use crate::mutate::{
    insert_list, lemma_candidate_pigeonhole, lemma_contains_concat, lemma_insert_node_wf,
    lemma_remove_node_wf, remove_list, spec_has_group, spec_insert_node, spec_remove_node,
    wrap_add,
};

verus! {

/// The largest identifier count a well-formed database may hold; far
/// beyond what a machine can store, but a bound the fresh-identifier
/// search needs.
pub const MAX_NODES: u64 = 0x8000_0000_0000_0000;

/// An open vault: its header, its inner header and the tree.
#[derive(Debug)]
pub struct Database {
    pub header: Header,
    pub inner: InnerHeader,
    pub root: Group,
}

/// The caller-facing handle, holding an open database or nothing.
#[derive(Debug)]
pub struct KpDb {
    pub db: Option<Database>,
}

/// A helper for rendering the tree; it only distinguishes node kinds.
#[derive(Debug, Default)]
pub struct Tree;

/// Well-formedness of an open database: a supported header, a proper
/// inner key, and identifiers that are unique and countable.
pub open spec fn spec_db_wf(d: Database) -> bool {
    &&& spec_header_wf(d.header@)
    &&& d.inner.stream_key@.len() == 32
    &&& spec_ids(SpecNode::Group(d.root@)).no_duplicates()
    &&& spec_ids(SpecNode::Group(d.root@)).len() <= MAX_NODES
}

impl KpDb {
    /// Well-formedness of the handle.
    pub open spec fn wf(self) -> bool {
        match self.db {
            Some(d) => spec_db_wf(d),
            None => true,
        }
    }

    /// The view of the tree, when a database is open.
    pub open spec fn spec_root(self) -> Option<SpecNode> {
        match self.db {
            Some(d) => Some(SpecNode::Group(d.root@)),
            None => None,
        }
    }
}

/// Whether the subtree's identifiers include `id`.
pub fn contains_id(g: &Group, id: Uuid) -> (r: bool)
    ensures
        r == spec_ids(SpecNode::Group(g@)).contains(id),
{
    proof {
        lemma_contains_concat(seq![g@.uuid], spec_ids_list(g@.children), id);
        lemma_find_ids_list(g@.children, id);
    }
    if g.uuid == id {
        proof {
            assert(seq![g@.uuid][0] == id);
        }
        return true;
    }
    find_in_list(&g.children, id).is_some()
}

/// Draws identifiers starting at `base` until one is free; the
/// identifier space is vastly larger than any tree, so a free one is
/// always reached.
pub fn fresh_id(g: &Group, base: u128) -> (r: Uuid)
    requires
        spec_ids(SpecNode::Group(g@)).no_duplicates(),
        spec_ids(SpecNode::Group(g@)).len() <= MAX_NODES,
    ensures
        !spec_ids(SpecNode::Group(g@)).contains(r),
{
    let ghost ids = spec_ids(SpecNode::Group(g@));
    let mut cand: u128 = base;
    let mut j: Ghost<nat> = Ghost(0nat);
    proof {
        assert(wrap_add(base, 0) == base);
    }
    loop
        invariant
            spec_ids(SpecNode::Group(g@)).no_duplicates(),
            spec_ids(SpecNode::Group(g@)).len() <= MAX_NODES,
            ids == spec_ids(SpecNode::Group(g@)),
            cand == wrap_add(base, j@),
            j@ <= ids.len(),
            forall|k: nat| k < j@ ==> ids.contains(Uuid(wrap_add(base, k))),
        decreases ids.len() - j@,
    {
        if !contains_id(g, Uuid(cand)) {
            return Uuid(cand);
        }
        proof {
            assert(ids.contains(Uuid(wrap_add(base, j@))));
            assert(forall|k: nat| k <= j@ ==> ids.contains(Uuid(wrap_add(base, k))));
            lemma_candidate_pigeonhole(ids, base, j@);
        }
        let ghost jold = j@;
        let ghost cold = cand;
        cand = cand.wrapping_add(1);
        proof {
            j@ = jold + 1;
            assert(cand == wrap_add(base, j@)) by {
                if base + jold > u128::MAX {
                    assert(cold == base + jold - 0x1_0000_0000_0000_0000_0000_0000_0000_0000);
                    assert(cold + 1 <= u128::MAX);
                } else {
                    assert(cold == base + jold);
                }
            }
        }
    }
}

/// Appends the subtree's identifiers, in depth-first pre-order.
#[verifier::loop_isolation(false)]
pub fn collect_ids(n: &Node, out: &mut Vec<Uuid>)
    ensures
        final(out)@ == old(out)@ + spec_ids(node_view(*n)),
    decreases n,
{
    match n {
        Node::Group(g) => {
            proof {
                lemma_nodes_view(g.children@);
            }
            let ghost vs = nodes_view(g.children@);
            out.push(g.uuid);
            let mut i: usize = 0;
            proof {
                assert(vs.skip(0) =~= vs);
                assert(out@ =~= old(out)@ + seq![g@.uuid]);
            }
            while i < g.children.len()
                invariant
                    i <= g.children@.len(),
                    out@ + spec_ids_list(vs.skip(i as int)) == old(out)@ + spec_ids(
                        node_view(*n),
                    ),
                decreases g.children@.len() - i,
            {
                proof {
                    assert(vs.skip(i as int)[0] == vs[i as int]);
                    assert(vs.skip(i as int).drop_first() =~= vs.skip(i as int + 1));
                }
                collect_ids(&g.children[i], out);
                i = i + 1;
            }
            proof {
                assert(vs.skip(vs.len() as int) =~= Seq::<SpecNode>::empty());
                assert(out@ + Seq::<Uuid>::empty() =~= out@);
            }
        },
        Node::Entry(e) => {
            out.push(e.uuid);
            proof {
                assert(out@ =~= old(out)@ + spec_ids(node_view(*n)));
            }
        },
    }
}

/// Whether all identifiers in the vector are distinct.
pub fn ids_unique(v: &Vec<Uuid>) -> (r: bool)
    ensures
        r == v@.no_duplicates(),
{
    let mut i: usize = 0;
    while i < v.len()
        invariant
            i <= v@.len(),
            forall|p: int, q: int| 0 <= p < q < v@.len() && p < i ==> v@[p] != v@[q],
        decreases v@.len() - i,
    {
        let mut j: usize = i + 1;
        while j < v.len()
            invariant
                i < j <= v@.len() || (i + 1 == j && j >= v@.len()),
                i < v@.len(),
                forall|q: int| i < q < j ==> v@[i as int] != v@[q],
            decreases v@.len() - j,
        {
            if v[i].0 == v[j].0 {
                return false;
            }
            j = j + 1;
        }
        i = i + 1;
    }
    true
}

/// What opening a file image yields, stage by stage: the header parse
/// with its own errors; the credential check; the authenticated
/// decryption; the document decode; and the identifier-uniqueness and
/// size checks, whose failure is a `Parse` error.
pub open spec fn spec_open(data: Seq<u8>, pw: Option<Seq<u8>>, kf: Option<Seq<u8>>) -> Result<
    (SpecHeader, Seq<u8>, SpecNode),
    Error,
> {
    match spec_parse_header(data) {
        Err(e) => Err(e),
        Ok((h, off)) => {
            if !spec_has_credential(pw, kf) {
                Err(Error::NoCredential)
            } else if kf matches Some(d) && spec_keyfile_key(d) is None {
                Err(Error::InvalidKeyFile)
            } else {
                let (ck, hk) = spec_derived_keys(h, pw, spec_kf_part(kf));
                match spec_decrypt_body(h, data.take(off), data.skip(off), ck, hk) {
                    Err(e) => Err(e),
                    Ok(pt) => match spec_decode_document(pt) {
                        Err(e) => Err(e),
                        Ok((ik, root)) => {
                            if !spec_ids(root).no_duplicates() || spec_ids(root).len()
                                > MAX_NODES {
                                Err(Error::Parse)
                            } else {
                                Ok((h, ik, root))
                            }
                        },
                    },
                }
            }
        },
    }
}

impl KpDb {
    /// A fresh, empty vault: a current-layout header over AES-256 with
    /// plain compression and the legacy derivation function, freshly
    /// drawn seeds, and a root group named `Root` with no children.
    pub fn new() -> (r: KpDb)
        ensures
            r.wf(),
            r.db is Some,
            r.db matches Some(d) ==> {
                &&& d.header@.version_major == 4
                &&& d.header@.cipher == crate::header::CipherId::Aes256
                &&& d.header@.compression == crate::header::Compression::Plain
                &&& d.header@.kdf matches crate::header::SpecKdf::Aes { rounds, seed } && rounds
                    == 60000 && seed.len() == 32
                &&& d.header@.master_seed.len() == 32
                &&& d.header@.iv.len() == 16
                &&& d.inner.stream_key@.len() == 32
                &&& d.root@.name == seq![82u8, 111u8, 111u8, 116u8]
                &&& d.root@.children.len() == 0
            },
    {
        let mut master_seed: Vec<u8> = Vec::new();
        push_u128_le(&mut master_seed, crate::crypto::random_u128());
        push_u128_le(&mut master_seed, crate::crypto::random_u128());
        let mut iv: Vec<u8> = Vec::new();
        push_u128_le(&mut iv, crate::crypto::random_u128());
        let mut kdf_seed: Vec<u8> = Vec::new();
        push_u128_le(&mut kdf_seed, crate::crypto::random_u128());
        push_u128_le(&mut kdf_seed, crate::crypto::random_u128());
        let mut stream_key: Vec<u8> = Vec::new();
        push_u128_le(&mut stream_key, crate::crypto::random_u128());
        push_u128_le(&mut stream_key, crate::crypto::random_u128());
        let header = Header {
            version_major: 4,
            version_minor: 0,
            cipher: crate::header::CipherId::Aes256,
            compression: crate::header::Compression::Plain,
            master_seed,
            iv,
            kdf: KdfParams::Aes { rounds: 60000, seed: kdf_seed },
        };
        let mut name: Vec<u8> = Vec::new();
        name.push(82u8);
        name.push(111u8);
        name.push(111u8);
        name.push(116u8);
        let root = Group { uuid: Uuid(crate::crypto::random_u128()), name, children: Vec::new() };
        proof {
            assert(nodes_view(root.children@) =~= Seq::<SpecNode>::empty());
            assert(spec_ids(SpecNode::Group(root@)) =~= seq![root@.uuid]);
        }
        KpDb { db: Some(Database { header, inner: InnerHeader { stream_key }, root }) }
    }

    /// Opens a vault image with a password and/or key file.  The result
    /// is exactly `spec_open`, except that the memory-hard derivation
    /// may also fail on memory exhaustion, reported as `Cipher`.
    pub fn open(data: &[u8], password: Option<&str>, keyfile: Option<&[u8]>) -> (r: Result<
        KpDb,
        Error,
    >)
        ensures
            ({
                let pw = match password {
                    Some(p) => Some(p.spec_bytes()),
                    None => None,
                };
                let kf = match keyfile {
                    Some(d) => Some(d@),
                    None => None,
                };
                match r {
                    Ok(kp) => {
                        &&& kp.wf()
                        &&& kp.db matches Some(d) && spec_open(data@, pw, kf) == Ok::<_, Error>(
                            (d.header@, d.inner.stream_key@, SpecNode::Group(d.root@)),
                        )
                    },
                    Err(e) => spec_open(data@, pw, kf) == Err::<
                        (SpecHeader, Seq<u8>, SpecNode),
                        _,
                    >(e) || (e == Error::Cipher && (spec_parse_header(data@) matches Ok(ho)
                        && ho.0.kdf is Argon2)),
                }
            }),
    {
        let (header, off) = match parse_header(data) {
            Ok(p) => p,
            Err(e) => {
                return Err(e);
            },
        };
        let (ck, hk) = match derive_key(password, keyfile, &header) {
            Ok(k) => k,
            Err(e) => {
                return Err(e);
            },
        };
        let hraw = copy_range(data, 0, off);
        let body = copy_range(data, off, data.len());
        proof {
            assert(hraw@ =~= data@.take(off as int));
            assert(body@ =~= data@.skip(off as int));
        }
        let mut ck = ck;
        let mut hk = hk;
        let pt = decrypt_body(&header, hraw.as_slice(), body.as_slice(), ck.as_slice(),
            hk.as_slice());
        // The derived keys are only needed for the body; zero them before
        // they are dropped.
        crate::bytes::wipe(&mut ck);
        crate::bytes::wipe(&mut hk);
        let pt = match pt {
            Ok(p) => p,
            Err(e) => {
                return Err(e);
            },
        };
        let (inner, root) = match decode_document(pt.as_slice()) {
            Ok(d) => d,
            Err(e) => {
                return Err(e);
            },
        };
        let root_node = Node::Group(root);
        let mut ids: Vec<Uuid> = Vec::new();
        collect_ids(&root_node, &mut ids);
        if !ids_unique(&ids) {
            return Err(Error::Parse);
        }
        if ids.len() as u64 > MAX_NODES {
            return Err(Error::Parse);
        }
        let root = match root_node {
            Node::Group(g) => g,
            Node::Entry(_) => {
                proof {
                    assert(false);
                }
                return Err(Error::Parse);
            },
        };
        Ok(KpDb { db: Some(Database { header, inner, root }) })
    }

    /// Seals the open database back into a file image under the given
    /// credentials.  `NotFound` when no database is open; otherwise the
    /// credential errors of key derivation, and `Parse` or `Cipher` when
    /// the tree or body outruns a size bound.
    pub fn seal(&self, password: Option<&str>, keyfile: Option<&[u8]>) -> (r: Result<
        Vec<u8>,
        Error,
    >)
        requires
            self.wf(),
        ensures
            ({
                let pw = match password {
                    Some(p) => Some(p.spec_bytes()),
                    None => None,
                };
                let kf = match keyfile {
                    Some(d) => Some(d@),
                    None => None,
                };
                match r {
                    Ok(v) => self.db matches Some(d) && ({
                        let hraw = spec_write_header(d.header@);
                        let (ck, hk) = spec_derived_keys(d.header@, pw, spec_kf_part(kf));
                        let pt = spec_encode_document(
                            d.inner.stream_key@,
                            SpecNode::Group(d.root@),
                        );
                        v@ == hraw + spec_encrypt_body(d.header@, hraw, pt, ck, hk)
                    }),
                    Err(e) => self.db is None ==> e == Error::NotFound,
                }
            }),
            // Success is owed when a database is open, the credentials are
            // acceptable, the derivation function is the legacy one, the
            // tree fits the record layout, and the body fits its bounds.
            ({
                let pw = match password {
                    Some(p) => Some(p.spec_bytes()),
                    None => None,
                };
                let kf = match keyfile {
                    Some(d) => Some(d@),
                    None => None,
                };
                let pt = spec_encode_document(
                    self.db->0.inner.stream_key@,
                    SpecNode::Group(self.db->0.root@),
                );
                (self.db matches Some(d) && spec_has_credential(pw, kf) && (
                kf matches Some(data) ==> spec_keyfile_key(data) is Some) && d.header@.kdf is Aes
                    && spec_doc_wf(SpecNode::Group(d.root@)) && crate::document::spec_prot_len(
                    SpecNode::Group(d.root@),
                ) <= 0xffff_ffff && (match d.header@.compression {
                    crate::header::Compression::Plain => pt.len() <= 0xff00_0000,
                    crate::header::Compression::Gzip => crate::crypto::gzip_of(pt).len()
                        <= 0xff00_0000,
                })) ==> r is Ok
            }),
    {
        let d = match &self.db {
            Some(d) => d,
            None => {
                return Err(Error::NotFound);
            },
        };
        let (ck, hk) = match derive_key(password, keyfile, &d.header) {
            Ok(k) => k,
            Err(e) => {
                return Err(e);
            },
        };
        if !crate::document::doc_wf_check_group(&d.root) {
            return Err(Error::Parse);
        }
        let pt = match encode_document(&d.inner, &d.root) {
            Ok(p) => p,
            Err(e) => {
                return Err(e);
            },
        };
        let hraw = write_header(&d.header);
        let mut ck = ck;
        let mut hk = hk;
        let body = encrypt_body(&d.header, hraw.as_slice(), pt.as_slice(), ck.as_slice(),
            hk.as_slice());
        // The derived keys are only needed for the body; zero them before
        // they are dropped.
        crate::bytes::wipe(&mut ck);
        crate::bytes::wipe(&mut hk);
        let body = match body {
            Ok(b) => b,
            Err(e) => {
                return Err(e);
            },
        };
        let mut out: Vec<u8> = Vec::new();
        push_bytes(&mut out, hraw.as_slice());
        push_bytes(&mut out, body.as_slice());
        Ok(out)
    }

    /// The root group, when a database is open.
    pub fn get_root(&self) -> (r: Option<NodeRef<'_>>)
        ensures
            match r {
                Some(nr) => self.spec_root() == Some(nr@),
                None => self.db is None,
            },
    {
        match &self.db {
            Some(d) => Some(NodeRef::Group(&d.root)),
            None => None,
        }
    }

    /// Depth-first pre-order search for `id` in the open tree.
    pub fn get_node_by_id(&self, id: Uuid) -> (r: Option<NodeRef<'_>>)
        ensures
            match r {
                Some(nr) => self.spec_root() matches Some(root) && spec_find(root, id) == Some(
                    nr@,
                ),
                None => match self.spec_root() {
                    Some(root) => spec_find(root, id) is None,
                    None => true,
                },
            },
    {
        let d = match &self.db {
            Some(d) => d,
            None => {
                return None;
            },
        };
        if d.root.uuid == id {
            return Some(NodeRef::Group(&d.root));
        }
        find_in_list(&d.root.children, id)
    }

    /// Path lookup from the root: the first segment must name the root,
    /// descent goes by group names, and the final segment may name any
    /// node.
    pub fn get_item(&self, path: &[&str]) -> (r: Option<NodeRef<'_>>)
        ensures
            match r {
                Some(nr) => self.spec_root() matches Some(root) && spec_get_path(
                    root,
                    spec_path_bytes(path@),
                ) == Some(nr@),
                None => match self.spec_root() {
                    Some(root) => spec_get_path(root, spec_path_bytes(path@)) is None,
                    None => true,
                },
            },
    {
        let d = match &self.db {
            Some(d) => d,
            None => {
                return None;
            },
        };
        if path.len() == 0 {
            return None;
        }
        get_path_group(&d.root, path)
    }

    /// The group children of `parent`, in order.
    pub fn get_groups<'a>(&self, parent: &NodeRef<'a>) -> (r: Vec<NodeRef<'a>>)
        requires
            parent@ is Group,
        ensures
            r@.map_values(|nr: NodeRef<'a>| nr@) == (parent@->Group_0.children).filter(
                |c: SpecNode| c is Group,
            ),
    {
        filter_children(parent, true)
    }

    /// The entry children of `parent`, in order.
    pub fn get_entries<'a>(&self, parent: &NodeRef<'a>) -> (r: Vec<NodeRef<'a>>)
        requires
            parent@ is Group,
        ensures
            r@.map_values(|nr: NodeRef<'a>| nr@) == (parent@->Group_0.children).filter(
                |c: SpecNode| !(c is Group),
            ),
    {
        filter_children(parent, false)
    }

    /// Removes the node carrying `uuid`, with its whole subtree.
    ///
    /// Succeeds exactly when the identifier names a node other than the
    /// root; the root itself cannot be removed.  On failure the tree is
    /// unchanged.
    pub fn delete_node(&mut self, uuid: Uuid) -> (r: Result<(), Error>)
        requires
            old(self).wf(),
        ensures
            final(self).wf(),
            final(self).db is Some <==> old(self).db is Some,
            ({
                match old(self).spec_root() {
                    Some(root) => {
                        &&& (r is Ok <==> (spec_ids(root).contains(uuid) && spec_uuid_of(root)
                            != uuid))
                        &&& (r matches Err(e) ==> e == Error::NotFound)
                        &&& final(self).spec_root() == Some(
                            if r is Ok {
                                spec_remove_node(root, uuid).0
                            } else {
                                root
                            },
                        )
                        &&& r is Ok ==> match final(self).spec_root() {
                            Some(root2) => !spec_ids(root2).contains(uuid) && spec_find(
                                root2,
                                uuid,
                            ) is None,
                            None => false,
                        }
                    },
                    None => r == Err::<(), Error>(Error::NotFound) && final(self).db is None,
                }
            }),
    {
        let d = match self.db.take() {
            Some(d) => d,
            None => {
                return Err(Error::NotFound);
            },
        };
        let ghost root0 = SpecNode::Group(d.root@);
        proof {
            lemma_remove_node_wf(root0, uuid);
        }
        let Database { header, inner, root } = d;
        let Group { uuid: ruid, name, children } = root;
        let ghost children0 = nodes_view(children@);
        let (children2, removed) = remove_list(children, uuid);
        let root2 = Group { uuid: ruid, name, children: children2 };
        proof {
            assert(SpecNode::Group(root2@) == spec_remove_node(root0, uuid).0);
            lemma_contains_concat(seq![ruid], spec_ids_list(children0), uuid);
            if removed is None {
                assert(spec_remove_node(root0, uuid).1 is None);
            }
        }
        self.db = Some(Database { header, inner, root: root2 });
        match removed {
            Some(_) => Ok(()),
            None => Err(Error::NotFound),
        }
    }

    /// Creates an empty group under the group carrying `parent`,
    /// returning the fresh identifier.  Fails with `NotFound` exactly
    /// when no group carries `parent`; on failure the tree is unchanged.
    pub fn create_new_group(&mut self, parent: Uuid) -> (r: Result<Uuid, Error>)
        requires
            old(self).wf(),
            old(self).spec_root() matches Some(root) ==> spec_ids(root).len() < MAX_NODES,
        ensures
            final(self).wf(),
            final(self).db is Some <==> old(self).db is Some,
            ({
                match old(self).spec_root() {
                    Some(root) => {
                        &&& (r is Ok <==> spec_has_group(root, parent))
                        &&& (r matches Err(e) ==> e == Error::NotFound)
                        &&& (r matches Ok(nid) ==> !spec_ids(root).contains(nid)
                            && final(self).spec_root() == Some(
                            spec_insert_node(
                                root,
                                parent,
                                SpecNode::Group(
                                    SpecGroup {
                                        uuid: nid,
                                        name: Seq::empty(),
                                        children: Seq::empty(),
                                    },
                                ),
                            ).0,
                        ) && (match final(self).spec_root() {
                            Some(root2) => spec_find(root2, nid) == Some(
                                SpecNode::Group(
                                    SpecGroup {
                                        uuid: nid,
                                        name: Seq::empty(),
                                        children: Seq::empty(),
                                    },
                                ),
                            ),
                            None => false,
                        }))
                        &&& (r is Err ==> final(self).spec_root() == Some(root))
                    },
                    None => r == Err::<Uuid, Error>(Error::NotFound) && final(self).db is None,
                }
            }),
    {
        let d = match self.db.take() {
            Some(d) => d,
            None => {
                return Err(Error::NotFound);
            },
        };
        let nid = fresh_id(&d.root, crate::crypto::random_u128());
        let ghost root0 = SpecNode::Group(d.root@);
        let child = Node::Group(Group { uuid: nid, name: Vec::new(), children: Vec::new() });
        let ghost childv = node_view(child);
        proof {
            assert(nodes_view(child->Group_0.children@) =~= Seq::<SpecNode>::empty());
            assert(childv == SpecNode::Group(
                SpecGroup { uuid: nid, name: Seq::empty(), children: Seq::empty() },
            ));
            assert(spec_ids(childv) =~= seq![nid]);
            lemma_insert_node_wf(root0, parent, childv);
        }
        let Database { header, inner, root } = d;
        let Group { uuid: ruid, name, children } = root;
        let ghost children0 = nodes_view(children@);
        if ruid == parent {
            let mut children = children;
            let ghost cs_old = children@;
            children.push(child);
            proof {
                lemma_nodes_view(cs_old);
                lemma_nodes_view(children@);
                assert(forall|k: int| 0 <= k < cs_old.len() ==> children@[k] == cs_old[k]);
                assert(nodes_view(children@) =~= children0.push(childv));
            }
            let root2 = Group { uuid: ruid, name, children };
            proof {
                assert(SpecNode::Group(root2@) == spec_insert_node(root0, parent, childv).0);
            }
            self.db = Some(Database { header, inner, root: root2 });
            return Ok(nid);
        }
        let (children2, back) = insert_list(children, parent, child);
        let root2 = Group { uuid: ruid, name, children: children2 };
        proof {
            assert(SpecNode::Group(root2@) == spec_insert_node(root0, parent, childv).0);
        }
        self.db = Some(Database { header, inner, root: root2 });
        match back {
            None => Ok(nid),
            Some(_) => Err(Error::NotFound),
        }
    }

    /// Creates an empty entry under the group carrying `parent`,
    /// returning the fresh identifier; as `create_new_group`, with an
    /// entry in place of a group.
    pub fn create_new_entry(&mut self, parent: Uuid) -> (r: Result<Uuid, Error>)
        requires
            old(self).wf(),
            old(self).spec_root() matches Some(root) ==> spec_ids(root).len() < MAX_NODES,
        ensures
            final(self).wf(),
            final(self).db is Some <==> old(self).db is Some,
            ({
                match old(self).spec_root() {
                    Some(root) => {
                        &&& (r is Ok <==> spec_has_group(root, parent))
                        &&& (r matches Err(e) ==> e == Error::NotFound)
                        &&& (r matches Ok(nid) ==> !spec_ids(root).contains(nid)
                            && final(self).spec_root() == Some(
                            spec_insert_node(
                                root,
                                parent,
                                SpecNode::Entry(SpecEntry { uuid: nid, fields: Seq::empty() }),
                            ).0,
                        ) && (match final(self).spec_root() {
                            Some(root2) => spec_find(root2, nid) == Some(
                                SpecNode::Entry(SpecEntry { uuid: nid, fields: Seq::empty() }),
                            ),
                            None => false,
                        }))
                        &&& (r is Err ==> final(self).spec_root() == Some(root))
                    },
                    None => r == Err::<Uuid, Error>(Error::NotFound) && final(self).db is None,
                }
            }),
    {
        let d = match self.db.take() {
            Some(d) => d,
            None => {
                return Err(Error::NotFound);
            },
        };
        let nid = fresh_id(&d.root, crate::crypto::random_u128());
        let ghost root0 = SpecNode::Group(d.root@);
        let child = Node::Entry(Entry { uuid: nid, fields: Vec::new() });
        let ghost childv = node_view(child);
        proof {
            assert(child->Entry_0.fields@.map_values(|f: crate::model::Field|
                crate::model::field_view(f)) =~= Seq::<crate::model::SpecField>::empty());
            assert(childv == SpecNode::Entry(SpecEntry { uuid: nid, fields: Seq::empty() }));
            assert(spec_ids(childv) =~= seq![nid]);
            lemma_insert_node_wf(root0, parent, childv);
        }
        let Database { header, inner, root } = d;
        let Group { uuid: ruid, name, children } = root;
        let ghost children0 = nodes_view(children@);
        if ruid == parent {
            let mut children = children;
            let ghost cs_old = children@;
            children.push(child);
            proof {
                lemma_nodes_view(cs_old);
                lemma_nodes_view(children@);
                assert(forall|k: int| 0 <= k < cs_old.len() ==> children@[k] == cs_old[k]);
                assert(nodes_view(children@) =~= children0.push(childv));
            }
            let root2 = Group { uuid: ruid, name, children };
            proof {
                assert(SpecNode::Group(root2@) == spec_insert_node(root0, parent, childv).0);
            }
            self.db = Some(Database { header, inner, root: root2 });
            return Ok(nid);
        }
        let (children2, back) = insert_list(children, parent, child);
        let root2 = Group { uuid: ruid, name, children: children2 };
        proof {
            assert(SpecNode::Group(root2@) == spec_insert_node(root0, parent, childv).0);
        }
        self.db = Some(Database { header, inner, root: root2 });
        match back {
            None => Ok(nid),
            Some(_) => Err(Error::NotFound),
        }
    }
}

/// Path walk entered at a group root.
fn get_path_group<'a>(g: &'a Group, path: &[&str]) -> (r: Option<NodeRef<'a>>)
    requires
        path@.len() > 0,
    ensures
        match r {
            Some(nr) => spec_get_path(SpecNode::Group(g@), spec_path_bytes(path@)) == Some(nr@),
            None => spec_get_path(SpecNode::Group(g@), spec_path_bytes(path@)) is None,
        },
{
    let ghost pb = spec_path_bytes(path@);
    proof {
        assert(pb.skip(0) =~= pb);
    }
    if !crate::bytes::bytes_eq(g.name.as_slice(), path[0].as_bytes()) {
        proof {
            assert(pb[0] == path@[0].spec_bytes());
        }
        return None;
    }
    proof {
        assert(pb[0] == path@[0].spec_bytes());
    }
    if path.len() == 1 {
        return Some(NodeRef::Group(g));
    }
    proof {
        assert(pb.drop_first() =~= spec_path_bytes(path@).skip(1));
    }
    crate::model::get_path_list(&g.children, path, 1)
}

/// The children of a group reference, keeping either the groups or the
/// entries.
fn filter_children<'a>(parent: &NodeRef<'a>, want_groups: bool) -> (r: Vec<NodeRef<'a>>)
    requires
        parent@ is Group,
    ensures
        want_groups ==> r@.map_values(|nr: NodeRef<'a>| nr@) == (
        parent@->Group_0.children).filter(|c: SpecNode| c is Group),
        !want_groups ==> r@.map_values(|nr: NodeRef<'a>| nr@) == (
        parent@->Group_0.children).filter(|c: SpecNode| !(c is Group)),
{
    let g = match parent {
        NodeRef::Group(g) => *g,
        NodeRef::Entry(_) => {
            proof {
                assert(false);
            }
            return Vec::new();
        },
    };
    let ghost vs = nodes_view(g.children@);
    let ghost pred = |c: SpecNode| c is Group == want_groups;
    proof {
        lemma_nodes_view(g.children@);
        assert(vs.take(0) =~= Seq::<SpecNode>::empty());
    }
    let mut out: Vec<NodeRef<'a>> = Vec::new();
    let mut i: usize = 0;
    proof {
        assert(out@.map_values(|nr: NodeRef<'a>| nr@) =~= vs.take(0).filter(pred));
    }
    while i < g.children.len()
        invariant
            i <= g.children@.len(),
            vs == nodes_view(g.children@),
            vs.len() == g.children@.len(),
            pred == (|c: SpecNode| c is Group == want_groups),
            forall|j: int| 0 <= j < g.children@.len() ==> vs[j] == node_view(g.children@[j]),
            out@.map_values(|nr: NodeRef<'a>| nr@) == vs.take(i as int).filter(pred),
        decreases g.children@.len() - i,
    {
        let ghost out_old = out@;
        let c = &g.children[i];
        let is_g = match c {
            Node::Group(_) => true,
            Node::Entry(_) => false,
        };
        if is_g == want_groups {
            let nr = match c {
                Node::Group(cg) => NodeRef::Group(cg),
                Node::Entry(ce) => NodeRef::Entry(ce),
            };
            out.push(nr);
        }
        proof {
            assert(vs.take(i as int + 1).drop_last() =~= vs.take(i as int));
            assert(vs.take(i as int + 1).last() == vs[i as int]);
            reveal_with_fuel(Seq::filter, 2);
            if is_g == want_groups {
                let m = out@.map_values(|nr: NodeRef<'a>| nr@);
                let mo = out_old.map_values(|nr: NodeRef<'a>| nr@);
                assert(m =~= mo.push(vs[i as int]));
            }
        }
        i = i + 1;
    }
    proof {
        assert(vs.take(vs.len() as int) =~= vs);
        if want_groups {
            lemma_filter_ext(vs, pred, |c: SpecNode| c is Group);
        } else {
            lemma_filter_ext(vs, pred, |c: SpecNode| !(c is Group));
        }
    }
    out
}

/// Two point-wise equal predicates filter a sequence the same way.
pub proof fn lemma_filter_ext(
    s: Seq<SpecNode>,
    p1: spec_fn(SpecNode) -> bool,
    p2: spec_fn(SpecNode) -> bool,
)
    requires
        forall|x: SpecNode| #[trigger] p1(x) == #[trigger] p2(x),
    ensures
        s.filter(p1) == s.filter(p2),
    decreases s.len(),
{
    reveal(Seq::filter);
    if s.len() > 0 {
        lemma_filter_ext(s.drop_last(), p1, p2);
    }
}

impl Tree {
    /// Whether the referenced node is a group.
    pub fn is_group(&self, node: &NodeRef<'_>) -> (r: bool)
        ensures
            r == (node@ is Group),
    {
        node.is_group_ref()
    }
}

} // verus!
