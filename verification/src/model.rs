//! The in-memory vault tree: groups, entries and their fields, together
//! with the mathematical view of that tree that every contract in the
//! crate speaks about.
//!
//! Group and entry names are kept as their UTF-8 bytes: the document
//! codec stores them as raw byte strings and queries compare them
//! byte-wise.

use vstd::prelude::*;

use vstd::string::StringSliceAdditionalSpecFns;

verus! {

/// A 128-bit node identifier.
#[derive(Clone, Copy, Debug, PartialEq, Eq, Hash, Structural)]
pub struct Uuid(pub u128);

/// One named value of an entry; `protected` marks it as individually
/// encrypted with the inner stream cipher while stored on disk.
#[derive(Clone, Debug, PartialEq, Eq)]
pub struct Field {
    pub name: Vec<u8>,
    pub protected: bool,
    pub value: Vec<u8>,
}

/// A credential record: an identifier and named fields.
#[derive(Clone, Debug, PartialEq, Eq)]
pub struct Entry {
    pub uuid: Uuid,
    pub fields: Vec<Field>,
}

/// A named container of child nodes; child order is insertion order and
/// is significant.
#[derive(Debug)]
pub struct Group {
    pub uuid: Uuid,
    pub name: Vec<u8>,
    pub children: Vec<Node>,
}

/// A node of the tree: either a group or an entry.
#[derive(Debug)]
pub enum Node {
    Group(Group),
    Entry(Entry),
}

/// A borrowed read view of a node, polymorphic over group and entry.
#[derive(Clone, Copy, Debug)]
pub enum NodeRef<'a> {
    Group(&'a Group),
    Entry(&'a Entry),
}

/// Mathematical view of a field.
pub struct SpecField {
    pub name: Seq<u8>,
    pub protected: bool,
    pub value: Seq<u8>,
}

/// Mathematical view of an entry.
pub struct SpecEntry {
    pub uuid: Uuid,
    pub fields: Seq<SpecField>,
}

/// Mathematical view of a group.
pub struct SpecGroup {
    pub uuid: Uuid,
    pub name: Seq<u8>,
    pub children: Seq<SpecNode>,
}

/// Mathematical view of a node.
pub enum SpecNode {
    Group(SpecGroup),
    Entry(SpecEntry),
}

pub open spec fn field_view(f: Field) -> SpecField {
    SpecField { name: f.name@, protected: f.protected, value: f.value@ }
}

pub open spec fn entry_view(e: Entry) -> SpecEntry {
    SpecEntry { uuid: e.uuid, fields: e.fields@.map_values(|f: Field| field_view(f)) }
}

pub open spec fn node_view(n: Node) -> SpecNode
    decreases n,
{
    match n {
        Node::Group(g) => SpecNode::Group(
            SpecGroup { uuid: g.uuid, name: g.name@, children: nodes_view(g.children@) },
        ),
        Node::Entry(e) => SpecNode::Entry(entry_view(e)),
    }
}

pub open spec fn nodes_view(cs: Seq<Node>) -> Seq<SpecNode>
    decreases cs,
{
    if cs.len() == 0 {
        Seq::empty()
    } else {
        seq![node_view(cs[0])] + nodes_view(cs.drop_first())
    }
}

/// `nodes_view` maps the view over the sequence element-wise.
pub proof fn lemma_nodes_view(cs: Seq<Node>)
    ensures
        nodes_view(cs).len() == cs.len(),
        forall|i: int| 0 <= i < cs.len() ==> nodes_view(cs)[i] == node_view(cs[i]),
    decreases cs,
{
    if cs.len() > 0 {
        lemma_nodes_view(cs.drop_first());
    }
}

impl View for Field {
    type V = SpecField;

    open spec fn view(&self) -> SpecField {
        field_view(*self)
    }
}

impl View for Entry {
    type V = SpecEntry;

    open spec fn view(&self) -> SpecEntry {
        entry_view(*self)
    }
}

impl View for Group {
    type V = SpecGroup;

    open spec fn view(&self) -> SpecGroup {
        match node_view(Node::Group(*self)) {
            SpecNode::Group(g) => g,
            SpecNode::Entry(e) => SpecGroup { uuid: e.uuid, name: Seq::empty(), children: Seq::empty() },
        }
    }
}

impl View for Node {
    type V = SpecNode;

    open spec fn view(&self) -> SpecNode {
        node_view(*self)
    }
}

impl<'a> View for NodeRef<'a> {
    type V = SpecNode;

    open spec fn view(&self) -> SpecNode {
        match *self {
            NodeRef::Group(g) => node_view(Node::Group(*g)),
            NodeRef::Entry(e) => SpecNode::Entry(entry_view(*e)),
        }
    }
}

/// The identifier of a node.
pub open spec fn spec_uuid_of(n: SpecNode) -> Uuid {
    match n {
        SpecNode::Group(g) => g.uuid,
        SpecNode::Entry(e) => e.uuid,
    }
}

/// All identifiers of a subtree, in depth-first pre-order.
pub open spec fn spec_ids(n: SpecNode) -> Seq<Uuid>
    decreases n,
{
    match n {
        SpecNode::Group(g) => seq![g.uuid] + spec_ids_list(g.children),
        SpecNode::Entry(e) => seq![e.uuid],
    }
}

pub open spec fn spec_ids_list(cs: Seq<SpecNode>) -> Seq<Uuid>
    decreases cs,
{
    if cs.len() == 0 {
        Seq::empty()
    } else {
        spec_ids(cs[0]) + spec_ids_list(cs.drop_first())
    }
}

/// Depth-first pre-order search for the first node carrying `id`.
pub open spec fn spec_find(n: SpecNode, id: Uuid) -> Option<SpecNode>
    decreases n,
{
    if spec_uuid_of(n) == id {
        Some(n)
    } else {
        match n {
            SpecNode::Group(g) => spec_find_list(g.children, id),
            SpecNode::Entry(_) => None,
        }
    }
}

pub open spec fn spec_find_list(cs: Seq<SpecNode>, id: Uuid) -> Option<SpecNode>
    decreases cs,
{
    if cs.len() == 0 {
        None
    } else if spec_find(cs[0], id) is Some {
        spec_find(cs[0], id)
    } else {
        spec_find_list(cs.drop_first(), id)
    }
}

/// A search succeeds exactly when the identifier occurs in the subtree,
/// and the node it returns carries that identifier.
pub proof fn lemma_find_ids(n: SpecNode, id: Uuid)
    ensures
        spec_find(n, id) is Some <==> spec_ids(n).contains(id),
        spec_find(n, id) matches Some(m) ==> spec_uuid_of(m) == id,
    decreases n,
{
    match n {
        SpecNode::Group(g) => {
            lemma_find_ids_list(g.children, id);
            if spec_uuid_of(n) == id {
                assert(spec_ids(n)[0] == id);
            } else {
                assert(spec_ids(n).contains(id) <==> spec_ids_list(g.children).contains(id)) by {
                    if spec_ids(n).contains(id) {
                        let i = choose|i: int| 0 <= i < spec_ids(n).len() && spec_ids(n)[i] == id;
                        assert(i != 0);
                        assert(spec_ids_list(g.children)[i - 1] == id);
                    }
                    if spec_ids_list(g.children).contains(id) {
                        let i = choose|i: int|
                            0 <= i < spec_ids_list(g.children).len() && spec_ids_list(g.children)[i]
                                == id;
                        assert(spec_ids(n)[i + 1] == id);
                    }
                }
            }
        },
        SpecNode::Entry(e) => {
            if spec_uuid_of(n) == id {
                assert(spec_ids(n)[0] == id);
            } else {
                assert(forall|i: int| 0 <= i < spec_ids(n).len() ==> spec_ids(n)[i] != id);
            }
        },
    }
}

pub proof fn lemma_find_ids_list(cs: Seq<SpecNode>, id: Uuid)
    ensures
        spec_find_list(cs, id) is Some <==> spec_ids_list(cs).contains(id),
        spec_find_list(cs, id) matches Some(m) ==> spec_uuid_of(m) == id,
    decreases cs,
{
    if cs.len() > 0 {
        lemma_find_ids(cs[0], id);
        lemma_find_ids_list(cs.drop_first(), id);
        let head = spec_ids(cs[0]);
        let tail = spec_ids_list(cs.drop_first());
        assert(spec_ids_list(cs) == head + tail);
        if spec_ids_list(cs).contains(id) {
            let i = choose|i: int|
                0 <= i < spec_ids_list(cs).len() && spec_ids_list(cs)[i] == id;
            if i < head.len() {
                assert(head[i] == id);
            } else {
                assert(tail[i - head.len()] == id);
            }
        }
        if head.contains(id) {
            let i = choose|i: int| 0 <= i < head.len() && head[i] == id;
            assert(spec_ids_list(cs)[i] == id);
        }
        if tail.contains(id) {
            let i = choose|i: int| 0 <= i < tail.len() && tail[i] == id;
            assert(spec_ids_list(cs)[head.len() + i] == id);
        }
    }
}

impl<'a> NodeRef<'a> {
    /// Whether this reference points at a group.
    pub fn is_group_ref(&self) -> (r: bool)
        ensures
            r == (self@ is Group),
    {
        match *self {
            NodeRef::Group(_) => true,
            NodeRef::Entry(_) => false,
        }
    }

    /// The identifier of the referenced node.
    pub fn uuid(&self) -> (r: Uuid)
        ensures
            r == spec_uuid_of(self@),
    {
        match *self {
            NodeRef::Group(g) => g.uuid,
            NodeRef::Entry(e) => e.uuid,
        }
    }
}

/// Depth-first pre-order search returning a reference to the first node
/// that carries `id`.
pub fn find_node<'a>(n: &'a Node, id: Uuid) -> (r: Option<NodeRef<'a>>)
    ensures
        match r {
            Some(nr) => spec_find(n@, id) == Some(nr@),
            None => spec_find(n@, id) is None,
        },
    decreases n,
{
    match n {
        Node::Group(g) => {
            if g.uuid == id {
                Some(NodeRef::Group(g))
            } else {
                find_in_list(&g.children, id)
            }
        },
        Node::Entry(e) => {
            if e.uuid == id {
                Some(NodeRef::Entry(e))
            } else {
                None
            }
        },
    }
}

pub fn find_in_list<'a>(cs: &'a Vec<Node>, id: Uuid) -> (r: Option<NodeRef<'a>>)
    ensures
        match r {
            Some(nr) => spec_find_list(nodes_view(cs@), id) == Some(nr@),
            None => spec_find_list(nodes_view(cs@), id) is None,
        },
    decreases cs,
{
    proof {
        lemma_nodes_view(cs@);
        assert(nodes_view(cs@).subrange(0, cs@.len() as int) =~= nodes_view(cs@));
    }
    let mut i: usize = 0;
    while i < cs.len()
        invariant
            i <= cs.len(),
            nodes_view(cs@).len() == cs@.len(),
            forall|j: int| 0 <= j < cs.len() ==> nodes_view(cs@)[j] == node_view(cs@[j]),
            forall|j: int| 0 <= j < i ==> spec_find(nodes_view(cs@)[j], id) is None,
            spec_find_list(nodes_view(cs@), id) == spec_find_list(
                nodes_view(cs@).subrange(i as int, cs@.len() as int),
                id,
            ),
        decreases cs.len() - i,
    {
        let r = find_node(&cs[i], id);
        proof {
            let vs = nodes_view(cs@);
            let rest = vs.subrange(i as int, cs@.len() as int);
            assert(rest[0] == vs[i as int]);
            assert(rest.drop_first() =~= vs.subrange(i as int + 1, cs@.len() as int));
        }
        if let Some(nr) = r {
            return Some(nr);
        }
        i = i + 1;
    }
    proof {
        assert(nodes_view(cs@).subrange(cs@.len() as int, cs@.len() as int) =~= Seq::<
            SpecNode,
        >::empty());
    }
    None
}

} // verus!

verus! {

/// The bytes of the field name that holds an entry's title.
pub open spec fn spec_title_key() -> Seq<u8> {
    seq![84u8, 105u8, 116u8, 108u8, 101u8]
}

/// An entry's title: the value of its first field named `Title`.
pub open spec fn spec_entry_title(fs: Seq<SpecField>) -> Option<Seq<u8>>
    decreases fs,
{
    if fs.len() == 0 {
        None
    } else if fs[0].name == spec_title_key() {
        Some(fs[0].value)
    } else {
        spec_entry_title(fs.drop_first())
    }
}

/// A node's display title: a group's name, an entry's title field.
pub open spec fn spec_title(n: SpecNode) -> Option<Seq<u8>> {
    match n {
        SpecNode::Group(g) => Some(g.name),
        SpecNode::Entry(e) => spec_entry_title(e.fields),
    }
}

/// Path lookup: the node is taken when its title matches the first
/// segment.  Descent goes by group names: for every segment before the
/// last, the walk picks the first child group whose name matches, with
/// no backtracking; the final segment may match any node's title.
pub open spec fn spec_get_path(n: SpecNode, path: Seq<Seq<u8>>) -> Option<SpecNode>
    decreases n,
{
    if path.len() == 0 {
        None
    } else if spec_title(n) != Some(path[0]) {
        None
    } else if path.len() == 1 {
        Some(n)
    } else {
        match n {
            SpecNode::Group(g) => spec_get_path_list(g.children, path.drop_first()),
            SpecNode::Entry(_) => None,
        }
    }
}

pub open spec fn spec_get_path_list(cs: Seq<SpecNode>, path: Seq<Seq<u8>>) -> Option<SpecNode>
    decreases cs,
{
    if cs.len() == 0 || path.len() == 0 {
        None
    } else if (path.len() == 1 || cs[0] is Group) && spec_title(cs[0]) == Some(path[0]) {
        spec_get_path(cs[0], path)
    } else {
        spec_get_path_list(cs.drop_first(), path)
    }
}

/// The byte strings of a path of string segments.
pub open spec fn spec_path_bytes(path: Seq<&str>) -> Seq<Seq<u8>> {
    Seq::new(path.len(), |i: int| path[i].spec_bytes())
}

/// The title of a node, as a borrowed byte string.
#[verifier::loop_isolation(false)]
pub fn node_title<'a>(n: &'a Node) -> (r: Option<&'a Vec<u8>>)
    ensures
        match r {
            Some(t) => spec_title(n@) == Some(t@),
            None => spec_title(n@) is None,
        },
{
    match n {
        Node::Group(g) => Some(&g.name),
        Node::Entry(e) => {
            let key: [u8; 5] = [84, 105, 116, 108, 101];
            let ghost fvs = e.fields@.map_values(|f: Field| field_view(f));
            proof {
                assert(key@ =~= spec_title_key());
                assert(fvs.skip(0) =~= fvs);
            }
            let mut i: usize = 0;
            while i < e.fields.len()
                invariant
                    i <= e.fields@.len(),
                    key@ == spec_title_key(),
                    fvs == e.fields@.map_values(|f: Field| field_view(f)),
                    fvs.len() == e.fields@.len(),
                    spec_entry_title(fvs) == spec_entry_title(fvs.skip(i as int)),
                decreases e.fields@.len() - i,
            {
                proof {
                    assert(fvs.skip(i as int)[0] == fvs[i as int]);
                    assert(fvs[i as int] == field_view(e.fields@[i as int]));
                    assert(fvs.skip(i as int).drop_first() =~= fvs.skip(i as int + 1));
                }
                if crate::bytes::bytes_eq(e.fields[i].name.as_slice(), key.as_slice()) {
                    proof {
                        assert(fvs.skip(i as int)[0] == field_view(e.fields@[i as int]));
                        assert(fvs.skip(i as int)[0].name == spec_title_key());
                        assert(spec_entry_title(fvs.skip(i as int)) == Some(
                            fvs.skip(i as int)[0].value,
                        ));
                        assert(spec_title(n@) == spec_entry_title(fvs));
                        assert(field_view(e.fields@[i as int]).value == e.fields@[i as int].value@);
                    }
                    return Some(&e.fields[i].value);
                }
                i = i + 1;
            }
            proof {
                assert(fvs.skip(fvs.len() as int) =~= Seq::<SpecField>::empty());
            }
            None
        },
    }
}

/// Whether the node is a group.
fn is_group_node(n: &Node) -> (r: bool)
    ensures
        r == (node_view(*n) is Group),
{
    match n {
        Node::Group(_) => true,
        Node::Entry(_) => false,
    }
}

/// Whether the node's title is exactly `seg`'s bytes.
fn title_matches(n: &Node, seg: &str) -> (r: bool)
    ensures
        r == (spec_title(n@) == Some(seg.spec_bytes())),
{
    match node_title(n) {
        Some(t) => crate::bytes::bytes_eq(t.as_slice(), seg.as_bytes()),
        None => false,
    }
}

/// Descends along `path` starting at segment `from`; exactly
/// `spec_get_path` on the remaining segments.
pub fn get_path_node<'a>(n: &'a Node, path: &[&str], from: usize) -> (r: Option<NodeRef<'a>>)
    requires
        from < path@.len(),
    ensures
        match r {
            Some(nr) => spec_get_path(n@, spec_path_bytes(path@).skip(from as int)) == Some(nr@),
            None => spec_get_path(n@, spec_path_bytes(path@).skip(from as int)) is None,
        },
    decreases n,
{
    let ghost rest = spec_path_bytes(path@).skip(from as int);
    proof {
        assert(rest[0] == path@[from as int].spec_bytes());
        assert(rest.len() == path@.len() - from);
    }
    if !title_matches(n, path[from]) {
        return None;
    }
    if from + 1 == path.len() {
        let nr = match n {
            Node::Group(g) => NodeRef::Group(g),
            Node::Entry(e) => NodeRef::Entry(e),
        };
        return Some(nr);
    }
    match n {
        Node::Group(g) => {
            proof {
                assert(rest.drop_first() =~= spec_path_bytes(path@).skip(from as int + 1));
            }
            get_path_list(&g.children, path, from + 1)
        },
        Node::Entry(_) => None,
    }
}

/// Scans a forest for the first candidate child matching segment
/// `from` — any node when it is the last segment, otherwise a group —
/// and descends into it.
pub fn get_path_list<'a>(cs: &'a Vec<Node>, path: &[&str], from: usize) -> (r: Option<
    NodeRef<'a>,
>)
    requires
        from < path@.len(),
    ensures
        match r {
            Some(nr) => spec_get_path_list(nodes_view(cs@), spec_path_bytes(path@).skip(
                from as int,
            )) == Some(nr@),
            None => spec_get_path_list(
                nodes_view(cs@),
                spec_path_bytes(path@).skip(from as int),
            ) is None,
        },
    decreases cs,
{
    let ghost vs = nodes_view(cs@);
    let ghost rest = spec_path_bytes(path@).skip(from as int);
    proof {
        lemma_nodes_view(cs@);
        assert(rest[0] == path@[from as int].spec_bytes());
        assert(vs.skip(0) =~= vs);
    }
    let mut i: usize = 0;
    while i < cs.len()
        invariant
            from < path@.len(),
            i <= cs@.len(),
            vs == nodes_view(cs@),
            rest == spec_path_bytes(path@).skip(from as int),
            rest.len() > 0,
            rest[0] == path@[from as int].spec_bytes(),
            vs.len() == cs@.len(),
            forall|j: int| 0 <= j < cs@.len() ==> vs[j] == node_view(cs@[j]),
            spec_get_path_list(vs, rest) == spec_get_path_list(
                vs.skip(i as int),
                rest,
            ),
        decreases cs@.len() - i,
    {
        proof {
            assert(vs.skip(i as int)[0] == vs[i as int]);
            assert(vs.skip(i as int).drop_first() =~= vs.skip(i as int + 1));
        }
        let candidate = path.len() - from == 1 || is_group_node(&cs[i]);
        if candidate && title_matches(&cs[i], path[from]) {
            return get_path_node(&cs[i], path, from);
        }
        i = i + 1;
    }
    proof {
        assert(vs.skip(vs.len() as int) =~= Seq::<SpecNode>::empty());
    }
    None
}

} // verus!
