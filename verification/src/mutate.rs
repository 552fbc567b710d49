//! In-place tree mutation: removing a node (with its subtree) and
//! inserting a fresh child under a named parent group, together with the
//! lemmas that connect both operations to search and to identifier
//! uniqueness.

use vstd::prelude::*;

use crate::model::{
    lemma_find_ids, lemma_find_ids_list, lemma_nodes_view, node_view, nodes_view, spec_find,
    spec_find_list, spec_ids, spec_ids_list, spec_uuid_of, Entry, Group, Node, SpecGroup,
    SpecNode, Uuid,
};

verus! {

/// The number of nodes in a subtree; only used as a termination measure.
pub open spec fn spec_size(n: SpecNode) -> nat
    decreases n,
{
    match n {
        SpecNode::Group(g) => 1 + spec_size_list(g.children),
        SpecNode::Entry(_) => 1,
    }
}

pub open spec fn spec_size_list(cs: Seq<SpecNode>) -> nat
    decreases cs,
{
    if cs.len() == 0 {
        0
    } else {
        spec_size(cs[0]) + spec_size_list(cs.drop_first())
    }
}

/// Every subtree holds at least one node.
pub proof fn lemma_size_pos(n: SpecNode)
    ensures
        spec_size(n) >= 1,
{
    match n {
        SpecNode::Group(_) => {},
        SpecNode::Entry(_) => {},
    }
}

/// Removes the first node carrying `id` from the forest, together with
/// its whole subtree; returns the new forest and the removed node.
pub open spec fn spec_remove_list(cs: Seq<SpecNode>, id: Uuid) -> (Seq<SpecNode>, Option<
    SpecNode,
>)
    decreases cs,
{
    if cs.len() == 0 {
        (cs, None)
    } else if spec_uuid_of(cs[0]) == id {
        (cs.drop_first(), Some(cs[0]))
    } else {
        let (h2, r0) = spec_remove_node(cs[0], id);
        if r0 is Some {
            (seq![h2] + cs.drop_first(), r0)
        } else {
            let (rest, r1) = spec_remove_list(cs.drop_first(), id);
            (seq![h2] + rest, r1)
        }
    }
}

/// Removes the first node carrying `id` strictly below `n`.
pub open spec fn spec_remove_node(n: SpecNode, id: Uuid) -> (SpecNode, Option<SpecNode>)
    decreases n,
{
    match n {
        SpecNode::Group(g) => {
            let (cs2, r) = spec_remove_list(g.children, id);
            (SpecNode::Group(SpecGroup { uuid: g.uuid, name: g.name, children: cs2 }), r)
        },
        SpecNode::Entry(_) => (n, None),
    }
}

/// Whether the subtree holds a group carrying `id`.
pub open spec fn spec_has_group(n: SpecNode, id: Uuid) -> bool
    decreases n,
{
    match n {
        SpecNode::Group(g) => g.uuid == id || spec_has_group_list(g.children, id),
        SpecNode::Entry(_) => false,
    }
}

pub open spec fn spec_has_group_list(cs: Seq<SpecNode>, id: Uuid) -> bool
    decreases cs,
{
    if cs.len() == 0 {
        false
    } else {
        spec_has_group(cs[0], id) || spec_has_group_list(cs.drop_first(), id)
    }
}

/// Appends `c` to the children of the first group carrying `parent`, in
/// depth-first pre-order; reports whether such a group was found.
pub open spec fn spec_insert_node(n: SpecNode, parent: Uuid, c: SpecNode) -> (SpecNode, bool)
    decreases n,
{
    match n {
        SpecNode::Group(g) => {
            if g.uuid == parent {
                (
                    SpecNode::Group(
                        SpecGroup { uuid: g.uuid, name: g.name, children: g.children.push(c) },
                    ),
                    true,
                )
            } else {
                let (cs2, f) = spec_insert_list(g.children, parent, c);
                (SpecNode::Group(SpecGroup { uuid: g.uuid, name: g.name, children: cs2 }), f)
            }
        },
        SpecNode::Entry(_) => (n, false),
    }
}

pub open spec fn spec_insert_list(cs: Seq<SpecNode>, parent: Uuid, c: SpecNode) -> (Seq<
    SpecNode,
>, bool)
    decreases cs,
{
    if cs.len() == 0 {
        (cs, false)
    } else {
        let (h2, f) = spec_insert_node(cs[0], parent, c);
        if f {
            (seq![h2] + cs.drop_first(), true)
        } else {
            let (rest, f1) = spec_insert_list(cs.drop_first(), parent, c);
            (seq![h2] + rest, f1)
        }
    }
}

/// Removes the first node carrying `id` from the vector, returning the
/// removed node when one was found.
pub fn remove_list(cs: Vec<Node>, id: Uuid) -> (r: (Vec<Node>, Option<Node>))
    ensures
        ({
            let (vs2, removed) = spec_remove_list(nodes_view(cs@), id);
            &&& nodes_view(r.0@) == vs2
            &&& match r.1 {
                Some(m) => removed == Some(node_view(m)),
                None => removed is None,
            }
        }),
    decreases spec_size_list(nodes_view(cs@)), 1nat,
{
    proof {
        lemma_nodes_view(cs@);
    }
    let mut cs = cs;
    if cs.len() == 0 {
        return (cs, None);
    }
    let ghost cs0 = cs@;
    let ghost vs = nodes_view(cs@);
    let head = cs.remove(0);
    proof {
        assert(cs@ =~= cs0.drop_first());
        assert(nodes_view(cs@) =~= vs.drop_first()) by {
            lemma_nodes_view(cs@);
            lemma_nodes_view(cs0);
        }
        assert(vs[0] == node_view(head));
    }
    let hid = match &head {
        Node::Group(g) => g.uuid,
        Node::Entry(e) => e.uuid,
    };
    if hid == id {
        return (cs, Some(head));
    }
    let (h2, r0) = remove_node(head, id);
    if r0.is_some() {
        cs.insert(0, h2);
        proof {
            lemma_nodes_view(cs@);
            let (hv2, rv0) = spec_remove_node(vs[0], id);
            assert(nodes_view(cs@) =~= seq![hv2] + vs.drop_first()) by {
                assert(cs@[0] == h2);
                assert(forall|i: int|
                    1 <= i < cs@.len() ==> cs@[i] == cs0.drop_first()[i - 1]);
                lemma_nodes_view(cs0.drop_first());
            }
        }
        return (cs, r0);
    }
    proof {
        assert(spec_size_list(vs) == spec_size(vs[0]) + spec_size_list(vs.drop_first()));
        lemma_size_pos(vs[0]);
    }
    let (mut rest, r1) = remove_list(cs, id);
    let ghost rest0 = rest@;
    rest.insert(0, h2);
    proof {
        lemma_nodes_view(rest@);
        let prev = rest@.drop_first();
        assert(prev =~= rest0);
        lemma_nodes_view(prev);
        assert(nodes_view(rest@) =~= seq![node_view(h2)] + nodes_view(prev));
        assert(nodes_view(rest@) =~= seq![spec_remove_node(vs[0], id).0] + spec_remove_list(
            vs.drop_first(),
            id,
        ).0);
    }
    (rest, r1)
}

/// Removes the first node carrying `id` strictly below `n`.
pub fn remove_node(n: Node, id: Uuid) -> (r: (Node, Option<Node>))
    ensures
        ({
            let (n2, removed) = spec_remove_node(node_view(n), id);
            &&& node_view(r.0) == n2
            &&& match r.1 {
                Some(m) => removed == Some(node_view(m)),
                None => removed is None,
            }
        }),
    decreases spec_size(node_view(n)), 0nat,
{
    match n {
        Node::Group(g) => {
            let Group { uuid, name, children } = g;
            let (cs2, r) = remove_list(children, id);
            (Node::Group(Group { uuid, name, children: cs2 }), r)
        },
        Node::Entry(e) => (Node::Entry(e), None),
    }
}

/// Appends `c` to the children of the first group carrying `parent`;
/// hands `c` back untouched when no such group exists in the vector.
pub fn insert_list(cs: Vec<Node>, parent: Uuid, c: Node) -> (r: (Vec<Node>, Option<Node>))
    ensures
        ({
            let (vs2, f) = spec_insert_list(nodes_view(cs@), parent, node_view(c));
            &&& nodes_view(r.0@) == vs2
            &&& match r.1 {
                Some(back) => !f && back == c,
                None => f,
            }
        }),
    decreases spec_size_list(nodes_view(cs@)), 1nat,
{
    proof {
        lemma_nodes_view(cs@);
    }
    let mut cs = cs;
    if cs.len() == 0 {
        return (cs, Some(c));
    }
    let ghost cs0 = cs@;
    let ghost vs = nodes_view(cs@);
    let head = cs.remove(0);
    proof {
        assert(cs@ =~= cs0.drop_first());
        assert(nodes_view(cs@) =~= vs.drop_first()) by {
            lemma_nodes_view(cs@);
            lemma_nodes_view(cs0);
        }
        assert(vs[0] == node_view(head));
    }
    let (h2, back) = insert_node(head, parent, c);
    match back {
        None => {
            cs.insert(0, h2);
            proof {
                lemma_nodes_view(cs@);
                let (hv2, f0) = spec_insert_node(vs[0], parent, node_view(c));
                assert(nodes_view(cs@) =~= seq![hv2] + vs.drop_first()) by {
                    assert(cs@[0] == h2);
                    assert(forall|i: int|
                        1 <= i < cs@.len() ==> cs@[i] == cs0.drop_first()[i - 1]);
                    lemma_nodes_view(cs0.drop_first());
                }
            }
            (cs, None)
        },
        Some(c) => {
            proof {
                assert(spec_size_list(vs) == spec_size(vs[0]) + spec_size_list(vs.drop_first()));
                lemma_size_pos(vs[0]);
            }
            let (mut rest, back2) = insert_list(cs, parent, c);
            let ghost rest0 = rest@;
            rest.insert(0, h2);
            proof {
                lemma_nodes_view(rest@);
                let prev = rest@.drop_first();
                assert(prev =~= rest0);
                lemma_nodes_view(prev);
                assert(nodes_view(rest@) =~= seq![node_view(h2)] + nodes_view(prev));
                assert(nodes_view(rest@) =~= seq![spec_insert_node(vs[0], parent, node_view(c)).0]
                    + spec_insert_list(vs.drop_first(), parent, node_view(c)).0);
            }
            (rest, back2)
        },
    }
}

/// Appends `c` to the children of the first group carrying `parent` in
/// the subtree of `n`; hands `c` back untouched when no such group
/// exists.
pub fn insert_node(n: Node, parent: Uuid, c: Node) -> (r: (Node, Option<Node>))
    ensures
        ({
            let (n2, f) = spec_insert_node(node_view(n), parent, node_view(c));
            &&& node_view(r.0) == n2
            &&& match r.1 {
                Some(back) => !f && back == c,
                None => f,
            }
        }),
    decreases spec_size(node_view(n)), 0nat,
{
    match n {
        Node::Group(g) => {
            let Group { uuid, name, children } = g;
            if uuid == parent {
                let ghost orig = children@;
                let mut children = children;
                children.push(c);
                proof {
                    lemma_nodes_view(children@);
                    lemma_nodes_view(orig);
                    assert(forall|i: int| 0 <= i < orig.len() ==> children@[i] == orig[i]);
                    assert(nodes_view(children@) =~= nodes_view(orig).push(node_view(c)));
                }
                (Node::Group(Group { uuid, name, children }), None)
            } else {
                let (cs2, back) = insert_list(children, parent, c);
                (Node::Group(Group { uuid, name, children: cs2 }), back)
            }
        },
        Node::Entry(e) => (Node::Entry(e), Some(c)),
    }
}

} // verus!

use vstd::multiset::Multiset;
use vstd::seq_lib::lemma_multiset_commutative;

verus! {

/// The identifiers strictly below a node: those of its descendants.
pub open spec fn spec_ids_below(n: SpecNode) -> Seq<Uuid> {
    match n {
        SpecNode::Group(g) => spec_ids_list(g.children),
        SpecNode::Entry(_) => Seq::empty(),
    }
}

/// Membership in a concatenation is membership in either part.
pub proof fn lemma_contains_concat(a: Seq<Uuid>, b: Seq<Uuid>, x: Uuid)
    ensures
        (a + b).contains(x) <==> a.contains(x) || b.contains(x),
{
    if (a + b).contains(x) {
        let i = choose|i: int| 0 <= i < (a + b).len() && (a + b)[i] == x;
        if i < a.len() {
            assert(a[i] == x);
        } else {
            assert(b[i - a.len()] == x);
        }
    }
    if a.contains(x) {
        let i = choose|i: int| 0 <= i < a.len() && a[i] == x;
        assert((a + b)[i] == x);
    }
    if b.contains(x) {
        let i = choose|i: int| 0 <= i < b.len() && b[i] == x;
        assert((a + b)[a.len() + i] == x);
    }
}

/// A node's identifiers are its own followed by those below it.
pub proof fn lemma_ids_split(n: SpecNode)
    ensures
        spec_ids(n) == seq![spec_uuid_of(n)] + spec_ids_below(n),
{
    match n {
        SpecNode::Group(_) => {},
        SpecNode::Entry(_) => {
            assert(spec_ids(n) =~= seq![spec_uuid_of(n)] + spec_ids_below(n));
        },
    }
}

/// Appending a node to a forest appends its identifiers.
pub proof fn lemma_ids_list_push(cs: Seq<SpecNode>, c: SpecNode)
    ensures
        spec_ids_list(cs.push(c)) == spec_ids_list(cs) + spec_ids(c),
    decreases cs,
{
    if cs.len() == 0 {
        assert(cs.push(c)[0] == c);
        assert(cs.push(c).len() == 1);
        assert(cs.push(c).drop_first() =~= Seq::<SpecNode>::empty());
        assert(spec_ids_list(cs.push(c)) == spec_ids(c) + spec_ids_list(
            Seq::<SpecNode>::empty(),
        ));
        assert(spec_ids_list(Seq::<SpecNode>::empty()) == Seq::<Uuid>::empty());
        assert(spec_ids_list(cs) == Seq::<Uuid>::empty());
        assert(spec_ids_list(cs.push(c)) =~= spec_ids_list(cs) + spec_ids(c));
    } else {
        assert(cs.push(c)[0] == cs[0]);
        assert(cs.push(c).drop_first() =~= cs.drop_first().push(c));
        lemma_ids_list_push(cs.drop_first(), c);
        assert(cs.push(c).len() != 0);
        assert(spec_ids_list(cs.push(c)) == spec_ids(cs[0]) + spec_ids_list(
            cs.drop_first().push(c),
        ));
        assert(spec_ids_list(cs.push(c)) == spec_ids(cs[0]) + (spec_ids_list(cs.drop_first())
            + spec_ids(c)));
        assert(spec_ids_list(cs.push(c)) =~= spec_ids_list(cs) + spec_ids(c));
    }
}

/// A removal that found nothing leaves the forest as it was.
pub proof fn lemma_remove_list_none(cs: Seq<SpecNode>, id: Uuid)
    ensures
        spec_remove_list(cs, id).1 is None ==> spec_remove_list(cs, id).0 == cs,
    decreases cs,
{
    if cs.len() > 0 && spec_uuid_of(cs[0]) != id {
        lemma_remove_node_none(cs[0], id);
        let (h2, r0) = spec_remove_node(cs[0], id);
        if r0 is None {
            lemma_remove_list_none(cs.drop_first(), id);
            if spec_remove_list(cs.drop_first(), id).1 is None {
                assert(seq![h2] + spec_remove_list(cs.drop_first(), id).0 =~= cs);
            }
        }
    }
}

/// A removal that found nothing leaves the node as it was.
pub proof fn lemma_remove_node_none(n: SpecNode, id: Uuid)
    ensures
        spec_remove_node(n, id).1 is None ==> spec_remove_node(n, id).0 == n,
    decreases n,
{
    match n {
        SpecNode::Group(g) => {
            lemma_remove_list_none(g.children, id);
        },
        SpecNode::Entry(_) => {},
    }
}

/// What a removal does to the forest's identifiers: nothing when the
/// identifier is absent, and otherwise it takes out exactly the removed
/// subtree's identifiers.
pub proof fn lemma_remove_list_effects(cs: Seq<SpecNode>, id: Uuid)
    ensures
        ({
            let (cs2, r) = spec_remove_list(cs, id);
            &&& r is None ==> !spec_ids_list(cs).contains(id)
            &&& r matches Some(m) ==> spec_uuid_of(m) == id && spec_ids_list(cs).to_multiset()
                == spec_ids_list(cs2).to_multiset().add(spec_ids(m).to_multiset())
        }),
    decreases cs,
{
    broadcast use vstd::seq_lib::group_to_multiset_ensures;
    broadcast use vstd::multiset::group_multiset_axioms;

    if cs.len() == 0 {
        assert(!spec_ids_list(cs).contains(id));
    } else {
        let head = spec_ids(cs[0]);
        let tail = spec_ids_list(cs.drop_first());
        lemma_multiset_commutative(head, tail);
        lemma_ids_split(cs[0]);
        lemma_contains_concat(seq![spec_uuid_of(cs[0])], spec_ids_below(cs[0]), id);
        lemma_contains_concat(head, tail, id);
        if spec_uuid_of(cs[0]) == id {
            let (cs2, r) = spec_remove_list(cs, id);
            assert(spec_ids_list(cs).to_multiset() =~= spec_ids_list(cs2).to_multiset().add(
                spec_ids(cs[0]).to_multiset(),
            ));
        } else {
            lemma_remove_node_effects(cs[0], id);
            let (h2, r0) = spec_remove_node(cs[0], id);
            if r0 is Some {
                let m = r0->0;
                let cs2 = seq![h2] + cs.drop_first();
                assert(cs2[0] == h2);
                assert(cs2.drop_first() =~= cs.drop_first());
                lemma_multiset_commutative(spec_ids(h2), tail);
                assert(spec_ids_list(cs).to_multiset() =~= spec_ids_list(cs2).to_multiset().add(
                    spec_ids(m).to_multiset(),
                ));
            } else {
                lemma_remove_node_none(cs[0], id);
                lemma_remove_list_effects(cs.drop_first(), id);
                let (rest, r1) = spec_remove_list(cs.drop_first(), id);
                let cs2 = seq![h2] + rest;
                assert(cs2[0] == h2);
                assert(cs2.drop_first() =~= rest);
                if r1 is Some {
                    let m = r1->0;
                    lemma_multiset_commutative(spec_ids(h2), spec_ids_list(rest));
                    assert(spec_ids_list(cs).to_multiset() =~= spec_ids_list(cs2).to_multiset()
                        .add(spec_ids(m).to_multiset()));
                } else {
                    assert(!spec_ids_below(cs[0]).contains(id));
                    assert(!head.contains(id));
                    assert(!spec_ids_list(cs).contains(id));
                }
            }
        }
    }
}

/// Node-level counterpart of `lemma_remove_list_effects`.
pub proof fn lemma_remove_node_effects(n: SpecNode, id: Uuid)
    ensures
        ({
            let (n2, r) = spec_remove_node(n, id);
            &&& spec_uuid_of(n2) == spec_uuid_of(n)
            &&& r is None ==> !spec_ids_below(n).contains(id)
            &&& r matches Some(m) ==> spec_uuid_of(m) == id && spec_ids(n).to_multiset()
                == spec_ids(n2).to_multiset().add(spec_ids(m).to_multiset())
        }),
    decreases n,
{
    broadcast use vstd::seq_lib::group_to_multiset_ensures;
    broadcast use vstd::multiset::group_multiset_axioms;

    match n {
        SpecNode::Group(g) => {
            lemma_remove_list_effects(g.children, id);
            let (cs2, r) = spec_remove_list(g.children, id);
            if r is Some {
                let m = r->0;
                let n2 = spec_remove_node(n, id).0;
                let own = seq![g.uuid];
                lemma_multiset_commutative(own, spec_ids_list(g.children));
                lemma_multiset_commutative(own, spec_ids_list(cs2));
                assert(spec_ids(n) =~= own + spec_ids_list(g.children));
                assert(spec_ids(n2) =~= own + spec_ids_list(cs2));
                assert(spec_ids(n).to_multiset() =~= spec_ids(n2).to_multiset().add(
                    spec_ids(m).to_multiset(),
                ));
            }
        },
        SpecNode::Entry(_) => {},
    }
}

/// Removing an identifier from a duplicate-free tree keeps it duplicate
/// free, only ever shrinks the identifier set, removes the identifier
/// from the tree, and succeeds exactly when the identifier names a node
/// other than the root of the subtree.
pub proof fn lemma_remove_node_wf(n: SpecNode, id: Uuid)
    requires
        spec_ids(n).no_duplicates(),
    ensures
        ({
            let (n2, r) = spec_remove_node(n, id);
            &&& (r is Some <==> (spec_ids(n).contains(id) && spec_uuid_of(n) != id))
            &&& r is None ==> n2 == n
            &&& spec_uuid_of(n2) == spec_uuid_of(n)
            &&& r is Some ==> {
                &&& spec_ids(n2).no_duplicates()
                &&& !spec_ids(n2).contains(id)
                &&& spec_ids(n2).len() <= spec_ids(n).len()
                &&& forall|x: Uuid| spec_ids(n2).contains(x) ==> spec_ids(n).contains(x)
                &&& spec_find(n2, id) is None
            }
        }),
{
    broadcast use vstd::seq_lib::group_to_multiset_ensures;
    broadcast use vstd::multiset::group_multiset_axioms;

    lemma_remove_node_effects(n, id);
    lemma_remove_node_none(n, id);
    lemma_ids_split(n);
    lemma_contains_concat(seq![spec_uuid_of(n)], spec_ids_below(n), id);
    let (n2, r) = spec_remove_node(n, id);
    spec_ids(n).lemma_multiset_has_no_duplicates();
    match r {
        Some(m) => {
            let a = spec_ids(n).to_multiset();
            let b = spec_ids(n2).to_multiset();
            let c = spec_ids(m).to_multiset();
            assert(spec_ids(m)[0] == id) by {
                lemma_ids_split(m);
            }
            assert(c.count(id) > 0);
            assert(a.count(id) == b.count(id) + c.count(id));
            assert(spec_ids(n).contains(id));
            assert(a.count(id) == 1);
            assert(b.count(id) == 0);
            assert(!spec_ids(n2).contains(id));
            if spec_uuid_of(n) == id {
                assert(spec_ids(n2)[0] == id) by {
                    lemma_ids_split(n2);
                }
                assert(false);
            }
            assert forall|x: Uuid| spec_ids(n2).contains(x) implies spec_ids(n).contains(x) by {
                assert(b.count(x) > 0);
                assert(a.count(x) > 0);
            }
            assert(spec_ids(n2).no_duplicates()) by {
                assert(forall|x: Uuid|
                    spec_ids(n2).to_multiset().contains(x) ==> spec_ids(n2).to_multiset().count(x)
                        == 1) by {
                    assert(forall|x: Uuid| b.count(x) <= a.count(x));
                }
                spec_ids(n2).lemma_multiset_has_no_duplicates_conv();
            }
            assert(spec_ids(n2).len() <= spec_ids(n).len()) by {
                assert(a.len() == b.len() + c.len());
            }
            assert(spec_find(n2, id) is None) by {
                lemma_find_ids(n2, id);
            }
        },
        None => {
            assert(!spec_ids_below(n).contains(id));
        },
    }
}

} // verus!

verus! {

/// An insertion that found no parent group leaves the forest as it was.
pub proof fn lemma_insert_list_none(cs: Seq<SpecNode>, parent: Uuid, c: SpecNode)
    ensures
        !spec_insert_list(cs, parent, c).1 ==> spec_insert_list(cs, parent, c).0 == cs,
    decreases cs,
{
    if cs.len() > 0 {
        lemma_insert_node_none(cs[0], parent, c);
        let (h2, f) = spec_insert_node(cs[0], parent, c);
        if !f {
            lemma_insert_list_none(cs.drop_first(), parent, c);
            if !spec_insert_list(cs.drop_first(), parent, c).1 {
                assert(seq![h2] + spec_insert_list(cs.drop_first(), parent, c).0 =~= cs);
            }
        }
    }
}

/// An insertion that found no parent group leaves the node as it was.
pub proof fn lemma_insert_node_none(n: SpecNode, parent: Uuid, c: SpecNode)
    ensures
        !spec_insert_node(n, parent, c).1 ==> spec_insert_node(n, parent, c).0 == n,
    decreases n,
{
    match n {
        SpecNode::Group(g) => {
            if g.uuid != parent {
                lemma_insert_list_none(g.children, parent, c);
            }
        },
        SpecNode::Entry(_) => {},
    }
}

/// What an insertion does: it succeeds exactly when the subtree holds a
/// group named `parent`, and then adds exactly the new child's
/// identifiers.
pub proof fn lemma_insert_node_effects(n: SpecNode, parent: Uuid, c: SpecNode)
    ensures
        ({
            let (n2, f) = spec_insert_node(n, parent, c);
            &&& f == spec_has_group(n, parent)
            &&& spec_uuid_of(n2) == spec_uuid_of(n)
            &&& f ==> spec_ids(n2).to_multiset() == spec_ids(n).to_multiset().add(
                spec_ids(c).to_multiset(),
            )
        }),
    decreases n,
{
    broadcast use vstd::seq_lib::group_to_multiset_ensures;
    broadcast use vstd::multiset::group_multiset_axioms;

    match n {
        SpecNode::Group(g) => {
            let own = seq![g.uuid];
            if g.uuid == parent {
                lemma_ids_list_push(g.children, c);
                let n2 = spec_insert_node(n, parent, c).0;
                assert(spec_ids(n2) =~= (own + spec_ids_list(g.children)) + spec_ids(c));
                lemma_multiset_commutative(own + spec_ids_list(g.children), spec_ids(c));
                assert(spec_ids(n2).to_multiset() =~= spec_ids(n).to_multiset().add(
                    spec_ids(c).to_multiset(),
                ));
            } else {
                lemma_insert_list_effects(g.children, parent, c);
                let (cs2, f) = spec_insert_list(g.children, parent, c);
                if f {
                    let n2 = spec_insert_node(n, parent, c).0;
                    lemma_multiset_commutative(own, spec_ids_list(g.children));
                    lemma_multiset_commutative(own, spec_ids_list(cs2));
                    assert(spec_ids(n) =~= own + spec_ids_list(g.children));
                    assert(spec_ids(n2) =~= own + spec_ids_list(cs2));
                    assert(spec_ids(n2).to_multiset() =~= spec_ids(n).to_multiset().add(
                        spec_ids(c).to_multiset(),
                    ));
                }
            }
        },
        SpecNode::Entry(_) => {},
    }
}

/// Forest-level counterpart of `lemma_insert_node_effects`.
pub proof fn lemma_insert_list_effects(cs: Seq<SpecNode>, parent: Uuid, c: SpecNode)
    ensures
        ({
            let (cs2, f) = spec_insert_list(cs, parent, c);
            &&& f == spec_has_group_list(cs, parent)
            &&& f ==> spec_ids_list(cs2).to_multiset() == spec_ids_list(cs).to_multiset().add(
                spec_ids(c).to_multiset(),
            )
        }),
    decreases cs,
{
    broadcast use vstd::seq_lib::group_to_multiset_ensures;
    broadcast use vstd::multiset::group_multiset_axioms;

    if cs.len() > 0 {
        lemma_insert_node_effects(cs[0], parent, c);
        let head = spec_ids(cs[0]);
        let tail = spec_ids_list(cs.drop_first());
        lemma_multiset_commutative(head, tail);
        let (h2, f0) = spec_insert_node(cs[0], parent, c);
        if f0 {
            let cs2 = seq![h2] + cs.drop_first();
            assert(cs2[0] == h2);
            assert(cs2.drop_first() =~= cs.drop_first());
            lemma_multiset_commutative(spec_ids(h2), tail);
            assert(spec_ids_list(cs2).to_multiset() =~= spec_ids_list(cs).to_multiset().add(
                spec_ids(c).to_multiset(),
            ));
        } else {
            lemma_insert_node_none(cs[0], parent, c);
            lemma_insert_list_effects(cs.drop_first(), parent, c);
            let (rest, f1) = spec_insert_list(cs.drop_first(), parent, c);
            let cs2 = seq![h2] + rest;
            assert(cs2[0] == h2);
            assert(cs2.drop_first() =~= rest);
            if f1 {
                lemma_multiset_commutative(spec_ids(h2), spec_ids_list(rest));
                assert(spec_ids_list(cs2).to_multiset() =~= spec_ids_list(cs).to_multiset().add(
                    spec_ids(c).to_multiset(),
                ));
            }
        }
    }
}

/// Searching a forest that lacks `id`, extended by one node, reaches
/// that node.
pub proof fn lemma_find_list_push_last(cs: Seq<SpecNode>, c: SpecNode, id: Uuid)
    requires
        spec_find_list(cs, id) is None,
    ensures
        spec_find_list(cs.push(c), id) == spec_find(c, id),
    decreases cs,
{
    if cs.len() == 0 {
        assert(cs.push(c)[0] == c);
        assert(cs.push(c).len() == 1);
        assert(cs.push(c).drop_first() =~= Seq::<SpecNode>::empty());
        assert(spec_find_list(Seq::<SpecNode>::empty(), id) is None);
        if spec_find(c, id) is Some {
            assert(spec_find_list(cs.push(c), id) == spec_find(c, id));
        } else {
            assert(spec_find_list(cs.push(c), id) == spec_find_list(
                Seq::<SpecNode>::empty(),
                id,
            ));
        }
    } else {
        assert(cs.push(c)[0] == cs[0]);
        assert(cs.push(c).drop_first() =~= cs.drop_first().push(c));
        assert(spec_find(cs[0], id) is None && spec_find_list(cs.drop_first(), id) is None) by {
            assert(spec_find_list(cs, id) is None);
        }
        lemma_find_list_push_last(cs.drop_first(), c, id);
        assert(spec_find_list(cs.push(c), id) == spec_find_list(cs.drop_first().push(c), id));
    }
}

/// After a successful insertion of a child whose identifier was fresh,
/// searching for that identifier finds exactly the inserted child.
pub proof fn lemma_insert_find_new_node(n: SpecNode, parent: Uuid, c: SpecNode)
    requires
        !spec_ids(n).contains(spec_uuid_of(c)),
    ensures
        spec_insert_node(n, parent, c).1 ==> spec_find(
            spec_insert_node(n, parent, c).0,
            spec_uuid_of(c),
        ) == Some(c),
    decreases n,
{
    let cid = spec_uuid_of(c);
    lemma_ids_split(n);
    lemma_contains_concat(seq![spec_uuid_of(n)], spec_ids_below(n), cid);
    assert(spec_ids(n)[0] == spec_uuid_of(n));
    match n {
        SpecNode::Group(g) => {
            assert(!spec_ids_list(g.children).contains(cid));
            lemma_find_ids_list(g.children, cid);
            if g.uuid == parent {
                let n2 = spec_insert_node(n, parent, c).0;
                lemma_find_list_push_last(g.children, c, cid);
                assert(spec_find(c, cid) == Some(c));
                assert(spec_find(n2, cid) == Some(c));
            } else {
                lemma_insert_list_find_new(g.children, parent, c);
            }
        },
        SpecNode::Entry(_) => {},
    }
}

/// Forest-level counterpart of `lemma_insert_find_new_node`.
pub proof fn lemma_insert_list_find_new(cs: Seq<SpecNode>, parent: Uuid, c: SpecNode)
    requires
        !spec_ids_list(cs).contains(spec_uuid_of(c)),
    ensures
        spec_insert_list(cs, parent, c).1 ==> spec_find_list(
            spec_insert_list(cs, parent, c).0,
            spec_uuid_of(c),
        ) == Some(c),
    decreases cs,
{
    let cid = spec_uuid_of(c);
    if cs.len() > 0 {
        lemma_contains_concat(spec_ids(cs[0]), spec_ids_list(cs.drop_first()), cid);
        assert(!spec_ids(cs[0]).contains(cid));
        assert(!spec_ids_list(cs.drop_first()).contains(cid));
        lemma_insert_node_effects(cs[0], parent, c);
        let (h2, f0) = spec_insert_node(cs[0], parent, c);
        if f0 {
            lemma_insert_find_new_node(cs[0], parent, c);
            let cs2 = seq![h2] + cs.drop_first();
            assert(cs2[0] == h2);
            assert(spec_find(h2, cid) == Some(c));
        } else {
            lemma_insert_node_none(cs[0], parent, c);
            lemma_insert_list_find_new(cs.drop_first(), parent, c);
            let (rest, f1) = spec_insert_list(cs.drop_first(), parent, c);
            if f1 {
                let cs2 = seq![h2] + rest;
                assert(cs2[0] == cs[0]);
                assert(cs2.drop_first() =~= rest);
                lemma_find_ids(cs[0], cid);
                assert(spec_find(cs[0], cid) is None);
            }
        }
    }
}

/// Inserting a fresh leaf under a present parent group keeps the tree
/// duplicate free, grows the identifier set by exactly the new
/// identifier, and makes the new identifier findable.
pub proof fn lemma_insert_node_wf(n: SpecNode, parent: Uuid, c: SpecNode)
    requires
        spec_ids(n).no_duplicates(),
        !spec_ids(n).contains(spec_uuid_of(c)),
        spec_ids(c) == seq![spec_uuid_of(c)],
    ensures
        ({
            let (n2, f) = spec_insert_node(n, parent, c);
            &&& f == spec_has_group(n, parent)
            &&& !f ==> n2 == n
            &&& spec_uuid_of(n2) == spec_uuid_of(n)
            &&& f ==> {
                &&& spec_ids(n2).no_duplicates()
                &&& spec_ids(n2).len() == spec_ids(n).len() + 1
                &&& forall|x: Uuid|
                    spec_ids(n2).contains(x) <==> (spec_ids(n).contains(x) || x == spec_uuid_of(
                        c,
                    ))
                &&& spec_find(n2, spec_uuid_of(c)) == Some(c)
            }
        }),
{
    broadcast use vstd::seq_lib::group_to_multiset_ensures;
    broadcast use vstd::multiset::group_multiset_axioms;

    lemma_insert_node_effects(n, parent, c);
    lemma_insert_node_none(n, parent, c);
    lemma_insert_find_new_node(n, parent, c);
    let (n2, f) = spec_insert_node(n, parent, c);
    let cid = spec_uuid_of(c);
    if f {
        let a = spec_ids(n).to_multiset();
        let b = spec_ids(n2).to_multiset();
        let cm = spec_ids(c).to_multiset();
        spec_ids(n).lemma_multiset_has_no_duplicates();
        assert(spec_ids(c) =~= Seq::<Uuid>::empty().push(cid));
        assert(cm =~= Multiset::<Uuid>::empty().insert(cid));
        assert(forall|x: Uuid| x != cid ==> cm.count(x) == 0);
        assert(cm.count(cid) == 1);
        assert forall|x: Uuid|
            spec_ids(n2).contains(x) <==> (spec_ids(n).contains(x) || x == cid) by {
            assert(b.count(x) == a.count(x) + cm.count(x));
        }
        assert(spec_ids(n2).no_duplicates()) by {
            assert(forall|x: Uuid|
                spec_ids(n2).to_multiset().contains(x) ==> spec_ids(n2).to_multiset().count(x)
                    == 1) by {
                assert(forall|x: Uuid| b.count(x) == a.count(x) + cm.count(x));
                assert(a.count(cid) == 0);
            }
            spec_ids(n2).lemma_multiset_has_no_duplicates_conv();
        }
        assert(spec_ids(n2).len() == spec_ids(n).len() + 1) by {
            assert(b.len() == a.len() + cm.len());
        }
    }
}

/// `base` advanced by `k` steps in wrap-around arithmetic.
pub open spec fn wrap_add(base: u128, k: nat) -> u128 {
    if base + k > u128::MAX {
        (base + k - 0x1_0000_0000_0000_0000_0000_0000_0000_0000) as u128
    } else {
        (base + k) as u128
    }
}

/// If `j + 1` distinct wrap-around candidates all occur among the
/// identifiers, there are more than `j` identifiers: so a run of
/// occupied candidates cannot be longer than the identifier sequence.
pub proof fn lemma_candidate_pigeonhole(ids: Seq<Uuid>, base: u128, j: nat)
    requires
        j < 0x1_0000_0000_0000_0000_0000_0000_0000_0000,
        forall|k: nat| k <= j ==> ids.contains(Uuid(wrap_add(base, k))),
    ensures
        j < ids.len(),
{
    let cand = Seq::new(j + 1, |k: int| Uuid(wrap_add(base, k as nat)));
    assert(cand.no_duplicates()) by {
        assert forall|k1: int, k2: int|
            0 <= k1 < cand.len() && 0 <= k2 < cand.len() && k1 != k2 implies cand[k1]
            != cand[k2] by {
            assert(wrap_add(base, k1 as nat) != wrap_add(base, k2 as nat));
        }
    }
    cand.unique_seq_to_set();
    assert(cand.to_set().subset_of(ids.to_set())) by {
        assert forall|x: Uuid| cand.to_set().contains(x) implies ids.to_set().contains(x) by {
            let k = choose|k: int| 0 <= k < cand.len() && cand[k] == x;
            assert(ids.contains(Uuid(wrap_add(base, k as nat))));
        }
    }
    ids.lemma_cardinality_of_set();
    vstd::set_lib::lemma_len_subset(cand.to_set(), ids.to_set());
}

} // verus!
