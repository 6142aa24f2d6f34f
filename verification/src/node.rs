//! A stored record pairing a payload with its relation data.  Relations
//! are expressed as copies of the identity type, never as references
//! into other nodes: the arena is the sole owner of storage and every
//! cross-node relation is an index.

use crate::entity::Entity;
use vstd::prelude::*;

verus! {

/// One record of the arena: an id, the payload stored under it, the
/// ancestor id if the node is attached, and the ordered descendant ids.
#[derive(Clone, Debug)]
pub struct Node {
    pub id: u64,
    pub entity: Entity,
    pub ancestor: Option<u64>,
    pub descendants: Vec<u64>,
}

/// The mathematical value of a node: the same fields with the
/// descendant list abstracted to a sequence.
pub ghost struct NodeV {
    pub id: u64,
    pub entity: Entity,
    pub ancestor: Option<u64>,
    pub descendants: Seq<u64>,
}

impl View for Node {
    type V = NodeV;

    open spec fn view(&self) -> NodeV {
        NodeV {
            id: self.id,
            entity: self.entity,
            ancestor: self.ancestor,
            descendants: self.descendants@,
        }
    }
}

/// The views of the entries of `s`, in storage order.
pub open spec fn views_of(s: Seq<Node>) -> Seq<NodeV> {
    s.map_values(|n: Node| n@)
}

impl Node {
    /// A fresh, detached node owning the default payload under `id`.
    pub fn sprout(id: u64) -> (r: Node)
        ensures
            r@.id == id,
            r@.entity.id == id,
            r@.entity.face@ == Seq::<char>::empty(),
            r@.entity.bubble@ == Seq::<char>::empty(),
            r@.entity.process == crate::entity::ProcessStatus::New,
            r@.ancestor is None,
            r@.descendants == Seq::<u64>::empty(),
    {
        let r = Node { id, entity: Entity::with_id(id), ancestor: None, descendants: Vec::new() };
        proof {
            assert(r@.descendants =~= Seq::<u64>::empty());
        }
        r
    }

    /// A field-for-field copy.
    pub fn duplicate(&self) -> (r: Node)
        ensures
            r@ == self@,
    {
        let r = Node {
            id: self.id,
            entity: self.entity.duplicate(),
            ancestor: self.ancestor,
            descendants: self.descendants.clone(),
        };
        proof {
            assert(r.descendants@ =~= self.descendants@);
        }
        r
    }
}

/// Whether some entry of `s` is stored under `id`.
pub open spec fn holds_id(s: Seq<NodeV>, id: u64) -> bool {
    exists|i: int| 0 <= i < s.len() && s[i].id == id
}

/// The index of the entry stored under `id`; meaningful only when the
/// ids of `s` are unique and `holds_id(s, id)`.
pub open spec fn index_of_id(s: Seq<NodeV>, id: u64) -> int {
    choose|i: int| 0 <= i < s.len() && s[i].id == id
}

/// The entry stored under `id`.
pub open spec fn node_of(s: Seq<NodeV>, id: u64) -> NodeV {
    s[index_of_id(s, id)]
}

/// No id keys two distinct entries.
pub open spec fn ids_unique(s: Seq<NodeV>) -> bool {
    forall|i: int, j: int| 0 <= i < j < s.len() ==> s[i].id != s[j].id
}

/// The ancestor and descendant pointers of every entry name entries of
/// `s` and agree with one another, and no descendant list repeats an id.
pub open spec fn links_consistent(s: Seq<NodeV>) -> bool {
    forall|i: int| 0 <= i < s.len() ==> #[trigger] node_links_ok(s, s[i])
}

/// The link conditions for one entry `n` of `s`.
pub open spec fn node_links_ok(s: Seq<NodeV>, n: NodeV) -> bool {
    &&& match n.ancestor {
        Some(a) => holds_id(s, a) && node_of(s, a).descendants.contains(n.id),
        None => true,
    }
    &&& forall|j: int|
        0 <= j < n.descendants.len() ==> holds_id(s, #[trigger] n.descendants[j]) && node_of(
            s,
            n.descendants[j],
        ).ancestor == Some(n.id)
    &&& forall|j: int, k: int|
        0 <= j < k < n.descendants.len() ==> n.descendants[j] != n.descendants[k]
}

/// With unique ids, the entry at a known index is the one its id keys.
pub proof fn lemma_node_at_index(s: Seq<NodeV>, i: int)
    requires
        ids_unique(s),
        0 <= i < s.len(),
    ensures
        holds_id(s, s[i].id),
        index_of_id(s, s[i].id) == i,
        node_of(s, s[i].id) == s[i],
{
    assert(holds_id(s, s[i].id));
    let j = index_of_id(s, s[i].id);
    assert(0 <= j < s.len() && s[j].id == s[i].id);
    if i < j {
        assert(s[i].id != s[j].id);
    } else if j < i {
        assert(s[j].id != s[i].id);
    }
}

} // verus!
