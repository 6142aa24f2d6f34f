use flow_arena::arena::FlowArena;
use flow_arena::entity::Entity;
use flow_arena::error::{FieldTag, FlowError};
use flow_arena::graph::{Direction, FixState, Graph};
use flow_arena::node::Node;
use flow_arena::ser_de::WireField;

fn leaf(id: u64) -> Node {
    Node {
        id,
        entity: Entity::with_id(id),
        ancestor: None,
        descendants: Vec::new(),
    }
}

#[test]
fn grow_is_detached() {
    let mut flow = FlowArena::new();
    let a = flow.grow();
    assert_eq!(a, 0);
    assert_eq!(flow.root, None);
    let node = flow.get(a).unwrap();
    assert_eq!(node.ancestor, None);
    assert!(node.descendants.is_empty());
}

#[test]
fn tiptoe_designates_root() {
    let mut flow = FlowArena::new();
    let a = flow.grow();
    assert_eq!(flow.tiptoe(a), Ok(()));
    assert_eq!(flow.root, Some(a));
}

#[test]
fn tiptoe_rejects_unknown_and_second_root() {
    let mut flow = FlowArena::new();
    assert_eq!(flow.tiptoe(7), Err(FlowError::NotFound));
    let a = flow.grow();
    flow.tiptoe(a).unwrap();
    let b = flow.grow();
    assert_eq!(flow.tiptoe(b), Err(FlowError::RootTaken));
    assert_eq!(flow.root, Some(a));
}

#[test]
fn tiptoe_rejects_attached_node() {
    let mut flow = FlowArena::new();
    let a = flow.grow();
    let b = flow.grow();
    flow.chain(b, a).unwrap();
    assert_eq!(flow.tiptoe(b), Err(FlowError::AlreadyAttached));
}

#[test]
fn chain_appends_in_order() {
    let mut flow = FlowArena::new();
    let a = flow.grow();
    let b = flow.grow();
    let c = flow.grow();
    flow.chain(b, a).unwrap();
    flow.chain(c, a).unwrap();
    assert_eq!(flow.get(a).unwrap().descendants, vec![b, c]);
    assert_eq!(flow.get(b).unwrap().ancestor, Some(a));
    assert_eq!(flow.get(c).unwrap().ancestor, Some(a));
}

#[test]
fn chain_rejects_unknown_ids() {
    let mut flow = FlowArena::new();
    let a = flow.grow();
    assert_eq!(flow.chain(9, a), Err(FlowError::NotFound));
    assert_eq!(flow.chain(a, 9), Err(FlowError::NotFound));
}

#[test]
fn no_double_parent() {
    let mut flow = FlowArena::new();
    let a = flow.grow();
    let b = flow.grow();
    let x = flow.grow();
    flow.tiptoe(a).unwrap();
    flow.chain(b, a).unwrap();
    flow.chain(x, a).unwrap();
    // a second chain of x must fail and change nothing
    assert_eq!(flow.chain(x, b), Err(FlowError::AlreadyAttached));
    assert_eq!(flow.get(x).unwrap().ancestor, Some(a));
    assert_eq!(flow.get(a).unwrap().descendants, vec![b, x]);
    assert!(flow.get(b).unwrap().descendants.is_empty());
}

#[test]
fn erase_integrity() {
    let mut flow = FlowArena::new();
    let a = flow.grow();
    let b = flow.grow();
    let c = flow.grow();
    flow.tiptoe(a).unwrap();
    flow.chain(b, a).unwrap();
    flow.chain(c, a).unwrap();
    assert_eq!(flow.erase(b), Ok(()));
    assert!(flow.get(b).is_err());
    assert_eq!(flow.get(a).unwrap().descendants, vec![c]);
}

#[test]
fn erase_rejects_populated_subtree() {
    let mut flow = FlowArena::new();
    let a = flow.grow();
    let b = flow.grow();
    flow.chain(b, a).unwrap();
    assert_eq!(flow.erase(a), Err(FlowError::HasDescendants));
    assert_eq!(flow.erase(5), Err(FlowError::NotFound));
    assert_eq!(flow.erase(b), Ok(()));
    assert_eq!(flow.erase(a), Ok(()));
}

#[test]
fn erase_root_clears_root() {
    let mut flow = FlowArena::new();
    let a = flow.grow();
    flow.tiptoe(a).unwrap();
    flow.erase(a).unwrap();
    assert_eq!(flow.root, None);
    assert!(flow.nodes.is_empty());
}

#[test]
fn round_trip_positional() {
    let mut flow = FlowArena::new();
    let a = flow.grow();
    let b = flow.grow();
    flow.tiptoe(a).unwrap();
    flow.chain(b, a).unwrap();
    let (root, nodes) = flow.encode();
    let back = FlowArena::decode_positional(Some(root), Some(nodes)).unwrap();
    assert_eq!(back.root, flow.root);
    assert_eq!(back.nodes.len(), flow.nodes.len());
    for (x, y) in back.nodes.iter().zip(flow.nodes.iter()) {
        assert_eq!(x.id, y.id);
        assert_eq!(x.ancestor, y.ancestor);
        assert_eq!(x.descendants, y.descendants);
        assert_eq!(x.entity.id, y.entity.id);
        assert_eq!(x.entity.face, y.entity.face);
    }
}

#[test]
fn round_trip_tagged() {
    let mut flow = FlowArena::new();
    let a = flow.grow();
    let b = flow.grow();
    let c = flow.grow();
    flow.tiptoe(a).unwrap();
    flow.chain(b, a).unwrap();
    flow.chain(c, b).unwrap();
    let (root, nodes) = flow.encode();
    let fields = vec![WireField::NodeMap(nodes), WireField::Root(root)];
    let back = FlowArena::decode_tagged(fields).unwrap();
    assert_eq!(back.root, flow.root);
    assert_eq!(back.nodes.len(), flow.nodes.len());
    for (x, y) in back.nodes.iter().zip(flow.nodes.iter()) {
        assert_eq!(x.id, y.id);
        assert_eq!(x.ancestor, y.ancestor);
        assert_eq!(x.descendants, y.descendants);
    }
}

#[test]
fn end_to_end_scenario() {
    let mut flow = FlowArena::new();
    let a = flow.grow();
    flow.tiptoe(a).unwrap();
    let b = flow.grow();
    flow.chain(b, a).unwrap();
    let c = flow.grow();
    flow.chain(c, a).unwrap();
    let (root, nodes) = flow.encode();
    let decoded = FlowArena::decode_positional(Some(root), Some(nodes)).unwrap();
    assert_eq!(decoded.root, Some(a));
    assert_eq!(decoded.get(a).unwrap().descendants, vec![b, c]);
    let mut flow = decoded;
    flow.erase(b).unwrap();
    assert_eq!(flow.get(a).unwrap().descendants, vec![c]);
    assert!(flow.get(b).is_err());
}

#[test]
fn decode_rejects_duplicate_identity() {
    let nodes = vec![leaf(1), leaf(2), leaf(1)];
    let r = FlowArena::from_parts(None, nodes);
    assert_eq!(r.unwrap_err(), FlowError::DuplicateIdentity(1));
}

#[test]
fn decode_rejects_invalid_root() {
    let nodes = vec![leaf(1)];
    let r = FlowArena::from_parts(Some(4), nodes);
    assert_eq!(r.unwrap_err(), FlowError::InvalidRoot(4));
}

#[test]
fn decode_rejects_truncation() {
    assert_eq!(
        FlowArena::decode_positional(None, None).unwrap_err(),
        FlowError::TruncatedSequence(0)
    );
    assert_eq!(
        FlowArena::decode_positional(Some(None), None).unwrap_err(),
        FlowError::TruncatedSequence(1)
    );
}

#[test]
fn decode_rejects_bad_fields() {
    let missing_nodes = vec![WireField::Root(None)];
    assert_eq!(
        FlowArena::decode_tagged(missing_nodes).unwrap_err(),
        FlowError::MissingField(FieldTag::NodeMap)
    );
    let missing_root = vec![WireField::NodeMap(vec![leaf(1)])];
    assert_eq!(
        FlowArena::decode_tagged(missing_root).unwrap_err(),
        FlowError::MissingField(FieldTag::Root)
    );
    let doubled = vec![WireField::Root(None), WireField::Root(Some(1))];
    assert_eq!(
        FlowArena::decode_tagged(doubled).unwrap_err(),
        FlowError::DuplicateField(FieldTag::Root)
    );
    let doubled_nodes = vec![
        WireField::NodeMap(Vec::new()),
        WireField::NodeMap(vec![leaf(1)]),
    ];
    assert_eq!(
        FlowArena::decode_tagged(doubled_nodes).unwrap_err(),
        FlowError::DuplicateField(FieldTag::NodeMap)
    );
    let unknown = vec![WireField::Unknown(String::from("roots"))];
    assert_eq!(
        FlowArena::decode_tagged(unknown).unwrap_err(),
        FlowError::UnknownField
    );
}

fn sample_graph() -> (Graph, u64, u64, u64, u64) {
    // a tree: a at the root, b and c its children, d under b
    let mut flow = FlowArena::new();
    let a = flow.grow();
    let b = flow.grow();
    let c = flow.grow();
    let d = flow.grow();
    flow.tiptoe(a).unwrap();
    flow.chain(b, a).unwrap();
    flow.chain(c, a).unwrap();
    flow.chain(d, b).unwrap();
    (Graph::from_flow(&flow, a).unwrap(), a, b, c, d)
}

#[test]
fn from_flow_copies_the_closure() {
    let (g, a, b, c, d) = sample_graph();
    assert_eq!(g.root, Some(a));
    assert_eq!(g.pos, None);
    assert_eq!(g.fix, FixState::Deactivated);
    assert_eq!(g.nodes.len(), 4);
    for id in [a, b, c, d] {
        assert_eq!(g.check(&id), Ok(id));
    }
}

#[test]
fn from_flow_subtree_only() {
    let mut flow = FlowArena::new();
    let a = flow.grow();
    let b = flow.grow();
    let c = flow.grow();
    let d = flow.grow();
    flow.tiptoe(a).unwrap();
    flow.chain(b, a).unwrap();
    flow.chain(c, a).unwrap();
    flow.chain(d, b).unwrap();
    let g = Graph::from_flow(&flow, b).unwrap();
    assert_eq!(g.nodes.len(), 2);
    assert_eq!(g.check(&b), Ok(b));
    assert_eq!(g.check(&d), Ok(d));
    assert_eq!(g.check(&a), Err(FlowError::NotFound));
    assert_eq!(g.check(&c), Err(FlowError::NotFound));
    assert_eq!(Graph::from_flow(&flow, 77).unwrap_err(), FlowError::NotFound);
}

#[test]
fn focus_and_current() {
    let (mut g, a, b, _, _) = sample_graph();
    assert_eq!(g.current(), None);
    assert_eq!(g.focus(b), Ok(()));
    assert_eq!(g.current(), Some(b));
    assert_eq!(g.focus(99), Err(FlowError::NotFound));
    assert_eq!(g.current(), Some(b));
    assert_eq!(g.focus(a), Ok(()));
    assert_eq!(g.current(), Some(a));
}

#[test]
fn cursor_boundary_at_root() {
    let (mut g, a, _, _, _) = sample_graph();
    g.focus(a).unwrap();
    // the root has no parent inside the snapshot
    assert_eq!(g.wander(Direction::Ascend, false), Err(FlowError::NoSuchNeighbor));
    assert_eq!(g.current(), Some(a));
}

#[test]
fn wander_walks_every_axis() {
    let (mut g, a, b, c, d) = sample_graph();
    g.focus(a).unwrap();
    assert_eq!(g.wander(Direction::Descend, false), Ok(()));
    assert_eq!(g.current(), Some(b));
    assert_eq!(g.wander(Direction::Forward, false), Ok(()));
    assert_eq!(g.current(), Some(c));
    assert_eq!(g.wander(Direction::Forward, false), Err(FlowError::NoSuchNeighbor));
    assert_eq!(g.wander(Direction::Backward, false), Ok(()));
    assert_eq!(g.current(), Some(b));
    assert_eq!(g.wander(Direction::Backward, false), Err(FlowError::NoSuchNeighbor));
    assert_eq!(g.wander(Direction::Descend, false), Ok(()));
    assert_eq!(g.current(), Some(d));
    assert_eq!(g.wander(Direction::Descend, false), Err(FlowError::NoSuchNeighbor));
    assert_eq!(g.wander(Direction::Ascend, false), Ok(()));
    assert_eq!(g.current(), Some(b));
}

#[test]
fn stay_release_deactivates_from_any_state() {
    let (mut g, a, _, _, _) = sample_graph();
    g.focus(a).unwrap();
    // from Deactivated
    assert_eq!(g.wander(Direction::Stay, false), Ok(()));
    assert_eq!(g.fix, FixState::Deactivated);
    // from Activated
    assert_eq!(g.wander(Direction::Stay, true), Ok(()));
    assert_eq!(g.fix, FixState::Activated);
    assert_eq!(g.wander(Direction::Stay, false), Ok(()));
    assert_eq!(g.fix, FixState::Deactivated);
    assert_eq!(g.current(), Some(a));
}

#[test]
fn pinned_cursor_resists_moves() {
    let (mut g, a, b, _, _) = sample_graph();
    g.focus(a).unwrap();
    // a fixed move pins the cursor at its new position
    assert_eq!(g.wander(Direction::Descend, true), Ok(()));
    assert_eq!(g.current(), Some(b));
    assert_eq!(g.fix, FixState::Activated);
    // every further move is resisted until a Stay-release
    assert_eq!(g.wander(Direction::Forward, false), Err(FlowError::CursorPinned));
    assert_eq!(g.wander(Direction::Ascend, true), Err(FlowError::CursorPinned));
    assert_eq!(g.current(), Some(b));
    assert_eq!(g.wander(Direction::Stay, false), Ok(()));
    assert_eq!(g.fix, FixState::Deactivated);
    assert_eq!(g.wander(Direction::Forward, false), Ok(()));
}

#[test]
fn wander_on_empty_graph_is_a_no_op() {
    let mut g = Graph {
        nodes: Vec::new(),
        root: None,
        pos: None,
        fix: FixState::Deactivated,
    };
    assert_eq!(g.wander(Direction::Ascend, true), Ok(()));
    assert_eq!(g.pos, None);
    assert_eq!(g.fix, FixState::Deactivated);
}
