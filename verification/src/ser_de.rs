//! The wire codec.  An arena is emitted as its optional root id plus
//! the full node set as an ordered sequence, and is rebuilt from those
//! two logical fields by re-keying every node under its own embedded
//! id.  Two wire shapes are accepted for the same schema: a
//! field-tagged record with the fields `root` and `node_map`, and a
//! positional two-element sequence with `root` first.  Both shapes
//! feed one validated construction that rejects duplicate ids and a
//! root absent from the node set.

use crate::arena::{FlowArena, FlowV};
use crate::error::{FieldTag, FlowError};
use crate::node::{holds_id, ids_unique, links_consistent, node_of, views_of, Node, NodeV};
use vstd::prelude::*;

verus! {

/// One field occurrence of the field-tagged wire shape, as handed over
/// by the transport layer.
pub enum WireField {
    /// The `root` field: the optional root identity.
    Root(Option<u64>),
    /// The `node_map` field: the node records in wire order.
    NodeMap(Vec<Node>),
    /// A field name outside the schema, kept for diagnosis.
    Unknown(String),
}

/// The mathematical value of a field occurrence.
pub ghost enum WireFieldV {
    Root(Option<u64>),
    NodeMap(Seq<NodeV>),
    Unknown(Seq<char>),
}

impl View for WireField {
    type V = WireFieldV;

    open spec fn view(&self) -> WireFieldV {
        match self {
            WireField::Root(v) => WireFieldV::Root(*v),
            WireField::NodeMap(v) => WireFieldV::NodeMap(views_of(v@)),
            WireField::Unknown(n) => WireFieldV::Unknown(n@),
        }
    }
}

/// The views of the field occurrences, in wire order.
pub open spec fn wire_views(s: Seq<WireField>) -> Seq<WireFieldV> {
    s.map_values(|f: WireField| f@)
}

/// The id of the first entry at or after `j` whose id already occurred
/// earlier in `s`, scanning left to right.
pub open spec fn dup_scan(s: Seq<NodeV>, j: int) -> Option<u64>
    decreases s.len() - j,
{
    if j < 0 || j >= s.len() {
        None
    } else if exists|i: int| 0 <= i < j && s[i].id == s[j].id {
        Some(s[j].id)
    } else {
        dup_scan(s, j + 1)
    }
}

/// The validated construction both wire shapes feed: the pair is
/// accepted exactly when no id occurs twice and a supplied root names
/// a node of the sequence.
pub open spec fn spec_from_parts(root: Option<u64>, nodes: Seq<NodeV>) -> Result<
    (Option<u64>, Seq<NodeV>),
    FlowError,
> {
    match dup_scan(nodes, 0) {
        Some(d) => Err(FlowError::DuplicateIdentity(d)),
        None => match root {
            Some(r) => if holds_id(nodes, r) {
                Ok((root, nodes))
            } else {
                Err(FlowError::InvalidRoot(r))
            },
            None => Ok((root, nodes)),
        },
    }
}

/// The positional shape: `root` at index 0, `node_map` at index 1; a
/// missing element is a truncation.
pub open spec fn spec_decode_positional(
    root: Option<Option<u64>>,
    nodes: Option<Seq<NodeV>>,
) -> Result<(Option<u64>, Seq<NodeV>), FlowError> {
    match root {
        None => Err(FlowError::TruncatedSequence(0)),
        Some(rv) => match nodes {
            None => Err(FlowError::TruncatedSequence(1)),
            Some(nv) => spec_from_parts(rv, nv),
        },
    }
}

/// Walking the field occurrences of the tagged shape in wire order:
/// a field outside the schema and a repeated field are rejected at
/// their occurrence, a missing field at the end.
pub open spec fn spec_gather(
    fields: Seq<WireFieldV>,
    root: Option<Option<u64>>,
    nodes: Option<Seq<NodeV>>,
) -> Result<(Option<u64>, Seq<NodeV>), FlowError>
    decreases fields.len(),
{
    if fields.len() == 0 {
        match root {
            None => Err(FlowError::MissingField(FieldTag::Root)),
            Some(rv) => match nodes {
                None => Err(FlowError::MissingField(FieldTag::NodeMap)),
                Some(nv) => Ok((rv, nv)),
            },
        }
    } else {
        match fields[0] {
            WireFieldV::Unknown(_) => Err(FlowError::UnknownField),
            WireFieldV::Root(v) => if root is Some {
                Err(FlowError::DuplicateField(FieldTag::Root))
            } else {
                spec_gather(fields.drop_first(), Some(v), nodes)
            },
            WireFieldV::NodeMap(nv) => if nodes is Some {
                Err(FlowError::DuplicateField(FieldTag::NodeMap))
            } else {
                spec_gather(fields.drop_first(), root, Some(nv))
            },
        }
    }
}

/// The field-tagged shape as a whole.
pub open spec fn spec_decode_tagged(fields: Seq<WireFieldV>) -> Result<
    (Option<u64>, Seq<NodeV>),
    FlowError,
> {
    match spec_gather(fields, None, None) {
        Err(e) => Err(e),
        Ok((rv, nv)) => spec_from_parts(rv, nv),
    }
}

/// The decoded arena, abstracted to the pair it was built from.
pub open spec fn abs_result(r: Result<FlowArena, FlowError>) -> Result<
    (Option<u64>, Seq<NodeV>),
    FlowError,
> {
    match r {
        Ok(a) => Ok((a@.root, a@.nodes)),
        Err(e) => Err(e),
    }
}

/// Whether every id of `s` leaves room for a strictly larger counter.
pub open spec fn ids_below_max(s: Seq<NodeV>) -> bool {
    forall|i: int| 0 <= i < s.len() ==> (#[trigger] s[i].id) < u64::MAX
}

/// The position of `id` in a node list, if any.
fn find_node(v: &Vec<Node>, id: u64) -> (r: Option<usize>)
    ensures
        match r {
            Some(i) => i < v@.len() && views_of(v@)[i as int].id == id,
            None => !holds_id(views_of(v@), id),
        },
{
    let n = v.len();
    let mut i: usize = 0;
    while i < n
        invariant
            n == v@.len(),
            i <= n,
            forall|j: int| 0 <= j < i ==> views_of(v@)[j].id != id,
        decreases n - i,
    {
        if v[i].id == id {
            return Some(i);
        }
        i += 1;
    }
    None
}

impl FlowArena {
    /// The wire parts of the arena: the root and the node set in
    /// storage order.
    pub fn encode(&self) -> (r: (Option<u64>, Vec<Node>))
        ensures
            r.0 == self@.root,
            views_of(r.1@) == self@.nodes,
    {
        let mut out: Vec<Node> = Vec::new();
        let n = self.nodes.len();
        let mut i: usize = 0;
        while i < n
            invariant
                n == self.nodes@.len(),
                i <= n,
                out@.len() == i,
                forall|j: int| 0 <= j < i ==> views_of(out@)[j] == self@.nodes[j],
            decreases n - i,
        {
            out.push(self.nodes[i].duplicate());
            i += 1;
        }
        proof {
            assert(views_of(out@) =~= self@.nodes);
        }
        (self.root, out)
    }

    /// The validated construction: re-keys the node sequence by each
    /// node's own embedded id, rejecting a repeated id
    /// (`DuplicateIdentity`) and a root absent from the node set
    /// (`InvalidRoot`).
    pub fn from_parts(root: Option<u64>, nodes: Vec<Node>) -> (r: Result<FlowArena, FlowError>)
        ensures
            abs_result(r) == spec_from_parts(root, views_of(nodes@)),
            r matches Ok(a) ==> ids_unique(a@.nodes) && (links_consistent(views_of(nodes@))
                && ids_below_max(views_of(nodes@)) ==> a@.wf()),
    {
        let ghost v = views_of(nodes@);
        let n = nodes.len();
        // reject the first id that repeats an earlier one
        let mut j: usize = 0;
        while j < n
            invariant
                n == nodes@.len(),
                v == views_of(nodes@),
                j <= n,
                dup_scan(v, 0) == dup_scan(v, j as int),
                forall|p: int, q: int| 0 <= p < q < j ==> v[p].id != v[q].id,
            decreases n - j,
        {
            let mut i: usize = 0;
            while i < j
                invariant
                    j < n == nodes@.len(),
                    v == views_of(nodes@),
                    i <= j,
                    dup_scan(v, 0) == dup_scan(v, j as int),
                    forall|p: int| 0 <= p < i ==> v[p].id != v[j as int].id,
                decreases j - i,
            {
                if nodes[i].id == nodes[j].id {
                    proof {
                        assert(v[i as int].id == v[j as int].id);
                        assert(dup_scan(v, j as int) == Some(v[j as int].id));
                    }
                    return Err(FlowError::DuplicateIdentity(nodes[j].id));
                }
                i += 1;
            }
            proof {
                assert(!(exists|p: int| 0 <= p < j && v[p].id == v[j as int].id));
                assert(dup_scan(v, j as int) == dup_scan(v, j as int + 1));
            }
            j += 1;
        }
        proof {
            assert(dup_scan(v, 0) == dup_scan(v, n as int));
            assert(dup_scan(v, n as int) is None);
            assert(ids_unique(v));
        }
        // a supplied root must name a node
        if let Some(r) = root {
            if find_node(&nodes, r).is_none() {
                return Err(FlowError::InvalidRoot(r));
            }
            proof {
                assert(holds_id(v, r));
            }
        }
        // re-derive the identity counter above every stored id
        let mut next: u64 = 0;
        let mut k: usize = 0;
        while k < n
            invariant
                n == nodes@.len(),
                v == views_of(nodes@),
                k <= n,
                forall|p: int| 0 <= p < k ==> (#[trigger] v[p].id) == u64::MAX || v[p].id < next,
            decreases n - k,
        {
            if nodes[k].id >= next {
                if nodes[k].id == u64::MAX {
                    next = u64::MAX;
                } else {
                    next = nodes[k].id + 1;
                }
            }
            k += 1;
        }
        let arena = FlowArena { nodes, root, next_id: next };
        proof {
            assert(arena@.nodes == v);
            if links_consistent(v) && ids_below_max(v) {
                assert(forall|p: int| 0 <= p < v.len() ==> (#[trigger] v[p].id) < arena@.next_id);
                assert(arena@.wf());
            }
        }
        Ok(arena)
    }

    /// Decodes the positional wire shape: `root` first, `node_map`
    /// second; a missing element is a truncation at its index.
    pub fn decode_positional(root: Option<Option<u64>>, nodes: Option<Vec<Node>>) -> (r: Result<
        FlowArena,
        FlowError,
    >)
        ensures
            abs_result(r) == spec_decode_positional(
                root,
                match nodes {
                    Some(nv) => Some(views_of(nv@)),
                    None => None,
                },
            ),
            r matches Ok(a) ==> ids_unique(a@.nodes) && (links_consistent(a@.nodes)
                && ids_below_max(a@.nodes) ==> a@.wf()),
    {
        let rv = match root {
            None => {
                return Err(FlowError::TruncatedSequence(0));
            },
            Some(rv) => rv,
        };
        let nv = match nodes {
            None => {
                return Err(FlowError::TruncatedSequence(1));
            },
            Some(nv) => nv,
        };
        Self::from_parts(rv, nv)
    }

    /// Decodes the field-tagged wire shape: the occurrences are walked
    /// in wire order; a name outside the schema, a repeated field and
    /// a missing field are rejected.
    pub fn decode_tagged(fields: Vec<WireField>) -> (r: Result<FlowArena, FlowError>)
        ensures
            abs_result(r) == spec_decode_tagged(wire_views(fields@)),
            r matches Ok(a) ==> ids_unique(a@.nodes) && (links_consistent(a@.nodes)
                && ids_below_max(a@.nodes) ==> a@.wf()),
    {
        let ghost all = wire_views(fields@);
        let mut rest = fields;
        let mut racc: Option<Option<u64>> = None;
        let mut nacc: Option<Vec<Node>> = None;
        while rest.len() > 0
            invariant
                all == wire_views(fields@),
                spec_gather(all, None, None) == spec_gather(
                    wire_views(rest@),
                    racc,
                    match nacc {
                        Some(nv) => Some(views_of(nv@)),
                        None => None,
                    },
                ),
            decreases rest@.len(),
        {
            let ghost prev = rest@;
            let ghost racc0 = racc;
            let ghost nacc0: Option<Seq<NodeV>> = match &nacc {
                Some(nv) => Some(views_of(nv@)),
                None => None,
            };
            let f = rest.remove(0);
            proof {
                assert(f == prev[0]);
                assert(wire_views(prev)[0] == prev[0]@);
                assert(wire_views(prev).drop_first() =~= wire_views(rest@));
            }
            match f {
                WireField::Unknown(_) => {
                    proof {
                        assert(spec_gather(wire_views(prev), racc0, nacc0) == Err::<
                            (Option<u64>, Seq<NodeV>),
                            FlowError,
                        >(FlowError::UnknownField));
                    }
                    return Err(FlowError::UnknownField);
                },
                WireField::Root(v) => {
                    if racc.is_some() {
                        proof {
                            assert(spec_gather(wire_views(prev), racc0, nacc0) == Err::<
                                (Option<u64>, Seq<NodeV>),
                                FlowError,
                            >(FlowError::DuplicateField(FieldTag::Root)));
                        }
                        return Err(FlowError::DuplicateField(FieldTag::Root));
                    }
                    racc = Some(v);
                    proof {
                        assert(spec_gather(wire_views(prev), racc0, nacc0) == spec_gather(
                            wire_views(rest@),
                            Some(v),
                            nacc0,
                        ));
                    }
                },
                WireField::NodeMap(nv) => {
                    if nacc.is_some() {
                        proof {
                            assert(spec_gather(wire_views(prev), racc0, nacc0) == Err::<
                                (Option<u64>, Seq<NodeV>),
                                FlowError,
                            >(FlowError::DuplicateField(FieldTag::NodeMap)));
                        }
                        return Err(FlowError::DuplicateField(FieldTag::NodeMap));
                    }
                    proof {
                        assert(spec_gather(wire_views(prev), racc0, nacc0) == spec_gather(
                            wire_views(rest@),
                            racc0,
                            Some(views_of(nv@)),
                        ));
                    }
                    nacc = Some(nv);
                },
            }
        }
        let rv = match racc {
            None => {
                return Err(FlowError::MissingField(FieldTag::Root));
            },
            Some(rv) => rv,
        };
        let nv = match nacc {
            None => {
                return Err(FlowError::MissingField(FieldTag::NodeMap));
            },
            Some(nv) => nv,
        };
        Self::from_parts(rv, nv)
    }
}

/// No id repeats, scanning from any start, when the ids are unique.
proof fn lemma_unique_scan(s: Seq<NodeV>, j: int)
    requires
        ids_unique(s),
    ensures
        dup_scan(s, j) is None,
    decreases s.len() - j,
{
    if j < 0 || j >= s.len() {
    } else {
        assert(!(exists|i: int| 0 <= i < j && s[i].id == s[j].id));
        lemma_unique_scan(s, j + 1);
    }
}

/// A repeated id anywhere makes the scan report a duplicate.
proof fn lemma_scan_finds_dup(s: Seq<NodeV>, k: int, i: int, j: int)
    requires
        0 <= i < j < s.len(),
        s[i].id == s[j].id,
        0 <= k <= j,
    ensures
        dup_scan(s, k) is Some,
    decreases j - k,
{
    if k == j {
        assert(dup_scan(s, k) == Some(s[j].id));
    } else {
        if exists|p: int| 0 <= p < k && s[p].id == s[k].id {
        } else {
            lemma_scan_finds_dup(s, k + 1, i, j);
        }
    }
}

/// A node sequence carrying the same id on two entries never decodes:
/// the validated construction reports `DuplicateIdentity`.
pub proof fn lemma_duplicate_rejected(root: Option<u64>, nodes: Seq<NodeV>, i: int, j: int)
    requires
        0 <= i < j < nodes.len(),
        nodes[i].id == nodes[j].id,
    ensures
        spec_from_parts(root, nodes) == Err::<(Option<u64>, Seq<NodeV>), FlowError>(
            FlowError::DuplicateIdentity(dup_scan(nodes, 0)->Some_0),
        ),
{
    lemma_scan_finds_dup(nodes, 0, i, j);
}

/// Round trip: the encoded parts of a well-formed arena decode, in
/// either wire shape, to the identical root and the identical node
/// sequence.
pub proof fn lemma_round_trip(a: FlowV)
    requires
        a.wf(),
    ensures
        spec_from_parts(a.root, a.nodes) == Ok::<(Option<u64>, Seq<NodeV>), FlowError>(
            (a.root, a.nodes),
        ),
        spec_decode_positional(Some(a.root), Some(a.nodes)) == Ok::<
            (Option<u64>, Seq<NodeV>),
            FlowError,
        >((a.root, a.nodes)),
        spec_decode_tagged(
            seq![WireFieldV::Root(a.root), WireFieldV::NodeMap(a.nodes)],
        ) == Ok::<(Option<u64>, Seq<NodeV>), FlowError>((a.root, a.nodes)),
    {
    lemma_unique_scan(a.nodes, 0);
    let fields = seq![WireFieldV::Root(a.root), WireFieldV::NodeMap(a.nodes)];
    let second = seq![WireFieldV::NodeMap(a.nodes)];
    assert(fields.drop_first() =~= second);
    assert(second.drop_first() =~= Seq::<WireFieldV>::empty());
    assert(spec_gather(Seq::<WireFieldV>::empty(), Some(a.root), Some(a.nodes)) == Ok::<
        (Option<u64>, Seq<NodeV>),
        FlowError,
    >((a.root, a.nodes)));
    assert(spec_gather(second, Some(a.root), None) == spec_gather(
        Seq::<WireFieldV>::empty(),
        Some(a.root),
        Some(a.nodes),
    ));
    assert(spec_gather(fields, None, None) == spec_gather(second, Some(a.root), None));
}

} // verus!
