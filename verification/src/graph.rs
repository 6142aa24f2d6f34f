//! A read-oriented snapshot of one node and its descendant closure,
//! carrying its own cursor: a current position, moved along the tree's
//! axes, and a two-state pin ("fix") gating movement.
//!
//! The pin policy: `Activated` forbids every position change until an
//! explicit `Stay` with `fixed == false` releases it.  A move with
//! `fixed == true` pins the cursor at its new position; `Stay` with
//! `fixed == true` pins it in place.

use crate::arena::FlowArena;
use crate::error::FlowError;
use crate::node::{
    holds_id, ids_unique, index_of_id, lemma_node_at_index, node_links_ok, node_of, views_of,
    Node, NodeV,
};
use vstd::prelude::*;
use vstd::set_lib::lemma_len_subset;

verus! {

/// The two-state pin flag gating cursor movement.
#[derive(Clone, Copy, Debug, PartialEq, Eq, Structural)]
pub enum FixState {
    Activated,
    Deactivated,
}

impl FixState {
    pub fn activate(&mut self)
        ensures
            *final(self) == FixState::Activated,
    {
        *self = FixState::Activated;
    }

    pub fn deactivate(&mut self)
        ensures
            *final(self) == FixState::Deactivated,
    {
        *self = FixState::Deactivated;
    }

    pub fn is_activated(&self) -> (r: bool)
        ensures
            r == (*self == FixState::Activated),
    {
        match self {
            FixState::Activated => true,
            FixState::Deactivated => false,
        }
    }
}

/// The navigable axes: stay in place, to the parent, to the first
/// child, to the previous sibling, to the next sibling.
#[derive(Clone, Copy, Debug, PartialEq, Eq, Structural)]
pub enum Direction {
    Stay,
    Ascend,
    Descend,
    Backward,
    Forward,
}

/// The mathematical value of a graph snapshot.
pub ghost struct GraphV {
    pub nodes: Seq<NodeV>,
    pub root: Option<u64>,
    pub pos: Option<u64>,
    pub fix: FixState,
}

impl GraphV {
    pub open spec fn holds(self, id: u64) -> bool {
        holds_id(self.nodes, id)
    }

    pub open spec fn node(self, id: u64) -> NodeV {
        node_of(self.nodes, id)
    }
}

/// The snapshot: the copied nodes, the snapshot root, the cursor
/// position, and the pin state.
#[derive(Debug)]
pub struct Graph {
    pub nodes: Vec<Node>,
    pub root: Option<u64>,
    pub pos: Option<u64>,
    pub fix: FixState,
}

impl View for Graph {
    type V = GraphV;

    open spec fn view(&self) -> GraphV {
        GraphV { nodes: views_of(self.nodes@), root: self.root, pos: self.pos, fix: self.fix }
    }
}

/// A walk along descendant edges of `s` from `a` to `b`.
pub open spec fn is_desc_path(s: Seq<NodeV>, p: Seq<u64>, a: u64, b: u64) -> bool {
    &&& p.len() >= 1
    &&& p[0] == a
    &&& p.last() == b
    &&& forall|k: int|
        0 <= k < p.len() - 1 ==> holds_id(s, #[trigger] p[k]) && node_of(
            s,
            p[k],
        ).descendants.contains(p[k + 1])
}

/// Whether `b` lies in the descendant closure of `a` within `s`.
pub open spec fn reaches(s: Seq<NodeV>, a: u64, b: u64) -> bool {
    exists|p: Seq<u64>| is_desc_path(s, p, a, b)
}

/// Every node is in its own closure.
pub proof fn lemma_reaches_self(s: Seq<NodeV>, a: u64)
    ensures
        reaches(s, a, a),
{
    let p = seq![a];
    assert(is_desc_path(s, p, a, a));
}

/// The closure extends along one descendant edge.
pub proof fn lemma_reaches_step(s: Seq<NodeV>, a: u64, b: u64, d: u64)
    requires
        reaches(s, a, b),
        holds_id(s, b),
        node_of(s, b).descendants.contains(d),
    ensures
        reaches(s, a, d),
{
    let p = choose|p: Seq<u64>| is_desc_path(s, p, a, b);
    let p2 = p.push(d);
    assert(p2.last() == d);
    assert forall|k: int| 0 <= k < p2.len() - 1 implies holds_id(s, #[trigger] p2[k]) && node_of(
        s,
        p2[k],
    ).descendants.contains(p2[k + 1]) by {
        if k < p.len() - 1 {
            assert(p2[k] == p[k] && p2[k + 1] == p[k + 1]);
        } else {
            assert(p2[k] == p.last() && p2[k + 1] == d);
        }
    }
    assert(is_desc_path(s, p2, a, d));
}

/// A set of copied nodes that contains the target and is closed under
/// descendant edges covers the whole closure of the target.
proof fn lemma_closure_complete(s: Seq<NodeV>, gs: Seq<NodeV>, t: u64, b: u64, p: Seq<u64>)
    requires
        is_desc_path(s, p, t, b),
        holds_id(gs, t),
        forall|x: u64| #[trigger]
            holds_id(gs, x) ==> holds_id(s, x) && node_of(gs, x) == node_of(s, x),
        forall|x: u64, j: int|
            holds_id(gs, x) && 0 <= j < node_of(gs, x).descendants.len() ==> holds_id(
                gs,
                #[trigger] node_of(gs, x).descendants[j],
            ),
    ensures
        holds_id(gs, b),
    decreases p.len(),
{
    if p.len() == 1 {
        assert(b == t);
    } else {
        let q = p.drop_last();
        let prev = p[p.len() - 2];
        assert(q.last() == prev);
        assert forall|k: int| 0 <= k < q.len() - 1 implies holds_id(s, #[trigger] q[k]) && node_of(
            s,
            q[k],
        ).descendants.contains(q[k + 1]) by {
            assert(q[k] == p[k] && q[k + 1] == p[k + 1]);
        }
        assert(is_desc_path(s, q, t, prev));
        lemma_closure_complete(s, gs, t, prev, q);
        assert(holds_id(s, prev) && node_of(s, prev).descendants.contains(p[p.len() - 1]));
        assert(node_of(gs, prev) == node_of(s, prev));
        let j = choose|j: int|
            0 <= j < node_of(s, prev).descendants.len() && node_of(s, prev).descendants[j] == b;
        assert(holds_id(gs, node_of(gs, prev).descendants[j]));
    }
}

/// The ids of the entries of `s`, in order.
pub open spec fn ids_of(s: Seq<NodeV>) -> Seq<u64> {
    s.map_values(|n: NodeV| n.id)
}

/// A duplicate-free id list drawn from a duplicate-free id list is no
/// longer than its source.
proof fn lemma_unique_sub_len(a: Seq<u64>, b: Seq<u64>)
    requires
        a.no_duplicates(),
        forall|i: int| 0 <= i < a.len() ==> b.contains(#[trigger] a[i]),
    ensures
        a.len() <= b.len(),
{
    broadcast use vstd::seq_lib::seq_to_set_is_finite;

    a.unique_seq_to_set();
    b.lemma_cardinality_of_set();
    assert forall|x: u64| a.to_set().contains(x) implies b.to_set().contains(x) by {
        let i = choose|i: int| 0 <= i < a.len() && a[i] == x;
        assert(b.contains(a[i]));
    }
    lemma_len_subset(a.to_set(), b.to_set());
}

/// The target of one cursor move along `dir`, if any: the axis is
/// resolved at the current position and the move is valid only when
/// the target is itself held by the snapshot.
pub open spec fn wander_target(g: GraphV, dir: Direction) -> Option<u64> {
    match g.pos {
        None => None,
        Some(p) => if !g.holds(p) {
            None
        } else {
            match dir {
                Direction::Stay => None,
                Direction::Ascend => match g.node(p).ancestor {
                    Some(a) => if g.holds(a) {
                        Some(a)
                    } else {
                        None
                    },
                    None => None,
                },
                Direction::Descend => if g.node(p).descendants.len() > 0 && g.holds(
                    g.node(p).descendants[0],
                ) {
                    Some(g.node(p).descendants[0])
                } else {
                    None
                },
                Direction::Backward => sibling_target(g, p, true),
                Direction::Forward => sibling_target(g, p, false),
            }
        },
    }
}

/// The previous (`back == true`) or next sibling of `p`, if any: its
/// place among the siblings is the first occurrence of `p` in its
/// ancestor's descendant list.
pub open spec fn sibling_target(g: GraphV, p: u64, back: bool) -> Option<u64> {
    match g.node(p).ancestor {
        None => None,
        Some(a) => if !g.holds(a) {
            None
        } else {
            let sibs = g.node(a).descendants;
            match sibs.index_of_first(p) {
                None => None,
                Some(k) => if back {
                    if k > 0 && g.holds(sibs[k - 1]) {
                        Some(sibs[k - 1])
                    } else {
                        None
                    }
                } else {
                    if k < sibs.len() - 1 && g.holds(sibs[k + 1]) {
                        Some(sibs[k + 1])
                    } else {
                        None
                    }
                },
            }
        },
    }
}

/// The position of `id` in a plain id list, if any; scanning finds the
/// first occurrence.
pub(crate) fn find_u64(v: &Vec<u64>, id: u64) -> (r: Option<usize>)
    ensures
        v@.index_of_first(id) == match r {
            Some(i) => Some(i as int),
            None => None::<int>,
        },
{
    let n = v.len();
    let mut i: usize = 0;
    while i < n
        invariant
            n == v@.len(),
            i <= n,
            forall|j: int| 0 <= j < i ==> v@[j] != id,
        decreases n - i,
    {
        if v[i] == id {
            proof {
                v@.index_of_first_ensures(id);
                assert(v@.contains(id));
                match v@.index_of_first(id) {
                    Some(f) => {
                        if f < i as int {
                            assert(v@[f] != id);
                        } else if (i as int) < f {
                            assert(v@[i as int] != id);
                        }
                    },
                    None => {},
                }
            }
            return Some(i);
        }
        i += 1;
    }
    proof {
        v@.index_of_first_ensures(id);
        if v@.contains(id) {
            let j = choose|j: int| 0 <= j < v@.len() && v@[j] == id;
        }
    }
    None
}

impl Graph {
    /// The storage index of `id`, if any.
    fn find_index(&self, id: u64) -> (r: Option<usize>)
        ensures
            match r {
                Some(i) => i < self.nodes@.len() && self@.nodes[i as int].id == id,
                None => !self@.holds(id),
            },
    {
        let n = self.nodes.len();
        let mut i: usize = 0;
        while i < n
            invariant
                n == self.nodes@.len(),
                i <= n,
                forall|j: int| 0 <= j < i ==> self@.nodes[j].id != id,
            decreases n - i,
        {
            if self.nodes[i].id == id {
                return Some(i);
            }
            i += 1;
        }
        None
    }

    /// Builds the snapshot of `target` and its whole descendant
    /// closure out of `flow`; the cursor starts unplaced and unpinned.
    /// Rejected with `NotFound` when `target` is absent.
    #[verifier::rlimit(80)]
    pub fn from_flow(flow: &FlowArena, target: u64) -> (r: Result<Graph, FlowError>)
        requires
            flow@.wf(),
        ensures
            r is Ok <==> flow@.holds(target),
            r is Err ==> r == Err::<Graph, FlowError>(FlowError::NotFound),
            r matches Ok(g) ==> {
                &&& g@.root == Some(target)
                &&& g@.pos is None
                &&& g@.fix == FixState::Deactivated
                &&& ids_unique(g@.nodes)
                &&& forall|x: u64| #[trigger]
                    g@.holds(x) <==> reaches(flow@.nodes, target, x)
                &&& forall|x: u64| #[trigger] g@.holds(x) ==> g@.node(x) == flow@.node(x)
            },
    {
        let ghost s = flow@.nodes;
        if flow.get(target).is_err() {
            return Err(FlowError::NotFound);
        }
        let mut out: Vec<Node> = Vec::new();
        let mut queue: Vec<u64> = Vec::new();
        queue.push(target);
        proof {
            lemma_reaches_self(s, target);
            assert(queue@[0] == target);
            assert(queue@.contains(target));
        }
        while queue.len() > 0
            invariant
                flow@.wf(),
                s == flow@.nodes,
                flow@.holds(target),
                ids_unique(views_of(out@)),
                out@.len() <= s.len(),
                forall|x: u64| #[trigger]
                    holds_id(views_of(out@), x) ==> flow@.holds(x) && node_of(views_of(out@), x)
                        == flow@.node(x) && reaches(s, target, x),
                forall|k: int|
                    0 <= k < queue@.len() ==> flow@.holds(#[trigger] queue@[k]) && reaches(
                        s,
                        target,
                        queue@[k],
                    ),
                holds_id(views_of(out@), target) || queue@.contains(target),
                forall|x: u64, j: int|
                    holds_id(views_of(out@), x) && 0 <= j < node_of(views_of(out@), x).descendants.len()
                        ==> holds_id(
                        views_of(out@),
                        #[trigger] node_of(views_of(out@), x).descendants[j],
                    ) || queue@.contains(node_of(views_of(out@), x).descendants[j]),
            decreases s.len() - out@.len(), queue@.len(),
        {
            let ghost out0 = views_of(out@);
            let ghost queue0 = queue@;
            let id = match queue.pop() {
                Some(id) => id,
                None => {
                    proof {
                        assert(false);
                    }
                    0
                },
            };
            proof {
                assert(queue0.contains(id)) by {
                    assert(queue0.last() == id);
                }
                assert forall|y: u64| queue@.contains(y) implies queue0.contains(y) by {
                    let k = choose|k: int| 0 <= k < queue@.len() && queue@[k] == y;
                    assert(queue0[k] == y);
                }
            }
            if Self::member(&out, id) {
                proof {
                    assert forall|x: u64, j: int|
                        holds_id(out0, x) && 0 <= j < node_of(out0, x).descendants.len() implies holds_id(
                        out0,
                        #[trigger] node_of(out0, x).descendants[j],
                    ) || queue@.contains(node_of(out0, x).descendants[j]) by {
                        let d = node_of(out0, x).descendants[j];
                        if queue0.contains(d) && !holds_id(out0, d) {
                            let k = choose|k: int| 0 <= k < queue0.len() && queue0[k] == d;
                            if k < queue0.len() - 1 {
                                assert(queue@[k] == d);
                            } else {
                                assert(d == id);
                            }
                        }
                    }
                    if !holds_id(out0, target) {
                        let k = choose|k: int| 0 <= k < queue0.len() && queue0[k] == target;
                        if k < queue0.len() - 1 {
                            assert(queue@[k] == target);
                        }
                    }
                }
                continue ;
            }
            let node = match flow.get(id) {
                Ok(n) => n,
                Err(_) => {
                    proof {
                        assert(false);
                    }
                    return Err(FlowError::NotFound);
                },
            };
            let copy = node.duplicate();
            let ghost m = copy@;
            proof {
                assert(m == flow@.node(id));
            }
            // every descendant of a stored node is itself stored and
            // reachable, so it may join the frontier
            let mut di: usize = 0;
            let nd = copy.descendants.len();
            while di < nd
                invariant
                    flow@.wf(),
                    s == flow@.nodes,
                    flow@.holds(target),
                    flow@.holds(id),
                    reaches(s, target, id),
                    m == flow@.node(id),
                    copy@ == m,
                    nd == m.descendants.len(),
                    di <= nd,
                    queue0.len() >= 1,
                    queue@.len() == queue0.len() - 1 + di,
                    forall|k: int|
                        0 <= k < queue0.len() - 1 ==> queue@[k] == queue0[k],
                    forall|k: int|
                        queue0.len() - 1 <= k < queue@.len() ==> queue@[k] == m.descendants[k - (
                        queue0.len() - 1)],
                    forall|k: int|
                        0 <= k < queue@.len() ==> flow@.holds(#[trigger] queue@[k]) && reaches(
                            s,
                            target,
                            queue@[k],
                        ),
                decreases nd - di,
            {
                let d = copy.descendants[di];
                proof {
                    assert(node_links_ok(s, m));
                    assert(m.descendants.contains(d)) by {
                        assert(m.descendants[di as int] == d);
                    }
                    lemma_reaches_step(s, target, id, d);
                }
                let ghost qprev = queue@;
                queue.push(d);
                proof {
                    assert(queue@ == qprev.push(d));
                    assert forall|k: int|
                        queue0.len() - 1 <= k < queue@.len() implies queue@[k] == m.descendants[k
                        - (queue0.len() - 1)] by {
                        if k < queue@.len() - 1 {
                            assert(queue@[k] == qprev[k]);
                        } else {
                            assert(queue@[k] == d);
                            assert(k - (queue0.len() - 1) == di as int);
                        }
                    }
                }
                di += 1;
            }
            out.push(copy);
            proof {
                let out1 = views_of(out@);
                assert(out1 =~= out0.push(m));
                assert(!holds_id(out0, id));
                assert(forall|k: int| 0 <= k < out0.len() ==> out1[k] == out0[k]);
                assert(ids_unique(out1));
                lemma_node_at_index(out1, out0.len() as int);
                assert forall|x: u64| #[trigger] holds_id(out1, x) implies flow@.holds(x)
                    && node_of(out1, x) == flow@.node(x) && reaches(s, target, x) by {
                    let k = choose|k: int| 0 <= k < out1.len() && out1[k].id == x;
                    if k < out0.len() {
                        assert(holds_id(out0, x)) by {
                            assert(out0[k].id == x);
                        }
                        lemma_node_at_index(out1, k);
                        lemma_node_at_index(out0, k);
                    } else {
                        assert(out1[k] == m);
                        assert(x == id);
                    }
                }
                // cardinality: the stored ids stay within the arena's
                let oi = ids_of(out1);
                let si = ids_of(s);
                assert(oi.no_duplicates());
                assert(si.no_duplicates());
                assert forall|k: int| 0 <= k < oi.len() implies si.contains(#[trigger] oi[k]) by {
                    assert(oi[k] == out1[k].id);
                    assert(holds_id(out1, out1[k].id)) by {
                        lemma_node_at_index(out1, k);
                    }
                    let w = index_of_id(s, out1[k].id);
                    assert(0 <= w < s.len() && s[w].id == out1[k].id);
                    assert(si[w] == out1[k].id);
                }
                lemma_unique_sub_len(oi, si);
                assert(out1.len() <= s.len());
                // the completeness front: every descendant of a stored
                // node is stored or queued
                assert forall|x: u64, j: int|
                    holds_id(out1, x) && 0 <= j < node_of(out1, x).descendants.len() implies holds_id(
                    out1,
                    #[trigger] node_of(out1, x).descendants[j],
                ) || queue@.contains(node_of(out1, x).descendants[j]) by {
                    let d = node_of(out1, x).descendants[j];
                    if x == id {
                        assert(node_of(out1, id) == m);
                        assert(queue@[queue0.len() - 1 + j] == d);
                        assert(queue@.contains(d));
                    } else {
                        assert(holds_id(out0, x));
                        assert(node_of(out1, x) == node_of(out0, x));
                        if !holds_id(out0, d) && !holds_id(out1, d) {
                            assert(queue0.contains(d));
                            let k = choose|k: int| 0 <= k < queue0.len() && queue0[k] == d;
                            if k < queue0.len() - 1 {
                                assert(queue@[k] == d);
                            } else {
                                assert(d == id);
                                assert(holds_id(out1, id));
                            }
                        }
                    }
                }
                if !holds_id(out1, target) && !queue@.contains(target) {
                    assert(target != id);
                    assert(queue0.contains(target));
                    let k = choose|k: int| 0 <= k < queue0.len() && queue0[k] == target;
                    if k < queue0.len() - 1 {
                        assert(queue@[k] == target);
                    }
                }
            }
        }
        let g = Graph { nodes: out, root: Some(target), pos: None, fix: FixState::Deactivated };
        proof {
            let gs = g@.nodes;
            assert forall|x: u64| reaches(s, target, x) implies #[trigger] holds_id(gs, x) by {
                let p = choose|p: Seq<u64>| is_desc_path(s, p, target, x);
                lemma_closure_complete(s, gs, target, x, p);
            }
        }
        Ok(g)
    }
}

impl Graph {
    /// Membership scan over the copied nodes.
    fn member(v: &Vec<Node>, id: u64) -> (r: bool)
        ensures
            r == holds_id(views_of(v@), id),
    {
        let n = v.len();
        let mut i: usize = 0;
        while i < n
            invariant
                n == v@.len(),
                i <= n,
                forall|j: int| 0 <= j < i ==> views_of(v@)[j].id != id,
            decreases n - i,
        {
            if v[i].id == id {
                proof {
                    assert(views_of(v@)[i as int].id == id);
                }
                return true;
            }
            i += 1;
        }
        false
    }

    /// Validates that `id` is held by the snapshot; pure.
    pub fn check(&self, obj: &u64) -> (r: Result<u64, FlowError>)
        ensures
            self@.holds(*obj) ==> r == Ok::<u64, FlowError>(*obj),
            !self@.holds(*obj) ==> r == Err::<u64, FlowError>(FlowError::NotFound),
    {
        match self.find_index(*obj) {
            Some(i) => {
                proof {
                    assert(self@.holds(*obj)) by {
                        assert(self@.nodes[i as int].id == *obj);
                    }
                }
                Ok(*obj)
            },
            None => Err(FlowError::NotFound),
        }
    }

    /// The cursor's current position, `None` before any focus.
    pub fn current(&self) -> (r: Option<u64>)
        ensures
            r == self@.pos,
    {
        self.pos
    }

    /// Moves the cursor along `dir`.  On an empty snapshot nothing
    /// happens.  `Stay` with `fixed == false` releases the pin; `Stay`
    /// with `fixed == true` pins the cursor in place.  Any other
    /// direction is refused with `CursorPinned` while the pin is
    /// active; otherwise the move lands on the axis' target — pinning
    /// the cursor there when `fixed == true` — or is refused with
    /// `NoSuchNeighbor` when the axis has no target, leaving the
    /// position unchanged.
    pub fn wander(&mut self, dir: Direction, fixed: bool) -> (r: Result<(), FlowError>)
        requires
            ids_unique(old(self)@.nodes),
        ensures
            final(self)@.nodes == old(self)@.nodes,
            final(self)@.root == old(self)@.root,
            old(self)@.nodes.len() == 0 ==> r is Ok && final(self)@ == old(self)@,
            old(self)@.nodes.len() > 0 && dir == Direction::Stay ==> r is Ok && final(self)@.pos
                == old(self)@.pos && final(self)@.fix == (if fixed {
                FixState::Activated
            } else {
                FixState::Deactivated
            }),
            old(self)@.nodes.len() > 0 && dir != Direction::Stay && old(self)@.fix
                == FixState::Activated ==> r == Err::<(), FlowError>(FlowError::CursorPinned)
                && final(self)@ == old(self)@,
            old(self)@.nodes.len() > 0 && dir != Direction::Stay && old(self)@.fix
                == FixState::Deactivated ==> match wander_target(old(self)@, dir) {
                None => r == Err::<(), FlowError>(FlowError::NoSuchNeighbor) && final(self)@
                    == old(self)@,
                Some(t) => r is Ok && final(self)@.pos == Some(t) && final(self)@.fix == (if fixed {
                    FixState::Activated
                } else {
                    FixState::Deactivated
                }),
            },
    {
        if self.nodes.len() == 0 {
            return Ok(());
        }
        if dir == Direction::Stay {
            if fixed {
                self.fix.activate();
            } else {
                self.fix.deactivate();
            }
            return Ok(());
        }
        if self.fix.is_activated() {
            return Err(FlowError::CursorPinned);
        }
        let p = match self.pos {
            None => {
                return Err(FlowError::NoSuchNeighbor);
            },
            Some(p) => p,
        };
        let pi = match self.find_index(p) {
            None => {
                return Err(FlowError::NoSuchNeighbor);
            },
            Some(pi) => pi,
        };
        proof {
            lemma_node_at_index(self@.nodes, pi as int);
        }
        let target: Option<u64> = match dir {
            Direction::Stay => None,
            Direction::Ascend => {
                match self.nodes[pi].ancestor {
                    Some(a) => {
                        if self.find_index(a).is_some() {
                            Some(a)
                        } else {
                            None
                        }
                    },
                    None => None,
                }
            },
            Direction::Descend => {
                if self.nodes[pi].descendants.len() > 0 {
                    let d = self.nodes[pi].descendants[0];
                    if self.find_index(d).is_some() {
                        Some(d)
                    } else {
                        None
                    }
                } else {
                    None
                }
            },
            Direction::Backward => self.sibling(pi, p, true),
            Direction::Forward => self.sibling(pi, p, false),
        };
        proof {
            assert(target == wander_target(self@, dir));
        }
        match target {
            None => Err(FlowError::NoSuchNeighbor),
            Some(t) => {
                self.pos = Some(t);
                if fixed {
                    self.fix.activate();
                } else {
                    self.fix.deactivate();
                }
                Ok(())
            },
        }
    }

    /// The previous or next sibling of the node at index `pi`, if any.
    fn sibling(&self, pi: usize, p: u64, back: bool) -> (r: Option<u64>)
        requires
            ids_unique(self@.nodes),
            pi < self@.nodes.len(),
            self@.nodes[pi as int].id == p,
        ensures
            r == sibling_target(self@, p, back),
    {
        proof {
            lemma_node_at_index(self@.nodes, pi as int);
        }
        let a = match self.nodes[pi].ancestor {
            None => {
                return None;
            },
            Some(a) => a,
        };
        let ai = match self.find_index(a) {
            None => {
                return None;
            },
            Some(ai) => ai,
        };
        proof {
            lemma_node_at_index(self@.nodes, ai as int);
        }
        let k = match find_u64(&self.nodes[ai].descendants, p) {
            None => {
                return None;
            },
            Some(k) => k,
        };
        let sibs = &self.nodes[ai].descendants;
        proof {
            sibs@.index_of_first_ensures(p);
            assert(0 <= k < sibs@.len() && sibs@[k as int] == p);
        }
        if back {
            if k > 0 {
                let t = sibs[k - 1];
                if self.find_index(t).is_some() {
                    Some(t)
                } else {
                    None
                }
            } else {
                None
            }
        } else {
            if k < sibs.len() - 1 {
                let t = sibs[k + 1];
                if self.find_index(t).is_some() {
                    Some(t)
                } else {
                    None
                }
            } else {
                None
            }
        }
    }

    /// Places the cursor on `obj`; rejected with `NotFound` when the
    /// id is absent, leaving the cursor unmoved.
    pub fn focus(&mut self, obj: u64) -> (r: Result<(), FlowError>)
        ensures
            final(self)@.nodes == old(self)@.nodes,
            final(self)@.root == old(self)@.root,
            final(self)@.fix == old(self)@.fix,
            old(self)@.holds(obj) ==> r is Ok && final(self)@.pos == Some(obj),
            !old(self)@.holds(obj) ==> r == Err::<(), FlowError>(FlowError::NotFound)
                && final(self)@.pos == old(self)@.pos,
    {
        match self.check(&obj) {
            Ok(_) => {
                self.pos = Some(obj);
                Ok(())
            },
            Err(e) => Err(e),
        }
    }
}

} // verus!
