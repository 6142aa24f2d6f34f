//! The sole-owner store mapping identities to nodes, plus an optional
//! root identity.  Structural mutation goes through `grow` (create a
//! detached node), `tiptoe` (designate a root), `chain` (attach a
//! detached node under a host) and `erase` (remove a node with no
//! descendants), each of which preserves the structural invariants.
//!
//! Nodes are stored in insertion order; the keyed mapping of the
//! specification is derived from that order, so the wire codec can emit
//! the node set as a stable ordered sequence.

use crate::entity::ProcessStatus;
use crate::error::FlowError;
use crate::node::{
    holds_id, ids_unique, index_of_id, lemma_node_at_index, links_consistent, node_links_ok,
    node_of, views_of, Node, NodeV,
};
use vstd::prelude::*;

verus! {

/// The mathematical value of an arena: the node views in storage
/// order, the optional root id, and the next identity to be produced.
pub ghost struct FlowV {
    pub nodes: Seq<NodeV>,
    pub root: Option<u64>,
    pub next_id: u64,
}

impl FlowV {
    pub open spec fn holds(self, id: u64) -> bool {
        holds_id(self.nodes, id)
    }

    pub open spec fn node(self, id: u64) -> NodeV {
        node_of(self.nodes, id)
    }

    /// The structural invariants: no id keys two nodes; ancestor and
    /// descendant pointers are mutually consistent; a designated root
    /// is stored; every stored id is below the identity counter.
    pub open spec fn wf(self) -> bool {
        &&& ids_unique(self.nodes)
        &&& links_consistent(self.nodes)
        &&& match self.root {
            Some(r) => holds_id(self.nodes, r),
            None => true,
        }
        &&& forall|i: int| 0 <= i < self.nodes.len() ==> (#[trigger] self.nodes[i].id) < self.next_id
    }

    /// When `chain(new_comer, host)` succeeds: both ids are stored and
    /// the new comer is detached.
    pub open spec fn chain_enabled(self, new_comer: u64, host: u64) -> bool {
        &&& self.holds(new_comer)
        &&& self.node(new_comer).ancestor is None
        &&& self.holds(host)
    }

    /// When `erase(id)` succeeds: the id is stored and its node lists
    /// no descendants.
    pub open spec fn erase_enabled(self, id: u64) -> bool {
        &&& self.holds(id)
        &&& self.node(id).descendants.len() == 0
    }
}

/// The arena.  `root` is the designated tree root, if any; `next_id`
/// is the source of fresh identities.
#[derive(Debug)]
pub struct FlowArena {
    pub nodes: Vec<Node>,
    pub root: Option<u64>,
    pub next_id: u64,
}

impl View for FlowArena {
    type V = FlowV;

    open spec fn view(&self) -> FlowV {
        FlowV { nodes: views_of(self.nodes@), root: self.root, next_id: self.next_id }
    }
}

/// Updating one entry in place keeps every other keyed lookup intact.
proof fn lemma_update_preserves(s: Seq<NodeV>, i: int, m: NodeV)
    requires
        ids_unique(s),
        0 <= i < s.len(),
        m.id == s[i].id,
    ensures
        ids_unique(s.update(i, m)),
        forall|x: u64| holds_id(s.update(i, m), x) <==> holds_id(s, x),
        forall|x: u64|
            x != m.id && holds_id(s, x) ==> node_of(s.update(i, m), x) == node_of(s, x),
        holds_id(s.update(i, m), m.id),
        node_of(s.update(i, m), m.id) == m,
        index_of_id(s.update(i, m), m.id) == i,
{
    let s2 = s.update(i, m);
    assert(forall|k: int| 0 <= k < s.len() ==> s2[k].id == s[k].id);
    assert forall|x: u64| holds_id(s2, x) <==> holds_id(s, x) by {
        if holds_id(s2, x) {
            let k = choose|k: int| 0 <= k < s2.len() && s2[k].id == x;
            assert(s[k].id == x);
        }
        if holds_id(s, x) {
            let k = choose|k: int| 0 <= k < s.len() && s[k].id == x;
            assert(s2[k].id == x);
        }
    }
    assert forall|x: u64| x != m.id && holds_id(s, x) implies node_of(s2, x) == node_of(s, x) by {
        let k = index_of_id(s, x);
        assert(0 <= k < s.len() && s[k].id == x);
        assert(k != i);
        lemma_node_at_index(s2, k);
        lemma_node_at_index(s, k);
    }
    lemma_node_at_index(s2, i);
}

/// Removing one entry keeps every other keyed lookup intact.
proof fn lemma_remove_preserves(s: Seq<NodeV>, i: int)
    requires
        ids_unique(s),
        0 <= i < s.len(),
    ensures
        ids_unique(s.remove(i)),
        !holds_id(s.remove(i), s[i].id),
        forall|x: u64| x != s[i].id ==> (holds_id(s.remove(i), x) <==> holds_id(s, x)),
        forall|x: u64|
            x != s[i].id && holds_id(s, x) ==> node_of(s.remove(i), x) == node_of(s, x),
{
    let s2 = s.remove(i);
    assert(forall|k: int|
        0 <= k < s2.len() ==> s2[k] == (if k < i {
            s[k]
        } else {
            s[k + 1]
        }));
    assert forall|x: u64| x != s[i].id implies (holds_id(s2, x) <==> holds_id(s, x)) by {
        if holds_id(s2, x) {
            let k = choose|k: int| 0 <= k < s2.len() && s2[k].id == x;
            if k < i {
                assert(s[k].id == x);
            } else {
                assert(s[k + 1].id == x);
            }
        }
        if holds_id(s, x) {
            let k = choose|k: int| 0 <= k < s.len() && s[k].id == x;
            assert(k != i);
            if k < i {
                assert(s2[k].id == x);
            } else {
                assert(s2[k - 1].id == x);
            }
        }
    }
    assert forall|x: u64| holds_id(s2, x) implies !(x == s[i].id) by {
        let k = choose|k: int| 0 <= k < s2.len() && s2[k].id == x;
        if k < i {
            assert(s[k].id == x);
        } else {
            assert(s[k + 1].id == x);
        }
    }
    assert forall|x: u64| x != s[i].id && holds_id(s, x) implies node_of(s2, x) == node_of(
        s,
        x,
    ) by {
        let k = index_of_id(s, x);
        assert(0 <= k < s.len() && s[k].id == x);
        assert(k != i);
        if k < i {
            assert(s2[k] == s[k]);
            lemma_node_at_index(s2, k);
        } else {
            assert(s2[k - 1] == s[k]);
            lemma_node_at_index(s2, k - 1);
        }
        lemma_node_at_index(s, k);
    }
}

impl FlowArena {
    /// The empty arena.
    pub fn new() -> (r: FlowArena)
        ensures
            r@.nodes == Seq::<NodeV>::empty(),
            r@.root is None,
            r@.next_id == 0,
            r@.wf(),
    {
        let r = FlowArena { nodes: Vec::new(), root: None, next_id: 0 };
        proof {
            assert(r@.nodes =~= Seq::<NodeV>::empty());
        }
        r
    }

    /// The storage index of `id`, if any.
    fn find_index(&self, id: u64) -> (r: Option<usize>)
        ensures
            match r {
                Some(i) => i < self.nodes@.len() && self@.nodes[i as int].id == id,
                None => !self@.holds(id),
            },
    {
        let n = self.nodes.len();
        let mut i: usize = 0;
        while i < n
            invariant
                n == self.nodes@.len(),
                i <= n,
                forall|j: int| 0 <= j < i ==> self@.nodes[j].id != id,
            decreases n - i,
        {
            if self.nodes[i].id == id {
                return Some(i);
            }
            i += 1;
        }
        None
    }

    /// Lookup by id; `NotFound` when the id is absent.
    pub fn get(&self, id: u64) -> (r: Result<&Node, FlowError>)
        requires
            ids_unique(self@.nodes),
        ensures
            match r {
                Ok(n) => self@.holds(id) && n@ == self@.node(id),
                Err(e) => !self@.holds(id) && e == FlowError::NotFound,
            },
    {
        match self.find_index(id) {
            Some(i) => {
                proof {
                    lemma_node_at_index(self@.nodes, i as int);
                }
                Ok(&self.nodes[i])
            },
            None => Err(FlowError::NotFound),
        }
    }

    /// Creates a new, detached node with a freshly produced default
    /// payload under a fresh identity, and returns that identity.
    pub fn grow(&mut self) -> (id: u64)
        requires
            old(self)@.wf(),
            old(self)@.next_id < u64::MAX,
        ensures
            final(self)@.wf(),
            id == old(self)@.next_id,
            !old(self)@.holds(id),
            final(self)@.next_id == id + 1,
            final(self)@.root == old(self)@.root,
            final(self)@.nodes.len() == old(self)@.nodes.len() + 1,
            final(self)@.nodes.drop_last() == old(self)@.nodes,
            final(self)@.holds(id),
            final(self)@.node(id).id == id,
            final(self)@.node(id).ancestor is None,
            final(self)@.node(id).descendants == Seq::<u64>::empty(),
            final(self)@.node(id).entity.id == id,
            final(self)@.node(id).entity.face@ == Seq::<char>::empty(),
            final(self)@.node(id).entity.bubble@ == Seq::<char>::empty(),
            final(self)@.node(id).entity.process == ProcessStatus::New,
            forall|x: u64| #[trigger]
                old(self)@.holds(x) ==> final(self)@.holds(x) && final(self)@.node(x) == old(
                    self,
                )@.node(x),
            forall|x: u64| #[trigger]
                final(self)@.holds(x) ==> old(self)@.holds(x) || x == id,
    {
        let id = self.next_id;
        let node = Node::sprout(id);
        let ghost s = self@.nodes;
        let ghost m = node@;
        self.nodes.push(node);
        self.next_id = self.next_id + 1;
        proof {
            assert(self@.nodes =~= s.push(m));
            assert(!holds_id(s, id));
            let s2 = s.push(m);
            assert(forall|k: int| 0 <= k < s.len() ==> s2[k] == s[k]);
            assert(s2.drop_last() =~= s);
            assert(ids_unique(s2));
            lemma_node_at_index(s2, s.len() as int);
            assert forall|x: u64| holds_id(s, x) implies holds_id(s2, x) && node_of(s2, x)
                == node_of(s, x) by {
                let k = index_of_id(s, x);
                assert(0 <= k < s.len() && s[k].id == x);
                assert(s2[k].id == x);
                lemma_node_at_index(s2, k);
                lemma_node_at_index(s, k);
            }
            assert forall|x: u64| holds_id(s2, x) implies holds_id(s, x) || x == id by {
                let k = choose|k: int| 0 <= k < s2.len() && s2[k].id == x;
                if k < s.len() {
                    assert(s[k].id == x);
                }
            }
            assert forall|i: int| 0 <= i < s2.len() implies #[trigger] node_links_ok(
                s2,
                s2[i],
            ) by {
                if i < s.len() {
                    let n = s[i];
                    assert(node_links_ok(s, n));
                    assert forall|j: int| 0 <= j < n.descendants.len() implies holds_id(
                        s2,
                        #[trigger] n.descendants[j],
                    ) && node_of(s2, n.descendants[j]).ancestor == Some(n.id) by {
                        assert(holds_id(s, n.descendants[j]));
                    }
                } else {
                    assert(s2[i] == m);
                }
            }
        }
        id
    }

    /// Designates `id` as the tree's root.  Rejected when the id is
    /// absent (`NotFound`), when a root is already designated
    /// (`RootTaken`), or when the node is attached under an ancestor
    /// (`AlreadyAttached`).
    pub fn tiptoe(&mut self, id: u64) -> (r: Result<(), FlowError>)
        requires
            old(self)@.wf(),
        ensures
            final(self)@.wf(),
            r is Ok <==> (old(self)@.holds(id) && old(self)@.root is None && old(self)@.node(
                id,
            ).ancestor is None),
            !old(self)@.holds(id) ==> r == Err::<(), FlowError>(FlowError::NotFound),
            old(self)@.holds(id) && old(self)@.root is Some ==> r == Err::<(), FlowError>(
                FlowError::RootTaken,
            ),
            old(self)@.holds(id) && old(self)@.root is None && old(self)@.node(id).ancestor is Some
                ==> r == Err::<(), FlowError>(FlowError::AlreadyAttached),
            r is Err ==> final(self)@ == old(self)@,
            r is Ok ==> final(self)@ == (FlowV { root: Some(id), ..old(self)@ }),
    {
        let i = match self.find_index(id) {
            Some(i) => i,
            None => {
                return Err(FlowError::NotFound);
            },
        };
        proof {
            lemma_node_at_index(self@.nodes, i as int);
        }
        if self.root.is_some() {
            return Err(FlowError::RootTaken);
        }
        if self.nodes[i].ancestor.is_some() {
            return Err(FlowError::AlreadyAttached);
        }
        self.root = Some(id);
        Ok(())
    }

    /// Attaches `new_comer` as the last descendant of `host`.
    /// Rejected when either id is absent (`NotFound`) or when
    /// `new_comer` already has an ancestor (`AlreadyAttached`); a
    /// failed call leaves the arena unchanged.
    pub fn chain(&mut self, new_comer: u64, host: u64) -> (r: Result<(), FlowError>)
        requires
            old(self)@.wf(),
        ensures
            final(self)@.wf(),
            r is Ok <==> old(self)@.chain_enabled(new_comer, host),
            !old(self)@.holds(new_comer) || !old(self)@.holds(host) ==> r == Err::<(), FlowError>(
                FlowError::NotFound,
            ),
            old(self)@.holds(new_comer) && old(self)@.holds(host) && old(self)@.node(
                new_comer,
            ).ancestor is Some ==> r == Err::<(), FlowError>(FlowError::AlreadyAttached),
            r is Err ==> final(self)@ == old(self)@,
            r is Ok ==> {
                &&& final(self)@.root == old(self)@.root
                &&& final(self)@.next_id == old(self)@.next_id
                &&& final(self)@.nodes.len() == old(self)@.nodes.len()
                &&& forall|x: u64| final(self)@.holds(x) <==> old(self)@.holds(x)
                &&& final(self)@.node(new_comer).ancestor == Some(host)
                &&& final(self)@.node(new_comer).id == new_comer
                &&& final(self)@.node(new_comer).entity == old(self)@.node(new_comer).entity
                &&& final(self)@.node(new_comer).descendants == if new_comer == host {
                    old(self)@.node(new_comer).descendants.push(new_comer)
                } else {
                    old(self)@.node(new_comer).descendants
                }
                &&& new_comer != host ==> final(self)@.node(host) == (NodeV {
                    descendants: old(self)@.node(host).descendants.push(new_comer),
                    ..old(self)@.node(host)
                })
                &&& forall|x: u64|
                    old(self)@.holds(x) && x != new_comer && x != host ==> final(self)@.node(x)
                        == old(self)@.node(x)
            },
    {
        let ni = match self.find_index(new_comer) {
            Some(i) => i,
            None => {
                return Err(FlowError::NotFound);
            },
        };
        let hi = match self.find_index(host) {
            Some(i) => i,
            None => {
                return Err(FlowError::NotFound);
            },
        };
        proof {
            lemma_node_at_index(self@.nodes, ni as int);
            lemma_node_at_index(self@.nodes, hi as int);
        }
        if self.nodes[ni].ancestor.is_some() {
            return Err(FlowError::AlreadyAttached);
        }
        let ghost s = self@.nodes;
        if ni == hi {
            let mut node = self.nodes[ni].duplicate();
            node.ancestor = Some(host);
            node.descendants.push(new_comer);
            let ghost m = node@;
            self.nodes.set(ni, node);
            proof {
                assert(self@.nodes =~= s.update(ni as int, m));
                lemma_update_preserves(s, ni as int, m);
                lemma_chain_links_same(s, ni as int, m, new_comer, host);
            }
        } else {
            let mut ncopy = self.nodes[ni].duplicate();
            ncopy.ancestor = Some(host);
            let ghost m1 = ncopy@;
            self.nodes.set(ni, ncopy);
            let ghost s2 = s.update(ni as int, m1);
            proof {
                assert(self@.nodes =~= s2);
                lemma_update_preserves(s, ni as int, m1);
            }
            let mut hcopy = self.nodes[hi].duplicate();
            hcopy.descendants.push(new_comer);
            let ghost m2 = hcopy@;
            self.nodes.set(hi, hcopy);
            proof {
                assert(self@.nodes =~= s2.update(hi as int, m2));
                lemma_update_preserves(s2, hi as int, m2);
                lemma_chain_links_two(s, ni as int, hi as int, m1, m2, new_comer, host);
            }
        }
        Ok(())
    }

    /// Removes `id` and severs it from its ancestor's descendant list.
    /// Rejected when the id is absent (`NotFound`) or when the node
    /// still lists descendants (`HasDescendants`); a failed call leaves
    /// the arena unchanged.  Erasing the root clears the root.
    pub fn erase(&mut self, id: u64) -> (r: Result<(), FlowError>)
        requires
            old(self)@.wf(),
        ensures
            final(self)@.wf(),
            r is Ok <==> old(self)@.erase_enabled(id),
            !old(self)@.holds(id) ==> r == Err::<(), FlowError>(FlowError::NotFound),
            old(self)@.holds(id) && old(self)@.node(id).descendants.len() > 0 ==> r == Err::<
                (),
                FlowError,
            >(FlowError::HasDescendants),
            r is Err ==> final(self)@ == old(self)@,
            r is Ok ==> {
                &&& !final(self)@.holds(id)
                &&& final(self)@.next_id == old(self)@.next_id
                &&& final(self)@.root == if old(self)@.root == Some(id) {
                    None::<u64>
                } else {
                    old(self)@.root
                }
                &&& forall|x: u64| x != id ==> (final(self)@.holds(x) <==> old(self)@.holds(x))
                &&& match old(self)@.node(id).ancestor {
                    Some(a) => final(self)@.node(a) == (NodeV {
                        descendants: old(self)@.node(a).descendants.remove_value(id),
                        ..old(self)@.node(a)
                    }) && forall|x: u64|
                        old(self)@.holds(x) && x != id && x != a ==> final(self)@.node(x) == old(
                            self,
                        )@.node(x),
                    None => forall|x: u64|
                        old(self)@.holds(x) && x != id ==> final(self)@.node(x) == old(
                            self,
                        )@.node(x),
                }
                &&& forall|y: u64| #[trigger]
                    final(self)@.holds(y) ==> !final(self)@.node(y).descendants.contains(id)
            },
    {
        let i = match self.find_index(id) {
            Some(i) => i,
            None => {
                return Err(FlowError::NotFound);
            },
        };
        proof {
            lemma_node_at_index(self@.nodes, i as int);
        }
        if self.nodes[i].descendants.len() > 0 {
            return Err(FlowError::HasDescendants);
        }
        let anc = self.nodes[i].ancestor;
        let ghost s = self@.nodes;
        self.nodes.remove(i);
        let ghost s2 = s.remove(i as int);
        proof {
            assert(self@.nodes =~= s2);
            lemma_remove_preserves(s, i as int);
        }
        match anc {
            Some(a) => {
                proof {
                    // the ancestor is a different node and survives
                    assert(node_links_ok(s, s[i as int]));
                    assert(holds_id(s, a) && node_of(s, a).descendants.contains(id));
                    if a == id {
                        assert(node_of(s, id).descendants.contains(id));
                    }
                    assert(a != id);
                }
                let j = match self.find_index(a) {
                    Some(j) => j,
                    None => {
                        proof {
                            assert(holds_id(s2, a));
                            assert(false);
                        }
                        0
                    },
                };
                proof {
                    lemma_node_at_index(s2, j as int);
                }
                let mut acopy = self.nodes[j].duplicate();
                let k = find_u64(&acopy.descendants, id);
                let ki = match k {
                    Some(k) => k,
                    None => {
                        proof {
                            assert(node_of(s2, a) == node_of(s, a));
                            assert(node_of(s, a).descendants.contains(id));
                            assert(false);
                        }
                        0
                    },
                };
                acopy.descendants.remove(ki);
                let ghost m = acopy@;
                self.nodes.set(j, acopy);
                proof {
                    assert(self@.nodes =~= s2.update(j as int, m));
                    lemma_update_preserves(s2, j as int, m);
                    node_of(s, a).descendants.index_of_first_ensures(id);
                    assert(node_links_ok(s, node_of(s, a)));
                    assert(node_of(s, a).descendants.index_of_first(id) == Some(ki as int)) by {
                        let f = node_of(s, a).descendants.index_of_first(id).unwrap();
                        assert(node_of(s, a).descendants[f] == id);
                        assert(node_of(s, a).descendants[ki as int] == id);
                        if f < ki as int {
                            assert(node_of(s, a).descendants[f] != node_of(
                                s,
                                a,
                            ).descendants[ki as int]);
                        } else if (ki as int) < f {
                            assert(node_of(s, a).descendants[ki as int] != node_of(
                                s,
                                a,
                            ).descendants[f]);
                        }
                    }
                    assert(m.descendants =~= node_of(s, a).descendants.remove_value(id));
                    lemma_erase_links(s, i as int, j as int, m, id, a);
                }
            },
            None => {
                proof {
                    lemma_erase_links_detached(s, i as int, id);
                }
            },
        }
        if self.root.is_some() {
            let r = self.root.unwrap();
            if r == id {
                self.root = None;
            }
        }
        Ok(())
    }
}

/// No double parent: once `x` stands attached under an ancestor, a
/// further `chain` of `x` is no longer enabled, so by `chain`'s
/// contract the call is refused with `AlreadyAttached` and leaves the
/// arena unchanged.
pub proof fn lemma_no_double_parent(post: FlowV, x: u64, h1: u64, h2: u64)
    requires
        post.holds(x),
        post.node(x).ancestor == Some(h1),
    ensures
        !post.chain_enabled(x, h2),
{
}

/// The position of `id` in a plain id list, if any.
fn find_u64(v: &Vec<u64>, id: u64) -> (r: Option<usize>)
    ensures
        match r {
            Some(i) => i < v@.len() && v@[i as int] == id,
            None => !v@.contains(id),
        },
{
    let n = v.len();
    let mut i: usize = 0;
    while i < n
        invariant
            n == v@.len(),
            i <= n,
            forall|j: int| 0 <= j < i ==> v@[j] != id,
        decreases n - i,
    {
        if v[i] == id {
            return Some(i);
        }
        i += 1;
    }
    proof {
        if v@.contains(id) {
            let j = choose|j: int| 0 <= j < v@.len() && v@[j] == id;
        }
    }
    None
}

/// Link consistency survives chaining a node under itself.
proof fn lemma_chain_links_same(s: Seq<NodeV>, i: int, m: NodeV, new_comer: u64, host: u64)
    requires
        ids_unique(s),
        links_consistent(s),
        0 <= i < s.len(),
        new_comer == host,
        s[i].id == new_comer,
        s[i].ancestor is None,
        m == (NodeV { ancestor: Some(host), descendants: s[i].descendants.push(new_comer), ..s[i]
        }),
    ensures
        links_consistent(s.update(i, m)),
{
    let s2 = s.update(i, m);
    lemma_update_preserves(s, i, m);
    assert forall|k: int| 0 <= k < s2.len() implies #[trigger] node_links_ok(s2, s2[k]) by {
        lemma_node_at_index(s, k);
        let n = s[k];
        assert(node_links_ok(s, n));
        if k == i {
            // the rewritten node: its ancestor is itself, listed in its
            // own pushed descendant list
            assert(s2[k] == m);
            assert(m.descendants.last() == new_comer);
            assert(node_of(s2, host) == m);
            assert(m.descendants.contains(new_comer));
            assert forall|j: int| 0 <= j < m.descendants.len() implies holds_id(
                s2,
                #[trigger] m.descendants[j],
            ) && node_of(s2, m.descendants[j]).ancestor == Some(m.id) by {
                let d = m.descendants[j];
                if j < m.descendants.len() - 1 {
                    assert(d == n.descendants[j]);
                    assert(holds_id(s, d) && node_of(s, d).ancestor == Some(n.id));
                    if d == new_comer {
                        // then its ancestor was already this node
                        assert(node_of(s2, d) == m);
                    } else {
                        assert(node_of(s2, d) == node_of(s, d));
                    }
                } else {
                    assert(d == new_comer);
                    assert(node_of(s2, d) == m);
                }
            }
            assert forall|j: int, l: int| 0 <= j < l < m.descendants.len() implies m.descendants[j]
                != m.descendants[l] by {
                if l == m.descendants.len() - 1 {
                    // new_comer was detached, so it was in nobody's list
                    if m.descendants[j] == new_comer {
                        assert(node_of(s, new_comer).ancestor == Some(n.id));
                    }
                } else {
                    assert(n.descendants[j] != n.descendants[l]);
                }
            }
        } else {
            assert(s2[k] == n);
            match n.ancestor {
                Some(a) => {
                    assert(holds_id(s2, a));
                    if a == m.id {
                        assert(node_of(s2, a) == m);
                        assert(node_of(s, a).descendants.contains(n.id));
                        let p = choose|p: int|
                            0 <= p < node_of(s, a).descendants.len() && node_of(
                                s,
                                a,
                            ).descendants[p] == n.id;
                        assert(m.descendants[p] == n.id);
                    } else {
                        assert(node_of(s2, a) == node_of(s, a));
                    }
                },
                None => {},
            }
            assert forall|j: int| 0 <= j < n.descendants.len() implies holds_id(
                s2,
                #[trigger] n.descendants[j],
            ) && node_of(s2, n.descendants[j]).ancestor == Some(n.id) by {
                let d = n.descendants[j];
                assert(holds_id(s, d) && node_of(s, d).ancestor == Some(n.id));
                if d == new_comer {
                    // new_comer's old ancestor was None, never Some
                    assert(false);
                } else {
                    assert(node_of(s2, d) == node_of(s, d));
                }
            }
        }
    }
}

/// Link consistency survives attaching a detached node under a distinct
/// host.
proof fn lemma_chain_links_two(
    s: Seq<NodeV>,
    i: int,
    j: int,
    m1: NodeV,
    m2: NodeV,
    new_comer: u64,
    host: u64,
)
    requires
        ids_unique(s),
        links_consistent(s),
        0 <= i < s.len(),
        0 <= j < s.len(),
        i != j,
        new_comer != host,
        s[i].id == new_comer,
        s[j].id == host,
        s[i].ancestor is None,
        m1 == (NodeV { ancestor: Some(host), ..s[i] }),
        m2 == (NodeV { descendants: s[j].descendants.push(new_comer), ..s[j] }),
    ensures
        links_consistent(s.update(i, m1).update(j, m2)),
{
    let s2 = s.update(i, m1);
    let s3 = s2.update(j, m2);
    lemma_update_preserves(s, i, m1);
    assert(s2[j] == s[j]);
    lemma_update_preserves(s2, j, m2);
    // lookups in s3, relative to s
    assert(node_of(s3, new_comer) == m1);
    assert(node_of(s3, host) == m2);
    assert forall|x: u64| holds_id(s, x) && x != new_comer && x != host implies node_of(s3, x)
        == node_of(s, x) by {
        assert(node_of(s2, x) == node_of(s, x));
    }
    assert forall|k: int| 0 <= k < s3.len() implies #[trigger] node_links_ok(s3, s3[k]) by {
        lemma_node_at_index(s, k);
        let n = s[k];
        assert(node_links_ok(s, n));
        // descendant ids keep their ancestors, except the new comer
        if k == i {
            assert(s3[k] == m1);
            assert(m2.descendants.last() == new_comer);
            assert(m2.descendants.contains(new_comer));
            assert forall|l: int| 0 <= l < m1.descendants.len() implies holds_id(
                s3,
                #[trigger] m1.descendants[l],
            ) && node_of(s3, m1.descendants[l]).ancestor == Some(m1.id) by {
                let d = n.descendants[l];
                assert(holds_id(s, d) && node_of(s, d).ancestor == Some(n.id));
                if d == new_comer {
                    assert(false);
                } else if d == host {
                    assert(node_of(s3, host) == m2);
                    assert(m2.ancestor == s[j].ancestor);
                } else {
                    assert(node_of(s3, d) == node_of(s, d));
                }
            }
        } else if k == j {
            assert(s3[k] == m2);
            match m2.ancestor {
                Some(a) => {
                    assert(node_of(s, a).descendants.contains(host));
                    assert(holds_id(s3, a));
                    if a == new_comer {
                        assert(node_of(s3, a) == m1);
                        assert(m1.descendants == s[i].descendants);
                    } else if a == host {
                        let p = choose|p: int|
                            0 <= p < node_of(s, a).descendants.len() && node_of(
                                s,
                                a,
                            ).descendants[p] == host;
                        assert(m2.descendants[p] == host);
                    } else {
                        assert(node_of(s3, a) == node_of(s, a));
                    }
                },
                None => {},
            }
            assert forall|l: int| 0 <= l < m2.descendants.len() implies holds_id(
                s3,
                #[trigger] m2.descendants[l],
            ) && node_of(s3, m2.descendants[l]).ancestor == Some(m2.id) by {
                if l < m2.descendants.len() - 1 {
                    let d = n.descendants[l];
                    assert(holds_id(s, d) && node_of(s, d).ancestor == Some(n.id));
                    if d == new_comer {
                        assert(false);
                    } else if d == host {
                        assert(node_of(s3, host) == m2);
                    } else {
                        assert(node_of(s3, d) == node_of(s, d));
                    }
                } else {
                    assert(m2.descendants[l] == new_comer);
                    assert(node_of(s3, new_comer) == m1);
                }
            }
            assert forall|l: int, p: int| 0 <= l < p < m2.descendants.len() implies
                m2.descendants[l] != m2.descendants[p] by {
                if p == m2.descendants.len() - 1 {
                    if m2.descendants[l] == new_comer {
                        assert(node_of(s, new_comer).ancestor == Some(n.id));
                    }
                } else {
                    assert(n.descendants[l] != n.descendants[p]);
                }
            }
        } else {
            assert(s3[k] == n);
            match n.ancestor {
                Some(a) => {
                    assert(holds_id(s3, a));
                    assert(node_of(s, a).descendants.contains(n.id));
                    if a == new_comer {
                        assert(node_of(s3, a) == m1);
                        assert(m1.descendants == s[i].descendants);
                    } else if a == host {
                        let p = choose|p: int|
                            0 <= p < node_of(s, a).descendants.len() && node_of(
                                s,
                                a,
                            ).descendants[p] == n.id;
                        assert(m2.descendants[p] == n.id);
                    } else {
                        assert(node_of(s3, a) == node_of(s, a));
                    }
                },
                None => {},
            }
            assert forall|l: int| 0 <= l < n.descendants.len() implies holds_id(
                s3,
                #[trigger] n.descendants[l],
            ) && node_of(s3, n.descendants[l]).ancestor == Some(n.id) by {
                let d = n.descendants[l];
                assert(holds_id(s, d) && node_of(s, d).ancestor == Some(n.id));
                if d == new_comer {
                    assert(false);
                } else if d == host {
                    assert(node_of(s3, host) == m2);
                } else {
                    assert(node_of(s3, d) == node_of(s, d));
                }
            }
        }
    }
}

/// Link consistency survives erasing a childless node attached under
/// ancestor `a`, once `id` is struck from `a`'s descendant list.
#[verifier::rlimit(60)]
proof fn lemma_erase_links(s: Seq<NodeV>, i: int, j: int, m: NodeV, id: u64, a: u64)
    requires
        ids_unique(s),
        links_consistent(s),
        0 <= i < s.len(),
        s[i].id == id,
        s[i].descendants.len() == 0,
        s[i].ancestor == Some(a),
        a != id,
        0 <= j < s.remove(i).len(),
        s.remove(i)[j] == node_of(s, a),
        m == (NodeV { descendants: node_of(s, a).descendants.remove_value(id), ..node_of(s, a) }),
    ensures
        links_consistent(s.remove(i).update(j, m)),
        forall|y: u64| #[trigger]
            holds_id(s.remove(i).update(j, m), y) ==> !node_of(
                s.remove(i).update(j, m),
                y,
            ).descendants.contains(id),
{
    let s2 = s.remove(i);
    let s3 = s2.update(j, m);
    lemma_remove_preserves(s, i);
    assert(node_links_ok(s, s[i]));
    assert(holds_id(s, a) && node_of(s, a).descendants.contains(s[i].id));
    let w = index_of_id(s, a);
    lemma_node_at_index(s, w);
    assert(node_of(s, a).id == a);
    assert(s2[j].id == a);
    lemma_update_preserves(s2, j, m);
    let olda = node_of(s, a);
    olda.descendants.index_of_first_ensures(id);
    assert(node_links_ok(s, olda));
    assert(olda.descendants.contains(id));
    let f = olda.descendants.index_of_first(id).unwrap();
    // striking the only occurrence: every survivor differs from id
    assert forall|l: int| 0 <= l < m.descendants.len() implies m.descendants[l] != id && holds_id(
        s,
        m.descendants[l],
    ) && m.descendants[l] != id && node_of(s, m.descendants[l]).ancestor == Some(a) by {
        let pre = if l < f {
            l
        } else {
            l + 1
        };
        assert(m.descendants[l] == olda.descendants[pre]);
        if olda.descendants[pre] == id {
            if pre < f {
                assert(false);
            } else {
                assert(olda.descendants[f] != olda.descendants[pre]);
            }
        }
    }
    assert forall|k: int| 0 <= k < s3.len() implies #[trigger] node_links_ok(s3, s3[k]) by {
        let n = s3[k];
        if k == j {
            assert(n == m);
            match m.ancestor {
                Some(b) => {
                    assert(olda.ancestor == Some(b));
                    assert(holds_id(s, b) && node_of(s, b).descendants.contains(a));
                    assert(b != id) by {
                        if b == id {
                            assert(node_of(s, id) == s[i]);
                            assert(s[i].descendants.contains(a));
                        }
                    }
                    assert(holds_id(s3, b));
                    if b == a {
                        assert(node_of(s3, b) == m);
                        let p = choose|p: int|
                            0 <= p < olda.descendants.len() && olda.descendants[p] == a;
                        assert(olda.descendants[p] == a);
                        assert(a != id);
                        let q = if p < f {
                            p
                        } else {
                            p - 1
                        };
                        assert(p != f);
                        assert(m.descendants[q] == a);
                        assert(m.descendants.contains(a));
                    } else {
                        assert(node_of(s3, b) == node_of(s, b));
                    }
                },
                None => {},
            }
            assert forall|l: int| 0 <= l < m.descendants.len() implies holds_id(
                s3,
                #[trigger] m.descendants[l],
            ) && node_of(s3, m.descendants[l]).ancestor == Some(m.id) by {
                let d = m.descendants[l];
                assert(d != id && holds_id(s, d) && node_of(s, d).ancestor == Some(a));
                if d == a {
                    assert(node_of(s3, a) == m);
                } else {
                    assert(node_of(s3, d) == node_of(s, d));
                }
            }
            assert forall|l: int, p: int| 0 <= l < p < m.descendants.len() implies m.descendants[l]
                != m.descendants[p] by {
                let l2 = if l < f {
                    l
                } else {
                    l + 1
                };
                let p2 = if p < f {
                    p
                } else {
                    p + 1
                };
                assert(m.descendants[l] == olda.descendants[l2]);
                assert(m.descendants[p] == olda.descendants[p2]);
                assert(olda.descendants[l2] != olda.descendants[p2]);
            }
        } else {
            // an untouched survivor
            let pre = if k < i {
                k
            } else {
                k + 1
            };
            assert(s2[k] == s[pre]);
            assert(n == s[pre]);
            lemma_node_at_index(s, pre);
            assert(node_links_ok(s, n));
            assert(n.id != id);
            match n.ancestor {
                Some(b) => {
                    assert(holds_id(s, b) && node_of(s, b).descendants.contains(n.id));
                    assert(b != id) by {
                        if b == id {
                            assert(node_of(s, id) == s[i]);
                            assert(s[i].descendants.contains(n.id));
                        }
                    }
                    assert(holds_id(s3, b));
                    if b == a {
                        assert(node_of(s3, b) == m);
                        let p = choose|p: int|
                            0 <= p < olda.descendants.len() && olda.descendants[p] == n.id;
                        let q = if p < f {
                            p
                        } else {
                            p - 1
                        };
                        assert(p != f);
                        assert(m.descendants[q] == n.id);
                        assert(m.descendants.contains(n.id));
                    } else {
                        assert(node_of(s3, b) == node_of(s, b));
                    }
                },
                None => {},
            }
            assert forall|l: int| 0 <= l < n.descendants.len() implies holds_id(
                s3,
                #[trigger] n.descendants[l],
            ) && node_of(s3, n.descendants[l]).ancestor == Some(n.id) by {
                let d = n.descendants[l];
                assert(holds_id(s, d) && node_of(s, d).ancestor == Some(n.id));
                assert(d != id) by {
                    if d == id {
                        assert(node_of(s, id) == s[i]);
                        assert(s[i].ancestor == Some(n.id));
                        assert(s[i].ancestor == Some(a));
                        assert(n.id == a);
                        assert(n == olda);
                        assert(k == j) by {
                            lemma_node_at_index(s2, k);
                            assert(s2[k].id == a);
                            assert(s2[j].id == a);
                        }
                    }
                }
                if d == a {
                    assert(node_of(s3, a) == m);
                } else {
                    assert(node_of(s3, d) == node_of(s, d));
                }
            }
        }
    }
    assert forall|y: u64| #[trigger] holds_id(s3, y) implies !node_of(
        s3,
        y,
    ).descendants.contains(id) by {
        assert(y != id);
        if node_of(s3, y).descendants.contains(id) {
            let l = choose|l: int|
                0 <= l < node_of(s3, y).descendants.len() && node_of(s3, y).descendants[l] == id;
            if y == a {
                assert(node_of(s3, a) == m);
                assert(m.descendants[l] != id);
            } else {
                assert(node_of(s3, y) == node_of(s, y));
                assert(node_of(s, y).descendants[l] == id);
                assert(node_links_ok(s, node_of(s, y))) by {
                    let w = index_of_id(s, y);
                    lemma_node_at_index(s, w);
                }
                assert(node_of(s, id).ancestor == Some(y));
                assert(node_of(s, id) == s[i]);
                assert(y == a);
            }
        }
    }
}

/// Link consistency survives erasing a childless, detached node.
proof fn lemma_erase_links_detached(s: Seq<NodeV>, i: int, id: u64)
    requires
        ids_unique(s),
        links_consistent(s),
        0 <= i < s.len(),
        s[i].id == id,
        s[i].descendants.len() == 0,
        s[i].ancestor is None,
    ensures
        links_consistent(s.remove(i)),
        forall|y: u64| #[trigger]
            holds_id(s.remove(i), y) ==> !node_of(s.remove(i), y).descendants.contains(id),
{
    let s2 = s.remove(i);
    lemma_remove_preserves(s, i);
    assert forall|y: u64| #[trigger] holds_id(s2, y) implies !node_of(
        s2,
        y,
    ).descendants.contains(id) && node_links_ok(s2, node_of(s2, y)) by {
        assert(y != id);
        assert(node_of(s2, y) == node_of(s, y));
        let n = node_of(s, y);
        assert(node_links_ok(s, n)) by {
            let w = index_of_id(s, y);
            lemma_node_at_index(s, w);
        }
        if n.descendants.contains(id) {
            let l = choose|l: int| 0 <= l < n.descendants.len() && n.descendants[l] == id;
            assert(node_of(s, id).ancestor == Some(y));
            assert(node_of(s, id) == s[i]);
        }
        match n.ancestor {
            Some(b) => {
                assert(holds_id(s, b) && node_of(s, b).descendants.contains(n.id));
                assert(b != id) by {
                    if b == id {
                        assert(node_of(s, id) == s[i]);
                        assert(s[i].descendants.contains(n.id));
                    }
                }
                assert(node_of(s2, b) == node_of(s, b));
            },
            None => {},
        }
        assert forall|l: int| 0 <= l < n.descendants.len() implies holds_id(
            s2,
            #[trigger] n.descendants[l],
        ) && node_of(s2, n.descendants[l]).ancestor == Some(n.id) by {
            let d = n.descendants[l];
            assert(holds_id(s, d) && node_of(s, d).ancestor == Some(n.id));
            assert(d != id);
            assert(node_of(s2, d) == node_of(s, d));
        }
    }
    assert forall|k: int| 0 <= k < s2.len() implies #[trigger] node_links_ok(s2, s2[k]) by {
        lemma_node_at_index(s2, k);
        assert(holds_id(s2, s2[k].id));
    }
}

} // verus!
