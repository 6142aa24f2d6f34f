//! The document-level store: a named, lockable collection of entries
//! keyed by identity, with a linear relation recording the visible
//! order.  `grow`, `tiptoe`, `chain` and `erase` mirror the arena's
//! structural-mutation contract over this flat relation.

use crate::entity::{Entity, ProcessStatus};
use crate::graph::find_u64;
use crate::time::unix_millis;
use vstd::prelude::*;

verus! {

/// Whether some entry of `s` is stored under `id`.
pub open spec fn entry_held(s: Seq<Entity>, id: u64) -> bool {
    exists|i: int| 0 <= i < s.len() && s[i].id == id
}

/// The index of the entry stored under `id`; meaningful only when the
/// ids of `s` are unique and `entry_held(s, id)`.
pub open spec fn entry_index(s: Seq<Entity>, id: u64) -> int {
    choose|i: int| 0 <= i < s.len() && s[i].id == id
}

/// The entry stored under `id`.
pub open spec fn entry_of(s: Seq<Entity>, id: u64) -> Entity {
    s[entry_index(s, id)]
}

/// No id keys two distinct entries.
pub open spec fn entry_ids_unique(s: Seq<Entity>) -> bool {
    forall|i: int, j: int| 0 <= i < j < s.len() ==> s[i].id != s[j].id
}

/// With unique ids, the entry at a known index is the one its id keys.
proof fn lemma_entry_at(s: Seq<Entity>, i: int)
    requires
        entry_ids_unique(s),
        0 <= i < s.len(),
    ensures
        entry_held(s, s[i].id),
        entry_index(s, s[i].id) == i,
        entry_of(s, s[i].id) == s[i],
{
    assert(entry_held(s, s[i].id));
    let j = entry_index(s, s[i].id);
    assert(0 <= j < s.len() && s[j].id == s[i].id);
    if i < j {
        assert(s[i].id != s[j].id);
    } else if j < i {
        assert(s[j].id != s[i].id);
    }
}

/// The linear relation: the entry ids in their user-visible order.
#[derive(Clone, Debug)]
pub struct LinearModel {
    pub order: Vec<u64>,
}

/// What `LinearModel::add` leaves in the order: an id already present
/// is left alone; otherwise it enters right after its host's first
/// occurrence, or at the end when no host is given or found.
pub open spec fn spec_add(s: Seq<u64>, id: u64, host: Option<u64>) -> Seq<u64> {
    if s.contains(id) {
        s
    } else {
        match host {
            Some(h) => match s.index_of_first(h) {
                Some(k) => s.insert(k + 1, id),
                None => s.push(id),
            },
            None => s.push(id),
        }
    }
}

impl LinearModel {
    pub fn new() -> (r: LinearModel)
        ensures
            r.order@ == Seq::<u64>::empty(),
    {
        let r = LinearModel { order: Vec::new() };
        proof {
            assert(r.order@ =~= Seq::<u64>::empty());
        }
        r
    }

    /// Records `id` under `host`, as `spec_add` says.
    pub fn add(&mut self, id: u64, host: Option<u64>)
        ensures
            final(self).order@ == spec_add(old(self).order@, id, host),
    {
        if find_u64(&self.order, id).is_some() {
            proof {
                old(self).order@.index_of_first_ensures(id);
            }
            return ;
        }
        proof {
            old(self).order@.index_of_first_ensures(id);
        }
        match host {
            Some(h) => {
                match find_u64(&self.order, h) {
                    Some(k) => {
                        let n = self.order.len();
                        proof {
                            old(self).order@.index_of_first_ensures(h);
                            assert(k < n);
                        }
                        self.order.insert(k + 1, id);
                    },
                    None => {
                        self.order.push(id);
                    },
                }
            },
            None => {
                self.order.push(id);
            },
        }
    }

    /// Strikes the first occurrence of `id` from the order, if any.
    pub fn del(&mut self, id: u64)
        ensures
            final(self).order@ == old(self).order@.remove_value(id),
    {
        match find_u64(&self.order, id) {
            Some(k) => {
                proof {
                    old(self).order@.index_of_first_ensures(id);
                }
                self.order.remove(k);
            },
            None => {
                proof {
                    old(self).order@.index_of_first_ensures(id);
                }
            },
        }
    }
}

/// The document store.  `next_entry` is the source of fresh entry
/// identities; the store's own id is seeded from the wall clock at
/// creation.
#[derive(Debug)]
pub struct Cube {
    pub name: String,
    pub id: u64,
    pub locked: bool,
    pub entries: Vec<Entity>,
    pub relation: LinearModel,
    pub next_entry: u64,
}

impl Cube {
    /// Entry ids are unique and below the identity counter.
    pub open spec fn wf(self) -> bool {
        &&& entry_ids_unique(self.entries@)
        &&& forall|i: int|
            0 <= i < self.entries@.len() ==> (#[trigger] self.entries@[i].id) < self.next_entry
    }

    /// A fresh, empty, unlocked store under a clock-seeded id.
    pub fn new() -> (r: Cube)
        ensures
            r.name@ == Seq::<char>::empty(),
            !r.locked,
            r.entries@ == Seq::<Entity>::empty(),
            r.relation.order@ == Seq::<u64>::empty(),
            r.next_entry == 0,
            r.wf(),
    {
        let stamp = unix_millis();
        let r = Cube {
            name: String::new(),
            id: stamp,
            locked: false,
            entries: Vec::new(),
            relation: LinearModel::new(),
            next_entry: 0,
        };
        proof {
            assert(r.entries@ =~= Seq::<Entity>::empty());
        }
        r
    }

    pub fn id(&self) -> (r: u64)
        ensures
            r == self.id,
    {
        self.id
    }

    /// Whether the store holds no entries.
    pub fn empty(&self) -> (r: bool)
        ensures
            r == (self.entries@.len() == 0),
    {
        self.entries.len() == 0
    }

    /// The storage index of the entry under `id`, if any.
    fn find_entry(&self, id: u64) -> (r: Option<usize>)
        ensures
            match r {
                Some(i) => i < self.entries@.len() && self.entries@[i as int].id == id,
                None => !entry_held(self.entries@, id),
            },
    {
        let n = self.entries.len();
        let mut i: usize = 0;
        while i < n
            invariant
                n == self.entries@.len(),
                i <= n,
                forall|j: int| 0 <= j < i ==> self.entries@[j].id != id,
            decreases n - i,
        {
            if self.entries[i].id == id {
                return Some(i);
            }
            i += 1;
        }
        None
    }

    /// The entry stored under `id`; absence is a broken caller
    /// obligation, so it is ruled out up front.
    pub fn get(&self, id: u64) -> (r: &Entity)
        requires
            self.wf(),
            entry_held(self.entries@, id),
        ensures
            *r == entry_of(self.entries@, id),
    {
        match self.find_entry(id) {
            Some(i) => {
                proof {
                    lemma_entry_at(self.entries@, i as int);
                }
                &self.entries[i]
            },
            None => {
                proof {
                    assert(false);
                }
                &self.entries[0]
            },
        }
    }

    /// Mutable access to the entry stored under `id`; the store
    /// afterwards holds whatever the caller wrote through it.
    pub fn get_mut(&mut self, id: u64) -> (r: &mut Entity)
        requires
            old(self).wf(),
            entry_held(old(self).entries@, id),
        ensures
            *r == entry_of(old(self).entries@, id),
            final(self).entries@ == old(self).entries@.update(
                entry_index(old(self).entries@, id),
                *final(r),
            ),
            final(self).name == old(self).name,
            final(self).id == old(self).id,
            final(self).locked == old(self).locked,
            final(self).relation == old(self).relation,
            final(self).next_entry == old(self).next_entry,
    {
        let i = match self.find_entry(id) {
            Some(i) => i,
            None => {
                proof {
                    assert(false);
                }
                0
            },
        };
        proof {
            lemma_entry_at(self.entries@, i as int);
        }
        &mut self.entries[i]
    }

    /// Creates a fresh entry under a fresh identity and returns that
    /// identity; the entry is not yet related to any other.
    pub fn grow(&mut self) -> (id: u64)
        requires
            old(self).wf(),
            old(self).next_entry < u64::MAX,
        ensures
            final(self).wf(),
            id == old(self).next_entry,
            !entry_held(old(self).entries@, id),
            final(self).entries@.len() == old(self).entries@.len() + 1,
            final(self).entries@.drop_last() == old(self).entries@,
            final(self).entries@.last().id == id,
            final(self).entries@.last().face@ == Seq::<char>::empty(),
            final(self).entries@.last().bubble@ == Seq::<char>::empty(),
            final(self).entries@.last().process == ProcessStatus::New,
            final(self).next_entry == id + 1,
            final(self).name == old(self).name,
            final(self).id == old(self).id,
            final(self).locked == old(self).locked,
            final(self).relation == old(self).relation,
    {
        let id = self.next_entry;
        let entry = Entity::with_id(id);
        let ghost s = self.entries@;
        self.entries.push(entry);
        self.next_entry = self.next_entry + 1;
        proof {
            assert(self.entries@.drop_last() =~= s);
            assert forall|p: int, q: int|
                0 <= p < q < self.entries@.len() implies self.entries@[p].id
                != self.entries@[q].id by {
                if q == self.entries@.len() - 1 {
                    assert(self.entries@[p].id < id);
                }
            }
        }
        id
    }

    /// Records `id` as a relation root: it enters the linear order at
    /// the end, unrelated to a host.
    pub fn tiptoe(&mut self, id: u64)
        ensures
            final(self).relation.order@ == spec_add(old(self).relation.order@, id, None),
            final(self).entries@ == old(self).entries@,
            final(self).name == old(self).name,
            final(self).id == old(self).id,
            final(self).locked == old(self).locked,
            final(self).next_entry == old(self).next_entry,
    {
        self.relation.add(id, None);
    }

    /// Relates `new_comer` to `host`: it enters the linear order right
    /// after its host's first occurrence.
    pub fn chain(&mut self, new_comer: u64, host: u64)
        ensures
            final(self).relation.order@ == spec_add(
                old(self).relation.order@,
                new_comer,
                Some(host),
            ),
            final(self).entries@ == old(self).entries@,
            final(self).name == old(self).name,
            final(self).id == old(self).id,
            final(self).locked == old(self).locked,
            final(self).next_entry == old(self).next_entry,
    {
        self.relation.add(new_comer, Some(host));
    }

    /// Removes the entry under `id`, if any, and strikes `id` from the
    /// linear order; an absent id leaves the store unchanged.
    pub fn erase(&mut self, id: u64)
        requires
            old(self).wf(),
        ensures
            final(self).wf(),
            !entry_held(final(self).entries@, id),
            entry_held(old(self).entries@, id) ==> final(self).entries@ == old(
                self,
            ).entries@.remove(entry_index(old(self).entries@, id)) && final(self).relation.order@
                == old(self).relation.order@.remove_value(id),
            !entry_held(old(self).entries@, id) ==> final(self).entries@ == old(self).entries@
                && final(self).relation == old(self).relation,
            forall|x: u64|
                x != id && entry_held(old(self).entries@, x) ==> entry_held(
                    final(self).entries@,
                    x,
                ),
            final(self).name == old(self).name,
            final(self).id == old(self).id,
            final(self).locked == old(self).locked,
            final(self).next_entry == old(self).next_entry,
    {
        let i = match self.find_entry(id) {
            Some(i) => i,
            None => {
                return ;
            },
        };
        proof {
            lemma_entry_at(self.entries@, i as int);
        }
        let ghost s = self.entries@;
        self.entries.remove(i);
        self.relation.del(id);
        proof {
            let s2 = s.remove(i as int);
            assert(self.entries@ =~= s2);
            assert(forall|k: int|
                0 <= k < s2.len() ==> s2[k] == (if k < i as int {
                    s[k]
                } else {
                    s[k + 1]
                }));
            assert forall|p: int, q: int| 0 <= p < q < s2.len() implies s2[p].id != s2[q].id by {
                let p2 = if p < i as int {
                    p
                } else {
                    p + 1
                };
                let q2 = if q < i as int {
                    q
                } else {
                    q + 1
                };
                assert(s[p2].id != s[q2].id);
            }
            assert forall|x: u64| entry_held(s2, x) implies x != id by {
                let k = choose|k: int| 0 <= k < s2.len() && s2[k].id == x;
                if k < i as int {
                    assert(s[k].id == x);
                } else {
                    assert(s[k + 1].id == x);
                }
                if x == id {
                    assert(false);
                }
            }
            assert forall|x: u64| x != id && entry_held(s, x) implies entry_held(s2, x) by {
                let k = choose|k: int| 0 <= k < s.len() && s[k].id == x;
                assert(k != i as int);
                if k < i as int {
                    assert(s2[k].id == x);
                } else {
                    assert(s2[k - 1].id == x);
                }
            }
        }
    }
}

} // verus!
