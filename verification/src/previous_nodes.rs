//! The slots that a task created in earlier executions, so that the next
//! execution finds them again by key or by type and order.

use std::collections::HashMap;
use vstd::prelude::*;

verus! {

broadcast use vstd::std_specs::hash::group_hash_axioms;

/// A handle for a key under which a task creates a slot. Equal keys have equal
/// handles.
pub type KeyId = u64;

/// A handle for the type of a value that a task puts into a slot.
pub type TypeKey = u64;

/// The slots that were created for one type, in the order of their creation, and
/// how many of them the running execution has used.
pub struct TypeNodes {
    pub next: usize,
    pub slots: Vec<usize>,
}

/// The slots of a task by key and by type.
pub struct PreviousNodesMap {
    pub by_key: HashMap<KeyId, usize>,
    pub by_type: HashMap<TypeKey, TypeNodes>,
}

/// The mathematical value of a `TypeNodes`.
#[verifier::ext_equal]
pub struct TypeModel {
    pub next: usize,
    pub slots: Seq<usize>,
}

/// The mathematical value of a `PreviousNodesMap`.
#[verifier::ext_equal]
pub struct PreviousModel {
    pub by_key: Map<KeyId, usize>,
    pub by_type: Map<TypeKey, TypeModel>,
}

impl View for TypeNodes {
    type V = TypeModel;

    open spec fn view(&self) -> TypeModel {
        TypeModel { next: self.next, slots: self.slots@ }
    }
}

impl View for PreviousNodesMap {
    type V = PreviousModel;

    open spec fn view(&self) -> PreviousModel {
        PreviousModel {
            by_key: self.by_key@,
            by_type: self.by_type@.map_values(|nodes: TypeNodes| nodes@),
        }
    }
}

impl PreviousModel {
    /// No slot was created yet.
    pub open spec fn empty() -> PreviousModel {
        PreviousModel { by_key: Map::empty(), by_type: Map::empty() }
    }

    /// The same slots, with none of them used yet by the running execution.
    pub open spec fn rewound(self) -> PreviousModel {
        PreviousModel {
            by_type: self.by_type.map_values(|nodes: TypeModel| TypeModel { next: 0, ..nodes }),
            ..self
        }
    }

    /// What is known of a type; nothing was created for a type that is not listed.
    pub open spec fn nodes_of(self, ty: TypeKey) -> TypeModel {
        if self.by_type.contains_key(ty) {
            self.by_type[ty]
        } else {
            TypeModel { next: 0, slots: Seq::empty() }
        }
    }

    /// Every slot index that is recorded lies below `slots`.
    pub open spec fn within(self, slots: nat) -> bool {
        &&& forall|key: KeyId| #[trigger]
            self.by_key.contains_key(key) ==> self.by_key[key] < slots
        &&& forall|ty: TypeKey, i: int| #![trigger self.by_type[ty].slots[i]]
            self.by_type.contains_key(ty) && 0 <= i < self.by_type[ty].slots.len()
                ==> self.by_type[ty].slots[i] < slots
    }
}

impl PreviousNodesMap {
    /// A map in which nothing was created yet.
    pub fn new() -> (map: PreviousNodesMap)
        ensures
            map@ == PreviousModel::empty(),
    {
        let map = PreviousNodesMap { by_key: HashMap::new(), by_type: HashMap::new() };
        assert(map@.by_key =~= Map::empty());
        assert(map@.by_type =~= Map::empty());
        map
    }

    /// Forgets how many slots of each type were used, and keeps the slots.
    pub fn rewind(&mut self)
        ensures
            final(self)@ == old(self)@.rewound(),
    {
        let ghost before = self.by_type@;
        let mut types: Vec<TypeKey> = Vec::new();
        for ty in it: self.by_type.keys()
            invariant
                it.seq().unref().to_set() == before.dom(),
                forall|x: TypeKey| #[trigger]
                    before.contains_key(x) ==> types@.contains(x) || exists|k: int|
                        it.index() <= k < it.seq().len() && *(#[trigger] it.seq()[k]) == x,
        {
            let ghost known = types@;
            types.push(*ty);
            assert forall|x: TypeKey| #[trigger] before.contains_key(x) implies types@.contains(x)
                || exists|k: int|
                it.index() + 1 <= k < it.seq().len() && *(#[trigger] it.seq()[k]) == x by {
                if known.contains(x) {
                    let k = choose|k: int| 0 <= k < known.len() && known[k] == x;
                    assert(types@[k] == x);
                } else if x == *ty {
                    assert(types@[known.len() as int] == x);
                }
            }
        }
        let mut i: usize = 0;
        while i < types.len()
            invariant
                i <= types@.len(),
                self.by_key == old(self).by_key,
                before == old(self).by_type@,
                forall|ty: TypeKey| #[trigger] before.contains_key(ty) ==> types@.contains(ty),
                forall|ty: TypeKey| #[trigger]
                    self.by_type@.contains_key(ty) == before.contains_key(ty),
                forall|ty: TypeKey|
                    #![trigger self.by_type@[ty]]
                    before.contains_key(ty) ==> self.by_type@[ty].slots@ == before[ty].slots@,
                forall|j: int|
                    0 <= j < i && before.contains_key(#[trigger] types@[j])
                        ==> self.by_type@[types@[j]].next == 0,
            decreases types.len() - i,
        {
            let ty: TypeKey = types[i];
            if let Some(nodes) = self.by_type.remove(&ty) {
                self.by_type.insert(ty, TypeNodes { next: 0, slots: nodes.slots });
            }
            i += 1;
        }
        proof {
            assert forall|ty: TypeKey| before.contains_key(ty) implies self.by_type@[ty].next
                == 0 by {
                let j = choose|j: int| 0 <= j < types@.len() && types@[j] == ty;
                assert(self.by_type@[types@[j]].next == 0);
            }
            assert(self@.by_type =~= old(self)@.rewound().by_type);
        }
    }

    /// Records slot `slot` under `key`.
    pub(crate) fn record_key(&mut self, key: KeyId, slot: usize)
        ensures
            final(self)@ == (PreviousModel {
                by_key: old(self)@.by_key.insert(key, slot),
                ..old(self)@
            }),
    {
        self.by_key.insert(key, slot);
    }

    /// The slot recorded under `key`, if there is one.
    pub fn slot_of_key(&self, key: KeyId) -> (slot: Option<usize>)
        ensures
            slot == (if self@.by_key.contains_key(key) {
                Some(self@.by_key[key])
            } else {
                None
            }),
    {
        match self.by_key.get(&key) {
            Some(slot) => Some(*slot),
            None => None,
        }
    }

    /// The slot that the next request for `ty` is served from, if an earlier
    /// execution created one.
    pub fn next_of_type(&self, ty: TypeKey) -> (slot: Option<usize>)
        ensures
            slot == (if self@.nodes_of(ty).next < self@.nodes_of(ty).slots.len() {
                Some(self@.nodes_of(ty).slots[self@.nodes_of(ty).next as int])
            } else {
                None
            }),
    {
        match self.by_type.get(&ty) {
            Some(nodes) => {
                if nodes.next < nodes.slots.len() {
                    Some(nodes.slots[nodes.next])
                } else {
                    None
                }
            },
            None => None,
        }
    }

    /// How many slots for `ty` the running execution has used.
    pub fn used_of_type(&self, ty: TypeKey) -> (used: usize)
        ensures
            used == self@.nodes_of(ty).next,
    {
        match self.by_type.get(&ty) {
            Some(nodes) => nodes.next,
            None => 0,
        }
    }

    /// Counts one request for `ty`, for which `created` was created if no slot was
    /// left.
    pub(crate) fn use_type(&mut self, ty: TypeKey, created: Option<usize>)
        requires
            old(self)@.nodes_of(ty).next < usize::MAX,
        ensures
            final(self)@ == (PreviousModel {
                by_type: old(self)@.by_type.insert(
                    ty,
                    TypeModel {
                        next: (old(self)@.nodes_of(ty).next + 1) as usize,
                        slots: match created {
                            Some(slot) => old(self)@.nodes_of(ty).slots.push(slot),
                            None => old(self)@.nodes_of(ty).slots,
                        },
                    },
                ),
                ..old(self)@
            }),
    {
        let mut nodes = match self.by_type.remove(&ty) {
            Some(nodes) => nodes,
            None => TypeNodes { next: 0, slots: Vec::new() },
        };
        assert(nodes@ =~= old(self)@.nodes_of(ty));
        if let Some(slot) = created {
            nodes.slots.push(slot);
        }
        nodes.next += 1;
        self.by_type.insert(ty, nodes);
        assert(self@.by_type =~= old(self)@.by_type.insert(ty, self@.by_type[ty]));
    }
}

} // verus!
