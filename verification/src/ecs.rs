//! The earlier, simpler storage model: one presence bitmap and one value
//! column per component type.
//!
//! Each component type gets a [`ComponentStore`]: a column of optional byte
//! payloads, indexed by entity, plus a fixed bitmap recording which entities
//! hold a value.  The [`Ecs`] of this module also keeps singleton resources
//! keyed by type identity, and supports deletion, which the archetype model
//! does not.
//!
//! Reads hand out copies of the stored bytes; writes go through `&mut self`
//! methods such as [`Ecs::set_component`].  Exclusive access is thereby
//! enforced by ownership: no runtime borrow guard is needed, and no access
//! can fail at run time for holding two handles to one value.

use vstd::prelude::*;
use crate::bitset::{BitSet, zeroed_bitset};
use crate::archetype::clone_bytes;
use crate::query::{Query, QueryIterator, lemma_matching_indices_complete, matching_indices, query_matches};

verus! {

/// An entity's index: assigned densely, counting up from 0.
pub type EntityIndex = usize;

/// How many 64-bit words each presence bitmap holds.
pub const BITSET_WORD_COUNT: usize = 1024;

/// The fixed number of entity slots a presence bitmap covers.
pub const MAX_ENTITY_SLOTS: usize = 65536;

/// One component type's storage: a value column indexed by entity, and a
/// presence bitmap with one bit per entity slot.
pub struct ComponentStore {
    pub component_data: Vec<Option<Vec<u8>>>,
    pub entities_bitset: Vec<u64>,
}

impl ComponentStore {
    /// The bitmap covers the fixed universe, the column fits inside it, a
    /// bit is set exactly where a value is stored, and no bit is set past
    /// the column's end.
    pub open spec fn wf(self) -> bool {
        &&& self.entities_bitset@.len() == BITSET_WORD_COUNT
        &&& self.component_data@.len() <= MAX_ENTITY_SLOTS
        &&& forall|i: int|
            0 <= i < self.component_data@.len() ==> ((#[trigger] self.component_data@[i]) is Some
                <==> self.entities_bitset.spec_bit(i as nat))
        &&& forall|j: nat|
            self.component_data@.len() <= j < MAX_ENTITY_SLOTS
                ==> !#[trigger] self.entities_bitset.spec_bit(j)
    }

    /// The stored bytes at `index`, if the entity holds this component.
    pub open spec fn value_at(self, index: int) -> Option<Seq<u8>> {
        if 0 <= index < self.component_data@.len() {
            match self.component_data@[index] {
                Some(bytes) => Some(bytes@),
                None => None,
            }
        } else {
            None
        }
    }

    /// A store with a single empty slot.
    pub fn new() -> (r: ComponentStore)
        ensures
            r.wf(),
            r.component_data@.len() == 1,
            forall|i: int| 0 <= i < 1 ==> #[trigger] r.value_at(i) is None,
    {
        let store = ComponentStore {
            component_data: vec_of_nones(1),
            entities_bitset: zeroed_bitset(BITSET_WORD_COUNT),
        };
        store
    }

    /// A store with `size + 1` empty slots.
    pub fn with_size(size: usize) -> (r: ComponentStore)
        requires
            size + 1 <= MAX_ENTITY_SLOTS,
        ensures
            r.wf(),
            r.component_data@.len() == size + 1,
            forall|i: int| 0 <= i < size + 1 ==> #[trigger] r.value_at(i) is None,
    {
        let store = ComponentStore {
            component_data: vec_of_nones(size + 1),
            entities_bitset: zeroed_bitset(BITSET_WORD_COUNT),
        };
        store
    }

    /// Clears the entity's presence bit and drops its value.
    pub fn remove_from_entity(&mut self, entity_index: EntityIndex)
        requires
            old(self).wf(),
            entity_index < old(self).component_data@.len(),
        ensures
            final(self).wf(),
            final(self).component_data@.len() == old(self).component_data@.len(),
            forall|i: int|
                0 <= i < old(self).component_data@.len() ==> #[trigger] final(self).value_at(i)
                    == (if i == entity_index {
                    None::<Seq<u8>>
                } else {
                    old(self).value_at(i)
                }),
    {
        self.entities_bitset.unset_bit(entity_index);
        self.component_data.set(entity_index, Option::None);
    }

    /// Appends one empty slot.
    pub fn push_empty_slot(&mut self)
        requires
            old(self).wf(),
            old(self).component_data@.len() < MAX_ENTITY_SLOTS,
        ensures
            final(self).wf(),
            final(self).component_data@.len() == old(self).component_data@.len() + 1,
            forall|i: int|
                0 <= i < old(self).component_data@.len() ==> #[trigger] final(self).value_at(i)
                    == old(self).value_at(i),
            final(self).value_at(old(self).component_data@.len() as int) is None,
    {
        self.component_data.push(Option::None);
    }

    /// Stores a value for the entity and sets its presence bit.
    pub fn set_value(&mut self, entity_index: EntityIndex, bytes: Vec<u8>)
        requires
            old(self).wf(),
            entity_index < old(self).component_data@.len(),
        ensures
            final(self).wf(),
            final(self).component_data@.len() == old(self).component_data@.len(),
            forall|i: int|
                0 <= i < old(self).component_data@.len() ==> #[trigger] final(self).value_at(i)
                    == (if i == entity_index {
                    Some(bytes@)
                } else {
                    old(self).value_at(i)
                }),
    {
        self.entities_bitset.set_bit(entity_index);
        self.component_data.set(entity_index, Option::Some(bytes));
    }
}

/// A column of `n` empty slots.
fn vec_of_nones(n: usize) -> (r: Vec<Option<Vec<u8>>>)
    ensures
        r@.len() == n,
        forall|i: int| 0 <= i < n ==> (#[trigger] r@[i]) is None,
{
    let mut r: Vec<Option<Vec<u8>>> = Vec::new();
    let mut i: usize = 0;
    while i < n
        invariant
            i <= n,
            r@.len() == i,
            forall|k: int| 0 <= k < i ==> (#[trigger] r@[k]) is None,
        decreases n - i,
    {
        r.push(Option::None);
        i += 1;
    }
    r
}

/// Every component type's store, keyed by type identity.
pub struct Components {
    pub entries: Vec<(u64, ComponentStore)>,
}

impl Components {
    /// No two entries share a type identity.
    pub open spec fn distinct_ids(self) -> bool {
        forall|i: int, j: int|
            0 <= i < j < self.entries@.len() ==> (#[trigger] self.entries@[i]).0 != (
            #[trigger] self.entries@[j]).0
    }

    /// Every store is well-formed and holds one slot per entity.
    pub open spec fn wf(self, entity_count: nat) -> bool {
        &&& entity_count <= MAX_ENTITY_SLOTS
        &&& self.distinct_ids()
        &&& forall|i: int|
            0 <= i < self.entries@.len() ==> (#[trigger] self.entries@[i]).1.wf()
                && self.entries@[i].1.component_data@.len() == entity_count
    }

    /// Whether a store for the type exists.
    pub open spec fn has_store(self, type_id: u64) -> bool {
        exists|i: int|
            0 <= i < self.entries@.len() && (#[trigger] self.entries@[i]).0 == type_id
    }

    /// The position of the type's store.
    pub open spec fn store_index(self, type_id: u64) -> int {
        choose|i: int|
            0 <= i < self.entries@.len() && (#[trigger] self.entries@[i]).0 == type_id
    }

    /// The stored bytes of component `type_id` for entity `index`, if any.
    pub open spec fn value_at(self, type_id: u64, index: int) -> Option<Seq<u8>> {
        if self.has_store(type_id) {
            self.entries@[self.store_index(type_id)].1.value_at(index)
        } else {
            None
        }
    }

    /// Whether entity `index` holds component `type_id`.
    pub open spec fn present(self, type_id: u64, index: int) -> bool {
        self.value_at(type_id, index) is Some
    }

    /// The position of the type's store, if one exists.
    pub fn find(&self, type_id: u64) -> (r: Option<usize>)
        requires
            self.distinct_ids(),
        ensures
            match r {
                Option::Some(i) => i < self.entries@.len() && self.entries@[i as int].0 == type_id
                    && self.has_store(type_id) && i as int == self.store_index(type_id),
                Option::None => !self.has_store(type_id),
            },
    {
        let n = self.entries.len();
        let mut i: usize = 0;
        while i < n
            invariant
                i <= n,
                n == self.entries@.len(),
                self.distinct_ids(),
                forall|k: int| 0 <= k < i ==> (#[trigger] self.entries@[k]).0 != type_id,
            decreases n - i,
        {
            if self.entries[i].0 == type_id {
                proof {
                    lemma_unique_store_index(*self, type_id, i as int);
                }
                return Option::Some(i);
            }
            i += 1;
        }
        proof {
            if self.has_store(type_id) {
                let w = self.store_index(type_id);
                assert(self.entries@[w].0 != type_id);
            }
        }
        Option::None
    }

    /// Whether entity `index` currently holds component `type_id`.
    pub fn is_present(&self, type_id: u64, index: usize) -> (r: bool)
        requires
            self.distinct_ids(),
        ensures
            r == self.present(type_id, index as int),
    {
        let found = self.find(type_id);
        match found {
            Option::Some(store_pos) => {
                let store = &self.entries[store_pos].1;
                if index < store.component_data.len() {
                    match &store.component_data[index] {
                        Option::Some(_) => true,
                        Option::None => false,
                    }
                } else {
                    false
                }
            },
            Option::None => false,
        }
    }

    /// The stored bytes of component `type_id` for entity `index`.
    pub fn get_value(&self, type_id: u64, index: usize) -> (r: Vec<u8>)
        requires
            self.distinct_ids(),
            self.present(type_id, index as int),
        ensures
            Some(r@) == self.value_at(type_id, index as int),
    {
        let found = self.find(type_id);
        match found {
            Option::Some(store_pos) => {
                let store = &self.entries[store_pos].1;
                match &store.component_data[index] {
                    Option::Some(bytes) => clone_bytes(bytes),
                    Option::None => {
                        proof {
                            assert(false);
                        }
                        Vec::new()
                    },
                }
            },
            Option::None => {
                proof {
                    assert(false);
                }
                Vec::new()
            },
        }
    }
}

/// With type ids unique, any position whose entry carries `type_id` is the
/// position that `store_index` names.
pub proof fn lemma_unique_store_index(c: Components, type_id: u64, w: int)
    requires
        c.distinct_ids(),
        0 <= w < c.entries@.len(),
        c.entries@[w].0 == type_id,
    ensures
        c.has_store(type_id),
        c.store_index(type_id) == w,
{
    assert(c.has_store(type_id));
    let i = c.store_index(type_id);
    assert(0 <= i < c.entries@.len() && c.entries@[i].0 == type_id);
    if i < w {
        assert(c.entries@[i].0 != c.entries@[w].0);
    }
    if w < i {
        assert(c.entries@[w].0 != c.entries@[i].0);
    }
}

/// Singleton values living outside the entity model, keyed by type identity.
pub struct Resources {
    pub entries: Vec<(u64, Vec<u8>)>,
}

impl Resources {
    /// No two entries share a type identity.
    pub open spec fn distinct_ids(self) -> bool {
        forall|i: int, j: int|
            0 <= i < j < self.entries@.len() ==> (#[trigger] self.entries@[i]).0 != (
            #[trigger] self.entries@[j]).0
    }

    /// Whether a resource of the type is stored.
    pub open spec fn has_resource(self, type_id: u64) -> bool {
        exists|i: int|
            0 <= i < self.entries@.len() && (#[trigger] self.entries@[i]).0 == type_id
    }

    /// The position of the type's resource.
    pub open spec fn resource_index(self, type_id: u64) -> int {
        choose|i: int|
            0 <= i < self.entries@.len() && (#[trigger] self.entries@[i]).0 == type_id
    }

    /// The stored bytes of the resource, if any.
    pub open spec fn value(self, type_id: u64) -> Option<Seq<u8>> {
        if self.has_resource(type_id) {
            Some(self.entries@[self.resource_index(type_id)].1@)
        } else {
            None
        }
    }

    /// The position of the type's resource, if one is stored.
    fn find(&self, type_id: u64) -> (r: Option<usize>)
        requires
            self.distinct_ids(),
        ensures
            match r {
                Option::Some(i) => i < self.entries@.len() && self.entries@[i as int].0 == type_id
                    && self.has_resource(type_id) && i as int == self.resource_index(type_id),
                Option::None => !self.has_resource(type_id),
            },
    {
        let n = self.entries.len();
        let mut i: usize = 0;
        while i < n
            invariant
                i <= n,
                n == self.entries@.len(),
                self.distinct_ids(),
                forall|k: int| 0 <= k < i ==> (#[trigger] self.entries@[k]).0 != type_id,
            decreases n - i,
        {
            if self.entries[i].0 == type_id {
                proof {
                    lemma_unique_resource_index(*self, type_id, i as int);
                }
                return Option::Some(i);
            }
            i += 1;
        }
        proof {
            if self.has_resource(type_id) {
                let w = self.resource_index(type_id);
                assert(self.entries@[w].0 != type_id);
            }
        }
        Option::None
    }
}

/// With type ids unique, any position whose entry carries `type_id` is the
/// position that `resource_index` names.
pub proof fn lemma_unique_resource_index(r: Resources, type_id: u64, w: int)
    requires
        r.distinct_ids(),
        0 <= w < r.entries@.len(),
        r.entries@[w].0 == type_id,
    ensures
        r.has_resource(type_id),
        r.resource_index(type_id) == w,
{
    assert(r.has_resource(type_id));
    let i = r.resource_index(type_id);
    assert(0 <= i < r.entries@.len() && r.entries@[i].0 == type_id);
    if i < w {
        assert(r.entries@[i].0 != r.entries@[w].0);
    }
    if w < i {
        assert(r.entries@[w].0 != r.entries@[i].0);
    }
}

/// The store of this model: one column per component type, singleton
/// resources, and a dense entity counter starting at 0.
pub struct Ecs {
    components: Components,
    shared_resources: Resources,
    next_index: EntityIndex,
}

impl Ecs {
    /// The component stores.
    pub closed spec fn spec_components(self) -> Components {
        self.components
    }

    /// The stored resources.
    pub closed spec fn spec_resources(self) -> Resources {
        self.shared_resources
    }

    /// How many entities were inserted; also the next index handed out.
    pub closed spec fn spec_entity_count(self) -> nat {
        self.next_index as nat
    }

    /// The structural invariant.
    pub open spec fn wf(self) -> bool {
        &&& self.spec_components().wf(self.spec_entity_count())
        &&& self.spec_resources().distinct_ids()
    }

    /// The stored bytes of component `type_id` for entity `index`, if any.
    pub open spec fn component(self, type_id: u64, index: int) -> Option<Seq<u8>> {
        self.spec_components().value_at(type_id, index)
    }

    /// The stored bytes of the resource of the type, if any.
    pub open spec fn resource_value(self, type_id: u64) -> Option<Seq<u8>> {
        self.spec_resources().value(type_id)
    }

    /// Creates a new, empty store.
    pub fn new() -> (r: Ecs)
        ensures
            r.wf(),
            r.spec_entity_count() == 0,
            forall|t: u64, i: int| #[trigger] r.component(t, i) is None,
            forall|t: u64| #[trigger] r.resource_value(t) is None,
    {
        let r = Ecs {
            components: Components { entries: Vec::new() },
            shared_resources: Resources { entries: Vec::new() },
            next_index: 0,
        };
        proof {
            assert forall|t: u64, i: int| #[trigger] r.component(t, i) is None by {
                if r.spec_components().has_store(t) {
                    let w = r.spec_components().store_index(t);
                    assert(0 <= w < 0);
                }
            };
            assert forall|t: u64| #[trigger] r.resource_value(t) is None by {
                if r.spec_resources().has_resource(t) {
                    let w = r.spec_resources().resource_index(t);
                    assert(0 <= w < 0);
                }
            };
        }
        r
    }

    /// The entity count of the store.
    pub fn entity_count(&self) -> (r: usize)
        ensures
            r == self.spec_entity_count(),
    {
        self.next_index
    }

    /// Stores a resource, replacing any stored value of the same type.
    pub fn insert_resource(&mut self, type_id: u64, resource: Vec<u8>)
        requires
            old(self).wf(),
        ensures
            final(self).wf(),
            final(self).resource_value(type_id) == Some(resource@),
            forall|t: u64|
                t != type_id ==> #[trigger] final(self).resource_value(t) == old(
                    self,
                ).resource_value(t),
            final(self).spec_components() == old(self).spec_components(),
            final(self).spec_entity_count() == old(self).spec_entity_count(),
    {
        let found = self.shared_resources.find(type_id);
        let ghost oldres = self.shared_resources;
        match found {
            Option::Some(i) => {
                let mut entry = self.shared_resources.entries.remove(i);
                entry.1 = resource;
                self.shared_resources.entries.insert(i, entry);
                proof {
                    assert(self.shared_resources.entries@ =~= oldres.entries@.update(
                        i as int,
                        (type_id, entry.1),
                    ));
                    lemma_resource_update(oldres, self.shared_resources, i as int, type_id,
                        entry.1);
                }
            },
            Option::None => {
                self.shared_resources.entries.push((type_id, resource));
                proof {
                    let n = oldres.entries@.len() as int;
                    assert forall|i2: int, j2: int|
                        0 <= i2 < j2 < self.shared_resources.entries@.len() implies (
                    #[trigger] self.shared_resources.entries@[i2]).0 != (
                    #[trigger] self.shared_resources.entries@[j2]).0 by {
                        if j2 < n {
                            assert(oldres.entries@[i2].0 != oldres.entries@[j2].0);
                        } else {
                            if self.shared_resources.entries@[i2].0 == type_id {
                                assert(oldres.entries@[i2].0 == type_id);
                            }
                        }
                    };
                    lemma_unique_resource_index(self.shared_resources, type_id, n);
                    assert forall|t: u64|
                        t != type_id implies #[trigger] self.resource_value(t) == old(
                        self,
                    ).resource_value(t) by {
                        if oldres.has_resource(t) {
                            let w = oldres.resource_index(t);
                            assert(0 <= w < n && oldres.entries@[w].0 == t);
                            lemma_unique_resource_index(self.shared_resources, t, w);
                        } else {
                            if self.shared_resources.has_resource(t) {
                                let w = self.shared_resources.resource_index(t);
                                assert(0 <= w < n + 1
                                    && self.shared_resources.entries@[w].0 == t);
                                assert(w != n);
                                assert(oldres.entries@[w].0 == t);
                            }
                        }
                    };
                }
            },
        }
    }

    /// The stored resource of the type; the resource must be present.
    pub fn resource(&self, type_id: u64) -> (r: Vec<u8>)
        requires
            self.wf(),
            self.resource_value(type_id) is Some,
        ensures
            Some(r@) == self.resource_value(type_id),
    {
        let found = self.shared_resources.find(type_id);
        match found {
            Option::Some(i) => clone_bytes(&self.shared_resources.entries[i].1),
            Option::None => {
                proof {
                    assert(false);
                }
                Vec::new()
            },
        }
    }

    /// Overwrites the stored resource of the type; the resource must be
    /// present.
    pub fn resource_mut(&mut self, type_id: u64, new_value: Vec<u8>)
        requires
            old(self).wf(),
            old(self).resource_value(type_id) is Some,
        ensures
            final(self).wf(),
            final(self).resource_value(type_id) == Some(new_value@),
            forall|t: u64|
                t != type_id ==> #[trigger] final(self).resource_value(t) == old(
                    self,
                ).resource_value(t),
            final(self).spec_components() == old(self).spec_components(),
            final(self).spec_entity_count() == old(self).spec_entity_count(),
    {
        self.insert_resource(type_id, new_value);
    }
}

/// Replacing the value of one resource entry in place changes that type's
/// value and nothing else.
proof fn lemma_resource_update(pre: Resources, post: Resources, i: int, type_id: u64, v: Vec<u8>)
    requires
        pre.distinct_ids(),
        0 <= i < pre.entries@.len(),
        pre.entries@[i].0 == type_id,
        post.entries@ == pre.entries@.update(i, (type_id, v)),
    ensures
        post.distinct_ids(),
        post.value(type_id) == Some(v@),
        forall|t: u64| t != type_id ==> #[trigger] post.value(t) == pre.value(t),
{
    assert forall|i2: int, j2: int|
        0 <= i2 < j2 < post.entries@.len() implies (#[trigger] post.entries@[i2]).0 != (
    #[trigger] post.entries@[j2]).0 by {
        assert(pre.entries@[i2].0 != pre.entries@[j2].0);
    };
    lemma_unique_resource_index(post, type_id, i);
    assert forall|t: u64| t != type_id implies #[trigger] post.value(t) == pre.value(t) by {
        if pre.has_resource(t) {
            let w = pre.resource_index(t);
            assert(0 <= w < pre.entries@.len() && pre.entries@[w].0 == t);
            assert(w != i);
            lemma_unique_resource_index(post, t, w);
            lemma_unique_resource_index(pre, t, w);
        } else {
            if post.has_resource(t) {
                let w = post.resource_index(t);
                assert(0 <= w < post.entries@.len() && post.entries@[w].0 == t);
                assert(w != i);
                assert(pre.entries@[w].0 == t);
            }
        }
    };
}

/// A list of component values defining one entity: (type identity, bytes)
/// pairs, in declaration order.
pub struct EntityDefinition {
    pub components: Vec<(u64, Vec<u8>)>,
}

impl EntityDefinition {
    /// Between one and eight components.
    pub open spec fn valid(self) -> bool {
        1 <= self.components@.len() <= 8
    }
}

/// The value a definition leaves for `type_id`: the last occurrence wins,
/// `None` if the type does not occur.
pub open spec fn defined_value(cs: Seq<(u64, Vec<u8>)>, type_id: u64) -> Option<Seq<u8>>
    decreases cs.len(),
{
    if cs.len() == 0 {
        None
    } else if cs.last().0 == type_id {
        Some(cs.last().1@)
    } else {
        defined_value(cs.drop_last(), type_id)
    }
}

/// Replacing one store in place changes that type's column and nothing else.
proof fn lemma_store_update(
    pre: Components,
    post: Components,
    pos: int,
    type_id: u64,
    s2: ComponentStore,
)
    requires
        pre.distinct_ids(),
        0 <= pos < pre.entries@.len(),
        pre.entries@[pos].0 == type_id,
        post.entries@ == pre.entries@.update(pos, (type_id, s2)),
    ensures
        post.distinct_ids(),
        post.entries@.len() == pre.entries@.len(),
        forall|t: u64, i: int|
            t != type_id ==> #[trigger] post.value_at(t, i) == pre.value_at(t, i),
        forall|i: int| #[trigger] post.value_at(type_id, i) == s2.value_at(i),
        post.has_store(type_id),
{
    assert forall|i2: int, j2: int|
        0 <= i2 < j2 < post.entries@.len() implies (#[trigger] post.entries@[i2]).0 != (
    #[trigger] post.entries@[j2]).0 by {
        assert(pre.entries@[i2].0 != pre.entries@[j2].0);
    };
    lemma_unique_store_index(post, type_id, pos);
    lemma_unique_store_index(pre, type_id, pos);
    assert forall|t: u64, i: int|
        t != type_id implies #[trigger] post.value_at(t, i) == pre.value_at(t, i) by {
        if pre.has_store(t) {
            let w = pre.store_index(t);
            assert(0 <= w < pre.entries@.len() && pre.entries@[w].0 == t);
            assert(w != pos);
            lemma_unique_store_index(post, t, w);
            lemma_unique_store_index(pre, t, w);
        } else {
            if post.has_store(t) {
                let w = post.store_index(t);
                assert(0 <= w < post.entries@.len() && post.entries@[w].0 == t);
                assert(w != pos);
                assert(pre.entries@[w].0 == t);
            }
        }
    };
}

/// Appending a store for a type that had none gives that type the new
/// store's column and changes nothing else.
proof fn lemma_store_push(pre: Components, post: Components, type_id: u64, s: ComponentStore)
    requires
        pre.distinct_ids(),
        !pre.has_store(type_id),
        post.entries@ == pre.entries@.push((type_id, s)),
    ensures
        post.distinct_ids(),
        post.entries@.len() == pre.entries@.len() + 1,
        forall|t: u64, i: int|
            t != type_id ==> #[trigger] post.value_at(t, i) == pre.value_at(t, i),
        forall|i: int| #[trigger] post.value_at(type_id, i) == s.value_at(i),
        post.has_store(type_id),
{
    let n = pre.entries@.len() as int;
    assert forall|i2: int, j2: int|
        0 <= i2 < j2 < post.entries@.len() implies (#[trigger] post.entries@[i2]).0 != (
    #[trigger] post.entries@[j2]).0 by {
        if j2 < n {
            assert(pre.entries@[i2].0 != pre.entries@[j2].0);
        } else {
            if post.entries@[i2].0 == type_id {
                assert(pre.entries@[i2].0 == type_id);
            }
        }
    };
    lemma_unique_store_index(post, type_id, n);
    assert forall|t: u64, i: int|
        t != type_id implies #[trigger] post.value_at(t, i) == pre.value_at(t, i) by {
        if pre.has_store(t) {
            let w = pre.store_index(t);
            assert(0 <= w < n && pre.entries@[w].0 == t);
            lemma_unique_store_index(post, t, w);
            lemma_unique_store_index(pre, t, w);
        } else {
            if post.has_store(t) {
                let w = post.store_index(t);
                assert(0 <= w < n + 1 && post.entries@[w].0 == t);
                assert(w != n);
                assert(pre.entries@[w].0 == t);
            }
        }
    };
}

impl Ecs {
    /// Inserts an entity: every existing column gains one empty slot at the
    /// new index, then each component of the definition is stored there, in
    /// order (on a repeated type the last value wins).  Returns the new
    /// entity's index.
    #[verifier::rlimit(100)]
    pub fn insert(&mut self, entity_definition: EntityDefinition) -> (r: EntityIndex)
        requires
            old(self).wf(),
            entity_definition.valid(),
            old(self).spec_entity_count() < MAX_ENTITY_SLOTS,
        ensures
            final(self).wf(),
            r == old(self).spec_entity_count(),
            final(self).spec_entity_count() == old(self).spec_entity_count() + 1,
            forall|t: u64|
                #[trigger] final(self).component(t, r as int) == defined_value(
                    entity_definition.components@,
                    t,
                ),
            forall|t: u64, i: int|
                i != r as int ==> #[trigger] final(self).component(t, i) == old(self).component(
                    t,
                    i,
                ),
            final(self).spec_resources() == old(self).spec_resources(),
    {
        let ghost oldcomp = self.components;
        let ghost cs = entity_definition.components@;
        let index = self.next_index;

        // one fresh empty slot in every existing column
        let n = self.components.entries.len();
        let mut e: usize = 0;
        while e < n
            invariant
                e <= n,
                n == self.components.entries@.len(),
                n == oldcomp.entries@.len(),
                index < MAX_ENTITY_SLOTS,
                self.next_index == index,
                self.shared_resources == old(self).shared_resources,
                oldcomp == old(self).spec_components(),
                oldcomp.wf(index as nat),
                self.components.distinct_ids(),
                forall|k: int|
                    0 <= k < n ==> (#[trigger] self.components.entries@[k]).0
                        == oldcomp.entries@[k].0,
                forall|k: int|
                    0 <= k < e ==> (#[trigger] self.components.entries@[k]).1.wf() && self
                        .components.entries@[k].1.component_data@.len() == index + 1,
                forall|k: int|
                    e <= k < n ==> (#[trigger] self.components.entries@[k]).1
                        == oldcomp.entries@[k].1,
                forall|t: u64, i: int|
                    i < index ==> #[trigger] self.components.value_at(t, i) == oldcomp.value_at(
                        t,
                        i,
                    ),
                forall|t: u64, i: int|
                    i >= index ==> #[trigger] self.components.value_at(t, i) is None,
            decreases n - e,
        {
            let ghost pre = self.components;
            let ghost tid = self.components.entries@[e as int].0;
            let mut entry = self.components.entries.remove(e);
            entry.1.push_empty_slot();
            self.components.entries.insert(e, entry);
            proof {
                assert(self.components.entries@ =~= pre.entries@.update(
                    e as int,
                    (tid, entry.1),
                ));
                lemma_store_update(pre, self.components, e as int, tid, entry.1);
            }
            e += 1;
        }

        // store each component of the definition at the new index
        let mut items = entity_definition.components;
        proof {
            assert(items@ =~= cs.subrange(0, cs.len() as int));
            assert(cs.take(0) =~= Seq::<(u64, Vec<u8>)>::empty());
        }
        while items.len() > 0
            invariant
                items@ == cs.subrange(cs.len() - items@.len(), cs.len() as int),
                items@.len() <= cs.len(),
                index < MAX_ENTITY_SLOTS,
                self.next_index == index,
                self.shared_resources == old(self).shared_resources,
                oldcomp == old(self).spec_components(),
                self.components.distinct_ids(),
                forall|k: int|
                    0 <= k < self.components.entries@.len() ==> (
                    #[trigger] self.components.entries@[k]).1.wf()
                        && self.components.entries@[k].1.component_data@.len() == index + 1,
                forall|t: u64|
                    #[trigger] self.components.value_at(t, index as int) == defined_value(
                        cs.take(cs.len() - items@.len()),
                        t,
                    ),
                forall|t: u64, i: int|
                    i < index ==> #[trigger] self.components.value_at(t, i) == oldcomp.value_at(
                        t,
                        i,
                    ),
                forall|t: u64, i: int|
                    i > index ==> #[trigger] self.components.value_at(t, i) is None,
            decreases items@.len(),
        {
            let ghost done = cs.len() - items@.len();
            let (type_id, bytes) = items.remove(0);
            proof {
                assert((type_id, bytes) == cs[done as int]);
                assert(items@ =~= cs.subrange(done as int + 1, cs.len() as int));
                assert(cs.take(done as int + 1).last() == cs[done as int]);
                assert(cs.take(done as int + 1).drop_last() =~= cs.take(done as int));
            }
            let found = self.components.find(type_id);
            match found {
                Option::Some(pos) => {
                    let ghost pre = self.components;
                    let mut entry = self.components.entries.remove(pos);
                    entry.1.set_value(index, bytes);
                    self.components.entries.insert(pos, entry);
                    proof {
                        assert(self.components.entries@ =~= pre.entries@.update(
                            pos as int,
                            (type_id, entry.1),
                        ));
                        lemma_store_update(pre, self.components, pos as int, type_id, entry.1);
                    }
                },
                Option::None => {
                    let ghost pre = self.components;
                    let mut store = ComponentStore::with_size(index);
                    store.set_value(index, bytes);
                    self.components.entries.push((type_id, store));
                    proof {
                        lemma_store_push(pre, self.components, type_id, store);
                    }
                },
            }
        }
        proof {
            assert(cs.take(cs.len() as int) =~= cs);
        }
        self.next_index = self.next_index + 1;
        index
    }

    /// Drops the component of the given type from the entity, if a store
    /// for that type exists.
    pub fn remove_component(&mut self, type_id: u64, entity_index: EntityIndex)
        requires
            old(self).wf(),
            entity_index < old(self).spec_entity_count(),
        ensures
            final(self).wf(),
            forall|i: int|
                #[trigger] final(self).component(type_id, i) == (if i == entity_index as int {
                    None::<Seq<u8>>
                } else {
                    old(self).component(type_id, i)
                }),
            forall|t: u64, i: int|
                t != type_id ==> #[trigger] final(self).component(t, i) == old(self).component(
                    t,
                    i,
                ),
            final(self).spec_entity_count() == old(self).spec_entity_count(),
            final(self).spec_resources() == old(self).spec_resources(),
    {
        let found = self.components.find(type_id);
        match found {
            Option::Some(pos) => {
                let ghost pre = self.components;
                let mut entry = self.components.entries.remove(pos);
                entry.1.remove_from_entity(entity_index);
                self.components.entries.insert(pos, entry);
                proof {
                    assert(self.components.entries@ =~= pre.entries@.update(
                        pos as int,
                        (type_id, entry.1),
                    ));
                    lemma_store_update(pre, self.components, pos as int, type_id, entry.1);
                }
            },
            Option::None => {},
        }
    }

    /// Overwrites the entity's stored value of the given component type; the
    /// entity must hold that component.
    pub fn set_component(&mut self, type_id: u64, entity_index: EntityIndex, data: Vec<u8>)
        requires
            old(self).wf(),
            old(self).component(type_id, entity_index as int) is Some,
        ensures
            final(self).wf(),
            forall|i: int|
                #[trigger] final(self).component(type_id, i) == (if i == entity_index as int {
                    Some(data@)
                } else {
                    old(self).component(type_id, i)
                }),
            forall|t: u64, i: int|
                t != type_id ==> #[trigger] final(self).component(t, i) == old(self).component(
                    t,
                    i,
                ),
            final(self).spec_entity_count() == old(self).spec_entity_count(),
            final(self).spec_resources() == old(self).spec_resources(),
    {
        let found = self.components.find(type_id);
        match found {
            Option::Some(pos) => {
                let ghost pre = self.components;
                let mut entry = self.components.entries.remove(pos);
                entry.1.set_value(entity_index, data);
                self.components.entries.insert(pos, entry);
                proof {
                    assert(self.components.entries@ =~= pre.entries@.update(
                        pos as int,
                        (type_id, entry.1),
                    ));
                    lemma_store_update(pre, self.components, pos as int, type_id, entry.1);
                }
            },
            Option::None => {
                proof {
                    assert(false);
                }
            },
        }
    }
}

/// `s2` is `s1` with the slot at `index` cleared and nothing else changed.
pub open spec fn cleared_at(s2: ComponentStore, s1: ComponentStore, index: int) -> bool {
    &&& s2.wf()
    &&& s2.component_data@.len() == s1.component_data@.len()
    &&& forall|i: int|
        #[trigger] s2.value_at(i) == (if i == index {
            None::<Seq<u8>>
        } else {
            s1.value_at(i)
        })
}

impl Ecs {
    /// An iterator over every entity holding all the query's types, with
    /// one value per term; highest indices come out first.
    pub fn query(&self, query: &Query) -> (it: QueryIterator)
        requires
            self.wf(),
        ensures
            it.spec_items().len() == matching_indices(
                self.spec_components(),
                query.spec_terms(),
                self.spec_entity_count(),
            ).len(),
            forall|k: int|
                0 <= k < it.spec_items().len() ==> (#[trigger] it.spec_items()[k]).0 as int
                    == matching_indices(
                    self.spec_components(),
                    query.spec_terms(),
                    self.spec_entity_count(),
                )[k],
            forall|k: int|
                0 <= k < it.spec_items().len() ==> (#[trigger] it.spec_items()[k]).1@.len()
                    == query.spec_terms().len(),
            forall|k: int, a: int|
                0 <= k < it.spec_items().len() && 0 <= a < query.spec_terms().len() ==> Some(
                    (#[trigger] it.spec_items()[k].1@[a])@,
                ) == self.component(query.spec_terms()[a].0, it.spec_items()[k].0 as int),
    {
        QueryIterator::new(self.next_index, &self.components, query)
    }

    /// The lowest-indexed entity holding all the query's types, with one
    /// value per term; `None` when no entity matches.
    pub fn query_one(&self, query: &Query) -> (r: Option<(EntityIndex, Vec<Vec<u8>>)>)
        requires
            self.wf(),
        ensures
            matching_indices(
                self.spec_components(),
                query.spec_terms(),
                self.spec_entity_count(),
            ).len() == 0 ==> r is None,
            matching_indices(
                self.spec_components(),
                query.spec_terms(),
                self.spec_entity_count(),
            ).len() > 0 ==> (r matches Some(found) && found.0 as int == matching_indices(
                self.spec_components(),
                query.spec_terms(),
                self.spec_entity_count(),
            )[0] && found.1@.len() == query.spec_terms().len() && (forall|a: int|
                0 <= a < query.spec_terms().len() ==> Some((#[trigger] found.1@[a])@)
                    == self.component(query.spec_terms()[a].0, found.0 as int))),
    {
        let ghost terms = query.spec_terms();
        let ids = query.matching_ids(self.next_index, &self.components);
        if ids.len() == 0 {
            return Option::None;
        }
        let index = ids[0];
        proof {
            lemma_matching_indices_complete(self.components, terms, self.next_index as nat);
            let matched = matching_indices(self.components, terms, self.next_index as nat);
            assert(matched.contains(matched[0])) by {
                assert(matched[0] == matched[0]);
            };
        }
        let values = query.fetch(index, &self.components);
        Option::Some((index, values))
    }

    /// The query's values for one entity, with no presence test: the caller
    /// must guarantee the entity holds every requested type.
    pub fn query_one_by_id(&self, query: &Query, id: EntityIndex) -> (r: Vec<Vec<u8>>)
        requires
            self.wf(),
            query_matches(self.spec_components(), query.spec_terms(), id as int),
        ensures
            r@.len() == query.spec_terms().len(),
            forall|a: int|
                0 <= a < query.spec_terms().len() ==> Some((#[trigger] r@[a])@) == self.component(
                    query.spec_terms()[a].0,
                    id as int,
                ),
    {
        query.fetch(id, &self.components)
    }

    /// Deletes every entity matching the query: in every store, the
    /// matching indices lose their presence bit and their value.
    #[verifier::rlimit(100)]
    pub fn delete_by_query(&mut self, query: &Query)
        requires
            old(self).wf(),
        ensures
            final(self).wf(),
            final(self).spec_entity_count() == old(self).spec_entity_count(),
            final(self).spec_resources() == old(self).spec_resources(),
            forall|t: u64, i: int|
                #[trigger] final(self).component(t, i) == (if query_matches(
                    old(self).spec_components(),
                    query.spec_terms(),
                    i,
                ) {
                    None::<Seq<u8>>
                } else {
                    old(self).component(t, i)
                }),
    {
        let ghost oldcomp = self.components;
        let ghost terms = query.spec_terms();
        let ghost count = old(self).spec_entity_count();
        let ids = query.matching_ids(self.next_index, &self.components);
        let ghost matched = matching_indices(oldcomp, terms, count);
        proof {
            lemma_matching_indices_complete(oldcomp, terms, count);
            assert(matched.take(0) =~= Seq::<int>::empty());
        }
        let n = ids.len();
        let mut k: usize = 0;
        while k < n
            invariant
                k <= n,
                n == ids@.len(),
                n == matched.len(),
                terms == query.spec_terms(),
                matched == matching_indices(oldcomp, terms, count),
                forall|v: int|
                    #[trigger] matched.contains(v) <==> (0 <= v < count && query_matches(
                        oldcomp,
                        terms,
                        v,
                    )),
                forall|q: int| 0 <= q < n ==> #[trigger] ids@[q] as int == matched[q],
                self.next_index == old(self).next_index,
                self.next_index as nat == count,
                self.shared_resources == old(self).shared_resources,
                oldcomp == old(self).spec_components(),
                oldcomp.wf(count),
                self.components.wf(count),
                forall|t: u64, i: int|
                    #[trigger] self.components.value_at(t, i) == (if matched.take(
                        k as int,
                    ).contains(i) {
                        None::<Seq<u8>>
                    } else {
                        oldcomp.value_at(t, i)
                    }),
            decreases n - k,
        {
            let index = ids[k];
            proof {
                assert(matched.contains(matched[k as int])) by {
                    assert(matched[k as int] == matched[k as int]);
                };
                assert(0 <= index < count);
            }
            let ghost snap = self.components;
            let m = self.components.entries.len();
            let mut e: usize = 0;
            while e < m
                invariant
                    e <= m,
                    m == self.components.entries@.len(),
                    m == snap.entries@.len(),
                    index < self.next_index,
                    self.next_index == old(self).next_index,
                    self.next_index as nat == count,
                    self.shared_resources == old(self).shared_resources,
                    snap.wf(count),
                    forall|k2: int|
                        0 <= k2 < m ==> (#[trigger] self.components.entries@[k2]).0
                            == snap.entries@[k2].0,
                    forall|k2: int|
                        0 <= k2 < e ==> cleared_at(
                            (#[trigger] self.components.entries@[k2]).1,
                            snap.entries@[k2].1,
                            index as int,
                        ) && self.components.entries@[k2].1.component_data@.len() == count,
                    forall|k2: int|
                        e <= k2 < m ==> (#[trigger] self.components.entries@[k2]).1
                            == snap.entries@[k2].1,
                decreases m - e,
            {
                let mut entry = self.components.entries.remove(e);
                let ghost pre_entries = self.components.entries@;
                entry.1.remove_from_entity(index);
                self.components.entries.insert(e, entry);
                proof {
                    assert(self.components.entries@ =~= pre_entries.insert(e as int, entry));
                }
                e += 1;
            }
            proof {
                assert forall|t: u64, i: int|
                    #[trigger] self.components.value_at(t, i) == (if i == index as int {
                        None::<Seq<u8>>
                    } else {
                        snap.value_at(t, i)
                    }) by {
                    if snap.has_store(t) {
                        let w = snap.store_index(t);
                        assert(0 <= w < m && snap.entries@[w].0 == t);
                        assert(self.components.entries@[w].0 == t);
                        lemma_unique_store_index(self.components, t, w);
                        lemma_unique_store_index(snap, t, w);
                        assert(cleared_at(
                            self.components.entries@[w].1,
                            snap.entries@[w].1,
                            index as int,
                        ));
                    } else {
                        if self.components.has_store(t) {
                            let w = self.components.store_index(t);
                            assert(0 <= w < m && self.components.entries@[w].0 == t);
                            assert(snap.entries@[w].0 == t);
                        }
                    }
                };
                assert forall|t: u64, i: int|
                    #[trigger] self.components.value_at(t, i) == (if matched.take(
                        k as int + 1,
                    ).contains(i) {
                        None::<Seq<u8>>
                    } else {
                        oldcomp.value_at(t, i)
                    }) by {
                    let taken = matched.take(k as int + 1);
                    assert(taken =~= matched.take(k as int).push(index as int));
                    if taken.contains(i) {
                        if i != index as int {
                            let w = choose|w: int| 0 <= w < taken.len() && taken[w] == i;
                            assert(matched.take(k as int)[w] == i);
                            assert(matched.take(k as int).contains(i));
                        }
                    } else {
                        assert(!matched.take(k as int).contains(i));
                        assert(i != index as int) by {
                            assert(taken[k as int] == index as int);
                        };
                    }
                };
            }
            k += 1;
        }
        proof {
            assert(matched.take(n as int) =~= matched);
            assert forall|t: u64, i: int|
                #[trigger] self.components.value_at(t, i) == (if query_matches(oldcomp, terms, i) {
                    None::<Seq<u8>>
                } else {
                    oldcomp.value_at(t, i)
                }) by {
                if query_matches(oldcomp, terms, i) {
                    if 0 <= i < count {
                        assert(matched.contains(i));
                    } else {
                        assert(!matched.contains(i));
                        assert(oldcomp.value_at(t, i) is None) by {
                            if oldcomp.has_store(t) {
                                let w = oldcomp.store_index(t);
                                assert(0 <= w < oldcomp.entries@.len()
                                    && oldcomp.entries@[w].0 == t);
                            }
                        };
                    }
                } else {
                    assert(!matched.contains(i));
                }
            };
        }
    }
}

/// A write pass's change is what a later read pass sees: once a value is
/// stored for (`type_id`, `index`) — as `set_component` and `insert` ensure
/// for what they stored — the values that `fetch`'s contract admits for any
/// query requesting `type_id` carry exactly that value at that term.
pub proof fn lemma_write_visible(
    e: Ecs,
    terms: Seq<(u64, bool)>,
    index: EntityIndex,
    a: int,
    bytes: Seq<u8>,
    values: Vec<Vec<u8>>,
)
    requires
        0 <= a < terms.len(),
        e.component(terms[a].0, index as int) == Some(bytes),
        values@.len() == terms.len(),
        forall|b: int|
            0 <= b < terms.len() ==> Some((#[trigger] values@[b])@) == e.component(
                terms[b].0,
                index as int,
            ),
    ensures
        values@[a]@ == bytes,
{
}

} // verus!
