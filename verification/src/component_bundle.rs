//! The bridge between concrete component values and the archetype's
//! type-erased columns.
//!
//! A [`ComponentBundle`] is a declaration-ordered list of component values,
//! each a byte payload tagged with its [`TypeMetadata`].  The order of the
//! list is the bundle's signature and fixes the column each value is written
//! to.  Bundles carry between one and [`MAX_BUNDLE_ARITY`] components.

use vstd::prelude::*;
use crate::archetype::{Archetype, TypeMetadata, lemma_wf_counts};
use crate::Entity;

verus! {

/// The largest number of components one bundle may carry.
pub const MAX_BUNDLE_ARITY: usize = 6;

/// One component value ready for storage: its type metadata and its bytes.
pub struct ComponentData {
    pub metadata: TypeMetadata,
    pub bytes: Vec<u8>,
}

impl ComponentData {
    /// The payload length agrees with the declared size, and the alignment
    /// is usable.
    pub open spec fn valid(self) -> bool {
        &&& self.metadata.valid()
        &&& self.bytes@.len() == self.metadata.size
    }
}

/// The byte payloads of a list of rows, as mathematical sequences.
pub open spec fn rows_view(rows: Seq<Vec<u8>>) -> Seq<Seq<u8>> {
    Seq::new(rows.len(), |i: int| rows[i]@)
}

/// A declaration-ordered bundle of component values for one entity.
pub struct ComponentBundle {
    components: Vec<ComponentData>,
}

impl ComponentBundle {
    /// The components, in declaration order.
    pub closed spec fn spec_components(self) -> Seq<ComponentData> {
        self.components@
    }

    /// Between one and [`MAX_BUNDLE_ARITY`] components, each valid.
    pub open spec fn valid(self) -> bool {
        &&& 1 <= self.spec_components().len() <= MAX_BUNDLE_ARITY
        &&& forall|i: int|
            0 <= i < self.spec_components().len() ==> (#[trigger] self.spec_components()[i]).valid()
    }

    /// The per-component metadata, in declaration order.
    pub open spec fn spec_metadata(self) -> Seq<TypeMetadata> {
        Seq::new(self.spec_components().len(), |i: int| self.spec_components()[i].metadata)
    }

    /// The signature: one type identity per component, in declaration order.
    pub open spec fn spec_type_ids(self) -> Seq<u64> {
        Seq::new(self.spec_components().len(), |i: int| self.spec_components()[i].metadata.type_id)
    }

    /// The byte payloads, in declaration order.
    pub open spec fn spec_bytes(self) -> Seq<Seq<u8>> {
        Seq::new(self.spec_components().len(), |i: int| self.spec_components()[i].bytes@)
    }

    /// Wraps a component list as a bundle.
    pub fn new(components: Vec<ComponentData>) -> (r: ComponentBundle)
        requires
            1 <= components@.len() <= MAX_BUNDLE_ARITY,
        ensures
            r.spec_components() == components@,
    {
        ComponentBundle { components }
    }

    /// The signature of this bundle.
    pub fn type_ids(&self) -> (r: Vec<u64>)
        ensures
            r@ == self.spec_type_ids(),
    {
        let n = self.components.len();
        let mut r: Vec<u64> = Vec::new();
        let mut i: usize = 0;
        while i < n
            invariant
                i <= n,
                n == self.spec_components().len(),
                r@.len() == i,
                forall|k: int| 0 <= k < i ==> r@[k] == self.spec_type_ids()[k],
            decreases n - i,
        {
            r.push(self.components[i].metadata.type_id);
            i += 1;
        }
        proof {
            assert(r@ =~= self.spec_type_ids());
        }
        r
    }

    /// The per-component metadata; used when an archetype for this
    /// signature does not exist yet.
    pub fn metadata(&self) -> (r: Vec<TypeMetadata>)
        ensures
            r@ == self.spec_metadata(),
    {
        let n = self.components.len();
        let mut r: Vec<TypeMetadata> = Vec::new();
        let mut i: usize = 0;
        while i < n
            invariant
                i <= n,
                n == self.spec_components().len(),
                r@.len() == i,
                forall|k: int| 0 <= k < i ==> r@[k] == self.spec_metadata()[k],
            decreases n - i,
        {
            r.push(self.components[i].metadata);
            i += 1;
        }
        proof {
            assert(r@ =~= self.spec_metadata());
        }
        r
    }

    /// Writes each component into its column at row `data_index`: component
    /// `t` of the tuple goes to column `t`.  Every other slot keeps its
    /// bytes.
    pub fn write_into(&self, archetype: &mut Archetype, data_index: usize)
        requires
            self.valid(),
            old(archetype).wf(),
            old(archetype).types() == self.spec_metadata(),
            data_index < old(archetype).cap(),
        ensures
            final(archetype).wf(),
            final(archetype).types() == old(archetype).types(),
            final(archetype).cap() == old(archetype).cap(),
            final(archetype).count() == old(archetype).count(),
            final(archetype).entities() == old(archetype).entities(),
            forall|t: int|
                0 <= t < self.spec_components().len() ==> final(archetype).slot(
                    t,
                    data_index as int,
                ) == self.spec_bytes()[t],
            forall|t: int, r: int|
                0 <= t < old(archetype).types().len() && 0 <= r < old(archetype).cap() && r
                    != data_index ==> final(archetype).slot(t, r) == old(archetype).slot(t, r),
    {
        let n = self.components.len();
        let mut t: usize = 0;
        while t < n
            invariant
                t <= n,
                n == self.spec_components().len(),
                self.valid(),
                archetype.wf(),
                archetype.types() == old(archetype).types(),
                archetype.types() == self.spec_metadata(),
                archetype.cap() == old(archetype).cap(),
                archetype.count() == old(archetype).count(),
                archetype.entities() == old(archetype).entities(),
                data_index < archetype.cap(),
                forall|c: int|
                    0 <= c < t ==> #[trigger] archetype.slot(c, data_index as int)
                        == self.spec_bytes()[c],
                forall|c: int, r: int|
                    0 <= c < n && 0 <= r < archetype.cap() && r != data_index
                        ==> #[trigger] archetype.slot(c, r) == old(archetype).slot(c, r),
            decreases n - t,
        {
            archetype.write_component(t, data_index, &self.components[t].bytes);
            t += 1;
        }
    }

    /// Reads back every column of the entity's row, in signature order.
    pub fn read_entity(archetype: &Archetype, entity: Entity) -> (r: Vec<Vec<u8>>)
        requires
            archetype.wf(),
            archetype.has_entity(entity),
        ensures
            rows_view(r@) == archetype.row(archetype.row_of(entity)),
    {
        proof {
            lemma_wf_counts(*archetype);
        }
        let row = archetype.data_index_for_entity(entity);
        let n = archetype.type_count();
        let mut r: Vec<Vec<u8>> = Vec::new();
        let mut t: usize = 0;
        while t < n
            invariant
                t <= n,
                n == archetype.types().len(),
                archetype.wf(),
                row < archetype.count(),
                archetype.count() <= archetype.cap(),
                row as int == archetype.row_of(entity),
                r@.len() == t,
                forall|c: int| 0 <= c < t ==> #[trigger] r@[c]@ == archetype.slot(c, row as int),
            decreases n - t,
        {
            r.push(archetype.read_component(t, row));
            t += 1;
        }
        proof {
            assert(rows_view(r@) =~= archetype.row(archetype.row_of(entity)));
        }
        r
    }
}

} // verus!
