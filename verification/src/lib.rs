//! An archetype-based entity-component storage engine.
//!
//! Entities are opaque integer ids handed out in increasing order, starting
//! at 1.  Each entity owns a bundle of components: plain byte payloads tagged
//! with a runtime type identity plus size and alignment metadata.  Entities
//! sharing one exact signature (the declaration-ordered list of component
//! type identities) live together in an [`archetype::Archetype`], which lays
//! their data out column by column inside one contiguous buffer.
//!
//! The crate root holds the archetype-based [`Ecs`].  The [`ecs`] module
//! holds an earlier, simpler storage model that keeps one presence bitmap
//! and one value column per component type, and supports queries and
//! deletion.

use vstd::prelude::*;

pub mod archetype;
pub mod bitset;
pub mod component_bundle;
pub mod ecs;
pub mod query;
pub mod registry;
pub mod resource_manager;
pub mod system;

use crate::archetype::{Archetype, layout_fits, lemma_layout_fits_monotone, lemma_wf_counts, sig_position};
use crate::component_bundle::{ComponentBundle, rows_view};

verus! {

/// An entity id: opaque, unique, handed out in increasing order from 1.
/// The id 0 is reserved and never assigned.
pub type Entity = usize;

/// A failure that a caller can recover from.
#[derive(Debug, PartialEq, Eq)]
pub enum EcsError {
    /// No archetype with exactly the requested signature exists.
    UnknownSignature,
}

/// No two archetypes share a signature.
pub open spec fn distinct_sigs(archs: Seq<Archetype>) -> bool {
    forall|i: int, j: int|
        0 <= i < j < archs.len() ==> (#[trigger] archs[i]).sig() != (#[trigger] archs[j]).sig()
}

/// The number of rows stored over all archetypes.
pub open spec fn total_rows(archs: Seq<Archetype>) -> int
    decreases archs.len(),
{
    if archs.len() == 0 {
        0
    } else {
        archs[0].count() + total_rows(archs.drop_first())
    }
}

/// The top-level registry: maps each signature to its archetype and assigns
/// monotonically increasing entity ids.
pub struct Ecs {
    archetypes: Vec<Archetype>,
    next_entity: Entity,
}

impl Ecs {
    /// The stored archetypes, in creation order.
    pub closed spec fn spec_archetypes(self) -> Seq<Archetype> {
        self.archetypes@
    }

    /// The id the next inserted entity will get.
    pub closed spec fn next_id(self) -> Entity {
        self.next_entity
    }

    /// How many entities were inserted.
    pub open spec fn spec_entity_count(self) -> int {
        self.next_id() - 1
    }

    /// The structural invariant: every archetype is well-formed, signatures
    /// are unique, every stored id was assigned before `next_id`, capacities
    /// follow the doubling discipline, and the rows add up to the entity
    /// count.
    pub open spec fn wf(self) -> bool {
        &&& 1 <= self.next_id()
        &&& forall|i: int|
            0 <= i < self.spec_archetypes().len() ==> (#[trigger] self.spec_archetypes()[i]).wf()
        &&& distinct_sigs(self.spec_archetypes())
        &&& forall|i: int, k: int|
            0 <= i < self.spec_archetypes().len() && 0 <= k
                < (#[trigger] self.spec_archetypes()[i]).entities().len() ==> 1
                <= #[trigger] self.spec_archetypes()[i].entities()[k] < self.next_id()
        &&& forall|i: int|
            0 <= i < self.spec_archetypes().len() ==> (#[trigger] self.spec_archetypes()[i]).cap()
                <= 2 * self.spec_archetypes()[i].count()
        &&& forall|i: int|
            0 <= i < self.spec_archetypes().len() && (#[trigger] self.spec_archetypes()[i]).count()
                == 0 ==> self.spec_archetypes()[i].cap() == 0
        &&& total_rows(self.spec_archetypes()) == self.spec_entity_count()
    }

    /// Whether an archetype with exactly this signature exists.
    pub open spec fn has_archetype(self, sig: Seq<u64>) -> bool {
        exists|i: int|
            0 <= i < self.spec_archetypes().len() && (#[trigger] self.spec_archetypes()[i]).sig()
                == sig
    }

    /// The position of the archetype with this signature.
    pub open spec fn archetype_index(self, sig: Seq<u64>) -> int {
        choose|i: int|
            0 <= i < self.spec_archetypes().len() && (#[trigger] self.spec_archetypes()[i]).sig()
                == sig
    }

    /// What the store holds for entity `id` under signature `sig`: the bytes
    /// of every column of its row, or `None` if no archetype has that exact
    /// signature or the entity does not live in it.
    pub open spec fn entity_components(self, sig: Seq<u64>, id: Entity) -> Option<Seq<Seq<u8>>> {
        if self.has_archetype(sig) && self.spec_archetypes()[self.archetype_index(sig)].has_entity(
            id,
        ) {
            let a = self.spec_archetypes()[self.archetype_index(sig)];
            Some(a.row(a.row_of(id)))
        } else {
            None
        }
    }

    /// Whether one more bundle can be taken in: the id counter can advance,
    /// the bundle agrees with its archetype's metadata if one exists, and the
    /// layout after a possible growth still fits the address space.
    pub open spec fn can_insert(self, bundle: ComponentBundle) -> bool {
        &&& self.next_id() < usize::MAX
        &&& if self.has_archetype(bundle.spec_type_ids()) {
            let a = self.spec_archetypes()[self.archetype_index(bundle.spec_type_ids())];
            &&& a.types() == bundle.spec_metadata()
            &&& a.grow_target() <= usize::MAX
            &&& layout_fits(a.types(), a.grow_target())
        } else {
            layout_fits(bundle.spec_metadata(), 1)
        }
    }

    /// Creates a new, empty store.  The first entity will get id 1.
    pub fn new() -> (r: Ecs)
        ensures
            r.wf(),
            r.next_id() == 1,
            r.spec_entity_count() == 0,
            forall|sig: Seq<u64>| !r.has_archetype(sig),
            forall|sig: Seq<u64>, id: Entity| #[trigger] r.entity_components(sig, id) is None,
    {
        Ecs { archetypes: Vec::new(), next_entity: 1 }
    }

    /// How many entities were inserted into the store.
    pub fn entity_count(&self) -> (r: usize)
        requires
            self.wf(),
        ensures
            r == self.spec_entity_count(),
    {
        self.next_entity - 1
    }

    /// The position of the archetype with signature `sig`, if one exists.
    fn find_archetype(&self, sig: &Vec<u64>) -> (r: Option<usize>)
        requires
            self.wf(),
        ensures
            match r {
                Option::Some(i) => i < self.spec_archetypes().len()
                    && self.spec_archetypes()[i as int].sig() == sig@ && self.has_archetype(sig@)
                    && i as int == self.archetype_index(sig@),
                Option::None => !self.has_archetype(sig@),
            },
    {
        let n = self.archetypes.len();
        let mut i: usize = 0;
        while i < n
            invariant
                i <= n,
                n == self.spec_archetypes().len(),
                self.wf(),
                forall|k: int| 0 <= k < i ==> (#[trigger] self.spec_archetypes()[k]).sig() != sig@,
            decreases n - i,
        {
            if self.archetypes[i].sig_matches(sig) {
                proof {
                    lemma_unique_archetype_index(*self, sig@, i as int);
                }
                return Option::Some(i);
            }
            i += 1;
        }
        proof {
            if self.has_archetype(sig@) {
                let w = self.archetype_index(sig@);
                assert(self.spec_archetypes()[w].sig() != sig@);
            }
        }
        Option::None
    }
}

/// With signatures unique, any position whose archetype carries `sig` is the
/// position that `archetype_index` names.
pub proof fn lemma_unique_archetype_index(e: Ecs, sig: Seq<u64>, w: int)
    requires
        distinct_sigs(e.spec_archetypes()),
        0 <= w < e.spec_archetypes().len(),
        e.spec_archetypes()[w].sig() == sig,
    ensures
        e.has_archetype(sig),
        e.archetype_index(sig) == w,
{
    assert(e.has_archetype(sig));
    let i = e.archetype_index(sig);
    assert(0 <= i < e.spec_archetypes().len() && e.spec_archetypes()[i].sig() == sig);
    if i < w {
        assert(e.spec_archetypes()[i].sig() != e.spec_archetypes()[w].sig());
    }
    if w < i {
        assert(e.spec_archetypes()[w].sig() != e.spec_archetypes()[i].sig());
    }
}

/// Appending an archetype adds its rows to the total.
proof fn lemma_total_rows_push(archs: Seq<Archetype>, a: Archetype)
    ensures
        total_rows(archs.push(a)) == total_rows(archs) + a.count(),
    decreases archs.len(),
{
    let p = archs.push(a);
    if archs.len() == 0 {
        assert(p.drop_first() =~= Seq::<Archetype>::empty());
        assert(total_rows(Seq::<Archetype>::empty()) == 0);
        assert(p[0] == a);
        assert(total_rows(p) == p[0].count() + total_rows(p.drop_first()));
    } else {
        assert(p.drop_first() =~= archs.drop_first().push(a));
        lemma_total_rows_push(archs.drop_first(), a);
        assert(p[0] == archs[0]);
        assert(total_rows(p) == p[0].count() + total_rows(p.drop_first()));
        assert(total_rows(archs) == archs[0].count() + total_rows(archs.drop_first()));
    }
}

/// Replacing one archetype changes the total by the difference of its rows.
proof fn lemma_total_rows_update(archs: Seq<Archetype>, i: int, a: Archetype)
    requires
        0 <= i < archs.len(),
    ensures
        total_rows(archs.update(i, a)) == total_rows(archs) - archs[i].count() + a.count(),
    decreases archs.len(),
{
    let p = archs.update(i, a);
    if i == 0 {
        assert(p.drop_first() =~= archs.drop_first());
        assert(p[0] == a);
        assert(total_rows(p) == p[0].count() + total_rows(p.drop_first()));
        assert(total_rows(archs) == archs[0].count() + total_rows(archs.drop_first()));
    } else {
        assert(p.drop_first() =~= archs.drop_first().update(i - 1, a));
        lemma_total_rows_update(archs.drop_first(), i - 1, a);
        assert(p[0] == archs[0]);
        assert(total_rows(p) == p[0].count() + total_rows(p.drop_first()));
        assert(total_rows(archs) == archs[0].count() + total_rows(archs.drop_first()));
    }
}

/// No archetype holds more rows than the total.
proof fn lemma_total_rows_component(archs: Seq<Archetype>, i: int)
    requires
        0 <= i < archs.len(),
    ensures
        archs[i].count() <= total_rows(archs),
    decreases archs.len(),
{
    assert(total_rows(archs) == archs[0].count() + total_rows(archs.drop_first()));
    if i > 0 {
        lemma_total_rows_component(archs.drop_first(), i - 1);
        assert(archs.drop_first()[i - 1] == archs[i]);
    } else {
        lemma_total_rows_nonneg(archs.drop_first());
    }
}

/// Row counts never go negative.
proof fn lemma_total_rows_nonneg(archs: Seq<Archetype>)
    ensures
        total_rows(archs) >= 0,
    decreases archs.len(),
{
    if archs.len() > 0 {
        lemma_total_rows_nonneg(archs.drop_first());
    }
}

impl Ecs {
    /// Inserts an entity built from the bundle: finds or creates the
    /// archetype for the bundle's signature, allocates a row, writes every
    /// component, and returns the assigned id.  Ids count up from 1; no
    /// previously stored entity changes.
    #[verifier::rlimit(100)]
    pub fn insert_one(&mut self, component_bundle: ComponentBundle) -> (r: Result<
        Entity,
        EcsError,
    >)
        requires
            old(self).wf(),
            component_bundle.valid(),
            old(self).can_insert(component_bundle),
        ensures
            final(self).wf(),
            r == Result::<Entity, EcsError>::Ok(old(self).next_id()),
            final(self).next_id() == old(self).next_id() + 1,
            final(self).entity_components(
                component_bundle.spec_type_ids(),
                old(self).next_id(),
            ) == Some(component_bundle.spec_bytes()),
            forall|sig: Seq<u64>, id: Entity|
                id != old(self).next_id() ==> #[trigger] final(self).entity_components(sig, id)
                    == old(self).entity_components(sig, id),
            forall|sig: Seq<u64>|
                #[trigger] final(self).has_archetype(sig) <==> (old(self).has_archetype(sig)
                    || sig == component_bundle.spec_type_ids()),
            forall|sig: Seq<u64>|
                #[trigger] old(self).has_archetype(sig)
                    ==> final(self).spec_archetypes()[final(self).archetype_index(sig)].types()
                    == old(self).spec_archetypes()[old(self).archetype_index(sig)].types(),
            final(self).spec_archetypes()[final(self).archetype_index(
                component_bundle.spec_type_ids(),
            )].types() == component_bundle.spec_metadata(),
    {
        let ghost oldecs = *old(self);
        let ghost oldarchs = old(self).spec_archetypes();
        let ghost bsig = component_bundle.spec_type_ids();
        let entity = self.next_entity;
        let sig = component_bundle.type_ids();
        let found = self.find_archetype(&sig);
        match found {
            Option::Some(idx) => {
                let ghost a1 = oldarchs[idx as int];
                let mut archetype = self.archetypes.remove(idx);
                proof {
                    assert(archetype == a1);
                    if archetype.entities().contains(entity) {
                        let w = choose|k: int|
                            0 <= k < archetype.entities().len() && archetype.entities()[k]
                                == entity;
                        assert(oldarchs[idx as int].entities()[w] < entity);
                    }
                }
                let data_index = archetype.allocate_storage_for_entity(entity);
                proof {
                    lemma_wf_counts(archetype);
                }
                let ghost amid = archetype;
                component_bundle.write_into(&mut archetype, data_index);
                let ghost a2 = archetype;
                self.archetypes.insert(idx, archetype);
                self.next_entity = self.next_entity + 1;
                proof {
                    assert forall|t: int, r: int|
                        0 <= t < a1.types().len() && 0 <= r < a1.count() implies a2.slot(t, r)
                            == a1.slot(t, r) by {
                        assert(amid.slot(t, r) == a1.slot(t, r));
                        assert(a2.slot(t, r) == amid.slot(t, r));
                    };
                    assert(self.spec_archetypes() =~= oldarchs.update(idx as int, a2));
                    lemma_insert_existing_shape(oldecs, *self, component_bundle, idx as int, a2);
                }
                Result::Ok(entity)
            },
            Option::None => {
                let metadata = component_bundle.metadata();
                proof {
                    assert forall|i: int| 0 <= i < metadata@.len() implies (#[trigger] metadata@[i]).valid() by {
                        assert(component_bundle.spec_components()[i].valid());
                    };
                }
                let mut archetype = Archetype::new(metadata);
                proof {
                    assert(archetype.sig() =~= bsig);
                    assert(archetype.grow_target() == 1);
                }
                let data_index = archetype.allocate_storage_for_entity(entity);
                proof {
                    lemma_wf_counts(archetype);
                }
                component_bundle.write_into(&mut archetype, data_index);
                let ghost a2 = archetype;
                self.archetypes.push(archetype);
                self.next_entity = self.next_entity + 1;
                proof {
                    lemma_insert_fresh_shape(oldecs, *self, component_bundle, a2);
                }
                Result::Ok(entity)
            },
        }
    }
}

/// After inserting into an existing archetype, the store is well-formed, the
/// new entity's row reads back as the bundle, and every other signature/id
/// pair reads as before.
#[verifier::rlimit(100)]
proof fn lemma_insert_existing_shape(
    pre: Ecs,
    post: Ecs,
    bundle: ComponentBundle,
    idx: int,
    a2: Archetype,
)
    requires
        pre.wf(),
        bundle.valid(),
        pre.next_id() < usize::MAX,
        0 <= idx < pre.spec_archetypes().len(),
        pre.spec_archetypes()[idx].sig() == bundle.spec_type_ids(),
        pre.spec_archetypes()[idx].types() == bundle.spec_metadata(),
        post.spec_archetypes() == pre.spec_archetypes().update(idx, a2),
        post.next_id() == pre.next_id() + 1,
        a2.wf(),
        a2.types() == pre.spec_archetypes()[idx].types(),
        a2.cap() == pre.spec_archetypes()[idx].grow_target(),
        a2.count() == pre.spec_archetypes()[idx].count() + 1,
        a2.entities() == pre.spec_archetypes()[idx].entities().push(pre.next_id()),
        forall|t: int, r: int|
            0 <= t < pre.spec_archetypes()[idx].types().len() && 0 <= r
                < pre.spec_archetypes()[idx].count() ==> a2.slot(t, r)
                == pre.spec_archetypes()[idx].slot(t, r),
        forall|t: int|
            0 <= t < bundle.spec_components().len() ==> a2.slot(
                t,
                pre.spec_archetypes()[idx].count() as int,
            ) == bundle.spec_bytes()[t],
    ensures
        post.wf(),
        post.entity_components(bundle.spec_type_ids(), pre.next_id()) == Some(
            bundle.spec_bytes(),
        ),
        forall|sig: Seq<u64>, id: Entity|
            id != pre.next_id() ==> #[trigger] post.entity_components(sig, id)
                == pre.entity_components(sig, id),
        forall|sig: Seq<u64>|
            #[trigger] post.has_archetype(sig) <==> (pre.has_archetype(sig) || sig
                == bundle.spec_type_ids()),
        forall|sig: Seq<u64>|
            #[trigger] pre.has_archetype(sig) ==> post.spec_archetypes()[post.archetype_index(
                sig,
            )].types() == pre.spec_archetypes()[pre.archetype_index(sig)].types(),
        post.spec_archetypes()[post.archetype_index(bundle.spec_type_ids())].types()
            == bundle.spec_metadata(),
{
    let a1 = pre.spec_archetypes()[idx];
    let bsig = bundle.spec_type_ids();
    let newrow = a1.count() as int;
    assert(a1.wf());
    lemma_wf_counts(a1);
    lemma_wf_counts(a2);
    assert(a2.sig() =~= a1.sig());

    // well-formedness of the whole store
    assert forall|i: int| 0 <= i < post.spec_archetypes().len() implies (
    #[trigger] post.spec_archetypes()[i]).wf() by {
        if i != idx {
            assert(post.spec_archetypes()[i] == pre.spec_archetypes()[i]);
        }
    };
    assert forall|i: int, j: int| 0 <= i < j < post.spec_archetypes().len() implies (
    #[trigger] post.spec_archetypes()[i]).sig() != (#[trigger] post.spec_archetypes()[j]).sig() by {
        assert(pre.spec_archetypes()[i].sig() != pre.spec_archetypes()[j].sig());
    };
    assert forall|i: int, k: int|
        0 <= i < post.spec_archetypes().len() && 0 <= k
            < (#[trigger] post.spec_archetypes()[i]).entities().len() implies 1
        <= #[trigger] post.spec_archetypes()[i].entities()[k] < post.next_id() by {
        if i == idx {
            if k < a1.entities().len() {
                assert(pre.spec_archetypes()[idx].entities()[k] < pre.next_id());
            } else {
                assert(a2.entities()[k] == pre.next_id());
            }
        } else {
            assert(pre.spec_archetypes()[i].entities()[k] < pre.next_id());
        }
    };
    lemma_total_rows_update(pre.spec_archetypes(), idx, a2);
    assert(post.wf());

    // the new entity reads back as the bundle
    lemma_unique_archetype_index(post, bsig, idx);
    crate::archetype::lemma_row_of_unique(a2, pre.next_id(), newrow);
    assert(a2.entities()[newrow] == pre.next_id());
    assert(a2.row(newrow) =~= bundle.spec_bytes());
    assert(post.entity_components(bsig, pre.next_id()) == Some(bundle.spec_bytes()));

    // every other signature and id reads as before
    assert forall|sig: Seq<u64>, id: Entity| id != pre.next_id() implies #[trigger] post
        .entity_components(sig, id) == pre.entity_components(sig, id) by {
        if pre.has_archetype(sig) {
            let w = pre.archetype_index(sig);
            assert(0 <= w < pre.spec_archetypes().len() && pre.spec_archetypes()[w].sig() == sig);
            assert(post.spec_archetypes()[w].sig() == sig);
            lemma_unique_archetype_index(post, sig, w);
            lemma_unique_archetype_index(pre, sig, w);
            if w == idx {
                lemma_entity_lookup_push(a1, a2, pre.next_id(), id);
            } else {
                assert(post.spec_archetypes()[w] == pre.spec_archetypes()[w]);
            }
        } else {
            if post.has_archetype(sig) {
                let w = post.archetype_index(sig);
                assert(0 <= w < post.spec_archetypes().len() && post.spec_archetypes()[w].sig()
                    == sig);
                if w == idx {
                    assert(pre.spec_archetypes()[idx].sig() == sig);
                    lemma_unique_archetype_index(pre, sig, idx);
                } else {
                    assert(pre.spec_archetypes()[w].sig() == sig);
                    lemma_unique_archetype_index(pre, sig, w);
                }
            }
        }
    };

    // the set of signatures, and each signature's column types, are kept
    assert forall|sig: Seq<u64>| #[trigger] post.has_archetype(sig) implies (pre.has_archetype(sig)
        || sig == bsig) by {
        let w = post.archetype_index(sig);
        assert(0 <= w < post.spec_archetypes().len() && post.spec_archetypes()[w].sig() == sig);
        if w != idx {
            assert(pre.spec_archetypes()[w].sig() == sig);
            lemma_unique_archetype_index(pre, sig, w);
        } else {
            assert(sig == bsig);
        }
    };
    assert forall|sig: Seq<u64>| pre.has_archetype(sig) implies #[trigger] post.has_archetype(
        sig,
    ) by {
        let w = pre.archetype_index(sig);
        assert(0 <= w < pre.spec_archetypes().len() && pre.spec_archetypes()[w].sig() == sig);
        assert(post.spec_archetypes()[w].sig() == sig);
        lemma_unique_archetype_index(post, sig, w);
    };
    assert forall|sig: Seq<u64>| #[trigger] pre.has_archetype(sig) implies post.spec_archetypes()[
    post.archetype_index(sig)].types() == pre.spec_archetypes()[pre.archetype_index(
        sig,
    )].types() by {
        let w = pre.archetype_index(sig);
        assert(0 <= w < pre.spec_archetypes().len() && pre.spec_archetypes()[w].sig() == sig);
        assert(post.spec_archetypes()[w].sig() == sig);
        lemma_unique_archetype_index(post, sig, w);
        lemma_unique_archetype_index(pre, sig, w);
    };
}

/// Pushing one fresh entity onto an archetype's entity map, with its row
/// written, leaves every other entity's lookup unchanged.
proof fn lemma_entity_lookup_push(a1: Archetype, a2: Archetype, fresh: Entity, id: Entity)
    requires
        a1.wf(),
        a2.wf(),
        id != fresh,
        !a1.entities().contains(fresh),
        a2.types() == a1.types(),
        a2.count() == a1.count() + 1,
        a2.entities() == a1.entities().push(fresh),
        forall|t: int, r: int|
            0 <= t < a1.types().len() && 0 <= r < a1.count() ==> a2.slot(t, r) == a1.slot(t, r),
    ensures
        a2.has_entity(id) == a1.has_entity(id),
        a1.has_entity(id) ==> a2.row_of(id) == a1.row_of(id) && a2.row(a1.row_of(id)) == a1.row(
            a1.row_of(id),
        ),
{
    lemma_wf_counts(a1);
    lemma_wf_counts(a2);
    if a1.has_entity(id) {
        let w = a1.row_of(id);
        assert(0 <= w < a1.entities().len() && a1.entities()[w] == id) by {
            assert(a1.entities().contains(id));
        };
        assert(a2.entities()[w] == id);
        crate::archetype::lemma_row_of_unique(a2, id, w);
        assert(a2.row(w) =~= a1.row(w));
    } else {
        if a2.has_entity(id) {
            let w = choose|k: int|
                0 <= k < a2.entities().len() && a2.entities()[k] == id;
            if w < a1.entities().len() {
                assert(a1.entities()[w] == id);
                assert(a1.entities().contains(id));
            } else {
                assert(a2.entities()[w] == fresh);
            }
        }
    }
}

/// After inserting the first entity of a fresh signature, the store is
/// well-formed, the new entity's row reads back as the bundle, and every
/// other signature/id pair reads as before.
#[verifier::rlimit(100)]
proof fn lemma_insert_fresh_shape(pre: Ecs, post: Ecs, bundle: ComponentBundle, a2: Archetype)
    requires
        pre.wf(),
        bundle.valid(),
        pre.next_id() < usize::MAX,
        !pre.has_archetype(bundle.spec_type_ids()),
        post.spec_archetypes() == pre.spec_archetypes().push(a2),
        post.next_id() == pre.next_id() + 1,
        a2.wf(),
        a2.sig() == bundle.spec_type_ids(),
        a2.types() == bundle.spec_metadata(),
        a2.cap() == 1,
        a2.count() == 1,
        a2.entities() == Seq::<Entity>::empty().push(pre.next_id()),
        forall|t: int|
            0 <= t < bundle.spec_components().len() ==> a2.slot(t, 0) == bundle.spec_bytes()[t],
    ensures
        post.wf(),
        post.entity_components(bundle.spec_type_ids(), pre.next_id()) == Some(
            bundle.spec_bytes(),
        ),
        forall|sig: Seq<u64>, id: Entity|
            id != pre.next_id() ==> #[trigger] post.entity_components(sig, id)
                == pre.entity_components(sig, id),
        forall|sig: Seq<u64>|
            #[trigger] post.has_archetype(sig) <==> (pre.has_archetype(sig) || sig
                == bundle.spec_type_ids()),
        forall|sig: Seq<u64>|
            #[trigger] pre.has_archetype(sig) ==> post.spec_archetypes()[post.archetype_index(
                sig,
            )].types() == pre.spec_archetypes()[pre.archetype_index(sig)].types(),
        post.spec_archetypes()[post.archetype_index(bundle.spec_type_ids())].types()
            == bundle.spec_metadata(),
{
    let bsig = bundle.spec_type_ids();
    let n = pre.spec_archetypes().len() as int;

    assert forall|i: int| 0 <= i < post.spec_archetypes().len() implies (
    #[trigger] post.spec_archetypes()[i]).wf() by {
        if i < n {
            assert(post.spec_archetypes()[i] == pre.spec_archetypes()[i]);
        }
    };
    assert forall|i: int, j: int| 0 <= i < j < post.spec_archetypes().len() implies (
    #[trigger] post.spec_archetypes()[i]).sig() != (#[trigger] post.spec_archetypes()[j]).sig() by {
        if j < n {
            assert(pre.spec_archetypes()[i].sig() != pre.spec_archetypes()[j].sig());
        } else {
            if post.spec_archetypes()[i].sig() == bsig {
                assert(pre.spec_archetypes()[i].sig() == bsig);
            }
        }
    };
    assert forall|i: int, k: int|
        0 <= i < post.spec_archetypes().len() && 0 <= k
            < (#[trigger] post.spec_archetypes()[i]).entities().len() implies 1
        <= #[trigger] post.spec_archetypes()[i].entities()[k] < post.next_id() by {
        if i < n {
            assert(pre.spec_archetypes()[i].entities()[k] < pre.next_id());
        } else {
            assert(a2.entities()[k] == pre.next_id());
        }
    };
    lemma_total_rows_push(pre.spec_archetypes(), a2);
    assert(post.wf());

    lemma_unique_archetype_index(post, bsig, n);
    crate::archetype::lemma_row_of_unique(a2, pre.next_id(), 0);
    assert(a2.row(0) =~= bundle.spec_bytes());
    assert(post.entity_components(bsig, pre.next_id()) == Some(bundle.spec_bytes()));

    assert forall|sig: Seq<u64>, id: Entity| id != pre.next_id() implies #[trigger] post
        .entity_components(sig, id) == pre.entity_components(sig, id) by {
        if pre.has_archetype(sig) {
            let w = pre.archetype_index(sig);
            assert(0 <= w < pre.spec_archetypes().len() && pre.spec_archetypes()[w].sig() == sig);
            assert(post.spec_archetypes()[w].sig() == sig);
            lemma_unique_archetype_index(post, sig, w);
            lemma_unique_archetype_index(pre, sig, w);
            assert(post.spec_archetypes()[w] == pre.spec_archetypes()[w]);
        } else {
            if post.has_archetype(sig) {
                let w = post.archetype_index(sig);
                assert(0 <= w < post.spec_archetypes().len() && post.spec_archetypes()[w].sig()
                    == sig);
                if w < n {
                    assert(pre.spec_archetypes()[w].sig() == sig);
                    lemma_unique_archetype_index(pre, sig, w);
                } else {
                    assert(sig == bsig);
                    if a2.has_entity(id) {
                        let k = choose|k: int|
                            0 <= k < a2.entities().len() && a2.entities()[k] == id;
                        assert(a2.entities()[k] == pre.next_id());
                    }
                }
            }
        }
    };

    // the set of signatures grows by exactly the bundle's, types are kept
    assert forall|sig: Seq<u64>| #[trigger] post.has_archetype(sig) implies (pre.has_archetype(sig)
        || sig == bsig) by {
        let w = post.archetype_index(sig);
        assert(0 <= w < post.spec_archetypes().len() && post.spec_archetypes()[w].sig() == sig);
        if w < n {
            assert(pre.spec_archetypes()[w].sig() == sig);
            lemma_unique_archetype_index(pre, sig, w);
        }
    };
    assert forall|sig: Seq<u64>| pre.has_archetype(sig) implies #[trigger] post.has_archetype(
        sig,
    ) by {
        let w = pre.archetype_index(sig);
        assert(0 <= w < pre.spec_archetypes().len() && pre.spec_archetypes()[w].sig() == sig);
        assert(post.spec_archetypes()[w].sig() == sig);
        lemma_unique_archetype_index(post, sig, w);
    };
    assert forall|sig: Seq<u64>| #[trigger] pre.has_archetype(sig) implies post.spec_archetypes()[
    post.archetype_index(sig)].types() == pre.spec_archetypes()[pre.archetype_index(
        sig,
    )].types() by {
        let w = pre.archetype_index(sig);
        assert(0 <= w < pre.spec_archetypes().len() && pre.spec_archetypes()[w].sig() == sig);
        assert(post.spec_archetypes()[w].sig() == sig);
        lemma_unique_archetype_index(post, sig, w);
        lemma_unique_archetype_index(pre, sig, w);
    };
}

impl Ecs {
    /// The stored bytes of every component of `entity`, which must live in
    /// the archetype of exactly this signature.  Fails if and only if no
    /// archetype with that signature exists.
    pub fn entity(&self, type_ids: &Vec<u64>, entity: Entity) -> (r: Result<
        Vec<Vec<u8>>,
        EcsError,
    >)
        requires
            self.wf(),
            self.has_archetype(type_ids@) ==> self.spec_archetypes()[self.archetype_index(
                type_ids@,
            )].has_entity(entity),
        ensures
            self.has_archetype(type_ids@) ==> (r matches Result::Ok(rows) && Some(
                rows_view(rows@),
            ) == self.entity_components(type_ids@, entity)),
            !self.has_archetype(type_ids@) ==> r == Result::<Vec<Vec<u8>>, EcsError>::Err(
                EcsError::UnknownSignature,
            ),
    {
        let found = self.find_archetype(type_ids);
        match found {
            Option::Some(idx) => {
                proof {
                    assert(self.spec_archetypes()[idx as int].wf());
                }
                let rows = ComponentBundle::read_entity(&self.archetypes[idx], entity);
                Result::Ok(rows)
            },
            Option::None => Result::Err(EcsError::UnknownSignature),
        }
    }

    /// Overwrites every component of `entity`, which must live in the
    /// archetype of exactly this signature, with the given bytes.  Fails if
    /// and only if no archetype with that signature exists; no other entity
    /// and no other signature changes.
    pub fn entity_mut(&mut self, type_ids: &Vec<u64>, entity: Entity, components: &Vec<Vec<u8>>)
        -> (r: Result<(), EcsError>)
        requires
            old(self).wf(),
            old(self).has_archetype(type_ids@) ==> ({
                let a = old(self).spec_archetypes()[old(self).archetype_index(type_ids@)];
                &&& a.has_entity(entity)
                &&& components@.len() == a.types().len()
                &&& forall|t: int|
                    0 <= t < a.types().len() ==> (#[trigger] components@[t])@.len()
                        == a.types()[t].size
            }),
        ensures
            final(self).wf(),
            final(self).next_id() == old(self).next_id(),
            !old(self).has_archetype(type_ids@) ==> r == Result::<(), EcsError>::Err(
                EcsError::UnknownSignature,
            ) && *final(self) == *old(self),
            old(self).has_archetype(type_ids@) ==> {
                &&& r == Result::<(), EcsError>::Ok(())
                &&& final(self).entity_components(type_ids@, entity) == Some(
                    rows_view(components@),
                )
                &&& forall|sig2: Seq<u64>, id2: Entity|
                    sig2 != type_ids@ || id2 != entity
                        ==> #[trigger] final(self).entity_components(sig2, id2)
                        == old(self).entity_components(sig2, id2)
            },
    {
        let ghost oldecs = *old(self);
        let ghost oldarchs = old(self).spec_archetypes();
        let found = self.find_archetype(type_ids);
        match found {
            Option::Some(idx) => {
                let ghost a1 = oldarchs[idx as int];
                let mut archetype = self.archetypes.remove(idx);
                proof {
                    lemma_wf_counts(archetype);
                }
                let row = archetype.data_index_for_entity(entity);
                let n = components.len();
                let mut t: usize = 0;
                while t < n
                    invariant
                        t <= n,
                        n == components@.len(),
                        n == archetype.types().len(),
                        archetype.wf(),
                        archetype.types() == a1.types(),
                        archetype.cap() == a1.cap(),
                        archetype.count() == a1.count(),
                        archetype.entities() == a1.entities(),
                        row < archetype.count(),
                        archetype.count() <= archetype.cap(),
                        row as int == a1.row_of(entity),
                        forall|k: int|
                            0 <= k < n ==> (#[trigger] components@[k])@.len()
                                == archetype.types()[k].size,
                        forall|c: int|
                            0 <= c < t ==> #[trigger] archetype.slot(c, row as int)
                                == components@[c]@,
                        forall|c: int, r2: int|
                            0 <= c < n && 0 <= r2 < archetype.cap() && r2 != row
                                ==> #[trigger] archetype.slot(c, r2) == a1.slot(c, r2),
                    decreases n - t,
                {
                    archetype.write_component(t, row, &components[t]);
                    t += 1;
                }
                let ghost a2 = archetype;
                self.archetypes.insert(idx, archetype);
                proof {
                    assert(self.spec_archetypes() =~= oldarchs.update(idx as int, a2));
                    lemma_update_row_shape(
                        oldecs,
                        *self,
                        idx as int,
                        a2,
                        type_ids@,
                        entity,
                        rows_view(components@),
                    );
                }
                Result::Ok(())
            },
            Option::None => Result::Err(EcsError::UnknownSignature),
        }
    }
}

/// Overwriting one entity's row in one archetype leaves the store
/// well-formed and every other lookup unchanged.
#[verifier::rlimit(100)]
proof fn lemma_update_row_shape(
    pre: Ecs,
    post: Ecs,
    idx: int,
    a2: Archetype,
    sig: Seq<u64>,
    id: Entity,
    rows: Seq<Seq<u8>>,
)
    requires
        pre.wf(),
        0 <= idx < pre.spec_archetypes().len(),
        pre.spec_archetypes()[idx].sig() == sig,
        pre.spec_archetypes()[idx].has_entity(id),
        post.spec_archetypes() == pre.spec_archetypes().update(idx, a2),
        post.next_id() == pre.next_id(),
        a2.wf(),
        a2.types() == pre.spec_archetypes()[idx].types(),
        a2.cap() == pre.spec_archetypes()[idx].cap(),
        a2.count() == pre.spec_archetypes()[idx].count(),
        a2.entities() == pre.spec_archetypes()[idx].entities(),
        rows.len() == pre.spec_archetypes()[idx].types().len(),
        forall|t: int|
            0 <= t < pre.spec_archetypes()[idx].types().len() ==> #[trigger] a2.slot(
                t,
                pre.spec_archetypes()[idx].row_of(id),
            ) == rows[t],
        forall|t: int, r2: int|
            0 <= t < pre.spec_archetypes()[idx].types().len() && 0 <= r2
                < pre.spec_archetypes()[idx].cap() && r2 != pre.spec_archetypes()[idx].row_of(id)
                ==> #[trigger] a2.slot(t, r2) == pre.spec_archetypes()[idx].slot(t, r2),
    ensures
        post.wf(),
        post.entity_components(sig, id) == Some(rows),
        forall|sig2: Seq<u64>, id2: Entity|
            sig2 != sig || id2 != id ==> #[trigger] post.entity_components(sig2, id2)
                == pre.entity_components(sig2, id2),
{
    let a1 = pre.spec_archetypes()[idx];
    assert(a1.wf());
    lemma_wf_counts(a1);
    lemma_wf_counts(a2);
    assert(a2.sig() =~= a1.sig());
    let w = a1.row_of(id);
    assert(0 <= w < a1.entities().len() && a1.entities()[w] == id) by {
        assert(a1.entities().contains(id));
    };

    // well-formedness
    assert forall|i: int| 0 <= i < post.spec_archetypes().len() implies (
    #[trigger] post.spec_archetypes()[i]).wf() by {
        if i != idx {
            assert(post.spec_archetypes()[i] == pre.spec_archetypes()[i]);
        }
    };
    assert forall|i: int, j: int| 0 <= i < j < post.spec_archetypes().len() implies (
    #[trigger] post.spec_archetypes()[i]).sig() != (#[trigger] post.spec_archetypes()[j]).sig() by {
        assert(pre.spec_archetypes()[i].sig() != pre.spec_archetypes()[j].sig());
    };
    assert forall|i: int, k: int|
        0 <= i < post.spec_archetypes().len() && 0 <= k
            < (#[trigger] post.spec_archetypes()[i]).entities().len() implies 1
        <= #[trigger] post.spec_archetypes()[i].entities()[k] < post.next_id() by {
        assert(pre.spec_archetypes()[i].entities()[k] < pre.next_id());
    };
    lemma_total_rows_update(pre.spec_archetypes(), idx, a2);
    assert(post.wf());

    // the overwritten entity reads back as `rows`
    lemma_unique_archetype_index(post, sig, idx);
    lemma_unique_archetype_index(pre, sig, idx);
    assert(a2.row_of(id) == w) by {
        crate::archetype::lemma_row_of_unique(a2, id, w);
    };
    assert(a2.row(w) =~= rows);
    assert(post.entity_components(sig, id) == Some(rows));

    // every other lookup is unchanged
    assert forall|sig2: Seq<u64>, id2: Entity| sig2 != sig || id2 != id implies #[trigger] post
        .entity_components(sig2, id2) == pre.entity_components(sig2, id2) by {
        if pre.has_archetype(sig2) {
            let w2 = pre.archetype_index(sig2);
            assert(0 <= w2 < pre.spec_archetypes().len() && pre.spec_archetypes()[w2].sig()
                == sig2);
            assert(post.spec_archetypes()[w2].sig() == sig2);
            lemma_unique_archetype_index(post, sig2, w2);
            lemma_unique_archetype_index(pre, sig2, w2);
            if w2 == idx {
                assert(sig2 == sig);
                assert(id2 != id);
                if a1.has_entity(id2) {
                    let r2 = a1.row_of(id2);
                    assert(0 <= r2 < a1.entities().len() && a1.entities()[r2] == id2) by {
                        assert(a1.entities().contains(id2));
                    };
                    assert(r2 != w);
                    assert(a2.row_of(id2) == r2) by {
                        crate::archetype::lemma_row_of_unique(a2, id2, r2);
                    };
                    assert(a2.row(r2) =~= a1.row(r2));
                }
            } else {
                assert(post.spec_archetypes()[w2] == pre.spec_archetypes()[w2]);
            }
        } else {
            if post.has_archetype(sig2) {
                let w2 = post.archetype_index(sig2);
                assert(0 <= w2 < post.spec_archetypes().len() && post.spec_archetypes()[w2].sig()
                    == sig2);
                if w2 == idx {
                    assert(pre.spec_archetypes()[idx].sig() == sig2);
                    lemma_unique_archetype_index(pre, sig2, idx);
                } else {
                    assert(pre.spec_archetypes()[w2].sig() == sig2);
                    lemma_unique_archetype_index(pre, sig2, w2);
                }
            }
        }
    };
}

impl Ecs {
    /// The largest capacity any single archetype can reach while the store
    /// takes in `extra` more entities.
    pub open spec fn capacity_bound(self, extra: int) -> int {
        2 * (self.spec_entity_count() + extra)
    }

    /// Inserts one entity per bundle, in order.  Ids are assigned
    /// consecutively counting up from `next_id`, and nothing stored before
    /// changes.
    #[verifier::rlimit(100)]
    pub fn insert(&mut self, component_bundles: Vec<ComponentBundle>) -> (r: Result<(), EcsError>)
        requires
            old(self).wf(),
            forall|k: int|
                0 <= k < component_bundles@.len() ==> (#[trigger] component_bundles@[k]).valid(),
            old(self).next_id() + component_bundles@.len() <= usize::MAX,
            old(self).capacity_bound(component_bundles@.len() as int) + 1 <= usize::MAX,
            forall|i: int, k: int|
                0 <= i < old(self).spec_archetypes().len() && 0 <= k < component_bundles@.len()
                    && (#[trigger] old(self).spec_archetypes()[i]).sig()
                    == (#[trigger] component_bundles@[k]).spec_type_ids() ==> old(
                    self,
                ).spec_archetypes()[i].types() == component_bundles@[k].spec_metadata(),
            forall|k1: int, k2: int|
                0 <= k1 < component_bundles@.len() && 0 <= k2 < component_bundles@.len()
                    && (#[trigger] component_bundles@[k1]).spec_type_ids()
                    == (#[trigger] component_bundles@[k2]).spec_type_ids()
                    ==> component_bundles@[k1].spec_metadata()
                    == component_bundles@[k2].spec_metadata(),
            forall|k: int|
                0 <= k < component_bundles@.len() ==> layout_fits(
                    (#[trigger] component_bundles@[k]).spec_metadata(),
                    old(self).capacity_bound(component_bundles@.len() as int) as nat,
                ),
        ensures
            final(self).wf(),
            r == Result::<(), EcsError>::Ok(()),
            final(self).next_id() == old(self).next_id() + component_bundles@.len(),
            forall|k: int|
                0 <= k < component_bundles@.len() ==> #[trigger] final(self).entity_components(
                    component_bundles@[k].spec_type_ids(),
                    (old(self).next_id() + k) as usize,
                ) == Some(component_bundles@[k].spec_bytes()),
            forall|sig: Seq<u64>, id: Entity|
                id < old(self).next_id() ==> #[trigger] final(self).entity_components(sig, id)
                    == old(self).entity_components(sig, id),
    {
        let ghost oldecs = *old(self);
        let ghost bundles0 = component_bundles@;
        let ghost bound = old(self).capacity_bound(bundles0.len() as int);
        let mut bundles = component_bundles;
        proof {
            assert(bundles@ =~= bundles0.subrange(0, bundles0.len() as int));
        }
        while bundles.len() > 0
            invariant
                self.wf(),
                bundles@.len() <= bundles0.len(),
                bundles@ == bundles0.subrange(
                    bundles0.len() - bundles@.len(),
                    bundles0.len() as int,
                ),
                self.next_id() == oldecs.next_id() + (bundles0.len() - bundles@.len()),
                oldecs.next_id() >= 1,
                oldecs.next_id() + bundles0.len() <= usize::MAX,
                bound == 2 * (oldecs.next_id() - 1 + bundles0.len()),
                bound + 1 <= usize::MAX,
                forall|k: int| 0 <= k < bundles0.len() ==> (#[trigger] bundles0[k]).valid(),
                forall|k1: int, k2: int|
                    0 <= k1 < bundles0.len() && 0 <= k2 < bundles0.len() && (
                    #[trigger] bundles0[k1]).spec_type_ids()
                        == (#[trigger] bundles0[k2]).spec_type_ids()
                        ==> bundles0[k1].spec_metadata() == bundles0[k2].spec_metadata(),
                forall|k: int|
                    0 <= k < bundles0.len() ==> layout_fits(
                        (#[trigger] bundles0[k]).spec_metadata(),
                        bound as nat,
                    ),
                forall|i: int, k: int|
                    0 <= i < self.spec_archetypes().len() && 0 <= k < bundles0.len() && (
                    #[trigger] self.spec_archetypes()[i]).sig() == (
                    #[trigger] bundles0[k]).spec_type_ids() ==> self.spec_archetypes()[i].types()
                        == bundles0[k].spec_metadata(),
                forall|k: int|
                    0 <= k < bundles0.len() - bundles@.len()
                        ==> #[trigger] self.entity_components(
                        bundles0[k].spec_type_ids(),
                        (oldecs.next_id() + k) as usize,
                    ) == Some(bundles0[k].spec_bytes()),
                forall|sig: Seq<u64>, id: Entity|
                    id < oldecs.next_id() ==> #[trigger] self.entity_components(sig, id)
                        == oldecs.entity_components(sig, id),
            decreases bundles@.len(),
        {
            let ghost done = bundles0.len() - bundles@.len();
            let bundle = bundles.remove(0);
            proof {
                assert(bundle == bundles0[done as int]);
                assert(bundles@ =~= bundles0.subrange(done as int + 1, bundles0.len() as int));
                let bsig = bundle.spec_type_ids();
                if self.has_archetype(bsig) {
                    let w = self.archetype_index(bsig);
                    assert(0 <= w < self.spec_archetypes().len() && self.spec_archetypes()[w].sig()
                        == bsig);
                    let a = self.spec_archetypes()[w];
                    assert(a.wf());
                    lemma_wf_counts(a);
                    lemma_total_rows_component(self.spec_archetypes(), w);
                    assert(a.count() <= self.spec_entity_count());
                    assert(a.grow_target() <= bound);
                    lemma_layout_fits_monotone(a.types(), a.grow_target(), bound as nat);
                } else {
                    assert(bundle.valid());
                    assert forall|i: int|
                        0 <= i < bundle.spec_metadata().len() implies (
                    #[trigger] bundle.spec_metadata()[i]).valid() by {
                        assert(bundle.spec_components()[i].valid());
                    };
                    lemma_layout_fits_monotone(bundle.spec_metadata(), 1, bound as nat);
                }
            }
            let ghost pre = *self;
            let insert_result = self.insert_one(bundle);
            proof {
                assert forall|i: int, k: int|
                    0 <= i < self.spec_archetypes().len() && 0 <= k < bundles0.len() && (
                #[trigger] self.spec_archetypes()[i]).sig() == (
                #[trigger] bundles0[k]).spec_type_ids() implies self.spec_archetypes()[i].types()
                    == bundles0[k].spec_metadata() by {
                    let sig_i = self.spec_archetypes()[i].sig();
                    lemma_unique_archetype_index(*self, sig_i, i);
                    if pre.has_archetype(sig_i) {
                        let wp = pre.archetype_index(sig_i);
                        assert(0 <= wp < pre.spec_archetypes().len()
                            && pre.spec_archetypes()[wp].sig() == sig_i);
                        assert(self.spec_archetypes()[i].types()
                            == pre.spec_archetypes()[wp].types());
                        assert(pre.spec_archetypes()[wp].types() == bundles0[k].spec_metadata());
                    } else {
                        assert(sig_i == bundle.spec_type_ids());
                        assert(self.spec_archetypes()[i].types() == bundle.spec_metadata());
                        assert(bundles0[done as int].spec_type_ids()
                            == bundles0[k].spec_type_ids());
                        assert(bundles0[done as int].spec_metadata()
                            == bundles0[k].spec_metadata());
                    }
                };
                assert forall|k: int|
                    0 <= k < bundles0.len() - bundles@.len() implies #[trigger] self
                    .entity_components(
                    bundles0[k].spec_type_ids(),
                    (oldecs.next_id() + k) as usize,
                ) == Some(bundles0[k].spec_bytes()) by {
                    if k < done {
                        assert((oldecs.next_id() + k) as usize != pre.next_id());
                        assert(pre.entity_components(
                            bundles0[k].spec_type_ids(),
                            (oldecs.next_id() + k) as usize,
                        ) == Some(bundles0[k].spec_bytes()));
                    } else {
                        assert(k == done);
                        assert((oldecs.next_id() + k) as usize == pre.next_id());
                    }
                };
                assert forall|sig: Seq<u64>, id: Entity|
                    id < oldecs.next_id() implies #[trigger] self.entity_components(sig, id)
                    == oldecs.entity_components(sig, id) by {
                    assert(id != pre.next_id());
                    assert(pre.entity_components(sig, id) == oldecs.entity_components(sig, id));
                };
            }
        }
        Result::Ok(())
    }
}

/// The stored values of one archetype's first column of the given type,
/// row by row.
pub open spec fn column_view(a: Archetype, type_id: u64) -> Seq<Seq<u8>> {
    Seq::new(a.count(), |r: int| a.slot(sig_position(a.sig(), type_id), r))
}

/// The concatenation, archetype by archetype, of every column of the given
/// type, skipping archetypes whose signature lacks it.
pub open spec fn fetch_view(archs: Seq<Archetype>, type_id: u64) -> Seq<Seq<u8>>
    decreases archs.len(),
{
    if archs.len() == 0 {
        Seq::empty()
    } else {
        (if archs[0].sig().contains(type_id) {
            column_view(archs[0], type_id)
        } else {
            Seq::empty()
        }) + fetch_view(archs.drop_first(), type_id)
    }
}

/// Extending the walked prefix by one archetype appends that archetype's
/// contribution.
proof fn lemma_fetch_view_snoc(archs: Seq<Archetype>, type_id: u64, i: int)
    requires
        0 <= i < archs.len(),
    ensures
        fetch_view(archs.take(i + 1), type_id) == fetch_view(archs.take(i), type_id) + (
        if archs[i].sig().contains(type_id) {
            column_view(archs[i], type_id)
        } else {
            Seq::<Seq<u8>>::empty()
        }),
    decreases i,
{
    let added = if archs[i].sig().contains(type_id) {
        column_view(archs[i], type_id)
    } else {
        Seq::<Seq<u8>>::empty()
    };
    if i == 0 {
        assert(archs.take(1).drop_first() =~= Seq::<Archetype>::empty());
        assert(fetch_view(Seq::<Archetype>::empty(), type_id) == Seq::<Seq<u8>>::empty());
        assert(archs.take(1)[0] == archs[0]);
        assert(fetch_view(archs.take(1), type_id) == added + fetch_view(
            archs.take(1).drop_first(),
            type_id,
        ));
        assert(fetch_view(archs.take(0), type_id) == Seq::<Seq<u8>>::empty());
        assert(added + Seq::<Seq<u8>>::empty() =~= added);
        assert(Seq::<Seq<u8>>::empty() + added =~= added);
    } else {
        let rest = archs.drop_first();
        assert(archs.take(i + 1).drop_first() =~= rest.take(i));
        assert(archs.take(i).drop_first() =~= rest.take(i - 1));
        assert(rest[i - 1] == archs[i]);
        lemma_fetch_view_snoc(rest, type_id, i - 1);
        let head = if archs[0].sig().contains(type_id) {
            column_view(archs[0], type_id)
        } else {
            Seq::<Seq<u8>>::empty()
        };
        assert(archs.take(i + 1)[0] == archs[0]);
        assert(archs.take(i)[0] == archs[0]);
        assert(fetch_view(archs.take(i + 1), type_id) == head + fetch_view(
            rest.take(i),
            type_id,
        ));
        assert(fetch_view(archs.take(i), type_id) == head + fetch_view(
            rest.take(i - 1),
            type_id,
        ));
        assert(head + (fetch_view(rest.take(i - 1), type_id) + added) =~= (head + fetch_view(
            rest.take(i - 1),
            type_id,
        )) + added);
    }
}

impl Ecs {
    /// All stored values of component `type_id`, concatenated archetype by
    /// archetype and row by row; archetypes whose signature lacks the type
    /// contribute nothing.
    pub fn fetch(&self, type_id: u64) -> (r: Vec<Vec<u8>>)
        requires
            self.wf(),
        ensures
            rows_view(r@) == fetch_view(self.spec_archetypes(), type_id),
    {
        let ghost archs = self.spec_archetypes();
        let n = self.archetypes.len();
        let mut result: Vec<Vec<u8>> = Vec::new();
        let mut i: usize = 0;
        proof {
            assert(archs.take(0) =~= Seq::<Archetype>::empty());
            assert(rows_view(result@) =~= fetch_view(archs.take(0), type_id));
        }
        while i < n
            invariant
                i <= n,
                n == archs.len(),
                archs == self.spec_archetypes(),
                self.wf(),
                rows_view(result@) == fetch_view(archs.take(i as int), type_id),
            decreases n - i,
        {
            proof {
                assert(self.spec_archetypes()[i as int].wf());
            }
            if self.archetypes[i].match_component(type_id) {
                let mut it = self.archetypes[i].fetch(type_id);
                let ghost items = it.spec_items();
                proof {
                    assert(items =~= column_view(archs[i as int], type_id));
                }
                loop
                    invariant_except_break
                        it.spec_items() == items,
                        it.spec_pos() <= items.len(),
                        rows_view(result@) == fetch_view(archs.take(i as int), type_id)
                            + items.take(it.spec_pos() as int),
                    ensures
                        rows_view(result@) == fetch_view(archs.take(i as int), type_id) + items,
                    decreases items.len() - it.spec_pos(),
                {
                    let ghost prevpos = it.spec_pos();
                    let ghost prev = result@;
                    let nxt = it.next();
                    match nxt {
                        Option::Some(value) => {
                            result.push(value);
                            proof {
                                assert(rows_view(result@) =~= rows_view(prev).push(
                                    items[prevpos as int],
                                ));
                                assert(items.take(prevpos as int + 1) =~= items.take(
                                    prevpos as int,
                                ).push(items[prevpos as int]));
                                assert((fetch_view(archs.take(i as int), type_id) + items.take(
                                    prevpos as int,
                                )).push(items[prevpos as int]) =~= fetch_view(
                                    archs.take(i as int),
                                    type_id,
                                ) + items.take(prevpos as int + 1));
                            }
                        },
                        Option::None => {
                            proof {
                                assert(items.take(it.spec_pos() as int) =~= items);
                            }
                            break;
                        },
                    }
                }
            }
            proof {
                lemma_fetch_view_snoc(archs, type_id, i as int);
                if !archs[i as int].sig().contains(type_id) {
                    assert(fetch_view(archs.take(i as int + 1), type_id) =~= fetch_view(
                        archs.take(i as int),
                        type_id,
                    ));
                }
            }
            i += 1;
        }
        proof {
            assert(archs.take(n as int) =~= archs);
        }
        result
    }
}

/// One `insert_one` call, seen through its contract: the returned id is the
/// state's `next_id`, and the counter advances by one.
pub open spec fn insert_step(pre: Ecs, post: Ecs, id: Entity) -> bool {
    &&& id == pre.next_id()
    &&& post.next_id() == pre.next_id() + 1
}

/// Along a chain of `insert_step`s the id counter counts up one by one.
proof fn lemma_chain_next_id(states: Seq<Ecs>, ids: Seq<Entity>, k: int)
    requires
        states.len() == ids.len() + 1,
        states[0].next_id() == 1,
        forall|j: int| 0 <= j < ids.len() ==> #[trigger] insert_step(states[j], states[j + 1], ids[j]),
        0 <= k <= ids.len(),
    ensures
        states[k].next_id() == k + 1,
    decreases k,
{
    if k > 0 {
        lemma_chain_next_id(states, ids, k - 1);
        assert(insert_step(states[k - 1], states[k], ids[k - 1]));
    }
}

/// For any sequence of `insert_one` calls starting from a fresh store, the
/// returned ids are exactly 1, 2, 3, ... in call order — strictly increasing
/// from 1 — and afterwards the store holds exactly as many entities as calls
/// were made.  `insert_step` is what `insert_one`'s contract guarantees of
/// each call.
pub proof fn lemma_insert_ids_count_up(states: Seq<Ecs>, ids: Seq<Entity>)
    requires
        states.len() == ids.len() + 1,
        states[0].next_id() == 1,
        forall|j: int| 0 <= j < ids.len() ==> #[trigger] insert_step(states[j], states[j + 1], ids[j]),
    ensures
        forall|j: int| 0 <= j < ids.len() ==> ids[j] == j + 1,
        forall|j1: int, j2: int| 0 <= j1 < j2 < ids.len() ==> ids[j1] < ids[j2],
        states.last().spec_entity_count() == ids.len(),
{
    assert forall|j: int| 0 <= j < ids.len() implies ids[j] == j + 1 by {
        lemma_chain_next_id(states, ids, j);
        assert(insert_step(states[j], states[j + 1], ids[j]));
    };
    lemma_chain_next_id(states, ids, ids.len() as int);
    assert(states.last() == states[ids.len() as int]);
}

/// Round trip: once a store holds `bytes` for `id` under `sig` — as
/// `insert_one` and `entity_mut` ensure for what they stored — any result
/// that `entity`'s contract admits for `sig` and `id` is `Ok` and carries
/// exactly `bytes`.
pub proof fn lemma_round_trip(
    e: Ecs,
    sig: Seq<u64>,
    id: Entity,
    bytes: Seq<Seq<u8>>,
    r: Result<Vec<Vec<u8>>, EcsError>,
)
    requires
        e.entity_components(sig, id) == Some(bytes),
        e.has_archetype(sig) ==> (r matches Result::Ok(rows) && Some(rows_view(rows@))
            == e.entity_components(sig, id)),
        !e.has_archetype(sig) ==> r == Result::<Vec<Vec<u8>>, EcsError>::Err(
            EcsError::UnknownSignature,
        ),
    ensures
        r matches Result::Ok(rows) && rows_view(rows@) == bytes,
{
    if !e.has_archetype(sig) {
        assert(e.entity_components(sig, id) is None);
    }
}

} // verus!
