//! Column-major, type-erased storage for all entities sharing one signature.
//!
//! An [`Archetype`] owns one contiguous byte buffer, subdivided into one
//! column per component type of its signature.  Each column starts at an
//! offset rounded up to its type's alignment and holds `capacity` slots of
//! `size` bytes.  The buffer grows geometrically (0 to 1, then doubling)
//! whenever a new row is needed and none remains; growth copies every
//! column's used bytes and never disturbs previously written rows.

use vstd::prelude::*;
use vstd::arithmetic::div_mod::{
    lemma_fundamental_div_mod, lemma_mod_bound, lemma_mod_multiples_basic, lemma_small_mod,
    lemma_sub_mod_noop,
};
use vstd::arithmetic::mul::{
    lemma_mul_inequality, lemma_mul_is_commutative, lemma_mul_is_distributive_add_other_way,
    lemma_mul_nonnegative,
};
use crate::Entity;

verus! {

/// Round `value` up to the nearest multiple of `alignment`.
pub open spec fn round_up(value: int, alignment: int) -> int
    recommends
        alignment >= 1,
{
    if value % alignment == 0 {
        value
    } else {
        value + alignment - value % alignment
    }
}

/// `round_up` never moves a value down, and by less than one alignment unit.
pub proof fn lemma_round_up_bounds(value: int, alignment: int)
    requires
        alignment >= 1,
        value >= 0,
    ensures
        value <= round_up(value, alignment) < value + alignment,
        round_up(value, alignment) % alignment == 0,
{
    lemma_mod_bound(value, alignment);
    if value % alignment != 0 {
        let quotient = value / alignment;
        assert(round_up(value, alignment) == (quotient + 1) * alignment) by {
            lemma_fundamental_div_mod(value, alignment);
            assert((quotient + 1) * alignment == quotient * alignment + alignment)
                by (nonlinear_arith);
        };
        lemma_mod_multiples_basic(quotient + 1, alignment);
    }
}

/// Round `value` up to the nearest multiple of `alignment`.
pub fn align_value(value: usize, alignment: usize) -> (r: usize)
    requires
        alignment >= 1,
        value + alignment - 1 <= usize::MAX,
    ensures
        r == round_up(value as int, alignment as int),
        value <= r < value + alignment,
        r as int % alignment as int == 0,
{
    proof {
        lemma_round_up_bounds(value as int, alignment as int);
    }
    let remainder = value % alignment;
    if remainder == 0 {
        value
    } else {
        value + (alignment - remainder)
    }
}

/// What the storage engine knows of a component type: its byte size, its
/// alignment, and a process-wide unique runtime type identity.
#[derive(Clone, Copy)]
pub struct TypeMetadata {
    pub size: usize,
    pub align: usize,
    pub type_id: u64,
}

impl TypeMetadata {
    /// An alignment of zero has no meaning; every valid type has align >= 1.
    pub open spec fn valid(self) -> bool {
        self.align >= 1
    }
}

/// Every type of a signature carries a usable alignment.
pub open spec fn valid_types(types: Seq<TypeMetadata>) -> bool {
    forall|i: int| 0 <= i < types.len() ==> (#[trigger] types[i]).valid()
}

/// The number of buffer bytes consumed by the first `count` columns, for the
/// given slot capacity: each column starts at the running total rounded up to
/// its alignment and holds `capacity` slots of `size` bytes.
pub open spec fn layout_end(types: Seq<TypeMetadata>, capacity: nat, count: int) -> int
    decreases count,
{
    if count <= 0 {
        0
    } else {
        round_up(layout_end(types, capacity, count - 1), types[count - 1].align as int)
            + types[count - 1].size * capacity
    }
}

/// The byte offset of column `i` inside the buffer.
pub open spec fn col_offset(types: Seq<TypeMetadata>, capacity: nat, i: int) -> int {
    round_up(layout_end(types, capacity, i), types[i].align as int)
}

/// The whole layout, and every intermediate alignment step, stays within the
/// address space.
pub open spec fn layout_fits(types: Seq<TypeMetadata>, capacity: nat) -> bool {
    &&& layout_end(types, capacity, types.len() as int) <= usize::MAX
    &&& forall|i: int|
        0 <= i < types.len() ==> layout_end(types, capacity, i) + (#[trigger] types[i]).align
            <= usize::MAX
}

/// Basic shape of the layout: ends are non-negative, each column starts at
/// or after the previous running total, and spans exactly up to the next.
pub proof fn lemma_layout_props(types: Seq<TypeMetadata>, capacity: nat, count: int)
    requires
        valid_types(types),
        0 <= count <= types.len(),
    ensures
        layout_end(types, capacity, count) >= 0,
        forall|i: int|
            0 <= i < count ==> #[trigger] col_offset(types, capacity, i) >= layout_end(
                types,
                capacity,
                i,
            ) >= 0,
        forall|i: int|
            0 <= i < count ==> #[trigger] col_offset(types, capacity, i) + types[i].size * capacity
                == layout_end(types, capacity, i + 1),
        forall|i: int|
            0 <= i < count ==> layout_end(types, capacity, i) <= #[trigger] layout_end(
                types,
                capacity,
                i + 1,
            ),
    decreases count,
{
    if count > 0 {
        lemma_layout_props(types, capacity, count - 1);
        lemma_round_up_bounds(
            layout_end(types, capacity, count - 1),
            types[count - 1].align as int,
        );
        lemma_mul_nonnegative(types[count - 1].size as int, capacity as int);
    }
}

/// Later layout ends never come before earlier ones.
pub proof fn lemma_layout_ordered(types: Seq<TypeMetadata>, capacity: nat, i: int, j: int)
    requires
        valid_types(types),
        0 <= i <= j <= types.len(),
    ensures
        layout_end(types, capacity, i) <= layout_end(types, capacity, j),
    decreases j - i,
{
    if i < j {
        lemma_layout_props(types, capacity, j);
        lemma_layout_ordered(types, capacity, i, j - 1);
    }
}

/// With no slots allocated, every column collapses to offset 0 and the
/// buffer is empty.
pub proof fn lemma_layout_zero_capacity(types: Seq<TypeMetadata>, count: int)
    requires
        valid_types(types),
        0 <= count <= types.len(),
    ensures
        forall|i: int| 0 <= i <= count ==> #[trigger] layout_end(types, 0, i) == 0,
        forall|i: int| 0 <= i < count ==> #[trigger] col_offset(types, 0, i) == 0,
    decreases count,
{
    if count > 0 {
        lemma_layout_zero_capacity(types, count - 1);
        lemma_small_mod(0, types[count - 1].align as nat);
        assert(round_up(0, types[count - 1].align as int) == 0);
        assert(types[count - 1].size * 0 == 0) by (nonlinear_arith);
        assert(layout_end(types, 0, count) == round_up(
            layout_end(types, 0, count - 1),
            types[count - 1].align as int,
        ) + types[count - 1].size * 0);
        assert(layout_end(types, 0, count) == 0);
    }
}

/// The first byte of slot `r` of column `t`.
pub open spec fn slot_start(types: Seq<TypeMetadata>, capacity: nat, t: int, r: int) -> int {
    col_offset(types, capacity, t) + r * types[t].size
}

/// Every slot lies inside its column's span of the buffer.
pub proof fn lemma_slot_in_bounds(types: Seq<TypeMetadata>, capacity: nat, t: int, r: int)
    requires
        valid_types(types),
        0 <= t < types.len(),
        0 <= r < capacity,
    ensures
        0 <= col_offset(types, capacity, t) <= slot_start(types, capacity, t, r),
        slot_start(types, capacity, t, r) + types[t].size <= col_offset(types, capacity, t)
            + capacity * types[t].size,
        col_offset(types, capacity, t) + capacity * types[t].size == layout_end(
            types,
            capacity,
            t + 1,
        ),
        layout_end(types, capacity, t + 1) <= layout_end(types, capacity, types.len() as int),
{
    let size = types[t].size as int;
    lemma_layout_props(types, capacity, types.len() as int);
    lemma_layout_ordered(types, capacity, t + 1, types.len() as int);
    lemma_mul_nonnegative(r, size);
    lemma_mul_is_distributive_add_other_way(size, r, 1);
    lemma_mul_inequality(r + 1, capacity as int, size);
    lemma_mul_is_commutative(capacity as int, size);
}

/// Two distinct slots never overlap: one ends at or before the other starts.
pub proof fn lemma_slots_disjoint(
    types: Seq<TypeMetadata>,
    capacity: nat,
    t1: int,
    r1: int,
    t2: int,
    r2: int,
)
    requires
        valid_types(types),
        0 <= t1 < types.len(),
        0 <= t2 < types.len(),
        0 <= r1 < capacity,
        0 <= r2 < capacity,
        t1 != t2 || r1 != r2,
    ensures
        slot_start(types, capacity, t1, r1) + types[t1].size <= slot_start(types, capacity, t2, r2)
            || slot_start(types, capacity, t2, r2) + types[t2].size <= slot_start(
            types,
            capacity,
            t1,
            r1,
        ),
{
    let s1 = types[t1].size as int;
    let s2 = types[t2].size as int;
    lemma_layout_props(types, capacity, types.len() as int);
    if t1 == t2 {
        if r1 < r2 {
            lemma_mul_is_distributive_add_other_way(s1, r1, 1);
            lemma_mul_inequality(r1 + 1, r2, s1);
        } else {
            lemma_mul_is_distributive_add_other_way(s1, r2, 1);
            lemma_mul_inequality(r2 + 1, r1, s1);
        }
    } else if t1 < t2 {
        lemma_mul_is_distributive_add_other_way(s1, r1, 1);
        lemma_mul_inequality(r1 + 1, capacity as int, s1);
        lemma_mul_is_commutative(capacity as int, s1);
        lemma_layout_ordered(types, capacity, t1 + 1, t2);
        lemma_mul_nonnegative(r2, s2);
    } else {
        lemma_mul_is_distributive_add_other_way(s2, r2, 1);
        lemma_mul_inequality(r2 + 1, capacity as int, s2);
        lemma_mul_is_commutative(capacity as int, s2);
        lemma_layout_ordered(types, capacity, t2 + 1, t1);
        lemma_mul_nonnegative(r1, s1);
    }
}

/// Column-major storage for every entity sharing one exact signature: one
/// contiguous buffer, one column per component type, plus an entity-to-row
/// map.  Rows are stable for the archetype's lifetime.
pub struct Archetype {
    data: Vec<u8>,
    capacity: usize,
    entity_count: usize,
    types_metadata: Vec<TypeMetadata>,
    type_offsets: Vec<usize>,
    stored_entities: Vec<Entity>,
}

impl Archetype {
    /// The per-column type metadata, in signature order.
    pub closed spec fn types(self) -> Seq<TypeMetadata> {
        self.types_metadata@
    }

    /// The signature: the declaration-ordered list of component type ids.
    pub open spec fn sig(self) -> Seq<u64> {
        Seq::new(self.types().len(), |i: int| self.types()[i].type_id)
    }

    /// How many rows the buffer can hold before it must grow.
    pub closed spec fn cap(self) -> nat {
        self.capacity as nat
    }

    /// How many rows are in use.
    pub closed spec fn count(self) -> nat {
        self.entity_count as nat
    }

    /// The entity stored at each used row, in row order.
    pub closed spec fn entities(self) -> Seq<Entity> {
        self.stored_entities@
    }

    /// The bytes of the slot of column `t`, row `r`.
    pub closed spec fn slot(self, t: int, r: int) -> Seq<u8> {
        self.data@.subrange(
            slot_start(self.types(), self.cap(), t, r),
            slot_start(self.types(), self.cap(), t, r) + self.types()[t].size,
        )
    }

    /// The bytes of every column of row `r`, in signature order.
    pub open spec fn row(self, r: int) -> Seq<Seq<u8>> {
        Seq::new(self.types().len(), |t: int| self.slot(t, r))
    }

    /// The structural invariant: offsets and buffer length agree with the
    /// layout of the current capacity, every used row holds one distinct
    /// entity, and the layout stays within the address space.
    pub closed spec fn wf(self) -> bool {
        &&& valid_types(self.types())
        &&& layout_fits(self.types(), self.cap())
        &&& self.type_offsets@.len() == self.types().len()
        &&& forall|i: int|
            0 <= i < self.types().len() ==> self.type_offsets@[i] == col_offset(
                self.types(),
                self.cap(),
                i,
            )
        &&& self.data@.len() == layout_end(self.types(), self.cap(), self.types().len() as int)
        &&& self.stored_entities@.len() == self.count()
        &&& self.count() <= self.cap()
        &&& forall|r1: int, r2: int|
            0 <= r1 < r2 < self.entities().len() ==> self.entities()[r1] != self.entities()[r2]
    }

    /// Records the column order; allocates nothing yet.
    pub fn new(types_metadata: Vec<TypeMetadata>) -> (r: Archetype)
        requires
            valid_types(types_metadata@),
        ensures
            r.wf(),
            r.types() == types_metadata@,
            r.cap() == 0,
            r.count() == 0,
            r.entities() == Seq::<Entity>::empty(),
    {
        let length = types_metadata.len();
        proof {
            lemma_layout_zero_capacity(types_metadata@, length as int);
        }
        let mut type_offsets: Vec<usize> = Vec::new();
        let mut i: usize = 0;
        while i < length
            invariant
                i <= length,
                type_offsets@.len() == i,
                forall|k: int| 0 <= k < i ==> type_offsets@[k] == 0,
            decreases length - i,
        {
            type_offsets.push(0);
            i += 1;
        }
        Archetype {
            data: Vec::new(),
            capacity: 0,
            entity_count: 0,
            types_metadata,
            type_offsets,
            stored_entities: Vec::new(),
        }
    }

    /// The buffer size and the column offsets that the given capacity needs.
    fn compute_required_size_for_capacity(&self, capacity: usize) -> (r: (usize, Vec<usize>))
        requires
            valid_types(self.types()),
            layout_fits(self.types(), capacity as nat),
        ensures
            r.0 == layout_end(self.types(), capacity as nat, self.types().len() as int),
            r.1@.len() == self.types().len(),
            forall|i: int|
                0 <= i < self.types().len() ==> r.1@[i] == col_offset(
                    self.types(),
                    capacity as nat,
                    i,
                ),
    {
        let ghost types = self.types();
        let ghost gcap = capacity as nat;
        let length = self.types_metadata.len();
        let mut size: usize = 0;
        let mut type_offsets: Vec<usize> = Vec::new();
        let mut i: usize = 0;
        while i < length
            invariant
                i <= length,
                length == types.len(),
                types == self.types(),
                gcap == capacity as nat,
                valid_types(types),
                layout_fits(types, gcap),
                size == layout_end(types, gcap, i as int),
                type_offsets@.len() == i,
                forall|k: int| 0 <= k < i ==> type_offsets@[k] == col_offset(types, gcap, k),
            decreases length - i,
        {
            proof {
                lemma_layout_props(types, gcap, i as int + 1);
                lemma_layout_ordered(types, gcap, i as int + 1, length as int);
            }
            let metadata_align = self.types_metadata[i].align;
            let metadata_size = self.types_metadata[i].size;
            let aligned = align_value(size, metadata_align);
            type_offsets.push(aligned);
            size = aligned + metadata_size * capacity;
            i += 1;
        }
        (size, type_offsets)
    }
}


/// The byte at position `base + j` of `s`.
spec fn byte_at(s: Seq<u8>, base: int, j: int) -> u8 {
    s[base + j]
}

/// The first `rows` slots of column `c` hold the same bytes in `newd` (laid
/// out for `newcap`) as in `oldd` (laid out for `oldcap`).
spec fn column_copied(
    newd: Seq<u8>,
    oldd: Seq<u8>,
    types: Seq<TypeMetadata>,
    oldcap: nat,
    newcap: nat,
    rows: nat,
    c: int,
) -> bool {
    forall|j: int|
        0 <= j < rows * types[c].size ==> #[trigger] byte_at(newd, col_offset(types, newcap, c), j)
            == byte_at(oldd, col_offset(types, oldcap, c), j)
}

/// The used prefix of a column stays inside the column's span, which stays
/// inside the buffer.
proof fn lemma_column_span(types: Seq<TypeMetadata>, capacity: nat, t: int, rows: nat)
    requires
        valid_types(types),
        0 <= t < types.len(),
        rows <= capacity,
    ensures
        0 <= col_offset(types, capacity, t),
        0 <= rows * types[t].size <= capacity * types[t].size,
        col_offset(types, capacity, t) + capacity * types[t].size == layout_end(
            types,
            capacity,
            t + 1,
        ),
        layout_end(types, capacity, t + 1) <= layout_end(types, capacity, types.len() as int),
{
    let size = types[t].size as int;
    lemma_layout_props(types, capacity, types.len() as int);
    lemma_layout_ordered(types, capacity, t + 1, types.len() as int);
    lemma_mul_nonnegative(rows as int, size);
    lemma_mul_inequality(rows as int, capacity as int, size);
    lemma_mul_is_commutative(capacity as int, size);
}

impl Archetype {
    /// Reallocates the buffer for `new_capacity` slots per column, copying
    /// every column's used bytes to its new offset; no written row changes.
    #[verifier::rlimit(100)]
    fn grow(&mut self, new_capacity: usize)
        requires
            old(self).wf(),
            old(self).cap() <= new_capacity as nat,
            layout_fits(old(self).types(), new_capacity as nat),
        ensures
            final(self).wf(),
            final(self).types() == old(self).types(),
            final(self).cap() == new_capacity as nat,
            final(self).count() == old(self).count(),
            final(self).entities() == old(self).entities(),
            forall|t: int, r: int|
                0 <= t < old(self).types().len() && 0 <= r < old(self).count()
                    ==> final(self).slot(t, r) == old(self).slot(t, r),
    {
        let ghost types = old(self).types();
        let ghost oldcap = old(self).cap();
        let ghost newcap = new_capacity as nat;
        let ghost olddata = old(self).data@;
        let rows = self.entity_count;
        let (computed_size, type_offsets) = self.compute_required_size_for_capacity(new_capacity);

        let mut new_data: Vec<u8> = Vec::new();
        let mut b: usize = 0;
        while b < computed_size
            invariant
                b <= computed_size,
                new_data@.len() == b,
            decreases computed_size - b,
        {
            new_data.push(0u8);
            b += 1;
        }

        let length = self.types_metadata.len();
        let mut t: usize = 0;
        while t < length
            invariant
                t <= length,
                *self == *old(self),
                self.wf(),
                rows == old(self).count(),
                length == types.len(),
                types == old(self).types(),
                olddata == old(self).data@,
                oldcap == old(self).cap(),
                newcap == new_capacity as nat,
                oldcap <= newcap,
                valid_types(types),
                layout_fits(types, newcap),
                type_offsets@.len() == length,
                forall|i: int|
                    0 <= i < length ==> type_offsets@[i] == col_offset(types, newcap, i),
                new_data@.len() == layout_end(types, newcap, length as int),
                forall|c: int|
                    0 <= c < t ==> #[trigger] column_copied(
                        new_data@,
                        olddata,
                        types,
                        oldcap,
                        newcap,
                        rows as nat,
                        c,
                    ),
            decreases length - t,
        {
            let type_size = self.types_metadata[t].size;
            let old_offset = self.type_offsets[t];
            let new_offset = type_offsets[t];
            proof {
                lemma_column_span(types, oldcap, t as int, rows as nat);
                lemma_column_span(types, newcap, t as int, rows as nat);
            }
            let used = rows * type_size;
            let mut k: usize = 0;
            while k < used
                invariant
                    k <= used,
                    t < length,
                    used == rows * type_size,
                    type_size == types[t as int].size,
                    old_offset == col_offset(types, oldcap, t as int),
                    new_offset == col_offset(types, newcap, t as int),
                    old_offset + used <= olddata.len(),
                    new_offset + used <= new_data@.len(),
                    *self == *old(self),
                    self.wf(),
                    rows == old(self).count(),
                    length == types.len(),
                    types == old(self).types(),
                    olddata == old(self).data@,
                    oldcap == old(self).cap(),
                    newcap == new_capacity as nat,
                    oldcap <= newcap,
                    valid_types(types),
                    layout_fits(types, newcap),
                    new_data@.len() == layout_end(types, newcap, length as int),
                    forall|c: int|
                        0 <= c < t ==> #[trigger] column_copied(
                            new_data@,
                            olddata,
                            types,
                            oldcap,
                            newcap,
                            rows as nat,
                            c,
                        ),
                    forall|j: int|
                        0 <= j < k ==> #[trigger] byte_at(new_data@, new_offset as int, j)
                            == byte_at(olddata, old_offset as int, j),
                decreases used - k,
            {
                let byte = self.data[old_offset + k];
                let ghost prev = new_data@;
                new_data.set(new_offset + k, byte);
                proof {
                    let idx = new_offset + k;
                    assert forall|c: int| 0 <= c < t implies #[trigger] column_copied(
                        new_data@,
                        olddata,
                        types,
                        oldcap,
                        newcap,
                        rows as nat,
                        c,
                    ) by {
                        lemma_column_span(types, newcap, c, rows as nat);
                        lemma_layout_ordered(types, newcap, c + 1, t as int);
                        assert(column_copied(prev, olddata, types, oldcap, newcap,
                            rows as nat, c));
                        assert forall|j: int| 0 <= j < (rows as nat) * types[c].size implies
                            #[trigger] byte_at(new_data@, col_offset(types, newcap, c), j)
                                == byte_at(olddata, col_offset(types, oldcap, c), j) by {
                            assert(col_offset(types, newcap, c) + j < idx);
                            assert(byte_at(new_data@, col_offset(types, newcap, c), j)
                                == byte_at(prev, col_offset(types, newcap, c), j));
                            assert(byte_at(prev, col_offset(types, newcap, c), j)
                                == byte_at(olddata, col_offset(types, oldcap, c), j));
                        };
                    };
                    assert forall|j: int| 0 <= j < k + 1 implies #[trigger] byte_at(
                        new_data@,
                        new_offset as int,
                        j,
                    ) == byte_at(olddata, old_offset as int, j) by {
                        if j < k {
                            assert(byte_at(new_data@, new_offset as int, j) == byte_at(
                                prev,
                                new_offset as int,
                                j,
                            ));
                        } else {
                            assert(new_data@[new_offset + j] == byte);
                        }
                    };
                }
                k += 1;
            }
            proof {
                assert(column_copied(new_data@, olddata, types, oldcap, newcap, rows as nat,
                    t as int));
            }
            t += 1;
        }

        let ghost newdata = new_data@;
        self.data = new_data;
        self.type_offsets = type_offsets;
        self.capacity = new_capacity;

        proof {
            lemma_layout_props(types, newcap, types.len() as int);
            assert(self.entities() =~= old(self).entities());
            assert forall|r1: int, r2: int|
                0 <= r1 < r2 < self.entities().len() implies self.entities()[r1]
                    != self.entities()[r2] by {
                assert(old(self).entities()[r1] != old(self).entities()[r2]);
            };
            assert forall|t2: int, r: int|
                0 <= t2 < types.len() && 0 <= r < old(self).count() implies self.slot(t2, r)
                    == old(self).slot(t2, r) by {
                let size = types[t2].size as int;
                lemma_slot_in_bounds(types, oldcap, t2, r);
                lemma_slot_in_bounds(types, newcap, t2, r);
                lemma_column_span(types, oldcap, t2, rows as nat);
                lemma_column_span(types, newcap, t2, rows as nat);
                lemma_mul_is_distributive_add_other_way(size, r, 1);
                lemma_mul_inequality(r + 1, rows as int, size);
                assert(column_copied(newdata, olddata, types, oldcap, newcap, rows as nat, t2));
                assert forall|j: int| 0 <= j < size implies self.slot(t2, r)[j] == old(self).slot(
                    t2,
                    r,
                )[j] by {
                    assert(0 <= r * size + j < (rows as nat) * types[t2].size);
                    assert(byte_at(newdata, col_offset(types, newcap, t2), r * size + j)
                        == byte_at(olddata, col_offset(types, oldcap, t2), r * size + j));
                    assert(self.slot(t2, r)[j] == byte_at(
                        newdata,
                        col_offset(types, newcap, t2),
                        r * size + j,
                    ));
                    assert(old(self).slot(t2, r)[j] == byte_at(
                        olddata,
                        col_offset(types, oldcap, t2),
                        r * size + j,
                    ));
                };
                assert(self.slot(t2, r) =~= old(self).slot(t2, r));
            };
        }
    }
}


impl Archetype {
    /// The capacity after the next allocation: unchanged while a free row
    /// remains, else 1 from empty, else doubled.
    pub open spec fn grow_target(self) -> nat {
        if self.count() == self.cap() {
            if self.cap() == 0 {
                1
            } else {
                self.cap() * 2
            }
        } else {
            self.cap()
        }
    }

    /// Reserves the next row for `entity`, growing the buffer if no row
    /// remains, and returns that row.  No previously written slot changes.
    pub fn allocate_storage_for_entity(&mut self, entity: Entity) -> (row: usize)
        requires
            old(self).wf(),
            !old(self).entities().contains(entity),
            old(self).grow_target() <= usize::MAX,
            layout_fits(old(self).types(), old(self).grow_target()),
        ensures
            final(self).wf(),
            row == old(self).count(),
            final(self).types() == old(self).types(),
            final(self).cap() == old(self).grow_target(),
            final(self).count() == old(self).count() + 1,
            final(self).entities() == old(self).entities().push(entity),
            forall|t: int, r: int|
                0 <= t < old(self).types().len() && 0 <= r < old(self).count()
                    ==> final(self).slot(t, r) == old(self).slot(t, r),
    {
        if self.entity_count == self.capacity {
            if self.capacity == 0 {
                self.grow(1);
            } else {
                self.grow(self.capacity * 2);
            }
        }
        let row = self.entity_count;
        self.stored_entities.push(entity);
        self.entity_count = self.entity_count + 1;
        row
    }

    /// Copies `data` into the slot of column `type_index`, row `data_index`.
    /// Every other slot keeps its bytes.
    pub fn write_component(&mut self, type_index: usize, data_index: usize, data: &Vec<u8>)
        requires
            old(self).wf(),
            type_index < old(self).types().len(),
            data_index < old(self).cap(),
            data@.len() == old(self).types()[type_index as int].size,
        ensures
            final(self).wf(),
            final(self).types() == old(self).types(),
            final(self).cap() == old(self).cap(),
            final(self).count() == old(self).count(),
            final(self).entities() == old(self).entities(),
            final(self).slot(type_index as int, data_index as int) == data@,
            forall|t: int, r: int|
                0 <= t < old(self).types().len() && 0 <= r < old(self).cap() && !(t
                    == type_index as int && r == data_index as int) ==> final(self).slot(t, r)
                    == old(self).slot(t, r),
    {
        let ghost types = old(self).types();
        let ghost cap = old(self).cap();
        let ghost olddata = old(self).data@;
        proof {
            lemma_slot_in_bounds(types, cap, type_index as int, data_index as int);
        }
        let size = self.types_metadata[type_index].size;
        let offset = self.type_offsets[type_index];
        let base = offset + data_index * size;
        let mut k: usize = 0;
        while k < size
            invariant
                k <= size,
                type_index < types.len(),
                data_index < cap,
                size == types[type_index as int].size,
                data@.len() == size,
                base == slot_start(types, cap, type_index as int, data_index as int),
                base + size <= self.data@.len(),
                types == old(self).types(),
                cap == old(self).cap(),
                olddata == old(self).data@,
                self.types_metadata == old(self).types_metadata,
                self.type_offsets == old(self).type_offsets,
                self.capacity == old(self).capacity,
                self.entity_count == old(self).entity_count,
                self.stored_entities == old(self).stored_entities,
                self.data@.len() == olddata.len(),
                old(self).wf(),
                forall|i: int|
                    0 <= i < self.data@.len() && !(base <= i < base + k)
                        ==> #[trigger] self.data@[i] == olddata[i],
                forall|j: int|
                    0 <= j < k ==> #[trigger] byte_at(self.data@, base as int, j) == data@[j],
            decreases size - k,
        {
            let byte = data[k];
            let ghost prev = self.data@;
            self.data.set(base + k, byte);
            proof {
                assert forall|j: int| 0 <= j < k + 1 implies #[trigger] byte_at(
                    self.data@,
                    base as int,
                    j,
                ) == data@[j] by {
                    if j < k {
                        assert(byte_at(self.data@, base as int, j) == byte_at(
                            prev,
                            base as int,
                            j,
                        ));
                    } else {
                        assert(self.data@[base + j] == byte);
                    }
                };
            }
            k += 1;
        }
        proof {
            let ti = type_index as int;
            let di = data_index as int;
            assert forall|r1: int, r2: int|
                0 <= r1 < r2 < self.entities().len() implies self.entities()[r1]
                    != self.entities()[r2] by {
                assert(old(self).entities()[r1] != old(self).entities()[r2]);
            };
            assert forall|j: int| 0 <= j < size implies self.slot(ti, di)[j] == data@[j] by {
                assert(byte_at(self.data@, base as int, j) == data@[j]);
            };
            assert(self.slot(ti, di) =~= data@);
            assert forall|t: int, r: int|
                0 <= t < types.len() && 0 <= r < cap && !(t == ti && r == di) implies self.slot(
                t,
                r,
            ) == old(self).slot(t, r) by {
                let tsize = types[t].size as int;
                lemma_slot_in_bounds(types, cap, t, r);
                lemma_slots_disjoint(types, cap, t, r, ti, di);
                assert forall|j: int| 0 <= j < tsize implies self.slot(t, r)[j] == old(self).slot(
                    t,
                    r,
                )[j] by {
                    assert(self.data@[slot_start(types, cap, t, r) + j] == olddata[slot_start(
                        types,
                        cap,
                        t,
                        r,
                    ) + j]);
                };
                assert(self.slot(t, r) =~= old(self).slot(t, r));
            };
        }
    }

    /// Reads back the bytes of the slot of column `type_index`, row
    /// `data_index`.
    pub fn read_component(&self, type_index: usize, data_index: usize) -> (r: Vec<u8>)
        requires
            self.wf(),
            type_index < self.types().len(),
            data_index < self.cap(),
        ensures
            r@ == self.slot(type_index as int, data_index as int),
    {
        let ghost types = self.types();
        let ghost cap = self.cap();
        proof {
            lemma_slot_in_bounds(types, cap, type_index as int, data_index as int);
        }
        let size = self.types_metadata[type_index].size;
        let base = self.type_offsets[type_index] + data_index * size;
        let mut result: Vec<u8> = Vec::new();
        let mut k: usize = 0;
        while k < size
            invariant
                k <= size,
                type_index < types.len(),
                data_index < cap,
                size == types[type_index as int].size,
                base == slot_start(types, cap, type_index as int, data_index as int),
                base + size <= self.data@.len(),
                types == self.types(),
                cap == self.cap(),
                self.wf(),
                result@.len() == k,
                forall|j: int|
                    0 <= j < k ==> #[trigger] result@[j] == byte_at(self.data@, base as int, j),
            decreases size - k,
        {
            result.push(self.data[base + k]);
            k += 1;
        }
        proof {
            assert forall|j: int| 0 <= j < size implies result@[j] == self.slot(
                type_index as int,
                data_index as int,
            )[j] by {
                assert(result@[j] == byte_at(self.data@, base as int, j));
            };
            assert(result@ =~= self.slot(type_index as int, data_index as int));
        }
        result
    }

    /// Whether the signature holds the given component type.
    pub fn match_component(&self, type_id: u64) -> (r: bool)
        ensures
            r == self.sig().contains(type_id),
    {
        let length = self.types_metadata.len();
        let mut i: usize = 0;
        while i < length
            invariant
                i <= length,
                length == self.types().len(),
                forall|k: int| 0 <= k < i ==> self.sig()[k] != type_id,
            decreases length - i,
        {
            if self.types_metadata[i].type_id == type_id {
                proof {
                    assert(self.sig()[i as int] == type_id);
                }
                return true;
            }
            i += 1;
        }
        proof {
            if self.sig().contains(type_id) {
                let witness = choose|k: int|
                    0 <= k < self.sig().len() && self.sig()[k] == type_id;
                assert(self.sig()[witness] != type_id);
            }
        }
        false
    }

    /// Whether the given entity is stored in this archetype.
    pub open spec fn has_entity(self, entity: Entity) -> bool {
        self.entities().contains(entity)
    }

    /// The row of the given entity.
    pub open spec fn row_of(self, entity: Entity) -> int {
        choose|r: int| 0 <= r < self.entities().len() && self.entities()[r] == entity
    }

    /// How many component types the signature holds.
    pub fn type_count(&self) -> (r: usize)
        ensures
            r == self.types().len(),
    {
        self.types_metadata.len()
    }

    /// The row of the given entity; the entity must be stored here.
    pub fn data_index_for_entity(&self, entity: Entity) -> (row: usize)
        requires
            self.wf(),
            self.has_entity(entity),
        ensures
            row < self.count(),
            self.entities()[row as int] == entity,
            row as int == self.row_of(entity),
    {
        let length = self.stored_entities.len();
        let mut i: usize = 0;
        while i < length
            invariant
                i <= length,
                length == self.entities().len(),
                forall|k: int| 0 <= k < i ==> self.entities()[k] != entity,
                self.wf(),
                self.entities().contains(entity),
            decreases length - i,
        {
            if self.stored_entities[i] == entity {
                proof {
                    assert((exists|r: int|
                        0 <= r < self.entities().len() && self.entities()[r] == entity)) by {
                        assert(0 <= (i as int) < self.entities().len() && self.entities()[i as int]
                            == entity);
                    };
                    let w = self.row_of(entity);
                    assert(0 <= w < self.entities().len() && self.entities()[w] == entity);
                    if w < i as int {
                        assert(self.entities()[w] != self.entities()[i as int]);
                    }
                    if (i as int) < w {
                        assert(self.entities()[i as int] != self.entities()[w]);
                    }
                }
                return i;
            }
            i += 1;
        }
        proof {
            let witness = choose|k: int|
                0 <= k < self.entities().len() && self.entities()[k] == entity;
            assert(self.entities()[witness] != entity);
        }
        0
    }
}

/// Whether `t` is the first position of `type_id` inside the signature.
pub open spec fn is_first_position(sig: Seq<u64>, type_id: u64, t: int) -> bool {
    &&& 0 <= t < sig.len()
    &&& sig[t] == type_id
    &&& forall|u: int| 0 <= u < t ==> sig[u] != type_id
}

/// The first position of `type_id` inside the signature `sig`.
pub open spec fn sig_position(sig: Seq<u64>, type_id: u64) -> int {
    choose|t: int| is_first_position(sig, type_id, t)
}

/// Copies a byte vector.
pub(crate) fn clone_bytes(v: &Vec<u8>) -> (r: Vec<u8>)
    ensures
        r@ == v@,
{
    let r = v.clone();
    proof {
        assert forall|i: int| 0 <= i < v@.len() implies r@[i] == v@[i] by {
            assert(cloned::<u8>(v@[i], r@[i]));
        };
        assert(r@ =~= v@);
    }
    r
}

/// A finite, single-pass walk over one component column of one archetype,
/// row by row.
pub struct ComponentIterator {
    items: Vec<Vec<u8>>,
    index: usize,
}

impl ComponentIterator {
    /// The values still to be walked, plus those already handed out.
    pub closed spec fn spec_items(self) -> Seq<Seq<u8>> {
        Seq::new(self.items@.len() as nat, |i: int| self.items@[i]@)
    }

    /// How many values were handed out already.
    pub closed spec fn spec_pos(self) -> nat {
        self.index as nat
    }

    /// The next value of the column, or `None` after the last row.
    pub fn next(&mut self) -> (r: Option<Vec<u8>>)
        ensures
            final(self).spec_items() == old(self).spec_items(),
            old(self).spec_pos() < old(self).spec_items().len() ==> {
                &&& final(self).spec_pos() == old(self).spec_pos() + 1
                &&& r matches Some(v) && v@ == old(self).spec_items()[old(self).spec_pos() as int]
            },
            old(self).spec_pos() >= old(self).spec_items().len() ==> {
                &&& r is None
                &&& final(self).spec_pos() == old(self).spec_pos()
            },
    {
        if self.index >= self.items.len() {
            return None;
        }
        let item = clone_bytes(&self.items[self.index]);
        self.index = self.index + 1;
        Some(item)
    }
}

impl Archetype {
    /// The first column of the signature holding the given type.
    fn position_of_type(&self, type_id: u64) -> (pos: usize)
        requires
            self.sig().contains(type_id),
        ensures
            pos < self.sig().len(),
            self.sig()[pos as int] == type_id,
            pos == sig_position(self.sig(), type_id),
    {
        let length = self.types_metadata.len();
        let mut i: usize = 0;
        while i < length
            invariant
                i <= length,
                length == self.types().len(),
                forall|k: int| 0 <= k < i ==> self.sig()[k] != type_id,
                self.sig().contains(type_id),
            decreases length - i,
        {
            if self.types_metadata[i].type_id == type_id {
                proof {
                    let sg = self.sig();
                    assert(sg[i as int] == type_id);
                    assert(forall|u: int| 0 <= u < i as int ==> sg[u] != type_id);
                    assert(is_first_position(sg, type_id, i as int));
                    assert(exists|t: int| is_first_position(sg, type_id, t));
                    let sp = sig_position(sg, type_id);
                    assert(0 <= sp < sg.len() && sg[sp] == type_id && (forall|u: int|
                        0 <= u < sp ==> sg[u] != type_id));
                    if sp < i as int {
                        assert(sg[sp] != type_id);
                    }
                    if (i as int) < sp {
                        assert(sg[i as int] != type_id);
                    }
                }
                return i;
            }
            i += 1;
        }
        proof {
            let witness = choose|k: int|
                0 <= k < self.sig().len() && self.sig()[k] == type_id;
            assert(self.sig()[witness] != type_id);
        }
        0
    }

    /// All stored values of the first column of the given type, row by row.
    pub fn fetch(&self, type_id: u64) -> (it: ComponentIterator)
        requires
            self.wf(),
            self.sig().contains(type_id),
        ensures
            it.spec_pos() == 0,
            it.spec_items().len() == self.count(),
            forall|r: int|
                0 <= r < self.count() ==> it.spec_items()[r] == self.slot(
                    sig_position(self.sig(), type_id),
                    r,
                ),
    {
        let pos = self.position_of_type(type_id);
        let mut items: Vec<Vec<u8>> = Vec::new();
        let mut r: usize = 0;
        while r < self.entity_count
            invariant
                r <= self.count(),
                items@.len() == r,
                self.wf(),
                pos < self.types().len(),
                forall|q: int| 0 <= q < r ==> #[trigger] items@[q]@ == self.slot(pos as int, q),
            decreases self.count() - r,
        {
            let one = self.read_component(pos, r);
            items.push(one);
            r += 1;
        }
        ComponentIterator { items, index: 0 }
    }
}

impl Archetype {
    /// Whether this archetype's signature is exactly `sig`.
    pub fn sig_matches(&self, sig: &Vec<u64>) -> (r: bool)
        ensures
            r == (self.sig() == sig@),
    {
        let n = self.types_metadata.len();
        if n != sig.len() {
            return false;
        }
        let mut i: usize = 0;
        while i < n
            invariant
                i <= n,
                n == self.types().len(),
                n == sig@.len(),
                forall|k: int| 0 <= k < i ==> self.sig()[k] == sig@[k],
            decreases n - i,
        {
            if self.types_metadata[i].type_id != sig[i] {
                proof {
                    assert(self.sig()[i as int] != sig@[i as int]);
                }
                return false;
            }
            i += 1;
        }
        proof {
            assert(self.sig() =~= sig@);
        }
        true
    }
}

/// Facts that every well-formed archetype provides to other modules.
pub proof fn lemma_wf_counts(a: Archetype)
    requires
        a.wf(),
    ensures
        a.entities().len() == a.count(),
        a.count() <= a.cap(),
        valid_types(a.types()),
{
}

/// An entity's row is the one position of the entity map holding it.
pub proof fn lemma_row_of_unique(a: Archetype, entity: Entity, w: int)
    requires
        a.wf(),
        0 <= w < a.entities().len(),
        a.entities()[w] == entity,
    ensures
        a.has_entity(entity),
        a.row_of(entity) == w,
{
    assert(a.entities().contains(entity));
    let r = a.row_of(entity);
    assert(0 <= r < a.entities().len() && a.entities()[r] == entity) by {
        assert(exists|k: int| 0 <= k < a.entities().len() && a.entities()[k] == entity);
    };
    if r < w {
        assert(a.entities()[r] != a.entities()[w]);
    }
    if w < r {
        assert(a.entities()[w] != a.entities()[r]);
    }
}

/// No multiple of `alignment` at or above `value` comes before
/// `round_up(value, alignment)`.
pub proof fn lemma_round_up_smallest(value: int, alignment: int, multiple: int)
    requires
        alignment >= 1,
        value >= 0,
        multiple >= value,
        multiple % alignment == 0,
    ensures
        round_up(value, alignment) <= multiple,
{
    lemma_mod_bound(value, alignment);
    if value % alignment != 0 {
        lemma_fundamental_div_mod(value, alignment);
        let base = value - value % alignment;
        assert(base == alignment * (value / alignment));
        lemma_mod_multiples_basic(value / alignment, alignment);
        lemma_mul_is_commutative(alignment, value / alignment);
        assert(base % alignment == 0);
        if multiple < round_up(value, alignment) {
            let diff = multiple - base;
            assert(0 < diff < alignment);
            lemma_sub_mod_noop(multiple, base, alignment);
            lemma_small_mod(0, alignment as nat);
            assert(diff % alignment == 0);
            lemma_small_mod(diff as nat, alignment as nat);
            assert(false);
        }
    }
}

/// A smaller capacity never needs more bytes, column by column.
pub proof fn lemma_layout_monotone_capacity(
    types: Seq<TypeMetadata>,
    cap1: nat,
    cap2: nat,
    count: int,
)
    requires
        valid_types(types),
        cap1 <= cap2,
        0 <= count <= types.len(),
    ensures
        layout_end(types, cap1, count) <= layout_end(types, cap2, count),
    decreases count,
{
    if count > 0 {
        lemma_layout_monotone_capacity(types, cap1, cap2, count - 1);
        let align = types[count - 1].align as int;
        let size = types[count - 1].size as int;
        let end1 = layout_end(types, cap1, count - 1);
        let end2 = layout_end(types, cap2, count - 1);
        lemma_layout_props(types, cap1, count - 1);
        lemma_layout_props(types, cap2, count - 1);
        lemma_round_up_bounds(end1, align);
        lemma_round_up_bounds(end2, align);
        lemma_round_up_smallest(end1, align, round_up(end2, align));
        lemma_mul_inequality(cap1 as int, cap2 as int, size);
        lemma_mul_is_commutative(cap1 as int, size);
        lemma_mul_is_commutative(cap2 as int, size);
    }
}

/// If a layout fits at some capacity, it fits at every smaller one.
pub proof fn lemma_layout_fits_monotone(types: Seq<TypeMetadata>, cap1: nat, cap2: nat)
    requires
        valid_types(types),
        cap1 <= cap2,
        layout_fits(types, cap2),
    ensures
        layout_fits(types, cap1),
{
    lemma_layout_monotone_capacity(types, cap1, cap2, types.len() as int);
    assert forall|i: int|
        0 <= i < types.len() implies layout_end(types, cap1, i) + (#[trigger] types[i]).align
        <= usize::MAX by {
        lemma_layout_monotone_capacity(types, cap1, cap2, i);
    };
}

} // verus!
