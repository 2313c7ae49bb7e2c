//! Typed read/write capability requests, and iteration over every entity
//! whose stores satisfy all of them.
//!
//! A query is an ordered list of capability terms.  Matching entities are
//! computed up front by intersecting the requested types' presence bitmaps;
//! the iterator then walks the materialized list from its end, so entities
//! come out in descending index order.

use vstd::prelude::*;
use crate::ecs::{Components, EntityIndex};

verus! {

/// A request to read one component type inside a query.
pub struct R(pub u64);

/// A request to write one component type inside a query.
pub struct W(pub u64);

/// A read-or-write capability request: what one query term asks for.
pub trait Accessor: Sized {
    /// The requested component type.
    spec fn spec_type_id(&self) -> u64;

    /// Whether the request asks for write access.
    spec fn spec_writes(&self) -> bool;

    /// The capability as a (type identity, write) pair.
    fn term(&self) -> (r: (u64, bool))
        ensures
            r.0 == self.spec_type_id(),
            r.1 == self.spec_writes(),
    ;
}

impl Accessor for R {
    open spec fn spec_type_id(&self) -> u64 {
        self.0
    }

    open spec fn spec_writes(&self) -> bool {
        false
    }

    fn term(&self) -> (r: (u64, bool)) {
        (self.0, false)
    }
}

impl Accessor for W {
    open spec fn spec_type_id(&self) -> u64 {
        self.0
    }

    open spec fn spec_writes(&self) -> bool {
        true
    }

    fn term(&self) -> (r: (u64, bool)) {
        (self.0, true)
    }
}

/// An ordered list of capability requests.
pub struct Query {
    pub terms: Vec<(u64, bool)>,
}

/// Whether entity `index` holds every component the query asks for.
pub open spec fn query_matches(c: Components, terms: Seq<(u64, bool)>, index: int) -> bool {
    forall|a: int| 0 <= a < terms.len() ==> c.present((#[trigger] terms[a]).0, index)
}

/// The indices below `count` whose entities match, in ascending order.
pub open spec fn matching_indices(c: Components, terms: Seq<(u64, bool)>, count: nat) -> Seq<int>
    decreases count,
{
    if count == 0 {
        Seq::empty()
    } else {
        matching_indices(c, terms, (count - 1) as nat) + (if query_matches(
            c,
            terms,
            count - 1,
        ) {
            seq![count - 1]
        } else {
            Seq::empty()
        })
    }
}

/// The matching indices are exactly the matching entities below `count`,
/// and they come in strictly ascending order.
pub proof fn lemma_matching_indices_complete(c: Components, terms: Seq<(u64, bool)>, count: nat)
    ensures
        forall|v: int|
            #[trigger] matching_indices(c, terms, count).contains(v) <==> (0 <= v < count
                && query_matches(c, terms, v)),
        forall|k1: int, k2: int|
            0 <= k1 < k2 < matching_indices(c, terms, count).len() ==> matching_indices(
                c,
                terms,
                count,
            )[k1] < matching_indices(c, terms, count)[k2],
    decreases count,
{
    if count > 0 {
        lemma_matching_indices_complete(c, terms, (count - 1) as nat);
        let prev = matching_indices(c, terms, (count - 1) as nat);
        let cur = matching_indices(c, terms, count);
        assert forall|v: int| #[trigger] cur.contains(v) implies (0 <= v < count && query_matches(
            c,
            terms,
            v,
        )) by {
            let k = choose|k: int| 0 <= k < cur.len() && cur[k] == v;
            if k < prev.len() {
                assert(prev[k] == v);
                assert(prev.contains(v));
            } else {
                assert(v == count - 1);
            }
        };
        assert forall|v: int| 0 <= v < count && query_matches(c, terms, v) implies
            #[trigger] cur.contains(v) by {
            if v < count - 1 {
                assert(prev.contains(v));
                let k = choose|k: int| 0 <= k < prev.len() && prev[k] == v;
                assert(cur[k] == v);
            } else {
                assert(cur[prev.len() as int] == v);
            }
        };
        assert forall|k1: int, k2: int| 0 <= k1 < k2 < cur.len() implies cur[k1] < cur[k2] by {
            if k2 < prev.len() {
                assert(prev[k1] < prev[k2]);
            } else {
                assert(cur[k2] == count - 1);
                assert(prev[k1] == cur[k1]);
                assert(prev.contains(prev[k1]));
            }
        };
    }
}

impl Query {
    /// The capability terms, in declaration order.
    pub open spec fn spec_terms(self) -> Seq<(u64, bool)> {
        self.terms@
    }

    /// Wraps a term list as a query.
    pub fn new(terms: Vec<(u64, bool)>) -> (r: Query)
        ensures
            r.spec_terms() == terms@,
    {
        Query { terms }
    }

    /// One type identity per term, in order.
    pub fn type_ids(&self) -> (r: Vec<u64>)
        ensures
            r@.len() == self.spec_terms().len(),
            forall|k: int| 0 <= k < r@.len() ==> r@[k] == (#[trigger] self.spec_terms()[k]).0,
    {
        let n = self.terms.len();
        let mut r: Vec<u64> = Vec::new();
        let mut i: usize = 0;
        while i < n
            invariant
                i <= n,
                n == self.spec_terms().len(),
                r@.len() == i,
                forall|k: int| 0 <= k < i ==> r@[k] == (#[trigger] self.spec_terms()[k]).0,
            decreases n - i,
        {
            r.push(self.terms[i].0);
            i += 1;
        }
        r
    }

    /// The indices of all entities below `entity_count` holding every
    /// requested type, in ascending order.
    pub fn matching_ids(&self, entity_count: usize, components: &Components) -> (r: Vec<usize>)
        requires
            components.distinct_ids(),
        ensures
            r@.len() == matching_indices(
                *components,
                self.spec_terms(),
                entity_count as nat,
            ).len(),
            forall|k: int|
                0 <= k < r@.len() ==> #[trigger] r@[k] as int == matching_indices(
                    *components,
                    self.spec_terms(),
                    entity_count as nat,
                )[k],
    {
        let ghost terms = self.spec_terms();
        let n = self.terms.len();
        let mut result: Vec<usize> = Vec::new();
        let mut i: usize = 0;
        proof {
            assert(matching_indices(*components, terms, 0) =~= Seq::<int>::empty());
        }
        while i < entity_count
            invariant
                i <= entity_count,
                n == terms.len(),
                terms == self.spec_terms(),
                components.distinct_ids(),
                result@.len() == matching_indices(*components, terms, i as nat).len(),
                forall|k: int|
                    0 <= k < result@.len() ==> #[trigger] result@[k] as int == matching_indices(
                        *components,
                        terms,
                        i as nat,
                    )[k],
            decreases entity_count - i,
        {
            let mut all_present = true;
            let mut a: usize = 0;
            while a < n && all_present
                invariant
                    a <= n,
                    n == terms.len(),
                    terms == self.spec_terms(),
                    components.distinct_ids(),
                    all_present ==> forall|b: int|
                        0 <= b < a ==> components.present((#[trigger] terms[b]).0, i as int),
                    !all_present ==> !query_matches(*components, terms, i as int),
                decreases n - a,
            {
                if !components.is_present(self.terms[a].0, i) {
                    proof {
                        assert(!components.present(terms[a as int].0, i as int));
                    }
                    all_present = false;
                }
                a += 1;
            }
            proof {
                if all_present {
                    assert(query_matches(*components, terms, i as int));
                }
            }
            let ghost prev = matching_indices(*components, terms, i as nat);
            if all_present {
                result.push(i);
            }
            proof {
                assert(matching_indices(*components, terms, (i + 1) as nat) == prev + (
                if query_matches(*components, terms, i as int) {
                    seq![i as int]
                } else {
                    Seq::<int>::empty()
                }));
                if query_matches(*components, terms, i as int) {
                    assert(matching_indices(*components, terms, (i + 1) as nat) =~= prev.push(
                        i as int,
                    ));
                } else {
                    assert(matching_indices(*components, terms, (i + 1) as nat) =~= prev);
                }
            }
            i += 1;
        }
        result
    }

    /// The requested components of entity `index`, one value per term, in
    /// term order.  Every requested component must be present.
    pub fn fetch(&self, index: usize, components: &Components) -> (r: Vec<Vec<u8>>)
        requires
            components.distinct_ids(),
            query_matches(*components, self.spec_terms(), index as int),
        ensures
            r@.len() == self.spec_terms().len(),
            forall|a: int|
                0 <= a < self.spec_terms().len() ==> Some((#[trigger] r@[a])@)
                    == components.value_at(self.spec_terms()[a].0, index as int),
    {
        let ghost terms = self.spec_terms();
        let n = self.terms.len();
        let mut r: Vec<Vec<u8>> = Vec::new();
        let mut a: usize = 0;
        while a < n
            invariant
                a <= n,
                n == terms.len(),
                terms == self.spec_terms(),
                components.distinct_ids(),
                query_matches(*components, terms, index as int),
                r@.len() == a,
                forall|b: int|
                    0 <= b < a ==> Some((#[trigger] r@[b])@) == components.value_at(
                        terms[b].0,
                        index as int,
                    ),
            decreases n - a,
        {
            proof {
                assert(components.present(terms[a as int].0, index as int));
            }
            r.push(components.get_value(self.terms[a].0, index));
            a += 1;
        }
        r
    }
}

/// A finite, single-pass walk over all matching entities of one query,
/// materialized up front; yields highest indices first.
pub struct QueryIterator {
    items: Vec<(usize, Vec<Vec<u8>>)>,
}

impl QueryIterator {
    /// The matches still to be yielded: (entity index, one value per term),
    /// ascending by index; `next` takes from the end.
    pub closed spec fn spec_items(self) -> Seq<(usize, Vec<Vec<u8>>)> {
        self.items@
    }

    /// Intersects the requested types' presence bitmaps into a matching row
    /// list, fetching each match's values.
    pub fn new(entity_count: usize, components: &Components, query: &Query) -> (it:
        QueryIterator)
        requires
            components.distinct_ids(),
        ensures
            it.spec_items().len() == matching_indices(
                *components,
                query.spec_terms(),
                entity_count as nat,
            ).len(),
            forall|k: int|
                0 <= k < it.spec_items().len() ==> (#[trigger] it.spec_items()[k]).0 as int
                    == matching_indices(*components, query.spec_terms(), entity_count as nat)[k],
            forall|k: int|
                0 <= k < it.spec_items().len() ==> (#[trigger] it.spec_items()[k]).1@.len()
                    == query.spec_terms().len(),
            forall|k: int, a: int|
                0 <= k < it.spec_items().len() && 0 <= a < query.spec_terms().len() ==> Some(
                    (#[trigger] it.spec_items()[k].1@[a])@,
                ) == components.value_at(
                    query.spec_terms()[a].0,
                    it.spec_items()[k].0 as int,
                ),
    {
        let ghost terms = query.spec_terms();
        let ghost matched = matching_indices(*components, terms, entity_count as nat);
        let ids = query.matching_ids(entity_count, components);
        let n = ids.len();
        let mut items: Vec<(usize, Vec<Vec<u8>>)> = Vec::new();
        let mut k: usize = 0;
        while k < n
            invariant
                k <= n,
                n == ids@.len(),
                n == matched.len(),
                terms == query.spec_terms(),
                matched == matching_indices(*components, terms, entity_count as nat),
                components.distinct_ids(),
                forall|q: int| 0 <= q < n ==> #[trigger] ids@[q] as int == matched[q],
                items@.len() == k,
                forall|q: int| 0 <= q < k ==> (#[trigger] items@[q]).0 == ids@[q],
                forall|q: int|
                    0 <= q < k ==> (#[trigger] items@[q]).1@.len() == terms.len(),
                forall|q: int, a: int|
                    0 <= q < k && 0 <= a < terms.len() ==> Some(
                        (#[trigger] items@[q].1@[a])@,
                    ) == components.value_at(terms[a].0, items@[q].0 as int),
            decreases n - k,
        {
            let index = ids[k];
            proof {
                lemma_matching_indices_complete(*components, terms, entity_count as nat);
                assert(matched[k as int] == index as int);
                assert(matched.contains(index as int)) by {
                    assert(matched[k as int] == index as int);
                };
            }
            let values = query.fetch(index, components);
            items.push((index, values));
            k += 1;
        }
        QueryIterator { items }
    }

    /// The next match, starting from the highest index, or `None` when all
    /// matches were yielded.
    pub fn next(&mut self) -> (r: Option<(EntityIndex, Vec<Vec<u8>>)>)
        ensures
            old(self).spec_items().len() == 0 ==> r is None && final(self).spec_items() == old(
                self,
            ).spec_items(),
            old(self).spec_items().len() > 0 ==> {
                &&& final(self).spec_items() == old(self).spec_items().drop_last()
                &&& r == Some(old(self).spec_items().last())
            },
    {
        self.items.pop()
    }
}

} // verus!
