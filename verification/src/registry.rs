//! The earliest storage prototype: a plain registry of component types.

use vstd::prelude::*;

verus! {

/// A registry of component types, the seed the richer stores grew from.
pub struct Ecs {
    components: Vec<u64>,
}

impl Ecs {
    /// The registered type identities, in registration order.
    pub closed spec fn spec_registered(self) -> Seq<u64> {
        self.components@
    }

    /// Whether the type was registered.
    pub open spec fn is_registered(self, type_id: u64) -> bool {
        self.spec_registered().contains(type_id)
    }

    /// Creates a registry with no component types.
    pub fn new() -> (r: Ecs)
        ensures
            forall|t: u64| !#[trigger] r.is_registered(t),
    {
        let r = Ecs { components: Vec::new() };
        proof {
            assert forall|t: u64| !#[trigger] r.is_registered(t) by {
                if r.spec_registered().contains(t) {
                    let w = choose|w: int|
                        0 <= w < r.spec_registered().len() && r.spec_registered()[w] == t;
                    assert(0 <= w < 0);
                }
            };
        }
        r
    }

    /// Registers a component type; registering it again changes nothing
    /// observable.
    pub fn register_component(&mut self, type_id: u64)
        ensures
            final(self).is_registered(type_id),
            forall|t: u64|
                t != type_id ==> #[trigger] final(self).is_registered(t) == old(
                    self,
                ).is_registered(t),
    {
        if !self.is_component_registered(type_id) {
            let ghost prev = self.components@;
            self.components.push(type_id);
            proof {
                assert(self.components@[prev.len() as int] == type_id);
                assert forall|t: u64|
                    t != type_id implies #[trigger] self.is_registered(t) == old(
                    self,
                ).is_registered(t) by {
                    if self.spec_registered().contains(t) {
                        let w = choose|w: int|
                            0 <= w < self.spec_registered().len() && self.spec_registered()[w]
                                == t;
                        assert(w < prev.len());
                        assert(prev[w] == t);
                    }
                    if prev.contains(t) {
                        let w = choose|w: int| 0 <= w < prev.len() && prev[w] == t;
                        assert(self.spec_registered()[w] == t);
                    }
                };
            }
        }
    }

    /// Whether a component type was registered.
    pub fn is_component_registered(&self, type_id: u64) -> (r: bool)
        ensures
            r == self.is_registered(type_id),
    {
        let n = self.components.len();
        let mut i: usize = 0;
        while i < n
            invariant
                i <= n,
                n == self.spec_registered().len(),
                forall|k: int| 0 <= k < i ==> self.spec_registered()[k] != type_id,
            decreases n - i,
        {
            if self.components[i] == type_id {
                proof {
                    assert(self.spec_registered()[i as int] == type_id);
                }
                return true;
            }
            i += 1;
        }
        proof {
            if self.spec_registered().contains(type_id) {
                let w = choose|w: int|
                    0 <= w < self.spec_registered().len() && self.spec_registered()[w] == type_id;
                assert(self.spec_registered()[w] != type_id);
            }
        }
        false
    }
}

} // verus!
