//! Named storage for loaded assets of one kind.

use vstd::prelude::*;

verus! {

/// A store of values of one kind, each under a unique name; storing under
/// a taken name replaces the old value.
pub struct ResourceManager<T> {
    resources: Vec<(String, T)>,
}

impl<T> ResourceManager<T> {
    /// The stored (name, value) pairs.
    pub closed spec fn spec_resources(self) -> Seq<(String, T)> {
        self.resources@
    }

    /// No two entries share a name.
    pub open spec fn wf(self) -> bool {
        forall|i: int, j: int|
            0 <= i < j < self.spec_resources().len() ==> (#[trigger] self.spec_resources()[i]).0@
                != (#[trigger] self.spec_resources()[j]).0@
    }

    /// Whether a value is stored under the name.
    pub open spec fn has_named(self, name: Seq<char>) -> bool {
        exists|i: int|
            0 <= i < self.spec_resources().len() && (#[trigger] self.spec_resources()[i]).0@
                == name
    }

    /// The position of the name's entry.
    pub open spec fn name_index(self, name: Seq<char>) -> int {
        choose|i: int|
            0 <= i < self.spec_resources().len() && (#[trigger] self.spec_resources()[i]).0@
                == name
    }

    /// The value stored under the name, if any.
    pub open spec fn named_value(self, name: Seq<char>) -> Option<T> {
        if self.has_named(name) {
            Some(self.spec_resources()[self.name_index(name)].1)
        } else {
            None
        }
    }

    /// Creates an empty store.
    pub fn new() -> (r: ResourceManager<T>)
        ensures
            r.wf(),
            forall|name: Seq<char>| !#[trigger] r.has_named(name),
    {
        let r = ResourceManager { resources: Vec::new() };
        proof {
            assert forall|name: Seq<char>| !#[trigger] r.has_named(name) by {
                if r.has_named(name) {
                    let w = r.name_index(name);
                    assert(0 <= w < 0);
                }
            };
        }
        r
    }

    /// The position of the name's entry, if one is stored.
    fn find(&self, name: &String) -> (r: Option<usize>)
        requires
            self.wf(),
        ensures
            match r {
                Option::Some(i) => i < self.spec_resources().len()
                    && self.spec_resources()[i as int].0@ == name@ && self.has_named(name@)
                    && i as int == self.name_index(name@),
                Option::None => !self.has_named(name@),
            },
    {
        let n = self.resources.len();
        let mut i: usize = 0;
        while i < n
            invariant
                i <= n,
                n == self.spec_resources().len(),
                self.wf(),
                forall|k: int| 0 <= k < i ==> (#[trigger] self.spec_resources()[k]).0@ != name@,
            decreases n - i,
        {
            if self.resources[i].0 == *name {
                proof {
                    lemma_unique_name_index(*self, name@, i as int);
                }
                return Option::Some(i);
            }
            i += 1;
        }
        proof {
            if self.has_named(name@) {
                let w = self.name_index(name@);
                assert(self.spec_resources()[w].0@ != name@);
            }
        }
        Option::None
    }

    /// Stores `data` under `name`, replacing any value the name held.
    pub fn store(&mut self, name: &str, data: T)
        requires
            old(self).wf(),
        ensures
            final(self).wf(),
            final(self).named_value(name@) == Some(data),
            forall|other: Seq<char>|
                other != name@ ==> #[trigger] final(self).named_value(other) == old(
                    self,
                ).named_value(other),
    {
        let ghost oldself = *old(self);
        let owned: String = name.to_owned();
        let found = self.find(&owned);
        match found {
            Option::Some(i) => {
                let mut entry = self.resources.remove(i);
                entry.1 = data;
                self.resources.insert(i, entry);
                proof {
                    assert(self.resources@ =~= oldself.spec_resources().update(
                        i as int,
                        entry,
                    ));
                    assert(entry.0@ == name@);
                    assert forall|i2: int, j2: int|
                        0 <= i2 < j2 < self.spec_resources().len() implies (
                    #[trigger] self.spec_resources()[i2]).0@ != (
                    #[trigger] self.spec_resources()[j2]).0@ by {
                        assert(oldself.spec_resources()[i2].0@
                            != oldself.spec_resources()[j2].0@);
                    };
                    lemma_unique_name_index(*self, name@, i as int);
                    assert forall|other: Seq<char>|
                        other != name@ implies #[trigger] self.named_value(other)
                        == oldself.named_value(other) by {
                        if oldself.has_named(other) {
                            let w = oldself.name_index(other);
                            assert(0 <= w < oldself.spec_resources().len()
                                && oldself.spec_resources()[w].0@ == other);
                            assert(w != i);
                            lemma_unique_name_index(*self, other, w);
                            lemma_unique_name_index(oldself, other, w);
                        } else {
                            if self.has_named(other) {
                                let w = self.name_index(other);
                                assert(0 <= w < self.spec_resources().len()
                                    && self.spec_resources()[w].0@ == other);
                                assert(w != i);
                                assert(oldself.spec_resources()[w].0@ == other);
                            }
                        }
                    };
                }
            },
            Option::None => {
                let ghost n = self.resources@.len() as int;
                self.resources.push((owned, data));
                proof {
                    assert(self.spec_resources()[n].0@ == name@);
                    assert forall|i2: int, j2: int|
                        0 <= i2 < j2 < self.spec_resources().len() implies (
                    #[trigger] self.spec_resources()[i2]).0@ != (
                    #[trigger] self.spec_resources()[j2]).0@ by {
                        if j2 < n {
                            assert(oldself.spec_resources()[i2].0@
                                != oldself.spec_resources()[j2].0@);
                        } else {
                            if self.spec_resources()[i2].0@ == name@ {
                                assert(oldself.spec_resources()[i2].0@ == name@);
                            }
                        }
                    };
                    lemma_unique_name_index(*self, name@, n);
                    assert forall|other: Seq<char>|
                        other != name@ implies #[trigger] self.named_value(other)
                        == oldself.named_value(other) by {
                        if oldself.has_named(other) {
                            let w = oldself.name_index(other);
                            assert(0 <= w < n && oldself.spec_resources()[w].0@ == other);
                            lemma_unique_name_index(*self, other, w);
                            lemma_unique_name_index(oldself, other, w);
                        } else {
                            if self.has_named(other) {
                                let w = self.name_index(other);
                                assert(0 <= w < n + 1 && self.spec_resources()[w].0@ == other);
                                assert(w != n);
                                assert(oldself.spec_resources()[w].0@ == other);
                            }
                        }
                    };
                }
            },
        }
    }

    /// Whether a value is stored under the name.
    pub fn contains_resource(&self, name: &str) -> (r: bool)
        requires
            self.wf(),
        ensures
            r == self.has_named(name@),
    {
        let owned: String = name.to_owned();
        let found = self.find(&owned);
        match found {
            Option::Some(_) => true,
            Option::None => false,
        }
    }

    /// The value stored under the name, if any.
    pub fn fetch(&self, name: &str) -> (r: Option<&T>)
        requires
            self.wf(),
        ensures
            match r {
                Option::Some(value) => self.named_value(name@) == Some(*value),
                Option::None => !self.has_named(name@),
            },
    {
        let owned: String = name.to_owned();
        let found = self.find(&owned);
        match found {
            Option::Some(i) => Option::Some(&self.resources[i].1),
            Option::None => Option::None,
        }
    }
}

/// With names unique, any position whose entry carries `name` is the
/// position that `name_index` names.
pub proof fn lemma_unique_name_index<T>(m: ResourceManager<T>, name: Seq<char>, w: int)
    requires
        m.wf(),
        0 <= w < m.spec_resources().len(),
        m.spec_resources()[w].0@ == name,
    ensures
        m.has_named(name),
        m.name_index(name) == w,
{
    assert(m.has_named(name));
    let i = m.name_index(name);
    assert(0 <= i < m.spec_resources().len() && m.spec_resources()[i].0@ == name);
    if i < w {
        assert(m.spec_resources()[i].0@ != m.spec_resources()[w].0@);
    }
    if w < i {
        assert(m.spec_resources()[w].0@ != m.spec_resources()[i].0@);
    }
}

} // verus!
