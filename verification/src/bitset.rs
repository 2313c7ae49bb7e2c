//! Fixed-capacity presence bitmaps: one bit per entity slot.
//!
//! A bitmap is either a single 64-bit word or a vector of words.  There is
//! no dynamic growth: callers pre-size the universe and may only touch bits
//! below `bit_count()`.

use vstd::prelude::*;
use vstd::arithmetic::div_mod::{
    lemma_fundamental_div_mod, lemma_mod_bound,
};

verus! {

/// Whether bit `index` of `word` is set.
pub open spec fn word_bit(word: u64, index: u64) -> bool
    recommends
        index < 64,
{
    (word >> index) & 1u64 == 1u64
}

proof fn lemma_word_set_bit(word: u64, index: u64)
    by (bit_vector)
    requires
        index < 64,
    ensures
        forall|j: u64|
            j < 64 ==> #[trigger] word_bit(word | (1u64 << index), j) == (j == index
                || word_bit(word, j)),
{
}

proof fn lemma_word_unset_bit(word: u64, index: u64)
    by (bit_vector)
    requires
        index < 64,
    ensures
        forall|j: u64|
            j < 64 ==> #[trigger] word_bit(word & !(1u64 << index), j) == (j != index
                && word_bit(word, j)),
{
}

proof fn lemma_word_test_bit(word: u64, index: u64)
    by (bit_vector)
    requires
        index < 64,
    ensures
        (word & (1u64 << index) != 0) == word_bit(word, index),
{
}

/// A fixed universe of presence bits, indexed from 0 to `bit_count() - 1`.
pub trait BitSet: Sized {
    /// The number of bits of the universe.
    spec fn spec_bit_count(&self) -> nat;

    /// Whether bit `index` is set.
    spec fn spec_bit(&self, index: nat) -> bool;

    /// Sets a bit.
    fn set_bit(&mut self, bit: usize)
        requires
            bit < old(self).spec_bit_count(),
        ensures
            final(self).spec_bit_count() == old(self).spec_bit_count(),
            forall|j: nat|
                j < old(self).spec_bit_count() ==> #[trigger] final(self).spec_bit(j) == (j
                    == bit as nat || old(self).spec_bit(j)),
    ;

    /// Unsets a bit.
    fn unset_bit(&mut self, bit: usize)
        requires
            bit < old(self).spec_bit_count(),
        ensures
            final(self).spec_bit_count() == old(self).spec_bit_count(),
            forall|j: nat|
                j < old(self).spec_bit_count() ==> #[trigger] final(self).spec_bit(j) == (j
                    != bit as nat && old(self).spec_bit(j)),
    ;

    /// Returns the value of a bit.
    fn bit(&self, bit: usize) -> (r: bool)
        requires
            bit < self.spec_bit_count(),
        ensures
            r == self.spec_bit(bit as nat),
    ;

    /// Returns the total number of bits of the bitset.
    fn bit_count(&self) -> (r: usize)
        requires
            self.spec_bit_count() <= usize::MAX,
        ensures
            r == self.spec_bit_count(),
    ;
}

impl BitSet for u64 {
    open spec fn spec_bit_count(&self) -> nat {
        64
    }

    open spec fn spec_bit(&self, index: nat) -> bool {
        word_bit(*self, index as u64)
    }

    fn set_bit(&mut self, bit: usize) {
        proof {
            lemma_word_set_bit(*old(self), bit as u64);
        }
        *self = *self | (1u64 << (bit as u64));
    }

    fn unset_bit(&mut self, bit: usize) {
        proof {
            lemma_word_unset_bit(*old(self), bit as u64);
        }
        *self = *self & !(1u64 << (bit as u64));
    }

    fn bit(&self, bit: usize) -> (r: bool) {
        proof {
            lemma_word_test_bit(*self, bit as u64);
        }
        (*self & (1u64 << (bit as u64))) != 0
    }

    fn bit_count(&self) -> (r: usize) {
        64
    }
}

impl BitSet for Vec<u64> {
    open spec fn spec_bit_count(&self) -> nat {
        self@.len() * 64
    }

    open spec fn spec_bit(&self, index: nat) -> bool {
        word_bit(self@[index as int / 64], (index % 64) as u64)
    }

    fn set_bit(&mut self, bit: usize) {
        proof {
            lemma_cell_index(self@.len() as int, bit as int);
        }
        let cell = bit / 64;
        let remainder = bit % 64;
        let updated = self[cell] | (1u64 << (remainder as u64));
        proof {
            lemma_word_set_bit(self@[cell as int], remainder as u64);
            lemma_bit_identity(bit as int);
            assert forall|j: nat| j < self@.len() * 64 implies #[trigger] word_bit(
                self@.update(cell as int, updated)[j as int / 64],
                (j % 64) as u64,
            ) == (j == bit as nat || self.spec_bit(j)) by {
                lemma_bit_identity(j as int);
                lemma_cell_index(self@.len() as int, j as int);
            };
        }
        self.set(cell, updated);
    }

    fn unset_bit(&mut self, bit: usize) {
        proof {
            lemma_cell_index(self@.len() as int, bit as int);
        }
        let cell = bit / 64;
        let remainder = bit % 64;
        let updated = self[cell] & !(1u64 << (remainder as u64));
        proof {
            lemma_word_unset_bit(self@[cell as int], remainder as u64);
            lemma_bit_identity(bit as int);
            assert forall|j: nat| j < self@.len() * 64 implies #[trigger] word_bit(
                self@.update(cell as int, updated)[j as int / 64],
                (j % 64) as u64,
            ) == (j != bit as nat && self.spec_bit(j)) by {
                lemma_bit_identity(j as int);
                lemma_cell_index(self@.len() as int, j as int);
            };
        }
        self.set(cell, updated);
    }

    fn bit(&self, bit: usize) -> (r: bool) {
        proof {
            lemma_cell_index(self@.len() as int, bit as int);
        }
        let cell = bit / 64;
        let remainder = bit % 64;
        proof {
            lemma_word_test_bit(self@[cell as int], remainder as u64);
        }
        (self[cell] & (1u64 << (remainder as u64))) != 0
    }

    fn bit_count(&self) -> (r: usize) {
        self.len() * 64
    }
}

/// For an index below `len * 64`, the word holding it is below `len`, and
/// the in-word position is below 64.
proof fn lemma_cell_index(len: int, bit: int)
    requires
        0 <= bit < len * 64,
    ensures
        0 <= bit / 64 < len,
        0 <= bit % 64 < 64,
{
    lemma_mod_bound(bit, 64);
    lemma_fundamental_div_mod(bit, 64);
    assert(bit / 64 < len) by (nonlinear_arith)
        requires
            bit < len * 64,
            bit == 64 * (bit / 64) + bit % 64,
            0 <= bit % 64 < 64,
    ;
}

/// Two bit indices are equal exactly when their word and in-word positions
/// both agree.
proof fn lemma_bit_identity(bit: int)
    requires
        0 <= bit,
    ensures
        bit == 64 * (bit / 64) + bit % 64,
        0 <= bit % 64 < 64,
{
    lemma_mod_bound(bit, 64);
    lemma_fundamental_div_mod(bit, 64);
}

proof fn lemma_zero_word_has_no_bits()
    by (bit_vector)
    ensures
        forall|j: u64| j < 64 ==> !#[trigger] word_bit(0u64, j),
{
}

/// A bitmap of `words * 64` bits, all clear.
pub fn zeroed_bitset(words: usize) -> (r: Vec<u64>)
    requires
        words * 64 <= usize::MAX,
    ensures
        r@.len() == words,
        r.spec_bit_count() == words * 64,
        forall|j: nat| j < words * 64 ==> !r.spec_bit(j),
{
    let mut r: Vec<u64> = Vec::new();
    let mut i: usize = 0;
    while i < words
        invariant
            i <= words,
            r@.len() == i,
            forall|k: int| 0 <= k < i ==> r@[k] == 0u64,
        decreases words - i,
    {
        r.push(0u64);
        i += 1;
    }
    proof {
        lemma_zero_word_has_no_bits();
        assert forall|j: nat| j < words * 64 implies !r.spec_bit(j) by {
            lemma_cell_index(r@.len() as int, j as int);
            lemma_bit_identity(j as int);
        };
    }
    r
}

} // verus!
