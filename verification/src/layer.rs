//! A single layer of bits: a run of words.
use vstd::prelude::*;
use vstd::std_specs::iter::IteratorSpec;

use crate::bits::{bit, BITS, lemma_bit_test};
use crate::levels::zeros;

verus! {

/// A single layer of bits.
#[derive(Clone, Debug, PartialEq, Eq)]
pub struct Layer {
    bits: Vec<usize>,
}

impl View for Layer {
    type V = Seq<usize>;

    closed spec fn view(&self) -> Seq<usize> {
        self.bits@
    }
}

impl Layer {
    /// Allocate a new layer of `cap` words, all zero.
    pub fn with_capacity(cap: usize) -> (r: Layer)
        ensures
            r@ == zeros(cap as nat),
    {
        let bits = vec![0usize; cap];
        let r = Layer { bits };
        assert(r@ =~= zeros(cap as nat));
        r
    }

    /// An iterator over the words of the layer.
    pub fn iter(&self) -> (r: std::slice::Iter<'_, usize>)
        ensures
            r.remaining().unref() == self@,
    {
        let words = self.bits.as_slice();
        let r = words.iter();
        proof {
            vstd::std_specs::slice::axiom_spec_slice_iter(words);
        }
        r
    }

    /// The words of the layer.
    pub fn as_slice(&self) -> (r: &[usize])
        ensures
            r@ == self@,
    {
        self.bits.as_slice()
    }

    /// The words of the layer, to change in place.
    pub fn as_mut_slice(&mut self) -> (r: &mut [usize])
        ensures
            r@ == old(self)@,
            final(r)@ == final(self)@,
    {
        self.bits.as_mut_slice()
    }

    /// Grow the layer to `new` words, the added ones zero. A layer that already
    /// has `new` words or more is left as it is.
    pub fn grow(&mut self, new: usize)
        ensures
            old(self)@.len() >= new ==> final(self)@ == old(self)@,
            old(self)@.len() < new ==> final(self)@ == old(self)@ + zeros(
                (new - old(self)@.len()) as nat,
            ),
    {
        let cap = self.bits.len();
        if cap >= new {
            return;
        }
        self.bits.resize(new, 0);
        proof {
            let tail = zeros((new - cap) as nat);
            assert forall|i: int| 0 <= i < new implies #[trigger] self.bits@[i] == (old(self)@
                + tail)[i] by {
                if i < cap {
                    assert(self.bits@.subrange(0, cap as int)[i] == old(self)@[i]);
                }
            }
            assert(self.bits@ =~= old(self)@ + tail);
        }
    }

    /// Set bit `offset` of word `slot`.
    pub fn set(&mut self, slot: usize, offset: usize)
        requires
            slot < old(self)@.len(),
            offset < BITS,
        ensures
            final(self)@ == old(self)@.update(
                slot as int,
                old(self)@[slot as int] | (1usize << offset),
            ),
    {
        *self.slot_mut(slot) |= 1usize << offset;
    }

    /// Clear bit `offset` of word `slot`.
    pub fn clear(&mut self, slot: usize, offset: usize)
        requires
            slot < old(self)@.len(),
            offset < BITS,
        ensures
            final(self)@ == old(self)@.update(
                slot as int,
                old(self)@[slot as int] & !(1usize << offset),
            ),
    {
        *self.slot_mut(slot) &= !(1usize << offset);
    }

    /// Test bit `offset` of word `slot`.
    pub fn test(&self, slot: usize, offset: usize) -> (r: bool)
        requires
            slot < self@.len(),
            offset < BITS,
        ensures
            r == bit(self@[slot as int], offset as nat),
    {
        proof {
            lemma_bit_test(self@[slot as int], offset);
        }
        *self.slot(slot) & (1usize << offset) > 0
    }

    /// Word `slot` of the layer.
    pub(crate) fn slot(&self, slot: usize) -> (r: &usize)
        requires
            slot < self@.len(),
        ensures
            *r == self@[slot as int],
    {
        &self.bits[slot]
    }

    /// Word `slot` of the layer, to change in place.
    pub(crate) fn slot_mut(&mut self, slot: usize) -> (r: &mut usize)
        requires
            slot < old(self)@.len(),
        ensures
            *r == old(self)@[slot as int],
            final(self)@ == old(self)@.update(slot as int, *final(r)),
    {
        &mut self.bits[slot]
    }
}

impl From<Vec<usize>> for Layer {
    fn from(value: Vec<usize>) -> (r: Self) {
        Layer { bits: value }
    }
}

impl vstd::std_specs::convert::FromSpecImpl<Vec<usize>> for Layer {
    open spec fn obeys_from_spec() -> bool {
        true
    }

    closed spec fn from_spec(v: Vec<usize>) -> Layer {
        Layer { bits: v }
    }
}

/// A layer made from a vector of words holds those words.
pub proof fn lemma_layer_from(v: Vec<usize>)
    ensures
        <Layer as vstd::std_specs::convert::FromSpec<Vec<usize>>>::from_spec(v)@ == v@,
{
}

} // verus!
