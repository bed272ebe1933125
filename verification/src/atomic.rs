//! The same bit set, with words that other threads may set bits in.
use vstd::prelude::*;
use std::sync::atomic::{AtomicUsize, Ordering};

use crate::bits::{
    BITS, bit, span, word_bits, lemma_word_bits, lemma_span_pos, lemma_div_span_succ, lemma_bit_or,
    lemma_word_split,
};
use crate::layout::{
    layer_sizes, max_capacity, capacity_for, ceil_div, words_for, lemma_layer_sizes,
    lemma_ceil_div_bounds, lemma_max_capacity,
};
use crate::levels::{layer_bit, lemma_block_fits, lemma_block_in_words};

verus! {

/// A single layer of the bitset, that can be atomically updated.
pub struct AtomicLayer {
    bits: Vec<AtomicUsize>,
}

impl AtomicLayer {
    /// The number of words in the layer.
    pub closed spec fn len(&self) -> nat {
        self.bits@.len()
    }

    /// A layer of atomic words holding `words`.
    pub(crate) fn from_words(words: &[usize]) -> (r: AtomicLayer)
        ensures
            r.len() == words@.len(),
    {
        let mut bits: Vec<AtomicUsize> = Vec::new();
        let mut i: usize = 0;
        while i < words.len()
            invariant
                i <= words@.len(),
                bits@.len() == i,
            decreases words@.len() - i,
        {
            bits.push(AtomicUsize::new(words[i]));
            i = i + 1;
        }
        AtomicLayer { bits }
    }

    /// The words of the layer, as they are read now.
    pub(crate) fn load_words(&self) -> (r: Vec<usize>)
        ensures
            r@.len() == self.len(),
    {
        let mut words: Vec<usize> = Vec::new();
        let mut i: usize = 0;
        while i < self.bits.len()
            invariant
                i <= self.bits@.len(),
                words@.len() == i,
            decreases self.bits@.len() - i,
        {
            words.push(self.bits[i].load(Ordering::Relaxed));
            i = i + 1;
        }
        words
    }

    /// Set the given bit in this layer atomically, leaving the other bits of
    /// the word as they are.
    ///
    /// This allows mutating the layer through a shared reference, so the
    /// word it changes is not part of the specification: only the bounds of
    /// the slot and the offset are.
    pub fn set(&self, slot: usize, offset: usize)
        requires
            slot < self.len(),
            offset < BITS,
    {
        // Ordering: We rely on external synchronization when testing the layers
        // So total memory ordering does not matter as long as we apply all
        // necessary operations to all layers - which is guaranteed by
        // [AtomicBitSet::set].
        self.bits[slot].fetch_or(1usize << offset, Ordering::Relaxed);
    }
}

/// The bitwise union of two runs of words of the same length.
fn union_words(a: &[usize], b: &[usize]) -> (r: Vec<usize>)
    requires
        a@.len() == b@.len(),
    ensures
        r@.len() == a@.len(),
        forall|i: int| 0 <= i < a@.len() ==> #[trigger] r@[i] == a@[i] | b@[i],
{
    let mut r: Vec<usize> = Vec::new();
    let mut i: usize = 0;
    while i < a.len()
        invariant
            a@.len() == b@.len(),
            i <= a@.len(),
            r@.len() == i,
            forall|k: int| 0 <= k < i ==> #[trigger] r@[k] == a@[k] | b@[k],
        decreases a@.len() - i,
    {
        r.push(a[i] | b[i]);
        i = i + 1;
    }
    r
}

/// The same as [`crate::bitset::BitSet`], except it provides atomic methods.
///
/// Its words can be changed through a shared reference, by any thread, so
/// what they hold now is not part of its specification: its layout is, and
/// so are the words of layer 0 that it was made with. Setting a bit
/// atomically never clears one, so every position that the set was made with
/// is still in it.
pub struct AtomicBitSet {
    /// Layers of bits.
    layers: Vec<AtomicLayer>,
    /// The capacity of the bit set in number of bits it can store.
    cap: usize,
    /// The words of layer 0 as they were when the set was made.
    base: Vec<usize>,
}

impl AtomicBitSet {
    /// The number of positions the set can hold.
    pub closed spec fn spec_capacity(&self) -> nat {
        self.cap as nat
    }

    /// The number of words of each layer, from layer 0 up.
    pub closed spec fn layer_lens(&self) -> Seq<nat> {
        self.layers@.map_values(|l: AtomicLayer| l.len())
    }

    /// The words of layer 0 as they were when the set was made.
    pub closed spec fn kept_words(&self) -> Seq<usize> {
        self.base@
    }

    /// The positions the set was made with: those below the capacity whose
    /// bits were set in layer 0 when the set was made.
    pub open spec fn kept(&self) -> Set<nat> {
        Set::new(|p: nat| p < self.spec_capacity() && layer_bit(self.kept_words(), p))
    }

    /// The layers are as many and as long as the capacity calls for, and so
    /// are the words that the set was made with.
    pub open spec fn wf(&self) -> bool {
        &&& self.layer_lens() == layer_sizes(self.spec_capacity())
        &&& self.spec_capacity() <= max_capacity()
        &&& self.spec_capacity() == 0 || capacity_for(self.spec_capacity()) == self.spec_capacity()
        &&& self.kept_words().len() == words_for(self.spec_capacity())
    }

    /// Assemble a set from its layers and the words of layer 0 they were made
    /// from.
    pub(crate) fn from_parts(layers: Vec<AtomicLayer>, cap: usize, base: Vec<usize>) -> (r:
        AtomicBitSet)
        ensures
            r.spec_capacity() == cap,
            r.layer_lens() == layers@.map_values(|l: AtomicLayer| l.len()),
            r.kept_words() == base@,
    {
        AtomicBitSet { layers, cap, base }
    }

    /// Construct a new, empty atomic bit set.
    pub fn new() -> (r: Self)
        ensures
            r.wf(),
            r.spec_capacity() == 0,
            r.kept() == Set::<nat>::empty(),
    {
        let r = Self { layers: Vec::new(), cap: 0, base: Vec::new() };
        proof {
            lemma_layer_sizes(0);
            lemma_max_capacity();
            lemma_word_bits();
            lemma_ceil_div_bounds(0, word_bits());
            assert(r.layer_lens() =~= layer_sizes(0));
            assert(r.kept() =~= Set::<nat>::empty());
        }
        r
    }

    /// Get the current capacity of the bitset.
    pub fn capacity(&self) -> (r: usize)
        ensures
            r == self.spec_capacity(),
    {
        self.cap
    }

    /// Set the given bit atomically: in every layer, the bit that stands for
    /// the block holding `position`.
    ///
    /// We can do this to an [`AtomicBitSet`] since the required modifications
    /// that needs to be performed against each layer are idempotent of the
    /// order in which they are applied. The words it changes are not part of
    /// the specification; the bounds of every slot it writes are.
    pub fn set(&self, position: usize)
        requires
            self.wf(),
            position < self.spec_capacity(),
    {
        let n = self.layers.len();
        let ghost c = self.cap as nat;
        proof {
            lemma_word_bits();
            lemma_layer_sizes(c);
            assert(self.layer_lens().len() == n);
        }
        let mut pos = position;
        let mut d: usize = 0;
        while d < n
            invariant
                self.wf(),
                n == self.layers@.len(),
                c == self.cap,
                position < c,
                BITS == word_bits(),
                d <= n,
                n == layer_sizes(c).len(),
                forall|k: int|
                    0 <= k < layer_sizes(c).len() ==> #[trigger] layer_sizes(c)[k] == ceil_div(
                        c,
                        span((k + 1) as nat),
                    ),
                pos == position as nat / span(d as nat),
            decreases n - d,
        {
            let slot = pos / BITS;
            let offset = pos % BITS;
            proof {
                let len = self.layers@[d as int].len();
                assert(self.layer_lens()[d as int] == len);
                lemma_span_pos((d + 1) as nat);
                lemma_ceil_div_bounds(c, span((d + 1) as nat));
                lemma_block_fits(position as nat, d as nat, len);
                lemma_div_span_succ(position as nat, d as nat);
            }
            self.layers[d].set(slot, offset);
            pos = pos / BITS;
            d = d + 1;
        }
    }

    /// Convert into a [`crate::bitset::BitSet`] of the same capacity that
    /// holds the positions whose bits layer 0 holds now, with its summary
    /// layers built from them. It holds every position that the set was made
    /// with; which others it holds depends on the bits set atomically since,
    /// which the specification does not follow.
    pub fn into_local(self) -> (r: crate::bitset::BitSet)
        requires
            self.wf(),
        ensures
            r.wf(),
            r.spec_capacity() == self.spec_capacity(),
            forall|p: nat|
                #![trigger self.kept().contains(p)]
                #![trigger r@.contains(p)]
                self.kept().contains(p) ==> r@.contains(p),
    {
        let ghost c = self.cap as nat;
        proof {
            lemma_max_capacity();
            lemma_word_bits();
            lemma_layer_sizes(c);
        }
        if self.layers.len() == 0 {
            let r = crate::bitset::BitSet::with_capacity(self.cap);
            proof {
                assert forall|p: nat| #[trigger] self.kept().contains(p) implies r@.contains(p) by {
                    assert(p < c);
                }
            }
            return r;
        }
        let loaded = self.layers[0].load_words();
        proof {
            assert(self.layer_lens()[0] == self.layers@[0].len());
            assert(loaded@.len() == ceil_div(c, span(1)));
            lemma_span_pos(1);
            lemma_ceil_div_bounds(c, span(1));
        }
        let words = union_words(loaded.as_slice(), self.base.as_slice());
        let r = crate::bitset::BitSet::from_layer_words(words.as_slice(), self.cap);
        proof {
            assert forall|p: nat| #[trigger] self.kept().contains(p) implies r@.contains(p) by {
                let w = p / word_bits();
                let k = p % word_bits();
                lemma_word_split(p);
                lemma_block_in_words(words@.len(), p);
                lemma_bit_or(loaded@[w as int], self.base@[w as int], k as usize);
                assert(words@[w as int] == loaded@[w as int] | self.base@[w as int]);
                assert(layer_bit(words@, p));
            }
        }
        r
    }
}

impl Default for AtomicBitSet {
    fn default() -> (r: Self)
        ensures
            r.wf(),
            r.spec_capacity() == 0,
            r.kept() == Set::<nat>::empty(),
    {
        Self::new()
    }
}

} // verus!
