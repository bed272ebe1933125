//! The layered bit set, its iterator and its draining iterator.
use vstd::prelude::*;

use crate::bits::{
    BITS, bit, span, word_bits, word_shift, shift_for, lowest_bit, lemma_word_bits,
    lemma_span_pos, lemma_span_succ, lemma_span_monotone, lemma_div_span_succ, lemma_word_split,
    lemma_word_join, lemma_block_bounds, lemma_shr_span, lemma_shl_span, lemma_div_span_adds,
    lemma_bit_start, lemma_word_end, lemma_bit_mask_below,
};
use crate::layer::Layer;
use crate::atomic::{AtomicBitSet, AtomicLayer};
use crate::layout::{
    bit_set_layout, round_capacity_up, layer_sizes, capacity_for, max_capacity, ceil_div,
    lemma_layer_sizes, lemma_layer_sizes_monotone, lemma_capacity_for, lemma_ceil_div_bounds,
    lemma_max_capacity, lemma_layer_bounds,
};
use crate::levels::{
    has_block, level_ok, below, zeros, lemma_word_nonzero, lemma_level_insert, lemma_level_remove,
    lemma_level_remove_kept, lemma_has_block_up, lemma_has_block_zero, lemma_level_grow,
    lemma_level_top, lemma_level_zeros, lemma_top_word, lemma_block_fits, lemma_word_bit,
    lemma_clear_bits,
};

verus! {

/// The words of each layer, from layer 0 up.
pub open spec fn words_of(layers: Seq<Layer>) -> Seq<Seq<usize>> {
    layers.map_values(|l: Layer| l@)
}

/// `words` are the layers of a bit set of capacity `cap` that holds the
/// positions `s`: there are as many layers, as long, as the capacity calls
/// for; the bits of each layer say which of its blocks hold a position of `s`;
/// and every position of `s` lies below the capacity.
pub open spec fn represents(words: Seq<Seq<usize>>, s: Set<nat>, cap: nat) -> bool {
    &&& words.len() == layer_sizes(cap).len()
    &&& forall|d: int| 0 <= d < words.len() ==> (#[trigger] words[d]).len() == layer_sizes(cap)[d]
    &&& forall|d: int| 0 <= d < words.len() ==> level_ok(#[trigger] words[d], d as nat, s)
    &&& below(s, cap)
}

/// A sparse, layered bit set.
///
/// Layered bit sets support efficient iteration and draining since they
/// maintain summary layers of the bits which are set in layers below it.
#[derive(Clone)]
pub struct BitSet {
    /// Layers of bits.
    layers: Vec<Layer>,
    /// The capacity of the bitset in number of bits it can store.
    cap: usize,
    /// The positions held.
    elems: Ghost<Set<nat>>,
}

impl View for BitSet {
    type V = Set<nat>;

    closed spec fn view(&self) -> Set<nat> {
        self.elems@
    }
}

impl BitSet {
    /// The words of each layer, from layer 0 up.
    pub closed spec fn layer_words(&self) -> Seq<Seq<usize>> {
        words_of(self.layers@)
    }

    /// The number of positions the set can hold without growing.
    pub closed spec fn spec_capacity(&self) -> nat {
        self.cap as nat
    }

    /// The layers hold exactly the positions of the set, and the capacity is
    /// within what a word can index.
    pub open spec fn wf(&self) -> bool {
        &&& represents(self.layer_words(), self@, self.spec_capacity())
        &&& self.spec_capacity() <= max_capacity()
        &&& self.spec_capacity() == 0 || capacity_for(self.spec_capacity()) == self.spec_capacity()
    }

    proof fn lemma_words(&self)
        ensures
            self.layer_words().len() == self.layers@.len(),
            forall|d: int|
                #![trigger self.layers@[d]]
                #![trigger self.layer_words()[d]]
                0 <= d < self.layers@.len() ==> self.layer_words()[d] == self.layers@[d]@,
    {
    }

    /// Construct a new, empty BitSet with an empty capacity.
    pub fn new() -> (r: Self)
        ensures
            r.wf(),
            r@ == Set::<nat>::empty(),
            r.spec_capacity() == 0,
    {
        let r = Self { layers: Vec::new(), cap: 0, elems: Ghost(Set::empty()) };
        proof {
            lemma_layer_sizes(0);
            lemma_max_capacity();
            assert(r.layer_words() =~= seq![]);
        }
        r
    }

    /// Construct a new, empty BitSet with the specified capacity, rounded up
    /// as `reserve` does.
    pub fn with_capacity(capacity: usize) -> (r: Self)
        requires
            capacity <= max_capacity(),
        ensures
            r.wf(),
            r@ == Set::<nat>::empty(),
            r.spec_capacity() == capacity_for(capacity as nat),
    {
        let mut this = Self::new();
        this.reserve(capacity);
        this
    }

    /// Test if the bit set is empty.
    pub fn is_empty(&self) -> (r: bool)
        requires
            self.wf(),
        ensures
            r == (self@ == Set::<nat>::empty()),
    {
        let n = self.layers.len();
        if n == 0 {
            proof {
                lemma_layer_sizes(self.cap as nat);
                if self@ != Set::<nat>::empty() {
                    assert(exists|x: nat| self@.contains(x)) by {
                        if !(exists|x: nat| self@.contains(x)) {
                            assert(self@ =~= Set::<nat>::empty());
                        }
                    }
                    let p = choose|x: nat| self@.contains(x);
                    assert(p < self.cap);
                }
            }
            return true;
        }
        let top = &self.layers[n - 1];
        proof {
            self.lemma_words();
            lemma_layer_sizes(self.cap as nat);
            let d = (n - 1) as nat;
            assert(level_ok(self.layer_words()[d as int], d, self@));
            assert(top@.len() == 1);
            assert forall|p: nat| #[trigger] self@.contains(p) implies p < span(d + 1) by {
                assert(p < self.cap);
            }
            lemma_top_word(top@, d, self@);
        }
        *top.slot(0) == 0
    }

    /// Get the current capacity of the bitset.
    pub fn capacity(&self) -> (r: usize)
        ensures
            r == self.spec_capacity(),
    {
        self.cap
    }

    /// Return a slice of the underlying, raw layers.
    pub fn as_slice(&self) -> (r: &[Layer])
        ensures
            words_of(r@) == self.layer_words(),
            self.wf() ==> represents(words_of(r@), self@, self.spec_capacity()),
    {
        self.layers.as_slice()
    }

    /// Return a mutable slice of the underlying, raw layers. Whatever is
    /// written through it becomes the layers of the set; the set keeps its
    /// positions and capacity as far as its specification goes, so it stays
    /// well formed only if the layers still represent them.
    pub fn as_mut_slice(&mut self) -> (r: &mut [Layer])
        ensures
            words_of(r@) == old(self).layer_words(),
            words_of(final(r)@) == final(self).layer_words(),
            final(self)@ == old(self)@,
            final(self).spec_capacity() == old(self).spec_capacity(),
    {
        self.layers.as_mut_slice()
    }

    /// Set the given bit, growing the set first when the position lies at or
    /// beyond its capacity.
    pub fn set(&mut self, position: usize)
        requires
            old(self).wf(),
            position < max_capacity(),
        ensures
            final(self).wf(),
            final(self)@ == old(self)@.insert(position as nat),
            final(self).spec_capacity() == if position < old(self).spec_capacity() {
                old(self).spec_capacity()
            } else {
                capacity_for((position + 1) as nat)
            },
    {
        proof {
            lemma_max_capacity();
        }
        if position >= self.cap {
            self.reserve(position + 1);
        }
        proof {
            lemma_capacity_for((position + 1) as nat);
            lemma_word_bits();
        }
        let ghost s0 = self.elems@;
        let ghost s1 = s0.insert(position as nat);
        let ghost c = self.cap as nat;
        let n = self.layers.len();
        proof {
            self.lemma_words();
            lemma_layer_sizes(c);
        }
        let mut pos = position;
        let mut d: usize = 0;
        while d < n
            invariant
                n == self.layers@.len(),
                self.cap == c,
                self.elems@ == s0,
                s1 == s0.insert(position as nat),
                c <= max_capacity(),
                position < c,
                below(s0, c),
                BITS == word_bits(),
                d <= n,
                n == layer_sizes(c).len(),
                forall|k: int| 0 <= k < n ==> #[trigger] self.layers@[k]@.len() == layer_sizes(c)[k],
                forall|k: int|
                    0 <= k < layer_sizes(c).len() ==> #[trigger] layer_sizes(c)[k] == ceil_div(
                        c,
                        span((k + 1) as nat),
                    ),
                forall|k: int| 0 <= k < d ==> level_ok(#[trigger] self.layers@[k]@, k as nat, s1),
                forall|k: int|
                    d <= k < n ==> level_ok(#[trigger] self.layers@[k]@, k as nat, s0),
                pos == position as nat / span(d as nat),
            decreases n - d,
        {
            let slot = pos / BITS;
            let offset = pos % BITS;
            proof {
                let len = self.layers@[d as int]@.len();
                lemma_span_pos((d + 1) as nat);
                lemma_ceil_div_bounds(c, span((d + 1) as nat));
                lemma_block_fits(position as nat, d as nat, len);
                lemma_level_insert(self.layers@[d as int]@, d as nat, s0, position as nat);
            }
            self.layers[d].set(slot, offset);
            pos = pos / BITS;
            d = d + 1;
        }
        self.elems = Ghost(s1);
        proof {
            self.lemma_words();
        }
    }

    /// Clear the given bit.
    ///
    /// The position must lie within the capacity of the [`BitSet`].
    pub fn clear(&mut self, position: usize)
        requires
            old(self).wf(),
            position < old(self).spec_capacity(),
        ensures
            final(self).wf(),
            final(self)@ == old(self)@.remove(position as nat),
            final(self).spec_capacity() == old(self).spec_capacity(),
    {
        proof {
            lemma_word_bits();
        }
        let ghost s0 = self.elems@;
        let ghost s1 = s0.remove(position as nat);
        let ghost c = self.cap as nat;
        let n = self.layers.len();
        proof {
            self.lemma_words();
            lemma_layer_sizes(c);
        }
        let mut pos = position;
        let mut d: usize = 0;
        let mut going = true;
        while going && d < n
            invariant
                n == self.layers@.len(),
                self.cap == c,
                self.elems@ == s0,
                s1 == s0.remove(position as nat),
                c <= max_capacity(),
                position < c,
                below(s0, c),
                BITS == word_bits(),
                d <= n,
                n == layer_sizes(c).len(),
                forall|k: int| 0 <= k < n ==> #[trigger] self.layers@[k]@.len() == layer_sizes(c)[k],
                forall|k: int|
                    0 <= k < layer_sizes(c).len() ==> #[trigger] layer_sizes(c)[k] == ceil_div(
                        c,
                        span((k + 1) as nat),
                    ),
                forall|k: int| 0 <= k < d ==> level_ok(#[trigger] self.layers@[k]@, k as nat, s1),
                going ==> forall|k: int|
                    d <= k < n ==> level_ok(#[trigger] self.layers@[k]@, k as nat, s0),
                !going ==> forall|k: int|
                    d <= k < n ==> level_ok(#[trigger] self.layers@[k]@, k as nat, s1),
                going ==> !has_block(s1, d as nat, position as nat / span(d as nat)),
                pos == position as nat / span(d as nat),
            decreases n - d,
        {
            let slot = pos / BITS;
            let offset = pos % BITS;
            proof {
                let len = self.layers@[d as int]@.len();
                lemma_span_pos((d + 1) as nat);
                lemma_ceil_div_bounds(c, span((d + 1) as nat));
                lemma_block_fits(position as nat, d as nat, len);
                lemma_level_remove(self.layers@[d as int]@, d as nat, s0, position as nat);
            }
            self.layers[d].clear(slot, offset);
            let left = *self.layers[d].slot(slot);
            proof {
                let words = self.layers@[d as int]@;
                assert(level_ok(words, d as nat, s1));
                lemma_word_nonzero(words, d as nat, s1, slot as nat);
                if left != 0 {
                    assert forall|k: int| d < k < n implies level_ok(
                        #[trigger] self.layers@[k]@,
                        k as nat,
                        s1,
                    ) by {
                        lemma_has_block_up(s1, (d + 1) as nat, k as nat, position as nat);
                        lemma_level_remove_kept(self.layers@[k]@, k as nat, s0, position as nat);
                    }
                }
            }
            if left != 0 {
                going = false;
            }
            pos = pos / BITS;
            d = d + 1;
        }
        self.elems = Ghost(s1);
        proof {
            self.lemma_words();
            assert forall|p: nat| #[trigger] s1.contains(p) implies p < c by {
                assert(s0.contains(p));
            }
        }
    }

    /// Test if the given position is set.
    pub fn test(&self, position: usize) -> (r: bool)
        requires
            self.wf(),
        ensures
            r == self@.contains(position as nat),
    {
        if position >= self.cap {
            return false;
        }
        proof {
            lemma_word_bits();
            self.lemma_words();
            lemma_layer_sizes(self.cap as nat);
            let len = self.layers@[0]@.len();
            assert(len == layer_sizes(self.cap as nat)[0]);
            assert(len == ceil_div(self.cap as nat, span(1)));
            lemma_span_pos(1);
            lemma_ceil_div_bounds(self.cap as nat, span(1));
            assert(span(0) == 1);
            assert(position as nat / span(0) == position);
            lemma_block_fits(position as nat, 0, len);
            assert(level_ok(self.layer_words()[0], 0, self@));
            lemma_has_block_zero(self@, position as nat);
            assert(crate::levels::layer_bit(self.layers@[0]@, position as nat) == self@.contains(
                position as nat,
            ));
        }
        let slot = position / BITS;
        let offset = position % BITS;
        self.layers[0].test(slot, offset)
    }

    /// Reserve enough space to store the given number of elements.
    ///
    /// This will not reserve space for exactly as many elements specified, but
    /// will round up to the closest order of magnitude of 2 (see `capacity_for`).
    pub fn reserve(&mut self, cap: usize)
        requires
            old(self).wf(),
            cap <= max_capacity(),
        ensures
            final(self).wf(),
            final(self)@ == old(self)@,
            final(self).spec_capacity() == if old(self).spec_capacity() >= cap {
                old(self).spec_capacity()
            } else {
                capacity_for(cap as nat)
            },
    {
        if self.cap >= cap {
            return;
        }
        let ghost s = self.elems@;
        let ghost old_cap = self.cap as nat;
        let ghost requested = cap as nat;
        let cap = round_capacity_up(cap);
        proof {
            lemma_capacity_for(requested);
            crate::layout::lemma_capacity_rounding(requested);
            lemma_word_bits();
            lemma_max_capacity();
            lemma_layer_sizes(old_cap);
            lemma_layer_sizes(cap as nat);
            lemma_layer_sizes_monotone(old_cap, cap as nat);
            self.lemma_words();
        }
        let new = bit_set_layout(cap);
        let old_len = self.layers.len();
        let new_len = new.len();
        let ghost sizes = layer_sizes(cap as nat);
        let ghost old_sizes = layer_sizes(old_cap);
        let mut i: usize = 0;
        while i < old_len
            invariant
                old_len == self.layers@.len(),
                old_len == old_sizes.len(),
                new_len == new@.len(),
                new_len == sizes.len(),
                old_len <= new_len,
                self.cap == old_cap,
                self.elems@ == s,
                below(s, old_cap),
                old_sizes == layer_sizes(old_cap),
                sizes == layer_sizes(cap as nat),
                forall|d: int| 0 <= d < new_len ==> #[trigger] new@[d].cap == sizes[d],
                forall|d: int| 0 <= d < old_len ==> #[trigger] old_sizes[d] <= sizes[d],
                forall|d: int|
                    0 <= d < old_len ==> #[trigger] old_sizes[d] == ceil_div(
                        old_cap,
                        span((d + 1) as nat),
                    ),
                forall|d: int| 0 <= d < i ==> #[trigger] self.layers@[d]@.len() == sizes[d],
                forall|d: int|
                    i <= d < old_len ==> #[trigger] self.layers@[d]@.len() == old_sizes[d],
                forall|d: int|
                    0 <= d < old_len ==> level_ok(#[trigger] self.layers@[d]@, d as nat, s),
                i <= old_len,
            decreases old_len - i,
        {
            let l = new[i].cap;
            proof {
                let words = self.layers@[i as int]@;
                assert forall|p: nat| #[trigger] s.contains(p) implies p < words.len() * span(
                    (i + 1) as nat,
                ) by {
                    lemma_span_pos((i + 1) as nat);
                    lemma_ceil_div_bounds(old_cap, span((i + 1) as nat));
                    assert(p < old_cap);
                }
                lemma_level_grow(words, i as nat, s, l as nat);
            }
            if l > 0 {
                self.layers[i].grow(l);
            }
            proof {
                let words = self.layers@[i as int]@;
                assert(level_ok(words, i as nat, s));
            }
            i = i + 1;
        }
        if old_len == 0 {
            proof {
                if s != Set::<nat>::empty() {
                    assert(exists|x: nat| s.contains(x)) by {
                        if !(exists|x: nat| s.contains(x)) {
                            assert(s =~= Set::<nat>::empty());
                        }
                    }
                    let p = choose|x: nat| s.contains(x);
                    assert(p < old_cap);
                }
                assert(s == Set::<nat>::empty());
            }
            let mut k: usize = 0;
            while k < new_len
                invariant
                    old_len == 0,
                    new_len == new@.len(),
                    new_len == sizes.len(),
                    sizes == layer_sizes(cap as nat),
                    s == Set::<nat>::empty(),
                    self.elems@ == s,
                    self.layers@.len() == k,
                    k <= new_len,
                    forall|d: int| 0 <= d < new_len ==> #[trigger] new@[d].cap == sizes[d],
                    forall|d: int| 0 <= d < k ==> #[trigger] self.layers@[d]@.len() == sizes[d],
                    forall|d: int| 0 <= d < k ==> level_ok(#[trigger] self.layers@[d]@, d as nat, s),
                decreases new_len - k,
            {
                let layer = Layer::with_capacity(new[k].cap);
                proof {
                    lemma_level_zeros(k as nat, new@[k as int].cap as nat);
                }
                self.layers.push(layer);
                k = k + 1;
            }
        } else {
            let mut k: usize = old_len;
            while k < new_len
                invariant
                    old_len >= 1,
                    old_len <= k <= new_len,
                    new_len == new@.len(),
                    new_len == sizes.len(),
                    sizes == layer_sizes(cap as nat),
                    self.elems@ == s,
                    below(s, old_cap),
                    old_cap <= span(old_len as nat),
                    self.layers@.len() == k,
                    forall|d: int| 0 <= d < new_len ==> #[trigger] new@[d].cap == sizes[d],
                    forall|d: int| 0 <= d < new_len ==> #[trigger] sizes[d] >= 1,
                    forall|d: int| 0 <= d < k ==> #[trigger] self.layers@[d]@.len() == sizes[d],
                    forall|d: int| 0 <= d < k ==> level_ok(#[trigger] self.layers@[d]@, d as nat, s),
                decreases new_len - k,
            {
                let depth = k - 1;
                let mut layer = Layer::with_capacity(new[k].cap);
                let below_top = *self.layers[depth].slot(0);
                let first: usize = if below_top > 0 {
                    1
                } else {
                    0
                };
                *layer.slot_mut(0) = first;
                proof {
                    let words = self.layers@[depth as int]@;
                    assert(level_ok(words, depth as nat, s));
                    lemma_word_nonzero(words, depth as nat, s, 0);
                    lemma_span_monotone(old_len as nat, k as nat);
                    assert(below(s, span(k as nat))) by {
                        assert forall|p: nat| #[trigger] s.contains(p) implies p < span(
                            k as nat,
                        ) by {
                            assert(p < old_cap);
                        }
                    }
                    lemma_level_top(k as nat, s, first, new@[k as int].cap as nat);
                    assert(layer@ =~= seq![first] + zeros((new@[k as int].cap - 1) as nat));
                }
                self.layers.push(layer);
                k = k + 1;
            }
        }
        self.cap = cap;
        proof {
            self.lemma_words();
            assert forall|p: nat| #[trigger] s.contains(p) implies p < cap by {
                assert(p < old_cap);
            }
        }
    }
}

/// The snapshot of a drain in progress. This is created using
/// [Drain::snapshot].
#[derive(Clone, Copy)]
pub struct DrainSnapshot(usize, usize);

/// Draining may resume at word `index / span(depth + 1)` of the layer at
/// `depth`: every position of the set lies at or after the block of that word,
/// and, unless the set is empty, some lies in it.
spec fn drain_at(set: BitSet, index: nat, depth: nat) -> bool {
    &&& depth < set.layers@.len()
    &&& index / span(depth + 1) < set.layers@[depth as int]@.len()
    &&& depth == 0 ==> index % word_bits() == 0
    &&& forall|p: nat|
        #[trigger] set@.contains(p) ==> p / span(depth + 1) >= index / span(depth + 1)
    &&& set@ != Set::<nat>::empty() ==> has_block(set@, depth + 1, index / span(depth + 1))
}

impl DrainSnapshot {
    /// Draining `set` may resume from this snapshot.
    pub closed spec fn valid_for(self, set: BitSet) -> bool {
        drain_at(set, self.0 as nat, self.1 as nat)
    }
}

/// A draining iterator of a [`BitSet`]: each call of `next` removes the least
/// position of the set and returns it.
pub struct Drain<'a> {
    /// The set being drained.
    pub set: &'a mut BitSet,
    /// Where draining resumes; `None` once the set is known to be empty.
    pub state: Option<DrainSnapshot>,
}

impl<'a> Drain<'a> {
    /// The set is well formed, and draining can resume where `state` says.
    pub open spec fn inv(&self) -> bool {
        &&& self.set.wf()
        &&& match self.state {
            None => self.set@ == Set::<nat>::empty(),
            Some(snapshot) => snapshot.valid_for(*self.set),
        }
    }

    /// Save a snapshot of the of the draining iterator, unless it is done
    /// already. This can then be used by [BitSet::drain_from] to efficiently
    /// resume iteration from the given snapshot.
    pub fn snapshot(&self) -> (r: Option<DrainSnapshot>)
        ensures
            r == self.state,
    {
        self.state
    }

    /// Remove the least position of the set and return it, or return `None`
    /// when the set is empty.
    pub fn next(&mut self) -> (r: Option<usize>)
        requires
            old(self).inv(),
        ensures
            final(self).inv(),
            *final(final(self).set) == *final(old(self).set),
            final(self).set.spec_capacity() == old(self).set.spec_capacity(),
            final(self).state is None <==> final(self).set@ == Set::<nat>::empty(),
            match r {
                None => old(self).set@ == Set::<nat>::empty() && final(self).set@ == old(
                    self,
                ).set@,
                Some(x) => {
                    &&& old(self).set@.contains(x as nat)
                    &&& forall|y: nat| old(self).set@.contains(y) ==> x <= y
                    &&& final(self).set@ == old(self).set@.remove(x as nat)
                },
            },
    {
        let (mut index, mut depth) = match self.state {
            None => {
                return None;
            },
            Some(DrainSnapshot(index, depth)) => (index, depth),
        };
        let ghost s = self.set@;
        let ghost c = self.set.cap as nat;
        proof {
            lemma_word_bits();
            self.set.lemma_words();
            lemma_layer_sizes(c);
        }
        let n = self.set.layers.len();
        loop
            invariant
                self.set.wf(),
                self.set@ == s,
                self.set.cap == c,
                *self.set == *old(self).set,
                *final(self.set) == *final(old(self).set),
                n == self.set.layers@.len(),
                drain_at(*self.set, index as nat, depth as nat),
                BITS == word_bits(),
            ensures
                depth == 0,
                drain_at(*self.set, index as nat, depth as nat),
                index as nat / word_bits() < self.set.layers@[0]@.len(),
                self.set.layers@[0]@[(index as nat / word_bits()) as int] != 0,
                *self.set == *old(self).set,
            decreases depth,
        {
            proof {
                self.set.lemma_words();
                lemma_layer_bounds(c, depth as nat);
                lemma_shr_span(index, (depth + 1) as nat);
            }
            let offset = index >> shift_for(depth + 1);
            let slot = *self.set.layers[depth].slot(offset);
            let ghost words = self.set.layers@[depth as int]@;
            proof {
                assert(level_ok(words, depth as nat, s));
                lemma_word_nonzero(words, depth as nat, s, offset as nat);
            }
            if slot == 0 {
                proof {
                    if s != Set::<nat>::empty() {
                        assert(has_block(s, (depth + 1) as nat, offset as nat));
                    }
                    assert(s == Set::<nat>::empty());
                }
                self.state = None;
                return None;
            }
            if depth > 0 {
                let tail = lowest_bit(slot);
                proof {
                    let d = depth as nat;
                    let o = offset as nat;
                    let t = tail as nat;
                    let b = o * word_bits() + t;
                    lemma_span_succ(d);
                    lemma_word_bit(words, d, s, o, t);
                    assert((o * word_bits() + t) * span(d) == o * span(d + 1) + t * span(d))
                        by (nonlinear_arith)
                        requires
                            span(d + 1) == word_bits() * span(d),
                    ;
                    lemma_span_pos(d);
                    assert(o * span(d + 1) + t * span(d) < (o + 1) * span(d + 1))
                        by (nonlinear_arith)
                        requires
                            span(d + 1) == word_bits() * span(d),
                            t < word_bits(),
                            span(d) > 0,
                    ;
                    assert((o + 1) * span(d + 1) <= words.len() * span(d + 1)) by (nonlinear_arith)
                        requires
                            o < words.len(),
                    ;
                    lemma_layer_bounds(c, (d - 1) as nat);
                    lemma_shl_span(offset, d + 1);
                    assert(t * span(d) < span(d + 1)) by (nonlinear_arith)
                        requires
                            span(d + 1) == word_bits() * span(d),
                            t < word_bits(),
                            span(d) > 0,
                    ;
                    lemma_shl_span(tail, d);
                    let ni: nat = o * span(d + 1) + t * span(d);
                    // the new word lies in the layer below
                    let q = choose|q: nat| #![trigger s.contains(q)] s.contains(q) && q / span(d) == b;
                    assert(q < c);
                    lemma_span_pos(d);
                    lemma_ceil_div_bounds(c, span(d));
                    lemma_layer_sizes(c);
                    assert(self.set.layer_words()[(d - 1) as int] == self.set.layers@[(d
                        - 1) as int]@);
                    assert(layer_sizes(c)[(d - 1) as int] == ceil_div(
                        c,
                        span(((d - 1) + 1) as nat),
                    ));
                    assert(self.set.layers@[(d - 1) as int]@.len() == ceil_div(c, span(d)));
                    lemma_block_bounds(q, d, self.set.layers@[(d - 1) as int]@.len());
                    lemma_block_bounds(ni, d, b);
                    assert(ni / span(d) == b) by (nonlinear_arith)
                        requires
                            ni == b * span(d),
                            span(d) > 0,
                    ;
                    // positions of the set lie at or after the new block
                    assert forall|p: nat| #[trigger] s.contains(p) implies p / span(d) >= b by {
                        lemma_div_span_succ(p, d);
                        let pb = p / span(d);
                        lemma_word_split(pb);
                        if pb / word_bits() == o {
                            let j = pb % word_bits();
                            lemma_word_bit(words, d, s, o, j);
                            assert(has_block(s, d, pb));
                            assert(bit(words[o as int], j));
                            assert(j >= t);
                        } else {
                            assert(pb / word_bits() > o);
                            assert(pb >= b) by (nonlinear_arith)
                                requires
                                    pb == word_bits() * (pb / word_bits()) + pb % word_bits(),
                                    pb / word_bits() >= o + 1,
                                    b == o * word_bits() + t,
                                    t < word_bits(),
                            ;
                        }
                    }
                    if d - 1 == 0 {
                        lemma_word_bits();
                        assert(ni % word_bits() == 0) by {
                            assert(span(1) == word_bits());
                            assert(span(0) == 1);
                            assert(ni == word_bits() * (o * word_bits() + t)) by (nonlinear_arith)
                                requires
                                    ni == o * span(d + 1) + t * span(d),
                                    d == 1,
                                    span(d + 1) == word_bits() * span(d),
                                    span(d) == word_bits(),
                            ;
                            vstd::arithmetic::div_mod::lemma_mod_multiples_basic(
                                (o * word_bits() + t) as int,
                                word_bits() as int,
                            );
                            assert(word_bits() * (o * word_bits() + t) == (o * word_bits() + t)
                                * word_bits()) by (nonlinear_arith);
                        }
                    }
                }
                index = (offset << shift_for(depth + 1)) + (tail << shift_for(depth));
                depth = depth - 1;
            } else {
                proof {
                    lemma_word_bits();
                    assert(span(1) == word_bits());
                    lemma_shr_span(index, 1);
                }
                break;
            }
        }
        proof {
            self.set.lemma_words();
            lemma_layer_bounds(c, 0);
            lemma_shr_span(index, 1);
            assert(span(1) == word_bits());
        }
        let offset = index >> shift_for(1);
        let word = *self.set.layers[0].slot(offset);
        let trail = lowest_bit(word);
        let ghost words0 = self.set.layers@[0]@;
        let ghost found_n: nat = offset as nat * word_bits() + trail as nat;
        proof {
            let o = offset as nat;
            let t = trail as nat;
            lemma_word_split(index as nat);
            assert(index == word_bits() * o);
            assert(found_n == index + t) by (nonlinear_arith)
                requires
                    index == word_bits() * o,
                    found_n == o * word_bits() + t,
            ;
            assert(span(0) == 1);
            lemma_word_bit(words0, 0, s, o, t);
            lemma_has_block_zero(s, found_n);
            assert(found_n / span(0) == found_n);
            assert(s.contains(found_n));
            assert forall|y: nat| #[trigger] s.contains(y) implies found_n <= y by {
                assert(y / span(1) >= o);
                lemma_word_split(y);
                if y / word_bits() == o {
                    let j = y % word_bits();
                    lemma_has_block_zero(s, y);
                    assert(y / span(0) == y);
                    lemma_word_bit(words0, 0, s, o, j);
                    assert(y == o * word_bits() + j) by (nonlinear_arith)
                        requires
                            y == word_bits() * (y / word_bits()) + y % word_bits(),
                            y / word_bits() == o,
                            j == y % word_bits(),
                    ;
                    assert(bit(words0[o as int], j));
                    assert(j >= t);
                } else {
                    assert(y >= found_n) by (nonlinear_arith)
                        requires
                            y == word_bits() * (y / word_bits()) + y % word_bits(),
                            y / word_bits() >= o + 1,
                            found_n == o * word_bits() + t,
                            t < word_bits(),
                    ;
                }
            }
        }
        let found = index + trail;
        let ghost s1 = s.remove(found as nat);
        proof {
            lemma_word_join(offset as nat, trail as nat);
            assert(found_n / span(0) == found_n);
            assert((found_n / span(0)) / word_bits() == offset);
            lemma_has_block_zero(s1, found_n);
            lemma_level_remove(words0, 0, s, found_n);
        }
        self.set.layers[0].clear(offset, trail);
        self.set.elems = Ghost(s1);
        let left = *self.set.layers[0].slot(offset);
        proof {
            self.set.lemma_words();
            let words = self.set.layers@[0]@;
            assert(level_ok(words, 0, s1));
            lemma_word_nonzero(words, 0, s1, offset as nat);
            lemma_div_span_succ(found_n, 0);
        }
        if left != 0 {
            proof {
                let q = choose|q: nat|
                    #![trigger s1.contains(q)]
                    s1.contains(q) && q / span(1) == offset as nat;
                assert(s1.contains(q));
                assert forall|k: int| 0 < k < n implies level_ok(
                    #[trigger] self.set.layers@[k]@,
                    k as nat,
                    s1,
                ) by {
                    lemma_has_block_up(s1, 1, k as nat, found_n);
                    lemma_level_remove_kept(self.set.layers@[k]@, k as nat, s, found_n);
                }
                assert forall|p: nat| #[trigger] s1.contains(p) implies p < c by {
                    assert(s.contains(p));
                }
                assert(drain_at(*self.set, index as nat, 0));
            }
            self.state = Some(DrainSnapshot(index, 0));
            return Some(found);
        }
        let mut d: usize = 1;
        while d < n
            invariant
                1 <= d <= n,
                n == self.set.layers@.len(),
                n == layer_sizes(c).len(),
                self.set.cap == c,
                c <= max_capacity(),
                self.set.elems@ == s1,
                s1 == s.remove(found as nat),
                found_n == found,
                s.contains(found_n),
                forall|y: nat| #[trigger] s.contains(y) ==> found_n <= y,
                below(s, c),
                BITS == word_bits(),
                forall|k: int| 0 <= k < n ==> #[trigger] self.set.layers@[k]@.len() == layer_sizes(c)[k],
                forall|k: int|
                    0 <= k < layer_sizes(c).len() ==> #[trigger] layer_sizes(c)[k] == ceil_div(
                        c,
                        span((k + 1) as nat),
                    ),
                forall|k: int|
                    0 <= k < d ==> level_ok(#[trigger] self.set.layers@[k]@, k as nat, s1),
                forall|k: int|
                    d <= k < n ==> level_ok(#[trigger] self.set.layers@[k]@, k as nat, s),
                !has_block(s1, d as nat, found_n / span(d as nat)),
                *final(self.set) == *final(old(self).set),
                c == old(self).set.cap,
                s == old(self).set@,
                c == 0 || capacity_for(c) == c,
            decreases n - d,
        {
            proof {
                lemma_layer_bounds(c, d as nat);
                lemma_shr_span(found, (d + 1) as nat);
                lemma_shr_span(found, d as nat);
                let len = self.set.layers@[d as int]@.len();
                lemma_span_pos((d + 1) as nat);
                lemma_ceil_div_bounds(c, span((d + 1) as nat));
                lemma_block_fits(found_n, d as nat, len);
                lemma_level_remove(self.set.layers@[d as int]@, d as nat, s, found_n);
            }
            let off = found >> shift_for(d + 1);
            let bitpos = (found >> shift_for(d)) % BITS;
            self.set.layers[d].clear(off, bitpos);
            let w = *self.set.layers[d].slot(off);
            proof {
                let words = self.set.layers@[d as int]@;
                assert(level_ok(words, d as nat, s1));
                lemma_word_nonzero(words, d as nat, s1, off as nat);
                lemma_div_span_succ(found_n, d as nat);
            }
            if w != 0 {
                let t = lowest_bit(w);
                proof {
                    let dd = d as nat;
                    let q = choose|q: nat|
                        #![trigger s1.contains(q)]
                        s1.contains(q) && q / span(dd + 1) == off as nat;
                    assert(s1.contains(q));
                    let o = off as nat;
                    let words = self.set.layers@[d as int]@;
                    assert forall|k: int| d < k < n implies level_ok(
                        #[trigger] self.set.layers@[k]@,
                        k as nat,
                        s1,
                    ) by {
                        lemma_has_block_up(s1, dd + 1, k as nat, found_n);
                        lemma_level_remove_kept(self.set.layers@[k]@, k as nat, s, found_n);
                    }
                    assert forall|p: nat| #[trigger] s1.contains(p) implies p < c by {
                        assert(s.contains(p));
                    }
                    lemma_span_succ(dd);
                    lemma_span_pos(dd);
                    assert(t * span(dd) < span(dd + 1)) by (nonlinear_arith)
                        requires
                            span(dd + 1) == word_bits() * span(dd),
                            t < word_bits(),
                            span(dd) > 0,
                    ;
                    lemma_shl_span(t, dd);
                    assert((o + 1) * span(dd + 1) <= words.len() * span(dd + 1))
                        by (nonlinear_arith)
                        requires
                            o < words.len(),
                    ;
                    assert(words.len() == layer_sizes(c)[d as int]);
                    assert(o * span(dd + 1) <= (o + 1) * span(dd + 1)) by (nonlinear_arith);
                    lemma_shl_span(off, dd + 1);
                    let ni: nat = o * span(dd + 1) + (t as nat) * span(dd);
                    assert(ni < (o + 1) * span(dd + 1)) by (nonlinear_arith)
                        requires
                            ni == o * span(dd + 1) + t * span(dd),
                            t * span(dd) < span(dd + 1),
                    ;
                    lemma_block_bounds(ni, dd + 1, o);
                    assert(o * span(dd + 1) <= ni);
                    assert(ni / span(dd + 1) == o);
                    assert forall|p: nat| #[trigger] s1.contains(p) implies p / span(dd + 1) >= o by {
                        assert(s.contains(p));
                        assert(p >= found_n);
                        vstd::arithmetic::div_mod::lemma_div_is_ordered(
                            found_n as int,
                            p as int,
                            span(dd + 1) as int,
                        );
                    }
                    assert(drain_at(*self.set, ni, dd));
                }
                let new_index = (off << shift_for(d + 1)) + (t << shift_for(d));
                self.state = Some(DrainSnapshot(new_index, d));
                return Some(found);
            }
            d = d + 1;
        }
        proof {
            let l = n as nat;
            lemma_layer_sizes(c);
            assert(s1 =~= Set::<nat>::empty()) by {
                assert forall|p: nat| !s1.contains(p) by {
                    if s1.contains(p) {
                        assert(s.contains(p));
                        assert(p < c);
                        assert(p < span(l));
                        assert(found_n < span(l));
                        vstd::arithmetic::div_mod::lemma_basic_div(p as int, span(l) as int);
                        vstd::arithmetic::div_mod::lemma_basic_div(found_n as int, span(l) as int);
                        assert(has_block(s1, l, found_n / span(l)));
                    }
                }
            }
        }
        self.state = None;
        Some(found)
    }
}

/// The number of layers the iterator can track.
pub const MAX_LAYERS: usize = BITS / 4;

/// The position an iterator's search stands at: bit `masks[depth]` of word
/// `index / span(depth + 1)` of the layer at `depth`.
spec fn cursor_at(index: nat, depth: nat, masks: Seq<u8>) -> nat {
    (index / span(depth + 1)) * span(depth + 1) + masks[depth as int] as nat * span(depth)
}

/// A search state of an iterator over `set`: a word at `depth`, the bits of it
/// already passed, and, for each layer above, one past the bit the search went
/// down through.
spec fn iter_at(set: BitSet, index: nat, depth: nat, masks: Seq<u8>) -> bool {
    let l = set.layers@.len();
    &&& set.wf()
    &&& depth < l
    &&& l <= masks.len()
    &&& index / span(depth + 1) < set.layers@[depth as int]@.len()
    &&& depth == 0 ==> index % word_bits() == 0
    &&& forall|k: int| 0 <= k < l ==> #[trigger] masks[k] <= word_bits()
    &&& forall|k: int| 0 <= k < depth ==> #[trigger] masks[k] == 0
    &&& forall|k: int|
        depth < k < l ==> #[trigger] masks[k] == (index / span(k as nat)) % word_bits() + 1
}

/// No position of `s` lies from `lo` up to `hi`.
spec fn gap(s: Set<nat>, lo: nat, hi: nat) -> bool {
    forall|y: nat| #[trigger] s.contains(y) ==> !(lo <= y < hi)
}

proof fn lemma_layer_len(set: BitSet, d: nat)
    requires
        set.wf(),
        d < set.layers@.len(),
    ensures
        set.layers@[d as int]@.len() == ceil_div(set.cap as nat, span(d + 1)),
        set.layers@[d as int]@.len() * span(d + 1) < 2 * max_capacity(),
        word_shift() * (d + 1) < word_bits(),
        word_shift() * d < word_bits(),
        level_ok(set.layers@[d as int]@, d, set@),
{
    set.lemma_words();
    lemma_layer_sizes(set.cap as nat);
    lemma_layer_bounds(set.cap as nat, d);
    assert(set.layer_words()[d as int] == set.layers@[d as int]@);
    assert(layer_sizes(set.cap as nat)[d as int] == ceil_div(set.cap as nat, span(d + 1)));
}

proof fn lemma_cursor_at(set: BitSet, index: nat, d: nat, masks: Seq<u8>)
    requires
        iter_at(set, index, d, masks),
    ensures
        (index / span(d + 1)) * span(d + 1) <= cursor_at(index, d, masks),
        cursor_at(index, d, masks) <= (index / span(d + 1) + 1) * span(d + 1),
        masks[d as int] < word_bits() ==> cursor_at(index, d, masks) < (index / span(d + 1) + 1)
            * span(d + 1),
        masks[d as int] == word_bits() ==> cursor_at(index, d, masks) == (index / span(d + 1)
            + 1) * span(d + 1),
        cursor_at(index, d, masks) < 2 * max_capacity(),
        (index / span(d + 1) + 1) * span(d + 1) < 2 * max_capacity(),
{
    let o = index / span(d + 1);
    let m = masks[d as int] as nat;
    lemma_layer_len(set, d);
    lemma_span_succ(d);
    lemma_span_pos(d);
    let len = set.layers@[d as int]@.len();
    assert(m * span(d) <= span(d + 1)) by (nonlinear_arith)
        requires
            m <= word_bits(),
            span(d + 1) == word_bits() * span(d),
    ;
    assert(m < word_bits() ==> m * span(d) < span(d + 1)) by (nonlinear_arith)
        requires
            span(d + 1) == word_bits() * span(d),
            span(d) > 0,
    ;
    assert(m == word_bits() ==> m * span(d) == span(d + 1)) by (nonlinear_arith)
        requires
            span(d + 1) == word_bits() * span(d),
    ;
    assert(o * span(d + 1) + span(d + 1) == (o + 1) * span(d + 1)) by (nonlinear_arith);
    assert((o + 1) * span(d + 1) <= len * span(d + 1)) by (nonlinear_arith)
        requires
            o < len,
    ;
}

/// The search goes down through bit `t` of its word into the layer below.
proof fn lemma_iter_descend(set: BitSet, index: nat, d: nat, masks: Seq<u8>, t: nat)
    requires
        iter_at(set, index, d, masks),
        d > 0,
        masks[d as int] <= t < word_bits(),
        bit(set.layers@[d as int]@[(index / span(d + 1)) as int], t),
        forall|j: nat|
            masks[d as int] <= j < t ==> !#[trigger] bit(
                set.layers@[d as int]@[(index / span(d + 1)) as int],
                j,
            ),
    ensures
        ({
            let o = index / span(d + 1);
            let ni = o * span(d + 1) + t * span(d);
            let nm = masks.update(d as int, (t + 1) as u8);
            &&& o * span(d + 1) < 2 * max_capacity()
            &&& t * span(d) < span(d + 1)
            &&& ni < 2 * max_capacity()
            &&& iter_at(set, ni, (d - 1) as nat, nm)
            &&& cursor_at(ni, (d - 1) as nat, nm) == ni
            &&& cursor_at(index, d, masks) <= ni
            &&& gap(set@, cursor_at(index, d, masks), ni)
        }),
{
    let s = set@;
    let c = set.cap as nat;
    let o = index / span(d + 1);
    let m = masks[d as int] as nat;
    let words = set.layers@[d as int]@;
    let ni = o * span(d + 1) + t * span(d);
    let nm = masks.update(d as int, (t + 1) as u8);
    lemma_word_bits();
    lemma_layer_len(set, d);
    lemma_layer_len(set, (d - 1) as nat);
    lemma_cursor_at(set, index, d, masks);
    lemma_span_succ(d);
    lemma_bit_start(o, t, d);
    lemma_bit_start(o, m, d);
    lemma_clear_bits(words, d, s, o, m, t);
    lemma_word_bit(words, d, s, o, t);
    lemma_word_join(o, t);
    assert(t * span(d) >= m * span(d)) by (nonlinear_arith)
        requires
            t >= m,
    ;
    // the new word lies in the layer below
    let b = o * word_bits() + t;
    let q = choose|q: nat| #![trigger s.contains(q)] s.contains(q) && q / span(d) == b;
    assert(q < c);
    lemma_span_pos(d);
    lemma_ceil_div_bounds(c, span(d));
    lemma_block_bounds(q, d, set.layers@[(d - 1) as int]@.len());
    assert(ni / span(d) == b);
    // the masks above keep their meaning
    assert forall|k: int| d < k < set.layers@.len() implies #[trigger] nm[k] == (ni / span(
        k as nat,
    )) % word_bits() + 1 by {
        lemma_div_span_adds(ni, d + 1, (k - d - 1) as nat);
        lemma_div_span_adds(index, d + 1, (k - d - 1) as nat);
    }
    assert(nm[d as int] == (ni / span(d)) % word_bits() + 1);
    if d - 1 == 0 {
        assert(span(1) == word_bits());
        assert(span(0) == 1);
        assert(ni == word_bits() * (o * word_bits() + t)) by (nonlinear_arith)
            requires
                ni == o * span(d + 1) + t * span(d),
                d == 1,
                span(d + 1) == word_bits() * span(d),
                span(d) == word_bits(),
        ;
        vstd::arithmetic::div_mod::lemma_mod_multiples_basic(
            (o * word_bits() + t) as int,
            word_bits() as int,
        );
        assert(word_bits() * (o * word_bits() + t) == (o * word_bits() + t) * word_bits())
            by (nonlinear_arith);
    }
    assert((ni / span(d)) * span(d) == ni) by (nonlinear_arith)
        requires
            ni == (o * word_bits() + t) * span(d),
            ni / span(d) == o * word_bits() + t,
    ;
    assert(nm[(d - 1) as int] == 0);
    assert(cursor_at(ni, (d - 1) as nat, nm) == ni);
}

/// The search at layer 0 finds position `index + t`.
proof fn lemma_iter_found(set: BitSet, index: nat, masks: Seq<u8>, t: nat)
    requires
        iter_at(set, index, 0, masks),
        masks[0] <= t < word_bits(),
        bit(set.layers@[0]@[(index / span(1)) as int], t),
        forall|j: nat|
            masks[0] <= j < t ==> !#[trigger] bit(set.layers@[0]@[(index / span(1)) as int], j),
    ensures
        ({
            let x = index + t;
            let nm = masks.update(0, (t + 1) as u8);
            &&& set@.contains(x)
            &&& x < 2 * max_capacity()
            &&& cursor_at(index, 0, masks) <= x
            &&& gap(set@, cursor_at(index, 0, masks), x)
            &&& iter_at(set, index, 0, nm)
            &&& cursor_at(index, 0, nm) == x + 1
        }),
{
    let s = set@;
    let o = index / span(1);
    let m = masks[0] as nat;
    let words = set.layers@[0]@;
    lemma_word_bits();
    lemma_layer_len(set, 0);
    lemma_cursor_at(set, index, 0, masks);
    assert(span(0) == 1);
    assert(span(1) == word_bits());
    lemma_word_split(index);
    assert(index == word_bits() * o);
    assert(o * span(1) == index) by (nonlinear_arith)
        requires
            index == word_bits() * o,
            span(1) == word_bits(),
    ;
    lemma_clear_bits(words, 0, s, o, m, t);
    lemma_word_bit(words, 0, s, o, t);
    lemma_has_block_zero(s, o * word_bits() + t);
    assert((o * word_bits() + t) / span(0) == o * word_bits() + t);
    assert(o * word_bits() + t == index + t) by (nonlinear_arith)
        requires
            index == word_bits() * o,
    ;
    assert((o * word_bits() + m) * span(0) == index + m);
    assert((o * word_bits() + t) * span(0) == index + t);
    lemma_bit_start(o, t, 0);
}

/// Past every set bit of its word, the search has passed the whole word.
proof fn lemma_iter_word_done(set: BitSet, index: nat, d: nat, masks: Seq<u8>)
    requires
        iter_at(set, index, d, masks),
        forall|j: nat|
            masks[d as int] <= j < word_bits() ==> !#[trigger] bit(
                set.layers@[d as int]@[(index / span(d + 1)) as int],
                j,
            ),
    ensures
        gap(set@, cursor_at(index, d, masks), (index / span(d + 1) + 1) * span(d + 1)),
{
    let o = index / span(d + 1);
    let m = masks[d as int] as nat;
    lemma_word_bits();
    lemma_layer_len(set, d);
    lemma_clear_bits(set.layers@[d as int]@, d, set@, o, m, word_bits());
    lemma_span_succ(d);
    assert((o * word_bits() + m) * span(d) == o * span(d + 1) + m * span(d)) by (nonlinear_arith)
        requires
            span(d + 1) == word_bits() * span(d),
    ;
    assert((o * word_bits() + word_bits()) * span(d) == (o + 1) * span(d + 1))
        by (nonlinear_arith)
        requires
            span(d + 1) == word_bits() * span(d),
    ;
}

/// The search leaves its word for the word above it.
proof fn lemma_iter_climb(set: BitSet, index: nat, d: nat, masks: Seq<u8>)
    requires
        iter_at(set, index, d, masks),
        d + 1 < set.layers@.len(),
    ensures
        iter_at(set, index, d + 1, masks.update(d as int, 0u8)),
        cursor_at(index, d + 1, masks.update(d as int, 0u8)) == (index / span(d + 1) + 1) * span(
            d + 1,
        ),
{
    let c = set.cap as nat;
    let o = index / span(d + 1);
    let nd = d + 1;
    let nm = masks.update(d as int, 0u8);
    lemma_word_bits();
    lemma_layer_len(set, d);
    lemma_layer_len(set, nd);
    lemma_word_end(o, d);
    lemma_div_span_succ(index, nd);
    assert(nm[nd as int] == o % word_bits() + 1);
    let len_d = set.layers@[d as int]@.len();
    let len_up = set.layers@[nd as int]@.len();
    lemma_span_pos(d + 1);
    crate::layout::lemma_ceil_div_compose(c, span(d + 1), word_bits());
    lemma_span_succ(d + 1);
    lemma_ceil_div_bounds(len_d, word_bits());
    assert(len_up == ceil_div(len_d, word_bits()));
    lemma_block_bounds(o, 1, len_up);
    assert(o / word_bits() < len_up);
    assert forall|k: int| 0 <= k < nd implies #[trigger] nm[k] == 0 by {}
}

/// A search that leaves the top word has passed every position of the set.
proof fn lemma_iter_top(set: BitSet, index: nat, d: nat, masks: Seq<u8>)
    requires
        iter_at(set, index, d, masks),
        d + 1 == set.layers@.len(),
    ensures
        forall|y: nat| #[trigger] set@.contains(y) ==> y < (index / span(d + 1) + 1) * span(d + 1),
{
    let c = set.cap as nat;
    lemma_layer_sizes(c);
    let o = index / span(d + 1);
    assert forall|y: nat| #[trigger] set@.contains(y) implies y < (o + 1) * span(d + 1) by {
        assert(y < c);
        assert(c <= span(d + 1));
        assert(span(d + 1) <= (o + 1) * span(d + 1)) by (nonlinear_arith);
    }
}

/// An iterator over a [`BitSet`], yielding its positions in increasing order.
pub struct Iter<'a> {
    set: &'a BitSet,
    masks: [u8; MAX_LAYERS],
    index: usize,
    depth: usize,
    done: bool,
}

impl<'a> Iter<'a> {
    /// The positions being iterated over.
    pub closed spec fn items(&self) -> Set<nat> {
        self.set@
    }

    /// The least position the next call of `next` may return.
    pub closed spec fn next_pos(&self) -> nat {
        if self.done {
            self.set.cap as nat
        } else {
            cursor_at(self.index as nat, self.depth as nat, self.masks@)
        }
    }

    /// The iteration is over; every further call of `next` returns `None`.
    pub closed spec fn is_done(&self) -> bool {
        self.done
    }

    /// Orders the steps of a search that stays at one position: leaving a word
    /// that is used up goes upward, looking into a bit goes downward.
    closed spec fn phase(&self) -> nat {
        let l = self.set.layers@.len();
        if self.masks@[self.depth as int] == word_bits() {
            (3 * l - self.depth) as nat
        } else {
            self.depth as nat
        }
    }

    /// The iterator is at a valid search state, or done.
    pub closed spec fn inv(&self) -> bool {
        &&& self.set.wf()
        &&& !self.done ==> iter_at(*self.set, self.index as nat, self.depth as nat, self.masks@)
    }

    /// Advance the iterator: return the least position of the set at or after
    /// `next_pos()`, or `None` when there is none.
    pub fn next(&mut self) -> (r: Option<usize>)
        requires
            old(self).inv(),
        ensures
            final(self).inv(),
            final(self).items() == old(self).items(),
            old(self).is_done() ==> r is None && final(self).is_done(),
            match r {
                Some(x) => {
                    &&& old(self).items().contains(x as nat)
                    &&& old(self).next_pos() <= x
                    &&& forall|y: nat|
                        old(self).items().contains(y) && old(self).next_pos() <= y ==> x <= y
                    &&& final(self).next_pos() == x + 1
                    &&& !final(self).is_done()
                },
                None => {
                    &&& forall|y: nat| old(self).items().contains(y) ==> y < old(self).next_pos()
                    &&& final(self).is_done()
                },
            },
    {
        if self.done {
            return None;
        }
        let n = self.set.layers.len();
        let ghost s = self.set@;
        let ghost pos0 = self.next_pos();
        proof {
            lemma_word_bits();
            lemma_max_capacity();
            lemma_cursor_at(*self.set, self.index as nat, self.depth as nat, self.masks@);
        }
        loop
            invariant
                self.inv(),
                !self.done,
                self.set == old(self).set,
                s == self.set@,
                n == self.set.layers@.len(),
                pos0 == old(self).next_pos(),
                pos0 <= self.next_pos(),
                self.next_pos() < 2 * max_capacity(),
                forall|y: nat| #[trigger] s.contains(y) && pos0 <= y ==> self.next_pos() <= y,
                BITS == word_bits(),
                2 * max_capacity() <= usize::MAX,
            decreases (2 * max_capacity() - self.next_pos()) as nat, self.phase(),
        {
            let depth = self.depth;
            let ghost d = depth as nat;
            let ghost index = self.index as nat;
            let ghost masks = self.masks@;
            let ghost cur = self.next_pos();
            let ghost o = index / span(d + 1);
            proof {
                lemma_layer_len(*self.set, d);
                lemma_shr_span(self.index, d + 1);
                lemma_cursor_at(*self.set, index, d, masks);
            }
            let mask = self.masks[depth];
            if mask != BITS as u8 {
                let offset = self.index >> shift_for(depth + 1);
                let word = *self.set.layers[depth].slot(offset);
                let m = mask as usize;
                let slot = (word >> m) << m;
                proof {
                    assert forall|k: nat| k < word_bits() implies #[trigger] bit(slot, k) == (bit(
                        word,
                        k,
                    ) && k >= m) by {
                        lemma_bit_mask_below(word, m, k as usize);
                    }
                }
                if slot != 0 {
                    let tail = lowest_bit(slot);
                    proof {
                        assert(bit(word, tail as nat) && tail >= m);
                        assert forall|j: nat| m <= j < tail implies !#[trigger] bit(word, j) by {
                            assert(!bit(slot, j));
                        }
                    }
                    if depth > 0 {
                        proof {
                            lemma_iter_descend(*self.set, index, d, masks, tail as nat);
                            lemma_shl_span(offset, d + 1);
                            lemma_shl_span(tail, d);
                        }
                        self.masks[depth] = (tail + 1) as u8;
                        self.index = (offset << shift_for(depth + 1)) + (tail << shift_for(depth));
                        self.depth = depth - 1;
                        proof {
                            assert(self.masks@ == masks.update(d as int, (tail + 1) as u8));
                        }
                        continue;
                    }
                    proof {
                        lemma_iter_found(*self.set, index, masks, tail as nat);
                    }
                    self.masks[depth] = (tail + 1) as u8;
                    proof {
                        assert(self.masks@ == masks.update(0, (tail + 1) as u8));
                    }
                    return Some(self.index + tail);
                }
                proof {
                    assert forall|j: nat| m <= j < word_bits() implies !#[trigger] bit(word, j) by {
                        crate::bits::lemma_word_zero(slot);
                        assert(!bit(slot, j));
                    }
                }
            }
            // Nothing is left in this word: go up a layer.
            proof {
                if mask != BITS as u8 {
                    lemma_iter_word_done(*self.set, index, d, masks);
                }
                assert(gap(s, cur, (o + 1) * span(d + 1)));
            }
            self.masks[depth] = 0;
            self.depth = depth + 1;
            if self.depth == n {
                proof {
                    lemma_iter_top(*self.set, index, d, masks);
                }
                self.done = true;
                return None;
            }
            proof {
                assert(self.masks@ == masks.update(d as int, 0u8));
                lemma_iter_climb(*self.set, index, d, masks);
                lemma_cursor_at(*self.set, index, d + 1, self.masks@);
            }
        }
    }
}

impl BitSet {
    /// Create a draining iterator over the bitset, yielding all elements in
    /// order of their index.
    pub fn drain(&mut self) -> (r: Drain<'_>)
        requires
            old(self).wf(),
        ensures
            r.inv(),
            *r.set == *old(self),
            *final(self) == *final(r.set),
            r.state is Some <==> old(self).spec_capacity() > 0,
    {
        proof {
            lemma_layer_sizes(self.cap as nat);
            self.lemma_words();
        }
        let n = self.layers.len();
        let state = if n == 0 {
            proof {
                lemma_layer_sizes(self.cap as nat);
                assert(self@ =~= Set::<nat>::empty()) by {
                    assert forall|p: nat| !self@.contains(p) by {
                        if self@.contains(p) {
                            assert(p < self.cap);
                        }
                    }
                }
            }
            None
        } else {
            proof {
                let l = n as nat;
                self.lemma_words();
                lemma_layer_sizes(self.cap as nat);
                lemma_span_pos(l);
                vstd::arithmetic::div_mod::lemma_basic_div(0, span(l) as int);
                assert(self.layer_words()[(l - 1) as int] == self.layers@[(l - 1) as int]@);
                assert(self.layers@[(l - 1) as int]@.len() == 1);
                if self@ != Set::<nat>::empty() {
                    assert(exists|x: nat| self@.contains(x)) by {
                        if !(exists|x: nat| self@.contains(x)) {
                            assert(self@ =~= Set::<nat>::empty());
                        }
                    }
                    let p = choose|x: nat| self@.contains(x);
                    assert(p < self.cap);
                    vstd::arithmetic::div_mod::lemma_basic_div(p as int, span(l) as int);
                    assert(has_block(self@, l, 0));
                }
                assert forall|p: nat| #[trigger] self@.contains(p) implies p / span(l) >= 0 by {}
                assert(drain_at(*self, 0, (l - 1) as nat));
            }
            Some(DrainSnapshot(0, n - 1))
        };
        Drain { set: self, state }
    }

    /// Start a drain operation using the given configuration parameters.
    ///
    /// These are acquired from [Drain::snapshot], and can be used to resume
    /// draining at a specific point.
    pub fn drain_from(&mut self, snapshot: DrainSnapshot) -> (r: Drain<'_>)
        requires
            old(self).wf(),
            snapshot.valid_for(*old(self)),
        ensures
            r.inv(),
            r.state == Some(snapshot),
            *r.set == *old(self),
            *final(self) == *final(r.set),
    {
        Drain { set: self, state: Some(snapshot) }
    }

    /// Create an iterator over the bitset, yielding all elements in order of
    /// their index.
    pub fn iter(&self) -> (r: Iter<'_>)
        requires
            self.wf(),
        ensures
            r.inv(),
            r.items() == self@,
            r.next_pos() == 0,
    {
        let n = self.layers.len();
        let masks = [0u8; MAX_LAYERS];
        proof {
            lemma_word_bits();
            self.lemma_words();
            lemma_layer_sizes(self.cap as nat);
            lemma_max_capacity();
            crate::layout::lemma_layer_count_bound(self.cap as nat, crate::layout::max_layers());
            broadcast use vstd::array::group_array_axioms;
            assert(forall|i: int| 0 <= i < MAX_LAYERS ==> masks@[i] == 0u8);
        }
        if n == 0 {
            return Iter { set: self, masks, index: 0, depth: 0, done: true };
        }
        let depth = n - 1;
        let r = Iter { set: self, masks, index: 0, depth, done: false };
        proof {
            let l = n as nat;
            lemma_span_pos(l);
            vstd::arithmetic::div_mod::lemma_basic_div(0, span(l) as int);
            assert(self.layer_words()[(l - 1) as int] == self.layers@[(l - 1) as int]@);
            assert(r.masks@[(l - 1) as int] == 0);
            assert(0 * span(l) == 0);
            assert(0 * span((l - 1) as nat) == 0);
            assert(cursor_at(0, (l - 1) as nat, r.masks@) == 0);
        }
        r
    }
}

impl BitSet {
    /// A set of capacity `cap` holding the positions below `cap` whose bits
    /// are set in `words`, read as layer 0, with its summary layers built from
    /// them.
    pub fn from_layer_words(words: &[usize], cap: usize) -> (r: BitSet)
        requires
            cap <= max_capacity(),
            cap == 0 || capacity_for(cap as nat) == cap,
            cap <= words@.len() * word_bits() < cap + word_bits(),
        ensures
            r.wf(),
            r.spec_capacity() == cap,
            forall|p: nat|
                r@.contains(p) <==> (p < cap && crate::levels::layer_bit(words@, p)),
    {
        proof {
            lemma_max_capacity();
            lemma_word_bits();
        }
        let mut set = BitSet::with_capacity(cap);
        let ghost c = cap as nat;
        let mut slot: usize = 0;
        while slot < words.len()
            invariant
                set.wf(),
                set.spec_capacity() == c,
                c == cap,
                c <= max_capacity(),
                c + word_bits() <= usize::MAX,
                c <= words@.len() * word_bits() < c + word_bits(),
                BITS == word_bits(),
                slot <= words@.len(),
                forall|p: nat|
                    #[trigger] set@.contains(p) <==> (p < c && p / word_bits() < slot
                        && crate::levels::layer_bit(words@, p)),
            decreases words@.len() - slot,
        {
            let w0 = words[slot];
            let mut w = w0;
            while w != 0
                invariant
                    set.wf(),
                    set.spec_capacity() == c,
                    c == cap,
                    c <= max_capacity(),
                    c + word_bits() <= usize::MAX,
                    c <= words@.len() * word_bits() < c + word_bits(),
                    BITS == word_bits(),
                    slot < words@.len(),
                    w0 == words@[slot as int],
                    forall|j: nat| #[trigger] bit(w, j) ==> bit(w0, j),
                    forall|p: nat|
                        #[trigger] set@.contains(p) <==> (p < c && crate::levels::layer_bit(
                            words@,
                            p,
                        ) && (p / word_bits() < slot || (p / word_bits() == slot && !bit(
                            w,
                            p % word_bits(),
                        )))),
                decreases w,
            {
                let t = lowest_bit(w);
                proof {
                    assert(slot * word_bits() + t < c + word_bits()) by (nonlinear_arith)
                        requires
                            slot < words@.len(),
                            t < word_bits(),
                            words@.len() * word_bits() < c + word_bits(),
                    ;
                    crate::bits::lemma_clear_smaller(w, t);
                }
                let p = slot * BITS + t;
                let ghost old_set = set@;
                let ghost old_w = w;
                if p < cap {
                    set.set(p);
                }
                w = w & !(1usize << t);
                proof {
                    lemma_word_join(slot as nat, t as nat);
                    assert forall|j: nat| #[trigger] bit(w, j) implies bit(w0, j) by {
                        if j < word_bits() {
                            crate::bits::lemma_bit_clear_one(old_w, t, j as usize);
                        }
                    }
                    assert forall|q: nat|
                        #[trigger] set@.contains(q) <==> (q < c && crate::levels::layer_bit(
                            words@,
                            q,
                        ) && (q / word_bits() < slot || (q / word_bits() == slot && !bit(
                            w,
                            q % word_bits(),
                        )))) by {
                        lemma_word_split(q);
                        crate::bits::lemma_bit_clear_one(old_w, t, (q % word_bits()) as usize);
                        if q == p {
                            assert(bit(old_w, t as nat));
                            assert(bit(w0, t as nat));
                        }
                        if q / word_bits() == slot && q % word_bits() == t {
                            assert(q == p) by (nonlinear_arith)
                                requires
                                    q == word_bits() * (q / word_bits()) + q % word_bits(),
                                    q / word_bits() == slot,
                                    q % word_bits() == t,
                                    p == slot * word_bits() + t,
                            ;
                        }
                        assert(old_set.contains(q) <==> (q < c && crate::levels::layer_bit(
                            words@,
                            q,
                        ) && (q / word_bits() < slot || (q / word_bits() == slot && !bit(
                            old_w,
                            q % word_bits(),
                        )))));
                    }
                }
            }
            proof {
                assert forall|q: nat|
                    #[trigger] set@.contains(q) <==> (q < c && q / word_bits() < slot + 1
                        && crate::levels::layer_bit(words@, q)) by {
                    if q / word_bits() == slot {
                        lemma_word_split(q);
                        crate::bits::lemma_bit_small((q % word_bits()) as usize);
                    }
                }
            }
            slot = slot + 1;
        }
        proof {
            assert forall|q: nat| #[trigger] set@.contains(q) <==> (q < c && crate::levels::layer_bit(
                words@,
                q,
            )) by {
                if q < c {
                    crate::levels::lemma_block_in_words(words@.len(), q);
                }
            }
        }
        set
    }

    /// Convert into an [`AtomicBitSet`] with the same layers, that holds the
    /// same positions.
    pub fn into_atomic(self) -> (r: AtomicBitSet)
        ensures
            r.spec_capacity() == self.spec_capacity(),
            r.layer_lens().len() == self.layer_words().len(),
            forall|d: int|
                0 <= d < r.layer_lens().len() ==> #[trigger] r.layer_lens()[d]
                    == self.layer_words()[d].len(),
            self.wf() ==> r.wf(),
            self.wf() ==> r.kept() == self@,
    {
        let n = self.layers.len();
        let mut layers: Vec<AtomicLayer> = Vec::new();
        let mut d: usize = 0;
        while d < n
            invariant
                n == self.layers@.len(),
                d <= n,
                layers@.len() == d,
                forall|k: int| 0 <= k < d ==> #[trigger] layers@[k].len() == self.layers@[k]@.len(),
            decreases n - d,
        {
            let layer = AtomicLayer::from_words(self.layers[d].as_slice());
            layers.push(layer);
            d = d + 1;
        }
        let base: Vec<usize> = if n == 0 {
            Vec::new()
        } else {
            vstd::slice::slice_to_vec(self.layers[0].as_slice())
        };
        let r = AtomicBitSet::from_parts(layers, self.cap, base);
        proof {
            self.lemma_words();
            assert(r.layer_lens().len() == n);
            assert forall|k: int| 0 <= k < r.layer_lens().len() implies #[trigger] r.layer_lens()[k]
                == self.layer_words()[k].len() by {
                assert(r.layer_lens()[k] == layers@[k].len());
            }
            if self.wf() {
                let c = self.cap as nat;
                let s = self@;
                lemma_layer_sizes(c);
                lemma_word_bits();
                lemma_ceil_div_bounds(c, word_bits());
                assert(r.layer_lens() =~= layer_sizes(c));
                if n > 0 {
                    let w0 = self.layer_words()[0];
                    assert(w0 == self.layers@[0]@);
                    assert(base@ == w0);
                    assert(w0.len() == layer_sizes(c)[0]);
                    assert(level_ok(w0, 0, s));
                    assert forall|p: nat| #[trigger] r.kept().contains(p) <==> s.contains(p) by {
                        lemma_has_block_zero(s, p);
                        if s.contains(p) {
                            assert(p < c);
                        }
                        if p < c {
                            assert(p < w0.len() * word_bits());
                            assert(crate::levels::layer_bit(w0, p) <==> has_block(s, 0, p));
                        }
                    }
                } else {
                    assert(c == 0);
                    assert forall|p: nat| #[trigger] r.kept().contains(p) <==> s.contains(p) by {
                        if s.contains(p) {
                            assert(p < c);
                        }
                    }
                }
                assert(r.kept() =~= s);
            }
        }
        r
    }
}

impl Default for BitSet {
    fn default() -> (r: Self)
        ensures
            r.wf(),
            r@ == Set::<nat>::empty(),
            r.spec_capacity() == 0,
    {
        Self::new()
    }
}

} // verus!
