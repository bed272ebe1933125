//! What the words of each layer say about the set of positions.
//!
//! The layer at depth `d` has one bit per block of `span(d)` consecutive
//! positions: bit `b` stands for the positions `p` with `p / span(d) == b`,
//! and it is set exactly when the set holds one of them.
use vstd::prelude::*;

use crate::bits::{
    bit, span, word_bits, lemma_word_bits, lemma_span_pos, lemma_div_span_succ,
    lemma_div_span_adds, lemma_word_split, lemma_word_join, lemma_word_zero,
    lemma_bit_set_one, lemma_bit_clear_one, lemma_bit_nonzero, lemma_bit_small, lemma_block_bounds,
};

verus! {

/// The set `s` holds a position in block `b` at depth `d`.
pub open spec fn has_block(s: Set<nat>, d: nat, b: nat) -> bool {
    exists|p: nat| #![trigger s.contains(p)] s.contains(p) && p / span(d) == b
}

/// Bit `b` of a layer, counting across its words.
pub open spec fn layer_bit(words: Seq<usize>, b: nat) -> bool {
    bit(words[(b / word_bits()) as int], b % word_bits())
}

/// The words of the layer at depth `d` describe `s`: each bit is set exactly
/// when `s` holds a position in the block it stands for.
pub open spec fn level_ok(words: Seq<usize>, d: nat, s: Set<nat>) -> bool {
    forall|b: nat|
        b < words.len() * word_bits() ==> (#[trigger] layer_bit(words, b) <==> has_block(s, d, b))
}

/// A run of zero words.
pub open spec fn zeros(n: nat) -> Seq<usize> {
    Seq::new(n, |i: int| 0usize)
}

/// Every position of `s` lies below `bound`.
pub open spec fn below(s: Set<nat>, bound: nat) -> bool {
    forall|p: nat| #[trigger] s.contains(p) ==> p < bound
}

/// A block index below `words.len() * word_bits()` names word `b / word_bits()`.
pub proof fn lemma_block_in_words(n: nat, b: nat)
    requires
        b < n * word_bits(),
    ensures
        b / word_bits() < n,
{
    lemma_word_bits();
    lemma_block_bounds(b, 1, n);
}

/// A position below `len` words of the layer at depth `d` has its bit among
/// those words, at word `p / span(d + 1)`.
pub proof fn lemma_block_fits(p: nat, d: nat, len: nat)
    requires
        p < len * span(d + 1),
    ensures
        p / span(d + 1) < len,
        p / span(d) < len * word_bits(),
        (p / span(d)) / word_bits() == p / span(d + 1),
{
    lemma_word_bits();
    lemma_span_pos(d + 1);
    lemma_block_bounds(p, d + 1, len);
    lemma_div_span_succ(p, d);
    let b = p / span(d);
    lemma_word_split(b);
    assert(b < len * word_bits()) by (nonlinear_arith)
        requires
            b == word_bits() * (b / word_bits()) + b % word_bits(),
            b % word_bits() < word_bits(),
            b / word_bits() < len,
    ;
}

/// Bit `j` of word `w` of a layer that describes `s` says whether `s` holds a
/// position in block `w * word_bits() + j`.
pub proof fn lemma_word_bit(words: Seq<usize>, d: nat, s: Set<nat>, w: nat, j: nat)
    requires
        level_ok(words, d, s),
        w < words.len(),
        j < word_bits(),
    ensures
        bit(words[w as int], j) <==> has_block(s, d, w * word_bits() + j),
        w * word_bits() + j < words.len() * word_bits(),
{
    lemma_word_bits();
    lemma_word_join(w, j);
    let b = w * word_bits() + j;
    assert(b < words.len() * word_bits()) by (nonlinear_arith)
        requires
            b == w * word_bits() + j,
            j < word_bits(),
            w < words.len(),
    ;
    assert(layer_bit(words, b) <==> has_block(s, d, b));
}

/// Where bits `m` up to `t` of word `w` are clear, `s` has no position from
/// block `w * word_bits() + m` up to block `w * word_bits() + t`.
pub proof fn lemma_clear_bits(words: Seq<usize>, d: nat, s: Set<nat>, w: nat, m: nat, t: nat)
    requires
        level_ok(words, d, s),
        w < words.len(),
        m <= t <= word_bits(),
        forall|j: nat| m <= j < t ==> !#[trigger] bit(words[w as int], j),
    ensures
        forall|p: nat|
            #[trigger] s.contains(p) ==> !((w * word_bits() + m) * span(d) <= p < (w
                * word_bits() + t) * span(d)),
{
    lemma_word_bits();
    assert forall|p: nat| #[trigger] s.contains(p) implies !((w * word_bits() + m) * span(d) <= p
        < (w * word_bits() + t) * span(d)) by {
        if (w * word_bits() + m) * span(d) <= p < (w * word_bits() + t) * span(d) {
            let b = p / span(d);
            lemma_block_bounds(p, d, w * word_bits() + m);
            lemma_block_bounds(p, d, w * word_bits() + t);
            let j = (b - w * word_bits()) as nat;
            assert(m <= j < t);
            lemma_word_bit(words, d, s, w, j);
            assert(has_block(s, d, b));
        }
    }
}

/// Word `w` of a layer that describes `s` is nonzero exactly when `s` holds a
/// position in block `w` at the next depth.
pub proof fn lemma_word_nonzero(words: Seq<usize>, d: nat, s: Set<nat>, w: nat)
    requires
        level_ok(words, d, s),
        w < words.len(),
    ensures
        words[w as int] != 0 <==> has_block(s, d + 1, w),
{
    lemma_word_bits();
    lemma_word_zero(words[w as int]);
    if words[w as int] != 0 {
        let j = choose|j: nat| j < word_bits() && #[trigger] bit(words[w as int], j);
        let b = w * word_bits() + j;
        lemma_word_join(w, j);
        assert(b < words.len() * word_bits()) by (nonlinear_arith)
            requires
                b == w * word_bits() + j,
                j < word_bits(),
                w < words.len(),
        ;
        assert(layer_bit(words, b));
        let p = choose|p: nat| #![trigger s.contains(p)] s.contains(p) && p / span(d) == b;
        lemma_div_span_succ(p, d);
        assert(s.contains(p) && p / span(d + 1) == w);
    }
    if has_block(s, d + 1, w) {
        let p = choose|p: nat| #![trigger s.contains(p)] s.contains(p) && p / span(d + 1) == w;
        let b = p / span(d);
        lemma_div_span_succ(p, d);
        lemma_word_split(b);
        assert(b < words.len() * word_bits()) by (nonlinear_arith)
            requires
                b == word_bits() * (b / word_bits()) + b % word_bits(),
                b % word_bits() < word_bits(),
                b / word_bits() == w,
                w < words.len(),
        ;
        assert(has_block(s, d, b));
        assert(layer_bit(words, b));
        lemma_bit_nonzero(words[w as int], (b % word_bits()) as usize);
    }
}

/// Setting the bit of position `p` in the layer at depth `d` describes `s` with `p` added.
pub proof fn lemma_level_insert(words: Seq<usize>, d: nat, s: Set<nat>, p: nat)
    requires
        level_ok(words, d, s),
        p / span(d) < words.len() * word_bits(),
    ensures
        ({
            let b = p / span(d);
            let w = (b / word_bits()) as int;
            let j = (b % word_bits()) as usize;
            level_ok(words.update(w, words[w] | (1usize << j)), d, s.insert(p))
        }),
{
    lemma_word_bits();
    let bp = p / span(d);
    let w = (bp / word_bits()) as int;
    let j = (bp % word_bits()) as usize;
    lemma_word_split(bp);
    lemma_block_in_words(words.len(), bp);
    let nw = words.update(w, words[w] | (1usize << j));
    let s2 = s.insert(p);
    assert forall|b: nat| b < nw.len() * word_bits() implies (#[trigger] layer_bit(nw, b)
        <==> has_block(s2, d, b)) by {
        lemma_word_split(b);
        lemma_block_in_words(words.len(), b);
        assert(layer_bit(words, b) <==> has_block(s, d, b));
        if has_block(s, d, b) {
            let q = choose|q: nat| #![trigger s.contains(q)] s.contains(q) && q / span(d) == b;
            assert(s2.contains(q));
        }
        if has_block(s2, d, b) && b != bp {
            let q = choose|q: nat| #![trigger s2.contains(q)] s2.contains(q) && q / span(d) == b;
            assert(s.contains(q));
        }
        if b == bp {
            assert(s2.contains(p));
        }
        if b / word_bits() == w {
            lemma_bit_set_one(words[w], j, (b % word_bits()) as usize);
            if b % word_bits() == j {
                assert(b == bp);
            }
        } else {
            assert(b != bp);
        }
    }
}

/// Clearing the bit of position `p` in the layer at depth `d` describes `s`
/// without `p`, when no other position of `s` shares that bit.
pub proof fn lemma_level_remove(words: Seq<usize>, d: nat, s: Set<nat>, p: nat)
    requires
        level_ok(words, d, s),
        p / span(d) < words.len() * word_bits(),
        !has_block(s.remove(p), d, p / span(d)),
    ensures
        ({
            let b = p / span(d);
            let w = (b / word_bits()) as int;
            let j = (b % word_bits()) as usize;
            level_ok(words.update(w, words[w] & !(1usize << j)), d, s.remove(p))
        }),
{
    lemma_word_bits();
    let bp = p / span(d);
    let w = (bp / word_bits()) as int;
    let j = (bp % word_bits()) as usize;
    lemma_word_split(bp);
    lemma_block_in_words(words.len(), bp);
    let nw = words.update(w, words[w] & !(1usize << j));
    let s2 = s.remove(p);
    assert forall|b: nat| b < nw.len() * word_bits() implies (#[trigger] layer_bit(nw, b)
        <==> has_block(s2, d, b)) by {
        lemma_word_split(b);
        lemma_block_in_words(words.len(), b);
        assert(layer_bit(words, b) <==> has_block(s, d, b));
        if has_block(s2, d, b) {
            let q = choose|q: nat| #![trigger s2.contains(q)] s2.contains(q) && q / span(d) == b;
            assert(s.contains(q));
        }
        if has_block(s, d, b) && b != bp {
            let q = choose|q: nat| #![trigger s.contains(q)] s.contains(q) && q / span(d) == b;
            assert(q != p);
            assert(s2.contains(q));
        }
        if b / word_bits() == w {
            lemma_bit_clear_one(words[w], j, (b % word_bits()) as usize);
            if b % word_bits() == j {
                assert(b == bp);
            }
        } else {
            assert(b != bp);
        }
    }
}

/// A layer that describes `s` still describes `s` without `p` when another
/// position of `s` shares the bit of `p`.
pub proof fn lemma_level_remove_kept(words: Seq<usize>, d: nat, s: Set<nat>, p: nat)
    requires
        level_ok(words, d, s),
        has_block(s.remove(p), d, p / span(d)),
    ensures
        level_ok(words, d, s.remove(p)),
{
    let s2 = s.remove(p);
    assert forall|b: nat| b < words.len() * word_bits() implies (#[trigger] layer_bit(words, b)
        <==> has_block(s2, d, b)) by {
        assert(layer_bit(words, b) <==> has_block(s, d, b));
        if has_block(s2, d, b) {
            let q = choose|q: nat| #![trigger s2.contains(q)] s2.contains(q) && q / span(d) == b;
            assert(s.contains(q));
        }
        if has_block(s, d, b) && b != p / span(d) {
            let q = choose|q: nat| #![trigger s.contains(q)] s.contains(q) && q / span(d) == b;
            assert(q != p);
            assert(s2.contains(q));
        }
    }
}

/// The block of `p` at depth `d` lies inside its block at any depth `e >= d`.
pub proof fn lemma_has_block_up(s: Set<nat>, d: nat, e: nat, p: nat)
    requires
        has_block(s, d, p / span(d)),
        d <= e,
    ensures
        has_block(s, e, p / span(e)),
{
    let q = choose|q: nat| #![trigger s.contains(q)] s.contains(q) && q / span(d) == p / span(d);
    lemma_div_span_adds(q, d, (e - d) as nat);
    lemma_div_span_adds(p, d, (e - d) as nat);
    assert(s.contains(q) && q / span(e) == p / span(e));
}

/// The empty set at depth 0 and above: position `p` lies in its own block.
pub proof fn lemma_has_block_zero(s: Set<nat>, p: nat)
    ensures
        has_block(s, 0, p) <==> s.contains(p),
{
    lemma_word_bits();
    assert(span(0) == 1);
    if s.contains(p) {
        assert(p / span(0) == p);
    }
}

/// Padding a layer with zero words keeps it describing `s`, when every
/// position of `s` lies under its old words.
pub proof fn lemma_level_grow(words: Seq<usize>, d: nat, s: Set<nat>, n: nat)
    requires
        level_ok(words, d, s),
        below(s, words.len() * span(d + 1)),
        n >= words.len(),
    ensures
        level_ok(words + zeros((n - words.len()) as nat), d, s),
{
    lemma_word_bits();
    let nw = words + zeros((n - words.len()) as nat);
    assert forall|b: nat| b < nw.len() * word_bits() implies (#[trigger] layer_bit(nw, b)
        <==> has_block(s, d, b)) by {
        lemma_block_in_words(nw.len(), b);
        if b < words.len() * word_bits() {
            lemma_block_in_words(words.len(), b);
            assert(layer_bit(words, b) <==> has_block(s, d, b));
            assert(nw[(b / word_bits()) as int] == words[(b / word_bits()) as int]);
        } else {
            lemma_word_split(b);
            assert(b / word_bits() >= words.len()) by {
                if b / word_bits() < words.len() {
                    assert(b < words.len() * word_bits()) by (nonlinear_arith)
                        requires
                            b == word_bits() * (b / word_bits()) + b % word_bits(),
                            b % word_bits() < word_bits(),
                            b / word_bits() < words.len(),
                    ;
                }
            }
            assert(nw[(b / word_bits()) as int] == 0usize);
            lemma_bit_small((b % word_bits()) as usize);
            if has_block(s, d, b) {
                let q = choose|q: nat| #![trigger s.contains(q)] s.contains(q) && q / span(d) == b;
                lemma_div_span_succ(q, d);
                lemma_block_bounds(q, d + 1, words.len());
            }
        }
    }
}

/// A new top layer whose first word holds bit 0 exactly when `s` is not
/// empty, and which is zero otherwise, describes `s` when every position of `s`
/// lies in block 0 at its depth.
pub proof fn lemma_level_top(d: nat, s: Set<nat>, first: usize, n: nat)
    requires
        below(s, span(d)),
        n >= 1,
        first == (if has_block(s, d, 0) { 1usize } else { 0usize }),
    ensures
        level_ok(seq![first] + zeros((n - 1) as nat), d, s),
{
    lemma_word_bits();
    let nw = seq![first] + zeros((n - 1) as nat);
    assert forall|b: nat| b < nw.len() * word_bits() implies (#[trigger] layer_bit(nw, b)
        <==> has_block(s, d, b)) by {
        lemma_block_in_words(nw.len(), b);
        lemma_word_split(b);
        lemma_bit_small((b % word_bits()) as usize);
        if has_block(s, d, b) {
            let q = choose|q: nat| #![trigger s.contains(q)] s.contains(q) && q / span(d) == b;
            lemma_block_bounds(q, d, 1);
            assert(b == 0);
        }
        if b / word_bits() == 0 {
            assert(nw[0] == first);
            if b % word_bits() == 0 {
                assert(b == 0);
            }
        } else {
            assert(nw[(b / word_bits()) as int] == 0usize);
        }
    }
}

/// Zero words describe the empty set.
pub proof fn lemma_level_zeros(d: nat, n: nat)
    ensures
        level_ok(zeros(n), d, Set::empty()),
{
    lemma_word_bits();
    assert forall|b: nat| b < zeros(n).len() * word_bits() implies (#[trigger] layer_bit(
        zeros(n),
        b,
    ) <==> has_block(Set::empty(), d, b)) by {
        lemma_block_in_words(n, b);
        lemma_word_split(b);
        lemma_bit_small((b % word_bits()) as usize);
    }
}

/// The top word of a layer whose single word covers all of `s` is zero exactly
/// when `s` is empty.
pub proof fn lemma_top_word(words: Seq<usize>, d: nat, s: Set<nat>)
    requires
        level_ok(words, d, s),
        words.len() >= 1,
        below(s, span(d + 1)),
    ensures
        words[0] == 0 <==> s == Set::<nat>::empty(),
{
    lemma_word_nonzero(words, d, s, 0);
    if s != Set::<nat>::empty() {
        assert(exists|x: nat| s.contains(x)) by {
            if !(exists|x: nat| s.contains(x)) {
                assert(s =~= Set::<nat>::empty());
            }
        }
        let p = choose|x: nat| s.contains(x);
        assert(s.contains(p));
        assert(p < span(d + 1));
        vstd::arithmetic::div_mod::lemma_basic_div(p as int, span(d + 1) as int);
        assert(p / span(d + 1) == 0);
        assert(has_block(s, d + 1, 0));
    } else {
        if has_block(s, d + 1, 0) {
            let p = choose|p: nat| #![trigger s.contains(p)] s.contains(p) && p / span(d + 1) == 0;
            assert(s.contains(p));
        }
    }
}

} // verus!
