//! Bits within a single word of a layer, and the positions they stand for.
use vstd::prelude::*;
use vstd::arithmetic::power2::{pow2, lemma_pow2_pos, lemma_pow2_adds, lemma2_to64};
use vstd::arithmetic::div_mod::{
    lemma_div_denominator,
    lemma_fundamental_div_mod,
    lemma_fundamental_div_mod_converse,
    lemma_mod_pos_bound,
};
use vstd::arithmetic::mul::lemma_mul_is_commutative;
use vstd::bits::{lemma_usize_shr_is_div, lemma_usize_shl_is_mul};
use vstd::std_specs::bits::{u64_trailing_zeros, axiom_u64_trailing_zeros};

verus! {

/// Number of bits in a single word.
pub const BITS: usize = usize::BITS as usize;

/// The number of bits in a word, as a mathematical integer.
pub open spec fn word_bits() -> nat {
    usize::BITS as nat
}

/// The base-2 logarithm of `word_bits()`.
pub open spec fn word_shift() -> nat {
    if usize::BITS == 64 {
        6
    } else {
        5
    }
}

/// The number of positions covered by a single bit of the layer at `depth`:
/// `word_bits()` to the power `depth`.
pub open spec fn span(depth: nat) -> nat {
    pow2(word_shift() * depth)
}

/// Whether bit `j` of word `w` is set.
pub open spec fn bit(w: usize, j: nat) -> bool {
    j < usize::BITS && (w >> (j as usize)) & 1usize == 1usize
}

/// The shift that turns a position into the block index at `depth`.
pub fn shift_for(depth: usize) -> (s: usize)
    requires
        depth <= 12,
    ensures
        s == word_shift() * depth,
{
    if usize::BITS == 64 {
        6 * depth
    } else {
        5 * depth
    }
}

pub proof fn lemma_word_bits()
    ensures
        word_bits() == 32 || word_bits() == 64,
        word_bits() == pow2(word_shift()),
        span(1) == word_bits(),
        span(0) == 1,
        BITS == word_bits(),
{
    lemma2_to64();
    assert(word_shift() * 0 == 0);
    assert(word_shift() * 1 == word_shift());
}

pub proof fn lemma_span_pos(d: nat)
    ensures
        span(d) > 0,
{
    lemma_pow2_pos(word_shift() * d);
}

/// A block at `d + 1` is made of `word_bits()` blocks at `d`.
pub proof fn lemma_span_succ(d: nat)
    ensures
        span(d + 1) == span(d) * word_bits(),
        span(d + 1) == word_bits() * span(d),
{
    lemma_word_bits();
    assert(word_shift() * (d + 1) == word_shift() * d + word_shift()) by (nonlinear_arith);
    lemma_pow2_adds(word_shift() * d, word_shift());
    lemma_mul_is_commutative(span(d) as int, word_bits() as int);
}

pub proof fn lemma_span_adds(a: nat, b: nat)
    ensures
        span(a + b) == span(a) * span(b),
{
    assert(word_shift() * (a + b) == word_shift() * a + word_shift() * b) by (nonlinear_arith);
    lemma_pow2_adds(word_shift() * a, word_shift() * b);
}

pub proof fn lemma_span_monotone(a: nat, b: nat)
    requires
        a <= b,
    ensures
        span(a) <= span(b),
        a < b ==> span(a) * word_bits() <= span(b),
{
    lemma_span_adds(a, (b - a) as nat);
    lemma_span_pos(a);
    lemma_span_pos((b - a) as nat);
    assert(span(a) <= span(a) * span((b - a) as nat)) by (nonlinear_arith)
        requires
            span((b - a) as nat) >= 1,
    ;
    if a < b {
        lemma_span_adds(1, (b - a - 1) as nat);
        lemma_span_pos((b - a - 1) as nat);
        lemma_word_bits();
        assert(span(a) * span((b - a) as nat) == span(a) * (span(1) * span((b - a - 1) as nat)));
        assert(span(a) * word_bits() <= span(a) * (word_bits() * span((b - a - 1) as nat)))
            by (nonlinear_arith)
            requires
                span((b - a - 1) as nat) >= 1,
        ;
    }
}

/// The block index at `d + 1` is the block index at `d` divided by `word_bits()`.
pub proof fn lemma_div_span_succ(p: nat, d: nat)
    ensures
        p / span(d + 1) == (p / span(d)) / word_bits(),
{
    lemma_span_succ(d);
    lemma_span_pos(d);
    lemma_word_bits();
    lemma_div_denominator(p as int, span(d) as int, word_bits() as int);
}

/// Dividing a position by `span(a + b)` goes through `span(a)`.
pub proof fn lemma_div_span_adds(p: nat, a: nat, b: nat)
    ensures
        p / span(a + b) == (p / span(a)) / span(b),
{
    lemma_span_adds(a, b);
    lemma_span_pos(a);
    lemma_span_pos(b);
    lemma_div_denominator(p as int, span(a) as int, span(b) as int);
}

/// Splitting a block index into the word that holds it and the bit in that word.
pub proof fn lemma_word_split(b: nat)
    ensures
        b == word_bits() * (b / word_bits()) + b % word_bits(),
        b % word_bits() < word_bits(),
{
    lemma_word_bits();
    lemma_fundamental_div_mod(b as int, word_bits() as int);
}

/// Word `w` and bit `j` give block index `w * word_bits() + j`, and back.
pub proof fn lemma_word_join(w: nat, j: nat)
    requires
        j < word_bits(),
    ensures
        (w * word_bits() + j) / word_bits() == w,
        (w * word_bits() + j) % word_bits() == j,
{
    lemma_word_bits();
    lemma_fundamental_div_mod_converse(
        (w * word_bits() + j) as int,
        word_bits() as int,
        w as int,
        j as int,
    );
}

/// `p / s == q` exactly when `q * s <= p < (q + 1) * s`.
pub proof fn lemma_div_bounds(p: int, s: int, b: int)
    requires
        p >= 0,
        s > 0,
        b >= 0,
    ensures
        p / s == b <==> b * s <= p < (b + 1) * s,
        p / s >= b <==> b * s <= p,
        p / s < b <==> p < b * s,
{
    lemma_fundamental_div_mod(p, s);
    lemma_mod_pos_bound(p, s);
    let q = p / s;
    let r = p % s;
    assert(0 <= r < s);
    assert(p == s * q + r);
    assert(q >= b ==> b * s <= p) by (nonlinear_arith)
        requires
            p == s * q + r,
            0 <= r < s,
    ;
    assert(q < b ==> p < b * s) by (nonlinear_arith)
        requires
            p == s * q + r,
            0 <= r < s,
    ;
    assert(q > b ==> (b + 1) * s <= p) by (nonlinear_arith)
        requires
            p == s * q + r,
            0 <= r < s,
    ;
    assert(q == b ==> p < (b + 1) * s) by (nonlinear_arith)
        requires
            p == s * q + r,
            0 <= r < s,
    ;
}

/// Position `p` lies in block `b` at depth `d` exactly when `b * span(d) <= p < (b + 1) * span(d)`.
pub proof fn lemma_block_bounds(p: nat, d: nat, b: nat)
    ensures
        p / span(d) == b <==> b * span(d) <= p < (b + 1) * span(d),
        p / span(d) >= b <==> b * span(d) <= p,
        p / span(d) < b <==> p < b * span(d),
{
    lemma_span_pos(d);
    lemma_div_bounds(p as int, span(d) as int, b as int);
}

/// The start of bit `t` of word `o` at depth `d`, and the blocks it lies in.
pub proof fn lemma_bit_start(o: nat, t: nat, d: nat)
    requires
        t < word_bits(),
    ensures
        (o * word_bits() + t) * span(d) == o * span(d + 1) + t * span(d),
        o * span(d + 1) <= o * span(d + 1) + t * span(d) < (o + 1) * span(d + 1),
        (o * span(d + 1) + t * span(d)) / span(d) == o * word_bits() + t,
        (o * span(d + 1) + t * span(d)) / span(d + 1) == o,
        t * span(d) < span(d + 1),
{
    lemma_word_bits();
    lemma_span_succ(d);
    lemma_span_pos(d);
    let x = o * span(d + 1) + t * span(d);
    assert((o * word_bits() + t) * span(d) == x) by (nonlinear_arith)
        requires
            span(d + 1) == word_bits() * span(d),
            x == o * span(d + 1) + t * span(d),
    ;
    assert(t * span(d) < span(d + 1)) by (nonlinear_arith)
        requires
            span(d + 1) == word_bits() * span(d),
            t < word_bits(),
            span(d) > 0,
    ;
    assert(x < (o + 1) * span(d + 1)) by (nonlinear_arith)
        requires
            x == o * span(d + 1) + t * span(d),
            t * span(d) < span(d + 1),
    ;
    lemma_block_bounds(x, d, o * word_bits() + t);
    assert((o * word_bits() + t + 1) * span(d) == x + span(d)) by (nonlinear_arith)
        requires
            (o * word_bits() + t) * span(d) == x,
    ;
    lemma_block_bounds(x, d + 1, o);
}

/// Past the end of word `o` at depth `d`: the next bit of the word above.
pub proof fn lemma_word_end(o: nat, d: nat)
    ensures
        (o / word_bits()) * span(d + 2) + (o % word_bits() + 1) * span(d + 1) == (o + 1) * span(
            d + 1,
        ),
{
    lemma_word_bits();
    lemma_word_split(o);
    lemma_span_succ(d + 1);
    let q = o / word_bits();
    let r = o % word_bits();
    assert(q * span(d + 2) + (r + 1) * span(d + 1) == (o + 1) * span(d + 1)) by (nonlinear_arith)
        requires
            o == word_bits() * q + r,
            span(d + 2) == word_bits() * span(d + 1),
    ;
}

/// `x >> shift_for(d)` divides by `span(d)`.
pub proof fn lemma_shr_span(x: usize, d: nat)
    requires
        word_shift() * d < word_bits(),
    ensures
        (x >> ((word_shift() * d) as usize)) == x as nat / span(d),
{
    lemma_usize_shr_is_div(x, (word_shift() * d) as usize);
}

/// `x << shift_for(d)` multiplies by `span(d)`, when that fits.
pub proof fn lemma_shl_span(x: usize, d: nat)
    requires
        word_shift() * d < word_bits(),
        x * span(d) <= usize::MAX,
    ensures
        (x << ((word_shift() * d) as usize)) == x * span(d),
{
    lemma_usize_shl_is_mul(x, (word_shift() * d) as usize);
}

// ---------------------------------------------------------------------------
// Single bits of a word.
pub proof fn lemma_bit_set_one(w: usize, j: usize, k: usize)
    requires
        j < usize::BITS,
        k < usize::BITS,
    ensures
        bit(w | (1usize << j), k as nat) == (bit(w, k as nat) || k == j),
{
    assert(((w | (1usize << j)) >> k) & 1usize == 1usize <==> (((w >> k) & 1usize == 1usize)
        || k == j)) by (bit_vector)
        requires
            j < usize::BITS,
            k < usize::BITS,
    ;
}

/// A bit of `a | b` is set exactly when it is set in `a` or in `b`.
pub proof fn lemma_bit_or(a: usize, b: usize, k: usize)
    requires
        k < usize::BITS,
    ensures
        bit(a | b, k as nat) == (bit(a, k as nat) || bit(b, k as nat)),
{
    assert(((a | b) >> k) & 1usize == 1usize <==> (((a >> k) & 1usize == 1usize) || ((b >> k)
        & 1usize == 1usize))) by (bit_vector)
        requires
            k < usize::BITS,
    ;
}

pub proof fn lemma_bit_clear_one(w: usize, j: usize, k: usize)
    requires
        j < usize::BITS,
        k < usize::BITS,
    ensures
        bit(w & !(1usize << j), k as nat) == (bit(w, k as nat) && k != j),
{
    assert(((w & !(1usize << j)) >> k) & 1usize == 1usize <==> (((w >> k) & 1usize == 1usize)
        && k != j)) by (bit_vector)
        requires
            j < usize::BITS,
            k < usize::BITS,
    ;
}

pub proof fn lemma_bit_test(w: usize, j: usize)
    requires
        j < usize::BITS,
    ensures
        (w & (1usize << j) > 0) == bit(w, j as nat),
{
    assert((w & (1usize << j) > 0) <==> ((w >> j) & 1usize == 1usize)) by (bit_vector)
        requires
            j < usize::BITS,
    ;
}

/// Bit `k` of `(w >> m) << m` is bit `k` of `w`, for `k >= m` only.
pub proof fn lemma_bit_mask_below(w: usize, m: usize, k: usize)
    requires
        m < usize::BITS,
        k < usize::BITS,
    ensures
        bit((w >> m) << m, k as nat) == (bit(w, k as nat) && k >= m),
{
    assert((((w >> m) << m) >> k) & 1usize == 1usize <==> (((w >> k) & 1usize == 1usize) && k
        >= m)) by (bit_vector)
        requires
            m < usize::BITS,
            k < usize::BITS,
    ;
}

/// Clearing a set bit makes a word smaller.
pub proof fn lemma_clear_smaller(w: usize, t: usize)
    requires
        t < usize::BITS,
        bit(w, t as nat),
    ensures
        w & !(1usize << t) < w,
{
    assert((w >> t) & 1usize == 1usize ==> w & !(1usize << t) < w) by (bit_vector)
        requires
            t < usize::BITS,
    ;
}

/// The words 0 and 1.
pub proof fn lemma_bit_small(k: usize)
    requires
        k < usize::BITS,
    ensures
        !bit(0usize, k as nat),
        bit(1usize, k as nat) == (k == 0),
{
    assert((0usize >> k) & 1usize != 1usize) by (bit_vector);
    assert(((1usize >> k) & 1usize == 1usize) <==> k == 0) by (bit_vector)
        requires
            k < usize::BITS,
    ;
}

/// A word with a bit set is not zero.
pub proof fn lemma_bit_nonzero(w: usize, k: usize)
    requires
        k < usize::BITS,
        bit(w, k as nat),
    ensures
        w != 0,
{
    assert((w >> k) & 1usize == 1usize ==> w != 0usize) by (bit_vector);
}

/// All bits of a nonzero word below its lowest set bit are clear: the facts
/// on `trailing_zeros` of a `u64`, carried over to a word.
proof fn lemma_lowest_bit_of(w: usize, t: u64)
    requires
        w != 0,
        t == u64_trailing_zeros(w as u64),
    ensures
        t < usize::BITS,
        bit(w, t as nat),
        forall|k: nat| k < t ==> !#[trigger] bit(w, k),
{
    let x = w as u64;
    axiom_u64_trailing_zeros(x);
    assert(x != 0u64) by (bit_vector)
        requires
            w != 0usize,
            x == w as u64,
    ;
    assert((x >> t) & 1u64 == 1u64);
    assert(t < usize::BITS) by (bit_vector)
        requires
            x == w as u64,
            (x >> t) & 1u64 == 1u64,
            t < 64u64,
    ;
    assert((w >> (t as usize)) & 1usize == 1usize) by (bit_vector)
        requires
            x == w as u64,
            (x >> t) & 1u64 == 1u64,
            t < usize::BITS,
    ;
    assert forall|k: nat| k < t implies !#[trigger] bit(w, k) by {
        let kk = k as u64;
        assert((x >> kk) & 1u64 == 0u64);
        let ku = k as usize;
        assert((w >> ku) & 1usize == 0usize) by (bit_vector)
            requires
                x == w as u64,
                (x >> kk) & 1u64 == 0u64,
                kk < 64u64,
                ku == kk,
        ;
    }
}

/// The index of the lowest set bit of a nonzero word.
pub fn lowest_bit(w: usize) -> (t: usize)
    requires
        w != 0,
    ensures
        t < usize::BITS,
        bit(w, t as nat),
        forall|k: nat| k < t ==> !#[trigger] bit(w, k),
{
    let x = w as u64;
    let t = x.trailing_zeros();
    proof {
        lemma_lowest_bit_of(w, t as u64);
    }
    t as usize
}

/// A nonzero word has a set bit; the zero word has none.
pub proof fn lemma_word_zero(w: usize)
    ensures
        w == 0 <==> forall|k: nat| k < word_bits() ==> !#[trigger] bit(w, k),
{
    if w == 0 {
        assert forall|k: nat| k < word_bits() implies !#[trigger] bit(w, k) by {
            lemma_bit_small(k as usize);
        }
    } else {
        lemma_lowest_bit_of(w, u64_trailing_zeros(w as u64) as u64);
    }
}

} // verus!
