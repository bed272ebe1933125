//! How many layers a bit set of a given capacity has, and how long each is.
use vstd::prelude::*;
use vstd::arithmetic::power2::{pow2, lemma_pow2_pos, lemma_pow2_unfold, lemma2_to64};
use vstd::arithmetic::div_mod::{
    lemma_div_denominator,
    lemma_hoist_over_denominator,
    lemma_fundamental_div_mod,
    lemma_mod_pos_bound,
    lemma_div_is_ordered,
    lemma_fundamental_div_mod_converse,
};
use vstd::arithmetic::mul::lemma_mul_strictly_positive;
use vstd::bits::{lemma_usize_shl_is_mul, lemma_u64_shr_is_div};
use vstd::std_specs::bits::axiom_u64_leading_zeros;

use crate::bits::{
    BITS, word_bits, word_shift, span, bit, lowest_bit, lemma_word_bits, lemma_span_pos,
    lemma_span_succ, lemma_span_monotone,
};

verus! {

/// The size of one layer of a bit set, in words.
#[derive(Debug, Clone, Copy, PartialEq, Eq, Hash)]
pub struct LayerLayout {
    /// The length of the layer.
    pub cap: usize,
}

/// `n / s`, rounded up.
pub open spec fn ceil_div(n: nat, s: nat) -> nat {
    ((n + s - 1) as nat) / s
}

/// The number of words needed to hold `n` bits.
pub open spec fn words_for(n: nat) -> nat {
    ceil_div(n, word_bits())
}

/// The word counts of the layers that summarize a layer of `n` bits: one bit
/// per word of the layer below, until a layer of a single word.
pub open spec fn layers_for(n: nat) -> Seq<nat>
    decreases n,
{
    if n <= 1 {
        seq![]
    } else {
        proof {
            lemma_words_for_shrinks(n);
        }
        seq![words_for(n)] + layers_for(words_for(n))
    }
}

/// The word counts of the layers of a bit set that holds `capacity` bits,
/// from layer 0 up.
pub open spec fn layer_sizes(capacity: nat) -> Seq<nat> {
    layers_for(word_bits() * words_for(capacity))
}

/// The deepest layer count that the iteration arithmetic supports in a word.
pub open spec fn max_layers() -> nat {
    if usize::BITS == 64 {
        10
    } else {
        6
    }
}

/// The largest capacity a bit set can have: every position it holds, divided by
/// the span of any layer, fits a shift within a word.
pub open spec fn max_capacity() -> nat {
    span(max_layers())
}

/// The smallest `k` with `2^k >= c`.
pub open spec fn ceil_log2(c: nat) -> nat
    decreases c,
{
    if c <= 1 {
        0
    } else {
        ceil_log2(((c + 1) / 2) as nat) + 1
    }
}

/// The capacity that a request for `c` bits is rounded up to: 0 for 0, the
/// smallest power of two that is at least `c` and at least 16, or
/// `usize::MAX` for a request above the largest power of two in a word.
pub open spec fn capacity_for(c: nat) -> nat {
    if c == 0 {
        0
    } else if c > pow2((word_bits() - 1) as nat) {
        usize::MAX as nat
    } else if ceil_log2(c) < 4 {
        16
    } else {
        pow2(ceil_log2(c))
    }
}

pub proof fn lemma_words_for_shrinks(n: nat)
    requires
        n > 1,
    ensures
        1 <= words_for(n) < n,
{
    lemma_word_bits();
    let w = word_bits() as int;
    assert(words_for(n) >= 1) by {
        lemma_div_is_ordered(w, (n + w - 1), w);
        assert(w / w == 1) by (nonlinear_arith)
            requires
                w > 0,
        ;
    }
    assert(words_for(n) < n) by {
        lemma_fundamental_div_mod((n + w - 1) as int, w);
        lemma_mod_pos_bound((n + w - 1) as int, w);
        let q = (n + w - 1) / w;
        let r = (n + w - 1) % w;
        assert(n + w - 1 == w * q + r);
        assert(q < n) by (nonlinear_arith)
            requires
                n + w - 1 == w * q + r,
                0 <= r,
                w >= 32,
                n > 1,
        ;
    }
}

/// `ceil(ceil(n / a) / b) == ceil(n / (a * b))`.
pub proof fn lemma_ceil_div_compose(n: nat, a: nat, b: nat)
    requires
        a > 0,
        b > 0,
    ensures
        ceil_div(ceil_div(n, a), b) == ceil_div(n, a * b),
{
    lemma_mul_strictly_positive(a as int, b as int);
    let x = (n + a - 1) as int;
    assert((n + a * b - 1) as int == x + (b - 1) * a) by (nonlinear_arith)
        requires
            x == n + a - 1,
    ;
    lemma_hoist_over_denominator(x, (b - 1) as int, a);
    assert(ceil_div(n, a) + b - 1 == (x + (b - 1) * a) / a as int);
    lemma_div_denominator((n + a * b - 1) as int, a as int, b as int);
}

pub proof fn lemma_ceil_div_bounds(n: nat, s: nat)
    requires
        s > 0,
    ensures
        n <= ceil_div(n, s) * s,
        n > 0 ==> ceil_div(n, s) >= 1,
        ceil_div(n, s) <= 1 <==> n <= s,
        n == 0 ==> ceil_div(n, s) == 0,
        ceil_div(n, s) * s < n + s,
{
    let x = (n + s - 1) as int;
    lemma_fundamental_div_mod(x, s as int);
    lemma_mod_pos_bound(x, s as int);
    let q = x / s as int;
    let r = x % s as int;
    assert(q * s == s * q) by (nonlinear_arith);
    assert(n <= q * s) by (nonlinear_arith)
        requires
            x == s * q + r,
            r < s,
            x == n + s - 1,
    ;
    assert(q <= 1 <==> n <= s) by (nonlinear_arith)
        requires
            x == s * q + r,
            0 <= r < s,
            x == n + s - 1,
            s > 0,
    ;
    assert(n > 0 ==> q >= 1) by (nonlinear_arith)
        requires
            x == s * q + r,
            0 <= r < s,
            x == n + s - 1,
            s > 0,
    ;
    assert(n == 0 ==> q == 0) by (nonlinear_arith)
        requires
            x == s * q + r,
            0 <= r < s,
            x == n + s - 1,
            s > 0,
    ;
    assert(q * s < n + s) by (nonlinear_arith)
        requires
            x == s * q + r,
            0 <= r < s,
            x == n + s - 1,
            s > 0,
    ;
}

/// `ceil_div` does not decrease when its first argument grows.
pub proof fn lemma_ceil_div_monotone(n: nat, m: nat, s: nat)
    requires
        s > 0,
        n <= m,
    ensures
        ceil_div(n, s) <= ceil_div(m, s),
{
    lemma_div_is_ordered((n + s - 1) as int, (m + s - 1) as int, s as int);
}

/// Layer `d` of the summaries of `n` bits has `ceil(n / span(d + 1))` words;
/// the last one has a single word.
pub proof fn lemma_layers_for(n: nat)
    ensures
        forall|d: int|
            0 <= d < layers_for(n).len() ==> #[trigger] layers_for(n)[d] == ceil_div(
                n,
                span((d + 1) as nat),
            ),
        n > 1 ==> layers_for(n).len() >= 1,
        n > 1 ==> layers_for(n).last() == 1,
        n > 1 ==> n <= span(layers_for(n).len()),
        n > 1 && layers_for(n).len() >= 2 ==> n > span((layers_for(n).len() - 1) as nat),
        forall|d: int| 0 <= d < layers_for(n).len() ==> #[trigger] layers_for(n)[d] >= 1,
    decreases n,
{
    lemma_word_bits();
    if n > 1 {
        let w = words_for(n);
        lemma_words_for_shrinks(n);
        lemma_layers_for(w);
        let rest = layers_for(w);
        let s = layers_for(n);
        assert(s == seq![w] + rest);
        assert forall|d: int| 0 <= d < s.len() implies #[trigger] s[d] == ceil_div(
            n,
            span((d + 1) as nat),
        ) by {
            if d == 0 {
                assert(span(1) == word_bits());
            } else {
                assert(s[d] == rest[d - 1]);
                assert(rest[d - 1] == ceil_div(w, span(d as nat)));
                lemma_span_pos(d as nat);
                lemma_ceil_div_compose(n, word_bits(), span(d as nat));
                lemma_span_succ(d as nat);
            }
        }
        assert forall|d: int| 0 <= d < s.len() implies #[trigger] s[d] >= 1 by {
            if d > 0 {
                assert(s[d] == rest[d - 1]);
            }
        }
        lemma_ceil_div_bounds(n, word_bits());
        if w <= 1 {
            assert(rest.len() == 0);
            assert(s.len() == 1);
            assert(n <= word_bits());
        } else {
            assert(s.last() == rest.last());
            // n <= span(len): from the top layer having a single word.
            let l = s.len();
            assert(s[l - 1] == 1);
            lemma_span_pos(l);
            lemma_ceil_div_bounds(n, span(l));
            // n > span(len - 1): the layer below the top has more than one word.
            assert(l >= 2);
            assert(s[l - 2] == ceil_div(n, span((l - 1) as nat)));
            lemma_span_pos((l - 1) as nat);
            lemma_ceil_div_bounds(n, span((l - 1) as nat));
            if l >= 3 {
                assert(s[l - 2] == rest[l - 3]);
                assert(rest[l - 3] >= 1);
            }
            assert(s[l - 2] > 1) by {
                if l == 2 {
                    assert(s[0] == w);
                } else {
                    // the layer below the top of `rest` has more than one word
                    assert(rest.len() >= 2);
                    assert(w > span((rest.len() - 1) as nat));
                    assert(rest[rest.len() - 2] == ceil_div(w, span((rest.len() - 1) as nat)));
                    lemma_span_pos((rest.len() - 1) as nat);
                    lemma_ceil_div_bounds(w, span((rest.len() - 1) as nat));
                }
            }
        }
    }
}

/// The layers of a nonzero capacity: layer `d` has `ceil(capacity / span(d + 1))`
/// words, the top layer one word, and every position below the capacity lies
/// under the top word.
pub proof fn lemma_layer_sizes(capacity: nat)
    ensures
        capacity == 0 <==> layer_sizes(capacity).len() == 0,
        forall|d: int|
            0 <= d < layer_sizes(capacity).len() ==> #[trigger] layer_sizes(capacity)[d]
                == ceil_div(capacity, span((d + 1) as nat)),
        forall|d: int|
            0 <= d < layer_sizes(capacity).len() ==> #[trigger] layer_sizes(capacity)[d] >= 1,
        capacity > 0 ==> layer_sizes(capacity).last() == 1,
        capacity > 0 ==> capacity <= span(layer_sizes(capacity).len()),
        layer_sizes(capacity).len() >= 2 ==> capacity > span(
            (layer_sizes(capacity).len() - 1) as nat,
        ),
{
    lemma_word_bits();
    let n = word_bits() * words_for(capacity);
    lemma_ceil_div_bounds(capacity, word_bits());
    if capacity == 0 {
        assert(n == 0);
    } else {
        assert(n >= word_bits()) by (nonlinear_arith)
            requires
                n == word_bits() * words_for(capacity),
                words_for(capacity) >= 1,
        ;
        lemma_layers_for(n);
        let s = layers_for(n);
        assert forall|d: int| 0 <= d < s.len() implies #[trigger] s[d] == ceil_div(
            capacity,
            span((d + 1) as nat),
        ) by {
            lemma_span_pos(d as nat);
            lemma_span_succ(d as nat);
            lemma_ceil_div_compose(capacity, word_bits(), span(d as nat));
            // ceil(W * ceil(c / W) / span(d + 1)) == ceil(ceil(c / W) / span(d))
            lemma_ceil_div_of_multiple(words_for(capacity), word_bits(), span(d as nat));
        }
        let l = s.len();
        lemma_span_pos(l);
        lemma_ceil_div_bounds(capacity, span(l));
        assert(s[l - 1] == 1);
        if l >= 2 {
            assert(s[l - 2] == ceil_div(capacity, span((l - 1) as nat)));
            assert(s[l - 2] == ceil_div(n, span((l - 1) as nat)));
            lemma_span_pos((l - 1) as nat);
            lemma_ceil_div_bounds(n, span((l - 1) as nat));
            lemma_ceil_div_bounds(capacity, span((l - 1) as nat));
        }
    }
}

/// `ceil(w * q / (w * s)) == ceil(q / s)`.
pub proof fn lemma_ceil_div_of_multiple(q: nat, w: nat, s: nat)
    requires
        w > 0,
        s > 0,
    ensures
        ceil_div(w * q, s * w) == ceil_div(q, s),
{
    lemma_mul_strictly_positive(w as int, s as int);
    // w * q + s * w - 1 == w * (q + s - 1) + (w - 1)
    let x = (q + s - 1) as int;
    assert((w * q + s * w - 1) as int == w * x + (w - 1)) by (nonlinear_arith)
        requires
            x == q + s - 1,
            s >= 1,
    ;
    assert(s * w == w * s) by (nonlinear_arith);
    lemma_div_denominator((w * q + s * w - 1) as int, w as int, s as int);
    vstd::arithmetic::div_mod::lemma_div_multiples_vanish_fancy(x, (w - 1) as int, w as int);
}

/// Growing the capacity never removes a layer nor shrinks one.
pub proof fn lemma_layer_sizes_monotone(c1: nat, c2: nat)
    requires
        c1 <= c2,
    ensures
        layer_sizes(c1).len() <= layer_sizes(c2).len(),
        forall|d: int|
            0 <= d < layer_sizes(c1).len() ==> #[trigger] layer_sizes(c1)[d] <= layer_sizes(
                c2,
            )[d],
{
    lemma_layer_sizes(c1);
    lemma_layer_sizes(c2);
    let l1 = layer_sizes(c1).len();
    let l2 = layer_sizes(c2).len();
    if c1 > 0 && l1 > l2 {
        assert(l1 >= 2);
        lemma_span_monotone(l2, (l1 - 1) as nat);
    }
    assert forall|d: int| 0 <= d < layer_sizes(c1).len() implies #[trigger] layer_sizes(c1)[d]
        <= layer_sizes(c2)[d] by {
        lemma_span_pos((d + 1) as nat);
        lemma_ceil_div_monotone(c1, c2, span((d + 1) as nat));
    }
}

/// A capacity within `span(k)` needs at most `k` layers.
pub proof fn lemma_layer_count_bound(capacity: nat, k: nat)
    requires
        capacity <= span(k),
        k >= 1,
    ensures
        layer_sizes(capacity).len() <= k,
{
    lemma_layer_sizes(capacity);
    let l = layer_sizes(capacity).len();
    if l > k {
        lemma_span_monotone(k, (l - 1) as nat);
    }
}

pub proof fn lemma_max_capacity()
    ensures
        max_capacity() == pow2(word_shift() * max_layers()),
        word_shift() * max_layers() < word_bits(),
        max_layers() <= word_bits() / 4,
        max_layers() >= 1,
        max_capacity() >= 16,
        max_capacity() <= pow2((word_bits() - 1) as nat),
        max_capacity() < usize::MAX,
        max_capacity() + word_bits() <= usize::MAX,
        2 * max_capacity() <= usize::MAX,
{
    lemma_word_bits();
    lemma2_to64();
    vstd::arithmetic::power2::lemma2_to64_rest();
    if usize::BITS == 64 {
        assert(word_shift() * max_layers() == 60);
        vstd::arithmetic::power2::lemma_pow2_strictly_increases(60, 63);
        vstd::arithmetic::power2::lemma_pow2_strictly_increases(4, 60);
        vstd::bits::lemma_usize_pow2_no_overflow(60);
    } else {
        assert(word_shift() * max_layers() == 30);
        vstd::arithmetic::power2::lemma_pow2_strictly_increases(30, 31);
        vstd::arithmetic::power2::lemma_pow2_strictly_increases(4, 30);
        vstd::bits::lemma_usize_pow2_no_overflow(30);
    }
}

/// The arithmetic on layer `d` of a set of capacity `cap` stays within a word:
/// shifting by `span(d + 1)` is a shift by less than a word, and every position
/// under the words of the layer lies below twice the largest capacity.
pub proof fn lemma_layer_bounds(cap: nat, d: nat)
    requires
        cap <= max_capacity(),
        d < layer_sizes(cap).len(),
    ensures
        word_shift() * (d + 1) < word_bits(),
        word_shift() * d < word_bits(),
        d + 1 <= max_layers(),
        layer_sizes(cap)[d as int] * span(d + 1) < 2 * max_capacity(),
        2 * max_capacity() <= usize::MAX,
        span(d + 1) <= max_capacity(),
        cap <= span(layer_sizes(cap).len()),
        span(layer_sizes(cap).len()) <= max_capacity(),
{
    lemma_max_capacity();
    lemma_layer_sizes(cap);
    lemma_layer_count_bound(cap, max_layers());
    let l = layer_sizes(cap).len();
    assert(word_shift() * (d + 1) <= word_shift() * max_layers()) by (nonlinear_arith)
        requires
            d + 1 <= max_layers(),
    ;
    assert(word_shift() * d <= word_shift() * (d + 1)) by (nonlinear_arith);
    lemma_span_monotone(d + 1, max_layers());
    lemma_span_monotone(l, max_layers());
    lemma_span_pos(d + 1);
    lemma_ceil_div_bounds(cap, span(d + 1));
}

/// `ceil_log2(c) == k` for `2^(k - 1) < c <= 2^k`.
pub proof fn lemma_ceil_log2(c: nat, k: nat)
    requires
        c >= 1,
        c <= pow2(k),
        k >= 1 ==> pow2((k - 1) as nat) < c,
    ensures
        ceil_log2(c) == k,
    decreases k,
{
    lemma2_to64();
    if k == 0 {
        assert(c == 1);
    } else {
        lemma_pow2_unfold(k);
        let h = ((c + 1) / 2) as nat;
        if k == 1 {
            assert(c == 2);
            assert(h == 1);
        } else {
            lemma_pow2_unfold((k - 1) as nat);
            lemma_ceil_log2(h, (k - 1) as nat);
        }
    }
}

/// `2^ceil_log2(c)` is the least power of two at or above `c`.
pub proof fn lemma_ceil_log2_bounds(c: nat)
    requires
        c >= 1,
    ensures
        c <= pow2(ceil_log2(c)),
        ceil_log2(c) >= 1 ==> pow2((ceil_log2(c) - 1) as nat) < c,
    decreases c,
{
    lemma2_to64();
    if c > 1 {
        let h = ((c + 1) / 2) as nat;
        lemma_ceil_log2_bounds(h);
        let k = ceil_log2(c);
        assert(k == ceil_log2(h) + 1);
        lemma_pow2_unfold(k);
        if ceil_log2(h) >= 1 {
            lemma_pow2_unfold(ceil_log2(h));
        } else {
            assert(h == 1);
        }
    }
}

/// A request of at most `max_capacity()` bits is rounded to a capacity that
/// holds it and is still at most `max_capacity()`.
pub proof fn lemma_capacity_for(c: nat)
    requires
        1 <= c <= max_capacity(),
    ensures
        c <= capacity_for(c) <= max_capacity(),
        capacity_for(c) >= 16,
{
    lemma_max_capacity();
    lemma_ceil_log2_bounds(c);
    lemma2_to64();
    let k = ceil_log2(c);
    let m = word_shift() * max_layers();
    if k > m {
        if (k - 1) as nat > m {
            vstd::arithmetic::power2::lemma_pow2_strictly_increases(m, (k - 1) as nat);
        }
    }
    if k < m {
        vstd::arithmetic::power2::lemma_pow2_strictly_increases(k, m);
    }
    if k >= 4 {
        if k > 4 {
            vstd::arithmetic::power2::lemma_pow2_strictly_increases(4, k);
        }
    } else {
        if k < 4 {
            vstd::arithmetic::power2::lemma_pow2_strictly_increases(k, 4);
        }
    }
}

/// Rounding a request of `c` bits gives the smallest power of two from 16 up
/// that holds `c` bits, and rounding that again changes nothing.
pub proof fn lemma_capacity_rounding(c: nat)
    requires
        1 <= c <= max_capacity(),
    ensures
        c <= capacity_for(c) <= max_capacity(),
        exists|k: nat| 4 <= k && #[trigger] pow2(k) == capacity_for(c),
        capacity_for(c) == 16 || capacity_for(c) < 2 * c,
        capacity_for(capacity_for(c)) == capacity_for(c),
{
    lemma_capacity_for(c);
    lemma_max_capacity();
    vstd::arithmetic::power2::lemma2_to64();
    lemma_ceil_log2_bounds(c);
    let k = ceil_log2(c);
    let r = capacity_for(c);
    if k < 4 {
        assert(r == 16);
        assert(pow2(4) == 16);
        lemma_ceil_log2(16, 4);
    } else {
        assert(r == pow2(k));
        vstd::arithmetic::power2::lemma_pow2_unfold(k);
        lemma_ceil_log2(r, k);
        if k > 4 {
            vstd::arithmetic::power2::lemma_pow2_strictly_increases((k - 1) as nat, k);
        }
    }
    lemma_capacity_for(r);
}

/// `value` rounded up to a multiple of `BITS`.
pub fn round_bits_up(value: usize) -> (r: usize)
    requires
        value % BITS == 0 || value + (BITS - value % BITS) <= usize::MAX,
    ensures
        r % BITS == 0,
        value <= r < value + BITS,
        r == word_bits() * words_for(value as nat),
{
    proof {
        lemma_word_bits();
    }
    let m = value % BITS;
    let r = if m == 0 {
        value
    } else {
        value + (BITS - m)
    };
    proof {
        let w = word_bits() as int;
        lemma_fundamental_div_mod(value as int, w);
        lemma_mod_pos_bound(value as int, w);
        let q = value as int / w;
        if m == 0 {
            assert(r == w * q);
        } else {
            assert(r == w * (q + 1)) by (nonlinear_arith)
                requires
                    r == value + (w - m),
                    value == w * q + m,
            ;
        }
        // r == w * ceil(value / w)
        let c = words_for(value as nat);
        assert(c == (value + w - 1) / w);
        if m == 0 {
            lemma_fundamental_div_mod_converse((value + w - 1) as int, w, q, w - 1);
        } else {
            lemma_fundamental_div_mod_converse((value + w - 1) as int, w, q + 1, m as int - 1);
        }
        assert(r as int % w == 0) by {
            if m == 0 {
                vstd::arithmetic::div_mod::lemma_mod_multiples_basic(q, w);
                assert(w * q == q * w) by (nonlinear_arith);
            } else {
                vstd::arithmetic::div_mod::lemma_mod_multiples_basic(q + 1, w);
                assert(w * (q + 1) == (q + 1) * w) by (nonlinear_arith);
            }
        }
    }
    r
}

/// The word counts of the layers of a bit set that holds `capacity` bits.
pub fn bit_set_layout(capacity: usize) -> (r: Vec<LayerLayout>)
    requires
        capacity % BITS == 0 || capacity + (BITS - capacity % BITS) <= usize::MAX,
    ensures
        r@.len() == layer_sizes(capacity as nat).len(),
        forall|d: int| 0 <= d < r@.len() ==> #[trigger] r@[d].cap == layer_sizes(capacity as nat)[d],
{
    let mut cap = round_bits_up(capacity);
    let mut out: Vec<LayerLayout> = Vec::new();
    let ghost total = layer_sizes(capacity as nat);
    proof {
        lemma_word_bits();
    }
    loop
        invariant
            out@.len() + layers_for(cap as nat).len() == total.len(),
            forall|d: int| 0 <= d < out@.len() ==> #[trigger] out@[d].cap == total[d],
            forall|d: int|
                0 <= d < layers_for(cap as nat).len() ==> #[trigger] layers_for(cap as nat)[d]
                    == total[out@.len() + d],
            out@.len() > 0 ==> cap <= usize::MAX / 16,
            total == layer_sizes(capacity as nat),
            out@.len() == 0 ==> cap == word_bits() * words_for(capacity as nat),
            BITS == word_bits(),
        ensures
            out@.len() == total.len(),
            forall|d: int| 0 <= d < out@.len() ==> #[trigger] out@[d].cap == total[d],
        decreases cap,
    {
        if cap == 1 {
            assert(layers_for(1) =~= seq![]);
            break;
        }
        let ghost old_cap = cap as nat;
        proof {
            lemma_word_bits();
        }
        let m = cap % BITS;
        assert(m == 0 || cap + (BITS - m) <= usize::MAX) by {
            if out@.len() == 0 {
                assert(cap == word_bits() * words_for(capacity as nat));
                vstd::arithmetic::div_mod::lemma_mod_multiples_basic(
                    words_for(capacity as nat) as int,
                    word_bits() as int,
                );
                assert(word_bits() * words_for(capacity as nat) == words_for(capacity as nat)
                    * word_bits()) by (nonlinear_arith);
            }
        }
        let rounded = round_bits_up(cap);
        cap = rounded / BITS;
        proof {
            lemma_div_is_ordered(rounded as int, usize::MAX as int, word_bits() as int);
            vstd::arithmetic::div_mod::lemma_div_is_ordered_by_denominator(
                usize::MAX as int,
                16,
                word_bits() as int,
            );
        }
        proof {
            assert(cap == words_for(old_cap)) by {
                let w = word_bits() as int;
                vstd::arithmetic::div_mod::lemma_div_multiples_vanish(
                    words_for(old_cap) as int,
                    w,
                );
                assert(w * words_for(old_cap) == words_for(old_cap) * w) by (nonlinear_arith);
            }
        }
        if cap > 0 {
            let ghost old_out = out@;
            proof {
                lemma_words_for_shrinks_or_zero(old_cap);
                assert(layers_for(old_cap) == seq![cap as nat] + layers_for(cap as nat));
                assert(layers_for(old_cap)[0] == cap);
                assert(total[old_out.len() as int] == cap);
                assert forall|d: int| 0 <= d < layers_for(cap as nat).len() implies #[trigger] layers_for(cap as nat)[d]
                    == total[old_out.len() + 1 + d] by {
                    assert(layers_for(old_cap)[d + 1] == layers_for(cap as nat)[d]);
                }
            }
            out.push(LayerLayout { cap });
            proof {
                assert forall|d: int| 0 <= d < out@.len() implies #[trigger] out@[d].cap == total[d] by {
                    if d < old_out.len() {
                        assert(out@[d] == old_out[d]);
                    }
                }
            }
        } else {
            proof {
                lemma_ceil_div_bounds(old_cap, word_bits());
                assert(layers_for(0) =~= seq![]);
            }
            break;
        }
    }
    out
}

proof fn lemma_words_for_shrinks_or_zero(c: nat)
    ensures
        c > 1 ==> layers_for(c) == seq![words_for(c)] + layers_for(words_for(c)),
{
}

/// Round a capacity up to the capacity the set takes: see `capacity_for`.
pub fn round_capacity_up(cap: usize) -> (r: usize)
    ensures
        r == capacity_for(cap as nat),
{
    if cap == 0 {
        return 0;
    }
    proof {
        lemma_word_bits();
        lemma2_to64();
        vstd::bits::lemma_usize_pow2_no_overflow((word_bits() - 1) as nat);
        lemma_usize_shl_is_mul(1, (BITS - 1) as usize);
    }
    if cap > (1usize << (BITS - 1)) {
        return usize::MAX;
    }
    let tz = lowest_bit(cap);
    proof {
        vstd::bits::lemma_usize_pow2_no_overflow(tz as nat);
        lemma_usize_shl_is_mul(1, tz);
    }
    let ghost k: nat;
    let r = if cap == 1usize << tz {
        proof {
            if tz >= 1 {
                vstd::arithmetic::power2::lemma_pow2_strictly_increases((tz - 1) as nat, tz as nat);
            }
            lemma_pow2_pos(tz as nat);
            lemma_ceil_log2(cap as nat, tz as nat);
            k = tz as nat;
        }
        cap
    } else {
        proof {
            if cap == pow2((word_bits() - 1) as nat) {
                lemma_pow2_lowest(cap, tz, (BITS - 1) as usize);
            }
            if cap == 1 {
                lemma_pow2_lowest(cap, tz, 0);
            }
        }
        let len = bit_length(cap);
        proof {
            vstd::bits::lemma_usize_pow2_no_overflow(len as nat);
            lemma_usize_shl_is_mul(1, len);
            if cap == pow2((len - 1) as nat) {
                lemma_pow2_lowest(cap, tz, (len - 1) as usize);
            }
            lemma_ceil_log2(cap as nat, len as nat);
            k = len as nat;
        }
        1usize << len
    };
    proof {
        lemma_pow2_small(k);
    }
    if r < 16 {
        16
    } else {
        r
    }
}

proof fn lemma_pow2_small(k: nat)
    ensures
        k < 4 <==> pow2(k) < 16,
{
    lemma2_to64();
    if k > 4 {
        vstd::arithmetic::power2::lemma_pow2_strictly_increases(4, k);
    }
}

/// The lowest set bit of `2^j` is bit `j`.
proof fn lemma_pow2_lowest(x: usize, tz: usize, j: usize)
    requires
        j < usize::BITS,
        x == pow2(j as nat),
        tz < usize::BITS,
        bit(x, tz as nat),
        forall|k: nat| k < tz ==> !#[trigger] bit(x, k),
    ensures
        tz == j,
        x == 1usize << tz,
{
    vstd::bits::lemma_usize_pow2_no_overflow(j as nat);
    lemma_usize_shl_is_mul(1, j);
    assert(x == 1usize << j);
    lemma_bit_of_shifted_one(j, tz);
}

/// The only bit of `1 << j` is bit `j`.
pub proof fn lemma_bit_of_shifted_one(j: usize, k: usize)
    requires
        j < usize::BITS,
        k < usize::BITS,
    ensures
        bit(1usize << j, k as nat) == (k == j),
{
    assert((((1usize << j) >> k) & 1usize == 1usize) <==> k == j) by (bit_vector)
        requires
            j < usize::BITS,
            k < usize::BITS,
    ;
}

/// The number of bits needed to write `x`, for `x` below the top bit of a word.
fn bit_length(x: usize) -> (len: usize)
    requires
        x >= 1,
        x < pow2((word_bits() - 1) as nat),
    ensures
        1 <= len < usize::BITS,
        pow2((len - 1) as nat) <= x < pow2(len as nat),
{
    let y = x as u64;
    let lz = y.leading_zeros();
    proof {
        lemma_word_bits();
        lemma2_to64();
        axiom_u64_leading_zeros(y);
        assert(y != 0);
        let l = lz as u64;
        assert(l < 64);
        // bit 63 - lz is set: y >= 2^(63 - lz)
        let hi = (63 - l) as u64;
        lemma_u64_shr_is_div(y, hi);
        assert((y >> hi) & 1u64 != 0u64);
        assert((y >> hi) >= 1u64) by (bit_vector)
            requires
                (y >> hi) & 1u64 != 0u64,
        ;
        lemma_pow2_pos(hi as nat);
        assert(y as nat / pow2(hi as nat) >= 1);
        assert(y >= pow2(hi as nat)) by {
            if y < pow2(hi as nat) {
                vstd::arithmetic::div_mod::lemma_basic_div(y as int, pow2(hi as nat) as int);
            }
        }
        // the length is below the width of a word
        if 64 - l >= word_bits() {
            vstd::arithmetic::power2::lemma_pow2_strictly_increases(
                (word_bits() - 1) as nat,
                hi as nat,
            );
            assert(false);
        }
        // y >> (64 - lz) == 0: y < 2^(64 - lz)
        let top = (64 - l) as u64;
        assert(top < 64);
        lemma_u64_shr_is_div(y, top);
        assert(y >> top == 0);
        lemma_pow2_pos(top as nat);
        assert(y < pow2(top as nat)) by {
            if y >= pow2(top as nat) {
                lemma_div_is_ordered(pow2(top as nat) as int, y as int, pow2(top as nat) as int);
                vstd::arithmetic::div_mod::lemma_div_by_self(pow2(top as nat) as int);
            }
        }
    }
    (64 - lz) as usize
}

} // verus!
