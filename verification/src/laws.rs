//! Properties of the bit set as a whole.
use vstd::prelude::*;
use vstd::arithmetic::power2::pow2;

use crate::bits::{bit, span, word_bits, lemma_span_pos};
use crate::bitset::BitSet;
use crate::layout::{
    ceil_div, max_capacity, lemma_layer_sizes, lemma_ceil_div_bounds,
    lemma_max_capacity, lemma_capacity_rounding,
};
use crate::levels::{
    has_block, level_ok, below, lemma_word_nonzero, lemma_word_bit, lemma_top_word,
};

verus! {

/// Each layer above layer 0 summarizes the layer below it: bit `j` of word `w`
/// of layer `d + 1` is set exactly when word `w * word_bits() + j` of layer `d`
/// exists and is not zero.
pub proof fn lemma_summary_bit(set: BitSet, d: nat, w: nat, j: nat)
    requires
        set.wf(),
        d + 1 < set.layer_words().len(),
        w < set.layer_words()[(d + 1) as int].len(),
        j < word_bits(),
    ensures
        bit(set.layer_words()[(d + 1) as int][w as int], j) <==> (w * word_bits() + j < set.layer_words()[
            d as int].len() && set.layer_words()[d as int][(w * word_bits() + j) as int] != 0),
{
    let words = set.layer_words();
    let s = set@;
    let c = set.spec_capacity();
    let b = w * word_bits() + j;
    assert(level_ok(words[(d + 1) as int], d + 1, s));
    assert(level_ok(words[d as int], d, s));
    lemma_word_bit(words[(d + 1) as int], d + 1, s, w, j);
    if b < words[d as int].len() {
        lemma_word_nonzero(words[d as int], d, s, b);
    } else if has_block(s, d + 1, b) {
        let p = choose|p: nat| #![trigger s.contains(p)] s.contains(p) && p / span(d + 1) == b;
        assert(p < c);
        lemma_layer_sizes(c);
        assert(words[d as int].len() == ceil_div(c, span(d + 1)));
        lemma_span_pos(d + 1);
        lemma_ceil_div_bounds(c, span(d + 1));
        crate::bits::lemma_block_bounds(p, d + 1, words[d as int].len());
    }
}

/// A set with room for any position has a top layer of a single word, which
/// is zero exactly when the set is empty; a set without room has no layers
/// and no positions.
pub proof fn lemma_top_layer(set: BitSet)
    requires
        set.wf(),
    ensures
        set.spec_capacity() == 0 <==> set.layer_words().len() == 0,
        set.spec_capacity() == 0 ==> set@ == Set::<nat>::empty(),
        set.spec_capacity() > 0 ==> set.layer_words().last().len() == 1,
        set.spec_capacity() > 0 ==> (set.layer_words().last()[0] == 0 <==> set@ == Set::<
            nat,
        >::empty()),
{
    let words = set.layer_words();
    let s = set@;
    let c = set.spec_capacity();
    lemma_layer_sizes(c);
    if c == 0 {
        assert(s =~= Set::<nat>::empty()) by {
            assert forall|p: nat| !s.contains(p) by {
                if s.contains(p) {
                    assert(p < c);
                }
            }
        }
    } else {
        let l = words.len();
        let d = (l - 1) as nat;
        assert(words.last() == words[d as int]);
        assert(level_ok(words[d as int], d, s));
        assert forall|p: nat| #[trigger] s.contains(p) implies p < span(d + 1) by {
            assert(p < c);
        }
        lemma_top_word(words[d as int], d, s);
    }
}

/// The layers of an empty set, such as a set drained to the end, are all
/// zero.
pub proof fn lemma_empty_layers_zero(set: BitSet)
    requires
        set.wf(),
        set@ == Set::<nat>::empty(),
    ensures
        forall|d: int, w: int|
            0 <= d < set.layer_words().len() && 0 <= w < set.layer_words()[d].len()
                ==> #[trigger] set.layer_words()[d][w] == 0,
{
    let words = set.layer_words();
    assert forall|d: int, w: int|
        0 <= d < words.len() && 0 <= w < words[d].len() implies #[trigger] words[d][w] == 0 by {
        assert(level_ok(words[d], d as nat, set@));
        lemma_word_nonzero(words[d], d as nat, set@, w as nat);
    }
}

/// Every position of a set lies below its capacity, and the capacity is 0 or
/// a power of two from 16 up to `max_capacity()`.
pub proof fn lemma_capacity_shape(set: BitSet)
    requires
        set.wf(),
    ensures
        forall|p: nat| #[trigger] set@.contains(p) ==> p < set.spec_capacity(),
        set.spec_capacity() == 0 || (exists|k: nat|
            4 <= k && #[trigger] pow2(k) == set.spec_capacity()),
        set.spec_capacity() <= max_capacity(),
{
    let c = set.spec_capacity();
    if c > 0 {
        lemma_max_capacity();
        lemma_capacity_rounding(c);
    }
}

/// Position `y` is among the first `i` positions of `xs`.
pub open spec fn listed_before(xs: Seq<nat>, i: int, y: nat) -> bool {
    exists|k: int| 0 <= k < i && xs[k] == y
}

/// What is left of `s` once the first `i` positions of `xs` are drained.
pub open spec fn left_after(s: Set<nat>, xs: Seq<nat>, i: int) -> Set<nat> {
    s.filter(|y: nat| !listed_before(xs, i, y))
}

/// `xs` is what a drain of a set holding `s` returns, call by call, before
/// its first `None`: as `Drain::next` states, each call returns the least
/// position left and removes it, and `None` comes once nothing is left.
pub open spec fn drain_run(s: Set<nat>, xs: Seq<nat>) -> bool {
    &&& drain_steps(s, xs)
    &&& left_after(s, xs, xs.len() as int) == Set::<nat>::empty()
}

/// Each position of `xs` is the least one left of `s` when it is drained.
pub open spec fn drain_steps(s: Set<nat>, xs: Seq<nat>) -> bool {
    forall|i: int|
        0 <= i < xs.len() ==> {
            &&& #[trigger] left_after(s, xs, i).contains(xs[i])
            &&& forall|y: nat| left_after(s, xs, i).contains(y) ==> xs[i] <= y
        }
}

/// One call of `Drain::next`, which returns the least position `x` of what is
/// left and leaves the rest, extends a drain of `s` by `x`, and what it leaves
/// is what is left after the longer drain.
pub proof fn lemma_drain_step(s: Set<nat>, xs: Seq<nat>, x: nat)
    requires
        drain_steps(s, xs),
        left_after(s, xs, xs.len() as int).contains(x),
        forall|y: nat| left_after(s, xs, xs.len() as int).contains(y) ==> x <= y,
    ensures
        drain_steps(s, xs.push(x)),
        left_after(s, xs.push(x), xs.len() + 1int) == left_after(s, xs, xs.len() as int).remove(x),
{
    let n = xs.len() as int;
    let ys = xs.push(x);
    assert forall|i: int, y: nat| 0 <= i <= n implies listed_before(ys, i, y) == listed_before(
        xs,
        i,
        y,
    ) by {
        if listed_before(ys, i, y) {
            let k = choose|k: int| 0 <= k < i && ys[k] == y;
            assert(xs[k] == y);
        }
        if listed_before(xs, i, y) {
            let k = choose|k: int| 0 <= k < i && xs[k] == y;
            assert(ys[k] == y);
        }
    }
    assert forall|i: int| 0 <= i <= n implies #[trigger] left_after(s, ys, i) == left_after(s, xs, i)
        by {
        assert(left_after(s, ys, i) =~= left_after(s, xs, i));
    }
    assert forall|i: int| 0 <= i < ys.len() implies {
        &&& #[trigger] left_after(s, ys, i).contains(ys[i])
        &&& forall|y: nat| left_after(s, ys, i).contains(y) ==> ys[i] <= y
    } by {
        assert(left_after(s, ys, i) == left_after(s, xs, i));
        if i < n {
            assert(ys[i] == xs[i]);
        }
    }
    assert forall|y: nat| listed_before(ys, n + 1, y) <==> (listed_before(xs, n, y) || y == x) by {
        if listed_before(ys, n + 1, y) {
            let k = choose|k: int| 0 <= k < n + 1 && ys[k] == y;
            if k < n {
                assert(xs[k] == y);
            }
        }
        if listed_before(xs, n, y) {
            let k = choose|k: int| 0 <= k < n && xs[k] == y;
            assert(ys[k] == y);
        }
        if y == x {
            assert(ys[n] == y);
        }
    }
    assert(left_after(s, ys, n + 1) =~= left_after(s, xs, n).remove(x));
}

/// A drain of `s` starts with all of `s` left.
pub proof fn lemma_drain_start(s: Set<nat>)
    ensures
        drain_steps(s, Seq::<nat>::empty()),
        left_after(s, Seq::<nat>::empty(), 0) == s,
{
    assert(left_after(s, Seq::<nat>::empty(), 0) =~= s);
}

/// Where the `i`-th call of `next` of an iterator starts looking.
pub open spec fn iter_from(xs: Seq<nat>, i: int) -> nat {
    if i == 0 {
        0
    } else {
        (xs[i - 1] + 1) as nat
    }
}

/// `xs` is what an iterator over a set holding `s` returns, call by call,
/// before its first `None`: as `BitSet::iter` and `Iter::next` state, each call
/// returns the least position at or after where the last one stopped, and
/// `None` comes once no position lies there.
pub open spec fn iter_run(s: Set<nat>, xs: Seq<nat>) -> bool {
    &&& iter_steps(s, xs)
    &&& forall|y: nat| #[trigger] s.contains(y) ==> y < iter_from(xs, xs.len() as int)
}

/// Each position of `xs` is the least of `s` at or after where its call
/// starts looking.
pub open spec fn iter_steps(s: Set<nat>, xs: Seq<nat>) -> bool {
    forall|i: int|
        0 <= i < xs.len() ==> {
            &&& s.contains(#[trigger] xs[i])
            &&& iter_from(xs, i) <= xs[i]
            &&& forall|y: nat| s.contains(y) && iter_from(xs, i) <= y ==> xs[i] <= y
        }
}

/// One call of `Iter::next`, which returns the least position `x` at or after
/// `next_pos()` and moves `next_pos()` to `x + 1`, extends an iteration over
/// `s` by `x`; the next call starts looking where `next_pos()` then stands.
pub proof fn lemma_iter_step(s: Set<nat>, xs: Seq<nat>, x: nat)
    requires
        iter_steps(s, xs),
        s.contains(x),
        iter_from(xs, xs.len() as int) <= x,
        forall|y: nat| s.contains(y) && iter_from(xs, xs.len() as int) <= y ==> x <= y,
    ensures
        iter_steps(s, xs.push(x)),
        iter_from(xs.push(x), xs.len() + 1int) == x + 1,
{
    let ys = xs.push(x);
    assert forall|i: int| 0 <= i <= xs.len() implies iter_from(ys, i) == iter_from(xs, i) by {
        if i > 0 {
            assert(ys[i - 1] == xs[i - 1]);
        }
    }
    assert forall|i: int| 0 <= i < ys.len() implies {
        &&& s.contains(#[trigger] ys[i])
        &&& iter_from(ys, i) <= ys[i]
        &&& forall|y: nat| s.contains(y) && iter_from(ys, i) <= y ==> ys[i] <= y
    } by {
        assert(iter_from(ys, i) == iter_from(xs, i));
        if i < xs.len() {
            assert(ys[i] == xs[i]);
        }
    }
}

/// `xs` lists positions in strictly increasing order.
pub open spec fn ascending(xs: Seq<nat>) -> bool {
    forall|i: int, j: int| 0 <= i < j < xs.len() ==> #[trigger] xs[i] < #[trigger] xs[j]
}

/// Draining a set to the end returns every position of the set exactly once,
/// in increasing order, and nothing else.
pub proof fn lemma_drain_run(s: Set<nat>, xs: Seq<nat>)
    requires
        drain_run(s, xs),
    ensures
        ascending(xs),
        forall|y: nat| s.contains(y) <==> xs.contains(y),
{
    assert forall|i: int, j: int| 0 <= i < j < xs.len() implies #[trigger] xs[i] < #[trigger] xs[j] by {
        assert(left_after(s, xs, j).contains(xs[j]));
        assert(left_after(s, xs, i).contains(xs[i]));
        assert(!listed_before(xs, j, xs[j]));
        if xs[i] == xs[j] {
            assert(listed_before(xs, j, xs[j]));
        }
        assert(left_after(s, xs, i).contains(xs[j]));
    }
    assert forall|y: nat| s.contains(y) <==> xs.contains(y) by {
        if xs.contains(y) {
            let i = choose|i: int| 0 <= i < xs.len() && xs[i] == y;
            assert(left_after(s, xs, i).contains(xs[i]));
        }
        if s.contains(y) && !xs.contains(y) {
            assert(!listed_before(xs, xs.len() as int, y));
            assert(left_after(s, xs, xs.len() as int).contains(y));
        }
    }
}

/// Iterating over a set to the end returns every position of the set exactly
/// once, in increasing order, and nothing else.
pub proof fn lemma_iter_run(s: Set<nat>, xs: Seq<nat>)
    requires
        iter_run(s, xs),
    ensures
        ascending(xs),
        forall|y: nat| s.contains(y) <==> xs.contains(y),
{
    assert forall|i: int, j: int| 0 <= i < j < xs.len() implies #[trigger] xs[i] < #[trigger] xs[j]
        by {
        lemma_iter_step_up(s, xs, i, j);
    }
    assert forall|y: nat| s.contains(y) implies xs.contains(y) by {
        if !xs.contains(y) {
            lemma_iter_misses(s, xs, y, xs.len() as int);
        }
    }
}

proof fn lemma_iter_step_up(s: Set<nat>, xs: Seq<nat>, i: int, j: int)
    requires
        iter_run(s, xs),
        0 <= i < j < xs.len(),
    ensures
        xs[i] < xs[j],
    decreases j - i,
{
    assert(s.contains(xs[j]));
    assert(iter_from(xs, j) <= xs[j]);
    if j == i + 1 {
        assert(iter_from(xs, j) == xs[i] + 1);
    } else {
        lemma_iter_step_up(s, xs, i, j - 1);
        assert(iter_from(xs, j) == xs[j - 1] + 1);
    }
}

/// A position of the set that is not among the first `n` returned lies at
/// or after where call `n` starts looking.
proof fn lemma_iter_misses(s: Set<nat>, xs: Seq<nat>, y: nat, n: int)
    requires
        iter_run(s, xs),
        0 <= n <= xs.len(),
        s.contains(y),
        !xs.contains(y),
    ensures
        iter_from(xs, n) <= y,
    decreases n,
{
    if n > 0 {
        lemma_iter_misses(s, xs, y, n - 1);
        assert(s.contains(y) && iter_from(xs, n - 1) <= y);
        assert(xs[n - 1] <= y);
        assert(xs[n - 1] != y);
    }
}

/// Two increasing lists of the same positions are the same list.
pub proof fn lemma_ascending_unique(xs: Seq<nat>, ys: Seq<nat>)
    requires
        ascending(xs),
        ascending(ys),
        forall|y: nat| xs.contains(y) <==> ys.contains(y),
    ensures
        xs == ys,
    decreases xs.len(),
{
    if xs.len() == 0 {
        if ys.len() > 0 {
            assert(ys.contains(ys[0]));
        }
        assert(ys.len() == 0);
    } else {
        assert(xs.contains(xs[0]));
        assert(ys.len() > 0);
        assert(ys.contains(ys[0]));
        let a = xs[0];
        let b = ys[0];
        let i = choose|i: int| 0 <= i < xs.len() && xs[i] == b;
        let j = choose|j: int| 0 <= j < ys.len() && ys[j] == a;
        if i > 0 {
            assert(xs[0] < xs[i]);
        }
        if j > 0 {
            assert(ys[0] < ys[j]);
        }
        assert(a == b);
        let xt = xs.subrange(1, xs.len() as int);
        let yt = ys.subrange(1, ys.len() as int);
        assert forall|y: nat| xt.contains(y) <==> yt.contains(y) by {
            if xt.contains(y) {
                let k = choose|k: int| 0 <= k < xt.len() && xt[k] == y;
                assert(xs[k + 1] == y);
                assert(xs[0] < xs[k + 1]);
                assert(ys.contains(y));
                let l = choose|l: int| 0 <= l < ys.len() && ys[l] == y;
                assert(l != 0);
                assert(yt[l - 1] == y);
            }
            if yt.contains(y) {
                let k = choose|k: int| 0 <= k < yt.len() && yt[k] == y;
                assert(ys[k + 1] == y);
                assert(ys[0] < ys[k + 1]);
                assert(xs.contains(y));
                let l = choose|l: int| 0 <= l < xs.len() && xs[l] == y;
                assert(l != 0);
                assert(xt[l - 1] == y);
            }
        }
        assert forall|p: int, q: int| 0 <= p < q < xt.len() implies #[trigger] xt[p] < #[trigger] xt[q] by {
            assert(xs[p + 1] < xs[q + 1]);
        }
        assert forall|p: int, q: int| 0 <= p < q < yt.len() implies #[trigger] yt[p] < #[trigger] yt[q] by {
            assert(ys[p + 1] < ys[q + 1]);
        }
        lemma_ascending_unique(xt, yt);
        assert(xs =~= seq![a] + xt);
        assert(ys =~= seq![b] + yt);
    }
}

/// Runs over the same set agree: a second iteration returns what the first
/// did, draining returns what iterating does, and a drain resumed from a
/// snapshot returns what a fresh drain of the set as it then stands does.
pub proof fn lemma_runs_agree(s: Set<nat>, xs: Seq<nat>, ys: Seq<nat>)
    requires
        drain_run(s, xs) || iter_run(s, xs),
        drain_run(s, ys) || iter_run(s, ys),
    ensures
        xs == ys,
{
    if drain_run(s, xs) {
        lemma_drain_run(s, xs);
    } else {
        lemma_iter_run(s, xs);
    }
    if drain_run(s, ys) {
        lemma_drain_run(s, ys);
    } else {
        lemma_iter_run(s, ys);
    }
    lemma_ascending_unique(xs, ys);
}

} // verus!
