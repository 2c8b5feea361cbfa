//! The search cursor read as a mixed-radix number: advancing it strictly
//! increases its rank, and the rank is bounded, so the search ends.
use vstd::prelude::*;

verus! {

/// The number of cursor positions at depths `d..`, where depth `e` has
/// `b[e]` choices.
pub open spec fn width(b: Seq<int>, d: int) -> int
    decreases b.len() - d,
{
    if d >= b.len() {
        1
    } else {
        b[d] * width(b, d + 1)
    }
}

/// The rank of cursor `c` restricted to depths `d..`.
pub open spec fn rank(c: Seq<int>, b: Seq<int>, d: int) -> int
    decreases b.len() - d,
{
    if d >= b.len() || d < 0 {
        0
    } else {
        c[d] * width(b, d + 1) + rank(c, b, d + 1)
    }
}

/// Every entry of `c` from depth `d` on is a valid choice.
pub open spec fn in_bounds(c: Seq<int>, b: Seq<int>) -> bool {
    &&& c.len() == b.len()
    &&& forall|e: int| 0 <= e < b.len() ==> 0 <= #[trigger] c[e] < b[e]
}

/// `c2` is `c1` advanced at depth `s`: equal before, one more at `s`, zero after.
pub open spec fn advanced(c1: Seq<int>, c2: Seq<int>, s: int) -> bool {
    &&& c2.len() == c1.len()
    &&& 0 <= s < c1.len()
    &&& forall|e: int| 0 <= e < s ==> #[trigger] c2[e] == c1[e]
    &&& c2[s] == c1[s] + 1
    &&& forall|e: int| s < e < c1.len() ==> #[trigger] c2[e] == 0
}

pub proof fn lemma_width_pos(b: Seq<int>, d: int)
    requires
        forall|e: int| 0 <= e < b.len() ==> #[trigger] b[e] >= 1,
        0 <= d,
    ensures
        width(b, d) >= 1,
    decreases b.len() - d,
{
    if d < b.len() {
        lemma_width_pos(b, d + 1);
        let w = width(b, d + 1);
        let x = b[d];
        assert(x * w >= 1) by (nonlinear_arith)
            requires
                x >= 1,
                w >= 1,
        ;
    }
}

pub proof fn lemma_rank_bounds(c: Seq<int>, b: Seq<int>, d: int)
    requires
        in_bounds(c, b),
        0 <= d,
    ensures
        0 <= rank(c, b, d) < width(b, d),
    decreases b.len() - d,
{
    if d < b.len() {
        lemma_rank_bounds(c, b, d + 1);
        assert forall|e: int| 0 <= e < b.len() implies #[trigger] b[e] >= 1 by {
            assert(c[e] < b[e]);
        }
        lemma_width_pos(b, d + 1);
        let w = width(b, d + 1);
        let r = rank(c, b, d + 1);
        let x = c[d];
        let y = b[d];
        assert(0 <= x * w + r < y * w) by (nonlinear_arith)
            requires
                0 <= x < y,
                0 <= r < w,
        ;
    }
}

proof fn lemma_rank_zero(c: Seq<int>, b: Seq<int>, d: int)
    requires
        c.len() == b.len(),
        0 <= d,
        forall|e: int| d <= e < c.len() ==> #[trigger] c[e] == 0,
    ensures
        rank(c, b, d) == 0,
    decreases b.len() - d,
{
    if d < b.len() {
        lemma_rank_zero(c, b, d + 1);
    }
}

/// Advancing a valid cursor strictly increases its rank.
pub proof fn lemma_advance_rank(c1: Seq<int>, c2: Seq<int>, b: Seq<int>, s: int, d: int)
    requires
        in_bounds(c1, b),
        advanced(c1, c2, s),
        0 <= d <= s,
    ensures
        rank(c2, b, d) > rank(c1, b, d),
    decreases s - d,
{
    if d < s {
        lemma_advance_rank(c1, c2, b, s, d + 1);
    } else {
        lemma_rank_zero(c2, b, s + 1);
        lemma_rank_bounds(c1, b, s + 1);
        let w = width(b, s + 1);
        let x = c1[s];
        assert((x + 1) * w == x * w + w) by (nonlinear_arith);
    }
}


/// A cursor on the last choice at every depth from `d` on has the largest rank there.
pub proof fn lemma_rank_maxed(c: Seq<int>, b: Seq<int>, d: int)
    requires
        c.len() == b.len(),
        0 <= d,
        forall|e: int| d <= e < b.len() ==> #[trigger] c[e] == b[e] - 1,
    ensures
        rank(c, b, d) == width(b, d) - 1,
    decreases b.len() - d,
{
    if d < b.len() {
        lemma_rank_maxed(c, b, d + 1);
        let w = width(b, d + 1);
        let x = c[d];
        assert(x * w + w == (x + 1) * w) by (nonlinear_arith);
    }
}

/// Advancing where every deeper entry is on its last choice adds exactly one to the rank.
pub proof fn lemma_advance_rank_exact(c1: Seq<int>, c2: Seq<int>, b: Seq<int>, s: int, d: int)
    requires
        in_bounds(c1, b),
        advanced(c1, c2, s),
        forall|e: int| s < e < b.len() ==> #[trigger] c1[e] == b[e] - 1,
        0 <= d <= s,
    ensures
        rank(c2, b, d) == rank(c1, b, d) + 1,
    decreases s - d,
{
    if d < s {
        lemma_advance_rank_exact(c1, c2, b, s, d + 1);
    } else {
        lemma_rank_zero(c2, b, s + 1);
        lemma_rank_maxed(c1, b, s + 1);
        let w = width(b, s + 1);
        let x = c1[s];
        assert((x + 1) * w == x * w + w) by (nonlinear_arith);
    }
}

/// The width of all depths, counted from the last depth.
pub proof fn lemma_width_drop_last(b: Seq<int>, d: int)
    requires
        0 <= d < b.len(),
    ensures
        width(b, d) == width(b.drop_last(), d) * b.last(),
    decreases b.len() - d,
{
    if d + 1 < b.len() {
        lemma_width_drop_last(b, d + 1);
        let w1 = width(b.drop_last(), d + 1);
        let x = b[d];
        let y = b.last();
        assert(b.drop_last()[d] == x);
        assert(width(b.drop_last(), d) == x * w1);
        assert(x * (w1 * y) == (x * w1) * y) by (nonlinear_arith);
    } else {
        assert(width(b, d + 1) == 1);
        assert(width(b.drop_last(), d) == 1);
        assert(b[d] * 1 == 1 * b.last());
    }
}

/// A cursor of zeros has rank zero.
pub proof fn lemma_rank_zeros(c: Seq<int>, b: Seq<int>)
    requires
        c.len() == b.len(),
        forall|e: int| 0 <= e < c.len() ==> #[trigger] c[e] == 0,
    ensures
        rank(c, b, 0) == 0,
{
    lemma_rank_zero(c, b, 0);
}

} // verus!
