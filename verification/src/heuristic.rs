use vstd::prelude::*;

use crate::paths::{Pos, abs_diff, manhattan, adjacent, connects};
use crate::model::GridView;

verus! {

/// The pluggable estimators for the remaining distance to the goal. All
/// three are admissible for 4-directional unit-cost movement: none ever
/// exceeds the true remaining walk length.
#[derive(Clone, Copy, PartialEq, Eq, Structural, Debug)]
pub enum Heuristic {
    Euclidean,
    Manhattan,
    Chebyshev,
}

/// The Chebyshev distance: the larger coordinate difference.
pub open spec fn chebyshev(a: Pos, b: Pos) -> int {
    if abs_diff(a.0, b.0) >= abs_diff(a.1, b.1) {
        abs_diff(a.0, b.0)
    } else {
        abs_diff(a.1, b.1)
    }
}

/// The squared Euclidean distance.
pub open spec fn euclid_sq(a: Pos, b: Pos) -> int {
    abs_diff(a.0, b.0) * abs_diff(a.0, b.0) + abs_diff(a.1, b.1) * abs_diff(a.1, b.1)
}

/// `r` is the integer square root of `s`.
pub open spec fn is_isqrt(s: int, r: int) -> bool {
    0 <= r && r * r <= s < (r + 1) * (r + 1)
}

pub open spec fn isqrt(s: int) -> int {
    choose|r: int| is_isqrt(s, r)
}

/// The Euclidean distance rounded down; rounding down keeps it admissible.
pub open spec fn euclid(a: Pos, b: Pos) -> int {
    isqrt(euclid_sq(a, b))
}

impl Heuristic {
    /// The value the estimator computes.
    pub open spec fn h_spec(self, a: Pos, b: Pos) -> int {
        match self {
            Heuristic::Manhattan => manhattan(a, b),
            Heuristic::Chebyshev => chebyshev(a, b),
            Heuristic::Euclidean => euclid(a, b),
        }
    }
}

proof fn lemma_isqrt_exists(s: int)
    requires
        0 <= s,
    ensures
        exists|r: int| #[trigger] is_isqrt(s, r),
    decreases s,
{
    if s == 0 {
        assert(is_isqrt(0, 0));
    } else {
        lemma_isqrt_exists(s - 1);
        let r = choose|r: int| #[trigger] is_isqrt(s - 1, r);
        if (r + 1) * (r + 1) <= s {
            assert(is_isqrt(s, r + 1)) by (nonlinear_arith)
                requires 0 <= r && r * r <= s - 1 < (r + 1) * (r + 1) && (r + 1) * (r + 1) <= s;
        } else {
            assert(is_isqrt(s, r));
        }
    }
}

proof fn lemma_isqrt_unique(s: int, r1: int, r2: int)
    requires
        is_isqrt(s, r1),
        is_isqrt(s, r2),
    ensures
        r1 == r2,
{
    assert(r1 == r2) by (nonlinear_arith)
        requires
            0 <= r1 && r1 * r1 <= s < (r1 + 1) * (r1 + 1),
            0 <= r2 && r2 * r2 <= s < (r2 + 1) * (r2 + 1);
}

/// `isqrt` denotes the integer square root.
pub proof fn lemma_isqrt_def(s: int)
    requires
        0 <= s,
    ensures
        is_isqrt(s, isqrt(s)),
{
    lemma_isqrt_exists(s);
}

/// The integer square root is monotone in its bound: anything whose square
/// exceeds `s` is larger.
proof fn lemma_isqrt_below(s: int, r: int, t: int)
    requires
        is_isqrt(s, r),
        0 <= t,
        s <= t * t,
    ensures
        r <= t,
{
    assert(r <= t) by (nonlinear_arith)
        requires 0 <= r && r * r <= s < (r + 1) * (r + 1) && 0 <= t && s <= t * t;
}

/// Every estimator is nonnegative and vanishes at the goal itself.
pub proof fn lemma_h_basic(h: Heuristic, a: Pos, b: Pos)
    ensures
        0 <= h.h_spec(a, b),
        a == b ==> h.h_spec(a, b) == 0,
{
    match h {
        Heuristic::Manhattan => {},
        Heuristic::Chebyshev => {},
        Heuristic::Euclidean => {
            lemma_isqrt_def(euclid_sq(a, b));
            if a == b {
                lemma_isqrt_unique(0, isqrt(0), 0);
            }
        },
    }
}

/// No estimator exceeds the Manhattan distance.
pub proof fn lemma_h_le_manhattan(h: Heuristic, a: Pos, b: Pos)
    ensures
        h.h_spec(a, b) <= manhattan(a, b),
{
    match h {
        Heuristic::Manhattan => {},
        Heuristic::Chebyshev => {},
        Heuristic::Euclidean => {
            let dx = abs_diff(a.0, b.0);
            let dy = abs_diff(a.1, b.1);
            lemma_isqrt_def(euclid_sq(a, b));
            assert(dx * dx + dy * dy <= (dx + dy) * (dx + dy)) by (nonlinear_arith)
                requires 0 <= dx && 0 <= dy;
            lemma_isqrt_below(euclid_sq(a, b), euclid(a, b), dx + dy);
        },
    }
}

/// Consistency: one orthogonal step changes any estimator by at most one.
pub proof fn lemma_h_step(h: Heuristic, a: Pos, a2: Pos, b: Pos)
    requires
        adjacent(a, a2),
    ensures
        h.h_spec(a, b) <= h.h_spec(a2, b) + 1,
{
    match h {
        Heuristic::Manhattan => {},
        Heuristic::Chebyshev => {},
        Heuristic::Euclidean => {
            let s = euclid_sq(a, b);
            let s2 = euclid_sq(a2, b);
            lemma_isqrt_def(s);
            lemma_isqrt_def(s2);
            let r = isqrt(s);
            let r2 = isqrt(s2);
            let dx = abs_diff(a.0, b.0);
            let dy = abs_diff(a.1, b.1);
            let dx2 = abs_diff(a2.0, b.0);
            let dy2 = abs_diff(a2.1, b.1);
            assert(dx <= dx2 + 1 && dy <= dy2 + 1 && (dx <= dx2 || dy <= dy2));
            assert(dx2 <= r2 && dy2 <= r2) by (nonlinear_arith)
                requires
                    0 <= dx2 && 0 <= dy2 && 0 <= r2,
                    dx2 * dx2 + dy2 * dy2 == s2,
                    s2 < (r2 + 1) * (r2 + 1);
            assert(s < (r2 + 2) * (r2 + 2)) by (nonlinear_arith)
                requires
                    0 <= dx && 0 <= dy && 0 <= dx2 && 0 <= dy2 && 0 <= r2,
                    dx <= dx2 + 1 && dy <= dy2 + 1 && (dx <= dx2 || dy <= dy2),
                    dx2 <= r2 && dy2 <= r2,
                    s == dx * dx + dy * dy,
                    dx2 * dx2 + dy2 * dy2 == s2,
                    s2 < (r2 + 1) * (r2 + 1);
            assert(r <= r2 + 1) by (nonlinear_arith)
                requires 0 <= r && r * r <= s && s < (r2 + 2) * (r2 + 2) && 0 <= r2;
        },
    }
}

/// Telescoped consistency: along any walk, an estimator drops by at most
/// one per step, so it never exceeds the walk length plus its value at the
/// walk's end.
pub proof fn lemma_h_telescope(h: Heuristic, v: GridView, p: Seq<Pos>, a: Pos, b: Pos, g: Pos)
    requires
        connects(v, p, a, b),
    ensures
        h.h_spec(a, g) <= (p.len() - 1) + h.h_spec(b, g),
    decreases p.len(),
{
    if p.len() == 1 {
    } else {
        crate::paths::lemma_subpath(v, p, 1, p.len() - 1);
        lemma_h_telescope(h, v, p.subrange(1, p.len() as int), p[1], b, g);
        assert(adjacent(p[0], p[1]));
        lemma_h_step(h, a, p[1], g);
    }
}

impl Heuristic {
    /// Compute the estimate. The positions must be close enough for the
    /// Manhattan distance to fit a `usize`, which holds of any two cells of
    /// one grid.
    pub fn estimate(&self, a: (usize, usize), b: (usize, usize)) -> (r: usize)
        requires
            manhattan((a.0 as int, a.1 as int), (b.0 as int, b.1 as int)) <= usize::MAX,
        ensures
            r == self.h_spec((a.0 as int, a.1 as int), (b.0 as int, b.1 as int)),
    {
        let dx: usize = if a.0 >= b.0 {
            a.0 - b.0
        } else {
            b.0 - a.0
        };
        let dy: usize = if a.1 >= b.1 {
            a.1 - b.1
        } else {
            b.1 - a.1
        };
        match self {
            Heuristic::Manhattan => dx + dy,
            Heuristic::Chebyshev => if dx >= dy {
                dx
            } else {
                dy
            },
            Heuristic::Euclidean => {
                proof {
                    assert((dx as int) * (dx as int) + (dy as int) * (dy as int)
                        <= ((dx + dy) as int) * ((dx + dy) as int)) by (nonlinear_arith)
                        requires 0 <= dx as int && 0 <= dy as int;
                    assert(((dx + dy) as int) * ((dx + dy) as int) < u128::MAX)
                        by (nonlinear_arith)
                        requires 0 <= (dx + dy) as int <= 0xFFFF_FFFF_FFFF_FFFFu64;
                }
                let s: u128 = (dx as u128) * (dx as u128) + (dy as u128) * (dy as u128);
                let r = isqrt_exec(s);
                proof {
                    let ap = (a.0 as int, a.1 as int);
                    let bp = (b.0 as int, b.1 as int);
                    assert(s as int == euclid_sq(ap, bp));
                    lemma_isqrt_def(euclid_sq(ap, bp));
                    lemma_isqrt_unique(s as int, r as int, euclid(ap, bp));
                    lemma_isqrt_below(s as int, r as int, dx as int + dy as int);
                }
                r as usize
            },
        }
    }
}

/// The integer square root by binary search.
fn isqrt_exec(s: u128) -> (r: u128)
    ensures
        is_isqrt(s as int, r as int),
{
    let mut lo: u128 = 0;
    let mut hi: u128 = 0x1_0000_0000_0000_0000u128;
    proof {
        assert((hi as int) * (hi as int) > u128::MAX) by (nonlinear_arith)
            requires hi == 0x1_0000_0000_0000_0000u128;
    }
    while lo + 1 < hi
        invariant
            0 <= lo < hi <= 0x1_0000_0000_0000_0000u128,
            (lo as int) * (lo as int) <= s as int,
            (hi as int) * (hi as int) > s as int,
        decreases hi - lo,
    {
        let mid = lo + (hi - lo) / 2;
        proof {
            let cap: int = 0xFFFF_FFFF_FFFF_FFFF;
            assert((mid as int) * (mid as int) <= cap * cap) by (nonlinear_arith)
                requires 0 <= mid as int <= cap && cap == 0xFFFF_FFFF_FFFF_FFFF;
            assert(cap * cap < u128::MAX);
        }
        if mid * mid <= s {
            lo = mid;
        } else {
            hi = mid;
        }
    }
    lo
}

} // verus!
