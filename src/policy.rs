use vstd::prelude::*;
use crate::region::{Point, Region};

verus! {

/// The distance thresholds of refinement, in world units.
#[derive(Clone, Copy, Debug, PartialEq, Eq)]
pub struct LODSettings {
    /// The threshold at depth zero.
    pub max: u32,
    /// How much the threshold shrinks with each level of depth.
    pub layer_penalty: u32,
    /// The threshold never falls below this.
    pub min: u32,
}

/// Divides the squared distance by the region's diagonal times this factor, so
/// that one threshold compares alike across depths. It is an empirical tuning
/// value.
pub const DISTANCE_NORMALIZATION: u32 = 100;

/// `max(max - depth * layer_penalty, min)`.
pub open spec fn effective_distance(s: LODSettings, depth: int) -> int {
    let base = s.max - depth * s.layer_penalty;
    if base >= s.min {
        base
    } else {
        s.min as int
    }
}

/// Four times the squared distance between the region's center and `p`.
pub open spec fn center_distance4(r: Region, p: Point) -> int {
    let dx = r.min.x + r.max.x - 2 * p.x;
    let dy = r.min.y + r.max.y - 2 * p.y;
    dx * dx + dy * dy
}

/// The square of the region's diagonal.
pub open spec fn diagonal2(r: Region) -> int {
    r.width() * r.width() + r.height() * r.height()
}

/// Whether a node of region `r` at `depth` lies close enough to `p` to be
/// refined: `dist²(center, p) / (diagonal · N) < effective_distance(depth)`,
/// with `N` the normalization factor. Both sides are non-negative, so the
/// comparison is stated here multiplied out by four and squared, which keeps
/// it exact: there is no square root left. A region without extent has a zero
/// diagonal and is never close enough.
pub open spec fn wants_refinement(r: Region, depth: int, p: Point, s: LODSettings) -> bool {
    let d = center_distance4(r, p);
    let k = 4 * DISTANCE_NORMALIZATION * effective_distance(s, depth);
    d * d < k * k * diagonal2(r)
}

/// The threshold that applies at `depth`.
pub fn effective_distance_at(s: &LODSettings, depth: usize) -> (e: u32)
    ensures
        e == effective_distance(*s, depth as int),
{
    assert((depth as u128) * (s.layer_penalty as u128) <= 0x1_0000_0000_0000_0000u128
        * 0x1_0000_0000u128) by (nonlinear_arith)
        requires
            depth as u128 <= 0x1_0000_0000_0000_0000u128,
            s.layer_penalty as u128 <= 0x1_0000_0000u128,
    ;
    let penalty: u128 = (depth as u128) * (s.layer_penalty as u128);
    if penalty <= s.max as u128 {
        let base: u32 = s.max - (penalty as u32);
        if base >= s.min {
            base
        } else {
            s.min
        }
    } else {
        s.min
    }
}

/// The integer square root: the largest `s` with `s * s <= n`.
pub fn isqrt(n: u128) -> (s: u128)
    ensures
        s * s <= n,
        n < (s + 1) * (s + 1),
{
    let mut lo: u128 = 0;
    let mut hi: u128 = 0x1_0000_0000_0000_0000;
    assert(n < hi * hi) by (nonlinear_arith)
        requires
            hi == 0x1_0000_0000_0000_0000u128,
            n <= u128::MAX,
    ;
    while hi - lo > 1
        invariant
            lo < hi <= 0x1_0000_0000_0000_0000u128,
            lo * lo <= n,
            n < hi * hi,
        decreases hi - lo,
    {
        let mid: u128 = lo + (hi - lo) / 2;
        assert(mid * mid <= 0xffff_ffff_ffff_ffffu128 * 0xffff_ffff_ffff_ffffu128)
            by (nonlinear_arith)
            requires
                mid < 0x1_0000_0000_0000_0000u128,
        ;
        if mid * mid <= n {
            lo = mid;
        } else {
            hi = mid;
        }
    }
    assert(hi == lo + 1);
    lo
}

/// Decides `wants_refinement` exactly in machine integers. Where squaring both
/// sides could overflow, it first compares against the integer square root of
/// the squared diagonal and only resolves the remaining narrow band exactly.
pub fn within_refinement_distance(r: Region, depth: usize, p: Point, s: &LODSettings) -> (b: bool)
    ensures
        b == wants_refinement(r, depth as int, p, *s),
{
    let dx: i128 = (r.min.x as i128) + (r.max.x as i128) - 2 * (p.x as i128);
    let dy: i128 = (r.min.y as i128) + (r.max.y as i128) - 2 * (p.y as i128);
    let w: i128 = (r.max.x as i128) - (r.min.x as i128);
    let h: i128 = (r.max.y as i128) - (r.min.y as i128);
    assert(0 <= dx * dx <= 0x4_0000_0000i128 * 0x4_0000_0000i128) by (nonlinear_arith)
        requires
            -0x4_0000_0000i128 <= dx <= 0x4_0000_0000i128,
    ;
    assert(0 <= dy * dy <= 0x4_0000_0000i128 * 0x4_0000_0000i128) by (nonlinear_arith)
        requires
            -0x4_0000_0000i128 <= dy <= 0x4_0000_0000i128,
    ;
    assert(0 <= w * w <= 0x2_0000_0000i128 * 0x2_0000_0000i128) by (nonlinear_arith)
        requires
            -0x2_0000_0000i128 <= w <= 0x2_0000_0000i128,
    ;
    assert(0 <= h * h <= 0x2_0000_0000i128 * 0x2_0000_0000i128) by (nonlinear_arith)
        requires
            -0x2_0000_0000i128 <= h <= 0x2_0000_0000i128,
    ;
    let d: u128 = (dx * dx + dy * dy) as u128;
    let diag2: u128 = (w * w + h * h) as u128;
    let e: u32 = effective_distance_at(s, depth);
    let scale: u128 = 4 * (DISTANCE_NORMALIZATION as u128);
    assert(scale * (e as u128) <= 400 * 0xffff_ffffu128) by (nonlinear_arith)
        requires
            scale == 400,
            e <= 0xffff_ffffu32,
    ;
    let k: u128 = scale * (e as u128);
    assert(k <= 0x200_0000_0000u128);
    let root: u128 = isqrt(diag2);
    assert(root < 0x4_0000_0000u128) by (nonlinear_arith)
        requires
            root * root <= diag2,
            diag2 <= 2 * 0x2_0000_0000u128 * 0x2_0000_0000u128,
    {
        if root >= 0x4_0000_0000u128 {
            assert(root * root >= 0x4_0000_0000u128 * 0x4_0000_0000u128);
        }
    }
    assert(k * (root + 1) <= 0x200_0000_0000u128 * 0x4_0000_0001u128) by (nonlinear_arith)
        requires
            k <= 0x200_0000_0000u128,
            root < 0x4_0000_0000u128,
    ;
    assert(k * root <= k * (root + 1) && k * (root + 1) == k * root + k) by (nonlinear_arith)
        requires
            0 <= k,
    ;
    let near: u128 = k * root;
    let far: u128 = k * (root + 1);
    if d < near {
        assert(d * d < k * k * diag2) by (nonlinear_arith)
            requires
                d < k * root,
                root * root <= diag2,
                0 <= d,
                0 <= k,
        {
            assert(d * d < (k * root) * (k * root));
            assert((k * root) * (k * root) == k * k * (root * root));
            assert(k * k * (root * root) <= k * k * diag2);
        }
        true
    } else if d >= far {
        assert(!(d * d < k * k * diag2)) by (nonlinear_arith)
            requires
                d >= k * (root + 1),
                diag2 < (root + 1) * (root + 1),
                0 <= d,
                0 <= k,
                0 <= root,
        {
            assert(d * d >= (k * (root + 1)) * (k * (root + 1)));
            assert((k * (root + 1)) * (k * (root + 1)) == k * k * ((root + 1) * (root + 1)));
            assert(k * k * ((root + 1) * (root + 1)) >= k * k * diag2);
        }
        false
    } else {
        let t: u128 = d - near;
        let gap: u128 = diag2 - root * root;
        assert(gap <= 2 * root) by (nonlinear_arith)
            requires
                gap == diag2 - root * root,
                diag2 < (root + 1) * (root + 1),
        ;
        assert(near <= 0x200_0000_0000u128 * 0x4_0000_0000u128) by (nonlinear_arith)
            requires
                near == k * root,
                k <= 0x200_0000_0000u128,
                root < 0x4_0000_0000u128,
        ;
        let twice: u128 = 2 * near;
        assert(twice * t <= 2 * 0x200_0000_0000u128 * 0x4_0000_0000u128 * 0x200_0000_0000u128)
            by (nonlinear_arith)
            requires
                twice <= 2 * 0x200_0000_0000u128 * 0x4_0000_0000u128,
                t < 0x200_0000_0000u128,
        ;
        assert(t * t <= 0x200_0000_0000u128 * 0x200_0000_0000u128) by (nonlinear_arith)
            requires
                t < 0x200_0000_0000u128,
        ;
        let lhs: u128 = twice * t + t * t;
        assert(k * k <= 0x200_0000_0000u128 * 0x200_0000_0000u128) by (nonlinear_arith)
            requires
                k <= 0x200_0000_0000u128,
        ;
        let kk: u128 = k * k;
        assert(kk * gap <= 0x200_0000_0000u128 * 0x200_0000_0000u128 * 0x8_0000_0000u128)
            by (nonlinear_arith)
            requires
                kk <= 0x200_0000_0000u128 * 0x200_0000_0000u128,
                gap <= 0x8_0000_0000u128,
        ;
        let rhs: u128 = kk * gap;
        assert((lhs < rhs) == (d * d < k * k * diag2)) by (nonlinear_arith)
            requires
                d == k * root + t,
                lhs == 2 * (k * root) * t + t * t,
                rhs == (k * k) * (diag2 - root * root),
        ;
        lhs < rhs
    }
}

} // verus!
