use vstd::prelude::*;

verus! {

/// A point of the world's horizontal (XZ) plane, in whole world units.
#[derive(Clone, Copy, Debug, PartialEq, Eq, Structural)]
pub struct Point {
    pub x: i32,
    pub y: i32,
}

/// An axis-aligned rectangle of the horizontal plane, given by its two corners.
#[derive(Clone, Copy, Debug, PartialEq, Eq, Structural)]
pub struct Region {
    pub min: Point,
    pub max: Point,
}

impl Point {
    pub fn new(x: i32, y: i32) -> (r: Point)
        ensures
            r.x == x,
            r.y == y,
    {
        Point { x, y }
    }
}

impl Region {
    /// The corners are ordered: `min` is below `max` on both axes.
    pub open spec fn wf(self) -> bool {
        self.min.x <= self.max.x && self.min.y <= self.max.y
    }

    pub open spec fn width(self) -> int {
        self.max.x - self.min.x
    }

    pub open spec fn height(self) -> int {
        self.max.y - self.min.y
    }

    pub open spec fn area(self) -> int {
        self.width() * self.height()
    }

    /// Zero or negative extent on some axis.
    pub open spec fn degenerate(self) -> bool {
        self.width() <= 0 || self.height() <= 0
    }

    /// Halving both axes leaves every quadrant a non-degenerate extent.
    pub open spec fn splittable(self) -> bool {
        self.width() >= 2 && self.height() >= 2
    }

    pub open spec fn mid_x(self) -> int {
        self.min.x + self.width() / 2
    }

    pub open spec fn mid_y(self) -> int {
        self.min.y + self.height() / 2
    }

    /// Closed containment, boundary included.
    pub open spec fn contains_spec(self, p: Point) -> bool {
        self.min.x <= p.x <= self.max.x && self.min.y <= p.y <= self.max.y
    }

    /// `inner` lies inside `self`.
    pub open spec fn encloses(self, inner: Region) -> bool {
        self.min.x <= inner.min.x && inner.max.x <= self.max.x && self.min.y <= inner.min.y
            && inner.max.y <= self.max.y
    }

    /// The region between two corners, in either order.
    pub fn new(x0: i32, y0: i32, x1: i32, y1: i32) -> (r: Region)
        ensures
            r.wf(),
            r.min.x == if x0 <= x1 { x0 } else { x1 },
            r.max.x == if x0 <= x1 { x1 } else { x0 },
            r.min.y == if y0 <= y1 { y0 } else { y1 },
            r.max.y == if y0 <= y1 { y1 } else { y0 },
    {
        let (lx, hx) = if x0 <= x1 { (x0, x1) } else { (x1, x0) };
        let (ly, hy) = if y0 <= y1 { (y0, y1) } else { (y1, y0) };
        Region { min: Point { x: lx, y: ly }, max: Point { x: hx, y: hy } }
    }

    pub fn contains(&self, p: Point) -> (r: bool)
        ensures
            r == self.contains_spec(p),
    {
        self.min.x <= p.x && p.x <= self.max.x && self.min.y <= p.y && p.y <= self.max.y
    }

    pub fn is_splittable(&self) -> (r: bool)
        ensures
            r == self.splittable(),
    {
        (self.max.x as i64) - (self.min.x as i64) >= 2 && (self.max.y as i64) - (self.min.y as i64)
            >= 2
    }
}

/// The interiors of two rectangles do not meet: they are apart on some axis.
pub open spec fn interiors_disjoint(a: Region, b: Region) -> bool {
    a.max.x <= b.min.x || b.max.x <= a.min.x || a.max.y <= b.min.y || b.max.y <= a.min.y
}

pub open spec fn rect(x0: int, y0: int, x1: int, y1: int) -> Region {
    Region {
        min: Point { x: x0 as i32, y: y0 as i32 },
        max: Point { x: x1 as i32, y: y1 as i32 },
    }
}

/// The four quadrants of `r`, cut at the midpoint of each axis: the one at the
/// low corner, then the one further along x, then the one further along y, then
/// the one at the high corner.
pub open spec fn quadrants(r: Region) -> (Region, Region, Region, Region) {
    (
        rect(r.min.x as int, r.min.y as int, r.mid_x(), r.mid_y()),
        rect(r.mid_x(), r.min.y as int, r.max.x as int, r.mid_y()),
        rect(r.min.x as int, r.mid_y(), r.mid_x(), r.max.y as int),
        rect(r.mid_x(), r.mid_y(), r.max.x as int, r.max.y as int),
    )
}

/// Splits a region at the midpoints of both axes into four quadrants.
pub fn subdivide_rect(r: Region) -> (q: (Region, Region, Region, Region))
    requires
        r.wf(),
    ensures
        q == quadrants(r),
{
    let mx: i32 = ((r.min.x as i64) + ((r.max.x as i64) - (r.min.x as i64)) / 2) as i32;
    let my: i32 = ((r.min.y as i64) + ((r.max.y as i64) - (r.min.y as i64)) / 2) as i32;
    (
        Region { min: Point { x: r.min.x, y: r.min.y }, max: Point { x: mx, y: my } },
        Region { min: Point { x: mx, y: r.min.y }, max: Point { x: r.max.x, y: my } },
        Region { min: Point { x: r.min.x, y: my }, max: Point { x: mx, y: r.max.y } },
        Region { min: Point { x: mx, y: my }, max: Point { x: r.max.x, y: r.max.y } },
    )
}

/// `a`, `b`, `c`, `d` tile `r` exactly: each lies inside it and is well
/// formed, their interiors are pairwise disjoint, their areas add up to the
/// area of `r`, and every point of `r` lies in one of them.
pub open spec fn tiles(r: Region, a: Region, b: Region, c: Region, d: Region) -> bool {
    &&& r.encloses(a) && r.encloses(b) && r.encloses(c) && r.encloses(d)
    &&& a.wf() && b.wf() && c.wf() && d.wf()
    &&& interiors_disjoint(a, b) && interiors_disjoint(a, c) && interiors_disjoint(a, d)
    &&& interiors_disjoint(b, c) && interiors_disjoint(b, d) && interiors_disjoint(c, d)
    &&& a.area() + b.area() + c.area() + d.area() == r.area()
    &&& forall|p: Point|
        r.contains_spec(p) ==> a.contains_spec(p) || b.contains_spec(p) || c.contains_spec(p)
            || d.contains_spec(p)
}

/// The four quadrants of a well-formed region tile it exactly; when the region
/// can be split, none of them is degenerate.
pub proof fn lemma_quadrants_tile(r: Region)
    requires
        r.wf(),
    ensures
        ({
            let (a, b, c, d) = quadrants(r);
            &&& tiles(r, a, b, c, d)
            &&& r.splittable() ==> !a.degenerate() && !b.degenerate() && !c.degenerate()
                && !d.degenerate()
        }),
{
    let (a, b, c, d) = quadrants(r);
    let w = r.width();
    let h = r.height();
    let wl = w / 2;
    let hl = h / 2;
    assert(a.width() == wl && b.width() == w - wl && c.width() == wl && d.width() == w - wl);
    assert(a.height() == hl && b.height() == hl && c.height() == h - hl && d.height() == h - hl);
    assert(wl * hl + (w - wl) * hl + wl * (h - hl) + (w - wl) * (h - hl) == w * h)
        by (nonlinear_arith);
}

} // verus!
