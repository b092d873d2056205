use vstd::prelude::*;
use crate::mesh::CHUNK_SIZE;

verus! {

/// The chunk column that world coordinate `x` falls in: `floor(x / CHUNK_SIZE)`.
pub open spec fn chunk_of(x: int) -> int {
    x / (CHUNK_SIZE as int)
}

/// The world coordinate of the middle of chunk column `c`.
pub open spec fn chunk_center(c: int) -> int {
    c * CHUNK_SIZE + CHUNK_SIZE / 2
}

fn floor_chunk(x: i32) -> (c: i64)
    ensures
        c == chunk_of(x as int),
        -0x2000_0000 <= c < 0x2000_0000,
{
    let xi: i64 = x as i64;
    let size: i64 = CHUNK_SIZE as i64;
    if xi >= 0 {
        xi / size
    } else {
        let c: i64 = -((-xi + size - 1) / size);
        assert(c == xi / 4) by (nonlinear_arith)
            requires
                xi < 0,
                c == -((-xi + 3) / 4),
        ;
        c
    }
}

/// The world position of the middle of chunk `(x, z)`.
pub fn chunk_to_global_position(x: i32, z: i32) -> (p: (i64, i64))
    ensures
        p.0 == chunk_center(x as int),
        p.1 == chunk_center(z as int),
{
    let size: i64 = CHUNK_SIZE as i64;
    ((x as i64) * size + size / 2, (z as i64) * size + size / 2)
}

/// The entry of `chunks_for_radius` at row `a`, column `b` of its square.
pub open spec fn ring_entry(cx: int, cz: int, radius: int, a: int, b: int) -> (i32, i32, u64) {
    let dx = a - radius;
    let dz = b - radius;
    ((cx + dx) as i32, (cz + dz) as i32, (dx * dx + dz * dz) as u64)
}

/// Every chunk within `radius` chunks on both axes of the one that holds the
/// world position `(x, z)`, each with its squared distance, in chunks, from
/// that center chunk. The square is listed row by row along x, then z. A
/// negative radius gives nothing.
pub fn chunks_for_radius(radius: i32, x: i32, z: i32) -> (r: Vec<(i32, i32, u64)>)
    requires
        radius >= 0 ==> i32::MIN <= chunk_of(x as int) - radius && chunk_of(x as int) + radius
            <= i32::MAX && i32::MIN <= chunk_of(z as int) - radius && chunk_of(z as int) + radius
            <= i32::MAX,
    ensures
        radius < 0 ==> r@.len() == 0,
        radius >= 0 ==> r@.len() == (2 * radius + 1) * (2 * radius + 1),
        forall|a: int, b: int|
            0 <= a < 2 * radius + 1 && 0 <= b < 2 * radius + 1 ==> r@[a * (2 * radius + 1) + b]
                == #[trigger] ring_entry(chunk_of(x as int), chunk_of(z as int), radius as int, a, b),
{
    let mut r: Vec<(i32, i32, u64)> = Vec::new();
    if radius < 0 {
        return r;
    }
    let cx: i64 = floor_chunk(x);
    let cz: i64 = floor_chunk(z);
    let rad: i64 = radius as i64;
    let n: i64 = 2 * rad + 1;
    let ghost ni = n as int;
    let mut a: i64 = 0;
    while a < n
        invariant
            0 <= rad < 0x8000_0000,
            n == 2 * rad + 1,
            0 <= a <= n,
            cx == chunk_of(x as int),
            cz == chunk_of(z as int),
            i32::MIN <= cx - rad && cx + rad <= i32::MAX,
            i32::MIN <= cz - rad && cz + rad <= i32::MAX,
            r@.len() == a * n,
            forall|p: int, q: int|
                0 <= p < a && 0 <= q < n ==> r@[p * n + q] == #[trigger] ring_entry(
                    cx as int,
                    cz as int,
                    rad as int,
                    p,
                    q,
                ),
        decreases n - a,
    {
        let dx: i64 = a - rad;
        let mut b: i64 = 0;
        while b < n
            invariant
                0 <= rad < 0x8000_0000,
                n == 2 * rad + 1,
                0 <= a < n,
                0 <= b <= n,
                dx == a - rad,
                cx == chunk_of(x as int),
                cz == chunk_of(z as int),
                i32::MIN <= cx - rad && cx + rad <= i32::MAX,
                i32::MIN <= cz - rad && cz + rad <= i32::MAX,
                r@.len() == a * n + b,
                forall|p: int, q: int|
                    0 <= p < a && 0 <= q < n ==> r@[p * n + q] == #[trigger] ring_entry(
                        cx as int,
                        cz as int,
                        rad as int,
                        p,
                        q,
                    ),
                forall|q: int|
                    0 <= q < b ==> r@[a * n + q] == #[trigger] ring_entry(
                        cx as int,
                        cz as int,
                        rad as int,
                        a as int,
                        q,
                    ),
            decreases n - b,
        {
            let dz: i64 = b - rad;
            assert(0 <= dx * dx <= 0x8000_0000i64 * 0x8000_0000i64) by (nonlinear_arith)
                requires
                    -0x8000_0000i64 <= dx <= 0x8000_0000i64,
            ;
            assert(0 <= dz * dz <= 0x8000_0000i64 * 0x8000_0000i64) by (nonlinear_arith)
                requires
                    -0x8000_0000i64 <= dz <= 0x8000_0000i64,
            ;
            let dist: u64 = ((dx * dx) as u64) + ((dz * dz) as u64);
            let ghost before = r@;
            r.push(((cx + dx) as i32, (cz + dz) as i32, dist));
            assert forall|p: int, q: int| 0 <= p < a && 0 <= q < n implies r@[p * n + q]
                == #[trigger] ring_entry(cx as int, cz as int, rad as int, p, q) by {
                assert(p * n + q < a * n) by (nonlinear_arith)
                    requires
                        p + 1 <= a,
                        q < n,
                        n >= 1,
                ;
                assert(before[p * n + q] == ring_entry(cx as int, cz as int, rad as int, p, q));
            }
            b = b + 1;
        }
        assert((a + 1) * n == a * n + n) by (nonlinear_arith);
        a = a + 1;
    }
    r
}

} // verus!
