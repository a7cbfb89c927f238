//! The correspondence search: where an expected position lands in another
//! raster, how far two positions lie apart, and the expanding ring search
//! for the nearest cell that holds a value close to a probe.

use vstd::prelude::*;
use crate::geometry::Dimensions;
use crate::geometry::Position;
use crate::pixels::grid;
use crate::pixels::Pixel;

verus! {

/// One coordinate carried from an axis of length `from_len` to an axis of
/// length `to_len`: `floor(v * to_len / from_len)`, held at `u32::MAX`.
/// An axis of length zero maps everything to zero.
pub open spec fn remap_axis(v: int, from_len: int, to_len: int) -> int {
    if from_len <= 0 {
        0
    } else if v * to_len / from_len > u32::MAX {
        u32::MAX as int
    } else {
        v * to_len / from_len
    }
}

/// The position in a raster of size `size_to` that corresponds to `pos` in a
/// raster of size `size`.
pub open spec fn relative_position(pos: Position, size: Dimensions, size_to: Dimensions) -> Position {
    Position {
        x: remap_axis(pos.x as int, size.width as int, size_to.width as int) as u32,
        y: remap_axis(pos.y as int, size.height as int, size_to.height as int) as u32,
    }
}

fn remap(v: u32, from_len: u32, to_len: u32) -> (r: u32)
    ensures
        r == remap_axis(v as int, from_len as int, to_len as int),
{
    if from_len == 0 {
        return 0;
    }
    assert(0 <= v * to_len <= 0xffff_ffff * 0xffff_ffff) by (nonlinear_arith)
        requires
            0 <= v <= 0xffff_ffff,
            0 <= to_len <= 0xffff_ffff,
    ;
    let scaled: u64 = (v as u64) * (to_len as u64) / (from_len as u64);
    if scaled > u32::MAX as u64 {
        u32::MAX
    } else {
        scaled as u32
    }
}

/// Carries `pos` from a raster of size `size` into one of size `size_to` by a
/// linear remap of each coordinate, rounded down.
pub fn relative_pos(pos: Position, size: Dimensions, size_to: Dimensions) -> (r: Position)
    ensures
        r == relative_position(pos, size, size_to),
{
    Position {
        x: remap(pos.x, size.width, size_to.width),
        y: remap(pos.y, size.height, size_to.height),
    }
}

/// `r` is the square root of `n`, rounded down.
pub open spec fn is_floor_sqrt(r: int, n: int) -> bool {
    0 <= r && r * r <= n < (r + 1) * (r + 1)
}

/// The squared Euclidean distance between two positions.
pub open spec fn squared_distance(f: Position, s: Position) -> int {
    (f.x - s.x) * (f.x - s.x) + (f.y - s.y) * (f.y - s.y)
}

/// `d` is the Euclidean distance between `f` and `s`, rounded down; where
/// that does not fit 32 bits, `d` is `u32::MAX`.
pub open spec fn is_distance(d: int, f: Position, s: Position) -> bool {
    if squared_distance(f, s) < 0x1_0000_0000 * 0x1_0000_0000 {
        is_floor_sqrt(d, squared_distance(f, s))
    } else {
        d == u32::MAX
    }
}

/// The Euclidean distance between `f` and `s`, rounded down and held at
/// `u32::MAX`.
pub open spec fn distance(f: Position, s: Position) -> u32 {
    choose|d: u32| is_distance(d as int, f, s)
}

/// Only one number is the rounded-down square root of `n`.
pub proof fn floor_sqrt_unique(a: int, b: int, n: int)
    requires
        is_floor_sqrt(a, n),
        is_floor_sqrt(b, n),
    ensures
        a == b,
{
    if a < b {
        assert((a + 1) * (a + 1) <= b * b) by (nonlinear_arith)
            requires
                0 <= a,
                a + 1 <= b,
        ;
    } else if b < a {
        assert((b + 1) * (b + 1) <= a * a) by (nonlinear_arith)
            requires
                0 <= b,
                b + 1 <= a,
        ;
    }
}

/// Only one number is the distance between two positions.
pub proof fn distance_unique(a: int, b: int, f: Position, s: Position)
    requires
        is_distance(a, f, s),
        is_distance(b, f, s),
    ensures
        a == b,
{
    let n = squared_distance(f, s);
    if n < 0x1_0000_0000 * 0x1_0000_0000 {
        floor_sqrt_unique(a, b, n);
    }
}

/// The square root of `n`, rounded down.
fn floor_sqrt(n: u128) -> (r: u64)
    requires
        n < 0x1_0000_0000_0000_0000 * 0x1_0000_0000,
    ensures
        is_floor_sqrt(r as int, n as int),
{
    let mut lo: u128 = 0;
    let mut hi: u128 = 0x1_0000_0000_0000;
    assert(hi * hi > n) by (nonlinear_arith)
        requires
            hi == 0x1_0000_0000_0000,
            n < 0x1_0000_0000_0000_0000 * 0x1_0000_0000,
    ;
    while hi - lo > 1
        invariant
            lo < hi <= 0x1_0000_0000_0000,
            lo * lo <= n < hi * hi,
        decreases hi - lo,
    {
        let mid: u128 = lo + (hi - lo) / 2;
        assert(mid * mid <= 0x1_0000_0000_0000 * 0x1_0000_0000_0000) by (nonlinear_arith)
            requires
                0 <= mid <= 0x1_0000_0000_0000,
        ;
        if mid * mid <= n {
            lo = mid;
        } else {
            hi = mid;
        }
    }
    lo as u64
}

fn abs_diff(a: u32, b: u32) -> (d: u64)
    ensures
        d == if a >= b { a - b } else { b - a },
{
    if a >= b {
        (a - b) as u64
    } else {
        (b - a) as u64
    }
}

/// The Euclidean distance between two positions, rounded down. Where it
/// does not fit the result, the result is `u32::MAX`.
pub fn distance_dot_dot(f: Position, s: Position) -> (d: u32)
    ensures
        is_distance(d as int, f, s),
        d == distance(f, s),
{
    let d = distance_floor(f, s);
    proof {
        distance_unique(d as int, distance(f, s) as int, f, s);
    }
    d
}

fn distance_floor(f: Position, s: Position) -> (d: u32)
    ensures
        is_distance(d as int, f, s),
{
    let dx: u64 = abs_diff(f.x, s.x);
    let dy: u64 = abs_diff(f.y, s.y);
    assert(dx * dx <= 0xffff_ffff * 0xffff_ffff) by (nonlinear_arith)
        requires
            0 <= dx <= 0xffff_ffff,
    ;
    assert(dy * dy <= 0xffff_ffff * 0xffff_ffff) by (nonlinear_arith)
        requires
            0 <= dy <= 0xffff_ffff,
    ;
    assert(dx * dx == (f.x - s.x) * (f.x - s.x)) by (nonlinear_arith)
        requires
            dx == f.x - s.x || dx == s.x - f.x,
    ;
    assert(dy * dy == (f.y - s.y) * (f.y - s.y)) by (nonlinear_arith)
        requires
            dy == f.y - s.y || dy == s.y - f.y,
    ;
    let n: u128 = (dx as u128) * (dx as u128) + (dy as u128) * (dy as u128);
    let r: u64 = floor_sqrt(n);
    if r > u32::MAX as u64 {
        assert(n >= 0x1_0000_0000 * 0x1_0000_0000) by (nonlinear_arith)
            requires
                r * r <= n,
                r >= 0x1_0000_0000,
        ;
        u32::MAX
    } else {
        assert(n < 0x1_0000_0000 * 0x1_0000_0000) by (nonlinear_arith)
            requires
                n < (r + 1) * (r + 1),
                0 <= r < 0x1_0000_0000,
        ;
        r as u32
    }
}

/// The cell at `(x, y)` exists in the raster and a `Position` can name it.
pub open spec fn addressable<T>(g: Seq<Seq<T>>, x: int, y: int) -> bool {
    0 <= y < g.len() && 0 <= x < g[y].len() && x <= u32::MAX && y <= u32::MAX
}

/// One step of the search is a ring `r`, one of its four sweeps `s` and an
/// offset `j` along the sweep.
pub open spec fn is_step(r: int, s: int, j: int) -> bool {
    0 <= r && 0 <= s < 4 && 0 <= j <= 2 * r
}

/// The cell that step `(r, s, j)` looks at. Ring `r` is the border of the
/// square of half-width `r` about `from`. Its sweeps are, in this order, the
/// row `from.y + r`, the row `from.y - r`, the column `from.x + r` and the
/// column `from.x - r`, each walked by rising index.
pub open spec fn candidate(from: Position, r: int, s: int, j: int) -> (int, int) {
    if s == 0 {
        (from.x - r + j, from.y + r)
    } else if s == 1 {
        (from.x - r + j, from.y - r)
    } else if s == 2 {
        (from.x + r, from.y - r + j)
    } else {
        (from.x - r, from.y - r + j)
    }
}

/// Step `(r, s, j)` looks at a cell of the raster.
pub open spec fn touches<T>(g: Seq<Seq<T>>, from: Position, r: int, s: int, j: int) -> bool {
    addressable(g, candidate(from, r, s, j).0, candidate(from, r, s, j).1)
}

/// Step `(r, s, j)` looks at a cell whose value is within `precision` of
/// `what`.
pub open spec fn hit<T: Pixel>(
    g: Seq<Seq<T>>,
    what: T,
    precision: T,
    from: Position,
    r: int,
    s: int,
    j: int,
) -> bool {
    touches(g, from, r, s, j) && g[candidate(from, r, s, j).1][candidate(
        from,
        r,
        s,
        j,
    ).0].within(what, precision)
}

/// Some step of ring `r` looks at a cell of the raster.
pub open spec fn ring_in_bounds<T>(g: Seq<Seq<T>>, from: Position, r: int) -> bool {
    exists|s: int, j: int| is_step(r, s, j) && #[trigger] touches(g, from, r, s, j)
}

/// Some step of ring `r` is a hit.
pub open spec fn ring_has_hit<T: Pixel>(
    g: Seq<Seq<T>>,
    what: T,
    precision: T,
    from: Position,
    r: int,
) -> bool {
    exists|s: int, j: int| is_step(r, s, j) && #[trigger] hit(g, what, precision, from, r, s, j)
}

/// Within one ring, step `(s2, j2)` comes before step `(s, j)`.
pub open spec fn earlier(s2: int, j2: int, s: int, j: int) -> bool {
    s2 < s || (s2 == s && j2 < j)
}

/// Step `(r, s, j)` is where the search ends with a match: it is a hit on a
/// ring below `max`, no step before it in its ring is a hit, and every ring
/// before its ring lay at least partly in the raster and held no hit.
pub open spec fn is_first_hit<T: Pixel>(
    g: Seq<Seq<T>>,
    what: T,
    precision: T,
    from: Position,
    max: int,
    r: int,
    s: int,
    j: int,
) -> bool {
    &&& is_step(r, s, j)
    &&& r < max
    &&& hit(g, what, precision, from, r, s, j)
    &&& forall|s2: int, j2: int|
        is_step(r, s2, j2) && earlier(s2, j2, s, j) ==> !#[trigger] hit(
            g,
            what,
            precision,
            from,
            r,
            s2,
            j2,
        )
    &&& forall|r2: int| 0 <= r2 < r ==> #[trigger] ring_in_bounds(g, from, r2)
    &&& forall|r2: int| 0 <= r2 < r ==> !#[trigger] ring_has_hit(g, what, precision, from, r2)
}

/// What the search reports for a match at step `(r, s, j)`: the distance
/// from `from` to the matched cell, and that cell.
pub open spec fn report(from: Position, r: int, s: int, j: int) -> (u32, Position) {
    let pos = Position {
        x: candidate(from, r, s, j).0 as u32,
        y: candidate(from, r, s, j).1 as u32,
    };
    (distance(from, pos), pos)
}

/// The result of the search for `what` in `g` about `from` over the rings
/// `0 .. max`: the report of the first hit, or `None` where there is none.
pub open spec fn search_outcome<T: Pixel>(
    g: Seq<Seq<T>>,
    what: T,
    precision: T,
    from: Position,
    max: int,
) -> Option<(u32, Position)> {
    if exists|r: int, s: int, j: int| is_first_hit(g, what, precision, from, max, r, s, j) {
        let (r, s, j) = choose|r: int, s: int, j: int|
            is_first_hit(g, what, precision, from, max, r, s, j);
        Some(report(from, r, s, j))
    } else {
        None
    }
}

/// The search has one answer. Two steps that both end the search with a
/// match are the same step, and the outcome is the report of that step, so
/// that a repeated search with the same arguments gives the same result.
pub proof fn search_deterministic<T: Pixel>(
    g: Seq<Seq<T>>,
    what: T,
    precision: T,
    from: Position,
    max: int,
    r1: int,
    s1: int,
    j1: int,
    r2: int,
    s2: int,
    j2: int,
)
    requires
        is_first_hit(g, what, precision, from, max, r1, s1, j1),
        is_first_hit(g, what, precision, from, max, r2, s2, j2),
    ensures
        r1 == r2,
        s1 == s2,
        j1 == j2,
        search_outcome(g, what, precision, from, max) == Some(report(from, r1, s1, j1)),
{
    first_hit_unique(g, what, precision, from, max, r1, s1, j1, r2, s2, j2);
    let (r, s, j) = choose|r: int, s: int, j: int|
        is_first_hit(g, what, precision, from, max, r, s, j);
    first_hit_unique(g, what, precision, from, max, r1, s1, j1, r, s, j);
}

proof fn first_hit_unique<T: Pixel>(
    g: Seq<Seq<T>>,
    what: T,
    precision: T,
    from: Position,
    max: int,
    r1: int,
    s1: int,
    j1: int,
    r2: int,
    s2: int,
    j2: int,
)
    requires
        is_first_hit(g, what, precision, from, max, r1, s1, j1),
        is_first_hit(g, what, precision, from, max, r2, s2, j2),
    ensures
        r1 == r2,
        s1 == s2,
        j1 == j2,
{
    if r1 < r2 {
        assert(ring_has_hit(g, what, precision, from, r1));
    } else if r2 < r1 {
        assert(ring_has_hit(g, what, precision, from, r2));
    }
}

/// A search over no ring at all finds nothing, and neither does one none
/// of whose rings reaches into the raster.
pub proof fn search_outside_finds_nothing<T: Pixel>(
    g: Seq<Seq<T>>,
    what: T,
    precision: T,
    from: Position,
    max: int,
)
    requires
        forall|r: int| 0 <= r < max ==> !#[trigger] ring_in_bounds(g, from, r),
    ensures
        search_outcome(g, what, precision, from, max) is None,
        search_outcome(g, what, precision, from, 0) is None,
{
    assert forall|r: int, s: int, j: int| !is_first_hit(g, what, precision, from, max, r, s, j) by {
        if is_first_hit(g, what, precision, from, max, r, s, j) {
            assert(touches(g, from, r, s, j));
            assert(ring_in_bounds(g, from, r));
        }
    }
}

/// The ring search. Looks for the cell of `array` nearest to `from` whose
/// value is within `precision` of `what`, ring by ring over the radii
/// `0 .. max`, and returns the first one met with its distance from `from`.
/// A ring that lies wholly outside the raster ends the search with `None`.
pub fn distance_dot_array<T: Pixel>(
    what: &T,
    array: &Vec<Vec<T>>,
    from: Position,
    max: u32,
    precision: T,
) -> (res: Option<(u32, Position)>)
    ensures
        res == search_outcome(grid(*array), *what, precision, from, max as int),
{
    let ghost g = grid(*array);
    let mut r: u32 = 0;
    while r < max
        invariant
            r <= max,
            g == grid(*array),
            forall|r2: int| 0 <= r2 < r ==> #[trigger] ring_in_bounds(g, from, r2),
            forall|r2: int| 0 <= r2 < r ==> !#[trigger] ring_has_hit(g, *what, precision, from, r2),
        decreases max - r,
    {
        let mut touched: bool = false;
        let mut s: u8 = 0;
        while s < 4
            invariant
                s <= 4,
                r < max,
                g == grid(*array),
                forall|s2: int, j2: int|
                    is_step(r as int, s2, j2) && s2 < s ==> !#[trigger] hit(
                        g,
                        *what,
                        precision,
                        from,
                        r as int,
                        s2,
                        j2,
                    ),
                touched ==> ring_in_bounds(g, from, r as int),
                !touched ==> forall|s2: int, j2: int|
                    is_step(r as int, s2, j2) && s2 < s ==> !#[trigger] touches(
                        g,
                        from,
                        r as int,
                        s2,
                        j2,
                    ),
                forall|r2: int| 0 <= r2 < r ==> #[trigger] ring_in_bounds(g, from, r2),
                forall|r2: int|
                    0 <= r2 < r ==> !#[trigger] ring_has_hit(g, *what, precision, from, r2),
            decreases 4 - s,
        {
            let mut j: u64 = 0;
            while j <= 2 * (r as u64)
                invariant
                    s < 4,
                    r < max,
                    j <= 2 * r + 1,
                    g == grid(*array),
                    forall|s2: int, j2: int|
                        is_step(r as int, s2, j2) && earlier(s2, j2, s as int, j as int)
                            ==> !#[trigger] hit(g, *what, precision, from, r as int, s2, j2),
                    touched ==> ring_in_bounds(g, from, r as int),
                    !touched ==> forall|s2: int, j2: int|
                        is_step(r as int, s2, j2) && earlier(s2, j2, s as int, j as int)
                            ==> !#[trigger] touches(g, from, r as int, s2, j2),
                    forall|r2: int| 0 <= r2 < r ==> #[trigger] ring_in_bounds(g, from, r2),
                    forall|r2: int|
                        0 <= r2 < r ==> !#[trigger] ring_has_hit(g, *what, precision, from, r2),
                decreases 2 * r + 1 - j,
            {
                let (x, y) = sweep_cell(from, r, s, j);
                if 0 <= y && 0 <= x && x <= u32::MAX as i64 && y <= u32::MAX as i64 && (y as usize)
                    < array.len() && (x as usize) < array[y as usize].len() {
                    assert(touches(g, from, r as int, s as int, j as int));
                    touched = true;
                    if array[y as usize][x as usize].is_within(what, &precision) {
                        let pos = Position { x: x as u32, y: y as u32 };
                        let d = distance_dot_dot(from, pos);
                        proof {
                            assert(is_first_hit(
                                g,
                                *what,
                                precision,
                                from,
                                max as int,
                                r as int,
                                s as int,
                                j as int,
                            ));
                            search_deterministic(
                                g,
                                *what,
                                precision,
                                from,
                                max as int,
                                r as int,
                                s as int,
                                j as int,
                                r as int,
                                s as int,
                                j as int,
                            );
                        }
                        return Some((d, pos));
                    }
                }
                j = j + 1;
            }
            s = s + 1;
        }
        if !touched {
            proof {
                assert(!ring_in_bounds(g, from, r as int));
                assert forall|r3: int, s3: int, j3: int| !is_first_hit(
                    g,
                    *what,
                    precision,
                    from,
                    max as int,
                    r3,
                    s3,
                    j3,
                ) by {
                    if is_first_hit(g, *what, precision, from, max as int, r3, s3, j3) {
                        if r3 < r {
                            assert(ring_has_hit(g, *what, precision, from, r3));
                        } else if r3 == r {
                            assert(touches(g, from, r3, s3, j3));
                        }
                    }
                }
            }
            return None;
        }
        proof {
            assert(!ring_has_hit(g, *what, precision, from, r as int));
        }
        r = r + 1;
    }
    proof {
        assert forall|r3: int, s3: int, j3: int| !is_first_hit(
            g,
            *what,
            precision,
            from,
            max as int,
            r3,
            s3,
            j3,
        ) by {
            if is_first_hit(g, *what, precision, from, max as int, r3, s3, j3) {
                assert(ring_has_hit(g, *what, precision, from, r3));
            }
        }
    }
    None
}

/// The cell of step `(r, s, j)`, in signed coordinates.
fn sweep_cell(from: Position, r: u32, s: u8, j: u64) -> (c: (i64, i64))
    requires
        s < 4,
        j <= 2 * r,
    ensures
        c.0 == candidate(from, r as int, s as int, j as int).0,
        c.1 == candidate(from, r as int, s as int, j as int).1,
{
    let x: i64 = from.x as i64;
    let y: i64 = from.y as i64;
    let step: i64 = r as i64;
    let along: i64 = j as i64;
    if s == 0 {
        (x - step + along, y + step)
    } else if s == 1 {
        (x - step + along, y - step)
    } else if s == 2 {
        (x + step, y - step + along)
    } else {
        (x - step, y - step + along)
    }
}

/// The ring search with a floor under the distance: a match nearer to
/// `from` than `min_distance` counts as no match. A floor of zero changes
/// nothing.
pub fn distance_dot_array_floored<T: Pixel>(
    what: &T,
    array: &Vec<Vec<T>>,
    from: Position,
    max: u32,
    precision: T,
    min_distance: u32,
) -> (res: Option<(u32, Position)>)
    ensures
        res == match search_outcome(grid(*array), *what, precision, from, max as int) {
            Some((d, pos)) => if d < min_distance {
                None
            } else {
                Some((d, pos))
            },
            None => None,
        },
{
    match distance_dot_array(what, array, from, max, precision) {
        Some((d, pos)) => if d < min_distance {
            None
        } else {
            Some((d, pos))
        },
        None => None,
    }
}

} // verus!
