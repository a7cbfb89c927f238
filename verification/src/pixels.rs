//! Pixel values and the tolerance under which two of them count as equal.

use vstd::prelude::*;
use crate::geometry::Dimensions;

verus! {

/// A pixel value that can be held against another under a tolerance of
/// the same shape: one number, or one number for each channel.
pub trait Pixel: Sized {
    /// Every channel of `self` differs from that channel of `other` by no
    /// more than that channel of `precision`.
    spec fn within(self, other: Self, precision: Self) -> bool;

    fn is_within(&self, other: &Self, precision: &Self) -> (b: bool)
        ensures
            b == self.within(*other, *precision),
    ;
}

/// The absolute difference of two channel values.
pub open spec fn gap(a: int, b: int) -> int {
    if a >= b {
        a - b
    } else {
        b - a
    }
}

fn near_u8(a: u8, b: u8, precision: u8) -> (r: bool)
    ensures
        r == (gap(a as int, b as int) <= precision),
{
    if a >= b {
        a - b <= precision
    } else {
        b - a <= precision
    }
}

fn near_u16(a: u16, b: u16, precision: u16) -> (r: bool)
    ensures
        r == (gap(a as int, b as int) <= precision),
{
    if a >= b {
        a - b <= precision
    } else {
        b - a <= precision
    }
}

fn near_u32(a: u32, b: u32, precision: u32) -> (r: bool)
    ensures
        r == (gap(a as int, b as int) <= precision),
{
    if a >= b {
        a - b <= precision
    } else {
        b - a <= precision
    }
}

impl Pixel for u8 {
    open spec fn within(self, other: u8, precision: u8) -> bool {
        gap(self as int, other as int) <= precision
    }

    fn is_within(&self, other: &u8, precision: &u8) -> (b: bool) {
        near_u8(*self, *other, *precision)
    }
}

impl Pixel for u16 {
    open spec fn within(self, other: u16, precision: u16) -> bool {
        gap(self as int, other as int) <= precision
    }

    fn is_within(&self, other: &u16, precision: &u16) -> (b: bool) {
        near_u16(*self, *other, *precision)
    }
}

impl Pixel for u32 {
    open spec fn within(self, other: u32, precision: u32) -> bool {
        gap(self as int, other as int) <= precision
    }

    fn is_within(&self, other: &u32, precision: &u32) -> (b: bool) {
        near_u32(*self, *other, *precision)
    }
}

impl Pixel for [u8; 3] {
    open spec fn within(self, other: [u8; 3], precision: [u8; 3]) -> bool {
        forall|c: int| 0 <= c < 3 ==> gap(self[c] as int, other[c] as int) <= #[trigger] precision[c]
    }

    fn is_within(&self, other: &[u8; 3], precision: &[u8; 3]) -> (b: bool) {
        near_u8(self[0], other[0], precision[0]) && near_u8(self[1], other[1], precision[1])
            && near_u8(self[2], other[2], precision[2])
    }
}

impl Pixel for [u16; 3] {
    open spec fn within(self, other: [u16; 3], precision: [u16; 3]) -> bool {
        forall|c: int| 0 <= c < 3 ==> gap(self[c] as int, other[c] as int) <= #[trigger] precision[c]
    }

    fn is_within(&self, other: &[u16; 3], precision: &[u16; 3]) -> (b: bool) {
        near_u16(self[0], other[0], precision[0]) && near_u16(self[1], other[1], precision[1])
            && near_u16(self[2], other[2], precision[2])
    }
}

/// A raster given as a list of rows, seen as a sequence of sequences.
pub open spec fn grid<T>(rows: Vec<Vec<T>>) -> Seq<Seq<T>> {
    rows@.map_values(|row: Vec<T>| row@)
}

/// The raster of `height` rows of `width` pixels whose pixels are the
/// samples, row after row.
pub open spec fn rows<T>(samples: Seq<T>, width: int, height: int) -> Seq<Seq<T>> {
    Seq::new(height as nat, |y: int| Seq::new(width as nat, |x: int| samples[y * width + x]))
}

/// The raster of `height` rows of `width` pixels of three channels whose
/// channels are the samples, pixel after pixel and row after row.
pub open spec fn rgb_rows<P>(samples: Seq<P>, width: int, height: int) -> Seq<Seq<[P; 3]>> {
    Seq::new(
        height as nat,
        |y: int|
            Seq::new(
                width as nat,
                |x: int| [
                    samples[3 * (y * width + x)],
                    samples[3 * (y * width + x) + 1],
                    samples[3 * (y * width + x) + 2],
                ],
            ),
    )
}

/// A cell of a raster of `width` by `height` has its place among the
/// samples.
pub proof fn cell_index_in_range(x: int, y: int, width: int, height: int)
    requires
        0 <= x < width,
        0 <= y < height,
    ensures
        0 <= y * width + x < width * height,
        (y + 1) * width == y * width + width,
{
    assert(0 <= y * width && y * width + width <= width * height && (y + 1) * width == y * width
        + width) by (nonlinear_arith)
        requires
            0 <= y < height,
            0 < width,
    ;
}

/// Cuts a run of samples, one for each pixel, into the rows of a raster.
pub fn to_rows<T: Copy>(samples: &Vec<T>, width: u32, height: u32) -> (out: Vec<Vec<T>>)
    requires
        samples@.len() == width * height,
    ensures
        grid(out) == rows(samples@, width as int, height as int),
        is_rect(grid(out), width as int, height as int),
{
    let mut out: Vec<Vec<T>> = Vec::new();
    let count: usize = samples.len();
    let mut at: usize = 0;
    let mut y: u32 = 0;
    while y < height
        invariant
            y <= height,
            count == samples@.len(),
            samples@.len() == width * height,
            at == y * width,
            out@.len() == y,
            forall|j: int|
                0 <= j < y ==> (#[trigger] out@[j])@ == rows(
                    samples@,
                    width as int,
                    height as int,
                )[j],
        decreases height - y,
    {
        let mut row: Vec<T> = Vec::new();
        let mut x: u32 = 0;
        while x < width
            invariant
                x <= width,
                y < height,
                count == samples@.len(),
                samples@.len() == width * height,
                at == y * width + x,
                row@.len() == x,
                forall|i: int| 0 <= i < x ==> #[trigger] row@[i] == samples@[y * width + i],
            decreases width - x,
        {
            proof {
                cell_index_in_range(x as int, y as int, width as int, height as int);
            }
            row.push(samples[at]);
            at = at + 1;
            x = x + 1;
        }
        proof {
            if width > 0 {
                cell_index_in_range(0, y as int, width as int, height as int);
            } else {
                assert((y + 1) * width == y * width + width) by (nonlinear_arith)
                    requires
                        width == 0,
                ;
            }
        }
        assert(row@ =~= rows(samples@, width as int, height as int)[y as int]);
        out.push(row);
        y = y + 1;
    }
    assert(grid(out) =~= rows(samples@, width as int, height as int));
    out
}

/// Cuts a run of samples, three for each pixel, into the rows of a raster
/// of pixels of three channels.
pub fn to_rgb_rows<P: Copy>(samples: &Vec<P>, width: u32, height: u32) -> (out: Vec<Vec<[P; 3]>>)
    requires
        samples@.len() == 3 * (width * height),
    ensures
        grid(out) == rgb_rows(samples@, width as int, height as int),
{
    let mut out: Vec<Vec<[P; 3]>> = Vec::new();
    let count: usize = samples.len();
    let mut at: usize = 0;
    let mut y: u32 = 0;
    while y < height
        invariant
            y <= height,
            count == samples@.len(),
            samples@.len() == 3 * (width * height),
            at == 3 * (y * width),
            out@.len() == y,
            forall|j: int|
                0 <= j < y ==> (#[trigger] out@[j])@ == rgb_rows(
                    samples@,
                    width as int,
                    height as int,
                )[j],
        decreases height - y,
    {
        let mut row: Vec<[P; 3]> = Vec::new();
        let mut x: u32 = 0;
        while x < width
            invariant
                x <= width,
                y < height,
                count == samples@.len(),
                samples@.len() == 3 * (width * height),
                at == 3 * (y * width + x),
                row@.len() == x,
                forall|i: int|
                    0 <= i < x ==> #[trigger] row@[i] == [
                        samples@[3 * (y * width + i)],
                        samples@[3 * (y * width + i) + 1],
                        samples@[3 * (y * width + i) + 2],
                    ],
            decreases width - x,
        {
            proof {
                cell_index_in_range(x as int, y as int, width as int, height as int);
            }
            row.push([samples[at], samples[at + 1], samples[at + 2]]);
            at = at + 3;
            x = x + 1;
        }
        proof {
            if width > 0 {
                cell_index_in_range(0, y as int, width as int, height as int);
            } else {
                assert((y + 1) * width == y * width + width) by (nonlinear_arith)
                    requires
                        width == 0,
                ;
            }
        }
        assert(row@ =~= rgb_rows(samples@, width as int, height as int)[y as int]);
        out.push(row);
        y = y + 1;
    }
    assert(grid(out) =~= rgb_rows(samples@, width as int, height as int));
    out
}

/// The raster has `height` rows of `width` pixels each.
pub open spec fn is_rect<T>(g: Seq<Seq<T>>, width: int, height: int) -> bool {
    g.len() == height && forall|y: int| 0 <= y < height ==> (#[trigger] g[y]).len() == width
}

/// The pixels of a raster in one run, row after row.
pub open spec fn joined<T>(g: Seq<Seq<T>>) -> Seq<T>
    decreases g.len(),
{
    if g.len() == 0 {
        Seq::empty()
    } else {
        joined(g.drop_last()) + g.last()
    }
}

/// In the run of a raster's pixels, the pixel `(x, y)` stands at
/// `y * width + x`.
pub proof fn joined_of_rect<T>(g: Seq<Seq<T>>, width: int, height: int)
    requires
        is_rect(g, width, height),
        0 <= width,
    ensures
        joined(g).len() == width * height,
        forall|x: int, y: int|
            0 <= x < width && 0 <= y < height ==> joined(g)[y * width + x] == #[trigger] g[y][x],
        rows(joined(g), width, height) == g,
    decreases g.len(),
{
    if g.len() == 0 {
        assert(width * height == 0) by (nonlinear_arith)
            requires
                height == 0,
        ;
        assert(rows(joined(g), width, height) =~= g);
    } else {
        let rest = g.drop_last();
        assert(is_rect(rest, width, height - 1));
        joined_of_rect(rest, width, height - 1);
        assert(width * height == width * (height - 1) + width) by (nonlinear_arith);
        assert forall|x: int, y: int| 0 <= x < width && 0 <= y < height implies joined(g)[y * width
            + x] == #[trigger] g[y][x] by {
            if y < height - 1 {
                cell_index_in_range(x, y, width, height - 1);
                assert(rest[y][x] == g[y][x]);
            } else {
                assert(y * width == width * (height - 1)) by (nonlinear_arith)
                    requires
                        y == height - 1,
                ;
            }
        }
        let r = rows(joined(g), width, height);
        assert forall|y: int| 0 <= y < height implies #[trigger] r[y] == g[y] by {
            assert forall|x: int| 0 <= x < width implies r[y][x] == g[y][x] by {
                assert(joined(g)[y * width + x] == g[y][x]);
            }
            assert(r[y] =~= g[y]);
        }
        assert(r =~= g);
    }
}

/// The pixels of a raster in one run, row after row.
pub fn flatten<T: Copy>(rows: &Vec<Vec<T>>) -> (out: Vec<T>)
    ensures
        out@ == joined(grid(*rows)),
{
    let ghost g = grid(*rows);
    let mut out: Vec<T> = Vec::new();
    let mut y: usize = 0;
    assert(g.take(0) =~= Seq::<Seq<T>>::empty());
    while y < rows.len()
        invariant
            y <= rows@.len(),
            g == grid(*rows),
            out@ == joined(g.take(y as int)),
        decreases rows@.len() - y,
    {
        let ghost before = out@;
        let mut x: usize = 0;
        while x < rows[y].len()
            invariant
                y < rows@.len(),
                x <= rows@[y as int]@.len(),
                out@ == before + rows@[y as int]@.take(x as int),
            decreases rows@[y as int]@.len() - x,
        {
            out.push(rows[y][x]);
            assert(rows@[y as int]@.take(x + 1) =~= rows@[y as int]@.take(x as int).push(
                rows@[y as int]@[x as int],
            ));
            x = x + 1;
        }
        proof {
            assert(rows@[y as int]@.take(x as int) =~= g[y as int]);
            assert(g.take(y + 1).drop_last() =~= g.take(y as int));
            assert(g.take(y + 1).last() == g[y as int]);
        }
        y = y + 1;
    }
    assert(g.take(rows@.len() as int) =~= g);
    out
}

/// The raster of `height` rows of `width` pixels of four channels whose
/// channels are the samples, pixel after pixel and row after row.
pub open spec fn rgba_rows(samples: Seq<u8>, width: int, height: int) -> Seq<Seq<[u8; 4]>> {
    Seq::new(
        height as nat,
        |y: int|
            Seq::new(
                width as nat,
                |x: int| [
                    samples[4 * (y * width + x)],
                    samples[4 * (y * width + x) + 1],
                    samples[4 * (y * width + x) + 2],
                    samples[4 * (y * width + x) + 3],
                ],
            ),
    )
}

/// Cuts a run of samples, four for each pixel, into the rows of a raster
/// of pixels of four channels.
pub fn to_rgba_rows(samples: &Vec<u8>, width: u32, height: u32) -> (out: Vec<Vec<[u8; 4]>>)
    requires
        samples@.len() == 4 * (width * height),
    ensures
        grid(out) == rgba_rows(samples@, width as int, height as int),
        is_rect(grid(out), width as int, height as int),
{
    let mut out: Vec<Vec<[u8; 4]>> = Vec::new();
    let count: usize = samples.len();
    let mut at: usize = 0;
    let mut y: u32 = 0;
    while y < height
        invariant
            y <= height,
            count == samples@.len(),
            samples@.len() == 4 * (width * height),
            at == 4 * (y * width),
            out@.len() == y,
            forall|j: int|
                0 <= j < y ==> (#[trigger] out@[j])@ == rgba_rows(
                    samples@,
                    width as int,
                    height as int,
                )[j],
        decreases height - y,
    {
        let mut row: Vec<[u8; 4]> = Vec::new();
        let mut x: u32 = 0;
        while x < width
            invariant
                x <= width,
                y < height,
                count == samples@.len(),
                samples@.len() == 4 * (width * height),
                at == 4 * (y * width + x),
                row@.len() == x,
                forall|i: int|
                    0 <= i < x ==> #[trigger] row@[i] == [
                        samples@[4 * (y * width + i)],
                        samples@[4 * (y * width + i) + 1],
                        samples@[4 * (y * width + i) + 2],
                        samples@[4 * (y * width + i) + 3],
                    ],
            decreases width - x,
        {
            proof {
                cell_index_in_range(x as int, y as int, width as int, height as int);
            }
            row.push([samples[at], samples[at + 1], samples[at + 2], samples[at + 3]]);
            at = at + 4;
            x = x + 1;
        }
        proof {
            if width > 0 {
                cell_index_in_range(0, y as int, width as int, height as int);
            } else {
                assert((y + 1) * width == y * width + width) by (nonlinear_arith)
                    requires
                        width == 0,
                ;
            }
        }
        assert(row@ =~= rgba_rows(samples@, width as int, height as int)[y as int]);
        out.push(row);
        y = y + 1;
    }
    assert(grid(out) =~= rgba_rows(samples@, width as int, height as int));
    out
}

/// The samples of a raster of pixels of four channels in one run, pixel
/// after pixel and row after row.
pub open spec fn rgba_samples(g: Seq<Seq<[u8; 4]>>) -> Seq<u8> {
    Seq::new(4 * joined(g).len(), |i: int| joined(g)[i / 4][i % 4])
}

/// The samples of a raster of pixels of four channels in one run.
pub fn to_rgba_samples(rows: &Vec<Vec<[u8; 4]>>) -> (out: Vec<u8>)
    ensures
        out@ == rgba_samples(grid(*rows)),
{
    let pixels: Vec<[u8; 4]> = flatten(rows);
    let mut out: Vec<u8> = Vec::new();
    let mut i: usize = 0;
    while i < pixels.len()
        invariant
            i <= pixels@.len(),
            out@.len() == 4 * i,
            forall|k: int| 0 <= k < 4 * i ==> #[trigger] out@[k] == pixels@[k / 4][k % 4],
        decreases pixels@.len() - i,
    {
        let p: [u8; 4] = pixels[i];
        out.push(p[0]);
        out.push(p[1]);
        out.push(p[2]);
        out.push(p[3]);
        i = i + 1;
    }
    assert(out@ =~= rgba_samples(grid(*rows)));
    out
}

/// A copy of a raster.
pub fn copy_rows<T: Copy>(rows: &Vec<Vec<T>>) -> (out: Vec<Vec<T>>)
    ensures
        grid(out) == grid(*rows),
{
    let mut out: Vec<Vec<T>> = Vec::new();
    let mut y: usize = 0;
    while y < rows.len()
        invariant
            y <= rows@.len(),
            out@.len() == y,
            forall|j: int| 0 <= j < y ==> (#[trigger] out@[j])@ == rows@[j]@,
        decreases rows@.len() - y,
    {
        let mut row: Vec<T> = Vec::new();
        let mut x: usize = 0;
        while x < rows[y].len()
            invariant
                y < rows@.len(),
                x <= rows@[y as int]@.len(),
                row@.len() == x,
                forall|i: int| 0 <= i < x ==> #[trigger] row@[i] == rows@[y as int]@[i],
            decreases rows@[y as int]@.len() - x,
        {
            row.push(rows[y][x]);
            x = x + 1;
        }
        assert(row@ =~= rows@[y as int]@);
        out.push(row);
        y = y + 1;
    }
    assert(grid(out) =~= grid(*rows));
    out
}

/// A raster of `width` by `height` in which every pixel is `value`.
pub open spec fn uniform<T>(width: int, height: int, value: T) -> Seq<Seq<T>> {
    Seq::new(height as nat, |y: int| Seq::new(width as nat, |x: int| value))
}

/// A raster of `width` by `height` in which every pixel is `value`.
pub fn filled<T: Copy>(width: u32, height: u32, value: T) -> (out: Vec<Vec<T>>)
    ensures
        grid(out) == uniform(width as int, height as int, value),
        is_rect(grid(out), width as int, height as int),
{
    let mut out: Vec<Vec<T>> = Vec::new();
    let mut y: u32 = 0;
    while y < height
        invariant
            y <= height,
            out@.len() == y,
            forall|j: int|
                0 <= j < y ==> (#[trigger] out@[j])@ == uniform(width as int, height as int, value)[j],
        decreases height - y,
    {
        let mut row: Vec<T> = Vec::new();
        let mut x: u32 = 0;
        while x < width
            invariant
                x <= width,
                row@.len() == x,
                forall|i: int| 0 <= i < x ==> #[trigger] row@[i] == value,
            decreases width - x,
        {
            row.push(value);
            x = x + 1;
        }
        assert(row@ =~= uniform(width as int, height as int, value)[y as int]);
        out.push(row);
        y = y + 1;
    }
    assert(grid(out) =~= uniform(width as int, height as int, value));
    out
}

/// The raster in which the cell `(x, y)` is `cell(x, y)`.
pub open spec fn table<T>(size: Dimensions, cell: spec_fn(int, int) -> T) -> Seq<Seq<T>> {
    Seq::new(size.height as nat, |y: int| Seq::new(size.width as nat, |x: int| cell(x, y)))
}

/// The raster of eight bits in which every value `v` is replaced by
/// `255 - v`.
pub open spec fn complement(g: Seq<Seq<u8>>) -> Seq<Seq<u8>> {
    Seq::new(g.len(), |y: int| Seq::new(g[y].len(), |x: int| (255 - g[y][x]) as u8))
}

/// Replaces every value `v` of a raster of eight bits by `255 - v`.
pub fn complemented(rows: &Vec<Vec<u8>>) -> (out: Vec<Vec<u8>>)
    ensures
        grid(out) == complement(grid(*rows)),
{
    let mut out: Vec<Vec<u8>> = Vec::new();
    let mut y: usize = 0;
    while y < rows.len()
        invariant
            y <= rows@.len(),
            out@.len() == y,
            forall|j: int| 0 <= j < y ==> (#[trigger] out@[j])@ == complement(grid(*rows))[j],
        decreases rows@.len() - y,
    {
        let mut row: Vec<u8> = Vec::new();
        let mut x: usize = 0;
        while x < rows[y].len()
            invariant
                y < rows@.len(),
                x <= rows@[y as int]@.len(),
                row@.len() == x,
                forall|i: int|
                    0 <= i < x ==> #[trigger] row@[i] == (255 - rows@[y as int]@[i]) as u8,
            decreases rows@[y as int]@.len() - x,
        {
            row.push(255 - rows[y][x]);
            x = x + 1;
        }
        assert(row@ =~= complement(grid(*rows))[y as int]);
        out.push(row);
        y = y + 1;
    }
    assert(grid(out) =~= complement(grid(*rows)));
    out
}

/// Complementing twice gives the raster back.
pub proof fn complement_is_self_inverse(g: Seq<Seq<u8>>)
    ensures
        complement(complement(g)) == g,
{
    let h = complement(complement(g));
    assert forall|y: int| 0 <= y < g.len() implies #[trigger] h[y] == g[y] by {
        assert(h[y] =~= g[y]);
    }
    assert(h =~= g);
}

/// Every pixel of the raster is `value`.
pub open spec fn all_cells<T>(g: Seq<Seq<T>>, value: T) -> bool {
    forall|x: int, y: int| 0 <= y < g.len() && 0 <= x < g[y].len() ==> #[trigger] g[y][x] == value
}

/// The run of a raster whose pixels are all `value` holds `value` only.
pub proof fn joined_of_all_cells<T>(g: Seq<Seq<T>>, value: T)
    requires
        all_cells(g, value),
    ensures
        forall|i: int| 0 <= i < joined(g).len() ==> #[trigger] joined(g)[i] == value,
    decreases g.len(),
{
    if g.len() > 0 {
        let rest = g.drop_last();
        assert forall|x: int, y: int| 0 <= y < rest.len() && 0 <= x < rest[y].len() implies #[trigger] rest[y][x]
            == value by {
            assert(rest[y] == g[y]);
            assert(g[y][x] == value);
        }
        joined_of_all_cells(rest, value);
        assert forall|i: int| 0 <= i < joined(g).len() implies #[trigger] joined(g)[i] == value by {
            if i >= joined(rest).len() {
                let x = i - joined(rest).len();
                assert(g[g.len() - 1][x] == value);
            }
        }
    }
}

} // verus!
