//! The stages that turn a sparse depth field into a clean one: gap filling,
//! smoothing, normalising and inverting. Each stage reads one field and
//! gives a new field of the same shape.

use vstd::prelude::*;
use crate::median::lower_median;
use crate::median::lower_median_of;
use crate::pixels::grid;

verus! {

/// A depth field: rows of cells, each a distance or `None` where no
/// correspondence is known.
pub type DepthField = Vec<Vec<Option<u32>>>;

/// The cell at `(x, y)` exists in the field.
pub open spec fn in_field(f: Seq<Seq<Option<u32>>>, x: int, y: int) -> bool {
    0 <= y < f.len() && 0 <= x < f[y].len()
}

/// The cell at `(x, y)` exists and holds a distance.
pub open spec fn resolved_at(f: Seq<Seq<Option<u32>>>, x: int, y: int) -> bool {
    in_field(f, x, y) && f[y][x] is Some
}

/// Every cell of the field holds a distance.
pub open spec fn fully_resolved(f: Seq<Seq<Option<u32>>>) -> bool {
    forall|x: int, y: int| in_field(f, x, y) ==> (#[trigger] f[y][x]) is Some
}

/// Two fields have the same rows of the same lengths.
pub open spec fn same_shape(a: Seq<Seq<Option<u32>>>, b: Seq<Seq<Option<u32>>>) -> bool {
    a.len() == b.len() && forall|y: int| 0 <= y < a.len() ==> (#[trigger] a[y]).len() == b[y].len()
}

/// The distance held at `(x, y)` as a sequence of one value, or the empty
/// sequence where the cell is outside the field or unresolved.
pub open spec fn cell_values(f: Seq<Seq<Option<u32>>>, x: int, y: int) -> Seq<u32> {
    if resolved_at(f, x, y) {
        seq![f[y][x].unwrap()]
    } else {
        Seq::empty()
    }
}

/// The distances held in row `y` at the `n` columns from `x0` on.
pub open spec fn span_values(f: Seq<Seq<Option<u32>>>, y: int, x0: int, n: int) -> Seq<u32>
    decreases n,
{
    if n <= 0 {
        Seq::empty()
    } else {
        span_values(f, y, x0, n - 1) + cell_values(f, x0 + n - 1, y)
    }
}

/// The distances that row `i` of the ring of radius `r` about `(cx, cy)`
/// holds. The ring is the border of the square of half-width `r`: its
/// first and last rows are whole, the rows between hold their two ends.
pub open spec fn ring_row_values(
    f: Seq<Seq<Option<u32>>>,
    cx: int,
    cy: int,
    r: int,
    i: int,
) -> Seq<u32> {
    if i == 0 || i == 2 * r {
        span_values(f, cy - r + i, cx - r, 2 * r + 1)
    } else {
        cell_values(f, cx - r, cy - r + i) + cell_values(f, cx + r, cy - r + i)
    }
}

/// The distances held by the first `rows` rows of the ring.
pub open spec fn ring_values_upto(
    f: Seq<Seq<Option<u32>>>,
    cx: int,
    cy: int,
    r: int,
    rows: int,
) -> Seq<u32>
    decreases rows,
{
    if rows <= 0 {
        Seq::empty()
    } else {
        ring_values_upto(f, cx, cy, r, rows - 1) + ring_row_values(f, cx, cy, r, rows - 1)
    }
}

/// The distances held by the cells of the ring of radius `r` about
/// `(cx, cy)`, each cell once.
pub open spec fn ring_values(f: Seq<Seq<Option<u32>>>, cx: int, cy: int, r: int) -> Seq<u32> {
    ring_values_upto(f, cx, cy, r, 2 * r + 1)
}

/// The greatest radius that gap filling looks at: the lesser of the
/// number of rows and the length of the first row.
pub open spec fn reach(f: Seq<Seq<Option<u32>>>) -> int {
    if f.len() == 0 {
        0
    } else if f[0].len() < f.len() {
        f[0].len() as int
    } else {
        f.len() as int
    }
}

/// Ring `r` is the first ring about `(x, y)`, from radius 1 on and within
/// reach, that holds a distance.
pub open spec fn is_fill_ring(f: Seq<Seq<Option<u32>>>, x: int, y: int, r: int) -> bool {
    &&& 1 <= r <= reach(f)
    &&& ring_values(f, x, y, r).len() > 0
    &&& forall|r2: int| 1 <= r2 < r ==> (#[trigger] ring_values(f, x, y, r2)).len() == 0
}

/// What gap filling puts at `(x, y)`: the distance that is there, else the
/// lower median of the first ring that holds any distance, else `None`.
pub open spec fn filled_cell(f: Seq<Seq<Option<u32>>>, x: int, y: int) -> Option<u32> {
    if f[y][x] is Some {
        f[y][x]
    } else if exists|r: int| is_fill_ring(f, x, y, r) {
        Some(lower_median(ring_values(f, x, y, choose|r: int| is_fill_ring(f, x, y, r))))
    } else {
        None
    }
}

/// The field after gap filling. Every cell is filled from the field as it
/// was given, never from another cell's filling.
pub open spec fn gap_filled(f: Seq<Seq<Option<u32>>>) -> Seq<Seq<Option<u32>>> {
    Seq::new(f.len(), |y: int| Seq::new(f[y].len(), |x: int| filled_cell(f, x, y)))
}

/// Gap filling leaves a field without gaps as it is, however often it
/// runs.
pub proof fn gap_fill_keeps_resolved(f: Seq<Seq<Option<u32>>>)
    requires
        fully_resolved(f),
    ensures
        gap_filled(f) == f,
        gap_filled(gap_filled(f)) == f,
{
    assert forall|y: int| 0 <= y < f.len() implies #[trigger] gap_filled(f)[y] == f[y] by {
        assert forall|x: int| 0 <= x < f[y].len() implies gap_filled(f)[y][x] == f[y][x] by {
            assert(in_field(f, x, y));
            assert(f[y][x] is Some);
        }
        assert(gap_filled(f)[y] =~= f[y]);
    }
    assert(gap_filled(f) =~= f);
}

/// Gap filling never changes a cell that holds a distance.
pub proof fn gap_fill_keeps_distances(f: Seq<Seq<Option<u32>>>, x: int, y: int)
    requires
        resolved_at(f, x, y),
    ensures
        gap_filled(f)[y][x] == f[y][x],
{
}

fn reach_of(field: &DepthField) -> (r: usize)
    ensures
        r == reach(grid(*field)),
{
    if field.len() == 0 {
        0
    } else if field[0].len() < field.len() {
        field[0].len()
    } else {
        field.len()
    }
}

/// Appends the distance held at `(x, y)`, if there is one.
fn push_cell(field: &DepthField, x: i128, y: i128, out: &mut Vec<u32>)
    ensures
        final(out)@ == old(out)@ + cell_values(grid(*field), x as int, y as int),
{
    if 0 <= y && y < field.len() as i128 && 0 <= x && x < field[y as usize].len() as i128 {
        match field[y as usize][x as usize] {
            Some(d) => {
                out.push(d);
                assert(final(out)@ =~= old(out)@ + seq![d]);
            },
            None => {
                assert(final(out)@ =~= old(out)@ + Seq::<u32>::empty());
            },
        }
    } else {
        assert(final(out)@ =~= old(out)@ + Seq::<u32>::empty());
    }
}

/// The distances held by the ring of radius `r` about `(cx, cy)`.
fn collect_ring(field: &DepthField, cx: usize, cy: usize, r: usize) -> (out: Vec<u32>)
    requires
        r >= 1,
    ensures
        out@ == ring_values(grid(*field), cx as int, cy as int, r as int),
{
    let ghost f = grid(*field);
    let mut out: Vec<u32> = Vec::new();
    let x0: i128 = cx as i128 - r as i128;
    let x1: i128 = cx as i128 + r as i128;
    let side: i128 = 2 * (r as i128) + 1;
    let mut i: i128 = 0;
    assert(out@ =~= ring_values_upto(f, cx as int, cy as int, r as int, 0));
    while i < side
        invariant
            0 <= i <= side,
            r >= 1,
            side == 2 * r + 1,
            x0 == cx - r,
            x1 == cx + r,
            f == grid(*field),
            out@ == ring_values_upto(f, cx as int, cy as int, r as int, i as int),
        decreases side - i,
    {
        let y: i128 = cy as i128 - r as i128 + i;
        let ghost before = out@;
        if i == 0 || i == side - 1 {
            let mut n: i128 = 0;
            assert(out@ =~= before + span_values(f, y as int, x0 as int, 0));
            while n < side
                invariant
                    0 <= n <= side,
                    side == 2 * r + 1,
                    x0 == cx - r,
                    y == cy - r + i,
                    0 <= i < side,
                    f == grid(*field),
                    out@ == before + span_values(f, y as int, x0 as int, n as int),
                decreases side - n,
            {
                push_cell(field, x0 + n, y, &mut out);
                assert(out@ =~= before + span_values(f, y as int, x0 as int, n + 1)) by {
                    assert(span_values(f, y as int, x0 as int, n + 1) == span_values(
                        f,
                        y as int,
                        x0 as int,
                        n as int,
                    ) + cell_values(f, x0 + n, y as int));
                }
                n = n + 1;
            }
        } else {
            push_cell(field, x0, y, &mut out);
            push_cell(field, x1, y, &mut out);
            assert(out@ =~= before + (cell_values(f, x0 as int, y as int) + cell_values(
                f,
                x1 as int,
                y as int,
            )));
        }
        assert(out@ == before + ring_row_values(f, cx as int, cy as int, r as int, i as int));
        i = i + 1;
    }
    out
}

/// What gap filling puts at the unresolved cell `(x, y)`.
fn fill_cell(field: &DepthField, x: usize, y: usize) -> (d: Option<u32>)
    requires
        in_field(grid(*field), x as int, y as int),
        grid(*field)[y as int][x as int] is None,
    ensures
        d == filled_cell(grid(*field), x as int, y as int),
{
    let ghost f = grid(*field);
    let limit: usize = reach_of(field);
    let mut seen: usize = 0;
    while seen < limit
        invariant
            seen <= limit,
            limit == reach(f),
            f == grid(*field),
            in_field(f, x as int, y as int),
            f[y as int][x as int] is None,
            forall|r2: int|
                1 <= r2 <= seen ==> (#[trigger] ring_values(f, x as int, y as int, r2)).len() == 0,
        decreases limit - seen,
    {
        let r: usize = seen + 1;
        let values: Vec<u32> = collect_ring(field, x, y, r);
        if values.len() > 0 {
            proof {
                assert(is_fill_ring(f, x as int, y as int, r as int));
                let chosen = choose|c: int| is_fill_ring(f, x as int, y as int, c);
                assert(is_fill_ring(f, x as int, y as int, chosen));
                if chosen < r {
                    assert(ring_values(f, x as int, y as int, chosen).len() == 0);
                }
                if r < chosen {
                    assert(ring_values(f, x as int, y as int, r as int).len() == 0);
                }
            }
            return Some(lower_median_of(&values));
        }
        seen = r;
    }
    proof {
        assert forall|c: int| !is_fill_ring(f, x as int, y as int, c) by {
            if is_fill_ring(f, x as int, y as int, c) {
                assert(ring_values(f, x as int, y as int, c).len() == 0);
            }
        }
    }
    None
}

/// Gap filling. Every unresolved cell takes the lower median of the
/// distances on the nearest square ring about it that holds any, looking
/// from radius 1 up to the lesser side of the field; a cell for which no
/// ring holds a distance stays unresolved. Resolved cells are kept.
pub fn gap_fill(field: &DepthField) -> (out: DepthField)
    ensures
        grid(out) == gap_filled(grid(*field)),
        same_shape(grid(out), grid(*field)),
{
    let ghost f = grid(*field);
    let mut out: DepthField = Vec::new();
    let mut y: usize = 0;
    while y < field.len()
        invariant
            y <= field@.len(),
            f == grid(*field),
            out@.len() == y,
            forall|j: int| 0 <= j < y ==> (#[trigger] out@[j])@ == gap_filled(f)[j],
        decreases field@.len() - y,
    {
        let mut row: Vec<Option<u32>> = Vec::new();
        let mut x: usize = 0;
        while x < field[y].len()
            invariant
                y < field@.len(),
                x <= field@[y as int]@.len(),
                f == grid(*field),
                row@.len() == x,
                forall|i: int| 0 <= i < x ==> #[trigger] row@[i] == filled_cell(f, i, y as int),
            decreases field@[y as int]@.len() - x,
        {
            let cell: Option<u32> = match field[y][x] {
                Some(d) => Some(d),
                None => fill_cell(field, x, y),
            };
            row.push(cell);
            x = x + 1;
        }
        assert(row@ =~= gap_filled(f)[y as int]);
        out.push(row);
        y = y + 1;
    }
    assert(grid(out) =~= gap_filled(f));
    out
}

/// The distances held by the cells `lo .. hi` of a row of cells.
pub open spec fn window_values(s: Seq<Option<u32>>, lo: int, hi: int) -> Seq<u32>
    decreases hi - lo,
{
    if hi <= lo {
        Seq::empty()
    } else if s[hi - 1] is Some {
        window_values(s, lo, hi - 1).push(s[hi - 1].unwrap())
    } else {
        window_values(s, lo, hi - 1)
    }
}

/// Where the window about cell `i` begins: `kernel / 2` cells before `i`,
/// or at the first cell.
pub open spec fn window_start(i: int, kernel: int) -> int {
    if i - kernel / 2 < 0 {
        0
    } else {
        i - kernel / 2
    }
}

/// Where the window about cell `i` ends, this index excluded: `kernel / 2`
/// cells after `i`, or at the end of the row.
pub open spec fn window_end(len: int, i: int, kernel: int) -> int {
    if i + kernel / 2 > len {
        len
    } else {
        i + kernel / 2
    }
}

/// What smoothing puts at cell `i` of a row: the lower median of the
/// distances in the window about `i`, or the cell as it was where the
/// window holds no distance.
pub open spec fn smoothed_cell(s: Seq<Option<u32>>, i: int, kernel: int) -> Option<u32> {
    let values = window_values(
        s,
        window_start(i, kernel),
        window_end(s.len() as int, i, kernel),
    );
    if values.len() == 0 {
        s[i]
    } else {
        Some(lower_median(values))
    }
}

/// A row of cells after smoothing.
pub open spec fn smoothed_row(s: Seq<Option<u32>>, kernel: int) -> Seq<Option<u32>> {
    Seq::new(s.len(), |i: int| smoothed_cell(s, i, kernel))
}

/// The field after smoothing: every row smoothed by itself.
pub open spec fn smoothed(f: Seq<Seq<Option<u32>>>, kernel: int) -> Seq<Seq<Option<u32>>> {
    Seq::new(f.len(), |y: int| smoothed_row(f[y], kernel))
}

/// Smooths one row of cells by a median filter of width `kernel`. The
/// window about cell `i` is the cells from `i - kernel / 2` up to, but not
/// including, `i + kernel / 2`, cut at both ends of the row. The cell takes
/// the lower median of the distances in its window; where the window holds
/// none, the cell stays as it was.
pub fn smooth_row(row: &Vec<Option<u32>>, kernel: usize) -> (out: Vec<Option<u32>>)
    ensures
        out@ == smoothed_row(row@, kernel as int),
{
    let half: usize = kernel / 2;
    let len: usize = row.len();
    let mut out: Vec<Option<u32>> = Vec::new();
    let mut i: usize = 0;
    while i < len
        invariant
            i <= len,
            len == row@.len(),
            half == kernel / 2,
            out@.len() == i,
            forall|j: int| 0 <= j < i ==> #[trigger] out@[j] == smoothed_cell(row@, j, kernel as int),
        decreases len - i,
    {
        let lo: usize = if i < half {
            0
        } else {
            i - half
        };
        let hi: usize = if half > len - i {
            len
        } else {
            i + half
        };
        let mut values: Vec<u32> = Vec::new();
        let mut j: usize = lo;
        while j < hi
            invariant
                lo <= j,
                j <= hi || j == lo,
                hi <= len,
                len == row@.len(),
                values@ == window_values(row@, lo as int, j as int),
            decreases hi - j,
        {
            match row[j] {
                Some(d) => {
                    values.push(d);
                },
                None => {},
            }
            j = j + 1;
        }
        assert(values@ == window_values(row@, lo as int, hi as int));
        let cell: Option<u32> = if values.len() == 0 {
            row[i]
        } else {
            Some(lower_median_of(&values))
        };
        out.push(cell);
        i = i + 1;
    }
    assert(out@ =~= smoothed_row(row@, kernel as int));
    out
}

/// Smooths a field: every row by `smooth_row`.
pub fn smooth(field: &DepthField, kernel: usize) -> (out: DepthField)
    ensures
        grid(out) == smoothed(grid(*field), kernel as int),
        same_shape(grid(out), grid(*field)),
{
    let mut out: DepthField = Vec::new();
    let mut y: usize = 0;
    while y < field.len()
        invariant
            y <= field@.len(),
            out@.len() == y,
            forall|j: int|
                0 <= j < y ==> (#[trigger] out@[j])@ == smoothed_row(field@[j]@, kernel as int),
        decreases field@.len() - y,
    {
        out.push(smooth_row(&field[y], kernel));
        y = y + 1;
    }
    assert(grid(out) =~= smoothed(grid(*field), kernel as int));
    out
}

/// Some cell of the field holds a distance.
pub open spec fn has_distance(f: Seq<Seq<Option<u32>>>) -> bool {
    exists|x: int, y: int| in_field(f, x, y) && (#[trigger] f[y][x]) is Some
}

/// `lo` is the least distance held in the field.
pub open spec fn is_field_min(f: Seq<Seq<Option<u32>>>, lo: int) -> bool {
    &&& exists|x: int, y: int| in_field(f, x, y) && #[trigger] f[y][x] == Some(lo as u32) && 0 <= lo <= u32::MAX
    &&& forall|x: int, y: int|
        in_field(f, x, y) && (#[trigger] f[y][x]) is Some ==> lo <= f[y][x].unwrap()
}

/// `hi` is the greatest distance held in the field.
pub open spec fn is_field_max(f: Seq<Seq<Option<u32>>>, hi: int) -> bool {
    &&& exists|x: int, y: int| in_field(f, x, y) && #[trigger] f[y][x] == Some(hi as u32) && 0 <= hi <= u32::MAX
    &&& forall|x: int, y: int|
        in_field(f, x, y) && (#[trigger] f[y][x]) is Some ==> hi >= f[y][x].unwrap()
}

/// The least distance held in the field.
pub open spec fn field_min(f: Seq<Seq<Option<u32>>>) -> int {
    choose|lo: int| is_field_min(f, lo)
}

/// The greatest distance held in the field.
pub open spec fn field_max(f: Seq<Seq<Option<u32>>>) -> int {
    choose|hi: int| is_field_max(f, hi)
}

/// A field has one least and one greatest distance.
pub proof fn field_extremes_unique(f: Seq<Seq<Option<u32>>>, lo: int, hi: int)
    requires
        is_field_min(f, lo),
        is_field_max(f, hi),
    ensures
        lo == field_min(f),
        hi == field_max(f),
        lo <= hi,
{
    let l = field_min(f);
    let h = field_max(f);
    assert(is_field_min(f, l));
    assert(is_field_max(f, h));
}

/// The distance `v` carried from the range `lo ..= hi` to the range
/// `0 ..= ceiling`; zero where the range is a single value.
pub open spec fn scaled(v: int, lo: int, hi: int, ceiling: int) -> int {
    if hi <= lo {
        0
    } else {
        (v - lo) * ceiling / (hi - lo)
    }
}

/// What normalising puts in the place of the cell `c`.
pub open spec fn normalized_cell(c: Option<u32>, lo: int, hi: int, ceiling: int) -> Option<u32> {
    match c {
        Some(v) => Some(scaled(v as int, lo, hi, ceiling) as u32),
        None => None,
    }
}

/// The field after normalising to the range `0 ..= ceiling`.
pub open spec fn normalized(f: Seq<Seq<Option<u32>>>, ceiling: int) -> Seq<Seq<Option<u32>>> {
    Seq::new(
        f.len(),
        |y: int|
            Seq::new(
                f[y].len(),
                |x: int| normalized_cell(f[y][x], field_min(f), field_max(f), ceiling),
            ),
    )
}

/// No distance held in the field is above `ceiling`.
pub open spec fn bounded(f: Seq<Seq<Option<u32>>>, ceiling: int) -> bool {
    forall|x: int, y: int|
        in_field(f, x, y) && (#[trigger] f[y][x]) is Some ==> f[y][x].unwrap() <= ceiling
}

proof fn scaled_in_range(v: int, lo: int, hi: int, ceiling: int)
    requires
        lo <= v <= hi,
        0 <= ceiling,
    ensures
        0 <= scaled(v, lo, hi, ceiling) <= ceiling,
        lo < hi ==> scaled(lo, lo, hi, ceiling) == 0,
        lo < hi ==> scaled(hi, lo, hi, ceiling) == ceiling,
{
    if lo < hi {
        let d = hi - lo;
        assert(0 <= (v - lo) * ceiling / d <= ceiling) by (nonlinear_arith)
            requires
                0 <= v - lo <= d,
                0 <= ceiling,
                d > 0,
        ;
        assert((lo - lo) * ceiling / d == 0) by (nonlinear_arith)
            requires
                d > 0,
        ;
        assert(d * ceiling / d == ceiling) by (nonlinear_arith)
            requires
                d > 0,
        ;
    }
}

/// After normalising, the least distance of the field is zero and the
/// greatest is the ceiling; where the field held one value only, every
/// distance is zero.
pub proof fn normalize_spans_range(f: Seq<Seq<Option<u32>>>, ceiling: u32)
    requires
        has_distance(f),
    ensures
        bounded(normalized(f, ceiling as int), ceiling as int),
        field_min(f) < field_max(f) ==> is_field_min(normalized(f, ceiling as int), 0)
            && is_field_max(normalized(f, ceiling as int), ceiling as int),
        field_min(f) >= field_max(f) ==> forall|x: int, y: int|
            in_field(f, x, y) && (#[trigger] f[y][x]) is Some ==> normalized(
                f,
                ceiling as int,
            )[y][x] == Some(0u32),
{
    field_extremes_exist(f);
    let lo = field_min(f);
    let hi = field_max(f);
    let n = normalized(f, ceiling as int);
    assert forall|x: int, y: int| in_field(n, x, y) && (#[trigger] n[y][x]) is Some implies 0
        <= n[y][x].unwrap() <= ceiling by {
        assert(in_field(f, x, y));
        assert(f[y][x] is Some);
        scaled_in_range(f[y][x].unwrap() as int, lo, hi, ceiling as int);
    }
    if lo < hi {
        let (xa, ya) = choose|x: int, y: int|
            in_field(f, x, y) && #[trigger] f[y][x] == Some(lo as u32) && 0 <= lo <= u32::MAX;
        let (xb, yb) = choose|x: int, y: int|
            in_field(f, x, y) && #[trigger] f[y][x] == Some(hi as u32) && 0 <= hi <= u32::MAX;
        scaled_in_range(lo, lo, hi, ceiling as int);
        assert(in_field(n, xa, ya) && n[ya][xa] == Some(0u32));
        assert(in_field(n, xb, yb) && n[yb][xb] == Some(ceiling));
    }
}

/// A field that holds a distance has a least and a greatest one.
pub proof fn field_extremes_exist(f: Seq<Seq<Option<u32>>>)
    requires
        has_distance(f),
    ensures
        is_field_min(f, field_min(f)),
        is_field_max(f, field_max(f)),
        field_min(f) <= field_max(f),
{
    let (x0, y0) = choose|x: int, y: int| in_field(f, x, y) && (#[trigger] f[y][x]) is Some;
    let v0 = f[y0][x0].unwrap() as int;
    least_from(f, v0);
    greatest_from(f, v0);
    let lo = choose|lo: int| is_field_min(f, lo);
    let hi = choose|hi: int| is_field_max(f, hi);
    field_extremes_unique(f, lo, hi);
}

spec fn held(f: Seq<Seq<Option<u32>>>, v: int) -> bool {
    exists|x: int, y: int| in_field(f, x, y) && #[trigger] f[y][x] == Some(v as u32) && 0 <= v <= u32::MAX
}

proof fn least_from(f: Seq<Seq<Option<u32>>>, v: int)
    requires
        held(f, v),
    ensures
        exists|lo: int| is_field_min(f, lo),
    decreases v,
{
    if exists|w: int| held(f, w) && w < v {
        let w = choose|w: int| held(f, w) && w < v;
        least_from(f, w);
    } else {
        assert forall|x: int, y: int| in_field(f, x, y) && (#[trigger] f[y][x]) is Some implies v
            <= f[y][x].unwrap() by {
            let u = f[y][x].unwrap() as int;
            if u < v {
                assert(held(f, u));
            }
        }
        assert(is_field_min(f, v));
    }
}

proof fn greatest_from(f: Seq<Seq<Option<u32>>>, v: int)
    requires
        held(f, v),
    ensures
        exists|hi: int| is_field_max(f, hi),
    decreases u32::MAX - v,
{
    if exists|w: int| held(f, w) && w > v {
        let w = choose|w: int| held(f, w) && w > v;
        greatest_from(f, w);
    } else {
        assert forall|x: int, y: int| in_field(f, x, y) && (#[trigger] f[y][x]) is Some implies v
            >= f[y][x].unwrap() by {
            let u = f[y][x].unwrap() as int;
            if u > v {
                assert(held(f, u));
            }
        }
        assert(is_field_max(f, v));
    }
}

/// The cell `(x, y)` comes before the cell `(cols, rows)` in row-major
/// order.
spec fn passed(x: int, y: int, cols: int, rows: int) -> bool {
    y < rows || (y == rows && x < cols)
}

/// `best` holds the least and the greatest distance among the cells
/// before `(cols, rows)`, or `None` where those cells hold none.
spec fn extremes_upto(
    f: Seq<Seq<Option<u32>>>,
    cols: int,
    rows: int,
    best: Option<(u32, u32)>,
) -> bool {
    match best {
        None => forall|x: int, y: int|
            in_field(f, x, y) && passed(x, y, cols, rows) ==> (#[trigger] f[y][x]) is None,
        Some((lo, hi)) => {
            &&& exists|x: int, y: int|
                in_field(f, x, y) && passed(x, y, cols, rows) && #[trigger] f[y][x] == Some(lo)
            &&& exists|x: int, y: int|
                in_field(f, x, y) && passed(x, y, cols, rows) && #[trigger] f[y][x] == Some(hi)
            &&& forall|x: int, y: int|
                in_field(f, x, y) && passed(x, y, cols, rows) && (#[trigger] f[y][x]) is Some
                    ==> lo <= f[y][x].unwrap() <= hi
        },
    }
}

/// The least and the greatest distance held in the field, or `None` where
/// it holds none.
pub fn field_extremes(field: &DepthField) -> (best: Option<(u32, u32)>)
    ensures
        best is None <==> !has_distance(grid(*field)),
        best matches Some((lo, hi)) ==> lo == field_min(grid(*field)) && hi == field_max(
            grid(*field),
        ) && is_field_min(grid(*field), lo as int) && is_field_max(grid(*field), hi as int),
{
    let ghost f = grid(*field);
    let mut best: Option<(u32, u32)> = None;
    let mut y: usize = 0;
    while y < field.len()
        invariant
            y <= field@.len(),
            f == grid(*field),
            extremes_upto(f, 0, y as int, best),
        decreases field@.len() - y,
    {
        let mut x: usize = 0;
        while x < field[y].len()
            invariant
                y < field@.len(),
                x <= field@[y as int]@.len(),
                f == grid(*field),
                extremes_upto(f, x as int, y as int, best),
            decreases field@[y as int]@.len() - x,
        {
            let ghost old_best = best;
            match field[y][x] {
                Some(v) => {
                    best = match best {
                        None => Some((v, v)),
                        Some((lo, hi)) => Some(
                            (if v < lo { v } else { lo }, if v > hi { v } else { hi }),
                        ),
                    };
                    proof {
                        assert(in_field(f, x as int, y as int) && passed(
                            x as int,
                            y as int,
                            x + 1,
                            y as int,
                        ) && f[y as int][x as int] == Some(v));
                        if let Some((lo, hi)) = old_best {
                            let (xa, ya) = choose|xa: int, ya: int|
                                in_field(f, xa, ya) && passed(xa, ya, x as int, y as int)
                                    && #[trigger] f[ya][xa] == Some(lo);
                            let (xb, yb) = choose|xb: int, yb: int|
                                in_field(f, xb, yb) && passed(xb, yb, x as int, y as int)
                                    && #[trigger] f[yb][xb] == Some(hi);
                            assert(passed(xa, ya, x + 1, y as int));
                            assert(passed(xb, yb, x + 1, y as int));
                        }
                        assert(extremes_upto(f, x + 1, y as int, best));
                    }
                },
                None => {
                    proof {
                        if let Some((lo, hi)) = old_best {
                            let (xa, ya) = choose|xa: int, ya: int|
                                in_field(f, xa, ya) && passed(xa, ya, x as int, y as int)
                                    && #[trigger] f[ya][xa] == Some(lo);
                            let (xb, yb) = choose|xb: int, yb: int|
                                in_field(f, xb, yb) && passed(xb, yb, x as int, y as int)
                                    && #[trigger] f[yb][xb] == Some(hi);
                            assert(passed(xa, ya, x + 1, y as int));
                            assert(passed(xb, yb, x + 1, y as int));
                        }
                        assert(extremes_upto(f, x + 1, y as int, best));
                    }
                },
            }
            x = x + 1;
        }
        proof {
            if let Some((lo, hi)) = best {
                let (xa, ya) = choose|xa: int, ya: int|
                    in_field(f, xa, ya) && passed(xa, ya, x as int, y as int)
                        && #[trigger] f[ya][xa] == Some(lo);
                let (xb, yb) = choose|xb: int, yb: int|
                    in_field(f, xb, yb) && passed(xb, yb, x as int, y as int)
                        && #[trigger] f[yb][xb] == Some(hi);
                assert(passed(xa, ya, 0, y + 1));
                assert(passed(xb, yb, 0, y + 1));
            }
            assert(extremes_upto(f, 0, y + 1, best));
        }
        y = y + 1;
    }
    proof {
        match best {
            None => {
                assert forall|x: int, y: int| in_field(f, x, y) implies (#[trigger] f[y][x])
                    is None by {
                    assert(passed(x, y, 0, field@.len() as int));
                }
            },
            Some((lo, hi)) => {
                let (xa, ya) = choose|xa: int, ya: int|
                    in_field(f, xa, ya) && passed(xa, ya, 0, field@.len() as int)
                        && #[trigger] f[ya][xa] == Some(lo);
                let (xb, yb) = choose|xb: int, yb: int|
                    in_field(f, xb, yb) && passed(xb, yb, 0, field@.len() as int)
                        && #[trigger] f[yb][xb] == Some(hi);
                assert(f[ya][xa] is Some);
                assert forall|x: int, y: int|
                    in_field(f, x, y) && (#[trigger] f[y][x]) is Some implies lo
                    <= f[y][x].unwrap() <= hi by {
                    assert(passed(x, y, 0, field@.len() as int));
                }
                assert(is_field_min(f, lo as int));
                assert(is_field_max(f, hi as int));
                field_extremes_unique(f, lo as int, hi as int);
            },
        }
    }
    best
}

fn scale(v: u32, lo: u32, hi: u32, ceiling: u32) -> (r: u32)
    requires
        lo <= v <= hi,
    ensures
        r == scaled(v as int, lo as int, hi as int, ceiling as int),
        r <= ceiling,
{
    proof {
        scaled_in_range(v as int, lo as int, hi as int, ceiling as int);
    }
    if hi <= lo {
        0
    } else {
        assert((v - lo) * ceiling <= 0xffff_ffff * 0xffff_ffff) by (nonlinear_arith)
            requires
                0 <= v - lo <= 0xffff_ffff,
                0 <= ceiling <= 0xffff_ffff,
        ;
        (((v - lo) as u64) * (ceiling as u64) / ((hi - lo) as u64)) as u32
    }
}

/// Normalising ("broadening"). Carries the distances of the field onto the
/// whole range `0 ..= ceiling`: with `lo` the least and `hi` the greatest
/// distance held, a distance `v` becomes `(v - lo) * ceiling / (hi - lo)`,
/// rounded down. Where `hi == lo` every distance becomes zero. Unresolved
/// cells stay unresolved.
pub fn normalize(field: &DepthField, ceiling: u32) -> (out: DepthField)
    ensures
        grid(out) == normalized(grid(*field), ceiling as int),
        same_shape(grid(out), grid(*field)),
        bounded(grid(out), ceiling as int),
{
    let ghost f = grid(*field);
    let best: Option<(u32, u32)> = field_extremes(field);
    let (lo, hi): (u32, u32) = match best {
        Some(pair) => pair,
        None => (0, 0),
    };
    let mut out: DepthField = Vec::new();
    let mut y: usize = 0;
    while y < field.len()
        invariant
            y <= field@.len(),
            f == grid(*field),
            best is None ==> !has_distance(f),
            best is Some ==> is_field_min(f, lo as int) && is_field_max(f, hi as int) && lo
                == field_min(f) && hi == field_max(f),
            out@.len() == y,
            forall|j: int| 0 <= j < y ==> (#[trigger] out@[j])@ == normalized(f, ceiling as int)[j],
        decreases field@.len() - y,
    {
        let mut row: Vec<Option<u32>> = Vec::new();
        let mut x: usize = 0;
        while x < field[y].len()
            invariant
                y < field@.len(),
                x <= field@[y as int]@.len(),
                f == grid(*field),
                best is None ==> !has_distance(f),
                best is Some ==> is_field_min(f, lo as int) && is_field_max(f, hi as int) && lo
                    == field_min(f) && hi == field_max(f),
                row@.len() == x,
                forall|i: int|
                    0 <= i < x ==> #[trigger] row@[i] == normalized_cell(
                        f[y as int][i],
                        field_min(f),
                        field_max(f),
                        ceiling as int,
                    ),
            decreases field@[y as int]@.len() - x,
        {
            let cell: Option<u32> = match field[y][x] {
                Some(v) => {
                    proof {
                        assert(in_field(f, x as int, y as int) && f[y as int][x as int] is Some);
                    }
                    Some(scale(v, lo, hi, ceiling))
                },
                None => None,
            };
            row.push(cell);
            x = x + 1;
        }
        assert(row@ =~= normalized(f, ceiling as int)[y as int]);
        out.push(row);
        y = y + 1;
    }
    assert(grid(out) =~= normalized(f, ceiling as int));
    proof {
        let n = normalized(f, ceiling as int);
        assert forall|x: int, y: int| in_field(n, x, y) && (#[trigger] n[y][x]) is Some implies n[y][x].unwrap()
            <= ceiling by {
            assert(in_field(f, x, y) && f[y][x] is Some);
            scaled_in_range(
                f[y][x].unwrap() as int,
                field_min(f),
                field_max(f),
                ceiling as int,
            );
        }
    }
    out
}

/// The field with every distance `v` replaced by `ceiling - v`.
pub open spec fn inverted(f: Seq<Seq<Option<u32>>>, ceiling: int) -> Seq<Seq<Option<u32>>> {
    Seq::new(
        f.len(),
        |y: int|
            Seq::new(
                f[y].len(),
                |x: int|
                    match f[y][x] {
                        Some(v) => Some((ceiling - v) as u32),
                        None => None,
                    },
            ),
    )
}

/// Inverting twice gives the field back.
pub proof fn invert_is_self_inverse(f: Seq<Seq<Option<u32>>>, ceiling: u32)
    requires
        bounded(f, ceiling as int),
    ensures
        bounded(inverted(f, ceiling as int), ceiling as int),
        inverted(inverted(f, ceiling as int), ceiling as int) == f,
{
    let g = inverted(f, ceiling as int);
    let h = inverted(g, ceiling as int);
    assert forall|y: int| 0 <= y < f.len() implies #[trigger] h[y] == f[y] by {
        assert forall|x: int| 0 <= x < f[y].len() implies h[y][x] == f[y][x] by {
            assert(in_field(f, x, y));
            if f[y][x] is Some {
                assert(f[y][x].unwrap() <= ceiling);
            }
        }
        assert(h[y] =~= f[y]);
    }
    assert(h =~= f);
    assert forall|x: int, y: int| in_field(g, x, y) && (#[trigger] g[y][x]) is Some implies g[y][x].unwrap()
        <= ceiling by {
        assert(in_field(f, x, y));
        assert(f[y][x] is Some);
    }
}

/// Inverting. Every distance `v` becomes `ceiling - v`; unresolved cells
/// stay unresolved. No distance of the field may be above `ceiling`.
pub fn invert(field: &DepthField, ceiling: u32) -> (out: DepthField)
    requires
        bounded(grid(*field), ceiling as int),
    ensures
        grid(out) == inverted(grid(*field), ceiling as int),
        same_shape(grid(out), grid(*field)),
        bounded(grid(out), ceiling as int),
{
    let ghost f = grid(*field);
    let mut out: DepthField = Vec::new();
    let mut y: usize = 0;
    while y < field.len()
        invariant
            y <= field@.len(),
            f == grid(*field),
            bounded(f, ceiling as int),
            out@.len() == y,
            forall|j: int| 0 <= j < y ==> (#[trigger] out@[j])@ == inverted(f, ceiling as int)[j],
        decreases field@.len() - y,
    {
        let mut row: Vec<Option<u32>> = Vec::new();
        let mut x: usize = 0;
        while x < field[y].len()
            invariant
                y < field@.len(),
                x <= field@[y as int]@.len(),
                f == grid(*field),
                bounded(f, ceiling as int),
                row@.len() == x,
                forall|i: int|
                    0 <= i < x ==> #[trigger] row@[i] == inverted(f, ceiling as int)[y as int][i],
            decreases field@[y as int]@.len() - x,
        {
            let cell: Option<u32> = match field[y][x] {
                Some(v) => {
                    proof {
                        assert(in_field(f, x as int, y as int) && f[y as int][x as int] is Some);
                    }
                    Some(ceiling - v)
                },
                None => None,
            };
            row.push(cell);
            x = x + 1;
        }
        assert(row@ =~= inverted(f, ceiling as int)[y as int]);
        out.push(row);
        y = y + 1;
    }
    assert(grid(out) =~= inverted(f, ceiling as int));
    proof {
        invert_is_self_inverse(f, ceiling);
    }
    out
}

/// The distances of a field without gaps.
pub open spec fn distances(f: Seq<Seq<Option<u32>>>) -> Seq<Seq<u32>> {
    Seq::new(f.len(), |y: int| Seq::new(f[y].len(), |x: int| f[y][x].unwrap()))
}

/// The field as a raster of plain distances: `Some` where every cell is
/// resolved, `None` where a gap is left.
pub fn resolve(field: &DepthField) -> (out: Option<Vec<Vec<u32>>>)
    ensures
        out is Some <==> fully_resolved(grid(*field)),
        out matches Some(r) ==> grid(r) == distances(grid(*field)),
{
    let ghost f = grid(*field);
    let mut out: Vec<Vec<u32>> = Vec::new();
    let mut y: usize = 0;
    while y < field.len()
        invariant
            y <= field@.len(),
            f == grid(*field),
            out@.len() == y,
            forall|x: int, j: int| in_field(f, x, j) && j < y ==> (#[trigger] f[j][x]) is Some,
            forall|j: int| 0 <= j < y ==> (#[trigger] out@[j])@ == distances(f)[j],
        decreases field@.len() - y,
    {
        let mut row: Vec<u32> = Vec::new();
        let mut x: usize = 0;
        while x < field[y].len()
            invariant
                y < field@.len(),
                x <= field@[y as int]@.len(),
                f == grid(*field),
                row@.len() == x,
                forall|i: int| 0 <= i < x ==> (#[trigger] f[y as int][i]) is Some,
                forall|i: int| 0 <= i < x ==> #[trigger] row@[i] == f[y as int][i].unwrap(),
            decreases field@[y as int]@.len() - x,
        {
            match field[y][x] {
                Some(v) => {
                    row.push(v);
                },
                None => {
                    proof {
                        assert(in_field(f, x as int, y as int));
                        assert(f[y as int][x as int] is None);
                    }
                    return None;
                },
            }
            x = x + 1;
        }
        assert(row@ =~= distances(f)[y as int]);
        out.push(row);
        y = y + 1;
    }
    assert(grid(out) =~= distances(f));
    Some(out)
}

} // verus!
