//! The depth field of a tiled picture: one search for each tile, its
//! distance spread over the cells that the tile covers.

use vstd::prelude::*;
use crate::geometry::Dimensions;
use crate::geometry::Position;
use crate::helpers::distance_dot_array;
use crate::helpers::relative_pos;
use crate::helpers::relative_position;
use crate::helpers::search_outcome;
use crate::pixels::grid;
use crate::pixels::Pixel;
use crate::postprocess::DepthField;

verus! {

/// A rectangle of the main picture with the one value that stands for
/// every pixel in it.
#[derive(Debug)]
pub struct Tile<V> {
    pub position: Position,
    pub size: Dimensions,
    pub value: V,
}

/// The tile covers the cell `(x, y)`.
pub open spec fn covers<V>(t: Tile<V>, x: int, y: int) -> bool {
    &&& t.position.x <= x < t.position.x + t.size.width
    &&& t.position.y <= y < t.position.y + t.size.height
}

/// No cell is covered by two of the tiles.
pub open spec fn disjoint<V>(tiles: Seq<Tile<V>>) -> bool {
    forall|i: int, j: int, x: int, y: int|
        0 <= i < tiles.len() && 0 <= j < tiles.len() && i != j && #[trigger] covers(tiles[i], x, y)
            ==> !#[trigger] covers(tiles[j], x, y)
}

/// A length as a `u32`, held at `u32::MAX`.
pub open spec fn clipped(n: nat) -> u32 {
    if n > u32::MAX {
        u32::MAX
    } else {
        n as u32
    }
}

/// The size of a raster: the number of its rows and the length of its
/// first row.
pub open spec fn raster_size<T>(g: Seq<Seq<T>>) -> Dimensions {
    Dimensions {
        height: clipped(g.len()),
        width: if g.len() == 0 {
            0
        } else {
            clipped(g[0].len())
        },
    }
}

/// Where the search for a tile starts: its top-left corner carried into
/// the target raster.
pub open spec fn guess<V>(t: Tile<V>, main_size: Dimensions, target: Seq<Seq<V>>) -> Position {
    relative_position(t.position, main_size, raster_size(target))
}

/// The distance that the search finds for a tile, or `None`.
pub open spec fn tile_depth<V: Pixel>(
    t: Tile<V>,
    main_size: Dimensions,
    target: Seq<Seq<V>>,
    max_radius: int,
    precision: V,
) -> Option<u32> {
    match search_outcome(target, t.value, precision, guess(t, main_size, target), max_radius) {
        Some((d, _)) => Some(d),
        None => None,
    }
}

/// The last of the first `n` tiles that covers `(x, y)`, if one does.
pub open spec fn writer<V>(tiles: Seq<Tile<V>>, x: int, y: int, n: int) -> Option<int>
    decreases n,
{
    if n <= 0 {
        None
    } else if covers(tiles[n - 1], x, y) {
        Some(n - 1)
    } else {
        writer(tiles, x, y, n - 1)
    }
}

/// What the cell `(x, y)` holds once the first `n` tiles are written.
pub open spec fn written(depths: Seq<Option<u32>>, w: Option<int>) -> Option<u32> {
    match w {
        Some(k) => depths[k],
        None => None,
    }
}

/// The distances of the tiles, in their order.
pub open spec fn tile_depths<V: Pixel>(
    tiles: Seq<Tile<V>>,
    main_size: Dimensions,
    target: Seq<Seq<V>>,
    max_radius: int,
    precision: V,
) -> Seq<Option<u32>> {
    Seq::new(tiles.len(), |k: int| tile_depth(tiles[k], main_size, target, max_radius, precision))
}

/// The field of the main picture's size in which every cell holds the
/// distance of the last tile that covers it, `depths` giving the distance
/// of each tile; `None` where no tile covers the cell.
pub open spec fn spread<V>(
    tiles: Seq<Tile<V>>,
    depths: Seq<Option<u32>>,
    main_size: Dimensions,
) -> Seq<Seq<Option<u32>>> {
    Seq::new(
        main_size.height as nat,
        |y: int|
            Seq::new(
                main_size.width as nat,
                |x: int| written(depths, writer(tiles, x, y, tiles.len() as int)),
            ),
    )
}

/// The depth field of the tiles: a field of the main picture's size in
/// which every cell holds what the search found for the tile that covers
/// it, and `None` where no tile covers it or its tile found nothing.
pub open spec fn built<V: Pixel>(
    tiles: Seq<Tile<V>>,
    main_size: Dimensions,
    target: Seq<Seq<V>>,
    max_radius: int,
    precision: V,
) -> Seq<Seq<Option<u32>>> {
    spread(tiles, tile_depths(tiles, main_size, target, max_radius, precision), main_size)
}

proof fn writer_of_disjoint<V>(tiles: Seq<Tile<V>>, x: int, y: int, k: int, n: int)
    requires
        disjoint(tiles),
        0 <= k < n <= tiles.len(),
        covers(tiles[k], x, y),
    ensures
        writer(tiles, x, y, n) == Some(k),
    decreases n,
{
    if n - 1 > k {
        assert(!covers(tiles[n - 1], x, y));
        writer_of_disjoint(tiles, x, y, k, n - 1);
    }
}

proof fn writer_of_none<V>(tiles: Seq<Tile<V>>, x: int, y: int, n: int)
    requires
        0 <= n <= tiles.len(),
        forall|k: int| 0 <= k < tiles.len() ==> !covers(#[trigger] tiles[k], x, y),
    ensures
        writer(tiles, x, y, n) is None,
    decreases n,
{
    if n > 0 {
        writer_of_none(tiles, x, y, n - 1);
    }
}

/// Tiles that do not overlap part the field between them: a cell that
/// tile `k` covers is covered by no other tile and holds what the search
/// found for tile `k`.
pub proof fn build_partitions<V: Pixel>(
    tiles: Seq<Tile<V>>,
    main_size: Dimensions,
    target: Seq<Seq<V>>,
    max_radius: int,
    precision: V,
    k: int,
    x: int,
    y: int,
)
    requires
        disjoint(tiles),
        0 <= k < tiles.len(),
        covers(tiles[k], x, y),
        0 <= x < main_size.width,
        0 <= y < main_size.height,
    ensures
        forall|j: int| 0 <= j < tiles.len() && j != k ==> !covers(#[trigger] tiles[j], x, y),
        built(tiles, main_size, target, max_radius, precision)[y][x] == tile_depth(
            tiles[k],
            main_size,
            target,
            max_radius,
            precision,
        ),
{
    writer_of_disjoint(tiles, x, y, k, tiles.len() as int);
}

/// A cell that no tile covers stays unresolved.
pub proof fn build_leaves_uncovered<V: Pixel>(
    tiles: Seq<Tile<V>>,
    main_size: Dimensions,
    target: Seq<Seq<V>>,
    max_radius: int,
    precision: V,
    x: int,
    y: int,
)
    requires
        forall|k: int| 0 <= k < tiles.len() ==> !covers(#[trigger] tiles[k], x, y),
        0 <= x < main_size.width,
        0 <= y < main_size.height,
    ensures
        built(tiles, main_size, target, max_radius, precision)[y][x] is None,
{
    writer_of_none(tiles, x, y, tiles.len() as int);
}

fn clip(n: usize) -> (r: u32)
    ensures
        r == clipped(n as nat),
{
    if n > u32::MAX as usize {
        u32::MAX
    } else {
        n as u32
    }
}

/// The size of a raster given as rows.
pub fn size_of<T>(rows: &Vec<Vec<T>>) -> (d: Dimensions)
    ensures
        d == raster_size(grid(*rows)),
{
    let width: u32 = if rows.len() == 0 {
        0
    } else {
        clip(rows[0].len())
    };
    Dimensions { height: clip(rows.len()), width }
}

/// The search for one tile: starts at the tile's top-left corner carried
/// into the target raster, and looks for the tile's value.
pub fn tile_distance<V: Pixel + Copy>(
    tile: &Tile<V>,
    main_size: Dimensions,
    target: &Vec<Vec<V>>,
    max_radius: u32,
    precision: V,
) -> (d: Option<u32>)
    ensures
        d == tile_depth(*tile, main_size, grid(*target), max_radius as int, precision),
{
    let from: Position = relative_pos(tile.position, main_size, size_of(target));
    match distance_dot_array(&tile.value, target, from, max_radius, precision) {
        Some((d, _)) => Some(d),
        None => None,
    }
}

/// Writes `d` into the cells `x0 .. x1` of a row.
fn paint(row: &mut Vec<Option<u32>>, x0: usize, x1: usize, d: Option<u32>)
    requires
        x1 <= old(row)@.len(),
    ensures
        final(row)@.len() == old(row)@.len(),
        forall|x: int|
            0 <= x < old(row)@.len() ==> #[trigger] final(row)@[x] == if x0 <= x < x1 {
                d
            } else {
                old(row)@[x]
            },
{
    let mut x: usize = x0;
    while x < x1
        invariant
            x0 <= x,
            x1 <= row@.len(),
            row@.len() == old(row)@.len(),
            forall|i: int|
                0 <= i < row@.len() ==> #[trigger] row@[i] == if x0 <= i < x && i < x1 {
                    d
                } else {
                    old(row)@[i]
                },
        decreases x1 - x,
    {
        row.set(x, d);
        x = x + 1;
    }
}

/// One row of the field: what the tiles with the given distances write
/// into row `y`, the later tile over the earlier.
fn build_row<V>(tiles: &Vec<Tile<V>>, depths: &Vec<Option<u32>>, width: u32, y: u32) -> (row: Vec<
    Option<u32>,
>)
    requires
        depths@.len() == tiles@.len(),
    ensures
        row@.len() == width,
        forall|x: int|
            0 <= x < width ==> #[trigger] row@[x] == written(
                depths@,
                writer(tiles@, x, y as int, tiles@.len() as int),
            ),
{
    let mut row: Vec<Option<u32>> = Vec::new();
    let mut x: u32 = 0;
    while x < width
        invariant
            x <= width,
            row@.len() == x,
            forall|i: int| 0 <= i < x ==> (#[trigger] row@[i]) is None,
        decreases width - x,
    {
        row.push(None);
        x = x + 1;
    }
    let mut n: usize = 0;
    while n < tiles.len()
        invariant
            n <= tiles@.len(),
            depths@.len() == tiles@.len(),
            row@.len() == width,
            forall|i: int|
                0 <= i < width ==> #[trigger] row@[i] == written(
                    depths@,
                    writer(tiles@, i, y as int, n as int),
                ),
        decreases tiles@.len() - n,
    {
        let top: u64 = tiles[n].position.y as u64;
        let bottom: u64 = top + tiles[n].size.height as u64;
        if top <= y as u64 && (y as u64) < bottom {
            let left: u64 = tiles[n].position.x as u64;
            let right: u64 = left + tiles[n].size.width as u64;
            let x0: usize = if left > width as u64 {
                width as usize
            } else {
                left as usize
            };
            let x1: usize = if right > width as u64 {
                width as usize
            } else {
                right as usize
            };
            paint(&mut row, x0, x1, depths[n]);
        }
        n = n + 1;
    }
    row
}

/// Spreads the distances of the tiles over a field of the main picture's
/// size: every cell takes the distance of the tile that covers it, of the
/// later tile where tiles overlap, and stays `None` where none does.
pub fn spread_depths<V>(tiles: &Vec<Tile<V>>, depths: &Vec<Option<u32>>, main_size: Dimensions) -> (out:
    DepthField)
    requires
        depths@.len() == tiles@.len(),
    ensures
        grid(out) == spread(tiles@, depths@, main_size),
{
    let mut out: DepthField = Vec::new();
    let mut y: u32 = 0;
    while y < main_size.height
        invariant
            y <= main_size.height,
            depths@.len() == tiles@.len(),
            out@.len() == y,
            forall|j: int|
                0 <= j < y ==> (#[trigger] out@[j])@ == spread(tiles@, depths@, main_size)[j],
        decreases main_size.height - y,
    {
        let row: Vec<Option<u32>> = build_row(tiles, depths, main_size.width, y);
        assert(row@ =~= spread(tiles@, depths@, main_size)[y as int]);
        out.push(row);
        y = y + 1;
    }
    assert(grid(out) =~= spread(tiles@, depths@, main_size));
    out
}

/// Builds the depth field of a tiled picture. For every tile the ring
/// search is run once, from the tile's top-left corner carried into the
/// target raster and with the tile's value as the probe; what it finds is
/// written into every cell of the field that the tile covers. Cells of a
/// tile whose search fails, and cells that no tile covers, stay `None`.
/// Where tiles overlap, the later tile decides.
pub fn build<V: Pixel + Copy>(
    tiles: &Vec<Tile<V>>,
    main_size: Dimensions,
    target: &Vec<Vec<V>>,
    max_radius: u32,
    precision: V,
) -> (out: DepthField)
    ensures
        grid(out) == built(tiles@, main_size, grid(*target), max_radius as int, precision),
{
    let ghost wanted = tile_depths(tiles@, main_size, grid(*target), max_radius as int, precision);
    let mut depths: Vec<Option<u32>> = Vec::new();
    let mut n: usize = 0;
    while n < tiles.len()
        invariant
            n <= tiles@.len(),
            depths@.len() == n,
            wanted == tile_depths(tiles@, main_size, grid(*target), max_radius as int, precision),
            forall|k: int| 0 <= k < n ==> #[trigger] depths@[k] == wanted[k],
        decreases tiles@.len() - n,
    {
        depths.push(tile_distance(&tiles[n], main_size, target, max_radius, precision));
        n = n + 1;
    }
    assert(depths@ =~= wanted);
    spread_depths(tiles, &depths, main_size)
}

} // verus!
