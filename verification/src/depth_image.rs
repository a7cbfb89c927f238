//! A picture with a depth map of eight bits, and what is read from the
//! map: zones of depth and the masks that select them.

use vstd::prelude::*;
use crate::builder::build;
use crate::builder::built;
use crate::builder::Tile;
use crate::geometry::Dimensions;
use crate::mask_image::ImageError;
use crate::mask_image::MaskImage;
use crate::mask_image::MASK_FALSE;
use crate::mask_image::MASK_TRUE;
use crate::pixels::complement;
use crate::pixels::complemented;
use crate::pixels::copy_rows;
use crate::pixels::filled;
use crate::pixels::flatten;
use crate::pixels::grid;
use crate::pixels::is_rect;
use crate::pixels::joined;
use crate::pixels::rgba_rows;
use crate::pixels::rows;
use crate::pixels::table;
use crate::pixels::to_rgba_rows;
use crate::pixels::to_rows;
use crate::pixels::uniform;
use crate::postprocess::bounded;
use crate::postprocess::fully_resolved;
use crate::postprocess::gap_fill;
use crate::postprocess::gap_filled;
use crate::postprocess::in_field;
use crate::postprocess::normalize;
use crate::postprocess::normalized;
use crate::postprocess::resolve;
use crate::postprocess::DepthField;
use crate::segment::final_centroids;
use crate::segment::is_zone_of;
use crate::segment::split;
use crate::segment::Zone;

verus! {

/// The greatest depth that a depth map of eight bits holds.
pub const DEPTH_MAX: u32 = 255;

/// A picture of red, green, blue and alpha with a depth for every pixel.
#[derive(Clone, Debug)]
pub struct DepthImage {
    size: Dimensions,
    image: Vec<Vec<[u8; 4]>>,
    depth: Vec<Vec<u8>>,
}

/// The least depth that a slice from `from` takes in.
pub open spec fn lower_bound(from: Option<u8>) -> u8 {
    match from {
        Some(v) => v,
        None => 0,
    }
}

/// The greatest depth that a slice up to `to` takes in.
pub open spec fn upper_bound(to: Option<u8>) -> u8 {
    match to {
        Some(v) => v,
        None => 255,
    }
}

/// The mask that selects the cells whose depth lies in `from ..= to`; an
/// end that is `None` is open.
pub open spec fn sliced(
    depth: Seq<Seq<u8>>,
    size: Dimensions,
    from: Option<u8>,
    to: Option<u8>,
) -> Seq<Seq<u8>> {
    table(
        size,
        |x: int, y: int|
            if lower_bound(from) <= depth[y][x] <= upper_bound(to) {
                MASK_TRUE
            } else {
                MASK_FALSE
            },
    )
}

/// The depth field that a tiling of the picture gives: built from the
/// tiles, gap-filled, and normalised to `0 ..= 255`.
pub open spec fn depth_of_tiles(
    tiles: Seq<Tile<[u8; 3]>>,
    size: Dimensions,
    target: Seq<Seq<[u8; 3]>>,
    max_radius: int,
    precision: [u8; 3],
) -> Seq<Seq<Option<u32>>> {
    normalized(gap_filled(built(tiles, size, target, max_radius, precision)), DEPTH_MAX as int)
}

/// The depth map that a depth field gives: the field gap-filled and
/// normalised to `0 ..= 255`, every distance as a depth of eight bits.
pub open spec fn quantized(field: Seq<Seq<Option<u32>>>, size: Dimensions) -> Seq<Seq<u8>> {
    table(
        size,
        |x: int, y: int| normalized(gap_filled(field), DEPTH_MAX as int)[y][x].unwrap() as u8,
    )
}

/// Whether a depth field can become the depth map of a picture of size
/// `size`: it has to have that size, and gap filling has to leave no gap.
pub open spec fn verdict(field: Seq<Seq<Option<u32>>>, size: Dimensions) -> Result<(), ImageError> {
    if !is_rect(field, size.width as int, size.height as int) {
        Err(ImageError::SizeMismatch)
    } else if !fully_resolved(normalized(gap_filled(field), DEPTH_MAX as int)) {
        Err(ImageError::Unresolved)
    } else {
        Ok(())
    }
}

/// Whether a raster has `size.height` rows of `size.width` cells.
fn has_size(field: &DepthField, size: Dimensions) -> (r: bool)
    ensures
        r == is_rect(grid(*field), size.width as int, size.height as int),
{
    if field.len() != size.height as usize {
        return false;
    }
    let mut y: usize = 0;
    while y < field.len()
        invariant
            y <= field@.len(),
            field@.len() == size.height,
            forall|j: int| 0 <= j < y ==> (#[trigger] grid(*field)[j]).len() == size.width,
        decreases field@.len() - y,
    {
        if field[y].len() != size.width as usize {
            assert(grid(*field)[y as int].len() != size.width);
            return false;
        }
        y = y + 1;
    }
    true
}

impl Default for DepthImage {
    /// The picture without pixels.
    fn default() -> (d: Self)
        ensures
            d.wf(),
            d.extent() == (Dimensions { height: 0, width: 0 }),
            d.picture() == Seq::<Seq<[u8; 4]>>::empty(),
            d.depth_map() == Seq::<Seq<u8>>::empty(),
    {
        let d = DepthImage {
            size: Dimensions { height: 0, width: 0 },
            image: Vec::new(),
            depth: Vec::new(),
        };
        assert(grid(d.image) =~= Seq::<Seq<[u8; 4]>>::empty());
        assert(grid(d.depth) =~= Seq::<Seq<u8>>::empty());
        d
    }
}

impl DepthImage {
    /// The picture, as rows of pixels.
    pub closed spec fn picture(&self) -> Seq<Seq<[u8; 4]>> {
        grid(self.image)
    }

    /// The depth map, as rows of depths.
    pub closed spec fn depth_map(&self) -> Seq<Seq<u8>> {
        grid(self.depth)
    }

    /// The size of the picture and of the depth map.
    pub closed spec fn extent(&self) -> Dimensions {
        self.size
    }

    /// The picture and the depth map both have the size `extent`.
    pub open spec fn wf(&self) -> bool {
        &&& is_rect(self.picture(), self.extent().width as int, self.extent().height as int)
        &&& is_rect(self.depth_map(), self.extent().width as int, self.extent().height as int)
    }

    /// A picture from its samples, four for each pixel, with a depth of
    /// zero everywhere.
    pub fn from_image(width: u32, height: u32, samples: &Vec<u8>) -> (d: Self)
        requires
            samples@.len() == 4 * (width * height),
        ensures
            d.wf(),
            d.extent() == (Dimensions { height, width }),
            d.picture() == rgba_rows(samples@, width as int, height as int),
            d.depth_map() == uniform(width as int, height as int, 0u8),
    {
        DepthImage {
            size: Dimensions { height, width },
            image: to_rgba_rows(samples, width, height),
            depth: filled(width, height, 0u8),
        }
    }

    pub fn image(&self) -> (r: &Vec<Vec<[u8; 4]>>)
        ensures
            grid(*r) == self.picture(),
    {
        &self.image
    }

    pub fn depth(&self) -> (r: &Vec<Vec<u8>>)
        ensures
            grid(*r) == self.depth_map(),
    {
        &self.depth
    }

    pub fn width(&self) -> (w: u32)
        ensures
            w == self.extent().width,
    {
        self.size.width
    }

    pub fn height(&self) -> (h: u32)
        ensures
            h == self.extent().height,
    {
        self.size.height
    }

    pub fn dimensions(&self) -> (d: Dimensions)
        ensures
            d == self.extent(),
    {
        Dimensions { width: self.width(), height: self.height() }
    }

    /// Takes a depth map given by its samples, if it has the size of the
    /// picture. A map of another size is refused and nothing changes.
    pub fn load_depth(&mut self, samples: &Vec<u8>, width: u32, height: u32) -> (res: Result<
        (),
        ImageError,
    >)
        requires
            old(self).wf(),
            samples@.len() == width * height,
        ensures
            final(self).wf(),
            final(self).extent() == old(self).extent(),
            final(self).picture() == old(self).picture(),
            res is Ok <==> (width == old(self).extent().width && height == old(self).extent().height),
            res is Ok ==> final(self).depth_map() == rows(samples@, width as int, height as int),
            res is Err ==> res == Err::<(), ImageError>(ImageError::SizeMismatch) && final(self).depth_map() == old(self).depth_map(),
    {
        if width == self.size.width && height == self.size.height {
            self.depth = to_rows(samples, width, height);
            Ok(())
        } else {
            Err(ImageError::SizeMismatch)
        }
    }

    /// Takes a depth field as the depth map: the field is gap-filled and
    /// normalised to `0 ..= 255`. A field of another size than the picture
    /// is refused, and so is one that gap filling leaves with gaps; then
    /// nothing changes.
    pub fn load_depth_field(&mut self, field: &DepthField) -> (res: Result<(), ImageError>)
        requires
            old(self).wf(),
        ensures
            final(self).wf(),
            final(self).extent() == old(self).extent(),
            final(self).picture() == old(self).picture(),
            res == verdict(grid(*field), old(self).extent()),
            res is Ok ==> final(self).depth_map() == quantized(grid(*field), old(self).extent()),
            res is Err ==> final(self).depth_map() == old(self).depth_map(),
    {
        if !has_size(field, self.size) {
            return Err(ImageError::SizeMismatch);
        }
        let whole = gap_fill(field);
        let spread = normalize(&whole, DEPTH_MAX);
        let ghost f = grid(spread);
        assert(is_rect(f, self.size.width as int, self.size.height as int)) by {
            assert forall|y: int| 0 <= y < self.size.height implies (#[trigger] f[y]).len()
                == self.size.width by {
                assert(grid(whole)[y].len() == grid(*field)[y].len());
            }
        }
        match resolve(&spread) {
            None => Err(ImageError::Unresolved),
            Some(plain) => {
                let ghost wanted = table(self.size, |x: int, y: int| f[y][x].unwrap() as u8);
                let mut out: Vec<Vec<u8>> = Vec::new();
                let mut y: usize = 0;
                while y < plain.len()
                    invariant
                        y <= plain@.len(),
                        is_rect(grid(plain), self.size.width as int, self.size.height as int),
                        is_rect(f, self.size.width as int, self.size.height as int),
                        fully_resolved(f),
                        bounded(f, DEPTH_MAX as int),
                        forall|x: int, y: int|
                            in_field(f, x, y) ==> #[trigger] grid(plain)[y][x] == f[y][x].unwrap(),
                        wanted == table(self.size, |x: int, y: int| f[y][x].unwrap() as u8),
                        out@.len() == y,
                        forall|j: int| 0 <= j < y ==> (#[trigger] out@[j])@ == wanted[j],
                    decreases plain@.len() - y,
                {
                    let mut row: Vec<u8> = Vec::new();
                    let mut x: usize = 0;
                    assert(grid(plain)[y as int].len() == self.size.width);
                    assert(f[y as int].len() == self.size.width);
                    while x < plain[y].len()
                        invariant
                            y < plain@.len(),
                            x <= plain@[y as int]@.len(),
                            plain@[y as int]@.len() == self.size.width,
                            f.len() == plain@.len(),
                            f[y as int].len() == self.size.width,
                            fully_resolved(f),
                            bounded(f, DEPTH_MAX as int),
                            forall|x: int, y: int|
                                in_field(f, x, y) ==> #[trigger] grid(plain)[y][x]
                                    == f[y][x].unwrap(),
                            row@.len() == x,
                            forall|i: int|
                                0 <= i < x ==> #[trigger] row@[i] == f[y as int][i].unwrap() as u8,
                        decreases plain@[y as int]@.len() - x,
                    {
                        let d: u32 = plain[y][x];
                        proof {
                            assert(in_field(f, x as int, y as int));
                            assert(grid(plain)[y as int][x as int] == f[y as int][x as int].unwrap());
                            assert(f[y as int][x as int] is Some);
                        }
                        row.push(d as u8);
                        x = x + 1;
                    }
                    assert(row@ =~= wanted[y as int]);
                    out.push(row);
                    y = y + 1;
                }
                assert(grid(out) =~= wanted);
                self.depth = out;
                Ok(())
            },
        }
    }

    /// Computes the depth map from a tiling of the picture and the
    /// additional picture `target`: the depth field of the tiles is built
    /// with `max_radius` rings to each search, gap-filled and normalised
    /// to `0 ..= 255`. Where the field is then without gaps it becomes
    /// the depth map; else nothing changes.
    pub fn load_depth_from_additional(
        &mut self,
        tiles: &Vec<Tile<[u8; 3]>>,
        target: &Vec<Vec<[u8; 3]>>,
        max_radius: u32,
        precision: [u8; 3],
    ) -> (res: Result<(), ImageError>)
        requires
            old(self).wf(),
        ensures
            final(self).wf(),
            final(self).extent() == old(self).extent(),
            final(self).picture() == old(self).picture(),
            res is Ok <==> fully_resolved(
                depth_of_tiles(tiles@, old(self).extent(), grid(*target), max_radius as int, precision),
            ),
            res is Ok ==> final(self).depth_map() == quantized(
                built(tiles@, old(self).extent(), grid(*target), max_radius as int, precision),
                old(self).extent(),
            ),
            res is Err ==> res == Err::<(), ImageError>(ImageError::Unresolved) && final(self).depth_map() == old(self).depth_map(),
    {
        let field = build(tiles, self.size, target, max_radius, precision);
        self.load_depth_field(&field)
    }

    /// The zones of depth of the picture: `split` on the depths of the
    /// map, row after row.
    pub fn depth_split(&self, zones: u8) -> (res: Vec<Zone>)
        ensures
            zones < 2 ==> res@ == seq![(None::<u8>, None::<u8>)],
            zones >= 2 ==> res@.len() == zones,
            zones >= 2 ==> forall|k: int|
                0 <= k < zones ==> is_zone_of(
                    #[trigger] res@[k],
                    joined(self.depth_map()),
                    final_centroids(joined(self.depth_map()), zones as int),
                    k,
                ),
    {
        let samples: Vec<u8> = flatten(&self.depth);
        split(&samples, zones)
    }

    /// Replaces every depth `d` of the map by `255 - d`.
    pub fn invert_depth(&mut self)
        requires
            old(self).wf(),
        ensures
            final(self).wf(),
            final(self).extent() == old(self).extent(),
            final(self).picture() == old(self).picture(),
            final(self).depth_map() == complement(old(self).depth_map()),
    {
        self.depth = complemented(&self.depth);
    }

    /// The picture with a mask that selects the pixels whose depth lies
    /// in `from ..= to`. An end that is `None` is open: `from` then stands
    /// for 0 and `to` for 255.
    pub fn slice(&mut self, from: Option<u8>, to: Option<u8>) -> (m: MaskImage)
        requires
            old(self).wf(),
        ensures
            *final(self) == *old(self),
            m.wf(),
            m.extent() == old(self).extent(),
            m.picture() == old(self).picture(),
            m.selection() == sliced(old(self).depth_map(), old(self).extent(), from, to),
    {
        let from_parsed: u8 = match from {
            Some(v) => v,
            None => 0,
        };
        let to_parsed: u8 = match to {
            Some(v) => v,
            None => 255,
        };
        let ghost wanted = sliced(grid(self.depth), self.size, from, to);
        let mut mask: Vec<Vec<u8>> = Vec::new();
        let mut y: usize = 0;
        while y < self.depth.len()
            invariant
                y <= self.depth@.len(),
                from_parsed == lower_bound(from),
                to_parsed == upper_bound(to),
                is_rect(grid(self.depth), self.size.width as int, self.size.height as int),
                wanted == sliced(grid(self.depth), self.size, from, to),
                mask@.len() == y,
                forall|j: int| 0 <= j < y ==> (#[trigger] mask@[j])@ == wanted[j],
            decreases self.depth@.len() - y,
        {
            let mut row: Vec<u8> = Vec::new();
            let mut x: usize = 0;
            assert(grid(self.depth)[y as int].len() == self.size.width);
            while x < self.depth[y].len()
                invariant
                    y < self.depth@.len(),
                    x <= self.depth@[y as int]@.len(),
                    from_parsed == lower_bound(from),
                    to_parsed == upper_bound(to),
                    row@.len() == x,
                    forall|i: int|
                        0 <= i < x ==> #[trigger] row@[i] == if lower_bound(from)
                            <= self.depth@[y as int]@[i] <= upper_bound(to) {
                            MASK_TRUE
                        } else {
                            MASK_FALSE
                        },
                decreases self.depth@[y as int]@.len() - x,
            {
                let depth_value: u8 = self.depth[y][x];
                let v: u8 = if depth_value < from_parsed || depth_value > to_parsed {
                    MASK_FALSE
                } else {
                    MASK_TRUE
                };
                row.push(v);
                x = x + 1;
            }
            assert(row@ =~= wanted[y as int]);
            mask.push(row);
            y = y + 1;
        }
        assert(grid(mask) =~= wanted);
        MaskImage::from_rows(self.size, copy_rows(&self.image), mask)
    }

    /// The picture with a mask that selects the foreground: the first of
    /// two zones of depth.
    pub fn select_foreground(&mut self) -> (m: MaskImage)
        requires
            old(self).wf(),
        ensures
            *final(self) == *old(self),
            m.wf(),
            m.extent() == old(self).extent(),
            m.picture() == old(self).picture(),
            exists|z: Zone|
                is_zone_of(
                    z,
                    joined(old(self).depth_map()),
                    final_centroids(joined(old(self).depth_map()), 2),
                    0,
                ) && #[trigger] sliced(old(self).depth_map(), old(self).extent(), z.0, z.1)
                    == m.selection(),
    {
        let zones: Vec<Zone> = self.depth_split(2);
        let (from, to): Zone = zones[0];
        self.slice(from, to)
    }
}

} // verus!
