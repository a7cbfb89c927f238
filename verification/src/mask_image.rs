//! A picture with a mask that says which of its pixels an edit may touch.

use vstd::prelude::*;
use crate::geometry::Dimensions;
use crate::geometry::Position;
use crate::pixels::all_cells;
use crate::pixels::cell_index_in_range;
use crate::pixels::complement;
use crate::pixels::complemented;
use crate::pixels::copy_rows;
use crate::pixels::filled;
use crate::pixels::flatten;
use crate::pixels::grid;
use crate::pixels::is_rect;
use crate::pixels::joined_of_all_cells;
use crate::pixels::joined_of_rect;
use crate::pixels::rgba_rows;
use crate::pixels::rows;
use crate::pixels::to_rgba_rows;
use crate::pixels::table;
use crate::pixels::to_rows;
use crate::pixels::uniform;
use crate::raster::all_zero;
use crate::raster::can_resample;
use crate::raster::resamplable;
use crate::raster::resize_luma8;

verus! {

/// The mask value of a pixel that is selected.
pub const MASK_TRUE: u8 = 255;

/// The mask value of a pixel that is not selected.
pub const MASK_FALSE: u8 = 0;

/// Why a raster could not be taken.
#[derive(Clone, Copy, Debug, PartialEq, Eq, Structural)]
pub enum ImageError {
    /// The raster has not the size of the picture it is for.
    SizeMismatch,
    /// Some cell of the depth field has no distance.
    Unresolved,
}

/// A picture of red, green, blue and alpha with a mask of its size.
#[derive(Clone, Debug)]
pub struct MaskImage {
    size: Dimensions,
    image: Vec<Vec<[u8; 4]>>,
    mask: Vec<Vec<u8>>,
}

/// One colour channel brightened by `value`: the sum, held within
/// `0 ..= 255`.
pub open spec fn lit(c: u8, value: int) -> u8 {
    if c + value < 0 {
        0
    } else if c + value > 255 {
        255
    } else {
        (c + value) as u8
    }
}

/// A pixel of red, green, blue and alpha brightened by `value`: the three
/// colours are, alpha is kept.
pub open spec fn brightened(p: [u8; 4], value: int) -> [u8; 4] {
    [lit(p[0], value), lit(p[1], value), lit(p[2], value), p[3]]
}

/// Selected where both are.
pub open spec fn both(a: u8, b: u8) -> u8 {
    if a == MASK_TRUE && b == MASK_TRUE {
        MASK_TRUE
    } else {
        MASK_FALSE
    }
}

/// Selected where one of the two is.
pub open spec fn either(a: u8, b: u8) -> u8 {
    if a == MASK_TRUE || b == MASK_TRUE {
        MASK_TRUE
    } else {
        MASK_FALSE
    }
}

/// A pixel marked as selected: red doubled and held at 255, green and
/// blue halved.
pub open spec fn marked(p: [u8; 4]) -> [u8; 4] {
    [
        if p[0] > 127 {
            255u8
        } else {
            (2 * p[0]) as u8
        },
        p[1] / 2,
        p[2] / 2,
        p[3],
    ]
}

/// The cell `(x, y)` lies in the part of a picture of size `size` that a
/// picture of size `other` laid down at `start` would cover.
pub open spec fn in_patch(start: Position, other: Dimensions, size: Dimensions, x: int, y: int) -> bool {
    &&& start.x <= x < start.x + other.width
    &&& start.y <= y < start.y + other.height
    &&& x < size.width
    &&& y < size.height
}

/// The picture `mine` after the selected pixels of the patch that `other`
/// covers from `start` on took their values from `theirs`.
pub open spec fn replaced(
    mine: Seq<Seq<[u8; 4]>>,
    mask: Seq<Seq<u8>>,
    theirs: Seq<Seq<[u8; 4]>>,
    start: Position,
    other: Dimensions,
    size: Dimensions,
) -> Seq<Seq<[u8; 4]>> {
    table(
        size,
        |x: int, y: int|
            if in_patch(start, other, size, x, y) && mask[y][x] == MASK_TRUE {
                theirs[y][x]
            } else {
                mine[y][x]
            },
    )
}

/// Two masks of one size merged cell by cell: by `either` where `union`
/// is set, else by `both`.
pub open spec fn merged(
    mine: Seq<Seq<u8>>,
    theirs: Seq<Seq<u8>>,
    size: Dimensions,
    union: bool,
) -> Seq<Seq<u8>> {
    table(
        size,
        |x: int, y: int|
            if union {
                either(mine[y][x], theirs[y][x])
            } else {
                both(mine[y][x], theirs[y][x])
            },
    )
}

/// Merges two masks of one size cell by cell: a cell is selected where
/// one of the two selects it, if `union` is set, else where both do.
pub fn merge(mine: &Vec<Vec<u8>>, theirs: &Vec<Vec<u8>>, size: Dimensions, union: bool) -> (out: Vec<
    Vec<u8>,
>)
    requires
        is_rect(grid(*mine), size.width as int, size.height as int),
        is_rect(grid(*theirs), size.width as int, size.height as int),
    ensures
        grid(out) == merged(grid(*mine), grid(*theirs), size, union),
        is_rect(grid(out), size.width as int, size.height as int),
{
    let ghost wanted = merged(grid(*mine), grid(*theirs), size, union);
    let mut out: Vec<Vec<u8>> = Vec::new();
    let mut y: usize = 0;
    while y < mine.len()
        invariant
            y <= mine@.len(),
            is_rect(grid(*mine), size.width as int, size.height as int),
            is_rect(grid(*theirs), size.width as int, size.height as int),
            wanted == merged(grid(*mine), grid(*theirs), size, union),
            out@.len() == y,
            forall|j: int| 0 <= j < y ==> (#[trigger] out@[j])@ == wanted[j],
        decreases mine@.len() - y,
    {
        let mut row: Vec<u8> = Vec::new();
        let mut x: usize = 0;
        assert(grid(*mine)[y as int].len() == size.width);
        assert(grid(*theirs)[y as int].len() == size.width);
        while x < mine[y].len()
            invariant
                y < mine@.len(),
                y < theirs@.len(),
                x <= mine@[y as int]@.len(),
                mine@[y as int]@.len() == theirs@[y as int]@.len(),
                row@.len() == x,
                forall|i: int|
                    0 <= i < x ==> #[trigger] row@[i] == if union {
                        either(mine@[y as int]@[i], theirs@[y as int]@[i])
                    } else {
                        both(mine@[y as int]@[i], theirs@[y as int]@[i])
                    },
            decreases mine@[y as int]@.len() - x,
        {
            let a: bool = mine[y][x] == MASK_TRUE;
            let b: bool = theirs[y][x] == MASK_TRUE;
            let selected: bool = if union {
                a || b
            } else {
                a && b
            };
            row.push(if selected { MASK_TRUE } else { MASK_FALSE });
            x = x + 1;
        }
        assert(row@ =~= wanted[y as int]);
        out.push(row);
        y = y + 1;
    }
    assert(grid(out) =~= wanted);
    out
}

/// A mask of size `from` can be brought to the size `to`: it has that
/// size, or it can be resampled to it.
pub open spec fn fits(from: Dimensions, to: Dimensions) -> bool {
    from == to || resamplable(from.width, from.height, to.width, to.height)
}

/// Whether a mask of size `from` can be brought to the size `to`.
pub fn can_fit(from: Dimensions, to: Dimensions) -> (r: bool)
    ensures
        r == fits(from, to),
{
    from == to || can_resample(from.width, from.height, to.width, to.height)
}

/// A mask brought to the size `to`: a copy of it where it has that size,
/// else what resampling makes of it, which for a mask that selects
/// nothing is the mask of size `to` that selects nothing.
fn fit(mask: &Vec<Vec<u8>>, from: Dimensions, to: Dimensions) -> (out: Vec<Vec<u8>>)
    requires
        is_rect(grid(*mask), from.width as int, from.height as int),
        fits(from, to),
    ensures
        is_rect(grid(out), to.width as int, to.height as int),
        from == to ==> grid(out) == grid(*mask),
        from != to && all_cells(grid(*mask), MASK_FALSE) ==> grid(out) == uniform(
            to.width as int,
            to.height as int,
            MASK_FALSE,
        ),
{
    if from == to {
        copy_rows(mask)
    } else {
        let samples: Vec<u8> = flatten(mask);
        proof {
            joined_of_rect(grid(*mask), from.width as int, from.height as int);
            if all_cells(grid(*mask), MASK_FALSE) {
                joined_of_all_cells(grid(*mask), MASK_FALSE);
                assert(all_zero(samples@));
            }
        }
        let resized: Vec<u8> = resize_luma8(&samples, from.width, from.height, to.width, to.height);
        let out: Vec<Vec<u8>> = to_rows(&resized, to.width, to.height);
        proof {
            if all_cells(grid(*mask), MASK_FALSE) {
                let wanted = uniform(to.width as int, to.height as int, MASK_FALSE);
                assert forall|y: int| 0 <= y < to.height implies #[trigger] grid(out)[y]
                    == wanted[y] by {
                    assert forall|x: int| 0 <= x < to.width implies grid(out)[y][x]
                        == MASK_FALSE by {
                        cell_index_in_range(x, y, to.width as int, to.height as int);
                    }
                    assert(grid(out)[y] =~= wanted[y]);
                }
                assert(grid(out) =~= wanted);
            }
        }
        out
    }
}

fn lighten(c: u8, value: i32) -> (r: u8)
    ensures
        r == lit(c, value as int),
{
    let sum: i64 = c as i64 + value as i64;
    if sum < 0 {
        0
    } else if sum > 255 {
        255
    } else {
        sum as u8
    }
}

impl Default for MaskImage {
    /// The picture without pixels.
    fn default() -> (m: Self)
        ensures
            m.wf(),
            m.extent() == (Dimensions { height: 0, width: 0 }),
            m.picture() == Seq::<Seq<[u8; 4]>>::empty(),
            m.selection() == Seq::<Seq<u8>>::empty(),
    {
        let m = MaskImage {
            size: Dimensions { height: 0, width: 0 },
            image: Vec::new(),
            mask: Vec::new(),
        };
        assert(grid(m.image) =~= Seq::<Seq<[u8; 4]>>::empty());
        assert(grid(m.mask) =~= Seq::<Seq<u8>>::empty());
        m
    }
}

impl MaskImage {
    /// The picture, as rows of pixels.
    pub closed spec fn picture(&self) -> Seq<Seq<[u8; 4]>> {
        grid(self.image)
    }

    /// The mask, as rows of mask values.
    pub closed spec fn selection(&self) -> Seq<Seq<u8>> {
        grid(self.mask)
    }

    /// The size of the picture and of the mask.
    pub closed spec fn extent(&self) -> Dimensions {
        self.size
    }

    /// The picture and the mask both have the size `extent`.
    pub open spec fn wf(&self) -> bool {
        &&& is_rect(self.picture(), self.extent().width as int, self.extent().height as int)
        &&& is_rect(self.selection(), self.extent().width as int, self.extent().height as int)
    }

    /// A picture from its samples, four for each pixel, with every pixel
    /// selected.
    pub fn from_image(width: u32, height: u32, samples: &Vec<u8>) -> (m: Self)
        requires
            samples@.len() == 4 * (width * height),
        ensures
            m.wf(),
            m.extent() == (Dimensions { height, width }),
            m.picture() == rgba_rows(samples@, width as int, height as int),
            m.selection() == uniform(width as int, height as int, MASK_TRUE),
    {
        MaskImage {
            size: Dimensions { height, width },
            image: to_rgba_rows(samples, width, height),
            mask: filled(width, height, MASK_TRUE),
        }
    }

    /// A picture from its rows of pixels and a mask from its rows.
    pub fn from_rows(size: Dimensions, image: Vec<Vec<[u8; 4]>>, mask: Vec<Vec<u8>>) -> (m: Self)
        requires
            is_rect(grid(image), size.width as int, size.height as int),
            is_rect(grid(mask), size.width as int, size.height as int),
        ensures
            m.wf(),
            m.extent() == size,
            m.picture() == grid(image),
            m.selection() == grid(mask),
    {
        MaskImage { size, image, mask }
    }

    pub fn image(&self) -> (r: &Vec<Vec<[u8; 4]>>)
        ensures
            grid(*r) == self.picture(),
    {
        &self.image
    }

    pub fn mask(&self) -> (r: &Vec<Vec<u8>>)
        ensures
            grid(*r) == self.selection(),
    {
        &self.mask
    }

    pub fn width(&self) -> (w: u32)
        ensures
            w == self.extent().width,
    {
        self.size.width
    }

    pub fn height(&self) -> (h: u32)
        ensures
            h == self.extent().height,
    {
        self.size.height
    }

    pub fn dimensions(&self) -> (d: Dimensions)
        ensures
            d == self.extent(),
    {
        Dimensions { width: self.width(), height: self.height() }
    }

    /// Puts a mask of the picture's size in the place of the mask.
    pub fn take_mask(&mut self, mask: Vec<Vec<u8>>)
        requires
            old(self).wf(),
            is_rect(
                grid(mask),
                old(self).extent().width as int,
                old(self).extent().height as int,
            ),
        ensures
            final(self).wf(),
            final(self).extent() == old(self).extent(),
            final(self).picture() == old(self).picture(),
            final(self).selection() == grid(mask),
    {
        self.mask = mask;
    }

    /// Takes a mask given by its samples. A mask of the picture's size is
    /// taken as it is. A mask of another size, one without samples too, is
    /// resampled to the picture's size, and the mask is then what the
    /// resampling gave. This never fails.
    pub fn load_mask(&mut self, samples: &Vec<u8>, width: u32, height: u32) -> (res: Result<
        (),
        ImageError,
    >)
        requires
            old(self).wf(),
            samples@.len() == width * height,
            fits(Dimensions { height, width }, old(self).extent()),
        ensures
            res is Ok,
            final(self).wf(),
            final(self).extent() == old(self).extent(),
            final(self).picture() == old(self).picture(),
            (Dimensions { height, width }) == old(self).extent() ==> final(self).selection()
                == rows(samples@, width as int, height as int),
            (Dimensions { height, width }) != old(self).extent() && all_zero(samples@) ==> final(self).selection() == uniform(
                old(self).extent().width as int,
                old(self).extent().height as int,
                MASK_FALSE,
            ),
    {
        let given: Vec<Vec<u8>> = to_rows(samples, width, height);
        proof {
            if all_zero(samples@) {
                assert forall|x: int, y: int|
                    0 <= y < grid(given).len() && 0 <= x < grid(given)[y].len() implies #[trigger] grid(
                    given,
                )[y][x] == MASK_FALSE by {
                    cell_index_in_range(x, y, width as int, height as int);
                }
            }
        }
        let fitting: Vec<Vec<u8>> = fit(&given, Dimensions { height, width }, self.size);
        self.take_mask(fitting);
        Ok(())
    }

    /// Takes the mask of another picture: as it is where the sizes agree,
    /// resampled to this picture's size where they differ.
    pub fn mask_copy(&mut self, other: &MaskImage)
        requires
            old(self).wf(),
            other.wf(),
            fits(other.extent(), old(self).extent()),
        ensures
            final(self).wf(),
            final(self).extent() == old(self).extent(),
            final(self).picture() == old(self).picture(),
            other.extent() == old(self).extent() ==> final(self).selection() == other.selection(),
            other.extent() != old(self).extent() && all_cells(other.selection(), MASK_FALSE)
                ==> final(self).selection() == uniform(
                old(self).extent().width as int,
                old(self).extent().height as int,
                MASK_FALSE,
            ),
    {
        let fitting: Vec<Vec<u8>> = fit(&other.mask, other.size, self.size);
        self.take_mask(fitting);
    }

    /// Keeps selected what the mask of `other` selects too. Where `other`
    /// has another size, its mask is first resampled to this picture's
    /// size; `merge` says what the two masks then give.
    pub fn mask_and(&mut self, other: &MaskImage)
        requires
            old(self).wf(),
            other.wf(),
            fits(other.extent(), old(self).extent()),
        ensures
            final(self).wf(),
            final(self).extent() == old(self).extent(),
            final(self).picture() == old(self).picture(),
            exists|theirs: Seq<Seq<u8>>|
                is_rect(
                    theirs,
                    old(self).extent().width as int,
                    old(self).extent().height as int,
                ) && (other.extent() == old(self).extent() ==> theirs == other.selection()) && (
                other.extent() != old(self).extent() && all_cells(other.selection(), MASK_FALSE)
                    ==> theirs == uniform(
                    old(self).extent().width as int,
                    old(self).extent().height as int,
                    MASK_FALSE,
                )) && final(self).selection() == #[trigger] merged(
                    old(self).selection(),
                    theirs,
                    old(self).extent(),
                    false,
                ),
    {
        let theirs: Vec<Vec<u8>> = fit(&other.mask, other.size, self.size);
        let both: Vec<Vec<u8>> = merge(&self.mask, &theirs, self.size, false);
        self.take_mask(both);
    }

    /// Selects also what the mask of `other` selects. Where `other` has
    /// another size, its mask is first resampled to this picture's size;
    /// `merge` says what the two masks then give.
    pub fn mask_or(&mut self, other: &MaskImage)
        requires
            old(self).wf(),
            other.wf(),
            fits(other.extent(), old(self).extent()),
        ensures
            final(self).wf(),
            final(self).extent() == old(self).extent(),
            final(self).picture() == old(self).picture(),
            exists|theirs: Seq<Seq<u8>>|
                is_rect(
                    theirs,
                    old(self).extent().width as int,
                    old(self).extent().height as int,
                ) && (other.extent() == old(self).extent() ==> theirs == other.selection()) && (
                other.extent() != old(self).extent() && all_cells(other.selection(), MASK_FALSE)
                    ==> theirs == uniform(
                    old(self).extent().width as int,
                    old(self).extent().height as int,
                    MASK_FALSE,
                )) && final(self).selection() == #[trigger] merged(
                    old(self).selection(),
                    theirs,
                    old(self).extent(),
                    true,
                ),
    {
        let theirs: Vec<Vec<u8>> = fit(&other.mask, other.size, self.size);
        let either: Vec<Vec<u8>> = merge(&self.mask, &theirs, self.size, true);
        self.take_mask(either);
    }

    /// Turns every mask value `v` into `255 - v`, so that what was
    /// selected no longer is, and what was not now is.
    pub fn mask_not(&mut self)
        requires
            old(self).wf(),
        ensures
            final(self).wf(),
            final(self).extent() == old(self).extent(),
            final(self).picture() == old(self).picture(),
            final(self).selection() == complement(old(self).selection()),
    {
        self.mask = complemented(&self.mask);
    }

    /// Selects every pixel.
    pub fn mask_reset(&mut self)
        requires
            old(self).wf(),
        ensures
            final(self).wf(),
            final(self).extent() == old(self).extent(),
            final(self).picture() == old(self).picture(),
            final(self).selection() == uniform(
                old(self).extent().width as int,
                old(self).extent().height as int,
                MASK_TRUE,
            ),
    {
        self.mask = filled(self.size.width, self.size.height, MASK_TRUE);
    }

    /// Blacks out, alpha included, every pixel whose mask value is
    /// `MASK_FALSE`.
    pub fn apply_mask(&mut self)
        requires
            old(self).wf(),
        ensures
            final(self).wf(),
            final(self).extent() == old(self).extent(),
            final(self).selection() == old(self).selection(),
            final(self).picture() == table(
                old(self).extent(),
                |x: int, y: int|
                    if old(self).selection()[y][x] == MASK_FALSE {
                        [0u8, 0u8, 0u8, 0u8]
                    } else {
                        old(self).picture()[y][x]
                    },
            ),
    {
        let ghost wanted = table(
            self.size,
            |x: int, y: int|
                if grid(self.mask)[y][x] == MASK_FALSE {
                    [0u8, 0u8, 0u8, 0u8]
                } else {
                    grid(self.image)[y][x]
                },
        );
        let mut out: Vec<Vec<[u8; 4]>> = Vec::new();
        let mut y: usize = 0;
        while y < self.image.len()
            invariant
                y <= self.image@.len(),
                is_rect(grid(self.mask), self.size.width as int, self.size.height as int),
                is_rect(grid(self.image), self.size.width as int, self.size.height as int),
                wanted == table(
                    self.size,
                    |x: int, y: int|
                        if grid(self.mask)[y][x] == MASK_FALSE {
                            [0u8, 0u8, 0u8, 0u8]
                        } else {
                            grid(self.image)[y][x]
                        },
                ),
                out@.len() == y,
                forall|j: int| 0 <= j < y ==> (#[trigger] out@[j])@ == wanted[j],
            decreases self.image@.len() - y,
        {
            let mut row: Vec<[u8; 4]> = Vec::new();
            let mut x: usize = 0;
            assert(grid(self.mask)[y as int].len() == self.size.width);
            assert(grid(self.image)[y as int].len() == self.size.width);
            while x < self.image[y].len()
                invariant
                    y < self.image@.len(),
                    y < self.mask@.len(),
                    x <= self.image@[y as int]@.len(),
                    self.mask@[y as int]@.len() == self.image@[y as int]@.len(),
                    row@.len() == x,
                    forall|i: int|
                        0 <= i < x ==> #[trigger] row@[i] == if self.mask@[y as int]@[i]
                            == MASK_FALSE {
                            [0u8, 0u8, 0u8, 0u8]
                        } else {
                            self.image@[y as int]@[i]
                        },
                decreases self.image@[y as int]@.len() - x,
            {
                let p: [u8; 4] = if self.mask[y][x] == MASK_FALSE {
                    [0, 0, 0, 0]
                } else {
                    self.image[y][x]
                };
                row.push(p);
                x = x + 1;
            }
            assert(row@ =~= wanted[y as int]);
            out.push(row);
            y = y + 1;
        }
        assert(grid(out) =~= wanted);
        self.image = out;
    }

    /// The picture with the selected pixels marked: their red doubled,
    /// their green and blue halved.
    pub fn highlight_mask(&self) -> (out: Vec<Vec<[u8; 4]>>)
        requires
            self.wf(),
        ensures
            grid(out) == table(
                self.extent(),
                |x: int, y: int|
                    if self.selection()[y][x] == MASK_TRUE {
                        marked(self.picture()[y][x])
                    } else {
                        self.picture()[y][x]
                    },
            ),
    {
        let ghost wanted = table(
            self.size,
            |x: int, y: int|
                if grid(self.mask)[y][x] == MASK_TRUE {
                    marked(grid(self.image)[y][x])
                } else {
                    grid(self.image)[y][x]
                },
        );
        let mut out: Vec<Vec<[u8; 4]>> = Vec::new();
        let mut y: usize = 0;
        while y < self.image.len()
            invariant
                y <= self.image@.len(),
                is_rect(grid(self.mask), self.size.width as int, self.size.height as int),
                is_rect(grid(self.image), self.size.width as int, self.size.height as int),
                wanted == table(
                    self.size,
                    |x: int, y: int|
                        if grid(self.mask)[y][x] == MASK_TRUE {
                            marked(grid(self.image)[y][x])
                        } else {
                            grid(self.image)[y][x]
                        },
                ),
                out@.len() == y,
                forall|j: int| 0 <= j < y ==> (#[trigger] out@[j])@ == wanted[j],
            decreases self.image@.len() - y,
        {
            let mut row: Vec<[u8; 4]> = Vec::new();
            let mut x: usize = 0;
            assert(grid(self.mask)[y as int].len() == self.size.width);
            assert(grid(self.image)[y as int].len() == self.size.width);
            while x < self.image[y].len()
                invariant
                    y < self.image@.len(),
                    y < self.mask@.len(),
                    x <= self.image@[y as int]@.len(),
                    self.mask@[y as int]@.len() == self.image@[y as int]@.len(),
                    row@.len() == x,
                    forall|i: int|
                        0 <= i < x ==> #[trigger] row@[i] == if self.mask@[y as int]@[i]
                            == MASK_TRUE {
                            marked(self.image@[y as int]@[i])
                        } else {
                            self.image@[y as int]@[i]
                        },
                decreases self.image@[y as int]@.len() - x,
            {
                let p: [u8; 4] = self.image[y][x];
                let q: [u8; 4] = if self.mask[y][x] == MASK_TRUE {
                    [if p[0] > 127 { 255 } else { 2 * p[0] }, p[1] / 2, p[2] / 2, p[3]]
                } else {
                    p
                };
                row.push(q);
                x = x + 1;
            }
            assert(row@ =~= wanted[y as int]);
            out.push(row);
            y = y + 1;
        }
        assert(grid(out) =~= wanted);
        out
    }

    /// Copies pixels over from `other`, laid down at `start_point`. In the
    /// part of this picture that `other` then covers, every selected
    /// pixel takes the pixel that `other` holds at the same coordinates.
    /// Those coordinates have to lie in `other`.
    pub fn image_replace(&mut self, other: &MaskImage, start_point: Position)
        requires
            old(self).wf(),
            other.wf(),
            forall|x: int, y: int|
                in_patch(start_point, other.extent(), old(self).extent(), x, y) && 0 <= x && 0 <= y
                    && #[trigger] old(self).selection()[y][x] == MASK_TRUE ==> x
                    < other.extent().width && y < other.extent().height,
        ensures
            final(self).wf(),
            final(self).extent() == old(self).extent(),
            final(self).selection() == old(self).selection(),
            final(self).picture() == replaced(
                old(self).picture(),
                old(self).selection(),
                other.picture(),
                start_point,
                other.extent(),
                old(self).extent(),
            ),
    {
        self.replace_selected(&other.image, start_point, other.size);
    }

    fn replace_selected(&mut self, theirs: &Vec<Vec<[u8; 4]>>, start: Position, other: Dimensions)
        requires
            old(self).wf(),
            is_rect(grid(*theirs), other.width as int, other.height as int),
            forall|x: int, y: int|
                in_patch(start, other, old(self).extent(), x, y) && 0 <= x && 0 <= y
                    && #[trigger] old(self).selection()[y][x] == MASK_TRUE ==> x < other.width && y
                    < other.height,
        ensures
            final(self).wf(),
            final(self).extent() == old(self).extent(),
            final(self).selection() == old(self).selection(),
            final(self).picture() == replaced(
                old(self).picture(),
                old(self).selection(),
                grid(*theirs),
                start,
                other,
                old(self).extent(),
            ),
    {
        let ghost wanted = replaced(
            grid(self.image),
            grid(self.mask),
            grid(*theirs),
            start,
            other,
            self.size,
        );
        let left: u64 = start.x as u64;
        let right: u64 = start.x as u64 + other.width as u64;
        let top: u64 = start.y as u64;
        let bottom: u64 = start.y as u64 + other.height as u64;
        let mut out: Vec<Vec<[u8; 4]>> = Vec::new();
        let mut y: usize = 0;
        while y < self.image.len()
            invariant
                y <= self.image@.len(),
                left == start.x,
                right == start.x + other.width,
                top == start.y,
                bottom == start.y + other.height,
                is_rect(grid(self.mask), self.size.width as int, self.size.height as int),
                is_rect(grid(self.image), self.size.width as int, self.size.height as int),
                is_rect(grid(*theirs), other.width as int, other.height as int),
                forall|x: int, y: int|
                    in_patch(start, other, self.size, x, y) && 0 <= x && 0 <= y
                        && #[trigger] grid(self.mask)[y][x] == MASK_TRUE ==> x < other.width && y
                        < other.height,
                wanted == replaced(
                    grid(self.image),
                    grid(self.mask),
                    grid(*theirs),
                    start,
                    other,
                    self.size,
                ),
                out@.len() == y,
                forall|j: int| 0 <= j < y ==> (#[trigger] out@[j])@ == wanted[j],
            decreases self.image@.len() - y,
        {
            let mut row: Vec<[u8; 4]> = Vec::new();
            let mut x: usize = 0;
            assert(grid(self.mask)[y as int].len() == self.size.width);
            assert(grid(self.image)[y as int].len() == self.size.width);
            while x < self.image[y].len()
                invariant
                    y < self.image@.len(),
                    y < self.mask@.len(),
                    y < self.size.height,
                    x <= self.image@[y as int]@.len(),
                    self.image@[y as int]@.len() == self.size.width,
                    self.mask@[y as int]@.len() == self.size.width,
                    left == start.x,
                    right == start.x + other.width,
                    top == start.y,
                    bottom == start.y + other.height,
                    is_rect(grid(*theirs), other.width as int, other.height as int),
                    forall|x: int, y: int|
                        in_patch(start, other, self.size, x, y) && 0 <= x && 0 <= y
                            && #[trigger] grid(self.mask)[y][x] == MASK_TRUE ==> x < other.width
                            && y < other.height,
                    row@.len() == x,
                    forall|i: int|
                        0 <= i < x ==> #[trigger] row@[i] == if in_patch(
                            start,
                            other,
                            self.size,
                            i,
                            y as int,
                        ) && self.mask@[y as int]@[i] == MASK_TRUE {
                            theirs@[y as int]@[i]
                        } else {
                            self.image@[y as int]@[i]
                        },
                decreases self.image@[y as int]@.len() - x,
            {
                let inside: bool = left <= x as u64 && (x as u64) < right && top <= y as u64 && (
                y as u64) < bottom;
                assert(inside == in_patch(start, other, self.size, x as int, y as int));
                let p: [u8; 4] = if inside && self.mask[y][x] == MASK_TRUE {
                    assert(grid(self.mask)[y as int][x as int] == MASK_TRUE);
                    assert(grid(*theirs)[y as int].len() == other.width);
                    theirs[y][x]
                } else {
                    self.image[y][x]
                };
                row.push(p);
                x = x + 1;
            }
            assert(row@ =~= wanted[y as int]);
            out.push(row);
            y = y + 1;
        }
        assert(grid(out) =~= wanted);
        self.image = out;
    }

    /// Brightens the selected pixels: each of their colours has `value`
    /// added and is held within `0 ..= 255`; alpha is kept.
    pub fn image_brightness(&mut self, value: i32)
        requires
            old(self).wf(),
        ensures
            final(self).wf(),
            final(self).extent() == old(self).extent(),
            final(self).selection() == old(self).selection(),
            final(self).picture() == table(
                old(self).extent(),
                |x: int, y: int|
                    if old(self).selection()[y][x] == MASK_TRUE {
                        brightened(old(self).picture()[y][x], value as int)
                    } else {
                        old(self).picture()[y][x]
                    },
            ),
    {
        let ghost wanted = table(
            self.size,
            |x: int, y: int|
                if grid(self.mask)[y][x] == MASK_TRUE {
                    brightened(grid(self.image)[y][x], value as int)
                } else {
                    grid(self.image)[y][x]
                },
        );
        let mut out: Vec<Vec<[u8; 4]>> = Vec::new();
        let mut y: usize = 0;
        while y < self.image.len()
            invariant
                y <= self.image@.len(),
                is_rect(grid(self.mask), self.size.width as int, self.size.height as int),
                is_rect(grid(self.image), self.size.width as int, self.size.height as int),
                wanted == table(
                    self.size,
                    |x: int, y: int|
                        if grid(self.mask)[y][x] == MASK_TRUE {
                            brightened(grid(self.image)[y][x], value as int)
                        } else {
                            grid(self.image)[y][x]
                        },
                ),
                out@.len() == y,
                forall|j: int| 0 <= j < y ==> (#[trigger] out@[j])@ == wanted[j],
            decreases self.image@.len() - y,
        {
            let mut row: Vec<[u8; 4]> = Vec::new();
            let mut x: usize = 0;
            assert(grid(self.mask)[y as int].len() == self.size.width);
            assert(grid(self.image)[y as int].len() == self.size.width);
            while x < self.image[y].len()
                invariant
                    y < self.image@.len(),
                    y < self.mask@.len(),
                    x <= self.image@[y as int]@.len(),
                    self.mask@[y as int]@.len() == self.image@[y as int]@.len(),
                    row@.len() == x,
                    forall|i: int|
                        0 <= i < x ==> #[trigger] row@[i] == if self.mask@[y as int]@[i]
                            == MASK_TRUE {
                            brightened(self.image@[y as int]@[i], value as int)
                        } else {
                            self.image@[y as int]@[i]
                        },
                decreases self.image@[y as int]@.len() - x,
            {
                let p: [u8; 4] = self.image[y][x];
                let q: [u8; 4] = if self.mask[y][x] == MASK_TRUE {
                    [lighten(p[0], value), lighten(p[1], value), lighten(p[2], value), p[3]]
                } else {
                    p
                };
                row.push(q);
                x = x + 1;
            }
            assert(row@ =~= wanted[y as int]);
            out.push(row);
            y = y + 1;
        }
        assert(grid(out) =~= wanted);
        self.image = out;
    }
}

} // verus!
