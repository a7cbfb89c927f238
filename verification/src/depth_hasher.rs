//! The two callbacks that a tiling engine asks of this library: the score of
//! a tile, which is the distance that the search finds for it, and the test
//! whether two scores are close enough for their tiles to be merged.

use vstd::prelude::*;
use crate::geometry::Dimensions;
use crate::geometry::Position;
use crate::helpers::distance_dot_array;
use crate::helpers::relative_pos;
use crate::helpers::relative_position;
use crate::helpers::search_outcome;
use crate::pixels::gap;
use crate::pixels::grid;
use crate::pixels::rgb_rows;
use crate::pixels::rows;
use crate::pixels::to_rgb_rows;
use crate::pixels::to_rows;
use crate::pixels::Pixel;

verus! {

/// Scores a tile of the main picture by the distance at which its value is
/// found again in the additional picture.
pub struct DepthHasher<T> {
    additional_img: Vec<Vec<T>>,
    add_img_size: Dimensions,
    main_img_size: Dimensions,
    precision: T,
}

/// The number of rings that a score looks at: a twentieth of the longer
/// side of the additional picture.
pub open spec fn score_radius(size: Dimensions) -> int {
    if size.width >= size.height {
        size.width as int / 20
    } else {
        size.height as int / 20
    }
}

/// The score of the value `probe` found at `position` of the main
/// picture: the distance that the search reports, zero where it reports
/// none.
pub open spec fn score<T: Pixel>(
    target: Seq<Seq<T>>,
    target_size: Dimensions,
    main_size: Dimensions,
    precision: T,
    probe: T,
    position: Position,
) -> u32 {
    match search_outcome(
        target,
        probe,
        precision,
        relative_position(position, main_size, target_size),
        score_radius(target_size),
    ) {
        Some((d, _)) => d,
        None => 0,
    }
}

impl<T> DepthHasher<T> {
    /// The additional picture, as rows of pixels.
    pub closed spec fn target(&self) -> Seq<Seq<T>> {
        grid(self.additional_img)
    }

    /// The size of the additional picture.
    pub closed spec fn target_size(&self) -> Dimensions {
        self.add_img_size
    }

    /// The size of the main picture.
    pub closed spec fn main_size(&self) -> Dimensions {
        self.main_img_size
    }

    /// The tolerance under which two pixel values match.
    pub closed spec fn tolerance(&self) -> T {
        self.precision
    }
}

impl<P: Copy> DepthHasher<[P; 3]> {
    /// A hasher over an additional picture given by its samples, three for
    /// each pixel, row after row.
    pub fn from_rgb(
        samples: &Vec<P>,
        width: u32,
        height: u32,
        main_img_size: Dimensions,
        precision: [P; 3],
    ) -> (h: Self)
        requires
            samples@.len() == 3 * (width * height),
        ensures
            h.target() == rgb_rows(samples@, width as int, height as int),
            h.target_size() == (Dimensions { height, width }),
            h.main_size() == main_img_size,
            h.tolerance() == precision,
    {
        DepthHasher {
            additional_img: to_rgb_rows(samples, width, height),
            add_img_size: Dimensions::new(height, width),
            main_img_size,
            precision,
        }
    }
}

impl<P: Copy> DepthHasher<P> {
    /// A hasher over an additional picture given by its samples, one for
    /// each pixel, row after row.
    pub fn from_luma(
        samples: &Vec<P>,
        width: u32,
        height: u32,
        main_img_size: Dimensions,
        precision: P,
    ) -> (h: Self)
        requires
            samples@.len() == width * height,
        ensures
            h.target() == rows(samples@, width as int, height as int),
            h.target_size() == (Dimensions { height, width }),
            h.main_size() == main_img_size,
            h.tolerance() == precision,
    {
        DepthHasher {
            additional_img: to_rows(samples, width, height),
            add_img_size: Dimensions::new(height, width),
            main_img_size,
            precision,
        }
    }
}

impl<P: Pixel + Copy> DepthHasher<P> {
    /// The score of the tile at `position` of the main picture `data`: the
    /// value there is looked for in the additional picture, about the
    /// place that corresponds to `position`, over a twentieth of the
    /// additional picture's longer side. The size of the tile plays no
    /// part.
    pub fn hash(&self, data: &[Vec<P>], position: Position, _size: Dimensions) -> (distance: u32)
        requires
            position.y < data@.len(),
            position.x < data@[position.y as int]@.len(),
        ensures
            distance == score(
                self.target(),
                self.target_size(),
                self.main_size(),
                self.tolerance(),
                data@[position.y as int]@[position.x as int],
                position,
            ),
    {
        let rel_pos: Position = relative_pos(position, self.main_img_size, self.add_img_size);
        let max_side: u32 = if self.add_img_size.width >= self.add_img_size.height {
            self.add_img_size.width
        } else {
            self.add_img_size.height
        };
        let max_dist: u32 = max_side / 20;
        let row: &Vec<P> = &data[position.y as usize];
        match distance_dot_array(
            &row[position.x as usize],
            &self.additional_img,
            rel_pos,
            max_dist,
            self.precision,
        ) {
            Some((d, _)) => d,
            None => 0,
        }
    }
}

/// Tells whether two scores are close enough.
pub struct DepthChecker<T> {
    pub precision: T,
}

/// Two scores count as equal where both are zero or they differ by no
/// more than `precision`.
pub open spec fn scores_equal(left: u32, right: u32, precision: u32) -> bool {
    (left == 0 && right == 0) || gap(left as int, right as int) <= precision
}

impl DepthChecker<u32> {
    pub fn eq(&self, left: u32, right: u32) -> (same: bool)
        ensures
            same == scores_equal(left, right, self.precision),
    {
        if left == 0 && right == 0 {
            true
        } else if left >= right {
            left - right <= self.precision
        } else {
            right - left <= self.precision
        }
    }
}

} // verus!
