//! What this library asks of the `image` crate: resampling a grey raster
//! to another size.

use vstd::prelude::*;

verus! {

/// The longest side, of the raster given or of the raster asked for, that
/// resampling takes: up to here the filter's arithmetic on indices, which
/// is done in `f32`, keeps every output cell within reach of a source
/// cell.
pub const RESAMPLING_LIMIT: u32 = 16_777_216;

/// A raster of `width` by `height` can be resampled to `to_width` by
/// `to_height`: no side is above `RESAMPLING_LIMIT`, and the buffers that
/// the filter fills on the way fit the address space.
pub open spec fn resamplable(width: u32, height: u32, to_width: u32, to_height: u32) -> bool {
    &&& width <= RESAMPLING_LIMIT
    &&& height <= RESAMPLING_LIMIT
    &&& to_width <= RESAMPLING_LIMIT
    &&& to_height <= RESAMPLING_LIMIT
    &&& 16 * (width * to_height) <= isize::MAX
    &&& to_width * to_height <= isize::MAX
}

/// Whether a raster of `width` by `height` can be resampled to `to_width`
/// by `to_height`.
pub fn can_resample(width: u32, height: u32, to_width: u32, to_height: u32) -> (r: bool)
    ensures
        r == resamplable(width, height, to_width, to_height),
{
    if width > RESAMPLING_LIMIT || height > RESAMPLING_LIMIT || to_width > RESAMPLING_LIMIT
        || to_height > RESAMPLING_LIMIT {
        return false;
    }
    assert(width * to_height <= 16_777_216 * 16_777_216 && to_width * to_height <= 16_777_216
        * 16_777_216) by (nonlinear_arith)
        requires
            width <= 16_777_216,
            to_width <= 16_777_216,
            to_height <= 16_777_216,
    ;
    let between: u128 = 16 * ((width as u128) * (to_height as u128));
    let asked: u128 = (to_width as u128) * (to_height as u128);
    between <= isize::MAX as u128 && asked <= isize::MAX as u128
}

/// Every sample is zero; so it is where there is no sample.
pub open spec fn all_zero(samples: Seq<u8>) -> bool {
    forall|i: int| 0 <= i < samples.len() ==> #[trigger] samples[i] == 0
}

/// Calls `image::imageops::resize` with `FilterType::Gaussian` on a grey
/// raster of eight bits given by its samples. Trusted, as the function's
/// source shows: the result has exactly the size asked for, also for a
/// raster without samples; and a raster whose samples are all zero,
/// or that has none, gives zeros only, since every output sample is a
/// sum of source samples under finite weights. Of other samples nothing
/// is claimed: the weights come from `f32::exp` and `f32::powi`, whose
/// precision std leaves open from one call to the next.
#[verifier::external_body]
pub(crate) fn resize_luma8(
    pixels: &Vec<u8>,
    width: u32,
    height: u32,
    to_width: u32,
    to_height: u32,
) -> (out: Vec<u8>)
    requires
        pixels@.len() == width * height,
        resamplable(width, height, to_width, to_height),
    ensures
        out@.len() == to_width * to_height,
        all_zero(pixels@) ==> all_zero(out@),
{
    let source = image::GrayImage::from_raw(width, height, pixels.clone()).unwrap();
    let filter = image::imageops::FilterType::Gaussian;
    image::imageops::resize(&source, to_width, to_height, filter).into_raw()
}

} // verus!
