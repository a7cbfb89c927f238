//! Depth estimation between two photographs of one scene.
//!
//! A probe value from the main picture is looked up in the reference picture
//! by an expanding ring search; the distances found for the tiles of the main
//! picture are spread over a dense depth field, which is then gap-filled,
//! smoothed, normalised and clustered into zones of depth for masking.

pub mod builder;
pub mod depth_hasher;
pub mod depth_image;
pub mod geometry;
pub mod helpers;
pub mod mask_image;
pub mod median;
pub mod pixels;
pub mod postprocess;
pub mod preparations;
pub mod raster;
pub mod segment;

pub use crate::depth_image::DepthImage;
pub use crate::mask_image::MaskImage;
