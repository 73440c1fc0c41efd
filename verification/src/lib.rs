//! Transform recipes for images: their types, checks and hashes, and the deterministic
//! decisions and pixel arithmetic of the engine that runs them.
use vstd::prelude::*;

pub mod adjust;
pub mod affine;
pub mod agreement;
pub mod assets;
pub mod at_rest;
pub mod balance_law;
pub mod band_law;
pub mod binary;
pub mod blend_law;
pub mod blur_law;
pub mod canonical;
pub mod codec;
pub mod curve_points;
pub mod curve_rises;
pub mod curve_shape;
pub mod effects;
pub mod elimination;
pub mod engine;
pub mod error;
pub mod exact;
pub mod finish_law;
pub mod float;
pub mod gain;
pub mod grid_bytes;
pub mod growth;
pub mod horizon;
pub mod hsl_law;
pub mod hue_law;
pub mod hue_trip;
pub mod in_box;
pub mod input;
pub mod integral;
pub mod json;
pub mod kept;
pub mod kernel_law;
pub mod linear;
pub mod local;
pub mod lut_law;
pub mod motion_law;
pub mod nearness;
pub mod number;
pub mod ops;
pub mod ordering;
pub mod orderly;
pub mod parallel;
pub mod percentiles;
pub mod pipeline;
pub mod pixel_law;
pub mod pixel_ops;
pub mod place_law;
pub mod plain_levels;
pub mod plain_rows;
pub mod raster;
pub mod recipe;
pub mod remainders;
pub mod repeat;
pub mod resize;
pub mod rising;
pub mod roots;
pub mod rotate;
pub mod round_trip;
pub mod same_size;
pub mod sameness;
pub mod separate;
pub mod shares;
pub mod sides;
pub mod similarity;
pub mod single;
pub mod single_near;
pub mod size_law;
pub mod spans;
pub mod stats;
pub mod straight_law;
pub mod stretch;
pub mod sums;
pub mod tangents;
pub mod text;
pub mod thresholds;
pub mod tolerance;
pub mod tone_law;
pub mod transform;
pub mod units;
pub mod value;
pub mod weights;
pub mod whole_run;
pub mod whole_steps;
pub mod wholes;
pub mod widths;
pub mod words;

pub use assets::{AssetResolver, NoAssets};
pub use canonical::{canonical_json, recipe_hash};
pub use engine::{EncodedOutput, ENGINE_VERSION};
pub use error::AtxError;
pub use input::{inspect_bytes, ImageInfo};
pub use ops::svg::intrinsic_size as svg_intrinsic_size;
pub use ops::svg::validate_asset as validate_svg_asset;
pub use ops::svg::{validate_font_asset, FontAssetInfo, MAX_FONT_BYTES};
pub use recipe::{
    Anchor, BaseKeyword, BlendMode, CoordinateSpace, CropMode, Fit, Layer, LayerSource, MaskRef,
    Operation, OutputFormat, RotateCrop, StripScope, TransformRecipe,
};
pub use similarity::{dhash_hex, dhash_rgb8, dhash_rgba8, hamming, ssim_gray};
pub use stats::ImageStats;

verus! {

/// Bounds on what is accepted as input.
pub struct Limits {
    /// The most pixels, width times height.
    pub max_pixels: u64,
    /// The most bytes of an input file.
    pub max_bytes: u64,
}

impl Default for Limits {
    fn default() -> (r: Limits)
        ensures
            r.max_pixels == 100_000_000,
            r.max_bytes == 128 * 1024 * 1024,
    {
        Limits { max_pixels: 100_000_000, max_bytes: 134_217_728 }
    }
}

} // verus!
