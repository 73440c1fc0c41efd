//! The operations: the checks on their parameters and the arithmetic of those that
//! work on whole numbers.
pub mod auto_levels;
pub mod blend;
pub mod blur;
pub mod clone_heal;
pub mod color;
pub mod convolve;
pub mod finish;
pub mod fonts;
pub mod gradient;
pub mod hsl;
pub mod lut;
pub mod mask;
pub mod perspective;
pub mod pixelate;
pub mod svg;
pub mod threshold;
pub mod trim;
pub mod wb;
