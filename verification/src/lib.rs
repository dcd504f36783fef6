//! A small color-value library: device RGBA (8-bit channels) and HSLA
//! (fixed-point hue/saturation/lightness/alpha on the unit interval),
//! with conversions between the two, alpha-aware blending, grayscale
//! projection and opacity manipulation.

pub mod fixed;
pub mod hsla;
pub mod rgba;
pub mod round_trip;
