//! Integer image kernels of a browser-side image editor, on row-major
//! packed RGBA8 buffers:
//!
//! - `png_filter`: per-row choice of the PNG filter of least signed cost;
//! - `quantize`: median-cut palette and Floyd–Steinberg remapping;
//! - `clahe`: contrast-limited adaptive histogram equalization;
//! - `trimap`: trimap labelling by breadth-first distance from alpha edges;
//! - `matting`: spiral search for foreground and background samples;
//! - `ssim`: exact luminance moments of the SSIM windows;
//! - `chunks`: how a downloaded resource is cut into stored chunks;
//! - `pixels`: buffer helpers shared by the above.

pub mod pixels;
pub mod png_filter;
pub mod quantize;
pub mod trimap;
pub mod clahe;
pub mod chunks;
pub mod ssim;
pub mod matting;
