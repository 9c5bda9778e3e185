//! Post-processing for YOLOv8 detections: exact intersection-over-union tests,
//! score ordering and non-maximum suppression, the class table stored in a
//! TorchScript model file, command-line parsing and a few runtime decisions.
//!
//! Floating-point values never enter this crate: a confidence is carried as an
//! order key (a `u64` that orders as the confidence does) and an IoU threshold
//! as an exact fraction.

mod wide;
pub mod boxes;
pub mod nms_laws;
pub mod metadata;
pub mod text;
pub mod names;
pub mod cli;
pub mod device;
pub mod legacy;
