//! A photomosaic builder: a target image is reproduced by tiling a grid of
//! small candidate images, each chosen so its representative color is
//! nearest to the color of the target pixel it replaces.
//!
//! The crate holds the mosaic's core, verified end to end: the color model
//! (`color`), the pixel grid shared by targets, tiles and the output canvas
//! (`grid`), the persisted tile cache format (`cache`), the dictionary
//! builder and the queryable Color Index (`dictionary`), and the compositor
//! (`compose`). Command-line handling, directory listing, image decoding and
//! file writes live with the caller, which hands the library plain values.

pub mod cache;
pub mod color;
pub mod compose;
pub mod dictionary;
pub mod errors;
pub mod grid;
