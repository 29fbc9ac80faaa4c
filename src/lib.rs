//! Estimates the parasitic capacitance between the nets of adjacent copper
//! layers of a printed circuit board, from one bitmap and one Gerber file
//! per layer.

/// Text scanning and number reading over character sequences.
pub mod text;
/// Gerber command streams: block splitting and command classification.
pub mod gerber;
/// Flash points of each net named in a layer's commands.
pub mod netindex;
/// The grid of per-pixel layer masks.
pub mod grid;
/// Combining layer bitmaps into one grid.
pub mod raster;
/// 4-connected components of one layer.
pub mod components;
/// Board coordinates to pixels, and nets to components.
pub mod matcher;
/// Net names and their ids.
pub mod registry;
/// Overlap of nets across adjacent layers and the capacitance report.
pub mod capacitance;
/// The xorwow generator and component colours.
pub mod xorwow;
/// Layer pictures.
pub mod picture;
/// Layer description of a board.
pub mod config;
/// Integer helpers.
pub mod math;
