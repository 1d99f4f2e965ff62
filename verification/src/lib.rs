//! A layout engine that tiles a rectangular canvas with frames.
//!
//! A [`manager::FrameManager`] holds the frames of one canvas and the index
//! of the active frame. It splits, closes and resizes the active frame,
//! moves to a neighbouring frame, and mends gaps after each change. What
//! each operation computes is defined on the mathematical model in
//! [`layout`], and the manager is proved to compute just that. The module
//! [`laws`] states what the operations keep: well-formedness always, and
//! the exact cover of the canvas under the conditions given there.
//!
//! - [`frame`]: rectangles.
//! - [`repair`]: the gap-repair pass.
//! - [`reflow`]: what the remaining frames do when one is closed.
//! - [`resize`]: moving the edges of a frame.
//! - [`select`]: choosing the frame in a direction.
//! - [`render`]: what there is to paint.
//! - [`input`]: from key presses to commands.
//! - [`tiling`], [`tiling_close`], [`tiling_resize`]: tilings, and the
//!   proofs that operations keep or lose them.

pub mod frame;
pub mod input;
pub mod laws;
pub mod layout;
pub mod manager;
pub mod reflow;
pub mod render;
pub mod repair;
pub mod resize;
pub mod select;
pub mod theme;
pub mod tiling;
pub mod tiling_close;
pub mod tiling_resize;
