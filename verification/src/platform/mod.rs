//! Platform layer: the command buffer that batches native UI operations, its
//! wire encoding, and the host side that decodes and applies it.

pub mod animation;
pub mod host;
pub mod layout_engine;
pub mod renderer;
pub mod native_renderer;
pub mod target;
