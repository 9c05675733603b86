//! The runtime: state slots, the reactive update engine, renderers and hot
//! reload sessions.

pub mod state;
pub mod renderer;
pub mod reactive;
pub mod live_renderer;
pub mod hot_reload;
pub mod native;
pub mod dispatch;
