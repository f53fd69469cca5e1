//! Hyperion's verified core.
pub mod text;
pub mod ui;
pub mod config;
pub mod dashboard;
pub mod format;
pub mod frame_limit;
pub mod hypr;
pub mod main_window;
pub mod metrics;
pub mod privileged;
pub mod sampler;
