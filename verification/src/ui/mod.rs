//! What the interface computes without drawing: theme colours and theme files.
pub mod theme;
