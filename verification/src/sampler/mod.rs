//! Parsers for the kernel files the collectors read.
pub mod cpu;
pub mod disk;
pub mod mem;
pub mod net;
pub mod schedule;
pub mod sensors;
pub mod gpu;
