//! Alignment and composition of partially overlapping raster layers.

pub mod raster;
pub mod error;
pub mod displacement;
pub mod layout;
pub mod join;
pub mod position;
pub mod save;
pub mod session;
