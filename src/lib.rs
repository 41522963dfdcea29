//! A tiling layout generator: per-context layout rotations driven by short
//! text commands, and the geometry that places views for the active layout.

pub mod command;
pub mod engine;
pub mod store;

pub use command::{parse_command, parse_ratio, Command};
pub use engine::{compute, GeneratedLayout, LayoutConfig, Rect, CASCADE_STEP, RATIO_SCALE};
pub use store::{CommandError, CommandOutcome, LayoutRotation, LayoutStore};
