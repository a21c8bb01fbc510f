//! Inspecting Unity serialized files, asset bundles and game directories.

pub mod addressing;
pub mod classes;
pub mod cli;
pub mod commands;
pub mod complete;
pub mod component_path;
pub mod ctx;
pub mod dispatch;
pub mod group;
pub mod json;
pub mod laws;
pub mod listing;
pub mod locate;
pub mod model;
pub mod number;
pub mod output;
pub mod qualify;
pub mod resolve;
pub mod sort;
pub mod target;
pub mod text;

pub use dispatch::run;
