//! The commands, each as what it computes and how the result reads.

pub mod addressable;
pub mod addressables;
pub mod bundle;
pub mod file;
pub mod files;
pub mod game;
pub mod info;
pub mod ls;
pub mod obj;
pub mod scenes;
