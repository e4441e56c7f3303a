//! The logic of a minimap overlay for a scrolling, tiling compositor.

pub mod alike;
pub mod app;
pub mod artwork;
pub mod config;
pub mod desktop;
pub mod drawn;
pub mod finding;
pub mod geometry;
pub mod icons;
pub mod ipc;
pub mod layout;
pub mod looks;
pub mod model;
pub mod order;
pub mod paths;
pub mod pixmap;
pub mod places;
pub mod render;
pub mod scalar;
pub mod seqs;
pub mod shm;
pub mod signature;
pub mod sizes;
pub mod sizing;
pub mod state;
pub mod text;
pub mod themes;
pub mod unchanged;
