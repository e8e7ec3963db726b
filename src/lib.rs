//! Turns a photographed page into a scan-like black and white image: a global
//! threshold binarizes every byte, then fixed-size blocks that are mostly dark
//! are blanked out as background noise.

pub mod buffer;
pub mod threshold;
pub mod block;
pub mod grid;
pub mod scan;
pub mod parallel;
pub mod size;
pub mod config;
