//! The decisions of the tool's commands; running them is left to the
//! program around the library.
pub mod load_config;
pub mod start;
