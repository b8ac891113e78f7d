//! Hint overlays for tmux panes: the verified core of the `tmux-leap` tool.
//!
//! The library holds the logic: display widths, Huffman hint codes, match
//! resolution and rendering, the input state machine, configuration and the
//! tmux command lines that the tool runs.  Everything that touches processes,
//! files, sockets or terminals lives in the companion binary under `app/`.
#![allow(unused_imports)]

pub mod outside;
pub mod text;
pub mod table;
pub mod display_width;
pub mod sort;
pub mod hint;
pub mod tmux;
pub mod match_formatter;
pub mod hinter;
pub mod state;
pub mod view;
pub mod config;
pub mod cmd;
pub mod action_runner;
pub mod cli;
