//! A directory-tree walker that decides, step by step, what to ask of the
//! operating system next, and builds a tree of the answers while marking
//! structural loops and symlink cycles.

pub mod config;
pub mod entry;
pub mod laws;
pub mod mirror;
pub mod path_list;
pub mod show;
pub mod walker;
