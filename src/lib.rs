//! Installs a fixed tree of resource files into a target directory and
//! removes it again without touching anything the tree does not own.
//!
//! The library decides; the caller performs the filesystem work. Each
//! decision has a contract, and the effect of a whole run is described by a
//! model of the target directory (`model`), over which the laws are proved.
pub mod tree;
pub mod engine;
pub mod model;
pub mod action;
