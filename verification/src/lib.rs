//! Grouped topological sorting for generators of build systems.
//!
//! Build targets depend on each other, and each target names the directory in
//! which it would like to stand. A directory is written out as a whole, its own
//! targets and the directories below it in one fixed order, so the directories
//! of one level must not depend on each other in a cycle. Where they do, some
//! targets have to be hoisted, that is moved to a directory above their own.
//! This crate chooses a small set of such hoists.
//!
//! The result is an approximation: it is not the smallest set of hoists, and
//! targets only ever move up, never sideways.
//!
//! - [`front_end_input`] makes the dependency graph and the tree of directories
//!   from a list of targets.
//! - [`fixer`] walks the tree and finds the hoists of every level;
//!   [`simplifier`], [`search`] and [`hoists`] do the work for one group of
//!   directories.
//! - [`executor`] carries hoists out, [`dir_graph`] checks that every directory
//!   can be put in order, and [`solver`] does all of it in one run.

pub mod dir_graph;
pub mod executor;
pub mod fixer;
pub mod front_end_input;
pub mod graph;
pub mod hoists;
pub mod paths;
pub mod search;
pub mod simplifier;
pub mod solver;
pub mod tree;
