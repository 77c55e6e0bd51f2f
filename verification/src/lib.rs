//! Renumbering of sequentially numbered file names in one directory.
//!
//! A file name is decomposed into a base, an optional trailing number and an
//! optional extension.  Files that share a group key (the base with one
//! trailing separator removed) form a group; every numbered member of a group
//! is shifted up by one, and an unnumbered member takes the vacated first
//! position.  Paths are byte strings; the surrounding program does the
//! directory listing and the renames.

pub mod entry;
pub mod planner;
