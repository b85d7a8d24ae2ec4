//! Finds disposable build-artifact and dependency-cache directories under a
//! root and lets an operator choose which ones to delete.
//!
//! The library holds the two pieces with real design weight, both verified:
//! the recursive scanner, which walks an in-memory picture of a file tree,
//! matches directories against a registry of per-ecosystem rules, sums the
//! bytes of each match's subtree and never descends into a match; and the
//! grouped selector, a terminal-checklist state machine with per-item and
//! per-group toggling, collapsible groups and cursor-driven navigation.
//! Reading the file system, drawing the screen and deleting directories are
//! left to the surrounding program, which hands the library plain values.

use vstd::prelude::*;

pub mod cleaner;
pub mod projects;
pub mod scanner;
pub mod selector;

verus! {

} // verus!
