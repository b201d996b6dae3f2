//! Program analyses over the low-level intermediate representation (LIR):
//! program statistics, control-flow graphs and their depth-first searches,
//! abstract domains for constant, interval, reaching-definition and
//! control-dependence analyses, the worklist analyzers built on them, and
//! numbered graphs with loop headers, dominators and dominator trees.
use vstd::prelude::*;

pub mod analysis;
pub mod cfg;
pub mod cfgdom;
pub mod control;
pub mod defs;
pub mod domain;
pub mod dominators;
pub mod execution;
pub mod domtree;
pub mod fixpoint;
pub mod graph;
pub mod interval_sound;
pub mod lir;
pub mod natural;
pub mod points;
pub mod program;
pub mod rdef;
pub mod rdinit;
pub mod reach;
pub mod rendering;
pub mod report;
pub mod samples;
pub mod semantics;
pub mod stats;
pub mod store;
pub mod traversal;

verus! {

} // verus!
