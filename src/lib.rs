//! Verified core of a binding-generation pipeline: the rule that attributes
//! type fragments to modules, the indented copy that nests generated code,
//! and the merge of per-module fragments into a small set of consolidated,
//! conditionally compiled source files.
use vstd::prelude::*;

pub mod directory;
pub mod indent;
pub mod merge;
pub mod naming;
pub mod order;

verus! {

} // verus!
