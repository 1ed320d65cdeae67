//! Pattern search and conditional rewriting over an e-graph.
//!
//! A [`pattern::Pattern`] is a tree of operator nodes and named wildcards.
//! The matcher enumerates, for every e-class of an [`egraph::EGraph`], the
//! consistent bindings of wildcards to e-class ids under which the pattern
//! is realizable in that class.  A [`rewrite::Rewrite`] pairs two patterns
//! (plus optional equality side-conditions) and drives search, condition
//! checking, substitution and union under a soft size bound.

pub mod egraph;
pub mod expr;
pub mod pattern;
pub mod rewrite;
pub mod sexp;
pub mod wildmap;

pub use egraph::{AddResult, EGraph};
pub use expr::{ENode, QuestionMarkName, RecExpr};
pub use pattern::{Pattern, PatternExpr, PatternMatches};
pub use rewrite::{Condition, Rewrite, RewriteMatches};
pub use wildmap::WildMap;

use vstd::prelude::*;

verus! {

/// An e-class id: an index into the e-graph's union-find.
pub type Id = usize;

} // verus!
