//! A verified flow-graph virtual machine with its program model, and the
//! point model of splines.
pub mod ast;
pub mod graph;
pub mod value;
pub mod error;
pub mod flow;
pub mod keyed;
pub mod event;
pub mod vm;
pub mod step;
pub mod load;
pub mod spline;
pub mod laws;

use vstd::prelude::*;

verus! {
} // verus!
