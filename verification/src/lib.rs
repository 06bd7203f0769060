//! Relational bounds, set algebra and the boolean-circuit encoding of a
//! bounded relational logic.

use vstd::prelude::*;

pub mod bounds;
pub mod bounds_builder;
pub mod circuit;
pub mod encode;
pub mod error;
pub mod eval;
pub mod evaluator;
pub mod hierarchy;
pub mod instrument;
pub mod ir;
pub mod lex;
pub mod lower;
pub mod occurs;
pub mod matrix;
pub mod numeral;
pub mod paths;
pub mod relspec;
pub mod sharing;
pub mod span;
pub mod tuple_map;

verus! {

} // verus!
