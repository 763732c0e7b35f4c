use vstd::prelude::*;

pub mod arith;
pub mod rational;
pub mod rational_order;
pub mod rational_laws;
pub mod text;
pub mod note;
pub mod lexer;
pub mod line_map;
pub mod ast;
pub mod grammar;
pub mod notation;
pub mod parser;
pub mod eval;
pub mod melody;
pub mod sequence;
pub mod automation;
pub mod wave;

verus! {
} // verus!
