use vstd::prelude::*;

pub mod ast;
pub mod cli;
pub mod diagnostic;
pub mod ir;
pub mod parser;
pub mod text;
pub mod type_analysis;
pub mod types;
pub mod verify;

verus! {

} // verus!
