use vstd::prelude::*;

pub mod text;
pub mod json;
pub mod rules;
pub mod eval;
pub mod engine;
pub mod sheet;
pub mod loading;
pub mod lite;
pub mod termination;
pub mod run_laws;

verus! {
}
