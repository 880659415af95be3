use vstd::prelude::*;

pub mod backend;
pub mod clipping;
pub mod expand;
pub mod path;
pub mod primitive;
pub mod renderer;
pub mod shapes;
pub mod transformation;
pub mod units;

verus! {

} // verus!
