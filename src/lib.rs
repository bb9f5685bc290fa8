//! Map geometry and curve-to-tube mesh logic for a level-editing tool.
use vstd::prelude::*;

pub mod text;
pub mod vmf;
pub mod map;
pub mod curve;
pub mod export;
pub mod render;

verus! {

} // verus!
