//! Finalization of a compiled code unit: a graph of basic blocks is checked
//! for the largest operand-stack depth it can reach, stripped of dead code,
//! and laid out as one flat instruction stream with absolute branch offsets.
use vstd::prelude::*;

pub mod code;
pub mod external;
pub mod instruction;
pub mod ir;
pub mod stackdepth;

verus! {

} // verus!
