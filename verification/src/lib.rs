use vstd::prelude::*;

pub mod strokes;
pub mod strokesstate;
pub mod ui;

verus! {

} // verus!
