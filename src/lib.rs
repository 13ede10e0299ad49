//! Dense `u64` matrix multiplication split into independent per-row units,
//! together with a few small string and closure helpers.
use vstd::prelude::*;

pub mod matrix;
pub mod text;

verus! {

} // verus!
