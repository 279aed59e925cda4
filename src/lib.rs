use vstd::prelude::*;

pub mod offsets;
pub mod validity;
pub mod column;
pub mod list;
pub mod utf8;

verus! {

} // verus!
