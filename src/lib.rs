use vstd::prelude::*;

pub mod color;
pub mod native;
pub mod number;
pub mod util;
pub mod widget;
pub mod xml;

verus! {

} // verus!
