pub mod container;
pub mod scrolling;
pub mod tab_bar;

use vstd::prelude::*;

verus! {

} // verus!
