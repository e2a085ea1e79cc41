//! Structural core of an i3/sway-style tiling layout: the container tree that
//! holds windows, the commands that reshape and navigate it, and the integer
//! geometry of tab bars.

pub mod input;
pub mod layout;

use vstd::prelude::*;

verus! {

} // verus!
