pub mod scroll_swipe_gesture;

use vstd::prelude::*;

verus! {

} // verus!
