use vstd::prelude::*;

verus! {

/// A point on the screen
pub struct ScreenPoint(pub u32, pub u32);

} // verus!
