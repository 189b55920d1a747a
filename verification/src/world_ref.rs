use vstd::prelude::*;

verus! {

/// Measures how long a lock is waited for or held; measuring is switched off, so it holds
/// nothing.
pub struct Timer;

impl Timer {
    pub fn wait(_scope: &'static str) -> (r: Self) {
        Timer
    }

    pub fn hold(_scope: &'static str) -> (r: Self) {
        Timer
    }
}

} // verus!
