use vstd::prelude::*;

verus! {

/// Implemented by the driver that an external renderer polls: each call
/// advances the growth and hands back a fresh full-grid snapshot to show.
pub trait DisplayProgram {
    fn update(&mut self) -> Vec<Vec<(u8, u8, u8)>>;
}

} // verus!
