use vstd::prelude::*;

verus! {

/// What happened during one tick. Each flag is 0 or 1 and is produced afresh by
/// every step; nothing accumulates across ticks.
#[derive(Copy, Clone, Debug, PartialEq, Eq, Structural)]
pub struct Events {
    /// A jump began.
    pub jumped: u8,
    /// The actor came to stand on ground, having been in the air before.
    pub landed: u8,
    /// The actor's head hit a rectangle while rising.
    pub bonked: u8,
}

impl Default for Events {
    fn default() -> (r: Events)
        ensures
            r == (Events { jumped: 0, landed: 0, bonked: 0 }),
    {
        Events { jumped: 0, landed: 0, bonked: 0 }
    }
}

} // verus!
