use vstd::prelude::*;

verus! {

/// The inputs of the game, independent of keys and buttons.
#[derive(Debug, Clone, Copy, PartialEq, Eq, Structural)]
pub enum Input {
    MouseLeft,
    MouseMiddle,
    MouseRight,
    RestartGame,
    Save,
    Load,
    MoveN,
    MoveNW,
    MoveNE,
    MoveE,
    MoveW,
    MoveS,
    MoveSW,
    MoveSE,
    MoveSkip,
    Confirm,
    Cancel,
}

/// Waits for a number of frames: each poll counts one down until none are left.
#[derive(Clone, Copy, Debug)]
pub struct SleepForTick(pub usize);

impl SleepForTick {
    pub fn new(ticks: usize) -> (r: SleepForTick)
        ensures
            r.0 == ticks,
    {
        SleepForTick(ticks)
    }

    /// One poll: ready when no ticks are left, else one tick fewer.
    pub fn poll_tick(&mut self) -> (ready: bool)
        ensures
            ready == (old(self).0 == 0),
            final(self).0 == if old(self).0 == 0 { 0 } else { (old(self).0 - 1) as usize },
    {
        if self.0 == 0 {
            true
        } else {
            self.0 = self.0 - 1;
            false
        }
    }
}

pub fn sleep_ticks(ticks: usize) -> (r: SleepForTick)
    ensures
        r.0 == ticks,
{
    SleepForTick::new(ticks)
}

} // verus!
