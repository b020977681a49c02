//! Decisions of a game session that sit around the board: the settings it
//! starts from, moving through the list of pictures, and pacing a scramble
//! over successive frames.
use vstd::prelude::*;

verus! {

/// Side of the square grid where none is given.
pub const DEFAULT_GRID_SIDE: usize = 4;

/// Side in pixels of the square window at start.
pub const START_WINDOW_SIDE: u32 = 300;

/// Number of random moves made by one scramble.
pub const SCRAMBLE_STEPS: usize = 100;

/// Pause in milliseconds after each scramble move, so that it can be seen.
pub const SCRAMBLE_DELAY_MS: u64 = 15;

/// The settings a game starts from.
#[derive(Debug, Clone, Copy, PartialEq, Eq, Structural)]
pub struct GameConfig {
    pub grid_side: usize,
    pub start_window_side: u32,
    pub scramble_steps: usize,
    pub scramble_delay_ms: u64,
}

impl Default for GameConfig {
    fn default() -> (r: GameConfig)
        ensures
            r.grid_side == DEFAULT_GRID_SIDE,
            r.start_window_side == START_WINDOW_SIDE,
            r.scramble_steps == SCRAMBLE_STEPS,
            r.scramble_delay_ms == SCRAMBLE_DELAY_MS,
    {
        GameConfig {
            grid_side: DEFAULT_GRID_SIDE,
            start_window_side: START_WINDOW_SIDE,
            scramble_steps: SCRAMBLE_STEPS,
            scramble_delay_ms: SCRAMBLE_DELAY_MS,
        }
    }
}

/// The picture after `current` in a list of `count`, the first after the last.
pub fn next_image_index(current: usize, count: usize) -> (r: usize)
    requires
        current < count,
    ensures
        r == (current + 1) % (count as int),
        r < count,
{
    (current + 1) % count
}

/// The picture before `current` in a list of `count`, the last before the first.
pub fn previous_image_index(current: usize, count: usize) -> (r: usize)
    requires
        current < count,
    ensures
        r == if current == 0 {
            count - 1
        } else {
            current - 1
        },
        r < count,
{
    if current == 0 {
        count - 1
    } else {
        current - 1
    }
}

/// A scramble spread over frames: once started, each frame makes one
/// random move until the run's number of moves is made.
pub struct ScrambleRun {
    steps: usize,
    remaining: usize,
}

impl ScrambleRun {
    /// Moves that one run makes.
    pub closed spec fn spec_steps(&self) -> nat {
        self.steps as nat
    }

    /// Moves still to make in the current run.
    pub closed spec fn spec_remaining(&self) -> nat {
        self.remaining as nat
    }

    /// An idle run of `steps` moves.
    pub fn new(steps: usize) -> (r: ScrambleRun)
        ensures
            r.spec_steps() == steps,
            r.spec_remaining() == 0,
    {
        ScrambleRun { steps, remaining: 0 }
    }

    /// Starts a run; one already going starts over.
    pub fn start(&mut self)
        ensures
            final(self).spec_steps() == old(self).spec_steps(),
            final(self).spec_remaining() == old(self).spec_steps(),
    {
        self.remaining = self.steps;
    }

    /// Whether moves are still to be made.
    pub fn is_active(&self) -> (r: bool)
        ensures
            r == (self.spec_remaining() > 0),
    {
        self.remaining > 0
    }

    /// Called once a frame: whether a move is due in this frame.
    pub fn tick(&mut self) -> (r: bool)
        ensures
            r == (old(self).spec_remaining() > 0),
            final(self).spec_steps() == old(self).spec_steps(),
            final(self).spec_remaining() == if r {
                old(self).spec_remaining() - 1
            } else {
                0
            },
    {
        if self.remaining > 0 {
            self.remaining = self.remaining - 1;
            true
        } else {
            false
        }
    }
}

} // verus!
