//! How many frames of history to keep.
use vstd::prelude::*;

verus! {

/// The most rollback frames that can be configured.
pub const MAX_ROLLBACK_FRAMES: u8 = 60;

/// The number of rollback frames to keep. A history holds two more ticks than that: the
/// current tick, and the one before the oldest frame, whose state is loaded.
#[derive(Clone, Copy, Debug, PartialEq, Eq)]
pub struct RollbackFrames {
    frames: u8,
}

impl RollbackFrames {
    pub closed spec fn spec_frames(&self) -> nat {
        self.frames as nat
    }

    /// `frames` rollback frames, at most [`MAX_ROLLBACK_FRAMES`].
    pub fn new(frames: u8) -> (r: Self)
        ensures
            r.spec_frames() == if frames > MAX_ROLLBACK_FRAMES {
                MAX_ROLLBACK_FRAMES
            } else {
                frames
            },
    {
        RollbackFrames {
            frames: if frames > MAX_ROLLBACK_FRAMES {
                MAX_ROLLBACK_FRAMES
            } else {
                frames
            },
        }
    }

    /// The configured number of rollback frames.
    pub fn max_frames(&self) -> (r: u8)
        ensures
            r == self.spec_frames(),
    {
        self.frames
    }

    /// The number of ticks a history needs for the configured frames.
    pub fn history_size(&self) -> (r: usize)
        ensures
            r == self.spec_frames() + 2,
    {
        self.frames as usize + 2
    }

    /// The capacity of a history for the configured frames.
    pub fn history_capacity(&self) -> (r: u8)
        requires
            self.spec_frames() <= MAX_ROLLBACK_FRAMES,
        ensures
            r == self.spec_frames() + 2,
            1 <= r <= 64,
    {
        self.frames + 2
    }
}

impl Default for RollbackFrames {
    fn default() -> (r: Self)
        ensures
            r.spec_frames() == 15,
    {
        RollbackFrames { frames: 15 }
    }
}

} // verus!
