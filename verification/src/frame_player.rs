//! The main timeline: which frame is shown and which frame comes next.

use vstd::prelude::*;

verus! {

/// Playback state of the main timeline (advanced at 30 frames per second).
#[derive(Debug, Clone, Copy, PartialEq, Eq)]
pub struct FramePlayer {
    pub current_frame: u32,
    pub playing: bool,
    pub next_frame: Option<u32>,
}

impl Default for FramePlayer {
    fn default() -> (r: Self)
        ensures
            r == FramePlayer::initial(),
    {
        Self::new()
    }
}

impl FramePlayer {
    /// The state of a freshly started timeline: frame 0, playing, frame 1 pending.
    pub open spec fn initial() -> FramePlayer {
        FramePlayer { current_frame: 0, playing: true, next_frame: Some(1) }
    }

    /// The state after one tick: a playing timeline with nothing pending
    /// schedules the frame after the current one.
    pub open spec fn spec_tick(self) -> FramePlayer {
        if self.next_frame is None && self.playing {
            FramePlayer { next_frame: Some((self.current_frame + 1) as u32), ..self }
        } else {
            self
        }
    }

    pub fn new() -> (r: Self)
        ensures
            r == FramePlayer::initial(),
    {
        Self { current_frame: 0, playing: true, next_frame: Some(1) }
    }

    /// Advance the timeline by one tick (called at 30fps). The frame switch
    /// itself is done by whoever takes the pending frame.
    pub fn tick(&mut self)
        requires
            old(self).next_frame is None && old(self).playing ==> old(self).current_frame < u32::MAX,
        ensures
            *final(self) == old(self).spec_tick(),
    {
        if self.next_frame.is_none() && self.playing {
            self.next_frame = Some(self.current_frame + 1);
        }
    }

    /// Whether a frame switch is pending.
    pub fn has_pending_frame(&self) -> (r: bool)
        ensures
            r == self.next_frame is Some,
    {
        self.next_frame.is_some()
    }

    /// Consume the pending frame and return it.
    pub fn take_next_frame(&mut self) -> (r: Option<u32>)
        ensures
            r == old(self).next_frame,
            *final(self) == (FramePlayer { next_frame: None, ..*old(self) }),
    {
        self.next_frame.take()
    }

    /// Schedule a jump to `frame` and set whether the timeline plays on.
    pub fn goto(&mut self, frame: u32, playing: bool)
        ensures
            *final(self) == (FramePlayer {
                next_frame: Some(frame),
                playing,
                current_frame: old(self).current_frame,
            }),
    {
        self.next_frame = Some(frame);
        self.playing = playing;
    }
}

/// A pending frame is never overwritten by a tick: ticking only fills an
/// empty slot, and taking the pending frame after a goto yields the goto target.
pub proof fn lemma_tick_keeps_pending(fp: FramePlayer)
    requires
        fp.next_frame is Some,
    ensures
        fp.spec_tick() == fp,
{
}

/// Ticking is idempotent: once a frame is pending, further ticks change nothing.
pub proof fn lemma_tick_idempotent(fp: FramePlayer)
    ensures
        fp.spec_tick().spec_tick() == fp.spec_tick(),
{
}

} // verus!
