//! Sound playback state: channels that play decoded 16-bit stereo samples,
//! once, a number of times, or in a loop, and the conversion of raw sound
//! resources to stereo samples.

use vstd::prelude::*;

use crate::file_loader::{le16_signed, read_i16_le};
use crate::text::str_eq;

verus! {

/// Where a channel's sound came from, kept to restore it from a save state.
#[derive(Debug, Clone)]
pub enum SavedAudioSource {
    Mp3(Vec<u8>),
    Raw(Vec<u8>),
    DecodedPcm(Vec<i16>),
}

/// What a save state keeps of a channel: its owner, its source, where it
/// is, and how many more times it plays (forever when none).
#[derive(Debug, Clone)]
pub struct SavedChannel {
    pub id: usize,
    pub owner: String,
    pub source: SavedAudioSource,
    pub position: usize,
    pub loops_remaining: Option<u32>,
    pub is_music: bool,
}

/// A playing channel: its state, its interleaved stereo samples, and
/// whether it has ended.
#[derive(Debug)]
pub struct PlaybackChannel {
    pub state: SavedChannel,
    pub samples: Vec<i16>,
    pub finished: bool,
}

/// The stereo frame at `pos`: the left and right samples.
pub open spec fn frame_at(s: Seq<i16>, pos: int) -> (i16, i16) {
    (s[2 * pos], s[2 * pos + 1])
}

impl PlaybackChannel {
    /// The samples come in left-right pairs.
    pub open spec fn wf(&self) -> bool {
        self.samples@.len() % 2 == 0
    }

    /// The next stereo frame. At the end of the samples the channel starts
    /// over while it has loops left (or loops forever), and otherwise ends;
    /// a channel without samples ends at once.
    pub fn next_frame(&mut self) -> (r: Option<(i16, i16)>)
        requires
            old(self).wf(),
        ensures
            final(self).wf(),
            final(self).samples == old(self).samples,
            final(self).state.id == old(self).state.id,
            final(self).state.owner == old(self).state.owner,
            final(self).state.source == old(self).state.source,
            final(self).state.is_music == old(self).state.is_music,
            ({
                let s = old(self).samples@;
                let pos = old(self).state.position as int;
                let loops = old(self).state.loops_remaining;
                if 2 * pos < s.len() {
                    &&& r == Some(frame_at(s, pos))
                    &&& final(self).state.position == pos + 1
                    &&& final(self).state.loops_remaining == loops
                    &&& final(self).finished == old(self).finished
                } else if s.len() == 0 || loops == Some(0u32) {
                    &&& r is None
                    &&& final(self).finished
                    &&& final(self).state.position == pos
                    &&& final(self).state.loops_remaining == loops
                } else {
                    &&& r == Some(frame_at(s, 0))
                    &&& final(self).state.position == 1
                    &&& final(self).state.loops_remaining == match loops {
                        Some(k) => Some((k - 1) as u32),
                        None => None,
                    }
                    &&& final(self).finished == old(self).finished
                }
            }),
    {
        loop
            invariant
                self.wf(),
                self.samples == old(self).samples,
                self.state.id == old(self).state.id,
                self.state.owner == old(self).state.owner,
                self.state.source == old(self).state.source,
                self.state.is_music == old(self).state.is_music,
                self.finished == old(self).finished,
                (self.state.position == old(self).state.position && self.state.loops_remaining
                    == old(self).state.loops_remaining) || (self.state.position == 0 && 2
                    * old(self).state.position >= self.samples@.len() && self.samples@.len() > 0
                    && self.state.loops_remaining == match old(self).state.loops_remaining {
                    Some(k) => Some((k - 1) as u32),
                    None => None,
                } && old(self).state.loops_remaining != Some(0u32)),
            decreases (if self.state.position as int * 2 < self.samples@.len() {
                0int
            } else {
                1int
            }),
        {
            if self.state.position < self.samples.len() / 2 {
                let offset = self.state.position * 2;
                self.state.position = self.state.position + 1;
                return Some((self.samples[offset], self.samples[offset + 1]));
            }
            if self.samples.len() == 0 {
                self.finished = true;
                return None;
            }
            match self.state.loops_remaining {
                Some(remaining) => {
                    if remaining > 0 {
                        self.state.loops_remaining = Some(remaining - 1);
                        self.state.position = 0;
                    } else {
                        self.finished = true;
                        return None;
                    }
                },
                None => {
                    self.state.position = 0;
                },
            }
        }
    }
}

/// Raw 16-bit little-endian mono samples as stereo: each sample twice.
pub open spec fn stereo_of_raw(d: Seq<u8>) -> Seq<i16> {
    Seq::new(2 * (d.len() / 2), |k: int| le16_signed(d, 2 * (k / 2)) as i16)
}

/// Converts raw 16-bit little-endian mono samples to interleaved stereo; a
/// trailing odd byte is dropped.
pub fn raw_pcm_to_stereo(data: &[u8]) -> (r: Vec<i16>)
    ensures
        r@ == stereo_of_raw(data@),
{
    let mut output: Vec<i16> = Vec::new();
    let len = data.len();
    let n = len / 2;
    let mut i: usize = 0;
    while i < n
        invariant
            len == data@.len(),
            n == len / 2,
            i <= n,
            output@ == stereo_of_raw(data@).subrange(0, 2 * i),
        decreases n - i,
    {
        let sample = read_i16_le(data, 2 * i);
        output.push(sample);
        output.push(sample);
        assert(output@ =~= stereo_of_raw(data@).subrange(0, 2 * i + 2)) by {
            assert((2 * i as int) / 2 == i && (2 * i as int + 1) / 2 == i);
        }
        i = i + 1;
    }
    assert(output@ =~= stereo_of_raw(data@));
    output
}


/// At most this many sound effects play at once, besides the music.
pub const MAX_SOUND_EFFECTS: usize = 8;

/// A channel after one `next_frame`: the frame it gives and its new state.
pub open spec fn chan_next(c: PlaybackChannel) -> (Option<(i16, i16)>, PlaybackChannel) {
    let s = c.samples@;
    let pos = c.state.position as int;
    let loops = c.state.loops_remaining;
    if 2 * pos < s.len() {
        (Some(frame_at(s, pos)), PlaybackChannel { state: SavedChannel { position: (pos + 1) as usize, ..c.state }, ..c })
    } else if s.len() == 0 || loops == Some(0u32) {
        (None, PlaybackChannel { finished: true, ..c })
    } else {
        (
            Some(frame_at(s, 0)),
            PlaybackChannel {
                state: SavedChannel {
                    position: 1,
                    loops_remaining: match loops {
                        Some(k) => Some((k - 1) as u32),
                        None => None,
                    },
                    ..c.state
                },
                ..c
            },
        )
    }
}

/// The frames a channel gives in up to `k` calls, stopping at the first
/// call that gives none, and its state after them.
pub open spec fn produce(c: PlaybackChannel, k: nat) -> (Seq<(i16, i16)>, PlaybackChannel)
    decreases k,
{
    if k == 0 {
        (seq![], c)
    } else {
        let (r, c1) = chan_next(c);
        match r {
            None => (seq![], c1),
            Some(f) => {
                let (rest, c2) = produce(c1, (k - 1) as nat);
                (seq![f] + rest, c2)
            },
        }
    }
}

/// `acc` with the frames `fs` added in from its start.
pub open spec fn add_frames(acc: Seq<(int, int)>, fs: Seq<(i16, i16)>) -> Seq<(int, int)> {
    Seq::new(
        acc.len(),
        |f: int|
            if f < fs.len() {
                (acc[f].0 + fs[f].0, acc[f].1 + fs[f].1)
            } else {
                acc[f]
            },
    )
}

/// `frames` stereo frames of all channels summed, channel after channel,
/// and the channels after giving them.
pub open spec fn mix_all(chs: Seq<PlaybackChannel>, frames: nat) -> (Seq<(int, int)>, Seq<PlaybackChannel>)
    decreases chs.len(),
{
    if chs.len() == 0 {
        (Seq::new(frames, |f: int| (0int, 0int)), seq![])
    } else {
        let (acc, done) = mix_all(chs.drop_last(), frames);
        let (fs, c2) = produce(chs.last(), frames);
        (add_frames(acc, fs), done.push(c2))
    }
}

/// The channels still playing.
pub open spec fn unfinished(chs: Seq<PlaybackChannel>) -> Seq<PlaybackChannel> {
    chs.filter(|c: PlaybackChannel| !c.finished)
}

/// The channels that play sound effects.
pub open spec fn effects(chs: Seq<PlaybackChannel>) -> Seq<PlaybackChannel> {
    chs.filter(|c: PlaybackChannel| !c.state.is_music)
}

/// The channels that play music.
pub open spec fn musics(chs: Seq<PlaybackChannel>) -> Seq<PlaybackChannel> {
    chs.filter(|c: PlaybackChannel| c.state.is_music)
}

/// Which channels a pass keeps: kind 0 those still playing, kind 1 the
/// effects, kind 2 those of owners other than `owner`.
pub open spec fn keep_rule(kind: u8, owner: Seq<char>, c: PlaybackChannel) -> bool {
    if kind == 0 {
        !c.finished
    } else if kind == 1 {
        !c.state.is_music
    } else {
        c.state.owner@ != owner
    }
}

/// The channels of owners other than `owner`.
pub open spec fn not_owned_by(chs: Seq<PlaybackChannel>, owner: Seq<char>) -> Seq<PlaybackChannel> {
    chs.filter(|c: PlaybackChannel| keep_rule(2, owner, c))
}

/// The channel id after `id`: the next number, 0 skipped.
pub open spec fn next_id(id: usize) -> usize {
    if id == usize::MAX {
        1
    } else {
        (id + 1) as usize
    }
}

/// The loops left for a repeat count: 0xFF repeats for ever.
pub open spec fn loops_of(repeat: u8) -> Option<u32> {
    if repeat != 0xFF {
        Some(repeat as u32)
    } else {
        None
    }
}

/// The channels the mixer plays, the id the next one gets, and the part
/// of a frame's worth of samples carried over to the next video frame.
pub struct Mixer {
    pub channels: Vec<PlaybackChannel>,
    pub next_channel_id: usize,
    pub sample_frame_remainder: u32,
}

impl Mixer {
    /// Every channel's samples come in pairs; at most one music channel
    /// and `MAX_SOUND_EFFECTS` effects play.
    pub open spec fn wf(&self) -> bool {
        &&& forall|i: int| 0 <= i < self.channels@.len() ==> (#[trigger] self.channels@[i]).wf()
        &&& effects(self.channels@).len() <= MAX_SOUND_EFFECTS
        &&& musics(self.channels@).len() <= 1
    }

    /// No channel, the first id 1.
    pub fn new() -> (r: Self)
        ensures
            r.wf(),
            r.channels@.len() == 0,
            r.next_channel_id == 1,
            r.sample_frame_remainder == 0,
    {
        Mixer { channels: Vec::new(), next_channel_id: 1, sample_frame_remainder: 0 }
    }

    /// Keeps the channels that `keep_rule(kind, owner, ..)` picks, in
    /// order.
    fn retain_where(&mut self, kind: u8, owner: &str)
        ensures
            final(self).channels@ == old(self).channels@.filter(|c: PlaybackChannel| keep_rule(kind, owner@, c)),
            final(self).next_channel_id == old(self).next_channel_id,
            final(self).sample_frame_remainder == old(self).sample_frame_remainder,
    {
        let ghost all = self.channels@;
        let ghost keep = |c: PlaybackChannel| keep_rule(kind, owner@, c);
        let mut kept: Vec<PlaybackChannel> = Vec::new();
        let mut k: usize = 0;
        let n = self.channels.len();
        assert(all.subrange(0, 0) =~= Seq::<PlaybackChannel>::empty());
        while self.channels.len() > 0
            invariant
                n == all.len(),
                k + self.channels@.len() == n,
                self.channels@ == all.subrange(k as int, n as int),
                kept@ == all.subrange(0, k as int).filter(keep),
                keep == (|c: PlaybackChannel| keep_rule(kind, owner@, c)),
                self.next_channel_id == old(self).next_channel_id,
                self.sample_frame_remainder == old(self).sample_frame_remainder,
            decreases self.channels@.len(),
        {
            let c = self.channels.remove(0);
            let ghost cv = c;
            let keep_it = if kind == 0 {
                !c.finished
            } else if kind == 1 {
                !c.state.is_music
            } else {
                !str_eq(c.state.owner.as_str(), owner)
            };
            assert(keep_it == keep(cv));
            if keep_it {
                kept.push(c);
            }
            proof {
                assert(all.subrange(0, k + 1) =~= all.subrange(0, k as int).push(all[k as int]));
                all.subrange(0, k as int).lemma_filter_push(all[k as int], keep);
                assert(self.channels@ =~= all.subrange(k + 1, n as int));
            }
            k = k + 1;
        }
        assert(all.subrange(0, n as int) =~= all);
        self.channels = kept;
    }

    /// Starts a channel for `samples` (stereo pairs) from `source`, for
    /// `owner`, repeating `repeat` more times (0xFF for ever). Finished
    /// channels are dropped first; music replaces the music playing, and a
    /// sound effect is refused while `MAX_SOUND_EFFECTS` play. Returns the
    /// new channel's id, unless there are no samples or it was refused.
    pub fn add_channel(
        &mut self,
        samples: Vec<i16>,
        source: SavedAudioSource,
        repeat: u8,
        owner: &str,
        is_music: bool,
    ) -> (r: Option<usize>)
        requires
            old(self).wf(),
            samples@.len() % 2 == 0,
        ensures
            final(self).wf(),
            final(self).sample_frame_remainder == old(self).sample_frame_remainder,
            samples@.len() == 0 ==> r is None && *final(self) == *old(self),
            samples@.len() > 0 ==> {
                let kept = unfinished(old(self).channels@);
                let room = if is_music {
                    kept.filter(|c: PlaybackChannel| !c.state.is_music)
                } else {
                    kept
                };
                if !is_music && effects(kept).len() >= MAX_SOUND_EFFECTS {
                    &&& r is None
                    &&& final(self).channels@ == kept
                    &&& final(self).next_channel_id == old(self).next_channel_id
                } else {
                    &&& r == Some(old(self).next_channel_id)
                    &&& final(self).next_channel_id == next_id(old(self).next_channel_id)
                    &&& final(self).channels@.len() == room.len() + 1
                    &&& final(self).channels@.drop_last() == room
                    &&& final(self).channels@.last().samples@ == samples@
                    &&& final(self).channels@.last().finished == false
                    &&& final(self).channels@.last().state.id == old(self).next_channel_id
                    &&& final(self).channels@.last().state.owner@ == owner@
                    &&& final(self).channels@.last().state.source == source
                    &&& final(self).channels@.last().state.position == 0
                    &&& final(self).channels@.last().state.loops_remaining == loops_of(repeat)
                    &&& final(self).channels@.last().state.is_music == is_music
                }
            },
    {
        if samples.len() == 0 {
            return None;
        }
        let ghost old_channels = self.channels@;
        self.retain_where(0, owner);
        proof {
            lemma_keep_rule(old_channels, owner@);
            lemma_filter_wf(old_channels, |c: PlaybackChannel| !c.finished);
            lemma_filter_counts(old_channels, |c: PlaybackChannel| !c.finished);
        }
        if is_music {
            let ghost kept = self.channels@;
            self.retain_where(1, owner);
            proof {
                lemma_keep_rule(kept, owner@);
                lemma_filter_wf(kept, |c: PlaybackChannel| !c.state.is_music);
                lemma_filter_counts(kept, |c: PlaybackChannel| !c.state.is_music);
                lemma_no_music_left(kept);
            }
        } else {
            let count = self.count_effects();
            if count >= MAX_SOUND_EFFECTS {
                return None;
            }
        }
        let id = self.next_channel_id;
        self.next_channel_id = if self.next_channel_id == usize::MAX {
            1
        } else {
            self.next_channel_id + 1
        };
        let mut o = String::new();
        crate::text::push_str(&mut o, owner);
        let ghost before = self.channels@;
        self.channels.push(
            PlaybackChannel {
                state: SavedChannel {
                    id,
                    owner: o,
                    source,
                    position: 0,
                    loops_remaining: if repeat != 0xFF {
                        Some(repeat as u32)
                    } else {
                        None
                    },
                    is_music,
                },
                samples,
                finished: false,
            },
        );
        assert(self.channels@.drop_last() =~= before);
        assert(self.channels@ =~= before.push(self.channels@.last()));
        assert forall|i: int| 0 <= i < self.channels@.len() implies (#[trigger] self.channels@[i]).wf() by {
            if i < before.len() {
                assert(self.channels@[i] == before[i]);
            }
        }
        proof {
            before.lemma_filter_push(self.channels@.last(), |c: PlaybackChannel| !c.state.is_music);
            before.lemma_filter_push(self.channels@.last(), |c: PlaybackChannel| c.state.is_music);
        }
        Some(id)
    }

    /// The number of sound-effect channels.
    fn count_effects(&self) -> (r: usize)
        ensures
            r == effects(self.channels@).len(),
    {
        let ghost all = self.channels@;
        let mut count: usize = 0;
        let mut i: usize = 0;
        assert(all.subrange(0, 0) =~= Seq::<PlaybackChannel>::empty());
        while i < self.channels.len()
            invariant
                all == self.channels@,
                i <= all.len(),
                count == effects(all.subrange(0, i as int)).len(),
                count <= i,
            decreases all.len() - i,
        {
            proof {
                assert(all.subrange(0, i + 1) =~= all.subrange(0, i as int).push(all[i as int]));
                all.subrange(0, i as int).lemma_filter_push(all[i as int], |c: PlaybackChannel| !c.state.is_music);
            }
            if !self.channels[i].state.is_music {
                count = count + 1;
            }
            i = i + 1;
        }
        assert(all.subrange(0, all.len() as int) =~= all);
        count
    }

    /// Stops every channel.
    pub fn stop_all(&mut self)
        ensures
            final(self).wf(),
            final(self).channels@.len() == 0,
            final(self).next_channel_id == old(self).next_channel_id,
            final(self).sample_frame_remainder == old(self).sample_frame_remainder,
    {
        self.channels.clear();
    }

    /// Stops the channels of `owner`.
    pub fn stop_for_movie(&mut self, owner: &str)
        requires
            old(self).wf(),
        ensures
            final(self).wf(),
            final(self).channels@ == not_owned_by(old(self).channels@, owner@),
            final(self).next_channel_id == old(self).next_channel_id,
            final(self).sample_frame_remainder == old(self).sample_frame_remainder,
    {
        let ghost before = self.channels@;
        self.retain_where(2, owner);
        proof {
            lemma_keep_rule(before, owner@);
            lemma_filter_wf(before, |c: PlaybackChannel| keep_rule(2, owner@, c));
            lemma_filter_counts(before, |c: PlaybackChannel| keep_rule(2, owner@, c));
        }
    }

    /// Whether the channel with id `id` plays on.
    pub fn is_channel_playing(&self, id: usize) -> (r: bool)
        ensures
            r == exists|i: int| 0 <= i < self.channels@.len() && #[trigger] self.channels@[i].state.id == id && !self.channels@[i].finished,
    {
        let mut i: usize = 0;
        while i < self.channels.len()
            invariant
                i <= self.channels@.len(),
                forall|j: int| 0 <= j < i ==> !(#[trigger] self.channels@[j].state.id == id && !self.channels@[j].finished),
            decreases self.channels@.len() - i,
        {
            if self.channels[i].state.id == id && !self.channels[i].finished {
                return true;
            }
            i = i + 1;
        }
        false
    }

    /// Whether any channel plays on.
    pub fn is_playing(&self) -> (r: bool)
        ensures
            r == exists|i: int| 0 <= i < self.channels@.len() && !(#[trigger] self.channels@[i]).finished,
    {
        let mut i: usize = 0;
        while i < self.channels.len()
            invariant
                i <= self.channels@.len(),
                forall|j: int| 0 <= j < i ==> (#[trigger] self.channels@[j]).finished,
            decreases self.channels@.len() - i,
        {
            if !self.channels[i].finished {
                return true;
            }
            i = i + 1;
        }
        false
    }

    /// How many stereo frames the next video frame (one thirtieth of a
    /// second) needs at `sample_rate`, carrying the fraction over.
    pub fn frames_for_tick(&mut self, sample_rate: u32) -> (r: usize)
        requires
            old(self).sample_frame_remainder < 30,
            sample_rate <= u32::MAX - 30,
        ensures
            r == (old(self).sample_frame_remainder + sample_rate) / 30,
            final(self).sample_frame_remainder == (old(self).sample_frame_remainder + sample_rate) % 30,
            final(self).channels == old(self).channels,
            final(self).next_channel_id == old(self).next_channel_id,
    {
        let total = self.sample_frame_remainder + sample_rate;
        self.sample_frame_remainder = total % 30;
        (total / 30) as usize
    }

    /// Mixes `frames` stereo frames: each channel in turn gives frames until
    /// it has given `frames` or gives none, and they are summed; the
    /// channels that finished are dropped afterwards.
    pub fn mix(&mut self, frames: usize) -> (r: Vec<(i32, i32)>)
        requires
            old(self).wf(),
        ensures
            final(self).wf(),
            r@.len() == frames,
            forall|f: int| 0 <= f < frames ==> (#[trigger] r@[f]).0 == mix_all(old(self).channels@, frames as nat).0[f].0
                && r@[f].1 == mix_all(old(self).channels@, frames as nat).0[f].1,
            final(self).channels@ == unfinished(mix_all(old(self).channels@, frames as nat).1),
            final(self).next_channel_id == old(self).next_channel_id,
            final(self).sample_frame_remainder == old(self).sample_frame_remainder,
    {
        let mut mixed: Vec<(i32, i32)> = Vec::new();
        let mut f: usize = 0;
        while f < frames
            invariant
                f <= frames,
                mixed@.len() == f,
                forall|j: int| 0 <= j < f ==> #[trigger] mixed@[j] == (0i32, 0i32),
            decreases frames - f,
        {
            mixed.push((0, 0));
            f = f + 1;
        }
        let ghost chs0 = self.channels@;
        proof {
            lemma_partition(chs0);
            assert(mix_all(chs0.subrange(0, 0), frames as nat).0 =~= Seq::new(frames as nat, |f: int| (0int, 0int)));
        }
        let n = self.channels.len();
        let mut done: Vec<PlaybackChannel> = Vec::new();
        let mut k: usize = 0;
        assert(chs0.subrange(0, 0) =~= Seq::<PlaybackChannel>::empty());
        while self.channels.len() > 0
            invariant
                n == chs0.len(),
                n <= MAX_SOUND_EFFECTS + 1,
                forall|i: int| 0 <= i < n ==> (#[trigger] chs0[i]).wf(),
                k + self.channels@.len() == n,
                self.channels@ == chs0.subrange(k as int, n as int),
                done@ == mix_all(chs0.subrange(0, k as int), frames as nat).1,
                mixed@.len() == frames,
                mix_all(chs0.subrange(0, k as int), frames as nat).0.len() == frames,
                forall|j: int| 0 <= j < frames ==> (#[trigger] mixed@[j]).0 == mix_all(chs0.subrange(0, k as int), frames as nat).0[j].0
                    && mixed@[j].1 == mix_all(chs0.subrange(0, k as int), frames as nat).0[j].1,
                forall|j: int| 0 <= j < frames ==> -32768 * k <= (#[trigger] mixed@[j]).0 <= 32767 * k && -32768 * k <= mixed@[j].1 <= 32767 * k,
                self.next_channel_id == old(self).next_channel_id,
                self.sample_frame_remainder == old(self).sample_frame_remainder,
            decreases self.channels@.len(),
        {
            let mut c = self.channels.remove(0);
            proof {
                assert(c == chs0[k as int]);
                assert(chs0.subrange(0, k + 1).drop_last() =~= chs0.subrange(0, k as int));
                assert(chs0.subrange(0, k + 1).last() == chs0[k as int]);
                lemma_mix_all_wf(chs0.subrange(0, k as int), frames as nat);
            }
            let ghost c0 = c;
            let ghost m0 = mixed@;
            let mut g: usize = 0;
            assert(produce(c0, 0).0 =~= Seq::<(i16, i16)>::empty());
            while g < frames
                invariant_except_break
                    g <= frames,
                    c.wf(),
                    mixed@.len() == frames,
                    produce(c0, g as nat).0.len() == g,
                    produce(c0, g as nat).1 == c,
                    forall|j: int| 0 <= j < frames ==> #[trigger] mixed@[j] == if j < g {
                        ((m0[j].0 + produce(c0, g as nat).0[j].0) as i32, (m0[j].1 + produce(c0, g as nat).0[j].1) as i32)
                    } else {
                        m0[j]
                    },
                    forall|j: int| 0 <= j < frames ==> -32768 * k <= (#[trigger] m0[j]).0 <= 32767 * k && -32768 * k <= m0[j].1 <= 32767 * k,
                    k < n,
                    n <= MAX_SOUND_EFFECTS + 1,
                ensures
                    c.wf(),
                    mixed@.len() == frames,
                    c == produce(c0, frames as nat).1,
                    forall|j: int| 0 <= j < frames ==> #[trigger] mixed@[j] == if j < produce(c0, frames as nat).0.len() {
                        ((m0[j].0 + produce(c0, frames as nat).0[j].0) as i32, (m0[j].1 + produce(c0, frames as nat).0[j].1) as i32)
                    } else {
                        m0[j]
                    },
                decreases frames - g,
            {
                let ghost before = c;
                let next = c.next_frame();
                assert(chan_next(before) == (next, c));
                match next {
                    None => {
                        proof {
                            lemma_produce_stop(c0, g as nat, before, frames as nat);
                        }
                        break;
                    },
                    Some((left, right)) => {
                        let old_pair = mixed[g];
                        proof {
                            assert(old_pair == m0[g as int]);
                            lemma_produce_snoc(c0, g as nat, before);
                        }
                        mixed.set(g, (old_pair.0 + left as i32, old_pair.1 + right as i32));
                        g = g + 1;
                    },
                }
            }
            done.push(c);
            proof {
                let acc = mix_all(chs0.subrange(0, k as int), frames as nat).0;
                let fs = produce(c0, frames as nat).0;
                lemma_produce_wf(c0, frames as nat);
                assert(mix_all(chs0.subrange(0, k + 1), frames as nat) == (add_frames(acc, fs), mix_all(chs0.subrange(0, k as int), frames as nat).1.push(c)));
                assert(done@ =~= mix_all(chs0.subrange(0, k + 1), frames as nat).1);
                assert forall|j: int| 0 <= j < frames implies (#[trigger] mixed@[j]).0 == mix_all(chs0.subrange(0, k + 1), frames as nat).0[j].0
                    && mixed@[j].1 == mix_all(chs0.subrange(0, k + 1), frames as nat).0[j].1
                    && -32768 * (k + 1) <= mixed@[j].0 <= 32767 * (k + 1) && -32768 * (k + 1) <= mixed@[j].1 <= 32767 * (k + 1) by {
                    assert(add_frames(acc, fs)[j] == if j < fs.len() {
                        (acc[j].0 + fs[j].0, acc[j].1 + fs[j].1)
                    } else {
                        acc[j]
                    });
                }
                assert(self.channels@ =~= chs0.subrange(k + 1, n as int));
            }
            k = k + 1;
        }
        assert(chs0.subrange(0, n as int) =~= chs0);
        self.channels = done;
        proof {
            lemma_mix_all_wf(chs0, frames as nat);
            lemma_same_flags_counts(chs0, mix_all(chs0, frames as nat).1);
        }
        let ghost mixed_all = self.channels@;
        self.retain_where(0, "");
        proof {
            lemma_keep_rule(mixed_all, ""@);
            lemma_filter_wf(mixed_all, |c: PlaybackChannel| !c.finished);
            lemma_filter_counts(mixed_all, |c: PlaybackChannel| !c.finished);
        }
        mixed
    }
}

/// One step of a channel keeps its samples in pairs.
proof fn lemma_chan_next_wf(c: PlaybackChannel)
    requires
        c.wf(),
    ensures
        chan_next(c).1.wf(),
        chan_next(c).1.samples == c.samples,
{
}

/// Giving frames keeps a channel's samples in pairs.
proof fn lemma_produce_wf(c: PlaybackChannel, k: nat)
    requires
        c.wf(),
    ensures
        produce(c, k).1.wf(),
        produce(c, k).1.state.is_music == c.state.is_music,
        produce(c, k).0.len() <= k,
    decreases k,
{
    if k > 0 {
        lemma_chan_next_wf(c);
        let (r, c1) = chan_next(c);
        if r is Some {
            lemma_produce_wf(c1, (k - 1) as nat);
        }
    }
}

/// Mixing keeps each channel's samples in pairs, and the number of
/// channels.
proof fn lemma_mix_all_wf(chs: Seq<PlaybackChannel>, frames: nat)
    requires
        forall|i: int| 0 <= i < chs.len() ==> (#[trigger] chs[i]).wf(),
    ensures
        forall|i: int| 0 <= i < mix_all(chs, frames).1.len() ==> (#[trigger] mix_all(chs, frames).1[i]).wf(),
        forall|i: int| 0 <= i < mix_all(chs, frames).1.len() ==> (#[trigger] mix_all(chs, frames).1[i]).state.is_music == chs[i].state.is_music,
        mix_all(chs, frames).1.len() == chs.len(),
        mix_all(chs, frames).0.len() == frames,
    decreases chs.len(),
{
    if chs.len() > 0 {
        lemma_mix_all_wf(chs.drop_last(), frames);
        assert(chs.drop_last().len() < chs.len());
        assert(chs[chs.len() - 1] == chs.last());
        lemma_produce_wf(chs.last(), frames);
        let (acc, done) = mix_all(chs.drop_last(), frames);
        let (fs, c2) = produce(chs.last(), frames);
        assert forall|i: int| 0 <= i < done.push(c2).len() implies (#[trigger] done.push(c2)[i]).wf() && done.push(c2)[i].state.is_music == chs[i].state.is_music by {
            if i < done.len() {
                assert(done.push(c2)[i] == done[i]);
                assert(chs.drop_last()[i] == chs[i]);
            }
        }
    }
}

/// Giving `g` frames and then one more is giving `g + 1` frames, while the
/// first `g` calls all gave a frame.
proof fn lemma_produce_snoc(c0: PlaybackChannel, g: nat, c: PlaybackChannel)
    requires
        produce(c0, g).0.len() == g,
        produce(c0, g).1 == c,
        chan_next(c).0 is Some,
    ensures
        produce(c0, g + 1).0 == produce(c0, g).0.push(chan_next(c).0->0),
        produce(c0, g + 1).1 == chan_next(c).1,
    decreases g,
{
    if g > 0 {
        let (r, c1) = chan_next(c0);
        assert(r is Some);
        assert(produce(c0, g) == (seq![r->0] + produce(c1, (g - 1) as nat).0, produce(c1, (g - 1) as nat).1));
        lemma_produce_snoc(c1, (g - 1) as nat, c);
        assert(produce(c0, g + 1) == (seq![r->0] + produce(c1, g).0, produce(c1, g).1));
        assert(seq![r->0] + produce(c1, (g - 1) as nat).0.push(chan_next(c).0->0) =~= (seq![r->0] + produce(c1, (g - 1) as nat).0).push(chan_next(c).0->0));
    } else {
        assert(c0 == c);
        assert(produce(chan_next(c).1, 0) == (Seq::<(i16, i16)>::empty(), chan_next(c).1));
        assert(produce(c, 1) == (seq![chan_next(c).0->0] + Seq::<(i16, i16)>::empty(), chan_next(c).1));
        assert(produce(c, 0).0 =~= Seq::<(i16, i16)>::empty());
        assert(produce(c, 1).0 =~= produce(c, 0).0.push(chan_next(c).0->0));
    }
}

/// Once a call gives no frame, later calls are not made: giving more
/// frames gives the same.
proof fn lemma_produce_stop(c0: PlaybackChannel, g: nat, c: PlaybackChannel, k: nat)
    requires
        produce(c0, g).0.len() == g,
        produce(c0, g).1 == c,
        chan_next(c).0 is None,
        k > g,
    ensures
        produce(c0, k) == (produce(c0, g).0, chan_next(c).1),
    decreases g,
{
    if g > 0 {
        let (r, c1) = chan_next(c0);
        assert(r is Some);
        assert(produce(c0, g) == (seq![r->0] + produce(c1, (g - 1) as nat).0, produce(c1, (g - 1) as nat).1));
        lemma_produce_stop(c1, (g - 1) as nat, c, (k - 1) as nat);
        assert(produce(c0, k) == (seq![r->0] + produce(c1, (k - 1) as nat).0, produce(c1, (k - 1) as nat).1));
    } else {
        assert(c0 == c);
        assert(produce(c, 0).0 =~= Seq::<(i16, i16)>::empty());
    }
}

/// Filtering keeps each channel's samples in pairs.
proof fn lemma_filter_wf(chs: Seq<PlaybackChannel>, keep: spec_fn(PlaybackChannel) -> bool)
    requires
        forall|i: int| 0 <= i < chs.len() ==> (#[trigger] chs[i]).wf(),
    ensures
        forall|i: int| 0 <= i < chs.filter(keep).len() ==> (#[trigger] chs.filter(keep)[i]).wf(),
        chs.filter(keep).len() <= chs.len(),
{
    broadcast use vstd::seq_lib::group_filter_ensures;
    assert forall|i: int| 0 <= i < chs.filter(keep).len() implies (#[trigger] chs.filter(keep)[i]).wf() by {
        let x = chs.filter(keep)[i];
        assert(chs.filter(keep).contains(x));
        chs.lemma_filter_contains_rev(keep, x);
    }
}

/// The passes of `keep_rule` are the ones named.
proof fn lemma_keep_rule(chs: Seq<PlaybackChannel>, owner: Seq<char>)
    ensures
        chs.filter(|c: PlaybackChannel| keep_rule(0, owner, c)) == unfinished(chs),
        chs.filter(|c: PlaybackChannel| keep_rule(1, owner, c)) == chs.filter(|c: PlaybackChannel| !c.state.is_music),
        chs.filter(|c: PlaybackChannel| keep_rule(2, owner, c)) == not_owned_by(chs, owner),
{
    assert((|c: PlaybackChannel| keep_rule(0, owner, c)) =~= (|c: PlaybackChannel| !c.finished));
    assert((|c: PlaybackChannel| keep_rule(1, owner, c)) =~= (|c: PlaybackChannel| !c.state.is_music));
}

/// Every channel plays either music or an effect.
proof fn lemma_partition(chs: Seq<PlaybackChannel>)
    ensures
        chs.len() == effects(chs).len() + musics(chs).len(),
    decreases chs.len(),
{
    if chs.len() > 0 {
        let rest = chs.drop_last();
        lemma_partition(rest);
        assert(chs =~= rest.push(chs.last()));
        rest.lemma_filter_push(chs.last(), |c: PlaybackChannel| !c.state.is_music);
        rest.lemma_filter_push(chs.last(), |c: PlaybackChannel| c.state.is_music);
    }
}

/// Keeping some channels keeps at most as many effects and as much music.
proof fn lemma_filter_counts(chs: Seq<PlaybackChannel>, keep: spec_fn(PlaybackChannel) -> bool)
    ensures
        effects(chs.filter(keep)).len() <= effects(chs).len(),
        musics(chs.filter(keep)).len() <= musics(chs).len(),
    decreases chs.len(),
{
    if chs.len() > 0 {
        let rest = chs.drop_last();
        let x = chs.last();
        lemma_filter_counts(rest, keep);
        assert(chs =~= rest.push(x));
        rest.lemma_filter_push(x, keep);
        rest.lemma_filter_push(x, |c: PlaybackChannel| !c.state.is_music);
        rest.lemma_filter_push(x, |c: PlaybackChannel| c.state.is_music);
        rest.filter(keep).lemma_filter_push(x, |c: PlaybackChannel| !c.state.is_music);
        rest.filter(keep).lemma_filter_push(x, |c: PlaybackChannel| c.state.is_music);
    }
}

/// Once the music is taken out, none is left.
proof fn lemma_no_music_left(chs: Seq<PlaybackChannel>)
    ensures
        musics(chs.filter(|c: PlaybackChannel| !c.state.is_music)).len() == 0,
        effects(chs.filter(|c: PlaybackChannel| !c.state.is_music)).len() == effects(chs).len(),
    decreases chs.len(),
{
    if chs.len() > 0 {
        let rest = chs.drop_last();
        let x = chs.last();
        let p = |c: PlaybackChannel| !c.state.is_music;
        lemma_no_music_left(rest);
        assert(chs =~= rest.push(x));
        rest.lemma_filter_push(x, p);
        rest.lemma_filter_push(x, |c: PlaybackChannel| c.state.is_music);
        rest.filter(p).lemma_filter_push(x, p);
        rest.filter(p).lemma_filter_push(x, |c: PlaybackChannel| c.state.is_music);
    }
}

/// Channels with the same kinds, one for one, have as many effects and as
/// much music.
proof fn lemma_same_flags_counts(a: Seq<PlaybackChannel>, b: Seq<PlaybackChannel>)
    requires
        a.len() == b.len(),
        forall|i: int| 0 <= i < b.len() ==> (#[trigger] b[i]).state.is_music == a[i].state.is_music,
    ensures
        effects(a).len() == effects(b).len(),
        musics(a).len() == musics(b).len(),
    decreases a.len(),
{
    if a.len() > 0 {
        let ra = a.drop_last();
        let rb = b.drop_last();
        assert forall|i: int| 0 <= i < rb.len() implies (#[trigger] rb[i]).state.is_music == ra[i].state.is_music by {
            assert(rb[i] == b[i] && ra[i] == a[i]);
        }
        lemma_same_flags_counts(ra, rb);
        assert(a =~= ra.push(a.last()));
        assert(b =~= rb.push(b.last()));
        assert(b[b.len() - 1] == b.last() && a[a.len() - 1] == a.last());
        ra.lemma_filter_push(a.last(), |c: PlaybackChannel| !c.state.is_music);
        ra.lemma_filter_push(a.last(), |c: PlaybackChannel| c.state.is_music);
        rb.lemma_filter_push(b.last(), |c: PlaybackChannel| !c.state.is_music);
        rb.lemma_filter_push(b.last(), |c: PlaybackChannel| c.state.is_music);
    }
}


/// The repeat count (high byte) and the sound number (low byte) that a
/// movie frame's sound field holds.
pub fn split_sound_value(value: u16) -> (r: (u8, u32))
    ensures
        r.0 == value / 256,
        r.1 == value % 256,
{
    let repeat = (value >> 8) as u8;
    let index = (value & 0xFF) as u32;
    proof {
        assert(value >> 8u16 == value / 256) by (bit_vector);
        assert(value & 0xFFu16 == value % 256) by (bit_vector);
    }
    (repeat, index)
}

} // verus!
