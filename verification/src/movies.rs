//! Movie clips on the emulator's clock: every second tick each playing clip
//! that waits for nothing moves to its next frame (wrapping to the first),
//! and a frame that is due is shown, giving the sound and the action the
//! driver then plays and runs.

use vstd::prelude::*;

use crate::audio_engine::Mixer;
use crate::file_loader::{MovieFrame, Native32Reader};
use crate::sprite_system::{inserted, lookup, MovieState, SpriteEntry, SpriteSystem};

verus! {

/// Whether a clip moves on by itself: it plays, no frame is pending and no
/// sound of it is playing.
pub open spec fn moves_on(m: MovieState) -> bool {
    m.playing && m.next_frame is None && m.sound_channel is None
}

/// A clip after a tick of the clock, its movie having `len` frames: on an
/// even tick a clip that moves on schedules the next frame, or the first
/// after the last.
pub open spec fn scheduled(m: MovieState, len: int, tick: u64) -> MovieState {
    if moves_on(m) && len > 0 && tick % 2 == 0 {
        MovieState {
            next_frame: Some(
                if m.frame < len - 1 {
                    (m.frame + 1) as isize
                } else {
                    0isize
                },
            ),
            ..m
        }
    } else {
        m
    }
}

/// The clips after a tick of the clock.
pub open spec fn scheduled_all(r: Native32Reader, s: Seq<SpriteEntry>, tick: u64) -> Seq<SpriteEntry> {
    s.map_values(|e: SpriteEntry| (e.0, scheduled(e.1, r.movie_of(e.1.movie as int).len() as int, tick)))
}

/// Every clip that moves on names a movie.
pub open spec fn movies_named(s: Seq<SpriteEntry>) -> bool {
    forall|i: int| 0 <= i < s.len() && moves_on(#[trigger] s[i].1) ==> s[i].1.movie >= 1
}

/// Schedules the next frame of each clip that moves on, on even ticks.
pub fn schedule_movie_frames(sprites: &mut SpriteSystem, reader: &mut Native32Reader, tick: u64)
    requires
        old(reader).caches_agree(),
        movies_named(old(sprites)@),
    ensures
        final(sprites)@ == scheduled_all(*old(reader), old(sprites)@, tick),
        final(reader).same_layout(*old(reader)),
        final(reader).caches_agree(),
{
    let ghost s0 = sprites@;
    let ghost r0 = *reader;
    let n = sprites.sprites.len();
    let mut i: usize = 0;
    while i < n
        invariant
            n == sprites.sprites@.len(),
            n == s0.len(),
            i <= n,
            reader.same_layout(r0),
            reader.caches_agree(),
            movies_named(s0),
            forall|j: int| 0 <= j < n ==> (#[trigger] sprites@[j]).0 == s0[j].0,
            forall|j: int|
                0 <= j < n ==> (#[trigger] sprites@[j]).1 == if j < i {
                    scheduled(s0[j].1, r0.movie_of(s0[j].1.movie as int).len() as int, tick)
                } else {
                    s0[j].1
                },
        decreases n - i,
    {
        let m = sprites.sprites[i].1;
        assert(m == s0[i as int].1) by {
            assert(sprites@[i as int].1 == m);
        }
        if m.playing && m.next_frame.is_none() && m.sound_channel.is_none() {
            assert(moves_on(s0[i as int].1));
            let frames = reader.get_movie(m.movie);
            if frames.len() > 0 && tick % 2 == 0 {
                let next: isize = if m.frame < frames.len() - 1 {
                    (m.frame + 1) as isize
                } else {
                    0
                };
                let ghost before = sprites@;
                let list = sprites.iter_mut();
                let mut e = list[i].1;
                e.next_frame = Some(next);
                list[i].1 = e;
                assert forall|j: int| 0 <= j < n implies (#[trigger] sprites@[j]).0 == s0[j].0 by {
                    if j != i {
                        assert(sprites@[j] == before[j]);
                    }
                }
                assert forall|j: int| 0 <= j < n implies (#[trigger] sprites@[j]).1 == if j < i + 1 {
                    scheduled(s0[j].1, r0.movie_of(s0[j].1.movie as int).len() as int, tick)
                } else {
                    s0[j].1
                } by {
                    if j != i {
                        assert(sprites@[j] == before[j]);
                    }
                }
            }
        }
        i = i + 1;
    }
    assert(sprites@ =~= scheduled_all(r0, s0, tick));
}

/// The frame a clip shows once its pending frame `nf` is taken, its movie
/// having `len` frames: -1 is the first, a frame past the end keeps the
/// current one.
pub open spec fn frame_taken(m: MovieState, nf: isize, len: int) -> usize {
    if nf == -1 {
        0
    } else if (nf as usize) < len {
        nf as usize
    } else {
        m.frame
    }
}

/// Shows the pending frame of the clip named `name`, if it has one: the
/// clip moves to it and nothing is pending any more. Returns the sound and
/// the action of the frame now shown, when the clip's movie has it.
pub fn show_due_frame(sprites: &mut SpriteSystem, reader: &mut Native32Reader, name: &str) -> (r: Option<(u16, u16)>)
    requires
        old(reader).caches_agree(),
        old(sprites).wf(),
        match lookup(old(sprites)@, name@) {
            Some(m) => m.next_frame is Some ==> m.movie >= 1,
            None => true,
        },
    ensures
        final(reader).same_layout(*old(reader)),
        final(reader).caches_agree(),
        final(sprites).wf(),
        match lookup(old(sprites)@, name@) {
            Some(m) => match m.next_frame {
                Some(nf) => {
                    let frames = old(reader).movie_of(m.movie as int);
                    let f = frame_taken(m, nf, frames.len() as int);
                    &&& final(sprites)@ == inserted(
                        old(sprites)@,
                        name@,
                        MovieState { frame: f, next_frame: None, ..m },
                    )
                    &&& r == if f < frames.len() {
                        Some((frames[f as int].sound, frames[f as int].action))
                    } else {
                        None::<(u16, u16)>
                    }
                },
                None => final(sprites)@ == old(sprites)@ && r is None,
            },
            None => final(sprites)@ == old(sprites)@ && r is None,
        },
{
    let m = match sprites.get(name) {
        Some(m) => *m,
        None => return None,
    };
    let nf = match m.next_frame {
        Some(nf) => nf,
        None => return None,
    };
    let frames = reader.get_movie(m.movie);
    let f: usize = if nf == -1 {
        0
    } else if (nf as usize) < frames.len() {
        nf as usize
    } else {
        m.frame
    };
    let mut shown = m;
    shown.frame = f;
    shown.next_frame = None;
    let key = name_string(name);
    sprites.insert(key, shown);
    if f < frames.len() {
        let mf: &MovieFrame = &frames[f];
        Some((mf.sound, mf.action))
    } else {
        None
    }
}

/// An owned copy of a name.
fn name_string(name: &str) -> (r: String)
    ensures
        r@ == name@,
{
    let cs = crate::text::chars_of(name);
    crate::text::string_from_chars(cs.as_slice())
}

/// The frame number (from 1) a movie reports as its current frame: the
/// pending frame (not below the first) when one is set, else the frame
/// after the one shown while it plays, else the one shown; numbers taken
/// modulo 2^32 before the step, as the frame is read as a `u32`.
pub open spec fn current_frame_number(m: MovieState) -> int {
    match m.next_frame {
        Some(nf) => (if nf < 0 {
            0isize
        } else {
            nf
        }) as u32 + 1,
        None => if m.playing {
            m.frame as u32 + 2
        } else {
            m.frame as u32 + 1
        },
    }
}

/// The `CurrentFrame` property of `m`; none when the number does not fit
/// in a `u32`.
pub fn current_frame_property(m: &MovieState) -> (r: Option<u32>)
    ensures
        r == (if current_frame_number(*m) <= u32::MAX {
            Some(current_frame_number(*m) as u32)
        } else {
            None
        }),
{
    let (base, step): (u32, u32) = match m.next_frame {
        Some(nf) => ((if nf < 0 {
            0isize
        } else {
            nf
        }) as u32, 1),
        None => if m.playing {
            (m.frame as u32, 2)
        } else {
            (m.frame as u32, 1)
        },
    };
    base.checked_add(step)
}


/// Whether the mixer's channel `id` plays on.
pub open spec fn channel_plays(mixer: Mixer, id: usize) -> bool {
    exists|i: int| 0 <= i < mixer.channels@.len() && #[trigger] mixer.channels@[i].state.id == id && !mixer.channels@[i].finished
}

/// The movie `m` with its sound let go once that sound has ended.
pub open spec fn sound_released(m: MovieState, mixer: Mixer) -> MovieState {
    match m.sound_channel {
        Some(id) => if channel_plays(mixer, id) {
            m
        } else {
            MovieState { sound_channel: None, ..m }
        },
        None => m,
    }
}

/// Lets each movie whose sound has ended in `mixer` go on: a sound that
/// no longer plays no longer holds its movie.
pub fn release_ended_sounds(sprites: &mut SpriteSystem, mixer: &Mixer)
    ensures
        final(sprites)@.len() == old(sprites)@.len(),
        forall|i: int|
            0 <= i < old(sprites)@.len() ==> #[trigger] final(sprites)@[i] == (
                old(sprites)@[i].0,
                sound_released(old(sprites)@[i].1, *mixer),
            ),
        old(sprites).wf() ==> final(sprites).wf(),
{
    let ghost before = sprites@;
    let mut i: usize = 0;
    while i < sprites.sprites.len()
        invariant
            sprites@.len() == before.len(),
            i <= before.len(),
            forall|k: int|
                0 <= k < before.len() ==> #[trigger] sprites@[k] == if k < i {
                    (before[k].0, sound_released(before[k].1, *mixer))
                } else {
                    before[k]
                },
        decreases before.len() - i,
    {
        let m = sprites.sprites[i].1;
        let release = match m.sound_channel {
            Some(id) => !mixer.is_channel_playing(id),
            None => false,
        };
        if release {
            let name = sprites.sprites[i].0.clone();
            let ghost cur = sprites@;
            let ghost nv = name@;
            let ghost released = MovieState { sound_channel: None, ..m };
            proof {
                assert(nv == cur[i as int].0);
                assert(cur[i as int] == before[i as int]);
                assert(m == before[i as int].1);
                assert(sound_released(m, *mixer) == released);
            }
            sprites.sprites.set(i, (name, MovieState { sound_channel: None, ..m }));
            proof {
                assert(sprites@[i as int] == (nv, released));
                assert forall|k: int| 0 <= k < before.len() implies #[trigger] sprites@[k] == if k < i + 1 {
                    (before[k].0, sound_released(before[k].1, *mixer))
                } else {
                    before[k]
                } by {
                    if k != i {
                        assert(sprites@[k] == cur[k]);
                    }
                }
            }
        }
        i = i + 1;
    }
    proof {
        if before.len() > 0 {
            assert(forall|k: int| 0 <= k < before.len() ==> #[trigger] sprites@[k].0 == before[k].0);
        }
    }
}

} // verus!
