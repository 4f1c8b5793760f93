//! Movie instances on the stage: which movie clips are placed under which
//! name, where they stand, and how far each has played.
//!
//! The instances are kept in placement order, each name at most once.

use vstd::prelude::*;

use crate::file_loader::{objects_view, FrameObject, FrameObjectView, ObjectType};
use crate::text::{chars_of, str_eq, string_from_chars};
use vstd::std_specs::iter::IteratorSpec;

verus! {

/// State of one placed movie clip.
#[derive(Debug, Clone, Copy)]
pub struct MovieState {
    pub movie: u32,
    pub x: i16,
    pub y: i16,
    pub depth: u16,
    pub frame: usize,
    pub visible: bool,
    pub playing: bool,
    pub cloned: bool,
    pub sound_channel: Option<usize>,
    pub next_frame: Option<isize>,
}

/// A movie just placed: at its first frame, visible, playing, not cloned,
/// with its first frame still to be shown.
pub open spec fn fresh_movie(movie: u32, x: i16, y: i16, depth: u16) -> MovieState {
    MovieState {
        movie,
        x,
        y,
        depth,
        frame: 0,
        visible: true,
        playing: true,
        cloned: false,
        sound_channel: None,
        next_frame: Some(0),
    }
}

/// The clone of `m` placed at `depth`.
pub open spec fn clone_of(m: MovieState, depth: u16) -> MovieState {
    MovieState {
        movie: m.movie,
        x: m.x,
        y: m.y,
        depth,
        frame: 0,
        visible: true,
        playing: m.playing,
        cloned: true,
        sound_channel: None,
        next_frame: Some(m.frame as isize),
    }
}

impl MovieState {
    pub fn new(movie: u32, x: i16, y: i16, depth: u16) -> (r: Self)
        ensures
            r == fresh_movie(movie, x, y, depth),
    {
        MovieState {
            movie,
            x,
            y,
            depth,
            frame: 0,
            visible: true,
            playing: true,
            cloned: false,
            sound_channel: None,
            next_frame: Some(0),
        }
    }
}

/// A named movie instance: its name as characters, and its state.
pub type SpriteEntry = (Seq<char>, MovieState);

/// The movie instances, in placement order.
#[derive(Debug, Clone)]
pub struct SpriteSystem {
    pub sprites: Vec<(String, MovieState)>,
}

/// Named instances with their names as characters.
pub open spec fn entries(v: Seq<(String, MovieState)>) -> Seq<SpriteEntry> {
    v.map_values(|p: (String, MovieState)| (p.0@, p.1))
}

/// Names as characters.
pub open spec fn names_view(v: Seq<String>) -> Seq<Seq<char>> {
    v.map_values(|n: String| n@)
}

impl View for SpriteSystem {
    type V = Seq<SpriteEntry>;

    open spec fn view(&self) -> Seq<SpriteEntry> {
        entries(self.sprites@)
    }
}

/// No name occurs twice.
pub open spec fn names_distinct(s: Seq<SpriteEntry>) -> bool {
    forall|i: int, j: int| 0 <= i < j < s.len() ==> s[i].0 != s[j].0
}

/// Some instance has this name.
pub open spec fn has_name(s: Seq<SpriteEntry>, name: Seq<char>) -> bool {
    exists|i: int| 0 <= i < s.len() && s[i].0 == name
}

/// `i` is the first instance with this name.
pub open spec fn first_named(s: Seq<SpriteEntry>, name: Seq<char>, i: int) -> bool {
    &&& 0 <= i < s.len()
    &&& s[i].0 == name
    &&& forall|j: int| 0 <= j < i ==> s[j].0 != name
}

/// The first instance with this name.
pub open spec fn first_index(s: Seq<SpriteEntry>, name: Seq<char>) -> int {
    choose|i: int| first_named(s, name, i)
}

/// The state of the instance with this name, if any.
pub open spec fn lookup(s: Seq<SpriteEntry>, name: Seq<char>) -> Option<MovieState> {
    if has_name(s, name) {
        Some(s[first_index(s, name)].1)
    } else {
        None
    }
}

/// The instances after placing `state` under `name`: the instance of that
/// name is replaced in its place, or the new one comes last.
pub open spec fn inserted(s: Seq<SpriteEntry>, name: Seq<char>, state: MovieState) -> Seq<SpriteEntry> {
    if has_name(s, name) {
        s.update(first_index(s, name), (name, state))
    } else {
        s.push((name, state))
    }
}

/// The instances after taking out the one named `name`.
pub open spec fn removed(s: Seq<SpriteEntry>, name: Seq<char>) -> Seq<SpriteEntry> {
    if has_name(s, name) {
        s.remove(first_index(s, name))
    } else {
        s
    }
}

/// The first instance with a name is the one `first_index` names.
proof fn lemma_first_index(s: Seq<SpriteEntry>, name: Seq<char>, i: int)
    requires
        first_named(s, name, i),
    ensures
        first_index(s, name) == i,
        has_name(s, name),
{
    let j = first_index(s, name);
    assert(first_named(s, name, j));
    if j < i {
        assert(s[j].0 != name);
    } else if i < j {
        assert(s[i].0 != name);
    }
}

/// A movie that advances on this tick: playing, with no frame pending and
/// no sound holding it, on an even tick.
pub open spec fn advances(m: MovieState, tick_count: u64) -> bool {
    m.playing && m.next_frame is None && m.sound_channel is None && tick_count % 2 == 0
}

/// One movie after a tick: an advancing movie asks for its next frame.
pub open spec fn ticked(m: MovieState, tick_count: u64) -> MovieState {
    if advances(m, tick_count) {
        MovieState { next_frame: Some((m.frame + 1) as isize), ..m }
    } else {
        m
    }
}

/// A non-cloned instance that a frame object would place again under
/// another name: same movie, same depth.
pub open spec fn same_identity(m: MovieState, o: FrameObjectView) -> bool {
    !m.cloned && m.movie == o.1 as u32 && m.depth == o.4
}

/// Some instance has the identity of this object.
pub open spec fn has_identity(s: Seq<SpriteEntry>, o: FrameObjectView) -> bool {
    exists|i: int| 0 <= i < s.len() && same_identity(s[i].1, o)
}

/// `i` is the first instance with the identity of this object.
pub open spec fn first_identity_at(s: Seq<SpriteEntry>, o: FrameObjectView, i: int) -> bool {
    &&& 0 <= i < s.len()
    &&& same_identity(s[i].1, o)
    &&& forall|j: int| 0 <= j < i ==> !same_identity(s[j].1, o)
}

/// The first instance with the identity of this object.
pub open spec fn first_identity(s: Seq<SpriteEntry>, o: FrameObjectView) -> int {
    choose|i: int| first_identity_at(s, o, i)
}

/// One object of a new frame, applied to the instances and to the list of
/// names that the frame keeps. A named movie object keeps the instance of
/// that name; failing that, the first instance of the same identity;
/// failing that, it places a fresh instance under its name.
pub open spec fn frame_step(
    st: (Seq<SpriteEntry>, Seq<Seq<char>>),
    o: FrameObjectView,
) -> (Seq<SpriteEntry>, Seq<Seq<char>>) {
    let s = st.0;
    let keep = st.1;
    if o.0 == ObjectType::Movie && o.5 is Some {
        let n = o.5->0;
        if has_name(s, n) {
            (s, keep.push(n))
        } else if has_identity(s, o) {
            (s, keep.push(s[first_identity(s, o)].0))
        } else {
            (s.push((n, fresh_movie(o.1 as u32, o.2, o.3, o.4))), keep.push(n))
        }
    } else {
        st
    }
}

/// The objects of a frame, applied in order.
pub open spec fn frame_steps(
    st: (Seq<SpriteEntry>, Seq<Seq<char>>),
    objs: Seq<FrameObjectView>,
) -> (Seq<SpriteEntry>, Seq<Seq<char>>)
    decreases objs.len(),
{
    if objs.len() == 0 {
        st
    } else {
        frame_step(frame_steps(st, objs.drop_last()), objs.last())
    }
}

/// An instance that stays after a frame change: cloned, or kept by the frame.
pub open spec fn survives(e: SpriteEntry, keep: Seq<Seq<char>>) -> bool {
    e.1.cloned || keep.contains(e.0)
}

/// The instances that stay, in order.
pub open spec fn survivors(s: Seq<SpriteEntry>, keep: Seq<Seq<char>>) -> Seq<SpriteEntry>
    decreases s.len(),
{
    if s.len() == 0 {
        s
    } else {
        let r = survivors(s.drop_last(), keep);
        if survives(s.last(), keep) {
            r.push(s.last())
        } else {
            r
        }
    }
}

/// The instances after a new frame with these objects is loaded.
pub open spec fn after_frame(s: Seq<SpriteEntry>, objs: Seq<FrameObjectView>) -> Seq<SpriteEntry> {
    let st = frame_steps((s, Seq::empty()), objs);
    survivors(st.0, st.1)
}

/// The first instance with an identity is the one `first_identity` names.
proof fn lemma_first_identity(s: Seq<SpriteEntry>, o: FrameObjectView, i: int)
    requires
        first_identity_at(s, o, i),
    ensures
        first_identity(s, o) == i,
{
    let j = first_identity(s, o);
    assert(first_identity_at(s, o, j));
    if j < i {
        assert(!same_identity(s[j].1, o));
    } else if i < j {
        assert(!same_identity(s[i].1, o));
    }
}

/// The instances that stay are instances of `s`, and keep their names
/// distinct.
#[verifier::spinoff_prover]
proof fn lemma_survivors_distinct(s: Seq<SpriteEntry>, keep: Seq<Seq<char>>)
    requires
        names_distinct(s),
    ensures
        names_distinct(survivors(s, keep)),
        forall|a: int|
            0 <= a < survivors(s, keep).len() ==> #[trigger] has_name(s, survivors(s, keep)[a].0),
    decreases s.len(),
{
    if s.len() > 0 {
        let d = s.drop_last();
        assert(names_distinct(d));
        lemma_survivors_distinct(d, keep);
        let r = survivors(d, keep);
        assert forall|a: int| 0 <= a < r.len() implies #[trigger] has_name(s, r[a].0) by {
            assert(has_name(d, r[a].0));
            let j = choose|j: int| 0 <= j < d.len() && d[j].0 == r[a].0;
            assert(s[j].0 == r[a].0);
        }
        if survives(s.last(), keep) {
            let r2 = r.push(s.last());
            assert forall|a: int| 0 <= a < r.len() implies r2[a].0 != s.last().0 by {
                assert(has_name(d, r[a].0));
                let j = choose|j: int| 0 <= j < d.len() && d[j].0 == r[a].0;
                assert(s[j].0 == d[j].0);
            }
            assert(has_name(s, s.last().0)) by {
                assert(s[s.len() - 1].0 == s.last().0);
            }
            assert(survivors(s, keep) == r2);
            assert forall|a: int| 0 <= a < r2.len() implies #[trigger] has_name(s, r2[a].0) by {
                if a < r.len() {
                    assert(r2[a] == r[a]);
                }
            }
        } else {
            assert(survivors(s, keep) == r);
        }
    } else {
        assert(survivors(s, keep).len() == 0);
    }
}

/// With distinct names, an instance of a name is the first of it.
proof fn lemma_distinct_index(s: Seq<SpriteEntry>, name: Seq<char>, i: int)
    requires
        names_distinct(s),
        0 <= i < s.len(),
        s[i].0 == name,
    ensures
        first_index(s, name) == i,
        has_name(s, name),
{
    assert(first_named(s, name, i));
    lemma_first_index(s, name, i);
}

/// Placing a state under a name and then reading that name gives the state
/// back; every other name reads as before, and names stay distinct.
pub proof fn lemma_insert_then_lookup(
    s: Seq<SpriteEntry>,
    name: Seq<char>,
    state: MovieState,
    other: Seq<char>,
)
    requires
        names_distinct(s),
    ensures
        lookup(inserted(s, name, state), name) == Some(state),
        other != name ==> lookup(inserted(s, name, state), other) == lookup(s, other),
        names_distinct(inserted(s, name, state)),
{
    let t = inserted(s, name, state);
    if has_name(s, name) {
        let i = choose|i: int| 0 <= i < s.len() && s[i].0 == name;
        lemma_distinct_index(s, name, i);
        assert(t == s.update(i, (name, state)));
        assert(names_distinct(t));
        lemma_distinct_index(t, name, i);
        if other != name && has_name(s, other) {
            let j = choose|j: int| 0 <= j < s.len() && s[j].0 == other;
            lemma_distinct_index(s, other, j);
            lemma_distinct_index(t, other, j);
        }
        if other != name && has_name(t, other) {
            let j = choose|j: int| 0 <= j < t.len() && t[j].0 == other;
            assert(s[j].0 == other);
        }
    } else {
        assert(t == s.push((name, state)));
        assert forall|a: int, b: int| 0 <= a < b < t.len() implies t[a].0 != t[b].0 by {
            if b == s.len() {
                assert(s[a].0 != name);
            }
        }
        lemma_distinct_index(t, name, s.len() as int);
        if other != name && has_name(s, other) {
            let j = choose|j: int| 0 <= j < s.len() && s[j].0 == other;
            lemma_distinct_index(s, other, j);
            lemma_distinct_index(t, other, j);
        }
        if other != name && has_name(t, other) {
            let j = choose|j: int| 0 <= j < t.len() && t[j].0 == other;
            assert(j < s.len());
            assert(s[j].0 == other);
        }
    }
}

/// After taking out a name, reading it finds nothing; every other name
/// reads as before, and names stay distinct.
pub proof fn lemma_remove_then_lookup(s: Seq<SpriteEntry>, name: Seq<char>, other: Seq<char>)
    requires
        names_distinct(s),
    ensures
        lookup(removed(s, name), name) is None,
        other != name ==> lookup(removed(s, name), other) == lookup(s, other),
        names_distinct(removed(s, name)),
{
    let t = removed(s, name);
    if has_name(s, name) {
        let i = choose|i: int| 0 <= i < s.len() && s[i].0 == name;
        lemma_distinct_index(s, name, i);
        assert(t == s.remove(i));
        assert forall|a: int, b: int| 0 <= a < b < t.len() implies t[a].0 != t[b].0 by {
            let a2 = if a < i { a } else { a + 1 };
            let b2 = if b < i { b } else { b + 1 };
            assert(t[a] == s[a2]);
            assert(t[b] == s[b2]);
        }
        if has_name(t, name) {
            let j = choose|j: int| 0 <= j < t.len() && t[j].0 == name;
            let j2 = if j < i { j } else { j + 1 };
            assert(t[j] == s[j2]);
        }
        if other != name && has_name(s, other) {
            let j = choose|j: int| 0 <= j < s.len() && s[j].0 == other;
            lemma_distinct_index(s, other, j);
            let j2 = if j < i { j } else { j - 1 };
            assert(t[j2] == s[j]);
            lemma_distinct_index(t, other, j2);
        }
        if other != name && has_name(t, other) {
            let j = choose|j: int| 0 <= j < t.len() && t[j].0 == other;
            let j2 = if j < i { j } else { j + 1 };
            assert(t[j] == s[j2]);
        }
    }
}

/// A tick does nothing more when repeated with the same count.
pub proof fn lemma_tick_idempotent(m: MovieState, tick_count: u64)
    ensures
        ticked(ticked(m, tick_count), tick_count) == ticked(m, tick_count),
{
}

/// Applying frame objects only adds instances after the existing ones, and
/// only adds kept names.
proof fn lemma_steps_extend(st: (Seq<SpriteEntry>, Seq<Seq<char>>), objs: Seq<FrameObjectView>)
    ensures
        frame_steps(st, objs).0.len() >= st.0.len(),
        forall|j: int| 0 <= j < st.0.len() ==> #[trigger] frame_steps(st, objs).0[j] == st.0[j],
        forall|x: Seq<char>| st.1.contains(x) ==> #[trigger] frame_steps(st, objs).1.contains(x),
    decreases objs.len(),
{
    if objs.len() > 0 {
        lemma_steps_extend(st, objs.drop_last());
        let mid = frame_steps(st, objs.drop_last());
        assert forall|x: Seq<char>| mid.1.contains(x) implies #[trigger] frame_step(mid, objs.last()).1.contains(x) by {
            let k = choose|k: int| 0 <= k < mid.1.len() && mid.1[k] == x;
            assert(frame_step(mid, objs.last()).1[k] == x);
        }
    }
}

/// A movie object of the frame keeps an instance of its name that exists
/// before the frame change.
proof fn lemma_steps_keep_named(
    st: (Seq<SpriteEntry>, Seq<Seq<char>>),
    objs: Seq<FrameObjectView>,
    k: int,
    n: Seq<char>,
)
    requires
        0 <= k < objs.len(),
        objs[k].0 == ObjectType::Movie,
        objs[k].5 == Some(n),
        has_name(st.0, n),
    ensures
        frame_steps(st, objs).1.contains(n),
    decreases objs.len(),
{
    let d = objs.drop_last();
    lemma_steps_extend(st, d);
    let mid = frame_steps(st, d);
    if k == objs.len() - 1 {
        let i = choose|i: int| 0 <= i < st.0.len() && st.0[i].0 == n;
        assert(mid.0[i].0 == n);
        assert(has_name(mid.0, n));
        let last = frame_step(mid, objs.last());
        assert(last.1 == mid.1.push(n));
        assert(last.1[mid.1.len() as int] == n);
    } else {
        lemma_steps_keep_named(st, d, k, n);
        let last = frame_step(mid, objs.last());
        let j = choose|j: int| 0 <= j < mid.1.len() && mid.1[j] == n;
        assert(last.1[j] == n);
    }
}

/// An instance that survives a frame change is among the survivors.
proof fn lemma_survivors_contain(s: Seq<SpriteEntry>, keep: Seq<Seq<char>>, i: int)
    requires
        0 <= i < s.len(),
        survives(s[i], keep),
    ensures
        survivors(s, keep).contains(s[i]),
    decreases s.len(),
{
    let r = survivors(s.drop_last(), keep);
    if i == s.len() - 1 {
        assert(survivors(s, keep) == r.push(s[i]));
        assert(survivors(s, keep)[r.len() as int] == s[i]);
    } else {
        lemma_survivors_contain(s.drop_last(), keep, i);
        let j = choose|j: int| 0 <= j < r.len() && r[j] == s[i];
        if survives(s.last(), keep) {
            assert(survivors(s, keep)[j] == s[i]);
        } else {
            assert(survivors(s, keep) == r);
        }
    }
}

/// A cloned instance survives every frame change, unchanged.
pub proof fn lemma_frame_keeps_cloned(s: Seq<SpriteEntry>, objs: Seq<FrameObjectView>, i: int)
    requires
        0 <= i < s.len(),
        s[i].1.cloned,
    ensures
        after_frame(s, objs).contains(s[i]),
{
    let st = frame_steps((s, Seq::empty()), objs);
    lemma_steps_extend((s, Seq::empty()), objs);
    assert(st.0[i] == s[i]);
    lemma_survivors_contain(st.0, st.1, i);
}

/// An instance that a movie object of the new frame names keeps its state
/// through the frame change.
pub proof fn lemma_frame_keeps_named(
    s: Seq<SpriteEntry>,
    objs: Seq<FrameObjectView>,
    i: int,
    k: int,
)
    requires
        0 <= i < s.len(),
        0 <= k < objs.len(),
        objs[k].0 == ObjectType::Movie,
        objs[k].5 == Some(s[i].0),
    ensures
        after_frame(s, objs).contains(s[i]),
{
    let st0 = (s, Seq::<Seq<char>>::empty());
    let st = frame_steps(st0, objs);
    lemma_steps_extend(st0, objs);
    assert(st.0[i] == s[i]);
    lemma_steps_keep_named(st0, objs, k, s[i].0);
    lemma_survivors_contain(st.0, st.1, i);
}

/// Whether `names` holds `name`.
fn holds_name(names: &Vec<String>, name: &str) -> (r: bool)
    ensures
        r == names_view(names@).contains(name@),
{
    let mut i: usize = 0;
    while i < names.len()
        invariant
            i <= names@.len(),
            forall|j: int| 0 <= j < i ==> #[trigger] names@[j]@ != name@,
        decreases names@.len() - i,
    {
        if str_eq(names[i].as_str(), name) {
            assert(names_view(names@)[i as int] == name@);
            return true;
        }
        i = i + 1;
    }
    assert forall|j: int| 0 <= j < names_view(names@).len() implies names_view(names@)[j] != name@ by {
        assert(names@[j]@ != name@);
    }
    false
}

impl Default for SpriteSystem {
    fn default() -> (r: Self)
        ensures
            r@.len() == 0,
    {
        SpriteSystem::new()
    }
}

impl SpriteSystem {
    /// Every name occurs at most once.
    pub open spec fn wf(&self) -> bool {
        names_distinct(self@)
    }

    pub fn new() -> (r: Self)
        ensures
            r@.len() == 0,
            r.wf(),
    {
        let r = SpriteSystem { sprites: Vec::new() };
        assert(r@ =~= Seq::<SpriteEntry>::empty());
        r
    }

    /// The position of the first instance named `name`.
    fn position(&self, name: &str) -> (r: Option<usize>)
        ensures
            match r {
                Some(i) => first_named(self@, name@, i as int),
                None => !has_name(self@, name@),
            },
    {
        let mut i: usize = 0;
        while i < self.sprites.len()
            invariant
                i <= self.sprites@.len(),
                forall|j: int| 0 <= j < i ==> self@[j].0 != name@,
            decreases self.sprites@.len() - i,
        {
            if str_eq(self.sprites[i].0.as_str(), name) {
                return Some(i);
            }
            i = i + 1;
        }
        None
    }

    /// The state of the instance named `name`.
    pub fn get(&self, name: &str) -> (r: Option<&MovieState>)
        ensures
            match r {
                Some(m) => lookup(self@, name@) == Some(*m),
                None => lookup(self@, name@) is None,
            },
    {
        match self.position(name) {
            Some(i) => {
                proof {
                    lemma_first_index(self@, name@, i as int);
                }
                Some(&self.sprites[i].1)
            },
            None => None,
        }
    }

    /// The state of the instance named `name`, to change in place.
    pub fn get_mut(&mut self, name: &str) -> (r: Option<&mut MovieState>)
        ensures
            match r {
                Some(m) => lookup(old(self)@, name@) == Some(*m) && final(self)@ == inserted(
                    old(self)@,
                    name@,
                    *final(m),
                ),
                None => lookup(old(self)@, name@) is None && final(self)@ == old(self)@,
            },
    {
        match self.position(name) {
            Some(i) => {
                proof {
                    lemma_first_index(self@, name@, i as int);
                }
                Some(&mut self.sprites[i].1)
            },
            None => None,
        }
    }

    /// Takes out the instance named `name`; the others keep their order.
    pub fn remove(&mut self, name: &str) -> (r: Option<MovieState>)
        ensures
            r == lookup(old(self)@, name@),
            final(self)@ == removed(old(self)@, name@),
            old(self).wf() ==> final(self).wf(),
    {
        match self.position(name) {
            Some(i) => {
                let ghost before = self@;
                proof {
                    lemma_first_index(self@, name@, i as int);
                }
                let (_, m) = self.sprites.remove(i);
                assert(self@ =~= before.remove(i as int));
                Some(m)
            },
            None => None,
        }
    }

    /// Places `state` under `name`, replacing the instance of that name if
    /// there is one, else adding it last.
    pub fn insert(&mut self, name: String, state: MovieState)
        ensures
            final(self)@ == inserted(old(self)@, name@, state),
            old(self).wf() ==> final(self).wf(),
    {
        let ghost before = self@;
        match self.position(name.as_str()) {
            Some(i) => {
                proof {
                    lemma_first_index(self@, name@, i as int);
                }
                self.sprites[i] = (name, state);
                assert(self@ =~= before.update(i as int, (name@, state)));
            },
            None => {
                self.sprites.push((name, state));
                assert(self@ =~= before.push((name@, state)));
            },
        }
    }

    /// Starts or stops the instance named `name`, if there is one.
    pub fn set_playing(&mut self, name: &str, playing: bool)
        ensures
            final(self)@ == match lookup(old(self)@, name@) {
                Some(m) => inserted(old(self)@, name@, MovieState { playing, ..m }),
                None => old(self)@,
            },
            old(self).wf() ==> final(self).wf(),
    {
        let mut state = match self.get(name) {
            Some(m) => *m,
            None => {
                return;
            },
        };
        state.playing = playing;
        let key = string_from_chars(chars_of(name).as_slice());
        self.insert(key, state);
    }

    /// The copy of instance `src` placed as `dest` at `depth`: the same
    /// movie, position and play state, at its first frame, visible, marked
    /// as a clone and with the original's frame to be shown next. Nothing
    /// happens when there is no instance `src`.
    pub fn clone_instance(&mut self, src: &str, dest: String, depth: u16)
        ensures
            final(self)@ == match lookup(old(self)@, src@) {
                Some(m) => inserted(old(self)@, dest@, clone_of(m, depth)),
                None => old(self)@,
            },
            old(self).wf() ==> final(self).wf(),
    {
        let orig = match self.get(src) {
            Some(m) => *m,
            None => {
                return;
            },
        };
        let mut state = MovieState::new(orig.movie, orig.x, orig.y, depth);
        state.frame = 0;
        state.visible = true;
        state.playing = orig.playing;
        state.cloned = true;
        state.next_frame = Some(orig.frame as isize);
        self.insert(dest, state);
    }

    /// The instances in order, to read.
    pub fn iter(&self) -> (r: std::slice::Iter<'_, (String, MovieState)>)
        ensures
            IteratorSpec::remaining(&r) == self.sprites@.as_ref(),
    {
        broadcast use vstd::std_specs::slice::group_slice_axioms;

        self.sprites.as_slice().iter()
    }

    /// The instances in order, to change in place.
    pub fn iter_mut(&mut self) -> (r: &mut Vec<(String, MovieState)>)
        ensures
            *r == old(self).sprites,
            final(self).sprites == *final(r),
    {
        &mut self.sprites
    }

    /// Advances the movies by one tick of the main timeline: movies run at
    /// half the main rate, so on an even tick each playing movie with no
    /// frame pending and no sound holding it asks for its next frame.
    pub fn tick(&mut self, tick_count: u64)
        requires
            forall|i: int| 0 <= i < old(self)@.len() ==> old(self)@[i].1.frame < isize::MAX,
        ensures
            final(self)@.len() == old(self)@.len(),
            forall|i: int|
                0 <= i < old(self)@.len() ==> #[trigger] final(self)@[i] == (
                    old(self)@[i].0,
                    ticked(old(self)@[i].1, tick_count),
                ),
    {
        let ghost before = self@;
        let even = tick_count % 2 == 0;
        let mut i: usize = 0;
        while i < self.sprites.len()
            invariant
                i <= self.sprites@.len(),
                self@.len() == before.len(),
                even == (tick_count % 2 == 0),
                forall|j: int| 0 <= j < before.len() ==> before[j].1.frame < isize::MAX,
                forall|j: int|
                    #![trigger self.sprites@[j]]
                    0 <= j < i ==> self.sprites@[j].0@ == before[j].0 && self.sprites@[j].1
                        == ticked(before[j].1, tick_count),
                forall|j: int|
                    #![trigger self.sprites@[j]]
                    i <= j < before.len() ==> self.sprites@[j].0@ == before[j].0
                        && self.sprites@[j].1 == before[j].1,
            decreases self.sprites@.len() - i,
        {
            let m = self.sprites[i].1;
            assert(self.sprites@[i as int].1 == before[i as int].1);
            if m.playing && m.next_frame.is_none() && m.sound_channel.is_none() && even {
                let next: isize = m.frame as isize + 1;
                let ghost prev = self.sprites@;
                self.sprites[i].1.next_frame = Some(next);
                assert(self.sprites@[i as int].1 == ticked(before[i as int].1, tick_count));
                assert(forall|j: int| 0 <= j < prev.len() && j != i ==> self.sprites@[j] == prev[j]);
            }
            i = i + 1;
        }
        assert forall|j: int| 0 <= j < before.len() implies #[trigger] self@[j] == (
            before[j].0,
            ticked(before[j].1, tick_count),
        ) by {
            assert(self.sprites@[j].0@ == before[j].0);
        }
    }

    /// The first instance with the identity of the object `obj`.
    fn identity_position(&self, obj: &FrameObject) -> (r: Option<usize>)
        ensures
            match r {
                Some(i) => first_identity_at(self@, obj@, i as int),
                None => !has_identity(self@, obj@),
            },
    {
        let movie = obj.index as u32;
        let mut i: usize = 0;
        while i < self.sprites.len()
            invariant
                i <= self.sprites@.len(),
                movie == obj@.1 as u32,
                forall|j: int| 0 <= j < i ==> !same_identity(#[trigger] self@[j].1, obj@),
            decreases self.sprites@.len() - i,
        {
            let m = &self.sprites[i].1;
            if !m.cloned && m.movie == movie && m.depth == obj.depth {
                return Some(i);
            }
            i = i + 1;
        }
        None
    }

    /// Loads the movie instances of a new frame. Each named movie object of
    /// the frame keeps the instance of its name; failing that, the first
    /// non-cloned instance of the same movie at the same depth (an
    /// instance renamed since); failing that, it places a fresh instance
    /// under its name. Then every instance that is neither cloned nor kept
    /// is removed.
    pub fn update_for_frame(&mut self, frame_objects: &[FrameObject])
        requires
            old(self).wf(),
        ensures
            final(self)@ == after_frame(old(self)@, objects_view(frame_objects@)),
            final(self).wf(),
    {
        let ghost objs = objects_view(frame_objects@);
        let ghost start = self@;
        let mut keep: Vec<String> = Vec::new();
        let mut k: usize = 0;
        assert(objs.subrange(0, 0) =~= Seq::<FrameObjectView>::empty());
        assert(names_view(keep@) =~= Seq::<Seq<char>>::empty());
        while k < frame_objects.len()
            invariant
                k <= frame_objects@.len(),
                objs == objects_view(frame_objects@),
                (self@, names_view(keep@)) == frame_steps((start, Seq::empty()), objs.subrange(0, k as int)),
                self.wf(),
            decreases frame_objects@.len() - k,
        {
            let obj = &frame_objects[k];
            let ghost o = obj@;
            let ghost prev = (self@, names_view(keep@));
            assert(objs.subrange(0, k + 1).drop_last() =~= objs.subrange(0, k as int));
            assert(objs.subrange(0, k + 1).last() == o);
            if obj.obj_type == ObjectType::Movie {
                match &obj.name {
                    Some(name) => {
                        if self.contains_key(name.as_str()) {
                            keep.push(name.clone());
                            assert(names_view(keep@) =~= prev.1.push(name@));
                        } else {
                            match self.identity_position(obj) {
                                Some(i) => {
                                    proof {
                                        lemma_first_identity(self@, o, i as int);
                                    }
                                    keep.push(self.sprites[i].0.clone());
                                    assert(names_view(keep@) =~= prev.1.push(self@[i as int].0));
                                },
                                None => {
                                    let state = MovieState::new(obj.index as u32, obj.x, obj.y, obj.depth);
                                    self.sprites.push((name.clone(), state));
                                    keep.push(name.clone());
                                    assert(self@ =~= prev.0.push((name@, state)));
                                    assert(names_view(keep@) =~= prev.1.push(name@));
                                },
                            }
                        }
                    },
                    None => {},
                }
            }
            k = k + 1;
        }
        assert(objs.subrange(0, frame_objects@.len() as int) =~= objs);
        let ghost mid = self@;
        let ghost kept_names = names_view(keep@);
        let mut kept: Vec<(String, MovieState)> = Vec::new();
        let mut i: usize = 0;
        assert(mid.subrange(0, 0) =~= Seq::<SpriteEntry>::empty());
        assert(entries(kept@) =~= Seq::<SpriteEntry>::empty());
        while i < self.sprites.len()
            invariant
                i <= self.sprites@.len(),
                self@ == mid,
                kept_names == names_view(keep@),
                entries(kept@) == survivors(mid.subrange(0, i as int), kept_names),
            decreases self.sprites@.len() - i,
        {
            let e = &self.sprites[i];
            assert(mid.subrange(0, i + 1).drop_last() =~= mid.subrange(0, i as int));
            assert(mid.subrange(0, i + 1).last() == mid[i as int]);
            if e.1.cloned || holds_name(&keep, e.0.as_str()) {
                let ghost before = entries(kept@);
                kept.push((e.0.clone(), e.1));
                assert(entries(kept@) =~= before.push(mid[i as int]));
            }
            i = i + 1;
        }
        assert(mid.subrange(0, mid.len() as int) =~= mid);
        proof {
            lemma_survivors_distinct(mid, kept_names);
        }
        self.sprites = kept;
    }

    /// Whether an instance is named `name`.
    pub fn contains_key(&self, name: &str) -> (r: bool)
        ensures
            r == has_name(self@, name@),
    {
        self.position(name).is_some()
    }
}

} // verus!
