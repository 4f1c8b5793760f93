//! Switching between the files of a multi-file game: a game asks for
//! another content file by a relative path, which is normalized and kept
//! until the end of the current tick.

use vstd::prelude::*;

use crate::text::{chars_of, lowercase, push_char, to_lowercase, trim, trim_chars};

verus! {

/// The `/`-separated segments of `s`, empty ones included, as `str::split`
/// gives them.
pub open spec fn split_slash(s: Seq<char>) -> Seq<Seq<char>>
    decreases s.len(),
{
    if s.len() == 0 {
        seq![Seq::empty()]
    } else {
        let r = split_slash(s.drop_last());
        if s.last() == '/' {
            r.push(Seq::empty())
        } else {
            r.update(r.len() - 1, r.last().push(s.last()))
        }
    }
}

/// The segments trimmed of white space, empty ones left out.
pub open spec fn clean_parts(segs: Seq<Seq<char>>) -> Seq<Seq<char>>
    decreases segs.len(),
{
    if segs.len() == 0 {
        Seq::empty()
    } else {
        let r = clean_parts(segs.drop_last());
        let t = trim(segs.last());
        if t.len() > 0 {
            r.push(t)
        } else {
            r
        }
    }
}

/// The parts joined by `/`.
pub open spec fn join_slash(parts: Seq<Seq<char>>) -> Seq<char>
    decreases parts.len(),
{
    if parts.len() == 0 {
        Seq::empty()
    } else if parts.len() == 1 {
        parts[0]
    } else {
        join_slash(parts.drop_last()).push('/') + parts.last()
    }
}

/// The parts of a content path: its segments trimmed, empty ones left out.
pub open spec fn content_parts(filename: Seq<char>) -> Seq<Seq<char>> {
    clean_parts(split_slash(filename))
}

/// The normalized content path, when it has a part.
pub open spec fn normalized(filename: Seq<char>) -> Option<Seq<char>> {
    if content_parts(filename).len() == 0 {
        None
    } else {
        Some(join_slash(content_parts(filename)))
    }
}

/// The characters of an optional string.
pub open spec fn pending_view(p: Option<String>) -> Option<Seq<char>> {
    match p {
        Some(s) => Some(s@),
        None => None,
    }
}

/// The content file that is to be loaded at the end of the tick, if any.
#[derive(Debug, Clone)]
pub struct ContentLoader {
    pub pending_content: Option<String>,
}

impl Default for ContentLoader {
    fn default() -> (r: Self)
        ensures
            r.pending_content is None,
    {
        ContentLoader::new()
    }
}

/// Appends the characters of `part` to `out`.
fn push_all(out: &mut String, part: &Vec<char>)
    ensures
        final(out)@ == old(out)@ + part@,
{
    let ghost start = out@;
    let mut i: usize = 0;
    while i < part.len()
        invariant
            i <= part@.len(),
            out@ == start + part@.subrange(0, i as int),
        decreases part@.len() - i,
    {
        push_char(out, part[i]);
        i = i + 1;
        assert(out@ =~= start + part@.subrange(0, i as int));
    }
    assert(part@.subrange(0, part@.len() as int) =~= part@);
}

/// The parts kept from one finished segment.
fn add_part(parts: &mut Vec<Vec<char>>, seg: &Vec<char>, done: Ghost<Seq<Seq<char>>>)
    requires
        parts_view(old(parts)@) == clean_parts(done@),
    ensures
        parts_view(final(parts)@) == clean_parts(done@.push(seg@)),
{
    let t = trim_chars(seg);
    assert(done@.push(seg@).drop_last() =~= done@);
    if t.len() > 0 {
        let ghost before = parts_view(parts@);
        parts.push(t);
        assert(parts_view(parts@) =~= before.push(trim(seg@)));
    }
}

/// The characters of each part.
pub open spec fn parts_view(v: Seq<Vec<char>>) -> Seq<Seq<char>> {
    v.map_values(|p: Vec<char>| p@)
}

/// The normalized form of a content path: its `/`-separated segments,
/// trimmed of white space, empty ones left out, joined by `/`; `None` when
/// no part is left.
pub fn normalize_content_path(filename: &str) -> (r: Option<String>)
    ensures
        pending_view(r) == normalized(filename@),
{
    let cs = chars_of(filename);
    let mut parts: Vec<Vec<char>> = Vec::new();
    let mut cur: Vec<char> = Vec::new();
    let ghost mut done: Seq<Seq<char>> = Seq::empty();
    let mut i: usize = 0;
    assert(cs@.subrange(0, 0) =~= Seq::<char>::empty());
    assert(parts_view(parts@) =~= Seq::<Seq<char>>::empty());
    while i < cs.len()
        invariant
            i <= cs@.len(),
            cs@ == filename@,
            split_slash(cs@.subrange(0, i as int)) == done.push(cur@),
            parts_view(parts@) == clean_parts(done),
        decreases cs@.len() - i,
    {
        let c = cs[i];
        assert(cs@.subrange(0, i + 1).drop_last() =~= cs@.subrange(0, i as int));
        assert(cs@.subrange(0, i + 1).last() == c);
        if c == '/' {
            add_part(&mut parts, &cur, Ghost(done));
            proof {
                done = done.push(cur@);
            }
            cur = Vec::new();
            assert(split_slash(cs@.subrange(0, i + 1)) =~= done.push(cur@));
        } else {
            cur.push(c);
            assert(split_slash(cs@.subrange(0, i + 1)) =~= done.push(cur@));
        }
        i = i + 1;
    }
    add_part(&mut parts, &cur, Ghost(done));
    assert(cs@.subrange(0, cs@.len() as int) =~= cs@);
    let ghost all = parts_view(parts@);
    if parts.len() == 0 {
        return None;
    }
    let mut out = String::new();
    let mut k: usize = 0;
    while k < parts.len()
        invariant
            k <= parts@.len(),
            parts@.len() > 0,
            all == parts_view(parts@),
            k == 0 ==> out@ == Seq::<char>::empty(),
            k > 0 ==> out@ == join_slash(all.subrange(0, k as int)),
        decreases parts@.len() - k,
    {
        let ghost sub = all.subrange(0, k + 1);
        assert(sub.drop_last() =~= all.subrange(0, k as int));
        assert(sub.last() == parts@[k as int]@);
        if k > 0 {
            push_char(&mut out, '/');
        }
        push_all(&mut out, &parts[k]);
        k = k + 1;
        assert(k > 0 ==> out@ =~= join_slash(all.subrange(0, k as int)));
    }
    assert(all.subrange(0, all.len() as int) =~= all);
    Some(out)
}

/// Whether a directory entry named `name` stands for the path part
/// `target`: the same once both are lowercased and trimmed.
pub open spec fn entry_matches(name: Seq<char>, target: Seq<char>) -> bool {
    trim(lowercase(name)) == trim(lowercase(target))
}

/// Whether the entry `name` stands for the path part `target`, case and
/// surrounding white space aside (games pad directory names).
pub fn entry_name_matches(name: &str, target: &str) -> (r: bool)
    ensures
        r == entry_matches(name@, target@),
{
    let a = trim_chars(&chars_of(to_lowercase(name).as_str()));
    let b = trim_chars(&chars_of(to_lowercase(target).as_str()));
    if a.len() != b.len() {
        return false;
    }
    let mut i: usize = 0;
    while i < a.len()
        invariant
            a@ == trim(lowercase(name@)),
            b@ == trim(lowercase(target@)),
            a@.len() == b@.len(),
            i <= a@.len(),
            forall|k: int| 0 <= k < i ==> a@[k] == b@[k],
        decreases a@.len() - i,
    {
        if a[i] != b[i] {
            assert(a@[i as int] != b@[i as int]);
            return false;
        }
        i = i + 1;
    }
    assert(a@ =~= b@);
    true
}

impl ContentLoader {
    pub fn new() -> (r: Self)
        ensures
            r.pending_content is None,
    {
        ContentLoader { pending_content: None }
    }

    /// Marks a content file for loading at the end of the current tick.
    /// The path is normalized first (games pad directory names with
    /// spaces); a path with no part left is ignored.
    pub fn queue_load(&mut self, filename: &str)
        ensures
            normalized(filename@) is None ==> final(self).pending_content == old(
                self,
            ).pending_content,
            normalized(filename@) is Some ==> pending_view(final(self).pending_content)
                == normalized(filename@),
    {
        match normalize_content_path(filename) {
            Some(p) => {
                self.pending_content = Some(p);
            },
            None => {},
        }
    }

    /// Whether a content file waits to be loaded.
    pub fn has_pending(&self) -> (r: bool)
        ensures
            r == self.pending_content is Some,
    {
        self.pending_content.is_some()
    }

    /// Takes the content file that waits to be loaded, leaving none.
    pub fn take_pending(&mut self) -> (r: Option<String>)
        ensures
            r == old(self).pending_content,
            final(self).pending_content is None,
    {
        self.pending_content.take()
    }
}

} // verus!
