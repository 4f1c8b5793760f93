//! The game list of the menu front-end.
//!
//! The menu builds its game list by asking the host for the number of games
//! in a directory, then for the first and each next game name. A game is a
//! `.smf` file (extension in any ASCII case); its name is the file name
//! without the extension. Names are sorted by their lowercase form, names
//! with the same lowercase form in the order the directory gave them.

use vstd::prelude::*;

use crate::text::{
    ascii_lower, chars_between, chars_of, equals_str, ascii_lowercase, find_last, last_index_of,
    lex_less, lowercase, str_less, string_from_chars, to_lowercase,
};

verus! {

/// The game name of a file name: the part before the last `.` when the
/// extension after it is `smf` in any ASCII case; a name starting with its
/// only `.` has no extension.
pub open spec fn smf_stem(name: Seq<char>) -> Option<Seq<char>> {
    let d = last_index_of(name, '.');
    if d <= 0 {
        None
    } else if ascii_lower(name.subrange(d + 1, name.len() as int)) == "smf"@ {
        Some(name.subrange(0, d))
    } else {
        None
    }
}

/// The game names of a directory listing, in listing order.
pub open spec fn game_names(listing: Seq<Seq<char>>) -> Seq<Seq<char>>
    decreases listing.len(),
{
    if listing.len() == 0 {
        Seq::empty()
    } else {
        let r = game_names(listing.drop_last());
        match smf_stem(listing.last()) {
            Some(s) => r.push(s),
            None => r,
        }
    }
}

/// Where a name goes in a list sorted by lowercase form: after every name
/// at the end of the list whose lowercase form does not sort after its own.
pub open spec fn name_insert_pos(sorted: Seq<Seq<char>>, name: Seq<char>) -> int
    decreases sorted.len(),
{
    if sorted.len() > 0 && lex_less(lowercase(name), lowercase(sorted.last())) {
        name_insert_pos(sorted.drop_last(), name)
    } else {
        sorted.len() as int
    }
}

/// The names sorted by lowercase form, equal forms in their order.
pub open spec fn sort_names(l: Seq<Seq<char>>) -> Seq<Seq<char>>
    decreases l.len(),
{
    if l.len() == 0 {
        l
    } else {
        let s = sort_names(l.drop_last());
        s.insert(name_insert_pos(s, l.last()), l.last())
    }
}

/// The sorted game names of a directory listing.
pub open spec fn game_list(listing: Seq<Seq<char>>) -> Seq<Seq<char>> {
    sort_names(game_names(listing))
}

/// Names as characters.
pub open spec fn names_of(v: Seq<String>) -> Seq<Seq<char>> {
    v.map_values(|s: String| s@)
}

/// The game name of a file name, if it is a game.
pub fn game_stem(name: &str) -> (r: Option<String>)
    ensures
        match r {
            Some(s) => smf_stem(name@) == Some(s@),
            None => smf_stem(name@) is None,
        },
{
    let cs = chars_of(name);
    let n = cs.len();
    match find_last(&cs, '.') {
        Some(d) => {
            if d == 0 {
                return None;
            }
            let ext = ascii_lowercase(&chars_between(&cs, d + 1, n));
            if equals_str(&ext, "smf") {
                Some(string_from_chars(chars_between(&cs, 0, d).as_slice()))
            } else {
                None
            }
        },
        None => None,
    }
}

/// The state of the game list: the names of the last listed directory, and
/// the position of the next name to hand out.
pub struct FileBrowser {
    entries: Vec<String>,
    cursor: usize,
}

impl View for FileBrowser {
    /// The names, and the position of the current one.
    type V = (Seq<Seq<char>>, nat);

    closed spec fn view(&self) -> (Seq<Seq<char>>, nat) {
        (names_of(self.entries@), self.cursor as nat)
    }
}

impl Default for FileBrowser {
    fn default() -> (r: Self)
        ensures
            r@ == (Seq::<Seq<char>>::empty(), 0nat),
    {
        FileBrowser::new()
    }
}

/// The name at `i`, or the empty string past the end.
pub open spec fn name_or_empty(names: Seq<Seq<char>>, i: int) -> Seq<char> {
    if 0 <= i < names.len() {
        names[i]
    } else {
        Seq::empty()
    }
}

impl FileBrowser {
    pub fn new() -> (r: Self)
        ensures
            r@ == (Seq::<Seq<char>>::empty(), 0nat),
    {
        let r = FileBrowser { entries: Vec::new(), cursor: 0 };
        assert(names_of(r.entries@) =~= Seq::<Seq<char>>::empty());
        r
    }

    /// Replaces the names with the sorted games of a directory listing (the
    /// file names of its files) and goes back to the first.
    fn refresh(&mut self, listing: &Vec<String>)
        ensures
            final(self)@ == (game_list(names_of(listing@)), 0nat),
    {
        let ghost all = names_of(listing@);
        let mut sorted: Vec<String> = Vec::new();
        let mut keys: Vec<String> = Vec::new();
        let mut i: usize = 0;
        assert(all.subrange(0, 0) =~= Seq::<Seq<char>>::empty());
        assert(names_of(sorted@) =~= Seq::<Seq<char>>::empty());
        while i < listing.len()
            invariant
                i <= listing@.len(),
                all == names_of(listing@),
                names_of(sorted@) == sort_names(game_names(all.subrange(0, i as int))),
                keys@.len() == sorted@.len(),
                forall|k: int| 0 <= k < keys@.len() ==> #[trigger] keys@[k]@ == lowercase(sorted@[k]@),
            decreases listing@.len() - i,
        {
            let ghost before = names_of(sorted@);
            let ghost gn = game_names(all.subrange(0, i as int));
            assert(all.subrange(0, i + 1).drop_last() =~= all.subrange(0, i as int));
            assert(all.subrange(0, i + 1).last() == listing@[i as int]@);
            assert(before == sort_names(gn));
            match game_stem(listing[i].as_str()) {
                Some(stem) => {
                    let key = to_lowercase(stem.as_str());
                    let mut p: usize = sorted.len();
                    assert(before.subrange(0, p as int) =~= before);
                    while p > 0 && str_less(key.as_str(), keys[p - 1].as_str())
                        invariant
                            p <= sorted@.len(),
                            keys@.len() == sorted@.len(),
                            before == names_of(sorted@),
                            forall|k: int| 0 <= k < keys@.len() ==> #[trigger] keys@[k]@ == lowercase(sorted@[k]@),
                            key@ == lowercase(stem@),
                            name_insert_pos(before, stem@) == name_insert_pos(before.subrange(0, p as int), stem@),
                        decreases p,
                    {
                        assert(before.subrange(0, p as int).drop_last() =~= before.subrange(0, p - 1));
                        assert(keys@[p - 1]@ == lowercase(before[p - 1]));
                        p = p - 1;
                    }
                    assert(name_insert_pos(before.subrange(0, p as int), stem@) == p) by {
                        if p > 0 {
                            assert(before.subrange(0, p as int).last() == before[p - 1]);
                            assert(keys@[p - 1]@ == lowercase(before[p - 1]));
                        }
                    }
                    let ghost sv = stem@;
                    let ghost old_keys = keys@;
                    let ghost old_sorted = sorted@;
                    sorted.insert(p, stem);
                    keys.insert(p, key);
                    assert(names_of(sorted@) =~= before.insert(p as int, sv));
                    assert(game_names(all.subrange(0, i + 1)) == gn.push(sv));
                    assert(gn.push(sv).drop_last() =~= gn);
                    assert(sort_names(gn.push(sv)) == before.insert(name_insert_pos(before, sv), sv));
                    assert forall|k: int| 0 <= k < keys@.len() implies #[trigger] keys@[k]@ == lowercase(sorted@[k]@) by {
                        if k < p {
                            assert(keys@[k] == old_keys[k] && sorted@[k] == old_sorted[k]);
                        } else if k > p {
                            assert(keys@[k] == old_keys[k - 1] && sorted@[k] == old_sorted[k - 1]);
                        }
                    }
                },
                None => {
                    assert(game_names(all.subrange(0, i + 1)) == gn);
                },
            }
            i = i + 1;
        }
        assert(all.subrange(0, listing@.len() as int) =~= all);
        self.entries = sorted;
        self.cursor = 0;
    }

    /// The current name, or the empty string past the end.
    fn current(&self) -> (r: String)
        ensures
            r@ == name_or_empty(self@.0, self@.1 as int),
    {
        if self.cursor < self.entries.len() {
            self.entries[self.cursor].clone()
        } else {
            String::new()
        }
    }

    /// The number of games in a directory, given its listing (the file
    /// names of its files; none when the directory does not resolve).
    pub fn file_count(&mut self, listing: &Vec<String>) -> (r: usize)
        ensures
            final(self)@ == (game_list(names_of(listing@)), 0nat),
            r == game_list(names_of(listing@)).len(),
    {
        self.refresh(listing);
        self.entries.len()
    }

    /// Starts over on a directory, given its listing, and returns its first
    /// game name (the empty string when it has none).
    pub fn first_file(&mut self, listing: &Vec<String>) -> (r: String)
        ensures
            final(self)@ == (game_list(names_of(listing@)), 0nat),
            r@ == name_or_empty(game_list(names_of(listing@)), 0),
    {
        self.refresh(listing);
        self.current()
    }

    /// Moves on and returns the next game name (the empty string once the
    /// list is exhausted).
    pub fn next_file(&mut self) -> (r: String)
        requires
            old(self)@.1 < usize::MAX,
        ensures
            final(self)@ == (old(self)@.0, old(self)@.1 + 1),
            r@ == name_or_empty(old(self)@.0, old(self)@.1 as int + 1),
    {
        self.cursor = self.cursor + 1;
        self.current()
    }
}

} // verus!
