//! Where a game keeps its save data: a `.ssl_sav` file beside the game file.

use vstd::prelude::*;

use crate::text::{chars_of, push_char};

verus! {

/// The save file of one game.
#[derive(Debug, Clone)]
pub struct SaveManager {
    /// The path of the save file.
    pub save_path: String,
}

impl SaveManager {
    /// The save file of the game at `game_path`: the same path with
    /// `.ssl_sav` appended.
    pub fn new(game_path: &str) -> (r: Self)
        ensures
            r.save_path@ == game_path@ + ".ssl_sav"@,
    {
        let mut p = String::new();
        let a = chars_of(game_path);
        let b = chars_of(".ssl_sav");
        let mut i: usize = 0;
        while i < a.len()
            invariant
                i <= a@.len(),
                a@ == game_path@,
                p@ == a@.subrange(0, i as int),
            decreases a@.len() - i,
        {
            push_char(&mut p, a[i]);
            i = i + 1;
            assert(p@ =~= a@.subrange(0, i as int));
        }
        assert(a@.subrange(0, a@.len() as int) =~= a@);
        let mut j: usize = 0;
        while j < b.len()
            invariant
                j <= b@.len(),
                a@ == game_path@,
                b@ == ".ssl_sav"@,
                p@ == a@ + b@.subrange(0, j as int),
            decreases b@.len() - j,
        {
            push_char(&mut p, b[j]);
            j = j + 1;
            assert(p@ =~= a@ + b@.subrange(0, j as int));
        }
        assert(b@.subrange(0, b@.len() as int) =~= b@);
        SaveManager { save_path: p }
    }
}

} // verus!
