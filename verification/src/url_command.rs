//! The `GetUrl2` host calls of the menus and games: the command is read
//! from the `+`-separated target (or, for the in-game `SSL` and `NAV`
//! calls, its second part), and the `url` names the variable that gets the
//! result or carries the call's argument.

use vstd::prelude::*;

use crate::content_loader::{normalize_content_path, normalized, parts_view};
use crate::menu_text::{i32_or_zero, parse_i32_or_zero, str_sub_field, sub_field};
use crate::text::{
    chars_of, equals_str, find_first, first_index_of, lowercase, push_str, string_from_chars,
    to_lowercase,
};

verus! {

/// The `c`-separated parts of `s`, empty ones included, as `str::split`
/// gives them.
pub open spec fn split_char(s: Seq<char>, c: char) -> Seq<Seq<char>>
    decreases s.len(),
{
    if s.len() == 0 {
        seq![Seq::empty()]
    } else {
        let r = split_char(s.drop_last(), c);
        if s.last() == c {
            r.push(Seq::empty())
        } else {
            r.update(r.len() - 1, r.last().push(s.last()))
        }
    }
}

/// There is always at least one part.
pub proof fn lemma_split_char_len(s: Seq<char>, c: char)
    ensures
        split_char(s, c).len() >= 1,
    decreases s.len(),
{
    if s.len() > 0 {
        lemma_split_char_len(s.drop_last(), c);
    }
}

/// The parts of `s` split at each `c`.
pub fn split_at_char(s: &Vec<char>, c: char) -> (r: Vec<Vec<char>>)
    ensures
        parts_view(r@) == split_char(s@, c),
        r@.len() >= 1,
{
    let mut parts: Vec<Vec<char>> = Vec::new();
    let mut cur: Vec<char> = Vec::new();
    let mut i: usize = 0;
    assert(s@.subrange(0, 0) =~= Seq::<char>::empty());
    assert(parts_view(parts@).push(cur@) =~= seq![Seq::<char>::empty()]);
    while i < s.len()
        invariant
            i <= s@.len(),
            split_char(s@.subrange(0, i as int), c) == parts_view(parts@).push(cur@),
        decreases s@.len() - i,
    {
        let ch = s[i];
        assert(s@.subrange(0, i + 1).drop_last() =~= s@.subrange(0, i as int));
        assert(s@.subrange(0, i + 1).last() == ch);
        let ghost before = parts_view(parts@);
        if ch == c {
            parts.push(cur);
            cur = Vec::new();
            assert(parts_view(parts@) =~= before.push(parts@.last()@));
            assert(split_char(s@.subrange(0, i + 1), c) =~= parts_view(parts@).push(cur@));
        } else {
            cur.push(ch);
            assert(split_char(s@.subrange(0, i + 1), c) =~= parts_view(parts@).push(cur@));
        }
        i = i + 1;
    }
    assert(s@.subrange(0, s@.len() as int) =~= s@);
    let ghost before = parts_view(parts@);
    parts.push(cur);
    assert(parts_view(parts@) =~= before.push(parts@.last()@));
    parts
}

/// What a `GetUrl2` host call asks of the emulator.
#[derive(Debug, PartialEq, Eq)]
pub enum UrlAction {
    /// Set the variable `name` to `value`.
    SetVar { name: String, value: String },
    /// Set the variable `var` to the number of files of the menu listing
    /// `menu`.
    CountFiles { var: String, menu: String },
    /// Set the variable `var` to the first file of the menu listing `menu`.
    FirstFile { var: String, menu: String },
    /// Set the variable `var` to the next file of the current listing.
    NextFile { var: String },
    /// Keep `context` as the menu's navigation context.
    SaveContext { context: String },
    /// Load the content file `path`.
    QueueLoad { path: String },
    /// Play the cutscene videos `videos` in turn, then load `content`.
    QueueVideos { videos: Vec<String>, content: String },
    /// Show a thumbnail as the LoadImage `spec` describes.
    LoadImage { spec: String },
    /// Read the save data into the variable `data_var`, and set
    /// `success_var` to "S" when there was some, else "N".
    LoadSave { data_var: String, success_var: String },
    /// Store `data` as the save data, and set `success_var` to "S" when it
    /// was stored.
    StoreSave { data: String, success_var: String },
    /// Move the screen to `x`, `y`.
    ScreenMove { x: i32, y: i32 },
    /// Nothing to do.
    Ignore,
}

/// An action with its strings as characters.
pub enum UrlActionView {
    SetVar { name: Seq<char>, value: Seq<char> },
    CountFiles { var: Seq<char>, menu: Seq<char> },
    FirstFile { var: Seq<char>, menu: Seq<char> },
    NextFile { var: Seq<char> },
    SaveContext { context: Seq<char> },
    QueueLoad { path: Seq<char> },
    QueueVideos { videos: Seq<Seq<char>>, content: Seq<char> },
    LoadImage { spec: Seq<char> },
    LoadSave { data_var: Seq<char>, success_var: Seq<char> },
    StoreSave { data: Seq<char>, success_var: Seq<char> },
    ScreenMove { x: i32, y: i32 },
    Ignore,
}

/// The characters of each string.
pub open spec fn strings_view(v: Seq<String>) -> Seq<Seq<char>> {
    v.map_values(|p: String| p@)
}

impl View for UrlAction {
    type V = UrlActionView;

    open spec fn view(&self) -> UrlActionView {
        match self {
            UrlAction::SetVar { name, value } => UrlActionView::SetVar { name: name@, value: value@ },
            UrlAction::CountFiles { var, menu } => UrlActionView::CountFiles { var: var@, menu: menu@ },
            UrlAction::FirstFile { var, menu } => UrlActionView::FirstFile { var: var@, menu: menu@ },
            UrlAction::NextFile { var } => UrlActionView::NextFile { var: var@ },
            UrlAction::SaveContext { context } => UrlActionView::SaveContext { context: context@ },
            UrlAction::QueueLoad { path } => UrlActionView::QueueLoad { path: path@ },
            UrlAction::QueueVideos { videos, content } => UrlActionView::QueueVideos {
                videos: strings_view(videos@),
                content: content@,
            },
            UrlAction::LoadImage { spec } => UrlActionView::LoadImage { spec: spec@ },
            UrlAction::LoadSave { data_var, success_var } => UrlActionView::LoadSave {
                data_var: data_var@,
                success_var: success_var@,
            },
            UrlAction::StoreSave { data, success_var } => UrlActionView::StoreSave {
                data: data@,
                success_var: success_var@,
            },
            UrlAction::ScreenMove { x, y } => UrlActionView::ScreenMove { x: *x, y: *y },
            UrlAction::Ignore => UrlActionView::Ignore,
        }
    }
}

/// The normalized paths of `names`, those with no part left dropped.
pub open spec fn normalized_all(names: Seq<Seq<char>>) -> Seq<Seq<char>>
    decreases names.len(),
{
    if names.len() == 0 {
        Seq::empty()
    } else {
        let r = normalized_all(names.drop_last());
        match normalized(names.last()) {
            Some(n) => r.push(n),
            None => r,
        }
    }
}

/// What follows the first `+` of `s`, or nothing.
pub open spec fn after_first_plus(s: Seq<char>) -> Seq<char> {
    let i = first_index_of(s, '+');
    if i >= 0 {
        s.subrange(i + 1, s.len() as int)
    } else {
        Seq::empty()
    }
}

/// The action of the host call `GetUrl2(url, target)`, with `context` the
/// navigation context kept so far. Variable names are lowercased; a
/// context never kept reads as "NULL".
pub open spec fn url_action_spec(url: Seq<char>, target: Seq<char>, context: Option<Seq<char>>) -> UrlActionView {
    let parts = split_char(target, '+');
    let cmd = parts[0];
    let arg = after_first_plus(target);
    let var = lowercase(url);
    if cmd == "GetFileNum"@ {
        UrlActionView::CountFiles { var, menu: arg }
    } else if cmd == "GetFirstFile"@ {
        UrlActionView::FirstFile { var, menu: arg }
    } else if cmd == "GetNextFile"@ {
        UrlActionView::NextFile { var }
    } else if cmd == "GetContext"@ {
        UrlActionView::SetVar {
            name: var,
            value: match context {
                Some(c) => c,
                None => "NULL"@,
            },
        }
    } else if cmd == "SaveContext"@ {
        UrlActionView::SaveContext { context: url }
    } else if cmd == "FHUI_StrSub"@ {
        UrlActionView::SetVar {
            name: var,
            value: if parts.len() < 4 {
                Seq::empty()
            } else {
                sub_field(parts[1], parts[2], parts[3])
            },
        }
    } else if cmd == "StartGame"@ {
        UrlActionView::QueueLoad { path: url + ".smf"@ }
    } else if cmd == "LoadImage"@ {
        UrlActionView::LoadImage { spec: url }
    } else if cmd == "SSL"@ || cmd == "NAV"@ {
        let sub = if parts.len() > 1 {
            parts[1]
        } else {
            Seq::empty()
        };
        let pieces = split_char(url, '+');
        if sub == "SSL_PlayNext"@ {
            UrlActionView::QueueVideos {
                videos: normalized_all(pieces.drop_last()),
                content: pieces.last(),
            }
        } else if sub == "SSL_GetSSLData"@ && parts.len() >= 3 {
            UrlActionView::LoadSave { data_var: var, success_var: lowercase(parts[2]) }
        } else if sub == "SSL_SaveSSLData"@ && parts.len() >= 3 {
            UrlActionView::StoreSave { data: url, success_var: lowercase(parts[2]) }
        } else if sub == "NAV_ScreenMove"@ && pieces.len() >= 2 {
            UrlActionView::ScreenMove {
                x: i32_or_zero(pieces[0]) as i32,
                y: i32_or_zero(pieces[1]) as i32,
            }
        } else {
            UrlActionView::Ignore
        }
    } else {
        UrlActionView::Ignore
    }
}

/// The normalized paths of `names`, those with no part left dropped.
fn normalize_all(names: &Vec<Vec<char>>, n: usize) -> (r: Vec<String>)
    requires
        n <= names@.len(),
    ensures
        strings_view(r@) == normalized_all(parts_view(names@).subrange(0, n as int)),
{
    let mut out: Vec<String> = Vec::new();
    let mut i: usize = 0;
    assert(parts_view(names@).subrange(0, 0) =~= Seq::<Seq<char>>::empty());
    assert(strings_view(out@) =~= Seq::<Seq<char>>::empty());
    while i < n
        invariant
            i <= n <= names@.len(),
            strings_view(out@) == normalized_all(parts_view(names@).subrange(0, i as int)),
        decreases n - i,
    {
        let ghost sub = parts_view(names@).subrange(0, i + 1);
        assert(sub.drop_last() =~= parts_view(names@).subrange(0, i as int));
        assert(sub.last() == names@[i as int]@);
        let name = string_from_chars(names[i].as_slice());
        let ghost before = strings_view(out@);
        match normalize_content_path(name.as_str()) {
            Some(p) => {
                out.push(p);
                assert(strings_view(out@) =~= before.push(out@.last()@));
            },
            None => {},
        }
        i = i + 1;
    }
    out
}

/// The action of the host call `GetUrl2(url, target)`, with `context` the
/// navigation context kept so far.
pub fn url_action(url: &str, target: &str, context: Option<&str>) -> (r: UrlAction)
    ensures
        r@ == url_action_spec(
            url@,
            target@,
            match context {
                Some(c) => Some(c@),
                None => None,
            },
        ),
{
    let tc = chars_of(target);
    let parts = split_at_char(&tc, '+');
    let ghost pv = parts_view(parts@);
    assert(pv[0] == parts@[0]@);
    let cmd = &parts[0];
    let var = to_lowercase(url);
    let arg = match find_first(&tc, '+') {
        Some(i) => {
            let mut a: Vec<char> = Vec::new();
            let n = tc.len();
            assert(i < n);
            let mut k = i + 1;
            while k < tc.len()
                invariant
                    i < k <= tc@.len() || k == i + 1,
                    i < tc@.len(),
                    a@ == tc@.subrange(i + 1, k as int),
                decreases tc@.len() - k,
            {
                a.push(tc[k]);
                k = k + 1;
                assert(a@ =~= tc@.subrange(i + 1, k as int));
            }
            string_from_chars(a.as_slice())
        },
        None => String::new(),
    };
    if equals_str(cmd, "GetFileNum") {
        UrlAction::CountFiles { var, menu: arg }
    } else if equals_str(cmd, "GetFirstFile") {
        UrlAction::FirstFile { var, menu: arg }
    } else if equals_str(cmd, "GetNextFile") {
        UrlAction::NextFile { var }
    } else if equals_str(cmd, "GetContext") {
        let value = match context {
            Some(c) => string_from_chars(chars_of(c).as_slice()),
            None => string_from_chars(chars_of("NULL").as_slice()),
        };
        UrlAction::SetVar { name: var, value }
    } else if equals_str(cmd, "SaveContext") {
        UrlAction::SaveContext { context: string_from_chars(chars_of(url).as_slice()) }
    } else if equals_str(cmd, "FHUI_StrSub") {
        let value = if parts.len() < 4 {
            String::new()
        } else {
            assert(pv[1] == parts@[1]@ && pv[2] == parts@[2]@ && pv[3] == parts@[3]@);
            let source = string_from_chars(parts[1].as_slice());
            let delim = string_from_chars(parts[2].as_slice());
            let field = string_from_chars(parts[3].as_slice());
            str_sub_field(source.as_str(), delim.as_str(), field.as_str())
        };
        UrlAction::SetVar { name: var, value }
    } else if equals_str(cmd, "StartGame") {
        let mut path = string_from_chars(chars_of(url).as_slice());
        push_str(&mut path, ".smf");
        UrlAction::QueueLoad { path }
    } else if equals_str(cmd, "LoadImage") {
        UrlAction::LoadImage { spec: string_from_chars(chars_of(url).as_slice()) }
    } else if equals_str(cmd, "SSL") || equals_str(cmd, "NAV") {
        let sub: Vec<char> = if parts.len() > 1 {
            assert(pv[1] == parts@[1]@);
            parts[1].clone()
        } else {
            Vec::new()
        };
        let uc = chars_of(url);
        let pieces = split_at_char(&uc, '+');
        let ghost uv = parts_view(pieces@);
        if equals_str(&sub, "SSL_PlayNext") {
            let last = pieces.len() - 1;
            assert(uv.drop_last() =~= uv.subrange(0, last as int));
            assert(uv.last() == pieces@[last as int]@);
            let videos = normalize_all(&pieces, last);
            let content = string_from_chars(pieces[last].as_slice());
            UrlAction::QueueVideos { videos, content }
        } else if equals_str(&sub, "SSL_GetSSLData") && parts.len() >= 3 {
            assert(pv[2] == parts@[2]@);
            let name = string_from_chars(parts[2].as_slice());
            UrlAction::LoadSave { data_var: var, success_var: to_lowercase(name.as_str()) }
        } else if equals_str(&sub, "SSL_SaveSSLData") && parts.len() >= 3 {
            assert(pv[2] == parts@[2]@);
            let name = string_from_chars(parts[2].as_slice());
            UrlAction::StoreSave {
                data: string_from_chars(uc.as_slice()),
                success_var: to_lowercase(name.as_str()),
            }
        } else if equals_str(&sub, "NAV_ScreenMove") && pieces.len() >= 2 {
            assert(uv[0] == pieces@[0]@ && uv[1] == pieces@[1]@);
            let x = parse_i32_or_zero(&pieces[0]);
            let y = parse_i32_or_zero(&pieces[1]);
            UrlAction::ScreenMove { x, y }
        } else {
            UrlAction::Ignore
        }
    } else {
        UrlAction::Ignore
    }
}

} // verus!
