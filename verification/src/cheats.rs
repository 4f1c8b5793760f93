//! Cheat codes shared by all front-ends.
//!
//! A cheat code has the form `<target>=<value>`: `var:<name>` sets an action
//! variable, `sprite:<name>.<field>` (or `movie:`) sets a field of a movie
//! instance, and `frame:goto` or `frame:playing` steers the main timeline.
//! Codes live in numbered slots and apply every frame while enabled.

use vstd::prelude::*;
use std::collections::BTreeMap;

use crate::action_vm::{var_set, ActionVM};
use crate::frame_player::FramePlayer;
use crate::sprite_system::{inserted, lookup, MovieState, SpriteSystem};
use crate::text::{
    bool_text, decimal, join_comma, lex_less, push_decimal, push_str, signed_decimal,
    signed_decimal_string, str_less,
    ascii_lower, ascii_lowercase, chars_between, chars_of, equals_str, find_first, find_last,
    first_index_of, last_index_of, lowercase, starts_with, starts_with_str, string_from_chars,
    to_lowercase, trim, trim_chars,
};

verus! {

broadcast use {vstd::std_specs::btree::group_btree_axioms, vstd::laws_cmp::group_laws_cmp};

/// Why a cheat code does not parse.
#[derive(Debug, PartialEq, Eq)]
pub enum CheatParseError {
    /// The code is empty.
    Empty,
    /// The code has no `=`.
    MissingValue,
    /// The target names nothing known.
    UnknownTarget(String),
    /// A sprite target is not `sprite:<name>.<field>`.
    InvalidSpriteTarget,
    /// A frame target is not `frame:goto` or `frame:playing`.
    InvalidFrameTarget,
}

/// A parse error with its target as characters.
pub enum CheatParseErrorView {
    Empty,
    MissingValue,
    UnknownTarget(Seq<char>),
    InvalidSpriteTarget,
    InvalidFrameTarget,
}

impl View for CheatParseError {
    type V = CheatParseErrorView;

    open spec fn view(&self) -> CheatParseErrorView {
        match self {
            CheatParseError::Empty => CheatParseErrorView::Empty,
            CheatParseError::MissingValue => CheatParseErrorView::MissingValue,
            CheatParseError::UnknownTarget(t) => CheatParseErrorView::UnknownTarget(t@),
            CheatParseError::InvalidSpriteTarget => CheatParseErrorView::InvalidSpriteTarget,
            CheatParseError::InvalidFrameTarget => CheatParseErrorView::InvalidFrameTarget,
        }
    }
}

/// A field of a movie instance that a cheat can set.
#[derive(Debug, Clone, Copy, PartialEq, Eq, Structural)]
pub enum SpriteField {
    X,
    Y,
    Depth,
    Frame,
    Visible,
    Playing,
}

/// A property of the main timeline that a cheat can set.
#[derive(Debug, Clone, Copy, PartialEq, Eq, Structural)]
pub enum FrameField {
    Goto,
    Playing,
}

/// What a cheat code sets, and to which value.
#[derive(Debug, PartialEq, Eq)]
pub enum CheatRule {
    Variable { name: String, value: String },
    Sprite { name: String, field: SpriteField, value: String },
    Frame { field: FrameField, value: String },
}

/// A rule with its strings as characters.
pub enum CheatRuleView {
    Variable { name: Seq<char>, value: Seq<char> },
    Sprite { name: Seq<char>, field: SpriteField, value: Seq<char> },
    Frame { field: FrameField, value: Seq<char> },
}

impl View for CheatRule {
    type V = CheatRuleView;

    open spec fn view(&self) -> CheatRuleView {
        match self {
            CheatRule::Variable { name, value } => CheatRuleView::Variable {
                name: name@,
                value: value@,
            },
            CheatRule::Sprite { name, field, value } => CheatRuleView::Sprite {
                name: name@,
                field: *field,
                value: value@,
            },
            CheatRule::Frame { field, value } => CheatRuleView::Frame { field: *field, value: value@ },
        }
    }
}

impl Clone for CheatRule {
    fn clone(&self) -> (r: Self)
        ensures
            r == *self,
    {
        match self {
            CheatRule::Variable { name, value } => CheatRule::Variable {
                name: name.clone(),
                value: value.clone(),
            },
            CheatRule::Sprite { name, field, value } => CheatRule::Sprite {
                name: name.clone(),
                field: *field,
                value: value.clone(),
            },
            CheatRule::Frame { field, value } => CheatRule::Frame { field: *field, value: value.clone() },
        }
    }
}

/// The sprite field a name selects, ASCII case ignored.
pub open spec fn sprite_field_of(s: Seq<char>) -> Option<SpriteField> {
    let l = ascii_lower(s);
    if l == "x"@ {
        Some(SpriteField::X)
    } else if l == "y"@ {
        Some(SpriteField::Y)
    } else if l == "depth"@ {
        Some(SpriteField::Depth)
    } else if l == "frame"@ || l == "currentframe"@ || l == "current_frame"@ {
        Some(SpriteField::Frame)
    } else if l == "visible"@ {
        Some(SpriteField::Visible)
    } else if l == "playing"@ {
        Some(SpriteField::Playing)
    } else {
        None
    }
}

/// The timeline property a name selects, ASCII case ignored.
pub open spec fn frame_field_of(s: Seq<char>) -> Option<FrameField> {
    let l = ascii_lower(s);
    if l == "goto"@ || l == "current"@ || l == "currentframe"@ || l == "current_frame"@ {
        Some(FrameField::Goto)
    } else if l == "playing"@ {
        Some(FrameField::Playing)
    } else {
        None
    }
}

/// The rule a cheat code states. The code is trimmed and split at its
/// first `=` into a target and a value, both trimmed. A `var:` target
/// names a variable, trimmed and lowercased; a `sprite:` or `movie:`
/// target splits at its last `.` into a trimmed instance name and a field;
/// a `frame:` target names a timeline property.
pub open spec fn parse_rule_spec(input: Seq<char>) -> Result<CheatRuleView, CheatParseErrorView> {
    let t = trim(input);
    let eq = first_index_of(t, '=');
    if t.len() == 0 {
        Err(CheatParseErrorView::Empty)
    } else if eq < 0 {
        Err(CheatParseErrorView::MissingValue)
    } else {
        let target = trim(t.subrange(0, eq));
        let value = trim(t.subrange(eq + 1, t.len() as int));
        if starts_with(target, "var:"@) {
            let name = trim(target.subrange("var:"@.len() as int, target.len() as int));
            if name.len() == 0 {
                Err(CheatParseErrorView::UnknownTarget(target))
            } else {
                Ok(CheatRuleView::Variable { name: lowercase(name), value })
            }
        } else if starts_with(target, "sprite:"@) || starts_with(target, "movie:"@) {
            let p = if starts_with(target, "sprite:"@) {
                "sprite:"@.len() as int
            } else {
                "movie:"@.len() as int
            };
            let spec_part = target.subrange(p, target.len() as int);
            let dot = last_index_of(spec_part, '.');
            if dot < 0 {
                Err(CheatParseErrorView::InvalidSpriteTarget)
            } else {
                let name = trim(spec_part.subrange(0, dot));
                let field = sprite_field_of(trim(spec_part.subrange(dot + 1, spec_part.len() as int)));
                if name.len() == 0 {
                    Err(CheatParseErrorView::InvalidSpriteTarget)
                } else {
                    match field {
                        Some(f) => Ok(CheatRuleView::Sprite { name, field: f, value }),
                        None => Err(CheatParseErrorView::InvalidSpriteTarget),
                    }
                }
            }
        } else if starts_with(target, "frame:"@) {
            match frame_field_of(trim(target.subrange("frame:"@.len() as int, target.len() as int))) {
                Some(f) => Ok(CheatRuleView::Frame { field: f, value }),
                None => Err(CheatParseErrorView::InvalidFrameTarget),
            }
        } else {
            Err(CheatParseErrorView::UnknownTarget(target))
        }
    }
}

/// The view of a parse result.
pub open spec fn parse_view(r: Result<CheatRule, CheatParseError>) -> Result<
    CheatRuleView,
    CheatParseErrorView,
> {
    match r {
        Ok(rule) => Ok(rule@),
        Err(e) => Err(e@),
    }
}

/// The sprite field a name selects.
pub fn sprite_field_from(s: &Vec<char>) -> (r: Option<SpriteField>)
    ensures
        r == sprite_field_of(s@),
{
    let l = ascii_lowercase(s);
    if equals_str(&l, "x") {
        Some(SpriteField::X)
    } else if equals_str(&l, "y") {
        Some(SpriteField::Y)
    } else if equals_str(&l, "depth") {
        Some(SpriteField::Depth)
    } else if equals_str(&l, "frame") || equals_str(&l, "currentframe") || equals_str(
        &l,
        "current_frame",
    ) {
        Some(SpriteField::Frame)
    } else if equals_str(&l, "visible") {
        Some(SpriteField::Visible)
    } else if equals_str(&l, "playing") {
        Some(SpriteField::Playing)
    } else {
        None
    }
}

/// The timeline property a name selects.
pub fn frame_field_from(s: &Vec<char>) -> (r: Option<FrameField>)
    ensures
        r == frame_field_of(s@),
{
    let l = ascii_lowercase(s);
    if equals_str(&l, "goto") || equals_str(&l, "current") || equals_str(&l, "currentframe")
        || equals_str(&l, "current_frame") {
        Some(FrameField::Goto)
    } else if equals_str(&l, "playing") {
        Some(FrameField::Playing)
    } else {
        None
    }
}

/// Parses a cheat code into the rule it states.
pub fn parse_rule(input: &str) -> (r: Result<CheatRule, CheatParseError>)
    ensures
        parse_view(r) == parse_rule_spec(input@),
{
    let all = chars_of(input);
    let t = trim_chars(&all);
    if t.len() == 0 {
        return Err(CheatParseError::Empty);
    }
    let eq = match find_first(&t, '=') {
        Some(i) => i,
        None => {
            return Err(CheatParseError::MissingValue);
        },
    };
    let target = trim_chars(&chars_between(&t, 0, eq));
    let value_chars = trim_chars(&chars_between(&t, eq + 1, t.len()));
    let value = string_from_chars(value_chars.as_slice());
    if starts_with_str(&target, "var:") {
        let p = chars_of("var:").len();
        let name = trim_chars(&chars_between(&target, p, target.len()));
        if name.len() == 0 {
            return Err(CheatParseError::UnknownTarget(string_from_chars(target.as_slice())));
        }
        let name_str = string_from_chars(name.as_slice());
        let lower = to_lowercase(name_str.as_str());
        return Ok(CheatRule::Variable { name: lower, value });
    }
    let is_sprite = starts_with_str(&target, "sprite:");
    if is_sprite || starts_with_str(&target, "movie:") {
        let p = if is_sprite {
            chars_of("sprite:").len()
        } else {
            chars_of("movie:").len()
        };
        let spec_part = chars_between(&target, p, target.len());
        let dot = match find_last(&spec_part, '.') {
            Some(d) => d,
            None => {
                return Err(CheatParseError::InvalidSpriteTarget);
            },
        };
        let name = trim_chars(&chars_between(&spec_part, 0, dot));
        let field = sprite_field_from(&trim_chars(&chars_between(&spec_part, dot + 1, spec_part.len())));
        if name.len() == 0 {
            return Err(CheatParseError::InvalidSpriteTarget);
        }
        return match field {
            Some(f) => Ok(CheatRule::Sprite { name: string_from_chars(name.as_slice()), field: f, value }),
            None => Err(CheatParseError::InvalidSpriteTarget),
        };
    }
    if starts_with_str(&target, "frame:") {
        let p = chars_of("frame:").len();
        let field = frame_field_from(&trim_chars(&chars_between(&target, p, target.len())));
        return match field {
            Some(f) => Ok(CheatRule::Frame { field: f, value }),
            None => Err(CheatParseError::InvalidFrameTarget),
        };
    }
    Err(CheatParseError::UnknownTarget(string_from_chars(target.as_slice())))
}

impl std::str::FromStr for CheatRule {
    type Err = CheatParseError;

    fn from_str(input: &str) -> (r: Result<Self, Self::Err>)
        ensures
            parse_view(r) == parse_rule_spec(input@),
    {
        parse_rule(input)
    }
}

impl std::str::FromStr for SpriteField {
    type Err = CheatParseError;

    fn from_str(input: &str) -> (r: Result<Self, Self::Err>)
        ensures
            r == match sprite_field_of(input@) {
                Some(f) => Ok::<SpriteField, CheatParseError>(f),
                None => Err(CheatParseError::InvalidSpriteTarget),
            },
    {
        match sprite_field_from(&chars_of(input)) {
            Some(f) => Ok(f),
            None => Err(CheatParseError::InvalidSpriteTarget),
        }
    }
}

impl std::str::FromStr for FrameField {
    type Err = CheatParseError;

    fn from_str(input: &str) -> (r: Result<Self, Self::Err>)
        ensures
            r == match frame_field_of(input@) {
                Some(f) => Ok::<FrameField, CheatParseError>(f),
                None => Err(CheatParseError::InvalidFrameTarget),
            },
    {
        match frame_field_from(&chars_of(input)) {
            Some(f) => Ok(f),
            None => Err(CheatParseError::InvalidFrameTarget),
        }
    }
}

/// A numbered cheat code: whether it applies, the code as given (trimmed),
/// and the rule it states.
#[derive(Debug, PartialEq, Eq)]
pub struct CheatSlot {
    pub enabled: bool,
    pub code: String,
    pub rule: CheatRule,
}

impl View for CheatSlot {
    type V = (bool, Seq<char>, CheatRuleView);

    open spec fn view(&self) -> (bool, Seq<char>, CheatRuleView) {
        (self.enabled, self.code@, self.rule@)
    }
}

impl Clone for CheatSlot {
    fn clone(&self) -> (r: Self)
        ensures
            r == *self,
    {
        CheatSlot { enabled: self.enabled, code: self.code.clone(), rule: self.rule.clone() }
    }
}

/// How often the cheat targets are written to the log.
#[derive(Debug, Clone, Copy, PartialEq, Eq)]
pub struct CheatDebugConfig {
    pub enabled: bool,
    pub interval_frames: u64,
}

impl Default for CheatDebugConfig {
    fn default() -> (r: Self)
        ensures
            r == (CheatDebugConfig { enabled: false, interval_frames: 30 }),
    {
        CheatDebugConfig { enabled: false, interval_frames: CheatManager::DEFAULT_DEBUG_INTERVAL_FRAMES }
    }
}

/// The key after the largest key of `m`, saturating; 0 for an empty map.
pub open spec fn next_slot_index(m: Map<u32, CheatSlot>) -> u32 {
    if m.dom().len() == 0 {
        0
    } else {
        let k = choose|k: u32| is_max_key(m, k);
        if k == u32::MAX {
            u32::MAX
        } else {
            (k + 1) as u32
        }
    }
}

/// `k` is the largest key of `m`.
pub open spec fn is_max_key(m: Map<u32, CheatSlot>, k: u32) -> bool {
    m.contains_key(k) && forall|j: u32| m.contains_key(j) ==> j <= k
}

/// What setting slot `index` to `code` does to the slots `old_m`, giving
/// `new_m` and `r`: a code that trims to nothing empties the slot; a code
/// that parses fills the slot with the trimmed code and its rule; a code
/// that does not parse changes nothing and gives the parse error.
pub open spec fn set_slot_effect(
    old_m: Map<u32, CheatSlot>,
    new_m: Map<u32, CheatSlot>,
    index: u32,
    enabled: bool,
    code: Seq<char>,
    r: Result<(), CheatParseError>,
) -> bool {
    let c = trim(code);
    if c.len() == 0 {
        r is Ok && new_m == old_m.remove(index)
    } else {
        match parse_rule_spec(c) {
            Ok(rule) => r is Ok && new_m == old_m.insert(index, new_m[index]) && new_m[index]@ == (
                enabled,
                c,
                rule,
            ),
            Err(e) => r matches Err(err) && err@ == e && new_m == old_m,
        }
    }
}

/// `BTreeMap::last_key_value`: the entry with the largest key, here only
/// its key. The contract states what the std documentation promises: the
/// key is in the map and no key of the map is larger; none for an empty map.
#[verifier::external_body]
fn last_key(m: &BTreeMap<u32, CheatSlot>) -> (r: Option<u32>)
    ensures
        match r {
            Some(k) => is_max_key(m@, k),
            None => m@.dom().len() == 0,
        },
{
    m.last_key_value().map(|(k, _)| *k)
}

/// The cheat slots, by number, and the logging setup.
#[derive(Debug, PartialEq, Eq)]
pub struct CheatManager {
    slots: BTreeMap<u32, CheatSlot>,
    debug: CheatDebugConfig,
}

impl View for CheatManager {
    /// The slots by number, and the logging setup.
    type V = (Map<u32, CheatSlot>, CheatDebugConfig);

    closed spec fn view(&self) -> (Map<u32, CheatSlot>, CheatDebugConfig) {
        (self.slots@, self.debug)
    }
}

impl Default for CheatManager {
    fn default() -> (r: Self)
        ensures
            r@.0 == Map::<u32, CheatSlot>::empty(),
            r@.1 == (CheatDebugConfig { enabled: false, interval_frames: 30 }),
    {
        CheatManager::new()
    }
}

impl CheatManager {
    /// How many frames lie between two logs of the cheat targets, unless
    /// set otherwise.
    pub const DEFAULT_DEBUG_INTERVAL_FRAMES: u64 = 30;

    /// At most this many variables or sprites are logged at once.
    pub const DEBUG_LIST_LIMIT: usize = 64;

    pub fn new() -> (r: Self)
        ensures
            r@.0 == Map::<u32, CheatSlot>::empty(),
            r@.1 == (CheatDebugConfig { enabled: false, interval_frames: 30 }),
    {
        CheatManager {
            slots: BTreeMap::new(),
            debug: CheatDebugConfig {
                enabled: false,
                interval_frames: CheatManager::DEFAULT_DEBUG_INTERVAL_FRAMES,
            },
        }
    }

    /// Empties every slot.
    pub fn clear(&mut self)
        ensures
            final(self)@.0 == Map::<u32, CheatSlot>::empty(),
            final(self)@.1 == old(self)@.1,
    {
        self.slots.clear();
    }

    /// Sets slot `index` to the cheat `code`, or empties it when the code is
    /// blank.
    pub fn set_slot(&mut self, index: u32, enabled: bool, code: &str) -> (r: Result<
        (),
        CheatParseError,
    >)
        ensures
            set_slot_effect(old(self)@.0, final(self)@.0, index, enabled, code@, r),
            final(self)@.1 == old(self)@.1,
    {
        let all = chars_of(code);
        let c = trim_chars(&all);
        if c.len() == 0 {
            self.slots.remove(&index);
            return Ok(());
        }
        let trimmed = string_from_chars(c.as_slice());
        match parse_rule(trimmed.as_str()) {
            Ok(rule) => {
                proof {
                    assert(trim(c@) == c@) by {
                        crate::text::lemma_trim_idempotent(all@);
                    }
                }
                self.slots.insert(index, CheatSlot { enabled, code: trimmed, rule });
                Ok(())
            },
            Err(e) => {
                proof {
                    assert(trim(c@) == c@) by {
                        crate::text::lemma_trim_idempotent(all@);
                    }
                }
                Err(e)
            },
        }
    }

    /// Puts `code` into the slot after the highest numbered one, enabled;
    /// returns that number.
    pub fn add_code(&mut self, code: &str) -> (r: Result<u32, CheatParseError>)
        ensures
            match r {
                Ok(i) => i == next_slot_index(old(self)@.0) && set_slot_effect(
                    old(self)@.0,
                    final(self)@.0,
                    i,
                    true,
                    code@,
                    Ok(()),
                ),
                Err(e) => set_slot_effect(
                    old(self)@.0,
                    final(self)@.0,
                    next_slot_index(old(self)@.0),
                    true,
                    code@,
                    Err(e),
                ),
            },
            final(self)@.1 == old(self)@.1,
    {
        let index = match last_key(&self.slots) {
            Some(k) => {
                proof {
                    let c = choose|c: u32| is_max_key(self.slots@, c);
                    assert(is_max_key(self.slots@, c));
                    assert(c <= k && k <= c);
                }
                k.saturating_add(1)
            },
            None => 0,
        };
        match self.set_slot(index, true, code) {
            Ok(()) => Ok(index),
            Err(e) => Err(e),
        }
    }

    /// The number of filled slots.
    pub fn len(&self) -> (r: usize)
        ensures
            r == self@.0.dom().len(),
    {
        self.slots.len()
    }

    /// Whether no slot is filled.
    pub fn is_empty(&self) -> (r: bool)
        ensures
            r == (self@.0.dom().len() == 0),
    {
        self.slots.is_empty()
    }

    /// Turns logging of the cheat targets on or off, every
    /// `interval_frames` frames (at least every frame).
    pub fn set_debug_logging(&mut self, enabled: bool, interval_frames: u64)
        ensures
            final(self)@.0 == old(self)@.0,
            final(self)@.1 == (CheatDebugConfig {
                enabled,
                interval_frames: if interval_frames < 1 {
                    1
                } else {
                    interval_frames
                },
            }),
    {
        let interval = if interval_frames < 1 {
            1
        } else {
            interval_frames
        };
        self.debug = CheatDebugConfig { enabled, interval_frames: interval };
    }

    pub fn debug_logging_enabled(&self) -> (r: bool)
        ensures
            r == self@.1.enabled,
    {
        self.debug.enabled
    }

    pub fn debug_interval_frames(&self) -> (r: u64)
        ensures
            r == self@.1.interval_frames,
    {
        self.debug.interval_frames
    }

    /// Whether the cheat targets are due to be logged at this tick.
    pub fn log_due(&self, tick_count: u64) -> (r: bool)
        ensures
            r == (self@.1.enabled && self@.1.interval_frames > 0 && tick_count
                % self@.1.interval_frames == 0),
    {
        self.debug.enabled && self.debug.interval_frames > 0 && tick_count
            % self.debug.interval_frames == 0
    }

    /// The slots, by number.
    pub fn slots(&self) -> (r: &BTreeMap<u32, CheatSlot>)
        ensures
            r@ == self@.0,
    {
        &self.slots
    }
}

/// A named line of a target listing: the name it sorts by, and its text.
pub type ListItem = (Seq<char>, Seq<char>);

/// Where an item named `name` goes in a list sorted by name: after every
/// item at its end whose name does not sort after `name`.
pub open spec fn item_pos(sorted: Seq<ListItem>, name: Seq<char>) -> int
    decreases sorted.len(),
{
    if sorted.len() > 0 && lex_less(name, sorted.last().0) {
        item_pos(sorted.drop_last(), name)
    } else {
        sorted.len() as int
    }
}

/// The items sorted by name, equal names in their order.
pub open spec fn sort_items(l: Seq<ListItem>) -> Seq<ListItem>
    decreases l.len(),
{
    if l.len() == 0 {
        l
    } else {
        let s = sort_items(l.drop_last());
        s.insert(item_pos(s, l.last().0), l.last())
    }
}

/// The texts of the items.
pub open spec fn item_texts(l: Seq<ListItem>) -> Seq<Seq<char>> {
    l.map_values(|i: ListItem| i.1)
}

/// A bracketed list of at most `limit` texts, then a count of the ones
/// left out: `[a, b, ... 3 more]`; `[]` when there are none.
pub open spec fn bracket_list(parts: Seq<Seq<char>>, limit: nat) -> Seq<char> {
    if parts.len() == 0 {
        "[]"@
    } else {
        let shown = if limit < parts.len() {
            limit
        } else {
            parts.len()
        };
        let omitted = (parts.len() - shown) as nat;
        let ps = parts.subrange(0, shown as int);
        let all = if omitted > 0 {
            ps.push("... "@ + decimal(omitted) + " more"@)
        } else {
            ps
        };
        "["@ + join_comma(all) + "]"@
    }
}

/// `none`, or the number.
pub open spec fn option_text(o: Option<isize>) -> Seq<char> {
    match o {
        Some(v) => signed_decimal(v as int),
        None => "none"@,
    }
}

/// The listing text of a variable.
pub open spec fn var_text(name: Seq<char>, value: Seq<char>) -> Seq<char> {
    name + "="@ + value
}

/// The listing text of a movie instance.
pub open spec fn sprite_text(name: Seq<char>, m: MovieState) -> Seq<char> {
    name + "(movie="@ + decimal(m.movie as nat) + " x="@ + signed_decimal(m.x as int) + " y="@
        + signed_decimal(m.y as int) + " depth="@ + decimal(m.depth as nat) + " frame="@ + decimal(
        m.frame as nat,
    ) + " visible="@ + bool_text(m.visible) + " playing="@ + bool_text(m.playing) + " next="@
        + option_text(m.next_frame) + ")"@
}

/// The items of the variables.
pub open spec fn var_items(v: Seq<(String, String)>) -> Seq<ListItem> {
    v.map_values(|p: (String, String)| (p.0@, var_text(p.0@, p.1@)))
}

/// The items of the movie instances.
pub open spec fn sprite_items(v: Seq<(String, MovieState)>) -> Seq<ListItem> {
    v.map_values(|p: (String, MovieState)| (p.0@, sprite_text(p.0@, p.1)))
}

/// `none`, or the number.
pub fn format_option(value: Option<isize>) -> (r: String)
    ensures
        r@ == option_text(value),
{
    match value {
        Some(v) => signed_decimal_string(v as i128),
        None => {
            let mut s = String::new();
            push_str(&mut s, "none");
            s
        },
    }
}

/// Puts `item` into the name-sorted `sorted` after every item at its end
/// whose name does not sort after its own.
fn insert_item(sorted: &mut Vec<(String, String)>, item: (String, String))
    ensures
        pair_items(final(sorted)@) == pair_items(old(sorted)@).insert(
            item_pos(pair_items(old(sorted)@), item.0@),
            (item.0@, item.1@),
        ),
{
    let ghost sv = pair_items(sorted@);
    let mut p: usize = sorted.len();
    assert(sv.subrange(0, p as int) =~= sv);
    while p > 0 && str_less(item.0.as_str(), sorted[p - 1].0.as_str())
        invariant
            p <= sorted@.len(),
            sv == pair_items(sorted@),
            item_pos(sv, item.0@) == item_pos(sv.subrange(0, p as int), item.0@),
        decreases p,
    {
        assert(sv.subrange(0, p as int).drop_last() =~= sv.subrange(0, p - 1));
        p = p - 1;
    }
    assert(item_pos(sv.subrange(0, p as int), item.0@) == p) by {
        if p > 0 {
            assert(sv.subrange(0, p as int).last() == sv[p - 1]);
        }
    }
    let ghost iv = (item.0@, item.1@);
    sorted.insert(p, item);
    assert(pair_items(sorted@) =~= sv.insert(p as int, iv));
}

/// Pairs of strings as items.
pub open spec fn pair_items(v: Seq<(String, String)>) -> Seq<ListItem> {
    v.map_values(|p: (String, String)| (p.0@, p.1@))
}

/// The bracketed list of the texts of sorted items.
fn write_list(sorted: &Vec<(String, String)>, limit: usize) -> (r: String)
    ensures
        r@ == bracket_list(item_texts(pair_items(sorted@)), limit as nat),
{
    let ghost parts = item_texts(pair_items(sorted@));
    let n = sorted.len();
    let mut out = String::new();
    if n == 0 {
        push_str(&mut out, "[]");
        return out;
    }
    let shown = if limit < n {
        limit
    } else {
        n
    };
    push_str(&mut out, "[");
    let mut k: usize = 0;
    while k < shown
        invariant
            n == sorted@.len(),
            parts == item_texts(pair_items(sorted@)),
            shown <= n,
            k <= shown,
            k == 0 ==> out@ == "["@,
            k > 0 ==> out@ == "["@ + join_comma(parts.subrange(0, k as int)),
        decreases shown - k,
    {
        let ghost before = out@;
        if k > 0 {
            push_str(&mut out, ", ");
        }
        push_str(&mut out, sorted[k].1.as_str());
        let ghost sub = parts.subrange(0, k + 1);
        assert(sub.drop_last() =~= parts.subrange(0, k as int));
        assert(sub.last() == sorted@[k as int].1@);
        k = k + 1;
        assert(out@ =~= "["@ + join_comma(parts.subrange(0, k as int)));
    }
    let omitted = n - shown;
    let ghost ps = parts.subrange(0, shown as int);
    if omitted > 0 {
        let ghost before = out@;
        if shown > 0 {
            push_str(&mut out, ", ");
        }
        let mut tail = String::new();
        push_str(&mut tail, "... ");
        push_decimal(&mut tail, omitted as u128);
        push_str(&mut tail, " more");
        let ghost tv = tail@;
        assert(tv == "... "@ + decimal(omitted as nat) + " more"@);
        push_str(&mut out, tail.as_str());
        assert(ps.push(tv).drop_last() =~= ps);
        if shown > 0 {
            assert(out@ =~= "["@ + join_comma(ps.push(tv)));
        } else {
            assert(ps.push(tv).len() == 1);
            assert(out@ =~= "["@ + join_comma(ps.push(tv)));
        }
    }
    push_str(&mut out, "]");
    out
}

/// The variables as `[name=value, ...]`, sorted by name, at most `limit` of
/// them and then how many were left out.
pub fn format_vars(vars: &Vec<(String, String)>, limit: usize) -> (r: String)
    ensures
        r@ == bracket_list(item_texts(sort_items(var_items(vars@))), limit as nat),
{
    let ghost items = var_items(vars@);
    let mut sorted: Vec<(String, String)> = Vec::new();
    let mut i: usize = 0;
    assert(items.subrange(0, 0) =~= Seq::<ListItem>::empty());
    assert(pair_items(sorted@) =~= Seq::<ListItem>::empty());
    while i < vars.len()
        invariant
            i <= vars@.len(),
            items == var_items(vars@),
            pair_items(sorted@) == sort_items(items.subrange(0, i as int)),
        decreases vars@.len() - i,
    {
        let mut text = String::new();
        push_str(&mut text, vars[i].0.as_str());
        push_str(&mut text, "=");
        push_str(&mut text, vars[i].1.as_str());
        let ghost sub = items.subrange(0, i + 1);
        assert(sub.drop_last() =~= items.subrange(0, i as int));
        assert(sub.last() == (vars@[i as int].0@, text@));
        insert_item(&mut sorted, (vars[i].0.clone(), text));
        i = i + 1;
    }
    assert(items.subrange(0, vars@.len() as int) =~= items);
    write_list(&sorted, limit)
}

/// The listing text of a movie instance.
fn sprite_line(name: &String, m: &MovieState) -> (r: String)
    ensures
        r@ == sprite_text(name@, *m),
{
    let mut t = String::new();
    push_str(&mut t, name.as_str());
    push_str(&mut t, "(movie=");
    push_decimal(&mut t, m.movie as u128);
    push_str(&mut t, " x=");
    push_str(&mut t, signed_decimal_string(m.x as i128).as_str());
    push_str(&mut t, " y=");
    push_str(&mut t, signed_decimal_string(m.y as i128).as_str());
    push_str(&mut t, " depth=");
    push_decimal(&mut t, m.depth as u128);
    push_str(&mut t, " frame=");
    push_decimal(&mut t, m.frame as u128);
    push_str(&mut t, " visible=");
    push_str(&mut t, if m.visible { "true" } else { "false" });
    push_str(&mut t, " playing=");
    push_str(&mut t, if m.playing { "true" } else { "false" });
    push_str(&mut t, " next=");
    push_str(&mut t, format_option(m.next_frame).as_str());
    push_str(&mut t, ")");
    assert(t@ =~= sprite_text(name@, *m));
    t
}

/// The movie instances as `[name(movie=.. x=.. ...), ...]`, sorted by name,
/// at most `limit` of them and then how many were left out.
pub fn format_sprites(sprites: &SpriteSystem, limit: usize) -> (r: String)
    ensures
        r@ == bracket_list(item_texts(sort_items(sprite_items(sprites.sprites@))), limit as nat),
{
    let ghost items = sprite_items(sprites.sprites@);
    let mut sorted: Vec<(String, String)> = Vec::new();
    let mut i: usize = 0;
    assert(items.subrange(0, 0) =~= Seq::<ListItem>::empty());
    assert(pair_items(sorted@) =~= Seq::<ListItem>::empty());
    while i < sprites.sprites.len()
        invariant
            i <= sprites.sprites@.len(),
            items == sprite_items(sprites.sprites@),
            pair_items(sorted@) == sort_items(items.subrange(0, i as int)),
        decreases sprites.sprites@.len() - i,
    {
        let text = sprite_line(&sprites.sprites[i].0, &sprites.sprites[i].1);
        let ghost sub = items.subrange(0, i + 1);
        assert(sub.drop_last() =~= items.subrange(0, i as int));
        assert(sub.last() == (sprites.sprites@[i as int].0@, text@));
        insert_item(&mut sorted, (sprites.sprites[i].0.clone(), text));
        i = i + 1;
    }
    assert(items.subrange(0, sprites.sprites@.len() as int) =~= items);
    write_list(&sorted, limit)
}


/// Whether a cheat value turns a flag on: the words `1`, `true`, `on`,
/// `yes` do and `0`, `false`, `off`, `no` and nothing do (trimmed, any
/// case); another value does when `number`, the number it reads as, is not
/// 0.
pub open spec fn flag_value(value: Seq<char>, number: i64) -> bool {
    let w = ascii_lower(trim(value));
    if w.len() == 0 || w == seq!['0'] || w == seq!['f', 'a', 'l', 's', 'e'] || w == seq!['o', 'f', 'f']
        || w == seq!['n', 'o'] {
        false
    } else if w == seq!['1'] || w == seq!['t', 'r', 'u', 'e'] || w == seq!['o', 'n'] || w == seq![
        'y',
        'e',
        's',
    ] {
        true
    } else {
        number != 0
    }
}

/// `n` held to the range of `i16`.
pub open spec fn clamp_i16(n: i64) -> i16 {
    if n < i16::MIN {
        i16::MIN
    } else if n > i16::MAX {
        i16::MAX
    } else {
        n as i16
    }
}

/// `n` held to the range of `u16`.
pub open spec fn clamp_u16(n: i64) -> u16 {
    if n < 0 {
        0
    } else if n > u16::MAX {
        u16::MAX
    } else {
        n as u16
    }
}

/// `n` held to the range of `u32`.
pub open spec fn clamp_u32(n: i64) -> u32 {
    if n < 0 {
        0
    } else if n > u32::MAX {
        u32::MAX
    } else {
        n as u32
    }
}

/// A frame number from `n`: negative numbers count as 0.
pub open spec fn frame_of_number(n: i64) -> isize {
    (if n < 0 {
        0usize
    } else {
        n as usize
    }) as isize
}

/// A movie instance after a cheat sets `field` to `value`, which reads as
/// the number `number`.
pub open spec fn sprite_field_set(field: SpriteField, m: MovieState, value: Seq<char>, number: i64) -> MovieState {
    match field {
        SpriteField::X => MovieState { x: clamp_i16(number), ..m },
        SpriteField::Y => MovieState { y: clamp_i16(number), ..m },
        SpriteField::Depth => MovieState { depth: clamp_u16(number), ..m },
        SpriteField::Frame => MovieState { next_frame: Some(frame_of_number(number)), ..m },
        SpriteField::Visible => MovieState { visible: flag_value(value, number), ..m },
        SpriteField::Playing => MovieState { playing: flag_value(value, number), ..m },
    }
}

/// The main timeline after a cheat sets `field` to `value`, which reads as
/// the number `number`: `goto` schedules that frame and keeps it playing
/// or not.
pub open spec fn frame_field_set(field: FrameField, fp: FramePlayer, value: Seq<char>, number: i64) -> FramePlayer {
    match field {
        FrameField::Goto => FramePlayer { next_frame: Some(clamp_u32(number)), ..fp },
        FrameField::Playing => FramePlayer { playing: flag_value(value, number), ..fp },
    }
}

/// Whether a cheat value turns a flag on; `number` is the number the value
/// reads as.
pub fn flag_of(value: &str, number: i64) -> (r: bool)
    ensures
        r == flag_value(value@, number),
{
    let w = ascii_lowercase(&trim_chars(&chars_of(value)));
    proof {
        reveal_strlit("0");
        reveal_strlit("false");
        reveal_strlit("off");
        reveal_strlit("no");
        reveal_strlit("1");
        reveal_strlit("true");
        reveal_strlit("on");
        reveal_strlit("yes");
        assert("0"@ =~= seq!['0']);
        assert("false"@ =~= seq!['f', 'a', 'l', 's', 'e']);
        assert("off"@ =~= seq!['o', 'f', 'f']);
        assert("no"@ =~= seq!['n', 'o']);
        assert("1"@ =~= seq!['1']);
        assert("true"@ =~= seq!['t', 'r', 'u', 'e']);
        assert("on"@ =~= seq!['o', 'n']);
        assert("yes"@ =~= seq!['y', 'e', 's']);
    }
    if w.len() == 0 || equals_str(&w, "0") || equals_str(&w, "false") || equals_str(&w, "off")
        || equals_str(&w, "no") {
        false
    } else if equals_str(&w, "1") || equals_str(&w, "true") || equals_str(&w, "on") || equals_str(
        &w,
        "yes",
    ) {
        true
    } else {
        number != 0
    }
}

/// Applies a cheat rule once; `number` is the number the rule's value reads
/// as. A variable is set, a field of an existing instance or of the main
/// timeline changes; a rule on an instance that does not exist does nothing.
pub fn apply_rule(
    rule: &CheatRule,
    number: i64,
    vm: &mut ActionVM,
    sprites: &mut SpriteSystem,
    frame: &mut FramePlayer,
)
    ensures
        match rule@ {
            CheatRuleView::Variable { name, value } => {
                &&& final(vm)@ == var_set(old(vm)@, name, value)
                &&& final(sprites)@ == old(sprites)@
                &&& *final(frame) == *old(frame)
            },
            CheatRuleView::Sprite { name, field, value } => {
                &&& final(vm)@ == old(vm)@
                &&& final(sprites)@ == match lookup(old(sprites)@, name) {
                    Some(m) => inserted(old(sprites)@, name, sprite_field_set(field, m, value, number)),
                    None => old(sprites)@,
                }
                &&& *final(frame) == *old(frame)
            },
            CheatRuleView::Frame { field, value } => {
                &&& final(vm)@ == old(vm)@
                &&& final(sprites)@ == old(sprites)@
                &&& *final(frame) == frame_field_set(field, *old(frame), value, number)
            },
        },
{
    match rule {
        CheatRule::Variable { name, value } => {
            vm.set_var(name.clone(), value.clone());
        },
        CheatRule::Sprite { name, field, value } => {
            if let Some(movie) = sprites.get_mut(name.as_str()) {
                match *field {
                    SpriteField::X => {
                        movie.x = clamp_to_i16(number);
                    },
                    SpriteField::Y => {
                        movie.y = clamp_to_i16(number);
                    },
                    SpriteField::Depth => {
                        movie.depth = if number < 0 {
                            0
                        } else if number > 0xFFFF {
                            0xFFFF
                        } else {
                            number as u16
                        };
                    },
                    SpriteField::Frame => {
                        let u: usize = if number < 0 {
                            0
                        } else {
                            number as usize
                        };
                        movie.next_frame = Some(u as isize);
                    },
                    SpriteField::Visible => {
                        movie.visible = flag_of(value.as_str(), number);
                    },
                    SpriteField::Playing => {
                        movie.playing = flag_of(value.as_str(), number);
                    },
                }
            }
        },
        CheatRule::Frame { field, value } => {
            match *field {
                FrameField::Goto => {
                    let target: u32 = if number < 0 {
                        0
                    } else if number > 0xFFFF_FFFF {
                        0xFFFF_FFFF
                    } else {
                        number as u32
                    };
                    let playing = frame.playing;
                    frame.goto(target, playing);
                },
                FrameField::Playing => {
                    frame.playing = flag_of(value.as_str(), number);
                },
            }
        },
    }
}

/// `n` held to the range of `i16`.
fn clamp_to_i16(n: i64) -> (r: i16)
    ensures
        r == clamp_i16(n),
{
    if n < -0x8000 {
        -0x8000
    } else if n > 0x7FFF {
        0x7FFF
    } else {
        n as i16
    }
}

} // verus!
