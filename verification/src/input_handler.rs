//! Button input with the keypad's typematic repeat: a key registers on its
//! first frame, stays quiet while the repeat delay runs, then registers
//! once every repeat period for as long as it is held.
//!
//! Key codes are kept verbatim: they are not independent bit flags.

use vstd::prelude::*;

use crate::text::chars_of;

verus! {

/// Key code of the A button.
pub const KEYCODE_A: u16 = 0x4000;
/// Key code of the B button.
pub const KEYCODE_B: u16 = 0x8800;

/// `k` with A and B exchanged.
pub open spec fn swap_key(k: u16) -> u16 {
    if k == KEYCODE_A {
        KEYCODE_B
    } else if k == KEYCODE_B {
        KEYCODE_A
    } else {
        k
    }
}

/// Whether a key held for `count` frames after its first one registers
/// this frame, with the repeat `delay` and `period` in frames.
pub open spec fn registers(count: int, delay: int, period: int) -> bool {
    if count == 0 {
        true
    } else if count < delay {
        false
    } else {
        (count - delay) % (if period < 1 {
            1
        } else {
            period
        }) == 0
    }
}

/// The frames a key has been held after its first, if it is held.
pub open spec fn held_count(held: Seq<(u16, u32)>, k: u16) -> Option<u32>
    decreases held.len(),
{
    if held.len() == 0 {
        None
    } else if held.last().0 == k {
        Some(held.last().1)
    } else {
        held_count(held.drop_last(), k)
    }
}

/// The keys of `ks` in order of their first occurrence, each once.
pub open spec fn first_occurrences(ks: Seq<u16>) -> Seq<u16>
    decreases ks.len(),
{
    if ks.len() == 0 {
        seq![]
    } else {
        let d = first_occurrences(ks.drop_last());
        if d.contains(ks.last()) {
            d
        } else {
            d.push(ks.last())
        }
    }
}

/// The key codes as the game sees them: with A and B exchanged when
/// `swap` is on.
pub open spec fn seen_keys(ks: Seq<u16>, swap: bool) -> Seq<u16> {
    if swap {
        ks.map_values(|k: u16| swap_key(k))
    } else {
        ks
    }
}

/// The count of a key held this frame, from the counts of the last one.
pub open spec fn next_count(held: Seq<(u16, u32)>, k: u16) -> int {
    match held_count(held, k) {
        Some(c) => c + 1,
        None => 0,
    }
}

/// The hold counts after a frame in which the keys `keys` (each once) are
/// down.
pub open spec fn next_held(held: Seq<(u16, u32)>, keys: Seq<u16>) -> Seq<(u16, u32)> {
    keys.map_values(|k: u16| (k, next_count(held, k) as u32))
}

/// The keys of `keys` that register, given the counts of the last frame.
pub open spec fn registered(held: Seq<(u16, u32)>, keys: Seq<u16>, delay: int, period: int) -> Seq<u16> {
    keys.filter(|k: u16| registers(next_count(held, k), delay, period))
}

/// The handler as plain values.
pub struct InputView {
    pub held: Seq<(u16, u32)>,
    pub active: Seq<u16>,
    pub repeat_delay: u32,
    pub repeat_period: u32,
    pub swap_ab: bool,
}

/// The keys held last frame with their counts, the keys that register this
/// frame, the repeat timing and the A/B swap.
pub struct InputHandler {
    held_frames: Vec<(u16, u32)>,
    active_buttons: Vec<u16>,
    repeat_delay: u32,
    repeat_period: u32,
    swap_ab: bool,
}

impl View for InputHandler {
    type V = InputView;

    closed spec fn view(&self) -> InputView {
        InputView {
            held: self.held_frames@,
            active: self.active_buttons@,
            repeat_delay: self.repeat_delay,
            repeat_period: self.repeat_period,
            swap_ab: self.swap_ab,
        }
    }
}

impl Default for InputHandler {
    fn default() -> (r: Self)
        ensures
            r@.held == Seq::<(u16, u32)>::empty(),
            r@.active == Seq::<u16>::empty(),
            r@.repeat_delay == InputHandler::DEFAULT_REPEAT_DELAY,
            r@.repeat_period == InputHandler::DEFAULT_REPEAT_PERIOD,
            !r@.swap_ab,
    {
        Self::new()
    }
}

impl InputHandler {
    /// Default repeat delay, in 30 fps frames (about 0.4 s).
    pub const DEFAULT_REPEAT_DELAY: u32 = 12;
    /// Default repeat period, in 30 fps frames (about 0.1 s).
    pub const DEFAULT_REPEAT_PERIOD: u32 = 3;

    /// No key held, default timing, A and B as they are.
    pub fn new() -> (r: Self)
        ensures
            r@.held == Seq::<(u16, u32)>::empty(),
            r@.active == Seq::<u16>::empty(),
            r@.repeat_delay == Self::DEFAULT_REPEAT_DELAY,
            r@.repeat_period == Self::DEFAULT_REPEAT_PERIOD,
            !r@.swap_ab,
    {
        InputHandler {
            held_frames: Vec::new(),
            active_buttons: Vec::new(),
            repeat_delay: Self::DEFAULT_REPEAT_DELAY,
            repeat_period: Self::DEFAULT_REPEAT_PERIOD,
            swap_ab: false,
        }
    }

    /// Sets the repeat timing, in frames; a period below one counts as one.
    pub fn set_repeat_timing(&mut self, delay: u32, period: u32)
        ensures
            final(self)@ == (InputView {
                repeat_delay: delay,
                repeat_period: if period < 1 {
                    1
                } else {
                    period
                },
                ..old(self)@
            }),
    {
        self.repeat_delay = delay;
        self.repeat_period = if period < 1 {
            1
        } else {
            period
        };
    }

    /// Turns the A/B swap on or off.
    pub fn set_swap_ab(&mut self, swap: bool)
        ensures
            final(self)@ == (InputView { swap_ab: swap, ..old(self)@ }),
    {
        self.swap_ab = swap;
    }

    /// Whether every held key can be counted one frame more.
    pub open spec fn counts_fit(&self) -> bool {
        forall|i: int| 0 <= i < self@.held.len() ==> (#[trigger] self@.held[i]).1 < u32::MAX
    }

    /// Whether every held key can be counted one frame more.
    pub fn can_count_frame(&self) -> (r: bool)
        ensures
            r == self.counts_fit(),
    {
        let mut i: usize = 0;
        while i < self.held_frames.len()
            invariant
                i <= self.held_frames@.len(),
                forall|j: int| 0 <= j < i ==> (#[trigger] self.held_frames@[j]).1 < u32::MAX,
            decreases self.held_frames@.len() - i,
        {
            if self.held_frames[i].1 == u32::MAX {
                assert(self@.held[i as int].1 == u32::MAX);
                return false;
            }
            i = i + 1;
        }
        true
    }

    /// Records the keys down this frame (`keycodes`, repeats allowed) and
    /// works out which of them register: each key's count goes up by one
    /// while it stays down and starts at 0 when it is pressed; released keys
    /// are forgotten.
    pub fn set_buttons(&mut self, keycodes: &[u16])
        requires
            old(self).counts_fit(),
        ensures
            ({
                let keys = first_occurrences(seen_keys(keycodes@, old(self)@.swap_ab));
                final(self)@ == (InputView {
                    held: next_held(old(self)@.held, keys),
                    active: registered(
                        old(self)@.held,
                        keys,
                        old(self)@.repeat_delay as int,
                        old(self)@.repeat_period as int,
                    ),
                    ..old(self)@
                })
            }),
    {
        let ghost old_held = self.held_frames@;
        let ghost seen = seen_keys(keycodes@, self.swap_ab);
        let ghost delay = self.repeat_delay as int;
        let ghost period = self.repeat_period as int;
        let mut keys: Vec<u16> = Vec::new();
        let mut new_counts: Vec<(u16, u32)> = Vec::new();
        let mut active: Vec<u16> = Vec::new();
        let mut i: usize = 0;
        while i < keycodes.len()
            invariant
                i <= keycodes@.len(),
                seen == seen_keys(keycodes@, self.swap_ab),
                seen.len() == keycodes@.len(),
                old_held == self.held_frames@,
                old(self)@ == self@,
                self.counts_fit(),
                delay == self.repeat_delay && period == self.repeat_period,
                keys@ == first_occurrences(seen.subrange(0, i as int)),
                new_counts@ == next_held(old_held, keys@),
                active@ == registered(old_held, keys@, delay, period),
            decreases keycodes@.len() - i,
        {
            let raw = keycodes[i];
            let keycode = if self.swap_ab {
                Self::apply_ab_swap(raw)
            } else {
                raw
            };
            assert(keycode == seen[i as int]);
            assert(seen.subrange(0, i + 1).drop_last() =~= seen.subrange(0, i as int));
            if !contains_key(&keys, keycode) {
                let count = match lookup(&self.held_frames, keycode) {
                    Some(prev) => {
                        proof {
                            lemma_held_count_in(old_held, keycode);
                            let j = choose|j: int| 0 <= j < old_held.len() && #[trigger] old_held[j] == (keycode, prev);
                            assert(self@.held[j] == old_held[j]);
                        }
                        prev + 1
                    },
                    None => 0,
                };
                let ghost before_keys = keys@;
                keys.push(keycode);
                new_counts.push((keycode, count));
                assert(new_counts@ =~= next_held(old_held, keys@));
                if Self::is_active(count, self.repeat_delay, self.repeat_period) {
                    active.push(keycode);
                }
                proof {
                    before_keys.lemma_filter_push(keycode, |k: u16| registers(next_count(old_held, k), delay, period));
                }
            }
            i = i + 1;
        }
        assert(seen.subrange(0, keycodes@.len() as int) =~= seen);
        self.held_frames = new_counts;
        self.active_buttons = active;
    }

    /// A and B exchanged; other keys as they are.
    fn apply_ab_swap(keycode: u16) -> (r: u16)
        ensures
            r == swap_key(keycode),
    {
        if keycode == KEYCODE_A {
            KEYCODE_B
        } else if keycode == KEYCODE_B {
            KEYCODE_A
        } else {
            keycode
        }
    }

    /// Whether a key held for `count` frames after its first registers.
    fn is_active(count: u32, delay: u32, period: u32) -> (r: bool)
        ensures
            r == registers(count as int, delay as int, period as int),
    {
        if count == 0 {
            true
        } else if count < delay {
            false
        } else {
            let p = if period < 1 {
                1
            } else {
                period
            };
            (count - delay) % p == 0
        }
    }

    /// The keys that register this frame.
    pub fn get_pressed_buttons(&self) -> (r: Vec<u16>)
        ensures
            r@ == self@.active,
    {
        self.active_buttons.clone()
    }
}

/// Whether `key` is among `keys`.
fn contains_key(keys: &Vec<u16>, key: u16) -> (r: bool)
    ensures
        r == keys@.contains(key),
{
    let mut i: usize = 0;
    while i < keys.len()
        invariant
            i <= keys@.len(),
            forall|j: int| 0 <= j < i ==> keys@[j] != key,
        decreases keys@.len() - i,
    {
        if keys[i] == key {
            return true;
        }
        i = i + 1;
    }
    false
}

/// The count held for `key`, if any.
fn lookup(held: &Vec<(u16, u32)>, key: u16) -> (r: Option<u32>)
    ensures
        r == held_count(held@, key),
{
    let mut i: usize = held.len();
    assert(held@.subrange(0, i as int) =~= held@);
    while i > 0
        invariant
            i <= held@.len(),
            held_count(held@, key) == held_count(held@.subrange(0, i as int), key),
        decreases i,
    {
        let ghost prefix = held@.subrange(0, i as int);
        assert(prefix.drop_last() =~= held@.subrange(0, i - 1));
        if held[i - 1].0 == key {
            return Some(held[i - 1].1);
        }
        i = i - 1;
    }
    assert(held@.subrange(0, 0) =~= Seq::<(u16, u32)>::empty());
    None
}

/// A count found for a key is one of the held entries.
proof fn lemma_held_count_in(held: Seq<(u16, u32)>, k: u16)
    ensures
        held_count(held, k) is Some ==> exists|i: int| 0 <= i < held.len() && #[trigger] held[i] == (k, held_count(held, k)->0),
    decreases held.len(),
{
    if held.len() > 0 && held.last().0 != k {
        lemma_held_count_in(held.drop_last(), k);
        if held_count(held, k) is Some {
            let i = choose|i: int| 0 <= i < held.drop_last().len() && #[trigger] held.drop_last()[i] == (k, held_count(held, k)->0);
            assert(held[i] == held.drop_last()[i]);
        }
    }
    if held.len() > 0 && held.last().0 == k {
        assert(held[held.len() - 1] == held.last());
    }
}

/// The first occurrences hold every key of `s` and nothing else, each once.
pub proof fn lemma_first_occurrences(s: Seq<u16>)
    ensures
        forall|k: u16| #[trigger] first_occurrences(s).contains(k) == s.contains(k),
        first_occurrences(s).no_duplicates(),
    decreases s.len(),
{
    if s.len() > 0 {
        let rest = s.drop_last();
        lemma_first_occurrences(rest);
        let d = first_occurrences(rest);
        assert(s =~= rest.push(s.last()));
        assert forall|k: u16| #[trigger] first_occurrences(s).contains(k) == s.contains(k) by {
            lemma_push_contains(rest, s.last(), k);
            lemma_push_contains(d, s.last(), k);
            lemma_push_contains(rest, s.last(), s.last());
        }
        if !d.contains(s.last()) {
            assert forall|i: int, j: int| 0 <= i < j < d.push(s.last()).len() implies d.push(s.last())[i] != d.push(s.last())[j] by {
                if j == d.len() {
                    assert(d[i] == d.push(s.last())[i]);
                }
            }
        }
    }
}

/// An element of a sequence with one more element is an element of the
/// sequence or the new one.
proof fn lemma_push_contains(a: Seq<u16>, x: u16, k: u16)
    ensures
        a.push(x).contains(k) == (a.contains(k) || k == x),
{
    if a.contains(k) {
        let i = choose|i: int| 0 <= i < a.len() && a[i] == k;
        assert(a.push(x)[i] == k);
    }
    if k == x {
        assert(a.push(x)[a.len() as int] == k);
    }
    if a.push(x).contains(k) && k != x {
        let i = choose|i: int| 0 <= i < a.push(x).len() && a.push(x)[i] == k;
        assert(a[i] == k);
    }
}

/// After a frame, a key has a count exactly when it is down, and the
/// count is one more than last frame's, or 0 for a fresh press.
pub proof fn lemma_next_held_count(held: Seq<(u16, u32)>, keys: Seq<u16>, k: u16)
    requires
        keys.no_duplicates(),
    ensures
        held_count(next_held(held, keys), k) == if keys.contains(k) {
            Some(next_count(held, k) as u32)
        } else {
            None::<u32>
        },
    decreases keys.len(),
{
    if keys.len() > 0 {
        let rest = keys.drop_last();
        assert(next_held(held, keys).drop_last() =~= next_held(held, rest));
        assert(rest.no_duplicates());
        lemma_next_held_count(held, rest, k);
        if keys.last() != k {
            if keys.contains(k) {
                let i = choose|i: int| 0 <= i < keys.len() && keys[i] == k;
                assert(rest[i] == k);
            }
            if rest.contains(k) {
                let i = choose|i: int| 0 <= i < rest.len() && rest[i] == k;
                assert(keys[i] == k);
            }
        } else {
            assert(keys[keys.len() - 1] == k);
        }
    }
}

/// A key that is down this frame and was not held the frame before
/// registers, with a count of 0.
pub proof fn lemma_initial_press_registers(
    held: Seq<(u16, u32)>,
    ks: Seq<u16>,
    swap: bool,
    delay: int,
    period: int,
    k: u16,
)
    requires
        seen_keys(ks, swap).contains(k),
        held_count(held, k) is None,
    ensures
        registered(held, first_occurrences(seen_keys(ks, swap)), delay, period).contains(k),
        held_count(next_held(held, first_occurrences(seen_keys(ks, swap))), k) == Some(0u32),
{
    let keys = first_occurrences(seen_keys(ks, swap));
    lemma_first_occurrences(seen_keys(ks, swap));
    lemma_next_held_count(held, keys, k);
    let i = choose|i: int| 0 <= i < keys.len() && keys[i] == k;
    keys.lemma_filter_contains(|x: u16| registers(next_count(held, x), delay, period), i);
}

/// A key that stays down counts one frame more, and registers this frame
/// exactly when the repeat timing says so for that count.
pub proof fn lemma_held_key_counts_up(
    held: Seq<(u16, u32)>,
    ks: Seq<u16>,
    swap: bool,
    delay: int,
    period: int,
    k: u16,
    c: u32,
)
    requires
        seen_keys(ks, swap).contains(k),
        held_count(held, k) == Some(c),
        c < u32::MAX,
    ensures
        held_count(next_held(held, first_occurrences(seen_keys(ks, swap))), k) == Some((c + 1) as u32),
        registered(held, first_occurrences(seen_keys(ks, swap)), delay, period).contains(k)
            == registers(c + 1, delay, period),
{
    let keys = first_occurrences(seen_keys(ks, swap));
    let pred = |x: u16| registers(next_count(held, x), delay, period);
    lemma_first_occurrences(seen_keys(ks, swap));
    lemma_next_held_count(held, keys, k);
    let i = choose|i: int| 0 <= i < keys.len() && keys[i] == k;
    if registers(c + 1, delay, period) {
        keys.lemma_filter_contains(pred, i);
    } else if keys.filter(pred).contains(k) {
        let j = choose|j: int| 0 <= j < keys.filter(pred).len() && keys.filter(pred)[j] == k;
        #[allow(deprecated)]
        keys.filter_lemma(pred);
        assert(pred(keys.filter(pred)[j]));
    }
}

/// A key that is up this frame is forgotten: it has no count and does not
/// register.
pub proof fn lemma_released_key_forgotten(
    held: Seq<(u16, u32)>,
    ks: Seq<u16>,
    swap: bool,
    delay: int,
    period: int,
    k: u16,
)
    requires
        !seen_keys(ks, swap).contains(k),
    ensures
        held_count(next_held(held, first_occurrences(seen_keys(ks, swap))), k) is None,
        !registered(held, first_occurrences(seen_keys(ks, swap)), delay, period).contains(k),
{
    let keys = first_occurrences(seen_keys(ks, swap));
    lemma_first_occurrences(seen_keys(ks, swap));
    lemma_next_held_count(held, keys, k);
    if registered(held, keys, delay, period).contains(k) {
        keys.lemma_filter_contains_rev(|x: u16| registers(next_count(held, x), delay, period), k);
    }
}

/// With the swap on, a key registers as A or B exactly when the other was
/// pressed; other keys are seen as they are.
pub proof fn lemma_swap_exchanges_a_and_b(ks: Seq<u16>, k: u16)
    ensures
        seen_keys(ks, true).contains(swap_key(k)) == ks.contains(k),
{
    let seen = seen_keys(ks, true);
    if ks.contains(k) {
        let i = choose|i: int| 0 <= i < ks.len() && ks[i] == k;
        assert(seen[i] == swap_key(k));
    }
    if seen.contains(swap_key(k)) {
        let i = choose|i: int| 0 <= i < seen.len() && seen[i] == swap_key(k);
        assert(swap_key(ks[i]) == swap_key(k));
        assert(ks[i] == k);
    }
}

/// Each key registers at most once per frame.
pub proof fn lemma_registered_once(held: Seq<(u16, u32)>, ks: Seq<u16>, swap: bool, delay: int, period: int)
    ensures
        registered(held, first_occurrences(seen_keys(ks, swap)), delay, period).no_duplicates(),
{
    let keys = first_occurrences(seen_keys(ks, swap));
    let pred = |x: u16| registers(next_count(held, x), delay, period);
    lemma_first_occurrences(seen_keys(ks, swap));
    lemma_filter_keeps_distinct(keys, pred);
}

/// Filtering keeps a sequence free of repeats.
proof fn lemma_filter_keeps_distinct(s: Seq<u16>, pred: spec_fn(u16) -> bool)
    requires
        s.no_duplicates(),
    ensures
        s.filter(pred).no_duplicates(),
    decreases s.len(),
{
    if s.len() > 0 {
        let rest = s.drop_last();
        assert(rest.no_duplicates());
        lemma_filter_keeps_distinct(rest, pred);
        assert(s =~= rest.push(s.last()));
        rest.lemma_filter_push(s.last(), pred);
        if pred(s.last()) && rest.filter(pred).contains(s.last()) {
            rest.lemma_filter_contains_rev(pred, s.last());
            let i = choose|i: int| 0 <= i < rest.len() && rest[i] == s.last();
            assert(s[i] == s[s.len() - 1]);
        }
    }
}


/// `s` without its leading `0x` prefixes, however many.
pub open spec fn strip_hex_prefix(s: Seq<char>) -> Seq<char>
    decreases s.len(),
{
    if s.len() >= 2 && s[0] == '0' && s[1] == 'x' {
        strip_hex_prefix(s.subrange(2, s.len() as int))
    } else {
        s
    }
}

/// The value of a hexadecimal digit, either case.
pub open spec fn hex_digit(c: char) -> Option<nat> {
    if '0' <= c <= '9' {
        Some((c as nat - '0' as nat) as nat)
    } else if 'a' <= c <= 'f' {
        Some((c as nat - 'a' as nat + 10) as nat)
    } else if 'A' <= c <= 'F' {
        Some((c as nat - 'A' as nat + 10) as nat)
    } else {
        None
    }
}

/// The number that the hexadecimal digits `s` write, if all are digits.
pub open spec fn hex_value(s: Seq<char>) -> Option<nat>
    decreases s.len(),
{
    if s.len() == 0 {
        Some(0)
    } else {
        match (hex_value(s.drop_last()), hex_digit(s.last())) {
            (Some(v), Some(d)) => Some(v * 16 + d),
            _ => None,
        }
    }
}

/// A key code written in hexadecimal after any `0x` prefixes, with an
/// optional `+` sign; `None` when nothing, or something other than hex
/// digits, follows, or the number does not fit in 16 bits.
pub open spec fn keycode_of(s: Seq<char>) -> Option<u16> {
    let t = strip_hex_prefix(s);
    let d = if t.len() >= 1 && t[0] == '+' {
        t.subrange(1, t.len() as int)
    } else {
        t
    };
    if d.len() == 0 {
        None
    } else {
        match hex_value(d) {
            Some(v) => if v <= 0xFFFF {
                Some(v as u16)
            } else {
                None
            },
            None => None,
        }
    }
}

/// `v` held at 0x10000 at most.
pub open spec fn capped(v: nat) -> nat {
    if v > 0x10000 {
        0x10000
    } else {
        v
    }
}

/// Parses a key code written in hexadecimal, such as `0x1c00`.
pub fn parse_keycode(s: &str) -> (r: Option<u16>)
    ensures
        r == keycode_of(s@),
{
    let cs = chars_of(s);
    let mut start: usize = 0;
    assert(cs@.subrange(0, cs@.len() as int) =~= s@);
    while cs.len() - start >= 2 && cs[start] == '0' && cs[start + 1] == 'x'
        invariant
            start <= cs@.len(),
            cs@ == s@,
            strip_hex_prefix(cs@.subrange(start as int, cs@.len() as int)) == strip_hex_prefix(s@),
        decreases cs@.len() - start,
    {
        assert(cs@.subrange(start as int, cs@.len() as int).subrange(2, cs@.len() - start) =~= cs@.subrange(
            start + 2,
            cs@.len() as int,
        ));
        start = start + 2;
    }
    let ghost t = cs@.subrange(start as int, cs@.len() as int);
    assert(strip_hex_prefix(t) == t);
    if start < cs.len() && cs[start] == '+' {
        start = start + 1;
    }
    let ghost d = cs@.subrange(start as int, cs@.len() as int);
    assert(d == (if t.len() >= 1 && t[0] == '+' {
        t.subrange(1, t.len() as int)
    } else {
        t
    }));
    if start == cs.len() {
        return None;
    }
    let mut value: u32 = 0;
    let mut i: usize = start;
    while i < cs.len()
        invariant
            start <= i <= cs@.len(),
            d == cs@.subrange(start as int, cs@.len() as int),
            keycode_of(s@) == match hex_value(d) {
                Some(v) => if v <= 0xFFFF {
                    Some(v as u16)
                } else {
                    None
                },
                None => None,
            },
            hex_value(cs@.subrange(start as int, i as int)) is Some,
            value == capped(hex_value(cs@.subrange(start as int, i as int))->0),
        decreases cs@.len() - i,
    {
        let c = cs[i];
        let digit: u32 = if '0' <= c && c <= '9' {
            (c as u32) - ('0' as u32)
        } else if 'a' <= c && c <= 'f' {
            (c as u32) - ('a' as u32) + 10
        } else if 'A' <= c && c <= 'F' {
            (c as u32) - ('A' as u32) + 10
        } else {
            proof {
                assert(d[i - start] == c);
                assert(hex_digit(c) is None);
                lemma_hex_value_invalid(d, (i - start) as int);
            }
            return None;
        };
        let ghost prefix = cs@.subrange(start as int, i as int);
        assert(cs@.subrange(start as int, i + 1).drop_last() =~= prefix);
        assert(hex_digit(c) == Some(digit as nat));
        value = if value * 16 + digit > 0x10000 {
            0x10000
        } else {
            value * 16 + digit
        };
        i = i + 1;
    }
    assert(cs@.subrange(start as int, cs@.len() as int) =~= d);
    if value > 0xFFFF {
        None
    } else {
        Some(value as u16)
    }
}

/// A non-digit anywhere makes the whole not a number.
proof fn lemma_hex_value_invalid(s: Seq<char>, i: int)
    requires
        0 <= i < s.len(),
        hex_digit(s[i]) is None,
    ensures
        hex_value(s) is None,
    decreases s.len(),
{
    if i < s.len() - 1 {
        lemma_hex_value_invalid(s.drop_last(), i);
    }
}

} // verus!
