//! The action virtual machine: a stack machine over strings that runs the
//! action bytecode of a game.
//!
//! All values on the stack are strings; arithmetic reads them as floating
//! point numbers. The machine here keeps the stack, the variables, the
//! program counter and the current target, and carries out every
//! instruction that needs no floating point. An instruction that reads a
//! number is handed to the driver of the run as a request, with its
//! operands already taken from the stack.

use vstd::prelude::*;
use rand::{RngExt, SeedableRng};

use crate::actions::Action;
use crate::file_loader::{ActionPayload, Instruction, InstructionView, PayloadView, instruction_view};
use crate::text::{
    chars_of, decimal, decimal_string, lex_less, lowercase, push_char, signed_decimal,
    signed_decimal_string, str_eq, str_less, to_lowercase, utf8_len, utf8_length,
};

verus! {

/// A property of a movie instance that actions read and write.
#[derive(Debug, Clone, Copy, PartialEq, Eq, Hash, Structural)]
pub enum ActionProp {
    X,
    Y,
    XScale,
    YScale,
    CurrentFrame,
    TotalFrames,
    Alpha,
    Visible,
    Width,
    Height,
    Name,
}

/// The property a code names, if any.
pub open spec fn prop_of_code(val: u32) -> Option<ActionProp> {
    if val == 0 {
        Some(ActionProp::X)
    } else if val == 1 {
        Some(ActionProp::Y)
    } else if val == 2 {
        Some(ActionProp::XScale)
    } else if val == 3 {
        Some(ActionProp::YScale)
    } else if val == 4 {
        Some(ActionProp::CurrentFrame)
    } else if val == 5 {
        Some(ActionProp::TotalFrames)
    } else if val == 6 {
        Some(ActionProp::Alpha)
    } else if val == 7 {
        Some(ActionProp::Visible)
    } else if val == 8 {
        Some(ActionProp::Width)
    } else if val == 9 {
        Some(ActionProp::Height)
    } else if val == 13 {
        Some(ActionProp::Name)
    } else {
        None
    }
}

/// The code of a property.
pub open spec fn prop_code(p: ActionProp) -> u32 {
    match p {
        ActionProp::X => 0,
        ActionProp::Y => 1,
        ActionProp::XScale => 2,
        ActionProp::YScale => 3,
        ActionProp::CurrentFrame => 4,
        ActionProp::TotalFrames => 5,
        ActionProp::Alpha => 6,
        ActionProp::Visible => 7,
        ActionProp::Width => 8,
        ActionProp::Height => 9,
        ActionProp::Name => 13,
    }
}

impl ActionProp {
    pub fn from_u32(val: u32) -> (r: Option<Self>)
        ensures
            r == prop_of_code(val),
    {
        match val {
            0 => Some(ActionProp::X),
            1 => Some(ActionProp::Y),
            2 => Some(ActionProp::XScale),
            3 => Some(ActionProp::YScale),
            4 => Some(ActionProp::CurrentFrame),
            5 => Some(ActionProp::TotalFrames),
            6 => Some(ActionProp::Alpha),
            7 => Some(ActionProp::Visible),
            8 => Some(ActionProp::Width),
            9 => Some(ActionProp::Height),
            13 => Some(ActionProp::Name),
            _ => None,
        }
    }

    /// The code of this property.
    pub fn to_u32(self) -> (r: u32)
        ensures
            r == prop_code(self),
    {
        match self {
            ActionProp::X => 0,
            ActionProp::Y => 1,
            ActionProp::XScale => 2,
            ActionProp::YScale => 3,
            ActionProp::CurrentFrame => 4,
            ActionProp::TotalFrames => 5,
            ActionProp::Alpha => 6,
            ActionProp::Visible => 7,
            ActionProp::Width => 8,
            ActionProp::Height => 9,
            ActionProp::Name => 13,
        }
    }
}

/// Every property's code names it again, and no two properties share one.
pub proof fn lemma_prop_code_roundtrip(p: ActionProp, val: u32)
    ensures
        prop_of_code(prop_code(p)) == Some(p),
        prop_of_code(val) matches Some(q) ==> prop_code(q) == val,
{
}

/// The emulator a run's driver serves the machine's requests from: the
/// timeline of a target, its sounds, removing a movie instance, the time
/// and URLs. `ActionVM::step` hands each of these back as a request, with
/// the answers to `AskFrame` and `AskTime` fed in by `frame_step` and
/// `VmRun::push_time`.
pub trait VmHost {
    fn stop(&mut self, target: &str);

    fn play(&mut self, target: &str);

    fn get_frame(&mut self, target: &str) -> u32;

    fn goto_frame(&mut self, target: &str, frame: u32, playing: bool);

    fn stop_sounds(&mut self, target: &str);

    fn remove_sprite(&mut self, name: &str);

    fn get_time(&self) -> u32;

    fn get_url(&mut self, url: &str, target: &str);
}

/// The random number generator of `rand`.
#[verifier::external_type_specification]
#[verifier::external_body]
pub struct ExStdRng(rand::rngs::StdRng);

/// `StdRng::seed_from_u64`: a generator seeded from a number. Nothing is
/// stated of the generator.
#[verifier::external_body]
fn seeded_rng(seed: u64) -> (r: rand::rngs::StdRng) {
    rand::rngs::StdRng::seed_from_u64(seed)
}

/// `RngExt::random_range` over `0..upper`: a number below `upper`, which
/// `rand` documents for every outcome; it panics on an empty range, which
/// the contract leaves out.
#[verifier::external_body]
fn random_below(rng: &mut rand::rngs::StdRng, upper: u32) -> (r: u32)
    requires
        upper > 0,
    ensures
        r < upper,
{
    rng.random_range(0..upper)
}

/// Variables as names and values, in the order they were first set.
pub type VarsView = Seq<(Seq<char>, Seq<char>)>;

/// The characters of each name and value.
pub open spec fn vars_view(v: Seq<(String, String)>) -> VarsView {
    v.map_values(|p: (String, String)| (p.0@, p.1@))
}

/// No name occurs twice.
pub open spec fn var_names_distinct(s: VarsView) -> bool {
    forall|i: int, j: int| 0 <= i < j < s.len() ==> s[i].0 != s[j].0
}

/// The variable `i` is the first named `name`.
pub open spec fn var_at(s: VarsView, name: Seq<char>, i: int) -> bool {
    &&& 0 <= i < s.len()
    &&& s[i].0 == name
    &&& forall|j: int| 0 <= j < i ==> s[j].0 != name
}

/// Some variable is named `name`.
pub open spec fn has_var(s: VarsView, name: Seq<char>) -> bool {
    exists|i: int| 0 <= i < s.len() && s[i].0 == name
}

/// The first variable named `name`.
pub open spec fn var_index(s: VarsView, name: Seq<char>) -> int {
    choose|i: int| var_at(s, name, i)
}

/// The value of the variable `name`, if it is set.
pub open spec fn var_lookup(s: VarsView, name: Seq<char>) -> Option<Seq<char>> {
    if has_var(s, name) {
        Some(s[var_index(s, name)].1)
    } else {
        None
    }
}

/// The variables after setting `name` to `value`: in its place if it is
/// set, else last.
pub open spec fn var_set(s: VarsView, name: Seq<char>, value: Seq<char>) -> VarsView {
    if has_var(s, name) {
        s.update(var_index(s, name), (name, value))
    } else {
        s.push((name, value))
    }
}

proof fn lemma_var_index(s: VarsView, name: Seq<char>, i: int)
    requires
        var_at(s, name, i),
    ensures
        var_index(s, name) == i,
        has_var(s, name),
{
    let j = var_index(s, name);
    assert(var_at(s, name, j));
    if j < i {
        assert(s[j].0 != name);
    } else if i < j {
        assert(s[i].0 != name);
    }
}

/// Setting a variable and reading it gives the value back; every other
/// variable reads as before; names stay distinct.
pub proof fn lemma_var_set_then_lookup(
    s: VarsView,
    name: Seq<char>,
    value: Seq<char>,
    other: Seq<char>,
)
    requires
        var_names_distinct(s),
    ensures
        var_lookup(var_set(s, name, value), name) == Some(value),
        other != name ==> var_lookup(var_set(s, name, value), other) == var_lookup(s, other),
        var_names_distinct(var_set(s, name, value)),
{
    let t = var_set(s, name, value);
    if has_var(s, name) {
        let i = choose|i: int| 0 <= i < s.len() && s[i].0 == name;
        assert(var_at(s, name, i));
        lemma_var_index(s, name, i);
        assert(t == s.update(i, (name, value)));
        assert(var_at(t, name, i));
        lemma_var_index(t, name, i);
        if other != name && has_var(s, other) {
            let j = choose|j: int| 0 <= j < s.len() && s[j].0 == other;
            assert(var_at(s, other, j));
            lemma_var_index(s, other, j);
            assert(var_at(t, other, j));
            lemma_var_index(t, other, j);
        }
        if other != name && has_var(t, other) {
            let j = choose|j: int| 0 <= j < t.len() && t[j].0 == other;
            assert(s[j].0 == other);
        }
    } else {
        assert(t == s.push((name, value)));
        assert forall|a: int, b: int| 0 <= a < b < t.len() implies t[a].0 != t[b].0 by {
            if b == s.len() {
                assert(s[a].0 != name);
            }
        }
        assert(var_at(t, name, s.len() as int));
        lemma_var_index(t, name, s.len() as int);
        if other != name && has_var(s, other) {
            let j = choose|j: int| 0 <= j < s.len() && s[j].0 == other;
            assert(var_at(s, other, j));
            lemma_var_index(s, other, j);
            assert(var_at(t, other, j));
            lemma_var_index(t, other, j);
        }
        if other != name && has_var(t, other) {
            let j = choose|j: int| 0 <= j < t.len() && t[j].0 == other;
            assert(j < s.len());
            assert(s[j].0 == other);
        }
    }
}

/// The machine: its variables, which outlive each run, and its random
/// number generator.
pub struct ActionVM {
    pub vars: Vec<(String, String)>,
    rng: rand::rngs::StdRng,
}

impl View for ActionVM {
    /// The variables.
    type V = VarsView;

    closed spec fn view(&self) -> VarsView {
        vars_view(self.vars@)
    }
}

impl Default for ActionVM {
    fn default() -> (r: Self)
        ensures
            r@ == Seq::<(Seq<char>, Seq<char>)>::empty(),
    {
        ActionVM::new()
    }
}

impl ActionVM {
    /// A machine with no variables, its generator seeded with 0.
    pub fn new() -> (r: Self)
        ensures
            r@ == Seq::<(Seq<char>, Seq<char>)>::empty(),
    {
        let r = ActionVM { vars: Vec::new(), rng: seeded_rng(0) };
        assert(vars_view(r.vars@) =~= Seq::<(Seq<char>, Seq<char>)>::empty());
        r
    }

    /// The first variable named exactly `name`.
    fn var_position(&self, name: &str) -> (r: Option<usize>)
        ensures
            match r {
                Some(i) => var_at(self@, name@, i as int) && i < self.vars@.len(),
                None => !has_var(self@, name@),
            },
    {
        let mut i: usize = 0;
        while i < self.vars.len()
            invariant
                i <= self.vars@.len(),
                forall|j: int| 0 <= j < i ==> #[trigger] self.vars@[j].0@ != name@,
            decreases self.vars@.len() - i,
        {
            if str_eq(self.vars[i].0.as_str(), name) {
                return Some(i);
            }
            i = i + 1;
        }
        assert forall|j: int| 0 <= j < self@.len() implies self@[j].0 != name@ by {
            assert(self.vars@[j].0@ != name@);
        }
        None
    }

    /// The value of the variable named exactly `name`.
    pub fn get_var(&self, name: &str) -> (r: Option<&String>)
        ensures
            match r {
                Some(v) => var_lookup(self@, name@) == Some(v@),
                None => var_lookup(self@, name@) is None,
            },
    {
        match self.var_position(name) {
            Some(i) => {
                proof {
                    lemma_var_index(self@, name@, i as int);
                }
                Some(&self.vars[i].1)
            },
            None => None,
        }
    }

    /// Sets the variable named exactly `name` to `value`.
    pub fn set_var(&mut self, name: String, value: String)
        ensures
            final(self)@ == var_set(old(self)@, name@, value@),
    {
        let ghost before = self@;
        match self.var_position(name.as_str()) {
            Some(i) => {
                proof {
                    lemma_var_index(self@, name@, i as int);
                }
                let ghost nv = (name@, value@);
                self.vars[i] = (name, value);
                assert(self@ =~= before.update(i as int, nv));
            },
            None => {
                let ghost nv = (name@, value@);
                self.vars.push((name, value));
                assert(self@ =~= before.push(nv));
            },
        }
    }

    /// A random number below `upper`, or 0 when `upper` is 0.
    pub fn random_number(&mut self, upper: u32) -> (r: u32)
        ensures
            final(self)@ == old(self)@,
            upper > 0 ==> r < upper,
            upper == 0 ==> r == 0,
    {
        if upper > 0 {
            random_below(&mut self.rng, upper)
        } else {
            0
        }
    }
}

/// Strings as characters.
pub type StackView = Seq<Seq<char>>;

/// The characters of each string.
pub open spec fn stack_view(v: Seq<String>) -> StackView {
    v.map_values(|x: String| x@)
}

/// The top of a stack; an empty stack gives the empty string.
pub open spec fn top(s: StackView) -> Seq<char> {
    if s.len() == 0 {
        Seq::empty()
    } else {
        s.last()
    }
}

/// A stack without its top; an empty stack stays empty.
pub open spec fn below(s: StackView) -> StackView {
    if s.len() == 0 {
        s
    } else {
        s.drop_last()
    }
}

/// Where a branch by `offset` from instruction `pc` lands: past the
/// branch for a forward offset, from the branch itself for a backward one,
/// wrapping as a 32-bit number.
pub open spec fn jump_target(pc: u32, offset: i16) -> u32 {
    if offset >= 0 {
        (pc + offset + 1) as u32
    } else {
        (pc + offset) as u32
    }
}

/// One run of the machine over an action list: the number of the
/// instruction to execute (from 1), the stack, and the current target.
pub struct VmRun {
    pub pc: u32,
    pub stack: Vec<String>,
    pub target: String,
}

/// A run as program counter, stack and target.
pub type RunView = (u32, StackView, Seq<char>);

impl View for VmRun {
    type V = RunView;

    open spec fn view(&self) -> RunView {
        (self.pc, stack_view(self.stack@), self.target@)
    }
}

impl VmRun {
    /// A run from instruction `index`, with an empty stack, on `target`.
    pub fn new(index: u32, target: &str) -> (r: Self)
        ensures
            r@ == (index, Seq::<Seq<char>>::empty(), target@),
    {
        let mut t = String::new();
        let cs = chars_of(target);
        let mut i: usize = 0;
        while i < cs.len()
            invariant
                i <= cs@.len(),
                cs@ == target@,
                t@ == cs@.subrange(0, i as int),
            decreases cs@.len() - i,
        {
            push_char(&mut t, cs[i]);
            i = i + 1;
            assert(t@ =~= cs@.subrange(0, i as int));
        }
        assert(cs@.subrange(0, cs@.len() as int) =~= cs@);
        let r = VmRun { pc: index, stack: Vec::new(), target: t };
        assert(stack_view(r.stack@) =~= Seq::<Seq<char>>::empty());
        r
    }

    /// Takes the top of the stack; an empty stack gives the empty string.
    pub fn pop(&mut self) -> (r: String)
        ensures
            r@ == top(old(self)@.1),
            final(self)@ == (old(self)@.0, below(old(self)@.1), old(self)@.2),
    {
        let ghost before = self@.1;
        match self.stack.pop() {
            Some(v) => {
                assert(stack_view(self.stack@) =~= before.drop_last());
                v
            },
            None => String::new(),
        }
    }

    /// Puts `v` on top of the stack.
    pub fn push(&mut self, v: String)
        ensures
            final(self)@ == (old(self)@.0, old(self)@.1.push(v@), old(self)@.2),
    {
        let ghost before = self@.1;
        let ghost vv = v@;
        self.stack.push(v);
        assert(stack_view(self.stack@) =~= before.push(vv));
    }

    /// Answers `AskTime`: pushes the time `t` the host reports, in decimal.
    pub fn push_time(&mut self, t: u32)
        ensures
            final(self)@ == (old(self)@.0, old(self)@.1.push(decimal(t as nat)), old(self)@.2),
    {
        self.push(decimal_string(t as u128));
    }

    /// Moves on to the next instruction.
    pub fn advance(&mut self)
        requires
            old(self).pc < u32::MAX,
        ensures
            final(self)@ == ((old(self)@.0 + 1) as u32, old(self)@.1, old(self)@.2),
    {
        self.pc = self.pc + 1;
    }

    /// Branches by `offset` from the current instruction.
    pub fn jump(&mut self, offset: i16)
        ensures
            final(self)@ == (jump_target(old(self)@.0, offset), old(self)@.1, old(self)@.2),
    {
        self.pc = branch_target(self.pc, offset);
    }
}

/// Where a branch by `offset` from instruction `pc` lands.
pub fn branch_target(pc: u32, offset: i16) -> (r: u32)
    ensures
        r == jump_target(pc, offset),
{
    if offset >= 0 {
        (pc as i64 + offset as i64 + 1) as u32
    } else {
        (pc as i64 + offset as i64) as u32
    }
}

/// What a step of a run asks of its driver.
#[derive(Debug)]
pub enum VmRequest {
    /// The run is over.
    Halt,
    /// Go on with the next step.
    Continue,
    /// Push the result of `op` on the numbers `a` and `b` read (`Add`,
    /// `Subtract`, `Multiply`, `Divide`, `Equals`, `Less`, `And`, `Or`).
    Binary { op: Action, a: String, b: String },
    /// Push the result of `op` on the number `a` reads (`Not`, `ToInteger`,
    /// `AsciiToChar`, `RandomNumber`).
    Unary { op: Action, a: String },
    /// Push the part of `s` that the numbers `start` (from 1) and `len` read.
    Extract { s: String, start: String, len: String },
    /// Branch by `offset` when `cond` reads as a non-zero number, else go
    /// on with the next instruction.
    Branch { cond: String, offset: i16 },
    /// Go to the frame that `frame` reads, playing or not.
    GotoFrame { frame: String, playing: bool },
    /// Set the property that `prop` reads of the instance `target`.
    SetProperty { target: String, prop: String, value: String },
    /// Push the property that `prop` reads of the instance `target` ("0"
    /// for an unknown property).
    GetProperty { target: String, prop: String },
    /// Clone the instance `src` as `dest` at the depth `depth` reads.
    CloneSprite { src: String, dest: String, depth: String },
    /// Run the actions of the frame that `frame` reads.
    Call { frame: String },
    /// Remove the sprite `name`.
    RemoveSprite { name: String },
    /// Stop the timeline of `target`.
    Stop { target: String },
    /// Play the timeline of `target`.
    Play { target: String },
    /// Stop the sounds of `target`.
    StopSounds { target: String },
    /// Go to frame `frame` (from 1) of `target`, playing or not.
    SetFrame { target: String, frame: u32, playing: bool },
    /// The host call `GetUrl2` with `url` and `target`.
    GetUrl { url: String, target: String },
    /// Ask the host for the current frame of `target`, and go to the next
    /// (`forward`) or the previous one: `frame_step` gives the request.
    AskFrame { target: String, forward: bool },
    /// Ask the host for the time, and push it: `VmRun::push_time`.
    AskTime,
}

/// A request with its strings as characters.
pub enum RequestView {
    Halt,
    Continue,
    Binary { op: Action, a: Seq<char>, b: Seq<char> },
    Unary { op: Action, a: Seq<char> },
    Extract { s: Seq<char>, start: Seq<char>, len: Seq<char> },
    Branch { cond: Seq<char>, offset: i16 },
    GotoFrame { frame: Seq<char>, playing: bool },
    SetProperty { target: Seq<char>, prop: Seq<char>, value: Seq<char> },
    GetProperty { target: Seq<char>, prop: Seq<char> },
    CloneSprite { src: Seq<char>, dest: Seq<char>, depth: Seq<char> },
    Call { frame: Seq<char> },
    RemoveSprite { name: Seq<char> },
    Stop { target: Seq<char> },
    Play { target: Seq<char> },
    StopSounds { target: Seq<char> },
    SetFrame { target: Seq<char>, frame: u32, playing: bool },
    GetUrl { url: Seq<char>, target: Seq<char> },
    AskFrame { target: Seq<char>, forward: bool },
    AskTime,
}

impl View for VmRequest {
    type V = RequestView;

    open spec fn view(&self) -> RequestView {
        match self {
            VmRequest::Halt => RequestView::Halt,
            VmRequest::Continue => RequestView::Continue,
            VmRequest::Binary { op, a, b } => RequestView::Binary { op: *op, a: a@, b: b@ },
            VmRequest::Unary { op, a } => RequestView::Unary { op: *op, a: a@ },
            VmRequest::Extract { s, start, len } => RequestView::Extract {
                s: s@,
                start: start@,
                len: len@,
            },
            VmRequest::Branch { cond, offset } => RequestView::Branch { cond: cond@, offset: *offset },
            VmRequest::GotoFrame { frame, playing } => RequestView::GotoFrame {
                frame: frame@,
                playing: *playing,
            },
            VmRequest::SetProperty { target, prop, value } => RequestView::SetProperty {
                target: target@,
                prop: prop@,
                value: value@,
            },
            VmRequest::GetProperty { target, prop } => RequestView::GetProperty {
                target: target@,
                prop: prop@,
            },
            VmRequest::CloneSprite { src, dest, depth } => RequestView::CloneSprite {
                src: src@,
                dest: dest@,
                depth: depth@,
            },
            VmRequest::Call { frame } => RequestView::Call { frame: frame@ },
            VmRequest::RemoveSprite { name } => RequestView::RemoveSprite { name: name@ },
            VmRequest::Stop { target } => RequestView::Stop { target: target@ },
            VmRequest::Play { target } => RequestView::Play { target: target@ },
            VmRequest::StopSounds { target } => RequestView::StopSounds { target: target@ },
            VmRequest::SetFrame { target, frame, playing } => RequestView::SetFrame {
                target: target@,
                frame: *frame,
                playing: *playing,
            },
            VmRequest::GetUrl { url, target } => RequestView::GetUrl { url: url@, target: target@ },
            VmRequest::AskFrame { target, forward } => RequestView::AskFrame {
                target: target@,
                forward: *forward,
            },
            VmRequest::AskTime => RequestView::AskTime,
        }
    }
}

/// An opcode that the driver computes on two numbers.
pub open spec fn is_binary_numeric(op: Action) -> bool {
    op == Action::Add || op == Action::Subtract || op == Action::Multiply || op == Action::Divide
        || op == Action::Equals || op == Action::Less || op == Action::And || op == Action::Or
}

/// An opcode that the driver computes on one number.
pub open spec fn is_unary_numeric(op: Action) -> bool {
    op == Action::Not || op == Action::ToInteger || op == Action::AsciiToChar || op
        == Action::RandomNumber
}

/// "1" for true, "0" for false.
pub open spec fn flag_string(b: bool) -> Seq<char> {
    if b {
        seq!['1']
    } else {
        seq!['0']
    }
}

/// The effect of one step of a run: the variables, the run and the
/// request after executing instruction `instr` (none past the end of the
/// action list). Every instruction but a taken `Jump`, `End` and the end
/// of the list moves on to the next; `If` with a branch offset leaves the
/// move to the driver.
pub open spec fn step_spec(vars: VarsView, run: RunView, instr: Option<InstructionView>) -> (
    VarsView,
    RunView,
    RequestView,
) {
    let pc = run.0;
    let st = run.1;
    let tgt = run.2;
    let npc = (pc + 1) as u32;
    let a1 = top(st);
    let s1 = below(st);
    let a2 = top(s1);
    let s2 = below(s1);
    let a3 = top(s2);
    let s3 = below(s2);
    match instr {
        None => (vars, run, RequestView::Halt),
        Some(ins) => {
            let op = ins.0;
            let payload = ins.1;
            if op == Action::End {
                (vars, run, RequestView::Halt)
            } else if op == Action::Push {
                match payload {
                    Some(PayloadView::Str(s)) => (vars, (npc, st.push(s), tgt), RequestView::Continue),
                    Some(PayloadView::Int(n)) => (
                        vars,
                        (npc, st.push(signed_decimal(n as int)), tgt),
                        RequestView::Continue,
                    ),
                    None => (vars, (npc, st, tgt), RequestView::Continue),
                }
            } else if op == Action::Pop || op == Action::Trace {
                (vars, (npc, s1, tgt), RequestView::Continue)
            } else if op == Action::RemoveSprite {
                (vars, (npc, s1, tgt), RequestView::RemoveSprite { name: a1 })
            } else if op == Action::Stop {
                (vars, (npc, st, tgt), RequestView::Stop { target: tgt })
            } else if op == Action::Play {
                (vars, (npc, st, tgt), RequestView::Play { target: tgt })
            } else if op == Action::StopSounds {
                (vars, (npc, st, tgt), RequestView::StopSounds { target: tgt })
            } else if op == Action::NextFrame {
                (vars, (npc, st, tgt), RequestView::AskFrame { target: tgt, forward: true })
            } else if op == Action::PreviousFrame {
                (vars, (npc, st, tgt), RequestView::AskFrame { target: tgt, forward: false })
            } else if op == Action::GotoFrame {
                match payload {
                    Some(PayloadView::Int(n)) => (
                        vars,
                        (npc, st, tgt),
                        RequestView::SetFrame {
                            target: tgt,
                            frame: ((n as u32) + 1) as u32,
                            playing: false,
                        },
                    ),
                    _ => (vars, (npc, st, tgt), RequestView::Continue),
                }
            } else if op == Action::SetVariable {
                (var_set(vars, lowercase(a2), a1), (npc, s2, tgt), RequestView::Continue)
            } else if op == Action::GetVariable {
                let v = match var_lookup(vars, lowercase(a1)) {
                    Some(v) => v,
                    None => Seq::empty(),
                };
                (vars, (npc, s1.push(v), tgt), RequestView::Continue)
            } else if is_binary_numeric(op) {
                (vars, (npc, s2, tgt), RequestView::Binary { op, a: a2, b: a1 })
            } else if is_unary_numeric(op) {
                (vars, (npc, s1, tgt), RequestView::Unary { op, a: a1 })
            } else if op == Action::StringEquals {
                (vars, (npc, s2.push(flag_string(a2 == a1)), tgt), RequestView::Continue)
            } else if op == Action::StringAdd {
                (vars, (npc, s2.push(a2 + a1), tgt), RequestView::Continue)
            } else if op == Action::StringLess {
                (vars, (npc, s2.push(flag_string(lex_less(a2, a1))), tgt), RequestView::Continue)
            } else if op == Action::StringLength {
                (vars, (npc, s1.push(decimal(utf8_len(a1))), tgt), RequestView::Continue)
            } else if op == Action::StringExtract {
                (vars, (npc, s3, tgt), RequestView::Extract { s: a3, start: a2, len: a1 })
            } else if op == Action::CharToAscii {
                let code: nat = if a1.len() > 0 {
                    (a1[0] as u32) as nat
                } else {
                    0
                };
                (vars, (npc, s1.push(decimal(code)), tgt), RequestView::Continue)
            } else if op == Action::Jump {
                match payload {
                    Some(PayloadView::Int(off)) => (
                        vars,
                        (jump_target(pc, off), st, tgt),
                        RequestView::Continue,
                    ),
                    _ => (vars, (npc, st, tgt), RequestView::Continue),
                }
            } else if op == Action::If {
                match payload {
                    Some(PayloadView::Int(off)) => (
                        vars,
                        (pc, s1, tgt),
                        RequestView::Branch { cond: a1, offset: off },
                    ),
                    _ => (vars, (npc, s1, tgt), RequestView::Continue),
                }
            } else if op == Action::GotoFrame2 {
                let playing = match payload {
                    Some(PayloadView::Int(flags)) => (flags & 1i16) != 0,
                    _ => false,
                };
                (vars, (npc, s1, tgt), RequestView::GotoFrame { frame: a1, playing })
            } else if op == Action::SetTarget {
                match payload {
                    Some(PayloadView::Str(s)) => (vars, (npc, st, s), RequestView::Continue),
                    _ => (vars, (npc, st, tgt), RequestView::Continue),
                }
            } else if op == Action::SetTarget2 {
                (vars, (npc, s1, a1), RequestView::Continue)
            } else if op == Action::SetProperty {
                (
                    vars,
                    (npc, s3, tgt),
                    RequestView::SetProperty { target: a3, prop: a2, value: a1 },
                )
            } else if op == Action::GetProperty {
                (vars, (npc, s2, tgt), RequestView::GetProperty { target: a2, prop: a1 })
            } else if op == Action::CloneSprite {
                (vars, (npc, s3, tgt), RequestView::CloneSprite { src: a3, dest: a2, depth: a1 })
            } else if op == Action::Call {
                (vars, (npc, s1, tgt), RequestView::Call { frame: a1 })
            } else if op == Action::GetTime {
                (vars, (npc, st, tgt), RequestView::AskTime)
            } else if op == Action::GetUrl2 {
                (vars, (npc, s2, tgt), RequestView::GetUrl { url: a2, target: a1 })
            } else {
                (vars, (npc, st, tgt), RequestView::Continue)
            }
        },
    }
}

/// The frame a `NextFrame` (`forward`) or `PreviousFrame` goes to from
/// `current`: one more, wrapping, or one less, not below 0.
pub open spec fn stepped_frame(current: u32, forward: bool) -> u32 {
    if forward {
        current.wrapping_add(1)
    } else if current == 0 {
        0
    } else {
        (current - 1) as u32
    }
}

/// Answers `AskFrame`: the request to go to the frame next to `current`,
/// the frame the host reports for `target`.
pub fn frame_step(target: String, current: u32, forward: bool) -> (r: VmRequest)
    ensures
        r@ == (RequestView::SetFrame {
            target: target@,
            frame: stepped_frame(current, forward),
            playing: false,
        }),
{
    let frame = if forward {
        current.wrapping_add(1)
    } else {
        current.saturating_sub(1)
    };
    VmRequest::SetFrame { target, frame, playing: false }
}

/// An instruction that the machine cannot execute without overflow:
/// `GotoFrame` to frame -1, whose number plus one overflows.
pub open spec fn overflows(instr: Option<InstructionView>) -> bool {
    instr matches Some(ins) && ins.0 == Action::GotoFrame && ins.1 == Some(PayloadView::Int(-1i16))
}

/// The view of an optional instruction.
pub open spec fn opt_ins_view(o: Option<Instruction>) -> Option<InstructionView> {
    match o {
        Some(i) => Some(instruction_view(i)),
        None => None,
    }
}

impl ActionVM {
    /// Executes one instruction of a run: `instr` is the instruction at the
    /// run's program counter, or none past the end of the action list.
    /// What the host must do or answer, and what reads a number, comes
    /// back as a request, its operands taken from the stack.
    pub fn step(&mut self, run: &mut VmRun, instr: &Option<Instruction>) -> (r: VmRequest)
        requires
            old(run).pc < u32::MAX,
            !overflows(opt_ins_view(*instr)),
        ensures
            (final(self)@, final(run)@, r@) == step_spec(old(self)@, old(run)@, opt_ins_view(*instr)),
    {
        let ghost vars0 = self@;
        let ghost run0 = run@;
        let ghost ins = opt_ins_view(*instr);
        let (op, payload) = match instr {
            None => {
                assert((self@, run@, RequestView::Halt) == step_spec(vars0, run0, ins));
                return VmRequest::Halt;
            },
            Some((op, payload)) => (*op, payload),
        };
        let npc = run.pc + 1;
        match op {
            Action::End => {
                assert((self@, run@, RequestView::Halt) == step_spec(vars0, run0, ins));
                return VmRequest::Halt;
            },
            Action::Push => {
                match payload {
                    Some(ActionPayload::String(s)) => run.push(s.clone()),
                    Some(ActionPayload::Integer(n)) => run.push(signed_decimal_string(*n as i128)),
                    None => {},
                }
                run.pc = npc;
            },
            Action::Pop | Action::Trace => {
                run.pop();
                run.pc = npc;
            },
            Action::RemoveSprite => {
                let name = run.pop();
                run.pc = npc;
                let r = VmRequest::RemoveSprite { name };
                assert((self@, run@, r@) == step_spec(vars0, run0, ins));
                return r;
            },
            Action::SetVariable => {
                let val = run.pop();
                let var = run.pop();
                let key = to_lowercase(var.as_str());
                self.set_var(key, val);
                run.pc = npc;
            },
            Action::GetVariable => {
                let name = run.pop();
                let key = to_lowercase(name.as_str());
                let v = match self.get_var(key.as_str()) {
                    Some(v) => v.clone(),
                    None => String::new(),
                };
                run.push(v);
                run.pc = npc;
            },
            Action::Add | Action::Subtract | Action::Multiply | Action::Divide | Action::Equals
            | Action::Less | Action::And | Action::Or => {
                let b = run.pop();
                let a = run.pop();
                run.pc = npc;
                let r = VmRequest::Binary { op, a, b };
                assert((self@, run@, r@) == step_spec(vars0, run0, ins));
                return r;
            },
            Action::Not | Action::ToInteger | Action::AsciiToChar | Action::RandomNumber => {
                let a = run.pop();
                run.pc = npc;
                let r = VmRequest::Unary { op, a };
                assert((self@, run@, r@) == step_spec(vars0, run0, ins));
                return r;
            },
            Action::StringEquals => {
                let b = run.pop();
                let a = run.pop();
                let eq = str_eq(a.as_str(), b.as_str());
                run.push(flag(eq));
                run.pc = npc;
            },
            Action::StringAdd => {
                let b = run.pop();
                let mut a = run.pop();
                let bc = chars_of(b.as_str());
                let mut i: usize = 0;
                let ghost a0 = a@;
                while i < bc.len()
                    invariant
                        i <= bc@.len(),
                        bc@ == b@,
                        a@ == a0 + bc@.subrange(0, i as int),
                    decreases bc@.len() - i,
                {
                    push_char(&mut a, bc[i]);
                    i = i + 1;
                    assert(a@ =~= a0 + bc@.subrange(0, i as int));
                }
                assert(bc@.subrange(0, bc@.len() as int) =~= bc@);
                run.push(a);
                run.pc = npc;
            },
            Action::StringLess => {
                let b = run.pop();
                let a = run.pop();
                let less = str_less(a.as_str(), b.as_str());
                run.push(flag(less));
                run.pc = npc;
            },
            Action::StringLength => {
                let a = run.pop();
                run.push(decimal_string(utf8_length(a.as_str())));
                run.pc = npc;
            },
            Action::StringExtract => {
                let len = run.pop();
                let start = run.pop();
                let s = run.pop();
                run.pc = npc;
                let r = VmRequest::Extract { s, start, len };
                assert((self@, run@, r@) == step_spec(vars0, run0, ins));
                return r;
            },
            Action::CharToAscii => {
                let a = run.pop();
                let cs = chars_of(a.as_str());
                let code: u128 = if cs.len() > 0 {
                    cs[0] as u32 as u128
                } else {
                    0
                };
                run.push(decimal_string(code));
                run.pc = npc;
            },
            Action::Jump => {
                match payload {
                    Some(ActionPayload::Integer(offset)) => {
                        run.jump(*offset);
                    },
                    _ => {
                        run.pc = npc;
                    },
                }
            },
            Action::If => {
                let cond = run.pop();
                match payload {
                    Some(ActionPayload::Integer(offset)) => {
                        let r = VmRequest::Branch { cond, offset: *offset };
                        assert((self@, run@, r@) == step_spec(vars0, run0, ins));
                        return r;
                    },
                    _ => {
                        run.pc = npc;
                    },
                }
            },
            Action::Stop => {
                run.pc = npc;
                let r = VmRequest::Stop { target: run.target.clone() };
                assert((self@, run@, r@) == step_spec(vars0, run0, ins));
                return r;
            },
            Action::Play => {
                run.pc = npc;
                let r = VmRequest::Play { target: run.target.clone() };
                assert((self@, run@, r@) == step_spec(vars0, run0, ins));
                return r;
            },
            Action::StopSounds => {
                run.pc = npc;
                let r = VmRequest::StopSounds { target: run.target.clone() };
                assert((self@, run@, r@) == step_spec(vars0, run0, ins));
                return r;
            },
            Action::NextFrame | Action::PreviousFrame => {
                run.pc = npc;
                let r = VmRequest::AskFrame {
                    target: run.target.clone(),
                    forward: matches!(op, Action::NextFrame),
                };
                assert((self@, run@, r@) == step_spec(vars0, run0, ins));
                return r;
            },
            Action::GotoFrame => {
                match payload {
                    Some(ActionPayload::Integer(frame)) => {
                        let fr: i16 = *frame;
                        let n = fr as u32;
                        assert(fr != -1i16);
                        assert(fr != -1i16 ==> (fr as u32) != 0xffff_ffffu32) by (bit_vector);
                        run.pc = npc;
                        let r = VmRequest::SetFrame {
                            target: run.target.clone(),
                            frame: n + 1,
                            playing: false,
                        };
                        assert((self@, run@, r@) == step_spec(vars0, run0, ins));
                        return r;
                    },
                    _ => {},
                }
                run.pc = npc;
            },
            Action::GotoFrame2 => {
                let frame = run.pop();
                let playing = match payload {
                    Some(ActionPayload::Integer(flags)) => (*flags & 1) != 0,
                    _ => false,
                };
                run.pc = npc;
                let r = VmRequest::GotoFrame { frame, playing };
                assert((self@, run@, r@) == step_spec(vars0, run0, ins));
                return r;
            },
            Action::SetTarget => {
                match payload {
                    Some(ActionPayload::String(s)) => {
                        run.target = s.clone();
                    },
                    _ => {},
                }
                run.pc = npc;
            },
            Action::SetTarget2 => {
                let t = run.pop();
                run.target = t;
                run.pc = npc;
            },
            Action::SetProperty => {
                let value = run.pop();
                let prop = run.pop();
                let target = run.pop();
                run.pc = npc;
                let r = VmRequest::SetProperty { target, prop, value };
                assert((self@, run@, r@) == step_spec(vars0, run0, ins));
                return r;
            },
            Action::GetProperty => {
                let prop = run.pop();
                let target = run.pop();
                run.pc = npc;
                let r = VmRequest::GetProperty { target, prop };
                assert((self@, run@, r@) == step_spec(vars0, run0, ins));
                return r;
            },
            Action::CloneSprite => {
                let depth = run.pop();
                let dest = run.pop();
                let src = run.pop();
                run.pc = npc;
                let r = VmRequest::CloneSprite { src, dest, depth };
                assert((self@, run@, r@) == step_spec(vars0, run0, ins));
                return r;
            },
            Action::Call => {
                let frame = run.pop();
                run.pc = npc;
                let r = VmRequest::Call { frame };
                assert((self@, run@, r@) == step_spec(vars0, run0, ins));
                return r;
            },
            Action::GetTime => {
                run.pc = npc;
                assert((self@, run@, RequestView::AskTime) == step_spec(vars0, run0, ins));
                return VmRequest::AskTime;
            },
            Action::GetUrl2 => {
                let target_val = run.pop();
                let url = run.pop();
                run.pc = npc;
                let r = VmRequest::GetUrl { url, target: target_val };
                assert((self@, run@, r@) == step_spec(vars0, run0, ins));
                return r;
            },
            _ => {
                run.pc = npc;
            },
        }
        assert((self@, run@, RequestView::Continue) == step_spec(vars0, run0, ins));
        VmRequest::Continue
    }
}

/// "1" for true, "0" for false.
fn flag(b: bool) -> (r: String)
    ensures
        r@ == flag_string(b),
{
    let mut s = String::new();
    if b {
        push_char(&mut s, '1');
    } else {
        push_char(&mut s, '0');
    }
    assert(s@ =~= flag_string(b));
    s
}

/// Setting a variable and then reading it back: after `SetVariable` on a
/// stack holding a name and a value, pushing the name again and running
/// `GetVariable` leaves the value on top of the stack, whatever the case of
/// the name.
pub proof fn lemma_set_then_get_variable(
    vars: VarsView,
    run: RunView,
    name: Seq<char>,
    value: Seq<char>,
)
    requires
        var_names_distinct(vars),
    ensures
        ({
            let set_run = (run.0, run.1.push(name).push(value), run.2);
            let after_set = step_spec(vars, set_run, Some((Action::SetVariable, None)));
            let get_run = (after_set.1.0, after_set.1.1.push(name), after_set.1.2);
            let after_get = step_spec(after_set.0, get_run, Some((Action::GetVariable, None)));
            &&& top(after_get.1.1) == value
            &&& after_get.1.1.drop_last() == run.1
        }),
{
    let key = lowercase(name);
    lemma_var_set_then_lookup(vars, key, value, key);
    let set_run = (run.0, run.1.push(name).push(value), run.2);
    assert(top(set_run.1) == value);
    assert(below(set_run.1) == run.1.push(name));
    assert(top(below(set_run.1)) == name);
    assert(below(below(set_run.1)) =~= run.1);
}


/// `StringExtract` takes its three operands from the top of the stack:
/// the length on top, the 1-based start below it, and the string below
/// that; the request carries them as such and the stack loses all three.
pub proof fn lemma_string_extract_operands(
    vars: VarsView,
    pc: u32,
    st: StackView,
    tgt: Seq<char>,
    s: Seq<char>,
    start: Seq<char>,
    len: Seq<char>,
    payload: Option<PayloadView>,
)
    requires
        pc < u32::MAX,
    ensures
        step_spec(vars, (pc, st.push(s).push(start).push(len), tgt), Some((Action::StringExtract, payload)))
            == (vars, ((pc + 1) as u32, st, tgt), RequestView::Extract { s, start, len }),
{
    let full = st.push(s).push(start).push(len);
    assert(full.drop_last() =~= st.push(s).push(start));
    assert(st.push(s).push(start).drop_last() =~= st.push(s));
    assert(st.push(s).drop_last() =~= st);
}


/// The stack `st` with `a` pushed, then `b` on top.
pub open spec fn pushed2(st: StackView, a: Seq<char>, b: Seq<char>) -> StackView {
    st.push(a).push(b)
}

proof fn lemma_pushed2(st: StackView, a: Seq<char>, b: Seq<char>)
    ensures
        top(pushed2(st, a, b)) == b,
        top(below(pushed2(st, a, b))) == a,
        below(below(pushed2(st, a, b))) == st,
{
    assert(st.push(a).push(b).drop_last() =~= st.push(a));
    assert(st.push(a).drop_last() =~= st);
}

/// How the two-operand instructions take their operands: the top of the
/// stack is the second operand and the entry below it the first; both
/// are popped. Arithmetic and comparison come back as a request on
/// (first, second); `StringAdd` pushes first followed by second;
/// `StringLess` pushes whether first sorts before second; `SetVariable`
/// sets the variable named by the first (lowercased) to the second;
/// `GetProperty` asks for property second of instance first; `GetUrl2`
/// calls the host with the first as URL and the second as target.
pub proof fn lemma_two_operand_order(
    vars: VarsView,
    pc: u32,
    st: StackView,
    tgt: Seq<char>,
    a: Seq<char>,
    b: Seq<char>,
    op: Action,
    payload: Option<PayloadView>,
)
    requires
        pc < u32::MAX,
    ensures
        ({
            let run = (pc, pushed2(st, a, b), tgt);
            let next = (pc + 1) as u32;
            &&& is_binary_numeric(op) ==> step_spec(vars, run, Some((op, payload))) == (
                vars,
                (next, st, tgt),
                RequestView::Binary { op, a, b },
            )
            &&& step_spec(vars, run, Some((Action::StringAdd, payload))) == (
                vars,
                (next, st.push(a + b), tgt),
                RequestView::Continue,
            )
            &&& step_spec(vars, run, Some((Action::StringLess, payload))) == (
                vars,
                (next, st.push(flag_string(lex_less(a, b))), tgt),
                RequestView::Continue,
            )
            &&& step_spec(vars, run, Some((Action::StringEquals, payload))) == (
                vars,
                (next, st.push(flag_string(a == b)), tgt),
                RequestView::Continue,
            )
            &&& step_spec(vars, run, Some((Action::SetVariable, payload))) == (
                var_set(vars, lowercase(a), b),
                (next, st, tgt),
                RequestView::Continue,
            )
            &&& step_spec(vars, run, Some((Action::GetProperty, payload))) == (
                vars,
                (next, st, tgt),
                RequestView::GetProperty { target: a, prop: b },
            )
            &&& step_spec(vars, run, Some((Action::GetUrl2, payload))) == (
                vars,
                (next, st, tgt),
                RequestView::GetUrl { url: a, target: b },
            )
        }),
{
    lemma_pushed2(st, a, b);
}

/// How the three-operand instructions take their operands, the top of
/// the stack last: `SetProperty` sets property second of instance first to
/// third; `CloneSprite` clones instance first as second at depth third.
/// All three are popped.
pub proof fn lemma_three_operand_order(
    vars: VarsView,
    pc: u32,
    st: StackView,
    tgt: Seq<char>,
    a: Seq<char>,
    b: Seq<char>,
    c: Seq<char>,
    payload: Option<PayloadView>,
)
    requires
        pc < u32::MAX,
    ensures
        ({
            let run = (pc, st.push(a).push(b).push(c), tgt);
            let next = (pc + 1) as u32;
            &&& step_spec(vars, run, Some((Action::SetProperty, payload))) == (
                vars,
                (next, st, tgt),
                RequestView::SetProperty { target: a, prop: b, value: c },
            )
            &&& step_spec(vars, run, Some((Action::CloneSprite, payload))) == (
                vars,
                (next, st, tgt),
                RequestView::CloneSprite { src: a, dest: b, depth: c },
            )
        }),
{
    let full = st.push(a).push(b).push(c);
    assert(full.drop_last() =~= st.push(a).push(b));
    assert(st.push(a).push(b).drop_last() =~= st.push(a));
    assert(st.push(a).drop_last() =~= st);
}

} // verus!
