//! Opcodes of the Native32 action bytecode.
//!
//! The encoding follows ActionScript's opcode numbering; each instruction in a
//! game file stores its opcode as a little-endian `u32`.

use vstd::prelude::*;

verus! {

/// One opcode of the action bytecode.
#[derive(Debug, Clone, Copy, PartialEq, Eq, Hash, Structural)]
pub enum Action {
    End,
    NextFrame,
    PreviousFrame,
    Play,
    Stop,
    StopSounds,
    Add,
    Subtract,
    Multiply,
    Divide,
    Equals,
    Less,
    And,
    Or,
    Not,
    StringEquals,
    StringLength,
    StringExtract,
    Pop,
    ToInteger,
    GetVariable,
    SetVariable,
    SetTarget2,
    StringAdd,
    GetProperty,
    SetProperty,
    CloneSprite,
    RemoveSprite,
    Trace,
    StartDrag,
    EndDrag,
    StringLess,
    RandomNumber,
    MBStringLength,
    CharToAscii,
    AsciiToChar,
    GetTime,
    MBStringExtract,
    MBCharToAscii,
    MBAsciiToChar,
    GotoFrame,
    WaitForFrame,
    SetTarget,
    GotoLabel,
    WaitForFrame2,
    Push,
    Jump,
    GetUrl2,
    If,
    Call,
    GotoFrame2,
}

/// The numeric code of each opcode in the bytecode.
pub open spec fn action_code(a: Action) -> u32 {
    match a {
        Action::End => 0x00,
        Action::NextFrame => 0x04,
        Action::PreviousFrame => 0x05,
        Action::Play => 0x06,
        Action::Stop => 0x07,
        Action::StopSounds => 0x09,
        Action::Add => 0x0a,
        Action::Subtract => 0x0b,
        Action::Multiply => 0x0c,
        Action::Divide => 0x0d,
        Action::Equals => 0x0e,
        Action::Less => 0x0f,
        Action::And => 0x10,
        Action::Or => 0x11,
        Action::Not => 0x12,
        Action::StringEquals => 0x13,
        Action::StringLength => 0x14,
        Action::StringExtract => 0x15,
        Action::Pop => 0x17,
        Action::ToInteger => 0x18,
        Action::GetVariable => 0x1c,
        Action::SetVariable => 0x1d,
        Action::SetTarget2 => 0x20,
        Action::StringAdd => 0x21,
        Action::GetProperty => 0x22,
        Action::SetProperty => 0x23,
        Action::CloneSprite => 0x24,
        Action::RemoveSprite => 0x25,
        Action::Trace => 0x26,
        Action::StartDrag => 0x27,
        Action::EndDrag => 0x28,
        Action::StringLess => 0x29,
        Action::RandomNumber => 0x30,
        Action::MBStringLength => 0x31,
        Action::CharToAscii => 0x32,
        Action::AsciiToChar => 0x33,
        Action::GetTime => 0x34,
        Action::MBStringExtract => 0x35,
        Action::MBCharToAscii => 0x36,
        Action::MBAsciiToChar => 0x37,
        Action::GotoFrame => 0x81,
        Action::WaitForFrame => 0x8a,
        Action::SetTarget => 0x8b,
        Action::GotoLabel => 0x8c,
        Action::WaitForFrame2 => 0x8d,
        Action::Push => 0x96,
        Action::Jump => 0x99,
        Action::GetUrl2 => 0x9a,
        Action::If => 0x9d,
        Action::Call => 0x9e,
        Action::GotoFrame2 => 0x9f,
    }
}

/// The opcode whose numeric code is `val`, if any.
pub open spec fn action_of_code(val: u32) -> Option<Action> {
    if val == 0x00 {
        Some(Action::End)
    } else if val == 0x04 {
        Some(Action::NextFrame)
    } else if val == 0x05 {
        Some(Action::PreviousFrame)
    } else if val == 0x06 {
        Some(Action::Play)
    } else if val == 0x07 {
        Some(Action::Stop)
    } else if val == 0x09 {
        Some(Action::StopSounds)
    } else if val == 0x0a {
        Some(Action::Add)
    } else if val == 0x0b {
        Some(Action::Subtract)
    } else if val == 0x0c {
        Some(Action::Multiply)
    } else if val == 0x0d {
        Some(Action::Divide)
    } else if val == 0x0e {
        Some(Action::Equals)
    } else if val == 0x0f {
        Some(Action::Less)
    } else if val == 0x10 {
        Some(Action::And)
    } else if val == 0x11 {
        Some(Action::Or)
    } else if val == 0x12 {
        Some(Action::Not)
    } else if val == 0x13 {
        Some(Action::StringEquals)
    } else if val == 0x14 {
        Some(Action::StringLength)
    } else if val == 0x15 {
        Some(Action::StringExtract)
    } else if val == 0x17 {
        Some(Action::Pop)
    } else if val == 0x18 {
        Some(Action::ToInteger)
    } else if val == 0x1c {
        Some(Action::GetVariable)
    } else if val == 0x1d {
        Some(Action::SetVariable)
    } else if val == 0x20 {
        Some(Action::SetTarget2)
    } else if val == 0x21 {
        Some(Action::StringAdd)
    } else if val == 0x22 {
        Some(Action::GetProperty)
    } else if val == 0x23 {
        Some(Action::SetProperty)
    } else if val == 0x24 {
        Some(Action::CloneSprite)
    } else if val == 0x25 {
        Some(Action::RemoveSprite)
    } else if val == 0x26 {
        Some(Action::Trace)
    } else if val == 0x27 {
        Some(Action::StartDrag)
    } else if val == 0x28 {
        Some(Action::EndDrag)
    } else if val == 0x29 {
        Some(Action::StringLess)
    } else if val == 0x30 {
        Some(Action::RandomNumber)
    } else if val == 0x31 {
        Some(Action::MBStringLength)
    } else if val == 0x32 {
        Some(Action::CharToAscii)
    } else if val == 0x33 {
        Some(Action::AsciiToChar)
    } else if val == 0x34 {
        Some(Action::GetTime)
    } else if val == 0x35 {
        Some(Action::MBStringExtract)
    } else if val == 0x36 {
        Some(Action::MBCharToAscii)
    } else if val == 0x37 {
        Some(Action::MBAsciiToChar)
    } else if val == 0x81 {
        Some(Action::GotoFrame)
    } else if val == 0x8a {
        Some(Action::WaitForFrame)
    } else if val == 0x8b {
        Some(Action::SetTarget)
    } else if val == 0x8c {
        Some(Action::GotoLabel)
    } else if val == 0x8d {
        Some(Action::WaitForFrame2)
    } else if val == 0x96 {
        Some(Action::Push)
    } else if val == 0x99 {
        Some(Action::Jump)
    } else if val == 0x9a {
        Some(Action::GetUrl2)
    } else if val == 0x9d {
        Some(Action::If)
    } else if val == 0x9e {
        Some(Action::Call)
    } else if val == 0x9f {
        Some(Action::GotoFrame2)
    } else {
        None
    }
}

impl Action {
    /// Decode an opcode from its numeric code; `None` for codes that name no opcode.
    pub fn from_u32(val: u32) -> (r: Option<Self>)
        ensures
            r == action_of_code(val),
    {
        match val {
            0x00 => Some(Action::End),
            0x04 => Some(Action::NextFrame),
            0x05 => Some(Action::PreviousFrame),
            0x06 => Some(Action::Play),
            0x07 => Some(Action::Stop),
            0x09 => Some(Action::StopSounds),
            0x0a => Some(Action::Add),
            0x0b => Some(Action::Subtract),
            0x0c => Some(Action::Multiply),
            0x0d => Some(Action::Divide),
            0x0e => Some(Action::Equals),
            0x0f => Some(Action::Less),
            0x10 => Some(Action::And),
            0x11 => Some(Action::Or),
            0x12 => Some(Action::Not),
            0x13 => Some(Action::StringEquals),
            0x14 => Some(Action::StringLength),
            0x15 => Some(Action::StringExtract),
            0x17 => Some(Action::Pop),
            0x18 => Some(Action::ToInteger),
            0x1c => Some(Action::GetVariable),
            0x1d => Some(Action::SetVariable),
            0x20 => Some(Action::SetTarget2),
            0x21 => Some(Action::StringAdd),
            0x22 => Some(Action::GetProperty),
            0x23 => Some(Action::SetProperty),
            0x24 => Some(Action::CloneSprite),
            0x25 => Some(Action::RemoveSprite),
            0x26 => Some(Action::Trace),
            0x27 => Some(Action::StartDrag),
            0x28 => Some(Action::EndDrag),
            0x29 => Some(Action::StringLess),
            0x30 => Some(Action::RandomNumber),
            0x31 => Some(Action::MBStringLength),
            0x32 => Some(Action::CharToAscii),
            0x33 => Some(Action::AsciiToChar),
            0x34 => Some(Action::GetTime),
            0x35 => Some(Action::MBStringExtract),
            0x36 => Some(Action::MBCharToAscii),
            0x37 => Some(Action::MBAsciiToChar),
            0x81 => Some(Action::GotoFrame),
            0x8a => Some(Action::WaitForFrame),
            0x8b => Some(Action::SetTarget),
            0x8c => Some(Action::GotoLabel),
            0x8d => Some(Action::WaitForFrame2),
            0x96 => Some(Action::Push),
            0x99 => Some(Action::Jump),
            0x9a => Some(Action::GetUrl2),
            0x9d => Some(Action::If),
            0x9e => Some(Action::Call),
            0x9f => Some(Action::GotoFrame2),
            _ => None,
        }
    }

    /// The numeric code of this opcode.
    pub fn to_u32(self) -> (r: u32)
        ensures
            r == action_code(self),
    {
        match self {
            Action::End => 0x00,
            Action::NextFrame => 0x04,
            Action::PreviousFrame => 0x05,
            Action::Play => 0x06,
            Action::Stop => 0x07,
            Action::StopSounds => 0x09,
            Action::Add => 0x0a,
            Action::Subtract => 0x0b,
            Action::Multiply => 0x0c,
            Action::Divide => 0x0d,
            Action::Equals => 0x0e,
            Action::Less => 0x0f,
            Action::And => 0x10,
            Action::Or => 0x11,
            Action::Not => 0x12,
            Action::StringEquals => 0x13,
            Action::StringLength => 0x14,
            Action::StringExtract => 0x15,
            Action::Pop => 0x17,
            Action::ToInteger => 0x18,
            Action::GetVariable => 0x1c,
            Action::SetVariable => 0x1d,
            Action::SetTarget2 => 0x20,
            Action::StringAdd => 0x21,
            Action::GetProperty => 0x22,
            Action::SetProperty => 0x23,
            Action::CloneSprite => 0x24,
            Action::RemoveSprite => 0x25,
            Action::Trace => 0x26,
            Action::StartDrag => 0x27,
            Action::EndDrag => 0x28,
            Action::StringLess => 0x29,
            Action::RandomNumber => 0x30,
            Action::MBStringLength => 0x31,
            Action::CharToAscii => 0x32,
            Action::AsciiToChar => 0x33,
            Action::GetTime => 0x34,
            Action::MBStringExtract => 0x35,
            Action::MBCharToAscii => 0x36,
            Action::MBAsciiToChar => 0x37,
            Action::GotoFrame => 0x81,
            Action::WaitForFrame => 0x8a,
            Action::SetTarget => 0x8b,
            Action::GotoLabel => 0x8c,
            Action::WaitForFrame2 => 0x8d,
            Action::Push => 0x96,
            Action::Jump => 0x99,
            Action::GetUrl2 => 0x9a,
            Action::If => 0x9d,
            Action::Call => 0x9e,
            Action::GotoFrame2 => 0x9f,
        }
    }
}

/// Decoding the code of an opcode gives that opcode back.
pub proof fn lemma_action_code_roundtrip(a: Action)
    ensures
        action_of_code(action_code(a)) == Some(a),
{
}

/// Two distinct opcodes never share a code, and every code that decodes
/// to an opcode is that opcode's code.
pub proof fn lemma_action_code_injective(val: u32)
    ensures
        action_of_code(val) matches Some(a) ==> action_code(a) == val,
{
}

} // verus!
