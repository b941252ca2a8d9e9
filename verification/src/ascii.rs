//! The ASCII bytes that the scanners look for.

use vstd::prelude::*;

verus! {

pub const TAB: u8 = 0x09;

pub const LINE_FEED: u8 = 0x0a;

pub const CARRIAGE_RETURN: u8 = 0x0d;

pub const SPACE: u8 = 0x20;

pub const QUOTE: u8 = 0x22;

pub const HASH: u8 = 0x23;

pub const APOSTROPHE: u8 = 0x27;

pub const STAR: u8 = 0x2a;

pub const COMMA: u8 = 0x2c;

pub const COLON: u8 = 0x3a;

pub const EQUALS: u8 = 0x3d;

pub const QUESTION_MARK: u8 = 0x3f;

pub const OPEN_BRACKET: u8 = 0x5b;

pub const BACKSLASH: u8 = 0x5c;

pub const CLOSE_BRACKET: u8 = 0x5d;

pub const OPEN_BRACE: u8 = 0x7b;

pub const CLOSE_BRACE: u8 = 0x7d;

} // verus!
