//! The ASCII bytes that the grammar names.

use vstd::prelude::*;

verus! {

pub const BACKSPACE: u8 = 8;

pub const TAB: u8 = 9;

pub const LINE_FEED: u8 = 10;

pub const FORM_FEED: u8 = 12;

pub const CARRIAGE_RETURN: u8 = 13;

pub const SPACE: u8 = 32;

pub const QUOTE: u8 = 34;

pub const PLUS: u8 = 43;

pub const COMMA: u8 = 44;

pub const MINUS: u8 = 45;

pub const POINT: u8 = 46;

pub const SLASH: u8 = 47;

pub const ZERO: u8 = 48;

pub const NINE: u8 = 57;

pub const COLON: u8 = 58;

pub const UPPER_A: u8 = 65;

pub const UPPER_E: u8 = 69;

pub const UPPER_F: u8 = 70;

pub const OPEN_BRACKET: u8 = 91;

pub const BACKSLASH: u8 = 92;

pub const CLOSE_BRACKET: u8 = 93;

pub const LOWER_A: u8 = 97;

pub const LOWER_B: u8 = 98;

pub const LOWER_E: u8 = 101;

pub const LOWER_F: u8 = 102;

pub const LOWER_L: u8 = 108;

pub const LOWER_N: u8 = 110;

pub const LOWER_R: u8 = 114;

pub const LOWER_S: u8 = 115;

pub const LOWER_T: u8 = 116;

pub const LOWER_U: u8 = 117;

pub const OPEN_BRACE: u8 = 123;

pub const CLOSE_BRACE: u8 = 125;

} // verus!
