//! The ASCII bytes that mean something to the shell.

use vstd::prelude::*;

verus! {

pub const TAB: u8 = 0x09;

pub const NEWLINE: u8 = 0x0a;

pub const RETURN: u8 = 0x0d;

pub const SPACE: u8 = 0x20;

pub const BANG: u8 = 0x21;

pub const DOUBLE_QUOTE: u8 = 0x22;

pub const HASH: u8 = 0x23;

pub const DOLLAR: u8 = 0x24;

pub const AMP: u8 = 0x26;

pub const SINGLE_QUOTE: u8 = 0x27;

pub const LPAREN: u8 = 0x28;

pub const RPAREN: u8 = 0x29;

pub const STAR: u8 = 0x2a;

pub const PLUS: u8 = 0x2b;

pub const DASH: u8 = 0x2d;

pub const SEMI: u8 = 0x3b;

pub const LESS: u8 = 0x3c;

pub const EQUALS: u8 = 0x3d;

pub const GREAT: u8 = 0x3e;

pub const QUESTION: u8 = 0x3f;

pub const AT_SIGN: u8 = 0x40;

pub const LBRACKET: u8 = 0x5b;

pub const BACKSLASH: u8 = 0x5c;

pub const BACKQUOTE: u8 = 0x60;

pub const LBRACE: u8 = 0x7b;

pub const PIPE: u8 = 0x7c;

pub const RBRACE: u8 = 0x7d;

} // verus!
