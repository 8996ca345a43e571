use vstd::prelude::*;

verus! {

/// Maximum number of matches returned by a query and displayed at once.
pub const MATCH_NUMBER: usize = 10;

/// Number of worker threads a driver should devote to running queries.
pub const NUM_THREADS: usize = 4;

/// Multiplier applied to the completion affinity sum.
pub const COMPLETION_SCORE_FACTOR: u64 = 10;

pub const EOT: char = '\u{4}';
pub const CTRL_C: char = '\u{03}';
pub const CTRL_U: char = '\u{15}';
pub const CTRL_R: char = '\u{12}';
pub const CTRL_S: char = '\u{13}';
pub const ESC: char = '\u{1b}';
pub const BEL: char = '\u{7}';
pub const DEL: char = '\u{7f}';
pub const BSPC: char = '\u{8}';
pub const CR: char = '\r';

pub const PROMPT: &'static str = "Match: ";
pub const FINISH: &'static str = " -> ";
pub const MATCH_SELECT: &'static str = "-> ";
pub const MATCH_PRE: &'static str = "\n";

/// The number of bytes in a UTF-8 sequence whose first byte is `b`,
/// or 0 when no sequence starts with `b`.
pub open spec fn spec_utf8_char_width(b: u8) -> usize {
    if b < 0x80 {
        1
    } else if b < 0xC2 {
        0
    } else if b < 0xE0 {
        2
    } else if b < 0xF0 {
        3
    } else if b < 0xF5 {
        4
    } else {
        0
    }
}

/// Given a first byte, determines how many bytes are in this UTF-8 character.
pub fn utf8_char_width(b: u8) -> (w: usize)
    ensures
        w == spec_utf8_char_width(b),
{
    if b < 0x80 {
        1
    } else if b < 0xC2 {
        0
    } else if b < 0xE0 {
        2
    } else if b < 0xF0 {
        3
    } else if b < 0xF5 {
        4
    } else {
        0
    }
}

} // verus!
