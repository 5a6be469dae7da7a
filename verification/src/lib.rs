//! Typing effort of a text on a keyboard layout.
//!
//! A layout description names the keys of each row and the fingers that
//! rest on them ([`kb::Keyboard::from_layout`]). A text is then scored by
//! the reach that its characters ask for ([`kb::Keyboard::judge`]).

pub mod effort;
pub mod error;
pub mod kb;
pub mod keys;
pub mod layout;
pub mod text;

use crate::keys::{key_of, Key};
use crate::text::{chars_of, find_char, position, trim, trim_span};
use vstd::prelude::*;

verus! {

/// The key that a line of a key record names: what follows the first `>` of
/// the line, blank characters around it set aside, is the literal of the
/// key, and nothing there stands for the space bar. A line without `>`
/// names no key.
pub open spec fn key_of_line(line: Seq<char>) -> Option<Key> {
    let n = position(line, '>') as int;
    if n >= line.len() {
        None
    } else if trim(line.skip(n + 1)).len() == 0 {
        Some(Key::Space)
    } else {
        key_of(trim(line.skip(n + 1)))
    }
}

/// Reads the key that a line of a key record names.
pub fn parse_line(line: &str) -> (res: Option<Key>)
    ensures
        res == key_of_line(line@),
{
    let v = chars_of(line);
    let len = v.len();
    assert(v@.subrange(0, len as int) == v@);
    let mark = find_char(&v, 0, len, '>');
    if mark == len {
        return None;
    }
    let (a, b) = trim_span(&v, mark + 1, len);
    if a == b {
        Some(Key::Space)
    } else {
        Key::from_span(&v, a, b)
    }
}

} // verus!
