//! Character primitives shared by the per-encoding decode engines: the
//! replacement character, and the two pieces of `std` character/string
//! plumbing that the engines rely on.

use vstd::prelude::*;

verus! {

/// The Unicode replacement character, emitted in place of malformed or
/// truncated-at-end-of-stream byte spans.
pub const REPLACEMENT_CHAR: char = '\u{FFFD}';

/// Relies on `char::from_u32`: it returns `Some` exactly for Unicode scalar
/// values (everything up to `char::MAX` except the surrogate range), and the
/// resulting character carries that value.
pub assume_specification[ char::from_u32 ](v: u32) -> (r: Option<char>)
    ensures
        r is Some <==> (v < 0xD800 || (0xE000 <= v && v <= 0x10FFFF)),
        r matches Some(c) ==> c as u32 == v,
;

/// Relies on `String::push`: it appends the given character to the end of the
/// string.
pub assume_specification[ String::push ](s: &mut String, c: char)
    ensures
        final(s)@ == old(s)@.push(c),
;

/// Turns a Unicode scalar value into the character with that value.
pub fn scalar_to_char(v: u32) -> (c: char)
    requires
        v < 0xD800 || (0xE000 <= v && v <= 0x10FFFF),
    ensures
        c == (v as char),
        c as u32 == v,
{
    let r = char::from_u32(v);
    match r {
        Some(c) => {
            proof {
                vstd::utf8::char_u32_cast(c, v);
            }
            c
        },
        None => {
            proof {
                assert(false);
            }
            REPLACEMENT_CHAR
        },
    }
}

} // verus!
