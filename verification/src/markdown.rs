//! Characters that rendered markdown must not show.
use vstd::prelude::*;

verus! {

/// The control characters, Unicode's general category `Cc`.
pub open spec fn control(c: char) -> bool {
    let u = c as u32;
    u <= 0x1f || 0x7f <= u <= 0x9f
}

/// The characters that embed, override or isolate a writing direction, and those that end it.
pub open spec fn bidi_formatting(c: char) -> bool {
    let u = c as u32;
    0x202a <= u <= 0x202e || 0x2066 <= u <= 0x2069
}

/// The characters that the display takes out of a text before it shows it.
pub open spec fn hostile(c: char) -> bool {
    control(c) || bidi_formatting(c)
}

/// Some character of `s` is hostile.
pub open spec fn holds_hostile(s: Seq<char>) -> bool {
    exists|i: int| 0 <= i < s.len() && hostile(#[trigger] s[i])
}

/// Whether `c` is a control character or one that changes the writing direction.
pub fn hostile_char(c: char) -> (r: bool)
    ensures
        r == hostile(c),
{
    let u: u32 = c as u32;
    u <= 0x1f || (0x7f <= u && u <= 0x9f) || (0x202a <= u && u <= 0x202e) || (0x2066 <= u && u
        <= 0x2069)
}

} // verus!
