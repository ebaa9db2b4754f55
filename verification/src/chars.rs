//! Character classes: what the text routines ask of a single `char`.

use vstd::prelude::*;

verus! {

/// The characters with the Unicode `White_Space` property.
pub open spec fn white_space(c: char) -> bool {
    let u = c as u32;
    ||| 0x09 <= u <= 0x0d
    ||| u == 0x20
    ||| u == 0x85
    ||| u == 0xa0
    ||| u == 0x1680
    ||| 0x2000 <= u <= 0x200a
    ||| u == 0x2028
    ||| u == 0x2029
    ||| u == 0x202f
    ||| u == 0x205f
    ||| u == 0x3000
}

/// The ASCII letters.
pub open spec fn ascii_letter(c: char) -> bool {
    'a' <= c <= 'z' || 'A' <= c <= 'Z'
}

/// The ASCII digits.
pub open spec fn ascii_digit(c: char) -> bool {
    '0' <= c <= '9'
}

/// An ASCII capital mapped to its small letter; every other character to itself.
pub open spec fn ascii_lower(c: char) -> char {
    if 'A' <= c <= 'Z' {
        ((c as u32 + 32) as u32) as char
    } else {
        c
    }
}

/// Whether a character beyond ASCII has the Unicode `Alphabetic` property.
pub uninterp spec fn unicode_alphabetic(c: char) -> bool;

/// Whether a character beyond ASCII is a letter or a number of Unicode.
pub uninterp spec fn unicode_alphanumeric(c: char) -> bool;

/// The alphabetic characters: the ASCII letters, and beyond ASCII what Unicode calls alphabetic.
pub open spec fn alphabetic(c: char) -> bool {
    if (c as u32) < 0x80 {
        ascii_letter(c)
    } else {
        unicode_alphabetic(c)
    }
}

/// The alphanumeric characters: the ASCII letters and digits, and beyond ASCII what Unicode calls
/// alphabetic or numeric.
pub open spec fn alphanumeric(c: char) -> bool {
    if (c as u32) < 0x80 {
        ascii_letter(c) || ascii_digit(c)
    } else {
        unicode_alphanumeric(c)
    }
}

/// `char::is_whitespace` answers whether the character has the `White_Space` property, whose
/// members `white_space` lists.
pub assume_specification[ char::is_whitespace ](c: char) -> (res: bool)
    ensures
        res == white_space(c),
;

/// `char::is_alphabetic` answers whether the character has the `Alphabetic` property: within
/// ASCII the letters, beyond it the named Unicode table.
pub assume_specification[ char::is_alphabetic ](c: char) -> (res: bool)
    ensures
        (c as u32) < 0x80 ==> res == ascii_letter(c),
        (c as u32) >= 0x80 ==> res == unicode_alphabetic(c),
;

/// `char::is_alphanumeric` answers whether the character is alphabetic or numeric: within ASCII
/// the letters and digits, beyond it the named Unicode tables.
pub assume_specification[ char::is_alphanumeric ](c: char) -> (res: bool)
    ensures
        (c as u32) < 0x80 ==> res == (ascii_letter(c) || ascii_digit(c)),
        (c as u32) >= 0x80 ==> res == unicode_alphanumeric(c),
;

/// Lowers an ASCII capital.
pub fn to_ascii_lower(c: char) -> (res: char)
    ensures
        res == ascii_lower(c),
{
    if 'A' <= c && c <= 'Z' {
        ((c as u8) + 32) as char
    } else {
        c
    }
}

} // verus!
