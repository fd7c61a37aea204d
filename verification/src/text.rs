//! Comparing texts without regard to the case of their ASCII letters.

use vstd::prelude::*;

verus! {

/// The lower-case form of an ASCII capital; any other character itself.
pub open spec fn ascii_lower(c: char) -> char {
    if 'A' <= c && c <= 'Z' {
        ((c as u8) + 32) as char
    } else {
        c
    }
}

/// `text` with each ASCII capital replaced by its lower-case form.
pub open spec fn ascii_lowercase(text: Seq<char>) -> Seq<char> {
    text.map_values(|c: char| ascii_lower(c))
}

/// The lower-case form of an ASCII capital; any other character itself.
pub fn to_ascii_lower(c: char) -> (lowered: char)
    ensures
        lowered == ascii_lower(c),
{
    if 'A' <= c && c <= 'Z' {
        ((c as u8) + 32) as char
    } else {
        c
    }
}

/// Whether `text` is `lowered` but for the case of its ASCII letters.
pub fn lowercase_is(text: &str, lowered: &str) -> (same: bool)
    ensures
        same == (ascii_lowercase(text@) == lowered@),
{
    let length = text.unicode_len();
    if length != lowered.unicode_len() {
        return false;
    }
    let mut i: usize = 0;
    while i < length
        invariant
            i <= length,
            length == text@.len(),
            length == lowered@.len(),
            forall|k: int| 0 <= k < i ==> ascii_lower(text@[k]) == lowered@[k],
        decreases length - i,
    {
        if to_ascii_lower(text.get_char(i)) != lowered.get_char(i) {
            assert(ascii_lowercase(text@)[i as int] != lowered@[i as int]);
            return false;
        }
        i += 1;
    }
    assert(ascii_lowercase(text@) =~= lowered@);
    true
}

} // verus!
