use vstd::prelude::*;
use vstd::utf8::is_ascii_chars;

verus! {

/// `String::push` of std, taken on trust: the string afterwards is the string
/// before with the character added at its end.
pub assume_specification[ String::push ](s: &mut String, ch: char)
    ensures
        final(s)@ == old(s)@.push(ch),
;

/// `String::insert` of std, taken on trust. std counts `idx` in bytes and
/// panics past the end or inside a character; in a string of ASCII characters
/// only, every character is one byte, so `idx` is also the index of a
/// character. Asked of such a string and an index within it, the string
/// afterwards holds the character at that index and what stood at or after it
/// one place further on.
pub assume_specification[ String::insert ](s: &mut String, idx: usize, ch: char)
    requires
        is_ascii_chars(old(s)@),
        idx <= old(s)@.len(),
    ensures
        final(s)@ == old(s)@.insert(idx as int, ch),
;

} // verus!
