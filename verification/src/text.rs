//! What the engine takes for granted of the standard library's `String`.

use vstd::prelude::*;

verus! {

/// `String::push` appends one character to the text.
pub assume_specification[ String::push ](text: &mut String, ch: char)
    ensures
        final(text)@ == old(text)@.push(ch),
;

/// `String::push_str` appends a string slice to the text.
pub assume_specification[ String::push_str ](text: &mut String, other: &str)
    ensures
        final(text)@ == old(text)@ + other@,
;

/// `String::pop` takes the last character off the text and returns it; on an
/// empty text it returns nothing and leaves the text empty.
pub assume_specification[ String::pop ](text: &mut String) -> (last: Option<char>)
    ensures
        old(text)@.len() == 0 ==> last is None && final(text)@ == old(text)@,
        old(text)@.len() > 0 ==> last == Some(old(text)@.last()) && final(text)@ == old(
            text,
        )@.drop_last(),
;

/// `String::clear` empties the text.
pub assume_specification[ String::clear ](text: &mut String)
    ensures
        final(text)@ == Seq::<char>::empty(),
;

} // verus!
