//! Which texts may name a variable.

use crate::text::chars_of;
use vstd::prelude::*;

verus! {

/// An ASCII letter, of either case.
pub open spec fn is_ascii_letter(c: char) -> bool {
    ('a' <= c && c <= 'z') || ('A' <= c && c <= 'Z')
}

/// An ASCII decimal digit.
pub open spec fn is_ascii_digit(c: char) -> bool {
    '0' <= c && c <= '9'
}

/// A character that may follow the first one of a name.
pub open spec fn is_name_char(c: char) -> bool {
    is_ascii_letter(c) || is_ascii_digit(c) || c == '_'
}

/// A name is an ASCII letter followed by ASCII letters, digits and underscores.
pub open spec fn valid_name(name: Seq<char>) -> bool {
    &&& name.len() > 0
    &&& is_ascii_letter(name[0])
    &&& forall|i: int| 1 <= i < name.len() ==> is_name_char(#[trigger] name[i])
}

/// Tells whether `c` is an ASCII letter.
pub fn letter(c: char) -> (b: bool)
    ensures
        b == is_ascii_letter(c),
{
    ('a' <= c && c <= 'z') || ('A' <= c && c <= 'Z')
}

/// Tells whether `c` may follow the first character of a name.
pub fn name_char(c: char) -> (b: bool)
    ensures
        b == is_name_char(c),
{
    letter(c) || ('0' <= c && c <= '9') || c == '_'
}

/// Tells whether the characters `name` may name a variable.
pub fn valid_chars(name: &Vec<char>) -> (valid: bool)
    ensures
        valid == valid_name(name@),
{
    if name.len() == 0 || !letter(name[0]) {
        return false;
    }
    let mut i: usize = 1;
    while i < name.len()
        invariant
            1 <= i <= name.len(),
            is_ascii_letter(name@[0]),
            forall|j: int| 1 <= j < i ==> is_name_char(#[trigger] name@[j]),
        decreases name.len() - i,
    {
        if !name_char(name[i]) {
            return false;
        }
        i += 1;
    }
    true
}

/// Tells whether `var_name` may name a variable.
pub fn is_valid_var_name(var_name: &String) -> (valid: bool)
    ensures
        valid == valid_name(var_name@),
{
    let name = chars_of(var_name.as_str());
    valid_chars(&name)
}

} // verus!
