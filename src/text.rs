use vstd::prelude::*;

verus! {

/// ASCII lower case of one character: `'A'..='Z'` become `'a'..='z'`, all
/// other characters stay as they are.
pub open spec fn lower_char(c: char) -> char {
    if 'A' <= c && c <= 'Z' {
        ((c as u32) + 32) as char
    } else {
        c
    }
}

/// ASCII lower case of a string, character by character.
pub open spec fn ascii_lower(s: Seq<char>) -> Seq<char> {
    s.map_values(|c: char| lower_char(c))
}

/// The characters of an optional string.
pub open spec fn text_view(o: Option<String>) -> Option<Seq<char>> {
    match o {
        Some(s) => Some(s@),
        None => None,
    }
}

/// Relies on `str::to_ascii_lowercase`: ASCII letters `'A'` to `'Z'` are mapped
/// to `'a'` to `'z'`, every other character is kept.
#[verifier::external_body]
pub(crate) fn to_ascii_lower(s: &String) -> (r: String)
    ensures
        r@ == ascii_lower(s@),
{
    s.to_ascii_lowercase()
}

} // verus!
