//! Parsing a separated pair of coordinates, such as `"400x600"` or
//! `"1.0,0.5"`, out of one string.
//!
//! The string is split at the first occurrence of the separator, and each
//! half is handed to the element type's own string parser; the pair is
//! returned only when both halves parse and nothing is left over.

use vstd::prelude::*;

verus! {

/// Whether the separator occurs nowhere in `s`.
pub open spec fn has_no_separator(s: Seq<char>, separator: char) -> bool {
    forall|j: int| 0 <= j < s.len() ==> s[j] != separator
}

/// Finds the first occurrence of `separator` in `s`, as a character index.
pub fn find_char(s: &str, separator: char) -> (r: Option<usize>)
    ensures
        r matches Some(i) ==> {
            &&& i < s@.len()
            &&& s@[i as int] == separator
            &&& forall|j: int| 0 <= j < i ==> s@[j] != separator
        },
        r is None ==> has_no_separator(s@, separator),
{
    let n = s.unicode_len();
    let mut i: usize = 0;
    while i < n
        invariant
            i <= n,
            n == s@.len(),
            forall|j: int| 0 <= j < i ==> s@[j] != separator,
        decreases n - i,
    {
        if s.get_char(i) == separator {
            return Some(i);
        }
        i = i + 1;
    }
    None
}

/// Relies on `FromStr::from_str` of the caller's element type: which
/// strings parse, and to what value, is wholly that implementation's
/// affair, so nothing is stated of the result.
#[verifier::external_body]
fn parse_part<T: core::str::FromStr>(s: &str) -> (r: Option<T>) {
    match T::from_str(s) {
        Ok(v) => Some(v),
        Err(_) => None,
    }
}

/// Parses `s` as a pair `<left><separator><right>`, where both halves
/// parse under the element type's own string parser.
///
/// The split happens at the first occurrence of the separator; when the
/// separator does not occur at all, no pair is returned. When it does
/// occur, whether a pair comes back is decided by the element type's
/// parser on the two halves, exactly as its `FromStr` implementation has
/// it.
pub fn parse_pair<T: core::str::FromStr>(s: &str, separator: char) -> (r: Option<(T, T)>)
    ensures
        has_no_separator(s@, separator) ==> r is None,
{
    match find_char(s, separator) {
        None => None,
        Some(index) => {
            let n = s.unicode_len();
            let left = s.substring_char(0, index);
            let right = s.substring_char(index + 1, n);
            match (parse_part::<T>(left), parse_part::<T>(right)) {
                (Some(l), Some(r)) => Some((l, r)),
                _ => None,
            }
        },
    }
}

} // verus!
