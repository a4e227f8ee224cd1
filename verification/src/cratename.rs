//! Which names the registry takes for crates, and when it takes two names for
//! one.

use vstd::prelude::*;

verus! {

/// The longest name that the registry takes, in characters.
pub const MAX_NAME_LENGTH: usize = 64;

pub open spec fn is_ascii_letter(c: char) -> bool {
    ('a' <= c && c <= 'z') || ('A' <= c && c <= 'Z')
}

pub open spec fn is_ascii_digit(c: char) -> bool {
    '0' <= c && c <= '9'
}

/// A character that may stand in a crate name.
pub open spec fn is_name_char(c: char) -> bool {
    is_ascii_letter(c) || is_ascii_digit(c) || c == '_' || c == '-'
}

/// Not empty, and made of letters, digits, `_` and `-` only.
pub open spec fn spec_valid_feature_prefix(name: Seq<char>) -> bool {
    name.len() > 0 && forall|i: int| 0 <= i < name.len() ==> is_name_char(#[trigger] name[i])
}

/// A feature prefix that starts with a letter.
pub open spec fn spec_valid_ident(name: Seq<char>) -> bool {
    spec_valid_feature_prefix(name) && is_ascii_letter(name[0])
}

/// What the registry takes for a crate name.
pub open spec fn spec_valid(name: Seq<char>) -> bool {
    spec_valid_ident(name) && name.len() <= MAX_NAME_LENGTH
}

fn letter(c: char) -> (b: bool)
    ensures
        b == is_ascii_letter(c),
{
    ('a' <= c && c <= 'z') || ('A' <= c && c <= 'Z')
}

fn name_char(c: char) -> (b: bool)
    ensures
        b == is_name_char(c),
{
    letter(c) || ('0' <= c && c <= '9') || c == '_' || c == '-'
}

/// Whether `name` is a crate name that the registry takes.
pub fn valid(name: &str) -> (b: bool)
    ensures
        b == spec_valid(name@),
{
    valid_ident(name) && name.unicode_len() <= MAX_NAME_LENGTH
}

/// Whether `name` is made of name characters and starts with a letter.
pub fn valid_ident(name: &str) -> (b: bool)
    ensures
        b == spec_valid_ident(name@),
{
    valid_feature_prefix(name) && letter(name.get_char(0))
}

/// Whether `name` is not empty and made of name characters only.
pub fn valid_feature_prefix(name: &str) -> (b: bool)
    ensures
        b == spec_valid_feature_prefix(name@),
{
    let n = name.unicode_len();
    if n == 0 {
        return false;
    }
    let mut i: usize = 0;
    while i < n
        invariant
            n == name@.len(),
            i <= n,
            forall|k: int| 0 <= k < i ==> is_name_char(#[trigger] name@[k]),
        decreases n - i,
    {
        if !name_char(name.get_char(i)) {
            return false;
        }
        i += 1;
    }
    true
}

/// A name as the registry compares names: `_` counts as `-`.
pub open spec fn canonical(name: Seq<char>) -> Seq<char> {
    Seq::new(name.len(), |i: int| if name[i] == '_' { '-' } else { name[i] })
}

/// Whether the registry takes the two names for one: they agree but for
/// `_` in place of `-`.
pub fn same_crate_name(a: &str, b: &str) -> (same: bool)
    ensures
        same == (canonical(a@) == canonical(b@)),
{
    let n = a.unicode_len();
    if n != b.unicode_len() {
        assert(canonical(a@).len() != canonical(b@).len());
        return false;
    }
    let mut i: usize = 0;
    while i < n
        invariant
            n == a@.len(),
            n == b@.len(),
            i <= n,
            forall|k: int| 0 <= k < i ==> canonical(a@)[k] == canonical(b@)[k],
        decreases n - i,
    {
        let x = a.get_char(i);
        let y = b.get_char(i);
        let x = if x == '_' { '-' } else { x };
        let y = if y == '_' { '-' } else { y };
        if x != y {
            assert(canonical(a@)[i as int] != canonical(b@)[i as int]);
            return false;
        }
        i += 1;
    }
    assert(canonical(a@) =~= canonical(b@));
    true
}

/// A crate's name, compared as the registry compares names.
#[derive(Debug)]
pub struct CrateName(pub String);

impl CrateName {
    pub fn new(string: String) -> (name: CrateName)
        ensures
            name.0 == string,
    {
        CrateName(string)
    }

    /// The two names are one to the registry.
    pub fn same(&self, other: &CrateName) -> (same: bool)
        ensures
            same == (canonical(self.0@) == canonical(other.0@)),
    {
        same_crate_name(self.0.as_str(), other.0.as_str())
    }
}

} // verus!
