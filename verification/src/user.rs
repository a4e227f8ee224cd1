//! Which names the code host takes for users, and when it takes two names for
//! one.

use vstd::prelude::*;

verus! {

/// A character that may stand in a user name: a letter, a digit or `-`.
pub open spec fn is_login_char(c: char) -> bool {
    ('0' <= c && c <= '9') || ('A' <= c && c <= 'Z') || ('a' <= c && c <= 'z') || c == '-'
}

/// What the code host takes for a user name: up to 39 letters, digits and
/// single `-`, none of these at either end.
pub open spec fn spec_valid(name: Seq<char>) -> bool {
    &&& 0 < name.len() <= 39
    &&& forall|i: int| 0 <= i < name.len() ==> is_login_char(#[trigger] name[i])
    &&& forall|i: int| 0 <= i < name.len() - 1 ==> !(#[trigger] name[i] == '-' && name[i + 1] == '-')
    &&& name[0] != '-'
    &&& name.last() != '-'
}

/// Whether `name` can be the name of a user.
pub fn valid(name: &str) -> (b: bool)
    ensures
        b == spec_valid(name@),
{
    let n = name.unicode_len();
    if n == 0 || n > 39 {
        return false;
    }
    let mut previous_dash = false;
    let mut i: usize = 0;
    while i < n
        invariant
            n == name@.len(),
            0 < n <= 39,
            i <= n,
            forall|k: int| 0 <= k < i ==> is_login_char(#[trigger] name@[k]),
            forall|k: int| 0 <= k < i - 1 ==> !(#[trigger] name@[k] == '-' && name@[k + 1] == '-'),
            i > 0 ==> previous_dash == (name@[i - 1] == '-'),
            i > 0 ==> name@[0] != '-',
        decreases n - i,
    {
        let c = name.get_char(i);
        let ok = ('0' <= c && c <= '9') || ('A' <= c && c <= 'Z') || ('a' <= c && c <= 'z') || c
            == '-';
        if !ok {
            return false;
        }
        if c == '-' && (i == 0 || previous_dash) {
            if i > 0 {
                assert(name@[i - 1] == '-' && name@[i - 1 + 1] == '-');
            }
            return false;
        }
        previous_dash = c == '-';
        i += 1;
    }
    !previous_dash
}

/// The letter in lower case, if it is one of `A` to `Z`.
pub open spec fn lower(c: char) -> char {
    if 'A' <= c && c <= 'Z' {
        ((c as u8 + 32) as u8) as char
    } else {
        c
    }
}

/// A user name as the code host compares names: without regard to the case
/// of its letters.
pub open spec fn folded(name: Seq<char>) -> Seq<char> {
    Seq::new(name.len(), |i: int| lower(name[i]))
}

fn to_lower(c: char) -> (r: char)
    ensures
        r == lower(c),
{
    if 'A' <= c && c <= 'Z' {
        ((c as u8) + 32) as char
    } else {
        c
    }
}

/// Whether the two are one user's name, whatever the case of the letters.
pub fn same_login(a: &str, b: &str) -> (same: bool)
    ensures
        same == (folded(a@) == folded(b@)),
{
    let n = a.unicode_len();
    if n != b.unicode_len() {
        assert(folded(a@).len() != folded(b@).len());
        return false;
    }
    let mut i: usize = 0;
    while i < n
        invariant
            n == a@.len(),
            n == b@.len(),
            i <= n,
            forall|k: int| 0 <= k < i ==> folded(a@)[k] == folded(b@)[k],
        decreases n - i,
    {
        if to_lower(a.get_char(i)) != to_lower(b.get_char(i)) {
            assert(folded(a@)[i as int] != folded(b@)[i as int]);
            return false;
        }
        i += 1;
    }
    assert(folded(a@) =~= folded(b@));
    true
}

/// The name of a user, or of a team as `organisation/team`.
#[derive(Debug)]
pub struct User(pub String);

impl User {
    pub fn new(string: String) -> (user: User)
        ensures
            user.0 == string,
    {
        User(string)
    }

    /// The name as text.
    pub fn to_string(&self) -> (text: String)
        ensures
            text@ == self.0@,
    {
        self.0.clone()
    }
}

/// A user name as it stands in a query.
pub struct UserQuery<'a>(pub &'a str);

impl<'a> UserQuery<'a> {
    /// A team's name holds a `/`, a user's does not.
    pub fn is_team(&self) -> (b: bool)
        ensures
            b == self.0@.contains('/'),
    {
        let n = self.0.unicode_len();
        let mut i: usize = 0;
        while i < n
            invariant
                n == self.0@.len(),
                i <= n,
                forall|k: int| 0 <= k < i ==> self.0@[k] != '/',
            decreases n - i,
        {
            if self.0.get_char(i) == '/' {
                return true;
            }
            i += 1;
        }
        false
    }
}

} // verus!
