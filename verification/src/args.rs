//! The check that a query of the command line is well formed, before the
//! registry is at hand.

use crate::cratename;
use crate::text::{after_first, first_index, pieces, split, split_once, trim, trimmed};
use crate::user;
use crate::version::{parsed_requirement, VersionReq};
use vstd::prelude::*;

verus! {

/// Why a query is not taken on the command line.
pub enum InvalidQuery {
    /// What follows `@` cannot be the name of a user or team.
    InvalidUsername,
    /// The registry takes no crate of such a name.
    InvalidCrateName,
    /// What follows `:` is no requirement.
    Semver(semver::Error),
}

/// What an `InvalidQuery` is, as a value.
#[derive(PartialEq, Eq, Structural)]
pub enum Fault {
    InvalidUsername,
    InvalidCrateName,
    Semver,
}

impl View for InvalidQuery {
    type V = Fault;

    open spec fn view(&self) -> Fault {
        match self {
            InvalidQuery::InvalidUsername => Fault::InvalidUsername,
            InvalidQuery::InvalidCrateName => Fault::InvalidCrateName,
            InvalidQuery::Semver(_) => Fault::Semver,
        }
    }
}

/// Each part of the name between `/` can be the name of a user.
pub open spec fn is_owner_name(name: Seq<char>) -> bool {
    forall|i: int|
        0 <= i < pieces(name, '/').len() ==> user::spec_valid(#[trigger] pieces(name, '/')[i])
}

/// What is wrong with one predicate of a query, white space around it taken
/// off: after `@` there has to be the name of an owner; else the name before
/// `:`, or the whole, has to be a crate name, and what follows `:` a
/// requirement.
pub open spec fn fault_of(piece: Seq<char>) -> Option<Fault> {
    if piece.len() > 0 && piece[0] == '@' {
        if is_owner_name(piece.skip(1)) {
            None
        } else {
            Some(Fault::InvalidUsername)
        }
    } else {
        let colon = first_index(piece, ':') as int;
        if !cratename::spec_valid(trimmed(piece.take(colon))) {
            Some(Fault::InvalidCrateName)
        } else if colon < piece.len() && parsed_requirement(piece.skip(colon + 1)) is None {
            Some(Fault::Semver)
        } else {
            None
        }
    }
}

/// What is wrong with the first of the predicates that has a fault.
pub open spec fn first_fault(parts: Seq<Seq<char>>) -> Option<Fault>
    decreases parts.len(),
{
    if parts.len() == 0 {
        None
    } else {
        match first_fault(parts.drop_last()) {
            Some(kind) => Some(kind),
            None => fault_of(trimmed(parts.last())),
        }
    }
}

/// Whether each part of the name between `/` can be the name of a user.
pub fn valid_owner_name(name: &str) -> (b: bool)
    ensures
        b == is_owner_name(name@),
{
    let parts = split(name, '/');
    let n = parts.len();
    let mut i: usize = 0;
    while i < n
        invariant
            n == parts@.len(),
            n == pieces(name@, '/').len(),
            i <= n,
            forall|k: int| 0 <= k < n ==> (#[trigger] parts@[k])@ == pieces(name@, '/')[k],
            forall|k: int| 0 <= k < i ==> user::spec_valid(#[trigger] pieces(name@, '/')[k]),
        decreases n - i,
    {
        if !user::valid(parts[i]) {
            assert(!user::spec_valid(pieces(name@, '/')[i as int]));
            return false;
        }
        i += 1;
    }
    true
}

/// Checks one predicate of a query.
pub fn validate_predicate(piece: &str) -> (r: Result<(), InvalidQuery>)
    ensures
        match r {
            Ok(_) => fault_of(trimmed(piece@)) is None,
            Err(error) => fault_of(trimmed(piece@)) == Some(error@),
        },
{
    let predicate = trim(piece);
    if predicate.unicode_len() > 0 && predicate.get_char(0) == '@' {
        if valid_owner_name(after_first(predicate)) {
            return Ok(());
        } else {
            return Err(InvalidQuery::InvalidUsername);
        }
    }
    let (name, req) = match split_once(predicate, ':') {
        Some((name, req)) => (name, Some(req)),
        None => {
            proof {
                assert(predicate@.take(predicate@.len() as int) =~= predicate@);
            }
            (predicate, None)
        },
    };
    if !cratename::valid(trim(name)) {
        return Err(InvalidQuery::InvalidCrateName);
    }
    if let Some(req) = req {
        match VersionReq::from_str(req) {
            Ok(_) => {},
            Err(err) => {
                return Err(InvalidQuery::Semver(err));
            },
        }
    }
    Ok(())
}

/// Takes a query of the command line if each of its predicates, which stand
/// between `+`, is well formed, and hands it back as it came.
pub fn validate_query(string: &str) -> (r: Result<String, InvalidQuery>)
    ensures
        match r {
            Ok(query) => query@ == string@ && first_fault(pieces(string@, '+')) is None,
            Err(error) => first_fault(pieces(string@, '+')) == Some(error@),
        },
{
    let parts = split(string, '+');
    let ghost all = pieces(string@, '+');
    let n = parts.len();
    let mut i: usize = 0;
    proof {
        assert(all.take(0) =~= Seq::<Seq<char>>::empty());
    }
    while i < n
        invariant
            n == parts@.len(),
            n == all.len(),
            i <= n,
            all == pieces(string@, '+'),
            forall|k: int| 0 <= k < n ==> (#[trigger] parts@[k])@ == all[k],
            first_fault(all.take(i as int)) is None,
        decreases n - i,
    {
        proof {
            assert(all.take(i as int + 1).drop_last() =~= all.take(i as int));
            assert(all.take(i as int + 1).last() == parts@[i as int]@);
        }
        match validate_predicate(parts[i]) {
            Ok(_) => {},
            Err(error) => {
                proof {
                    lemma_fault_stays(all, i as int + 1, n as int);
                    assert(all.take(n as int) =~= all);
                }
                return Err(error);
            },
        }
        i += 1;
    }
    proof {
        assert(all.take(n as int) =~= all);
    }
    Ok(string.to_owned())
}

/// A fault met among the first `k` predicates is the fault of the query.
proof fn lemma_fault_stays(all: Seq<Seq<char>>, k: int, n: int)
    requires
        0 <= k <= n <= all.len(),
        first_fault(all.take(k)) is Some,
    ensures
        first_fault(all.take(n)) == first_fault(all.take(k)),
    decreases n - k,
{
    if k < n {
        lemma_fault_stays(all, k, n - 1);
        assert(all.take(n).drop_last() =~= all.take(n - 1));
    }
}

} // verus!
