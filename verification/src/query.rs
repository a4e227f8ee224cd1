//! Queries as the user writes them: `crate[:requirement]` or `@owner`,
//! joined by `+`.

use crate::arena::Slice;
use crate::cratemap::{crates_of, id_of, name_of, owner_of, CrateMap};
use crate::id::{CrateId, QueryId};
use crate::text::{after_first, first_index, pieces, split, split_once, trim, trimmed};
use crate::user::{UserQuery};
use crate::version::{parsed_requirement, requirement_text, VersionReq};
use crate::{predicate_views, Predicate, PredicateView, Query};
use vstd::prelude::*;

verus! {

/// Why a query cannot be read.
pub enum QueryError {
    /// A requirement after `:` is not one.
    Requirement(semver::Error),
    /// No crate has this name.
    NoCrate(String),
    /// Nobody of this name owns a crate.
    NoOwner { team: bool, login: String },
}

/// What a `QueryError` is, as a value.
pub enum QueryErrorView {
    Requirement,
    NoCrate(Seq<char>),
    NoOwner { team: bool, login: Seq<char> },
}

impl View for QueryError {
    type V = QueryErrorView;

    open spec fn view(&self) -> QueryErrorView {
        match self {
            QueryError::Requirement(_) => QueryErrorView::Requirement,
            QueryError::NoCrate(name) => QueryErrorView::NoCrate(name@),
            QueryError::NoOwner { team, login } => QueryErrorView::NoOwner {
                team: *team,
                login: login@,
            },
        }
    }
}

/// One predicate as it stands in a query: a crate, or the name of an owner
/// whose crates are meant.
pub enum RawPredicate<'a> {
    Crate(Predicate),
    User(UserQuery<'a>),
}

/// What a `RawPredicate` is, as a value.
pub enum RawPredicateView {
    Crate(PredicateView),
    User(Seq<char>),
}

impl<'a> View for RawPredicate<'a> {
    type V = RawPredicateView;

    open spec fn view(&self) -> RawPredicateView {
        match self {
            RawPredicate::Crate(predicate) => RawPredicateView::Crate(predicate@),
            RawPredicate::User(user) => RawPredicateView::User(user.0@),
        }
    }
}

/// What one predicate of a query says, white space around it taken off:
/// `@` and the name of an owner, or the name of a crate, which may be
/// followed by `:` and a requirement. The requirement is read first, then
/// the crate is looked up.
pub open spec fn read_predicate(piece: Seq<char>, crates: Seq<(CrateId, Seq<char>)>) -> Result<
    RawPredicateView,
    QueryErrorView,
> {
    if piece.len() > 0 && piece[0] == '@' {
        Ok(RawPredicateView::User(piece.skip(1)))
    } else {
        let colon = first_index(piece, ':') as int;
        let name = piece.take(colon);
        let req = if colon < piece.len() {
            Some(parsed_requirement(piece.skip(colon + 1)))
        } else {
            None
        };
        if req == Some(None::<Seq<crate::version::ComparatorView>>) {
            Err(QueryErrorView::Requirement)
        } else {
            match id_of(crates, name) {
                None => Err(QueryErrorView::NoCrate(name)),
                Some(crate_id) => Ok(
                    RawPredicateView::Crate(
                        PredicateView {
                            crate_id,
                            req: match req {
                                Some(req) => req,
                                None => None,
                            },
                        },
                    ),
                ),
            }
        }
    }
}

/// The crates of the owner called `login`, whatever the case of its
/// letters; `None` if there is no owner of that name.
pub open spec fn owned_crates(map: CrateMap, login: Seq<char>) -> Option<Seq<CrateId>> {
    if exists|k: int| owner_of(map.users@, login, k) {
        let k = choose|k: int| owner_of(map.users@, login, k);
        let owner = map.users@[k].owner;
        if exists|j: int| crates_of(map.owners@, owner, j) {
            Some(map.owners@[choose|j: int| crates_of(map.owners@, owner, j)].crates@)
        } else {
            Some(Seq::empty())
        }
    } else {
        None
    }
}

/// For each crate a predicate that any version of it meets.
pub open spec fn any_version_of(crates: Seq<CrateId>) -> Seq<PredicateView> {
    Seq::new(crates.len(), |i: int| PredicateView { crate_id: crates[i], req: None })
}

/// The predicates that the pieces of a query give, in their order; the
/// error of the first piece that cannot be read.
pub open spec fn read_predicates(parts: Seq<Seq<char>>, map: CrateMap) -> Result<
    Seq<PredicateView>,
    QueryErrorView,
>
    decreases parts.len(),
{
    if parts.len() == 0 {
        Ok(Seq::empty())
    } else {
        match read_predicates(parts.drop_last(), map) {
            Err(error) => Err(error),
            Ok(before) => match read_predicate(trimmed(parts.last()), map@) {
                Err(error) => Err(error),
                Ok(RawPredicateView::Crate(predicate)) => Ok(before.push(predicate)),
                Ok(RawPredicateView::User(login)) => match owned_crates(map, login) {
                    None => Err(
                        QueryErrorView::NoOwner { team: login.contains('/'), login },
                    ),
                    Some(crates) => Ok(before + any_version_of(crates)),
                },
            },
        }
    }
}

/// What a query says: its predicates stand between `+`, and a release
/// meets the query if it meets one of them.
pub open spec fn read_query(text: Seq<char>, map: CrateMap) -> Result<
    Seq<PredicateView>,
    QueryErrorView,
> {
    read_predicates(pieces(text, '+'), map)
}

/// Reads one predicate of a query.
pub fn next_predicate<'a>(piece: &'a str, crates: &CrateMap) -> (r: Result<
    RawPredicate<'a>,
    QueryError,
>)
    requires
        crates.wf(),
    ensures
        match r {
            Ok(predicate) => read_predicate(trimmed(piece@), crates@) == Ok::<
                RawPredicateView,
                QueryErrorView,
            >(predicate@),
            Err(error) => read_predicate(trimmed(piece@), crates@) == Err::<
                RawPredicateView,
                QueryErrorView,
            >(error@),
        },
{
    let predicate = trim(piece);
    if predicate.unicode_len() > 0 && predicate.get_char(0) == '@' {
        return Ok(RawPredicate::User(UserQuery(after_first(predicate))));
    }
    let (name, req) = match split_once(predicate, ':') {
        Some((name, req)) => match VersionReq::from_str(req) {
            Ok(req) => (name, Some(req)),
            Err(err) => {
                return Err(QueryError::Requirement(err));
            },
        },
        None => {
            proof {
                assert(predicate@.take(predicate@.len() as int) =~= predicate@);
            }
            (predicate, None)
        },
    };
    let crate_id = match crates.id(name) {
        Some(crate_id) => crate_id,
        None => {
            return Err(QueryError::NoCrate(name.to_owned()));
        },
    };
    Ok(RawPredicate::Crate(Predicate { crate_id, req }))
}

/// The crates of the owner called `login`.
pub fn crates_owned_by<'a>(crates: &'a CrateMap, login: &str) -> (owned: Option<&'a [CrateId]>)
    ensures
        match owned {
            Some(list) => owned_crates(*crates, login@) == Some(list@),
            None => owned_crates(*crates, login@) is None,
        },
{
    let k = match crates.find_user(login) {
        Some(k) => k,
        None => {
            proof {
                assert forall|k: int| !owner_of(crates.users@, login@, k) by {}
            }
            return None;
        },
    };
    proof {
        assert forall|k2: int| owner_of(crates.users@, login@, k2) implies k2 == k by {}
    }
    let owner = crates.users[k].owner;
    match crates.find_owner(owner) {
        Some(j) => {
            proof {
                assert forall|j2: int| crates_of(crates.owners@, owner, j2) implies j2 == j by {}
            }
            Some(crates.owners[j].crates.as_slice())
        },
        None => {
            proof {
                assert forall|j2: int| !crates_of(crates.owners@, owner, j2) by {}
            }
            let none: &'static [CrateId] = &[];
            assert(none@ =~= Seq::<CrateId>::empty());
            Some(none)
        },
    }
}

/// Reads the predicates of a query.
pub fn parse_predicates(string: &str, crates: &CrateMap) -> (r: Result<Slice<Predicate>, QueryError>)
    requires
        crates.wf(),
    ensures
        match r {
            Ok(predicates) => read_query(string@, *crates) == Ok::<
                Seq<PredicateView>,
                QueryErrorView,
            >(predicate_views(predicates@)),
            Err(error) => read_query(string@, *crates) == Err::<
                Seq<PredicateView>,
                QueryErrorView,
            >(error@),
        },
{
    let parts = split(string, '+');
    let ghost all = pieces(string@, '+');
    let mut predicates: Vec<Predicate> = Vec::new();
    let n = parts.len();
    let mut i: usize = 0;
    proof {
        assert(all.take(0) =~= Seq::<Seq<char>>::empty());
        assert(predicate_views(predicates@) =~= Seq::<PredicateView>::empty());
    }
    while i < n
        invariant
            n == parts@.len(),
            n == all.len(),
            i <= n,
            crates.wf(),
            all == pieces(string@, '+'),
            forall|k: int| 0 <= k < n ==> (#[trigger] parts@[k])@ == all[k],
            read_predicates(all.take(i as int), *crates) == Ok::<
                Seq<PredicateView>,
                QueryErrorView,
            >(predicate_views(predicates@)),
        decreases n - i,
    {
        let ghost before = predicate_views(predicates@);
        let ghost upto = all.take(i as int + 1);
        proof {
            assert(upto.drop_last() =~= all.take(i as int));
            assert(upto.last() == parts@[i as int]@);
        }
        match next_predicate(parts[i], crates) {
            Err(error) => {
                proof {
                    lemma_error_stays(all, *crates, i as int + 1, n as int);
                    assert(all.take(n as int) =~= all);
                }
                return Err(error);
            },
            Ok(RawPredicate::Crate(predicate)) => {
                predicates.push(predicate);
                proof {
                    assert(predicate_views(predicates@) =~= before.push(predicate@));
                }
            },
            Ok(RawPredicate::User(user)) => {
                let owned = match crates_owned_by(crates, user.0) {
                    Some(owned) => owned,
                    None => {
                        proof {
                            lemma_error_stays(all, *crates, i as int + 1, n as int);
                            assert(all.take(n as int) =~= all);
                        }
                        return Err(
                            QueryError::NoOwner { team: user.is_team(), login: user.0.to_owned() },
                        );
                    },
                };
                let m = owned.len();
                let mut j: usize = 0;
                while j < m
                    invariant
                        m == owned@.len(),
                        j <= m,
                        predicate_views(predicates@) == before + any_version_of(
                            owned@.take(j as int),
                        ),
                    decreases m - j,
                {
                    let ghost views = predicate_views(predicates@);
                    predicates.push(Predicate { crate_id: owned[j], req: None });
                    proof {
                        let added = PredicateView { crate_id: owned@[j as int], req: None };
                        assert(owned@.take(j as int + 1) =~= owned@.take(j as int).push(
                            owned@[j as int],
                        ));
                        assert(predicates@.last()@ == added);
                        assert(predicate_views(predicates@) =~= views.push(added));
                        assert(any_version_of(owned@.take(j as int + 1)) =~= any_version_of(
                            owned@.take(j as int),
                        ).push(added));
                        assert(predicate_views(predicates@) =~= before + any_version_of(
                            owned@.take(j as int + 1),
                        ));
                    }
                    j += 1;
                }
                proof {
                    assert(owned@.take(m as int) =~= owned@);
                }
            },
        }
        i += 1;
    }
    proof {
        assert(all.take(n as int) =~= all);
    }
    Ok(Slice::from(predicates))
}

/// An error met among the first `k` pieces is the error of the whole query.
proof fn lemma_error_stays(all: Seq<Seq<char>>, map: CrateMap, k: int, n: int)
    requires
        0 <= k <= n <= all.len(),
        read_predicates(all.take(k), map) is Err,
    ensures
        read_predicates(all.take(n), map) == read_predicates(all.take(k), map),
    decreases n - k,
{
    if k < n {
        lemma_error_stays(all, map, k, n - 1);
        assert(all.take(n).drop_last() =~= all.take(n - 1));
    }
}

/// Why the queries cannot be read: the place of the first that cannot, and
/// what is wrong with it.
pub struct ParseError {
    pub index: usize,
    pub error: QueryError,
}

/// Reads the queries of an invocation, such as `serde:1.0` and
/// `anyhow:^1.0 + thiserror`; each gets its place in the list as its
/// identifier.
pub fn parse(queries: &[&str], crates: &CrateMap) -> (r: Result<Vec<Query>, ParseError>)
    requires
        crates.wf(),
        queries@.len() <= 256,
    ensures
        match r {
            Ok(list) => {
                &&& list@.len() == queries@.len()
                &&& forall|i: int|
                    0 <= i < list@.len() ==> (#[trigger] list@[i]).id.0 == i && read_query(
                        queries@[i]@,
                        *crates,
                    ) == Ok::<Seq<PredicateView>, QueryErrorView>(
                        predicate_views(list@[i].predicates@),
                    )
            },
            Err(failure) => {
                &&& failure.index < queries@.len()
                &&& forall|i: int|
                    0 <= i < failure.index ==> read_query(
                        (#[trigger] queries@[i])@,
                        *crates,
                    ) is Ok
                &&& read_query(queries@[failure.index as int]@, *crates) == Err::<
                    Seq<PredicateView>,
                    QueryErrorView,
                >(failure.error@)
            },
        },
{
    let mut list: Vec<Query> = Vec::new();
    let n = queries.len();
    let mut i: usize = 0;
    while i < n
        invariant
            n == queries@.len(),
            n <= 256,
            i <= n,
            crates.wf(),
            list@.len() == i,
            forall|k: int|
                0 <= k < i ==> (#[trigger] list@[k]).id.0 == k && read_query(
                    queries@[k]@,
                    *crates,
                ) == Ok::<Seq<PredicateView>, QueryErrorView>(predicate_views(list@[k].predicates@)),
        decreases n - i,
    {
        match parse_predicates(queries[i], crates) {
            Ok(predicates) => {
                list.push(Query { id: QueryId(i as u8), predicates });
            },
            Err(error) => {
                proof {
                    assert forall|k: int| 0 <= k < i implies read_query(
                        (#[trigger] queries@[k])@,
                        *crates,
                    ) is Ok by {
                        assert(list@[k].id.0 == k);
                    }
                }
                return Err(ParseError { index: i, error });
            },
        }
        i += 1;
    }
    Ok(list)
}

/// How one predicate of a query is shown, white space around it taken
/// off: a crate by the name that the registry has for it, followed by `:`
/// and its requirement if it has one; an owner by `@` and the name as the
/// registry has it. `None` where the predicate cannot be read or names an
/// owner that is not known.
pub open spec fn label_of(piece: Seq<char>, map: CrateMap) -> Option<Seq<char>> {
    match read_predicate(piece, map@) {
        Err(_) => None,
        Ok(RawPredicateView::Crate(predicate)) => match name_of(map@, predicate.crate_id) {
            None => None,
            Some(name) => Some(
                match predicate.req {
                    Some(req) => name + ":"@ + requirement_text(req),
                    None => name,
                },
            ),
        },
        Ok(RawPredicateView::User(login)) => if exists|k: int| owner_of(map.users@, login, k) {
            Some("@"@ + map.users@[choose|k: int| owner_of(map.users@, login, k)].user.0@)
        } else {
            None
        },
    }
}

/// How the predicates of a query are shown, ` or ` between them.
pub open spec fn labels_of(parts: Seq<Seq<char>>, map: CrateMap) -> Option<Seq<char>>
    decreases parts.len(),
{
    if parts.len() == 0 {
        Some(Seq::empty())
    } else {
        match (labels_of(parts.drop_last(), map), label_of(trimmed(parts.last()), map)) {
            (Some(before), Some(label)) => Some(
                if parts.len() == 1 {
                    label
                } else {
                    before + " or "@ + label
                },
            ),
            _ => None,
        }
    }
}

/// Shows one predicate of a query.
pub fn format_predicate(piece: &str, crates: &CrateMap) -> (label: Option<String>)
    requires
        crates.wf(),
    ensures
        match label {
            Some(label) => label_of(trimmed(piece@), *crates) == Some(label@),
            None => label_of(trimmed(piece@), *crates) is None,
        },
{
    match next_predicate(piece, crates) {
        Err(_) => None,
        Ok(RawPredicate::Crate(predicate)) => {
            let name = match crates.name(predicate.crate_id) {
                Some(name) => name,
                None => {
                    return None;
                },
            };
            let mut label = name.to_owned();
            match &predicate.req {
                Some(req) => {
                    label.append(":");
                    label.append(req.to_string().as_str());
                },
                None => {},
            }
            Some(label)
        },
        Ok(RawPredicate::User(user)) => match crates.find_user(user.0) {
            Some(k) => {
                proof {
                    assert forall|k2: int| owner_of(crates.users@, user.0@, k2) implies k2 == k by {}
                }
                let mut label = "@".to_owned();
                label.append(crates.users[k].user.0.as_str());
                Some(label)
            },
            None => {
                proof {
                    assert forall|k2: int| !owner_of(crates.users@, user.0@, k2) by {}
                }
                None
            },
        },
    }
}

/// Shows a query as a label for its line of the graph: its predicates with
/// ` or ` between them. `None` for a query that cannot be read.
pub fn format(query: &str, crates: &CrateMap) -> (label: Option<String>)
    requires
        crates.wf(),
    ensures
        match label {
            Some(label) => labels_of(pieces(query@, '+'), *crates) == Some(label@),
            None => labels_of(pieces(query@, '+'), *crates) is None,
        },
{
    let parts = split(query, '+');
    let ghost all = pieces(query@, '+');
    let mut label = String::new();
    let n = parts.len();
    let mut i: usize = 0;
    proof {
        assert(all.take(0) =~= Seq::<Seq<char>>::empty());
    }
    while i < n
        invariant
            n == parts@.len(),
            n == all.len(),
            i <= n,
            crates.wf(),
            all == pieces(query@, '+'),
            forall|k: int| 0 <= k < n ==> (#[trigger] parts@[k])@ == all[k],
            labels_of(all.take(i as int), *crates) == Some(label@),
        decreases n - i,
    {
        proof {
            assert(all.take(i as int + 1).drop_last() =~= all.take(i as int));
            assert(all.take(i as int + 1).last() == parts@[i as int]@);
        }
        match format_predicate(parts[i], crates) {
            Some(one) => {
                if i > 0 {
                    label.append(" or ");
                    label.append(one.as_str());
                } else {
                    label = one;
                }
            },
            None => {
                proof {
                    assert(labels_of(all.take(i as int + 1), *crates) is None);
                    lemma_no_label_stays(all, *crates, i as int + 1, n as int);
                    assert(all.take(n as int) =~= all);
                }
                return None;
            },
        }
        i += 1;
    }
    proof {
        assert(all.take(n as int) =~= all);
    }
    Some(label)
}

/// A query with a predicate that cannot be shown cannot be shown.
proof fn lemma_no_label_stays(all: Seq<Seq<char>>, map: CrateMap, k: int, n: int)
    requires
        0 <= k <= n <= all.len(),
        labels_of(all.take(k), map) is None,
    ensures
        labels_of(all.take(n), map) is None,
    decreases n - k,
{
    if k < n {
        lemma_no_label_stays(all, map, k, n - 1);
        assert(all.take(n).drop_last() =~= all.take(n - 1));
    }
}

} // verus!
