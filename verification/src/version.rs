//! Versions, requirements, and when a requirement accepts a version.

use crate::arena::Slice;
use vstd::prelude::*;

verus! {

/// A version number: three components and an optional pre-release tag, held
/// as its text (empty: none).
#[derive(Debug)]
pub struct Version {
    pub major: u64,
    pub minor: u64,
    pub patch: u64,
    pub pre: String,
}

/// What a `Version` is, as a value.
pub struct VersionView {
    pub major: u64,
    pub minor: u64,
    pub patch: u64,
    pub pre: Seq<char>,
}

impl View for Version {
    type V = VersionView;

    open spec fn view(&self) -> VersionView {
        VersionView { major: self.major, minor: self.minor, patch: self.patch, pre: self.pre@ }
    }
}

/// The operator of one comparator.
#[derive(Copy, Clone, PartialEq, Eq, Structural, Debug)]
pub enum Op {
    Exact,
    Greater,
    GreaterEq,
    Less,
    LessEq,
    Tilde,
    Caret,
    Wildcard,
}

/// One comparator of a requirement: an operator and a partial version.
#[derive(Debug)]
pub struct Comparator {
    pub op: Op,
    pub major: u64,
    pub minor: Option<u64>,
    pub patch: Option<u64>,
    pub pre: String,
}

/// What a `Comparator` is, as a value.
pub struct ComparatorView {
    pub op: Op,
    pub major: u64,
    pub minor: Option<u64>,
    pub patch: Option<u64>,
    pub pre: Seq<char>,
}

impl View for Comparator {
    type V = ComparatorView;

    open spec fn view(&self) -> ComparatorView {
        ComparatorView {
            op: self.op,
            major: self.major,
            minor: self.minor,
            patch: self.patch,
            pre: self.pre@,
        }
    }
}

/// A requirement: every comparator has to accept the version.
#[derive(Debug)]
pub struct VersionReq {
    pub comparators: Slice<Comparator>,
}

impl View for VersionReq {
    type V = Seq<ComparatorView>;

    open spec fn view(&self) -> Seq<ComparatorView> {
        comparator_views(self.comparators@)
    }
}

/// The comparators as values.
pub open spec fn comparator_views(comparators: Seq<Comparator>) -> Seq<ComparatorView> {
    Seq::new(comparators.len(), |i: int| comparators[i]@)
}

/// How one pre-release tag stands to another.
#[derive(Copy, Clone, PartialEq, Eq, Structural, Debug)]
pub enum Precedence {
    Lower,
    Same,
    Higher,
}

/// The precedence that `semver` gives the pre-release tag `a` over the tag
/// `b`; `None` where it takes one of the two texts for no pre-release tag.
pub uninterp spec fn prerelease_precedence(a: Seq<char>, b: Seq<char>) -> Option<Precedence>;

/// The comparators that `semver` reads from a requirement's text, `None`
/// where it rejects the text.
pub uninterp spec fn parsed_requirement(text: Seq<char>) -> Option<Seq<ComparatorView>>;

/// The version that `semver` reads from a text, without its build metadata;
/// `None` where it rejects the text.
pub uninterp spec fn parsed_version(text: Seq<char>) -> Option<VersionView>;

/// The error that `semver` reports for a text it cannot parse.
#[verifier::external_type_specification]
#[verifier::external_body]
pub struct ExSemverError(semver::Error);

/// Calls `semver::Prerelease::new` on both texts and `Ord::cmp` on the two
/// tags. Claims that the outcome depends on the two texts alone.
#[verifier::external_body]
fn compare_prerelease(a: &str, b: &str) -> (r: Option<Precedence>)
    ensures
        r == prerelease_precedence(a@, b@),
{
    match (semver::Prerelease::new(a), semver::Prerelease::new(b)) {
        (Ok(a), Ok(b)) => Some(
            match a.cmp(&b) {
                std::cmp::Ordering::Less => Precedence::Lower,
                std::cmp::Ordering::Equal => Precedence::Same,
                std::cmp::Ordering::Greater => Precedence::Higher,
            },
        ),
        _ => None,
    }
}

/// Calls `semver::VersionReq::parse` and copies each comparator field by
/// field; the last arm takes `Op::Wildcard`, the one operator left. Claims
/// that the outcome depends on the text alone.
#[verifier::external_body]
fn parse_requirement(text: &str) -> (r: Result<Vec<Comparator>, semver::Error>)
    ensures
        r is Ok <==> parsed_requirement(text@) is Some,
        r is Ok ==> comparator_views(r.unwrap()@) == parsed_requirement(text@).unwrap(),
{
    let req = semver::VersionReq::parse(text)?;
    Ok(req.comparators.iter().map(|c| Comparator {
        op: match c.op {
            semver::Op::Exact => Op::Exact, semver::Op::Greater => Op::Greater,
            semver::Op::GreaterEq => Op::GreaterEq, semver::Op::Less => Op::Less,
            semver::Op::LessEq => Op::LessEq, semver::Op::Tilde => Op::Tilde,
            semver::Op::Caret => Op::Caret, _ => Op::Wildcard,
        },
        major: c.major, minor: c.minor, patch: c.patch, pre: c.pre.as_str().to_owned(),
    }).collect())
}

/// Calls `semver::Version::parse` and copies the three numbers and the
/// pre-release tag. Claims that the outcome depends on the text alone.
#[verifier::external_body]
fn parse_version(text: &str) -> (r: Result<Version, semver::Error>)
    ensures
        r is Ok <==> parsed_version(text@) is Some,
        r is Ok ==> r.unwrap()@ == parsed_version(text@).unwrap(),
{
    let v = semver::Version::parse(text)?;
    Ok(Version { major: v.major, minor: v.minor, patch: v.patch, pre: v.pre.as_str().to_owned() })
}

/// The text that `semver` writes for a comparator, such as `>=1.2.3`.
pub uninterp spec fn comparator_text(c: ComparatorView) -> Seq<char>;

/// Makes a `semver::Comparator` of the same operator, numbers and
/// pre-release tag (of no tag where `semver::Prerelease::new` does not take
/// the text) and formats it with its `Display`. Claims that the outcome
/// depends on the comparator's value alone.
#[verifier::external_body]
fn display_comparator(c: &Comparator) -> (text: String)
    ensures
        text@ == comparator_text(c@),
{
    let op = match c.op {
        Op::Exact => semver::Op::Exact, Op::Greater => semver::Op::Greater,
        Op::GreaterEq => semver::Op::GreaterEq, Op::Less => semver::Op::Less,
        Op::LessEq => semver::Op::LessEq, Op::Tilde => semver::Op::Tilde,
        Op::Caret => semver::Op::Caret, Op::Wildcard => semver::Op::Wildcard,
    };
    let pre = semver::Prerelease::new(&c.pre).unwrap_or(semver::Prerelease::EMPTY);
    format!("{}", semver::Comparator { op, major: c.major, minor: c.minor, patch: c.patch, pre })
}

/// The texts one after the other, with `sep` between them.
pub open spec fn joined(parts: Seq<Seq<char>>, sep: Seq<char>) -> Seq<char>
    decreases parts.len(),
{
    if parts.len() == 0 {
        Seq::empty()
    } else if parts.len() == 1 {
        parts[0]
    } else {
        joined(parts.drop_last(), sep) + sep + parts.last()
    }
}

/// The text of a requirement: `*` if it has no comparator, else its
/// comparators with `, ` between them.
pub open spec fn requirement_text(req: Seq<ComparatorView>) -> Seq<char> {
    if req.len() == 0 {
        "*"@
    } else {
        joined(Seq::new(req.len(), |i: int| comparator_text(req[i])), ", "@)
    }
}

/// How the tag `a` stands to the tag `b`. No tag stands above every tag and
/// level with no tag; two tags stand as `semver` orders them.
pub open spec fn tag_precedence(a: Seq<char>, b: Seq<char>) -> Option<Precedence> {
    if a.len() == 0 && b.len() == 0 {
        Some(Precedence::Same)
    } else if a.len() == 0 {
        Some(Precedence::Higher)
    } else if b.len() == 0 {
        Some(Precedence::Lower)
    } else {
        prerelease_precedence(a, b)
    }
}

/// The tag `a` has precedence over `b`.
pub open spec fn pre_above(a: Seq<char>, b: Seq<char>) -> bool {
    tag_precedence(a, b) == Some(Precedence::Higher)
}

/// The tag `b` has precedence over `a`.
pub open spec fn pre_below(a: Seq<char>, b: Seq<char>) -> bool {
    tag_precedence(a, b) == Some(Precedence::Lower)
}

/// The tag `a` has the precedence of `b` or more.
pub open spec fn pre_at_least(a: Seq<char>, b: Seq<char>) -> bool {
    tag_precedence(a, b) == Some(Precedence::Higher) || tag_precedence(a, b) == Some(
        Precedence::Same,
    )
}

/// The version agrees with every component that the comparator names, and
/// with its pre-release tag.
pub open spec fn spec_matches_exact(c: ComparatorView, v: VersionView) -> bool {
    &&& v.major == c.major
    &&& c.minor is Some ==> v.minor == c.minor->0
    &&& c.patch is Some ==> v.patch == c.patch->0
    &&& v.pre == c.pre
}

/// The version comes after the comparator's, component by component from the
/// left; a component that the comparator leaves out decides for "no".
pub open spec fn spec_matches_greater(c: ComparatorView, v: VersionView) -> bool {
    if v.major != c.major {
        v.major > c.major
    } else if c.minor is None {
        false
    } else if v.minor != c.minor->0 {
        v.minor > c.minor->0
    } else if c.patch is None {
        false
    } else if v.patch != c.patch->0 {
        v.patch > c.patch->0
    } else {
        pre_above(v.pre, c.pre)
    }
}

/// The version comes before the comparator's, in the same way.
pub open spec fn spec_matches_less(c: ComparatorView, v: VersionView) -> bool {
    if v.major != c.major {
        v.major < c.major
    } else if c.minor is None {
        false
    } else if v.minor != c.minor->0 {
        v.minor < c.minor->0
    } else if c.patch is None {
        false
    } else if v.patch != c.patch->0 {
        v.patch < c.patch->0
    } else {
        pre_below(v.pre, c.pre)
    }
}

/// `~`: major and minor are pinned as far as they are named, the patch may
/// grow.
pub open spec fn spec_matches_tilde(c: ComparatorView, v: VersionView) -> bool {
    &&& v.major == c.major
    &&& c.minor is Some ==> v.minor == c.minor->0
    &&& match c.patch {
        Some(patch) => v.patch > patch || (v.patch == patch && pre_at_least(v.pre, c.pre)),
        None => pre_at_least(v.pre, c.pre),
    }
}

/// `^`: the leftmost non-zero component is pinned, what stands right of it
/// may grow.
pub open spec fn spec_matches_caret(c: ComparatorView, v: VersionView) -> bool {
    &&& v.major == c.major
    &&& match (c.minor, c.patch) {
        (None, _) => true,
        (Some(minor), None) => if c.major > 0 {
            v.minor >= minor
        } else {
            v.minor == minor
        },
        (Some(minor), Some(patch)) => if c.major > 0 {
            v.minor > minor || (v.minor == minor && v.patch > patch) || (v.minor == minor
                && v.patch == patch && pre_at_least(v.pre, c.pre))
        } else if minor > 0 {
            v.minor == minor && (v.patch > patch || (v.patch == patch && pre_at_least(
                v.pre,
                c.pre,
            )))
        } else {
            v.minor == minor && v.patch == patch && pre_at_least(v.pre, c.pre)
        },
    }
}

/// What one comparator says of a version, its pre-release rule aside.
pub open spec fn spec_matches_impl(c: ComparatorView, v: VersionView) -> bool {
    match c.op {
        Op::Exact | Op::Wildcard => spec_matches_exact(c, v),
        Op::Greater => spec_matches_greater(c, v),
        Op::GreaterEq => spec_matches_exact(c, v) || spec_matches_greater(c, v),
        Op::Less => spec_matches_less(c, v),
        Op::LessEq => spec_matches_exact(c, v) || spec_matches_less(c, v),
        Op::Tilde => spec_matches_tilde(c, v),
        Op::Caret => spec_matches_caret(c, v),
    }
}

/// The comparator names the version's three numbers and has a pre-release
/// tag itself.
pub open spec fn spec_pre_is_compatible(c: ComparatorView, v: VersionView) -> bool {
    &&& c.major == v.major
    &&& c.minor == Some(v.minor)
    &&& c.patch == Some(v.patch)
    &&& c.pre.len() > 0
}

/// A requirement accepts a version when every comparator does and, for a
/// pre-release version, one comparator with the same three numbers has a
/// pre-release tag too.
pub open spec fn spec_matches(req: Seq<ComparatorView>, v: VersionView) -> bool {
    &&& forall|i: int| 0 <= i < req.len() ==> spec_matches_impl(#[trigger] req[i], v)
    &&& v.pre.len() == 0 || exists|i: int|
        0 <= i < req.len() && spec_pre_is_compatible(#[trigger] req[i], v)
}

/// A comparator that names all three numbers and no pre-release tag.
pub open spec fn is_full_and_bare(c: ComparatorView) -> bool {
    c.minor is Some && c.patch is Some && c.pre.len() == 0
}

/// `^X.Y.Z` on a version without a tag: for `X > 0` the major number is
/// `X` and minor and patch are `(Y, Z)` or later; for `X == 0` and `Y > 0`
/// major and minor are pinned and the patch is `Z` or later; for `^0.0.Z`
/// only the version `0.0.Z` is accepted.
pub proof fn law_caret(c: ComparatorView, v: VersionView)
    requires
        c.op == Op::Caret,
        is_full_and_bare(c),
        v.pre.len() == 0,
    ensures
        spec_matches(seq![c], v) <==> if c.major > 0 {
            v.major == c.major && (v.minor > c.minor->0 || (v.minor == c.minor->0 && v.patch
                >= c.patch->0))
        } else if c.minor->0 > 0 {
            v.major == 0 && v.minor == c.minor->0 && v.patch >= c.patch->0
        } else {
            v.major == 0 && v.minor == 0 && v.patch == c.patch->0
        },
{
    assert(seq![c][0] == c);
}

/// `^X.Y` and `^X` on a version without a tag: `^X` accepts every version
/// with the major number `X`; `^X.Y` asks for a minor number of `Y` or more
/// where `X > 0`, and for `Y` itself where `X == 0`.
pub proof fn law_caret_without_patch(c: ComparatorView, v: VersionView)
    requires
        c.op == Op::Caret,
        c.patch is None,
        v.pre.len() == 0,
    ensures
        spec_matches(seq![c], v) <==> v.major == c.major && match c.minor {
            None => true,
            Some(minor) => if c.major > 0 {
                v.minor >= minor
            } else {
                v.minor == minor
            },
        },
{
    assert(seq![c][0] == c);
}

/// `~X.Y.Z` on a version without a tag: major and minor are pinned, the
/// patch is `Z` or later.
pub proof fn law_tilde(c: ComparatorView, v: VersionView)
    requires
        c.op == Op::Tilde,
        is_full_and_bare(c),
        v.pre.len() == 0,
    ensures
        spec_matches(seq![c], v) <==> v.major == c.major && v.minor == c.minor->0 && v.patch
            >= c.patch->0,
{
    assert(seq![c][0] == c);
}

/// The version has the three numbers that the comparator names.
pub open spec fn numbers_are(v: VersionView, c: ComparatorView) -> bool {
    v.major == c.major && v.minor == c.minor->0 && v.patch == c.patch->0
}

/// The version's three numbers come after those that the comparator names.
pub open spec fn numbers_after(v: VersionView, c: ComparatorView) -> bool {
    v.major > c.major || (v.major == c.major && (v.minor > c.minor->0 || (v.minor == c.minor->0
        && v.patch > c.patch->0)))
}

/// The comparison operators on a version without a tag go by the three
/// numbers, leftmost first.
pub proof fn law_comparisons(c: ComparatorView, v: VersionView)
    requires
        is_full_and_bare(c),
        v.pre.len() == 0,
    ensures
        c.op == Op::Exact || c.op == Op::Wildcard ==> (spec_matches(seq![c], v) <==> numbers_are(
            v,
            c,
        )),
        c.op == Op::Greater ==> (spec_matches(seq![c], v) <==> numbers_after(v, c)),
        c.op == Op::GreaterEq ==> (spec_matches(seq![c], v) <==> numbers_after(v, c)
            || numbers_are(v, c)),
        c.op == Op::Less ==> (spec_matches(seq![c], v) <==> !numbers_after(v, c) && !numbers_are(
            v,
            c,
        )),
        c.op == Op::LessEq ==> (spec_matches(seq![c], v) <==> !numbers_after(v, c)),
{
    assert(seq![c][0] == c);
    assert(v.pre =~= c.pre);
}

/// A wildcard is `=` on the numbers it names: `X.*` accepts the versions
/// without a tag whose major number is `X`, `X.Y.*` those that have the
/// minor number `Y` too.
pub proof fn law_wildcard(c: ComparatorView, v: VersionView)
    requires
        c.op == Op::Wildcard,
        c.patch is None,
        c.pre.len() == 0,
        v.pre.len() == 0,
    ensures
        spec_matches(seq![c], v) <==> v.major == c.major && (c.minor is Some ==> v.minor
            == c.minor->0),
{
    assert(seq![c][0] == c);
    assert(v.pre =~= c.pre);
}

/// A version with a pre-release tag is accepted only where a comparator
/// names its three numbers and has a tag itself.
pub proof fn law_tagged_version_needs_tagged_comparator(req: Seq<ComparatorView>, v: VersionView)
    requires
        v.pre.len() > 0,
        forall|i: int|
            0 <= i < req.len() ==> (#[trigger] req[i]).pre.len() == 0 || !numbers_are(v, req[i])
                || req[i].minor is None || req[i].patch is None,
    ensures
        !spec_matches(req, v),
{
    if spec_matches(req, v) {
        let i = choose|i: int| 0 <= i < req.len() && spec_pre_is_compatible(#[trigger] req[i], v);
        assert(numbers_are(v, req[i]));
    }
}

impl Version {
    /// The release `major.minor.patch`, without a pre-release tag.
    pub fn new(major: u64, minor: u64, patch: u64) -> (v: Version)
        ensures
            v@ == (VersionView { major, minor, patch, pre: Seq::<char>::empty() }),
    {
        Version { major, minor, patch, pre: String::new() }
    }

    /// Reads a version from its text; build metadata is not kept.
    pub fn parse(text: &str) -> (r: Result<Version, semver::Error>)
        ensures
            r is Ok <==> parsed_version(text@) is Some,
            r is Ok ==> r.unwrap()@ == parsed_version(text@).unwrap(),
    {
        parse_version(text)
    }

    /// The version has no pre-release tag.
    pub open spec fn spec_is_stable(&self) -> bool {
        self.pre@.len() == 0
    }

    /// The version has no pre-release tag.
    #[verifier::when_used_as_spec(spec_is_stable)]
    pub fn is_stable(&self) -> (b: bool)
        ensures
            b == self.spec_is_stable(),
    {
        self.pre.as_str().unicode_len() == 0
    }

    pub fn duplicate(&self) -> (v: Version)
        ensures
            v == *self,
    {
        Version { major: self.major, minor: self.minor, patch: self.patch, pre: self.pre.clone() }
    }
}

impl Comparator {
    pub fn duplicate(&self) -> (c: Comparator)
        ensures
            c == *self,
    {
        Comparator {
            op: self.op,
            major: self.major,
            minor: self.minor,
            patch: self.patch,
            pre: self.pre.clone(),
        }
    }
}

impl VersionReq {
    /// Whether the requirement accepts `version`.
    pub fn matches(&self, version: &Version) -> (b: bool)
        ensures
            b == spec_matches(self@, version@),
    {
        matches_req(&self.comparators, version)
    }

    /// Reads a requirement such as `^1.2` or `>=1.0, <2.0` from its text.
    pub fn from_str(string: &str) -> (r: Result<VersionReq, semver::Error>)
        ensures
            r is Ok <==> parsed_requirement(string@) is Some,
            r is Ok ==> r.unwrap()@ == parsed_requirement(string@).unwrap(),
    {
        match parse_requirement(string) {
            Ok(comparators) => Ok(VersionReq { comparators: Slice::from(comparators) }),
            Err(err) => Err(err),
        }
    }

    /// The requirement as text.
    pub fn to_string(&self) -> (text: String)
        ensures
            text@ == requirement_text(self@),
    {
        let n = self.comparators.len();
        if n == 0 {
            return "*".to_owned();
        }
        let ghost texts = Seq::new(self@.len(), |i: int| comparator_text(self@[i]));
        let mut text = String::new();
        let mut i: usize = 0;
        while i < n
            invariant
                n == self.comparators@.len(),
                n > 0,
                i <= n,
                texts == Seq::new(self@.len(), |i: int| comparator_text(self@[i])),
                text@ == joined(texts.take(i as int), ", "@),
            decreases n - i,
        {
            if i > 0 {
                text.append(", ");
            }
            let one = display_comparator(self.comparators.get(i));
            text.append(one.as_str());
            proof {
                let upto = texts.take(i as int + 1);
                assert(upto.drop_last() =~= texts.take(i as int));
                assert(upto.last() == comparator_text(self@[i as int]));
                if i == 0 {
                    assert(text@ =~= upto[0]);
                }
            }
            i += 1;
        }
        proof {
            assert(texts.take(n as int) =~= texts);
        }
        text
    }

    /// The requirement that nothing constrains: `*`.
    pub fn star() -> (r: VersionReq)
        ensures
            r@ == Seq::<ComparatorView>::empty(),
    {
        VersionReq { comparators: Slice::empty() }
    }

    pub fn duplicate(&self) -> (r: VersionReq)
        ensures
            r@ == self@,
            r.comparators@ == self.comparators@,
    {
        let mut out: Vec<Comparator> = Vec::new();
        let n = self.comparators.len();
        let mut i: usize = 0;
        while i < n
            invariant
                n == self.comparators@.len(),
                i <= n,
                out@ == self.comparators@.take(i as int),
            decreases n - i,
        {
            out.push(self.comparators.get(i).duplicate());
            proof {
                assert(self.comparators@.take(i as int + 1) == self.comparators@.take(
                    i as int,
                ).push(self.comparators@[i as int]));
            }
            i += 1;
        }
        proof {
            assert(self.comparators@.take(n as int) == self.comparators@);
        }
        VersionReq { comparators: Slice::from(out) }
    }
}

/// Whether the comparators, taken together, accept the version.
pub fn matches_req(comparators: &Slice<Comparator>, ver: &Version) -> (b: bool)
    ensures
        b == spec_matches(comparator_views(comparators@), ver@),
{
    let ghost req = comparator_views(comparators@);
    let n = comparators.len();
    let mut i: usize = 0;
    while i < n
        invariant
            n == comparators@.len(),
            req == comparator_views(comparators@),
            i <= n,
            forall|k: int| 0 <= k < i ==> spec_matches_impl(#[trigger] req[k], ver@),
        decreases n - i,
    {
        if !matches_impl(comparators.get(i), ver) {
            assert(!spec_matches_impl(req[i as int], ver@));
            return false;
        }
        i += 1;
    }
    if ver.is_stable() {
        return true;
    }
    let mut j: usize = 0;
    while j < n
        invariant
            n == comparators@.len(),
            req == comparator_views(comparators@),
            j <= n,
            forall|k: int| 0 <= k < n ==> spec_matches_impl(#[trigger] req[k], ver@),
            forall|k: int| 0 <= k < j ==> !spec_pre_is_compatible(#[trigger] req[k], ver@),
        decreases n - j,
    {
        if pre_is_compatible(comparators.get(j), ver) {
            assert(spec_pre_is_compatible(req[j as int], ver@));
            return true;
        }
        j += 1;
    }
    false
}

/// What one comparator says of the version, its pre-release rule aside.
pub fn matches_impl(cmp: &Comparator, ver: &Version) -> (b: bool)
    ensures
        b == spec_matches_impl(cmp@, ver@),
{
    match cmp.op {
        Op::Exact | Op::Wildcard => matches_exact(cmp, ver),
        Op::Greater => matches_greater(cmp, ver),
        Op::GreaterEq => matches_exact(cmp, ver) || matches_greater(cmp, ver),
        Op::Less => matches_less(cmp, ver),
        Op::LessEq => matches_exact(cmp, ver) || matches_less(cmp, ver),
        Op::Tilde => matches_tilde(cmp, ver),
        Op::Caret => matches_caret(cmp, ver),
    }
}

/// Whether the version is the one that the comparator names.
pub fn matches_exact(cmp: &Comparator, ver: &Version) -> (b: bool)
    ensures
        b == spec_matches_exact(cmp@, ver@),
{
    if ver.major != cmp.major {
        return false;
    }
    if let Some(minor) = cmp.minor {
        if ver.minor != minor {
            return false;
        }
    }
    if let Some(patch) = cmp.patch {
        if ver.patch != patch {
            return false;
        }
    }
    ver.pre == cmp.pre
}

/// Whether the version comes after the one that the comparator names.
pub fn matches_greater(cmp: &Comparator, ver: &Version) -> (b: bool)
    ensures
        b == spec_matches_greater(cmp@, ver@),
{
    if ver.major != cmp.major {
        return ver.major > cmp.major;
    }
    match cmp.minor {
        None => return false,
        Some(minor) => {
            if ver.minor != minor {
                return ver.minor > minor;
            }
        },
    }
    match cmp.patch {
        None => return false,
        Some(patch) => {
            if ver.patch != patch {
                return ver.patch > patch;
            }
        },
    }
    pre_gt(&ver.pre, &cmp.pre)
}

/// Whether the version comes before the one that the comparator names.
pub fn matches_less(cmp: &Comparator, ver: &Version) -> (b: bool)
    ensures
        b == spec_matches_less(cmp@, ver@),
{
    if ver.major != cmp.major {
        return ver.major < cmp.major;
    }
    match cmp.minor {
        None => return false,
        Some(minor) => {
            if ver.minor != minor {
                return ver.minor < minor;
            }
        },
    }
    match cmp.patch {
        None => return false,
        Some(patch) => {
            if ver.patch != patch {
                return ver.patch < patch;
            }
        },
    }
    pre_lt(&ver.pre, &cmp.pre)
}

/// Whether the version is within the patches that `~` allows.
pub fn matches_tilde(cmp: &Comparator, ver: &Version) -> (b: bool)
    ensures
        b == spec_matches_tilde(cmp@, ver@),
{
    if ver.major != cmp.major {
        return false;
    }
    if let Some(minor) = cmp.minor {
        if ver.minor != minor {
            return false;
        }
    }
    if let Some(patch) = cmp.patch {
        if ver.patch != patch {
            return ver.patch > patch;
        }
    }
    pre_ge(&ver.pre, &cmp.pre)
}

/// Whether the version is compatible with the one that `^` names.
pub fn matches_caret(cmp: &Comparator, ver: &Version) -> (b: bool)
    ensures
        b == spec_matches_caret(cmp@, ver@),
{
    if ver.major != cmp.major {
        return false;
    }
    let minor = match cmp.minor {
        None => return true,
        Some(minor) => minor,
    };
    let patch = match cmp.patch {
        None => {
            return if cmp.major > 0 {
                ver.minor >= minor
            } else {
                ver.minor == minor
            };
        },
        Some(patch) => patch,
    };
    if cmp.major > 0 {
        if ver.minor != minor {
            return ver.minor > minor;
        } else if ver.patch != patch {
            return ver.patch > patch;
        }
    } else if minor > 0 {
        if ver.minor != minor {
            return false;
        } else if ver.patch != patch {
            return ver.patch > patch;
        }
    } else if ver.minor != minor || ver.patch != patch {
        return false;
    }
    pre_ge(&ver.pre, &cmp.pre)
}

/// Whether the comparator names the version's numbers and has a tag itself.
pub fn pre_is_compatible(cmp: &Comparator, ver: &Version) -> (b: bool)
    ensures
        b == spec_pre_is_compatible(cmp@, ver@),
{
    cmp.major == ver.major && cmp.minor == Some(ver.minor) && cmp.patch == Some(ver.patch)
        && cmp.pre.as_str().unicode_len() != 0
}

/// How the tag `a` stands to the tag `b`; only two tags are put to `semver`.
pub(crate) fn precedence(a: &str, b: &str) -> (r: Option<Precedence>)
    ensures
        r == tag_precedence(a@, b@),
{
    let a_bare = a.unicode_len() == 0;
    let b_bare = b.unicode_len() == 0;
    if a_bare && b_bare {
        Some(Precedence::Same)
    } else if a_bare {
        Some(Precedence::Higher)
    } else if b_bare {
        Some(Precedence::Lower)
    } else {
        compare_prerelease(a, b)
    }
}

fn pre_gt(a: &String, b: &String) -> (r: bool)
    ensures
        r == pre_above(a@, b@),
{
    match precedence(a.as_str(), b.as_str()) {
        Some(Precedence::Higher) => true,
        _ => false,
    }
}

pub(crate) fn pre_lt(a: &String, b: &String) -> (r: bool)
    ensures
        r == pre_below(a@, b@),
{
    match precedence(a.as_str(), b.as_str()) {
        Some(Precedence::Lower) => true,
        _ => false,
    }
}

fn pre_ge(a: &String, b: &String) -> (r: bool)
    ensures
        r == pre_at_least(a@, b@),
{
    match precedence(a.as_str(), b.as_str()) {
        Some(Precedence::Higher) => true,
        Some(Precedence::Same) => true,
        _ => false,
    }
}

/// The requirement `^major.minor.patch` with the version's own pre-release
/// tag: what stays compatible with `version`.
pub fn compatible_req(version: &Version) -> (r: VersionReq)
    ensures
        r@ == seq![
            ComparatorView {
                op: Op::Caret,
                major: version.major,
                minor: Some(version.minor),
                patch: Some(version.patch),
                pre: version.pre@,
            },
        ],
{
    let mut comparators: Vec<Comparator> = Vec::new();
    comparators.push(
        Comparator {
            op: Op::Caret,
            major: version.major,
            minor: Some(version.minor),
            patch: Some(version.patch),
            pre: version.pre.clone(),
        },
    );
    let r = VersionReq { comparators: Slice::from(comparators) };
    assert(r@ =~= seq![
        ComparatorView {
            op: Op::Caret,
            major: version.major,
            minor: Some(version.minor),
            patch: Some(version.patch),
            pre: version.pre@,
        },
    ]);
    r
}

} // verus!
