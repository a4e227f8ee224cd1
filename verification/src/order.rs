//! The order of time among releases and among differences.

use crate::timestamp::DateTime;
use crate::{DbDump, Release};
use vstd::prelude::*;

verus! {

/// What happens at an instant and can be put in the order of time.
pub trait Timed: Sized {
    /// The instant.
    spec fn instant(&self) -> DateTime;

    /// The instant as a key to order by: its seconds, then its
    /// nanoseconds.
    fn key(&self) -> (key: (i64, u32))
        ensures
            key == (self.instant().secs, self.instant().nanos),
    ;
}

impl Timed for Release {
    open spec fn instant(&self) -> DateTime {
        self.created_at
    }

    fn key(&self) -> (key: (i64, u32)) {
        (self.created_at.secs, self.created_at.nanos)
    }
}

/// The items stand in the order of their instants.
pub open spec fn in_order<T: Timed>(items: Seq<T>) -> bool {
    forall|i: int, j: int|
        0 <= i <= j < items.len() ==> (#[trigger] items[i]).instant().spec_le(
            (#[trigger] items[j]).instant(),
        )
}

/// `after` holds the items `before` in another order, and `from` says for
/// each place of `after` where its item stood in `before`; items of one
/// instant keep their order.
pub open spec fn rearranges<T: Timed>(before: Seq<T>, after: Seq<T>, from: Seq<int>) -> bool {
    &&& from.len() == before.len()
    &&& after.len() == before.len()
    &&& forall|i: int|
        0 <= i < after.len() ==> 0 <= #[trigger] from[i] < before.len() && after[i]
            == before[from[i]]
    &&& forall|i: int, j: int|
        0 <= i < j < from.len() ==> #[trigger] from[i] != #[trigger] from[j]
    &&& forall|i: int, j: int|
        0 <= i < j < after.len() && after[i].instant() == after[j].instant()
            ==> #[trigger] from[i] < #[trigger] from[j]
}

/// `after` holds the items `before` in the order of their instants, those
/// of one instant in the order in which they stood.
pub open spec fn is_sorted_from<T: Timed>(before: Seq<T>, after: Seq<T>) -> bool {
    in_order(after) && exists|from: Seq<int>| rearranges(before, after, from)
}

/// Calls `slice::sort_by_key` with the instant as the key. The standard
/// library documents that sort as one that orders by the key and is stable,
/// that is, does not reorder elements with equal keys; the keys are pairs of
/// integers, which are ordered by their first, then by their second.
#[verifier::external_body]
pub(crate) fn sort_by_instant<T: Timed>(items: &mut Vec<T>)
    ensures
        is_sorted_from(old(items)@, final(items)@),
{
    items.sort_by_key(|item| item.key());
}

/// Puts the releases in the order of their instants; releases of one
/// instant stay in their order.
pub fn sort_releases(db_dump: &mut DbDump)
    ensures
        is_sorted_from(old(db_dump).releases@, final(db_dump).releases@),
        crate::tally::chronological(final(db_dump).releases@),
        final(db_dump).dependencies == old(db_dump).dependencies,
        final(db_dump).features == old(db_dump).features,
{
    sort_by_instant(&mut db_dump.releases);
}

} // verus!
