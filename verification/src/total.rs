//! The number of crates that the registry has at an instant.

use crate::id::CrateId;
use crate::laws::{lemma_filter_prefix, total_at};
use crate::tally::{chronological, crates_present, lemma_crates_present_finite};
use crate::timestamp::DateTime;
use crate::Release;
use vstd::prelude::*;

verus! {

/// For each crate the instant of its first release, in the order of the
/// releases: the index from which the number of crates at an instant is
/// read.
pub struct Total {
    times: Vec<DateTime>,
}

impl View for Total {
    type V = Seq<DateTime>;

    closed spec fn view(&self) -> Seq<DateTime> {
        self.times@
    }
}

/// No earlier release is of the same crate.
pub open spec fn is_first_of_crate(rels: Seq<Release>, k: int) -> bool {
    &&& 0 <= k < rels.len()
    &&& forall|j: int| 0 <= j < k ==> (#[trigger] rels[j]).crate_id != rels[k].crate_id
}

/// The instants of the first releases of their crates among the first `n`
/// releases.
pub open spec fn first_instants(rels: Seq<Release>, n: nat) -> Seq<DateTime>
    decreases n,
{
    if n == 0 {
        Seq::empty()
    } else {
        let before = first_instants(rels, (n - 1) as nat);
        if is_first_of_crate(rels, n - 1) {
            before.push(rels[n - 1].created_at)
        } else {
            before
        }
    }
}

/// The instants stand in their order.
pub open spec fn ascending(times: Seq<DateTime>) -> bool {
    forall|i: int, j: int|
        0 <= i <= j < times.len() ==> (#[trigger] times[i]).spec_le(#[trigger] times[j])
}

/// How many of the instants are `t` or earlier.
pub open spec fn count_until(times: Seq<DateTime>, t: DateTime) -> nat {
    times.filter(|x: DateTime| x.spec_le(t)).len()
}

/// There are as many first releases among the first `n` as there are crates
/// with a release among them.
proof fn lemma_first_instants_count(rels: Seq<Release>, n: nat)
    requires
        n <= rels.len(),
    ensures
        first_instants(rels, n).len() == crates_present(rels.take(n as int)).len(),
    decreases n,
{
    if n == 0 {
        assert(crates_present(rels.take(0)) =~= Set::empty());
    } else {
        lemma_first_instants_count(rels, (n - 1) as nat);
        lemma_crates_present_finite(rels, n - 1);
        let before = crates_present(rels.take(n - 1));
        let now = crates_present(rels.take(n as int));
        let c = rels[n - 1].crate_id;
        assert forall|x: CrateId| now.contains(x) <==> before.insert(c).contains(x) by {
            if now.contains(x) {
                let k = choose|k: int|
                    0 <= k < n && (#[trigger] rels.take(n as int)[k]).crate_id == x;
                if k < n - 1 {
                    assert(rels.take(n - 1)[k].crate_id == x);
                }
            }
            if before.contains(x) {
                let k = choose|k: int|
                    0 <= k < n - 1 && (#[trigger] rels.take(n - 1)[k]).crate_id == x;
                assert(rels.take(n as int)[k].crate_id == x);
            }
            if x == c {
                assert(rels.take(n as int)[n - 1].crate_id == x);
            }
        }
        assert(now =~= before.insert(c));
        if is_first_of_crate(rels, n - 1) {
            if before.contains(c) {
                let k = choose|k: int|
                    0 <= k < n - 1 && (#[trigger] rels.take(n - 1)[k]).crate_id == c;
                assert(rels[k].crate_id == c);
            }
        } else {
            let j = choose|j: int| 0 <= j < n - 1 && (#[trigger] rels[j]).crate_id == c;
            assert(rels.take(n - 1)[j].crate_id == c);
            assert(before.contains(c));
        }
    }
}

/// In a chronological list the first instants ascend, and none is later
/// than the last release looked at.
proof fn lemma_first_instants_ascend(rels: Seq<Release>, n: nat)
    requires
        chronological(rels),
        n <= rels.len(),
    ensures
        ascending(first_instants(rels, n)),
        forall|i: int|
            0 <= i < first_instants(rels, n).len() ==> n > 0 && (#[trigger] first_instants(
                rels,
                n,
            )[i]).spec_le(rels[n - 1].created_at),
    decreases n,
{
    if n > 0 {
        lemma_first_instants_ascend(rels, (n - 1) as nat);
        if n > 1 {
            assert(rels[n - 2].created_at.spec_le(rels[n - 1].created_at));
        }
    }
}

/// In a chronological list, the first instants up to `t` are those of the
/// releases up to `t`.
proof fn lemma_first_instants_until(rels: Seq<Release>, n: nat, m: nat, t: DateTime)
    requires
        chronological(rels),
        m <= n <= rels.len(),
        forall|i: int| 0 <= i < m ==> (#[trigger] rels[i]).created_at.spec_le(t),
        forall|i: int| m <= i < rels.len() ==> !(#[trigger] rels[i]).created_at.spec_le(t),
    ensures
        first_instants(rels, n).filter(|x: DateTime| x.spec_le(t)) == first_instants(rels, m),
    decreases n,
{
    reveal(Seq::filter);
    let p = |x: DateTime| x.spec_le(t);
    if n == m {
        lemma_first_instants_ascend(rels, m);
        let firsts = first_instants(rels, m);
        assert forall|i: int| 0 <= i < firsts.len() implies p(#[trigger] firsts[i]) by {
            assert(firsts[i].spec_le(rels[m - 1].created_at));
        }
        lemma_filter_prefix(firsts, p, firsts.len() as int);
        assert(firsts.take(firsts.len() as int) =~= firsts);
    } else {
        lemma_first_instants_until(rels, (n - 1) as nat, m, t);
        let before = first_instants(rels, (n - 1) as nat);
        if is_first_of_crate(rels, n - 1) {
            let now = before.push(rels[n - 1].created_at);
            assert(now.drop_last() =~= before);
            assert(!p(now.last()));
        }
    }
}

/// The place where the releases up to `t` end in a chronological list.
proof fn lemma_split_at(rels: Seq<Release>, t: DateTime, n: nat) -> (m: nat)
    requires
        chronological(rels),
        n <= rels.len(),
    ensures
        m <= n,
        forall|i: int| 0 <= i < m ==> (#[trigger] rels[i]).created_at.spec_le(t),
        forall|i: int| m <= i < n ==> !(#[trigger] rels[i]).created_at.spec_le(t),
    decreases n,
{
    if n == 0 {
        0
    } else if rels[n - 1].created_at.spec_le(t) {
        assert forall|i: int| 0 <= i < n implies (#[trigger] rels[i]).created_at.spec_le(t) by {
            assert(rels[i].created_at.spec_le(rels[n - 1].created_at));
        }
        n
    } else {
        lemma_split_at(rels, t, (n - 1) as nat)
    }
}

/// Over a chronological list of releases, the first instants up to `t` are
/// as many as the crates that have a release at `t`.
pub proof fn law_total_counts_crates(rels: Seq<Release>, t: DateTime)
    requires
        chronological(rels),
    ensures
        count_until(first_instants(rels, rels.len()), t) == total_at(rels, t),
{
    let m = lemma_split_at(rels, t, rels.len());
    lemma_first_instants_until(rels, rels.len(), m, t);
    lemma_first_instants_count(rels, m);
    lemma_filter_prefix(rels, |r: Release| r.created_at.spec_le(t), m as int);
}

impl Total {
    /// The instants ascend, and a count of 32 bits holds their number.
    pub open spec fn wf(&self) -> bool {
        ascending(self@) && self@.len() <= u32::MAX
    }

    /// Indexes a chronological list of releases.
    pub fn index(releases: &[Release]) -> (total: Total)
        requires
            chronological(releases@),
            releases@.len() <= u32::MAX,
        ensures
            total.wf(),
            total@ == first_instants(releases@, releases@.len()),
    {
        let mut times: Vec<DateTime> = Vec::new();
        let n = releases.len();
        let mut k: usize = 0;
        while k < n
            invariant
                n == releases@.len(),
                k <= n,
                times@ == first_instants(releases@, k as nat),
                times@.len() <= k,
            decreases n - k,
        {
            let mut first = true;
            let mut j: usize = 0;
            while j < k
                invariant
                    j <= k < n,
                    n == releases@.len(),
                    first == forall|i: int|
                        0 <= i < j ==> (#[trigger] releases@[i]).crate_id != releases@[k as int].crate_id,
                decreases k - j,
            {
                if releases[j].crate_id.0 == releases[k].crate_id.0 {
                    first = false;
                }
                j += 1;
            }
            if first {
                times.push(releases[k].created_at);
            }
            k += 1;
        }
        proof {
            lemma_first_instants_ascend(releases@, n as nat);
        }
        Total { times }
    }

    /// The number of crates with a release at `time`. Looks the instant up by
    /// bisection.
    pub fn eval(&self, time: DateTime) -> (total: u32)
        requires
            self.wf(),
        ensures
            total == count_until(self@, time),
    {
        let mut lo: usize = 0;
        let mut hi: usize = self.times.len();
        while lo < hi
            invariant
                lo <= hi <= self.times@.len(),
                self.times@.len() <= u32::MAX,
                ascending(self.times@),
                forall|i: int| 0 <= i < lo ==> (#[trigger] self.times@[i]).spec_le(time),
                forall|i: int| hi <= i < self.times@.len() ==> !(#[trigger] self.times@[i]).spec_le(time),
            decreases hi - lo,
        {
            let mid = lo + (hi - lo) / 2;
            if self.times[mid].le(time) {
                proof {
                    assert forall|i: int| 0 <= i < mid + 1 implies (#[trigger] self.times@[i]).spec_le(
                        time,
                    ) by {
                        assert(self.times@[i].spec_le(self.times@[mid as int]));
                    }
                }
                lo = mid + 1;
            } else {
                proof {
                    assert forall|i: int| mid <= i < self.times@.len() implies !(
                    #[trigger] self.times@[i]).spec_le(time) by {
                        assert(self.times@[mid as int].spec_le(self.times@[i]));
                    }
                }
                hi = mid;
            }
        }
        proof {
            lemma_filter_prefix(self.times@, |x: DateTime| x.spec_le(time), lo as int);
        }
        lo as u32
    }
}

} // verus!
