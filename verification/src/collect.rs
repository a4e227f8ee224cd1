//! The collector, which sums the differences of a tally's counts into the rows
//! of its matrix.

use crate::id::QueryId;
use crate::matrix::Matrix;
use crate::order::{is_sorted_from, sort_by_instant, Timed};
use crate::tally::last_values;
use crate::timestamp::DateTime;
use vstd::prelude::*;

verus! {

/// At `timestamp` the count of the query `query_id` changes by `diff`.
#[derive(Copy, Clone, PartialEq, Eq, Structural, Debug)]
pub struct Difference {
    pub query_id: QueryId,
    pub timestamp: DateTime,
    pub diff: i64,
}

impl Timed for Difference {
    open spec fn instant(&self) -> DateTime {
        self.timestamp
    }

    fn key(&self) -> (key: (i64, u32)) {
        (self.timestamp.secs, self.timestamp.nanos)
    }
}

/// The differences that a tally has given so far.
pub struct ResultCollection {
    out: Vec<Difference>,
}

impl View for ResultCollection {
    type V = Seq<Difference>;

    closed spec fn view(&self) -> Seq<Difference> {
        self.out@
    }
}

impl ResultCollection {
    pub fn new() -> (collection: ResultCollection)
        ensures
            collection@.len() == 0,
    {
        ResultCollection { out: Vec::new() }
    }

    /// Takes a difference.
    pub fn emit(&mut self, item: Difference)
        ensures
            final(self)@ == old(self)@.push(item),
    {
        self.out.push(item);
    }

    /// Puts the differences in the order of their instants; those of one
    /// instant stay in their order.
    pub fn sort(&mut self)
        ensures
            is_sorted_from(old(self)@, final(self)@),
    {
        sort_by_instant(&mut self.out);
    }

    pub fn len(&self) -> (n: usize)
        ensures
            n == self@.len(),
    {
        self.out.len()
    }

    /// The difference at `index`.
    pub fn get(&self, index: usize) -> (item: Difference)
        requires
            index < self@.len(),
        ensures
            item == self@[index as int],
    {
        self.out[index]
    }
}

/// Where a collector stands: the instant it has reached, the counts as they
/// are now, and the rows that are complete.
pub struct Collector {
    pub time: DateTime,
    pub values: Seq<int>,
    pub rows: Seq<(DateTime, Seq<u32>)>,
}

/// The counts as a row holds them.
pub open spec fn as_row(values: Seq<int>) -> Seq<u32> {
    Seq::new(values.len(), |i: int| values[i] as u32)
}

/// A collector that has taken nothing: at the epoch, with counts of zero.
pub open spec fn begun(width: nat) -> Collector {
    Collector {
        time: DateTime { secs: 0, nanos: 0 },
        values: Seq::new(width, |i: int| 0int),
        rows: Seq::empty(),
    }
}

/// The collector after it has taken one more difference. A difference of a
/// later instant completes the row of the instant before, unless it is the
/// first difference of all.
pub open spec fn taken(c: Collector, first: bool, d: Difference) -> Collector {
    let later = c.time.spec_lt(d.timestamp);
    let column = d.query_id.0 as int;
    Collector {
        time: if later {
            d.timestamp
        } else {
            c.time
        },
        values: if column < c.values.len() {
            c.values.update(column, c.values[column] + d.diff)
        } else {
            c.values
        },
        rows: if later && !first {
            c.rows.push((c.time, as_row(c.values)))
        } else {
            c.rows
        },
    }
}

/// The collector `c` after it has taken the differences one by one; `had`
/// says that it had taken differences before.
pub open spec fn continued(c: Collector, had: bool, diffs: Seq<Difference>) -> Collector
    decreases diffs.len(),
{
    if diffs.len() == 0 {
        c
    } else {
        taken(continued(c, had, diffs.drop_last()), !had && diffs.len() == 1, diffs.last())
    }
}

/// The collector `c` can take the differences: each names one of its
/// columns and leaves the count of that column within what a count can hold.
pub open spec fn can_continue(c: Collector, had: bool, diffs: Seq<Difference>) -> bool
    decreases diffs.len(),
{
    if diffs.len() == 0 {
        true
    } else {
        let column = diffs.last().query_id.0 as int;
        &&& can_continue(c, had, diffs.drop_last())
        &&& column < c.values.len()
        &&& 0 <= continued(c, had, diffs).values[column] <= u32::MAX
    }
}

/// The collector of `width` columns after it has taken the differences one
/// by one.
pub open spec fn collected(width: nat, diffs: Seq<Difference>) -> Collector {
    continued(begun(width), false, diffs)
}

/// Each difference names one of the `width` columns and leaves its count
/// within what a count can hold.
pub open spec fn can_take(width: nat, diffs: Seq<Difference>) -> bool {
    can_continue(begun(width), false, diffs)
}

/// The rows once nothing more is to come: the counts as they are now make a
/// last row if they differ from the row before or, without a row before,
/// from zero.
pub open spec fn closed(width: nat, c: Collector) -> Seq<(DateTime, Seq<u32>)> {
    let last = as_row(c.values);
    let before = if c.rows.len() > 0 {
        c.rows.last().1
    } else {
        Seq::new(width, |i: int| 0u32)
    };
    if last != before {
        c.rows.push((c.time, last))
    } else {
        c.rows
    }
}

proof fn lemma_continued_width(c: Collector, had: bool, diffs: Seq<Difference>)
    ensures
        continued(c, had, diffs).values.len() == c.values.len(),
    decreases diffs.len(),
{
    if diffs.len() > 0 {
        lemma_continued_width(c, had, diffs.drop_last());
    }
}

/// A collector that can take differences can take the first of them.
proof fn lemma_can_continue_prefix(c: Collector, had: bool, diffs: Seq<Difference>, k: int)
    requires
        can_continue(c, had, diffs),
        0 <= k <= diffs.len(),
    ensures
        can_continue(c, had, diffs.take(k)),
    decreases diffs.len(),
{
    if k < diffs.len() {
        lemma_can_continue_prefix(c, had, diffs.drop_last(), k);
        assert(diffs.drop_last().take(k) =~= diffs.take(k));
    } else {
        assert(diffs.take(k) =~= diffs);
    }
}

fn same_counts(a: &Vec<u32>, b: &[u32]) -> (same: bool)
    ensures
        same == (a@ == b@),
{
    if a.len() != b.len() {
        return false;
    }
    let n = a.len();
    let mut i: usize = 0;
    while i < n
        invariant
            n == a@.len(),
            n == b@.len(),
            i <= n,
            forall|k: int| 0 <= k < i ==> a@[k] == b@[k],
        decreases n - i,
    {
        if a[i] != b[i] {
            return false;
        }
        i += 1;
    }
    assert(a@ =~= b@);
    true
}

fn all_zero(a: &Vec<u32>) -> (zero: bool)
    ensures
        zero == (a@ == Seq::new(a@.len(), |i: int| 0u32)),
{
    let n = a.len();
    let mut i: usize = 0;
    while i < n
        invariant
            n == a@.len(),
            i <= n,
            forall|k: int| 0 <= k < i ==> a@[k] == 0u32,
        decreases n - i,
    {
        if a[i] != 0 {
            assert(Seq::new(a@.len(), |i: int| 0u32)[i as int] == 0u32);
            return false;
        }
        i += 1;
    }
    assert(a@ =~= Seq::new(a@.len(), |i: int| 0u32));
    true
}

/// Makes the matrix of a tally of `num_queries` queries from the differences
/// of its counts, which stand in the order of their instants: each instant
/// at which a count changes gets a row with the counts as they are from
/// then on.
pub fn collect(num_queries: usize, collection: &ResultCollection) -> (matrix: Matrix)
    requires
        can_take(num_queries as nat, collection@),
    ensures
        matrix.width() == num_queries,
        matrix@ == closed(num_queries as nat, collected(num_queries as nat, collection@)),
{
    let ghost width = num_queries as nat;
    let ghost diffs = collection@;
    let mut time = DateTime::minimum();
    let mut values: Vec<u32> = Vec::new();
    let mut c: usize = 0;
    while c < num_queries
        invariant
            c <= num_queries,
            values@.len() == c,
            forall|k: int| 0 <= k < c ==> values@[k] == 0u32,
        decreases num_queries - c,
    {
        values.push(0);
        c += 1;
    }
    let mut matrix = Matrix::new(num_queries);
    let n = collection.len();
    let mut i: usize = 0;
    proof {
        assert(diffs.take(0) =~= Seq::<Difference>::empty());
        assert(values@ =~= as_row(begun(width).values));
        assert(matrix@ =~= begun(width).rows);
    }
    while i < n
        invariant
            n == diffs.len(),
            diffs == collection@,
            width == num_queries,
            i <= n,
            can_take(width, diffs),
            values@.len() == width,
            matrix.width() == num_queries,
            time == collected(width, diffs.take(i as int)).time,
            matrix@ == collected(width, diffs.take(i as int)).rows,
            values@ == as_row(collected(width, diffs.take(i as int)).values),
            forall|k: int|
                0 <= k < width ==> 0 <= #[trigger] collected(
                    width,
                    diffs.take(i as int),
                ).values[k] <= u32::MAX,
        decreases n - i,
    {
        let d = collection.get(i);
        let ghost before = collected(width, diffs.take(i as int));
        let ghost after = collected(width, diffs.take(i as int + 1));
        proof {
            assert(diffs.take(i as int + 1).drop_last() =~= diffs.take(i as int));
            assert(diffs.take(i as int + 1).last() == d);
            assert(after == taken(before, i == 0, d));
            lemma_continued_width(begun(width), false, diffs.take(i as int));
            lemma_can_continue_prefix(begun(width), false, diffs, i as int + 1);
            assert(d.query_id.0 < width);
        }
        if time.lt(d.timestamp) {
            if i > 0 {
                matrix.push(time, vstd::slice::slice_to_vec(values.as_slice()));
            }
            time = d.timestamp;
        }
        let column = d.query_id.0 as usize;
        let old_value = values[column];
        proof {
            assert(values@[column as int] == before.values[column as int] as u32);
            assert(0 <= before.values[column as int] <= u32::MAX);
            assert(0 <= after.values[column as int] <= u32::MAX);
        }
        let new_value: i64 = old_value as i64 + d.diff;
        values.set(column, new_value as u32);
        proof {
            assert(values@ =~= as_row(after.values));
            assert forall|k: int| 0 <= k < width implies 0 <= #[trigger] after.values[k]
                <= u32::MAX by {
                if k != column {
                    assert(after.values[k] == before.values[k]);
                }
            }
        }
        i += 1;
    }
    proof {
        assert(diffs.take(n as int) =~= diffs);
    }
    let differs = if matrix.len() > 0 {
        let (_, last) = matrix.row(matrix.len() - 1);
        !same_counts(&values, last.values())
    } else {
        !all_zero(&values)
    };
    if differs {
        matrix.push(time, values);
    }
    matrix
}

/// The differences by which the counts `after` differ from the counts
/// `before` in the first `upto` columns, at the instant `t`.
pub open spec fn changes(before: Seq<u32>, after: Seq<u32>, t: DateTime, upto: nat) -> Seq<
    Difference,
>
    decreases upto,
{
    if upto == 0 {
        Seq::empty()
    } else {
        let rest = changes(before, after, t, (upto - 1) as nat);
        let column = upto - 1;
        if before[column] != after[column] {
            rest.push(
                Difference {
                    query_id: QueryId(column as u8),
                    timestamp: t,
                    diff: (after[column] - before[column]) as i64,
                },
            )
        } else {
            rest
        }
    }
}

/// The differences that lead from counts of zero to the first row and from
/// each row to the next.
pub open spec fn differences(width: nat, rows: Seq<(DateTime, Seq<u32>)>) -> Seq<Difference>
    decreases rows.len(),
{
    if rows.len() == 0 {
        Seq::empty()
    } else {
        differences(width, rows.drop_last()) + changes(
            last_values(rows.drop_last(), width),
            rows.last().1,
            rows.last().0,
            width,
        )
    }
}

/// The rows are those of a tally of `width` queries: their instants begin
/// at the epoch or later and increase, and each row differs from the row
/// before it, the first from counts of zero.
pub open spec fn is_tally(width: nat, rows: Seq<(DateTime, Seq<u32>)>) -> bool {
    &&& width <= 256
    &&& forall|i: int| 0 <= i < rows.len() ==> (#[trigger] rows[i]).1.len() == width
    &&& forall|i: int|
        0 <= i < rows.len() ==> (DateTime { secs: 0, nanos: 0 }).spec_le((#[trigger] rows[i]).0)
    &&& forall|i: int, j: int|
        0 <= i < j < rows.len() ==> (#[trigger] rows[i]).0.spec_lt((#[trigger] rows[j]).0)
    &&& forall|i: int|
        0 <= i < rows.len() ==> (#[trigger] rows[i]).1 != last_values(rows.take(i), width)
}

proof fn lemma_continued_concat(c: Collector, had: bool, a: Seq<Difference>, b: Seq<Difference>)
    ensures
        continued(c, had, a + b) == continued(continued(c, had, a), had || a.len() > 0, b),
        can_continue(c, had, a + b) == (can_continue(c, had, a) && can_continue(
            continued(c, had, a),
            had || a.len() > 0,
            b,
        )),
    decreases b.len(),
{
    if b.len() == 0 {
        assert(a + b =~= a);
    } else {
        lemma_continued_concat(c, had, a, b.drop_last());
        lemma_continued_width(c, had, a);
        assert((a + b).drop_last() =~= a + b.drop_last());
        assert((a + b).last() == b.last());
    }
}

/// What taking the changes of an instant does to a collector whose counts
/// are the counts before.
proof fn lemma_changes(
    c: Collector,
    had: bool,
    before: Seq<u32>,
    after: Seq<u32>,
    t: DateTime,
    k: nat,
)
    requires
        k <= c.values.len(),
        c.values.len() <= 256,
        before.len() == c.values.len(),
        after.len() == c.values.len(),
        forall|j: int| 0 <= j < c.values.len() ==> c.values[j] == before[j],
        had ==> c.time.spec_lt(t),
        !had ==> c.time.spec_le(t),
    ensures
        ({
            let ch = changes(before, after, t, k);
            let r = continued(c, had, ch);
            &&& can_continue(c, had, ch)
            &&& r.values.len() == c.values.len()
            &&& forall|j: int| 0 <= j < k ==> r.values[j] == after[j]
            &&& forall|j: int| k <= j < c.values.len() ==> r.values[j] == before[j]
            &&& ch.len() == 0 ==> r == c
            &&& ch.len() == 0 <==> forall|j: int| 0 <= j < k ==> before[j] == after[j]
            &&& ch.len() > 0 ==> r.time == t && r.rows == if had {
                c.rows.push((c.time, as_row(c.values)))
            } else {
                c.rows
            }
        }),
    decreases k,
{
    if k > 0 {
        let rest = changes(before, after, t, (k - 1) as nat);
        let ch = changes(before, after, t, k);
        let column = k - 1;
        lemma_changes(c, had, before, after, t, (k - 1) as nat);
        let r0 = continued(c, had, rest);
        if before[column] != after[column] {
            let d = Difference {
                query_id: QueryId(column as u8),
                timestamp: t,
                diff: (after[column] - before[column]) as i64,
            };
            assert(ch == rest.push(d));
            assert(ch.drop_last() =~= rest);
            assert(ch.last() == d);
            let r = continued(c, had, ch);
            assert(r == taken(r0, !had && ch.len() == 1, d));
            assert(d.query_id.0 as int == column);
            assert(r0.values[column] == before[column]);
            assert(r.values[column] == after[column]);
            assert(before[column] != after[column]);
            if rest.len() == 0 {
                assert(r0 == c);
                crate::timestamp::lemma_time_order_total(c.time, t);
            }
        } else {
            assert(ch == rest);
        }
    }
}

proof fn lemma_is_tally_prefix(width: nat, rows: Seq<(DateTime, Seq<u32>)>)
    requires
        is_tally(width, rows),
        rows.len() > 0,
    ensures
        is_tally(width, rows.drop_last()),
        rows.last().1 != last_values(rows.drop_last(), width),
{
    let shorter = rows.drop_last();
    assert forall|i: int| 0 <= i < shorter.len() implies (#[trigger] shorter[i]).1 != last_values(
        shorter.take(i),
        width,
    ) by {
        assert(shorter[i] == rows[i]);
        assert(shorter.take(i) =~= rows.take(i));
    }
    assert(rows.take(rows.len() - 1) =~= shorter);
    assert(rows[rows.len() - 1].1 != last_values(rows.take(rows.len() - 1), width));
    assert forall|i: int, j: int| 0 <= i < j < shorter.len() implies (#[trigger] shorter[i]).0.spec_lt(
        (#[trigger] shorter[j]).0,
    ) by {
        assert(shorter[i] == rows[i] && shorter[j] == rows[j]);
    }
    assert forall|i: int| 0 <= i < shorter.len() implies (#[trigger] shorter[i]).1.len() == width && (
    DateTime { secs: 0, nanos: 0 }).spec_le(shorter[i].0) by {
        assert(shorter[i] == rows[i]);
    }
}

/// Where the collector stands after the differences of a tally's rows: at
/// the last row, which is still open, with the rows before it complete.
proof fn lemma_collector_at_last_row(width: nat, rows: Seq<(DateTime, Seq<u32>)>)
    requires
        is_tally(width, rows),
    ensures
        ({
            let d = differences(width, rows);
            let c = collected(width, d);
            &&& can_take(width, d)
            &&& c.values.len() == width
            &&& (d.len() > 0) == (rows.len() > 0)
            &&& rows.len() == 0 ==> c == begun(width)
            &&& rows.len() > 0 ==> c.time == rows.last().0 && c.rows == rows.drop_last()
                && forall|j: int| 0 <= j < width ==> c.values[j] == rows.last().1[j]
        }),
    decreases rows.len(),
{
    if rows.len() > 0 {
        let shorter = rows.drop_last();
        let last = rows.last();
        lemma_is_tally_prefix(width, rows);
        lemma_collector_at_last_row(width, shorter);
        let d0 = differences(width, shorter);
        let c0 = collected(width, d0);
        let had = d0.len() > 0;
        let prev = last_values(shorter, width);
        let ch = changes(prev, last.1, last.0, width);
        assert(last == rows[rows.len() - 1]);
        if shorter.len() > 0 {
            assert(shorter.last() == rows[rows.len() - 2]);
            assert(rows[rows.len() - 2].0.spec_lt(rows[rows.len() - 1].0));
        }
        lemma_changes(c0, had, prev, last.1, last.0, width);
        lemma_continued_concat(begun(width), false, d0, ch);
        if ch.len() == 0 {
            assert(prev =~= last.1);
        }
        let c = collected(width, d0 + ch);
        if had {
            assert(as_row(c0.values) =~= shorter.last().1);
            assert(shorter.drop_last().push(shorter.last()) =~= shorter);
        } else {
            assert(shorter =~= Seq::empty());
        }
    }
}

/// To collect the differences between the rows of a tally is to get the
/// rows back.
pub proof fn law_collecting_differences_gives_rows(width: nat, rows: Seq<(DateTime, Seq<u32>)>)
    requires
        is_tally(width, rows),
    ensures
        can_take(width, differences(width, rows)),
        closed(width, collected(width, differences(width, rows))) == rows,
{
    lemma_collector_at_last_row(width, rows);
    let c = collected(width, differences(width, rows));
    if rows.len() == 0 {
        assert(as_row(c.values) =~= Seq::new(width, |i: int| 0u32));
        assert(c.rows =~= rows);
    } else {
        lemma_is_tally_prefix(width, rows);
        assert(rows.last() == rows[rows.len() - 1]);
        assert(as_row(c.values) =~= rows.last().1);
        assert(rows.drop_last().push(rows.last()) =~= rows);
    }
}

} // verus!
