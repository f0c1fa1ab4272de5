//! The byte ranges that a file is fetched in, and which of them are there already.

use vstd::arithmetic::div_mod::*;
use vstd::arithmetic::mul::*;
use vstd::prelude::*;

verus! {

pub const MIN_CHUNK: u64 = 8 * 1024 * 1024;

pub const MAX_CHUNK: u64 = 128 * 1024 * 1024;

pub const TARGET_CHUNKS: u64 = 24;

/// The bytes of a file from `start` to `end`, both of them included.
#[derive(Clone, Copy, Debug, PartialEq, Eq, PartialOrd, Ord, Structural)]
pub struct ByteRange {
    pub start: u64,
    pub end: u64,
}

/// The size of all but the last range of a file: a fixed share of the file, within limits.
pub open spec fn chunk_size(size: u64) -> u64 {
    let share = size / TARGET_CHUNKS;
    if share < MIN_CHUNK {
        MIN_CHUNK
    } else if share > MAX_CHUNK {
        MAX_CHUNK
    } else {
        share
    }
}

/// How many ranges a file is fetched in.
pub open spec fn chunk_count(size: u64) -> nat {
    if size == 0 {
        0
    } else {
        ((size - 1) / chunk_size(size) as int + 1) as nat
    }
}

/// The `i`th range of a file.
pub open spec fn planned_range(size: u64, i: int) -> ByteRange {
    let chunk = chunk_size(size);
    ByteRange {
        start: (i * chunk) as u64,
        end: if (i + 1) * chunk < size {
            ((i + 1) * chunk - 1) as u64
        } else {
            (size - 1) as u64
        },
    }
}

/// The ranges that a file of the given size is fetched in.
pub open spec fn planned(size: u64) -> Seq<ByteRange> {
    Seq::new(chunk_count(size), |i: int| planned_range(size, i))
}

/// The number of bytes in a range.
pub open spec fn range_len(range: ByteRange) -> int {
    range.end - range.start + 1
}

/// The number of bytes in some ranges.
pub open spec fn ranges_len(ranges: Seq<ByteRange>) -> int
    decreases ranges.len(),
{
    if ranges.len() == 0 {
        0
    } else {
        ranges_len(ranges.drop_last()) + range_len(ranges.last())
    }
}

/// `a` comes before `b`: by start, and then by end.
pub open spec fn range_less(a: ByteRange, b: ByteRange) -> bool {
    a.start < b.start || (a.start == b.start && a.end < b.end)
}

/// The ranges stand in order, each of them once.
pub open spec fn ascending(ranges: Seq<ByteRange>) -> bool {
    forall|i: int, j: int|
        0 <= i < j < ranges.len() ==> range_less(#[trigger] ranges[i], #[trigger] ranges[j])
}

/// The ranges that a file of the given size is fetched in.
pub fn chunk_ranges(size: u64) -> (ranges: Vec<ByteRange>)
    ensures
        ranges@ == planned(size),
{
    let mut ranges: Vec<ByteRange> = Vec::new();
    if size == 0 {
        assert(ranges@ =~= planned(size));
        return ranges;
    }
    let share = size / TARGET_CHUNKS;
    let chunk = if share < MIN_CHUNK {
        MIN_CHUNK
    } else if share > MAX_CHUNK {
        MAX_CHUNK
    } else {
        share
    };
    let mut start: u64 = 0;
    assert(0 * chunk == 0);
    loop
        invariant
            size > 0,
            chunk == chunk_size(size),
            chunk > 0,
            start < size,
            start == ranges.len() * chunk,
            forall|i: int|
                0 <= i < ranges.len() ==> #[trigger] ranges@[i] == planned_range(size, i),
        decreases size - start,
    {
        let ghost i = ranges.len() as int;
        assert((i + 1) * chunk == start + chunk) by (nonlinear_arith)
            requires
                start == i * chunk,
        ;
        if size - start <= chunk {
            ranges.push(ByteRange { start, end: size - 1 });
            proof {
                assert((size - 1) / chunk as int == i) by {
                    lemma_fundamental_div_mod_converse(
                        size - 1,
                        chunk as int,
                        i,
                        size - 1 - start,
                    );
                }
                assert(ranges@ =~= planned(size));
            }
            return ranges;
        }
        ranges.push(ByteRange { start, end: start + chunk - 1 });
        start += chunk;
    }
}

/// The planned ranges of a file start with its first byte, end with its last one, and follow
/// each other without gap or overlap; none is empty and none is larger than the chunk size.
pub proof fn law_ranges_cover_exactly(size: u64)
    requires
        size > 0,
    ensures
        planned(size).len() > 0,
        planned(size)[0].start == 0,
        planned(size).last().end == size - 1,
        forall|i: int|
            0 <= i < planned(size).len() - 1 ==> #[trigger] planned(size)[i].end + 1 == planned(
                size,
            )[i + 1].start,
        forall|i: int|
            0 <= i < planned(size).len() ==> 0 < range_len(#[trigger] planned(size)[i])
                <= chunk_size(size),
{
    let chunk = chunk_size(size) as int;
    let n = chunk_count(size);
    lemma_fundamental_div_mod(size - 1, chunk);
    assert((n - 1) * chunk <= size - 1 < n * chunk) by (nonlinear_arith)
        requires
            size - 1 == chunk * ((size - 1) / chunk) + (size - 1) % chunk,
            0 <= (size - 1) % chunk < chunk,
            n == (size - 1) / chunk + 1,
    ;
    assert(n > 0) by {
        lemma_div_pos_is_pos(size - 1, chunk);
    }
    assert forall|i: int| 0 <= i < n implies 0 < range_len(#[trigger] planned(size)[i]) <= chunk
        && planned(size)[i].start == i * chunk && (i < n - 1 ==> planned(size)[i].end == (i + 1)
        * chunk - 1) && (i == n - 1 ==> planned(size)[i].end == size - 1) by {
        assert(0 <= i * chunk <= (n - 1) * chunk) by (nonlinear_arith)
            requires
                0 <= i <= n - 1,
                chunk > 0,
        ;
        assert((i + 1) * chunk == i * chunk + chunk) by (nonlinear_arith);
        if i < n - 1 {
            assert((i + 1) * chunk <= (n - 1) * chunk) by (nonlinear_arith)
                requires
                    i + 1 <= n - 1,
                    chunk > 0,
            ;
        } else {
            assert((i + 1) * chunk == n * chunk) by (nonlinear_arith)
                requires
                    i + 1 == n,
            ;
        }
    }
    assert(planned(size)[0].start == 0 * chunk);
    assert forall|i: int| 0 <= i < planned(size).len() - 1 implies #[trigger] planned(size)[i].end
        + 1 == planned(size)[i + 1].start by {
        assert(range_len(planned(size)[i + 1]) > 0);
    }
}

/// The planned ranges stand in order.
pub proof fn lemma_planned_ascending(size: u64)
    ensures
        ascending(planned(size)),
{
    let ranges = planned(size);
    if size > 0 {
        law_ranges_cover_exactly(size);
        assert forall|i: int, j: int| 0 <= i < j < ranges.len() implies range_less(
            #[trigger] ranges[i],
            #[trigger] ranges[j],
        ) by {
            lemma_planned_starts(size, i, j);
        }
    }
}

/// A later range starts behind the end of an earlier one.
proof fn lemma_planned_starts(size: u64, i: int, j: int)
    requires
        size > 0,
        0 <= i < j < planned(size).len(),
    ensures
        planned(size)[i].end < planned(size)[j].start,
        planned(size)[i].start <= planned(size)[i].end,
    decreases j - i,
{
    law_ranges_cover_exactly(size);
    assert(range_len(planned(size)[i]) > 0);
    assert(planned(size)[j - 1].end + 1 == planned(size)[j - 1 + 1].start);
    if i < j - 1 {
        lemma_planned_starts(size, i, j - 1);
        assert(range_len(planned(size)[j - 1]) > 0);
    }
}

/// The planned ranges hold as many bytes as the file.
pub proof fn law_ranges_sum_to_size(size: u64)
    ensures
        ranges_len(planned(size)) == size,
{
    if size > 0 {
        law_ranges_cover_exactly(size);
        lemma_sum_up_to(size, planned(size).len() as int);
        assert(planned(size).take(planned(size).len() as int) =~= planned(size));
    }
}

proof fn lemma_sum_up_to(size: u64, n: int)
    requires
        size > 0,
        0 < n <= planned(size).len(),
    ensures
        ranges_len(planned(size).take(n)) == planned(size)[n - 1].end + 1,
    decreases n,
{
    law_ranges_cover_exactly(size);
    let ranges = planned(size);
    assert(ranges.take(n).drop_last() =~= ranges.take(n - 1));
    assert(ranges.take(n).last() == ranges[n - 1]);
    if n > 1 {
        lemma_sum_up_to(size, n - 1);
        assert(ranges[n - 2].end + 1 == ranges[n - 2 + 1].start);
    } else {
        assert(ranges_len(ranges.take(0)) == 0);
    }
}

/// Every byte of the file lies in one planned range, and in no second one.
pub proof fn law_every_byte_once(size: u64, byte: u64)
    requires
        byte < size,
    ensures
        exists|i: int|
            0 <= i < planned(size).len() && (#[trigger] planned(size)[i]).start <= byte
                <= planned(size)[i].end,
        forall|i: int, j: int|
            0 <= i < planned(size).len() && 0 <= j < planned(size).len() && (#[trigger] planned(
                size,
            )[i]).start <= byte <= planned(size)[i].end && (#[trigger] planned(size)[j]).start
                <= byte <= planned(size)[j].end ==> i == j,
{
    law_ranges_cover_exactly(size);
    let i = lemma_range_of_byte(size, byte, planned(size).len() as int);
    assert(planned(size)[i].start <= byte <= planned(size)[i].end);
    assert forall|i: int, j: int|
        0 <= i < planned(size).len() && 0 <= j < planned(size).len() && (#[trigger] planned(
            size,
        )[i]).start <= byte <= planned(size)[i].end && (#[trigger] planned(size)[j]).start <= byte
            <= planned(size)[j].end implies i == j by {
        if i < j {
            lemma_planned_starts(size, i, j);
        } else if j < i {
            lemma_planned_starts(size, j, i);
        }
    }
}

proof fn lemma_range_of_byte(size: u64, byte: u64, n: int) -> (i: int)
    requires
        size > 0,
        0 < n <= planned(size).len(),
        byte <= planned(size)[n - 1].end,
    ensures
        0 <= i < n,
        planned(size)[i].start <= byte <= planned(size)[i].end,
    decreases n,
{
    law_ranges_cover_exactly(size);
    if planned(size)[n - 1].start <= byte {
        n - 1
    } else {
        assert(planned(size)[n - 2].end + 1 == planned(size)[n - 2 + 1].start);
        lemma_range_of_byte(size, byte, n - 1)
    }
}

/// A file that is not larger than the target number of the largest chunks is fetched in at most
/// one range more than that number.
pub proof fn law_few_ranges(size: u64)
    requires
        size <= TARGET_CHUNKS * MAX_CHUNK,
    ensures
        planned(size).len() <= TARGET_CHUNKS + 1,
{
    if size > 0 {
        let chunk = chunk_size(size) as int;
        let q = (size / TARGET_CHUNKS) as int;
        assert(chunk >= q && chunk >= MIN_CHUNK);
        assert(size - 1 < 25 * chunk);
        lemma_div_is_ordered(size - 1, 25 * chunk - 1, chunk);
        assert((25 * chunk - 1) / chunk == 24) by {
            lemma_fundamental_div_mod_converse(25 * chunk - 1, chunk, 24, chunk - 1);
        }
    }
}

/// There are no more ranges than bytes, and no more pending ones than planned ones.
pub proof fn lemma_range_count(total: u64, completed: Seq<ByteRange>)
    ensures
        pending(total, completed).len() <= planned(total).len() <= total,
{
    planned(total).lemma_filter_len(outside(completed));
    if total > 0 {
        lemma_div_nonincreasing(total - 1, chunk_size(total) as int);
        lemma_div_pos_is_pos(total - 1, chunk_size(total) as int);
    }
}

/// A set of byte ranges, kept in order.
#[derive(Debug)]
pub struct RangeSet {
    ranges: Vec<ByteRange>,
}

impl RangeSet {
    /// The ranges of the set in order.
    pub closed spec fn in_order(&self) -> Seq<ByteRange> {
        self.ranges@
    }

    pub open spec fn well_formed(&self) -> bool {
        ascending(self.in_order())
    }

    /// A set without ranges.
    pub fn new() -> (set: RangeSet)
        ensures
            set.well_formed(),
            set.in_order() == Seq::<ByteRange>::empty(),
    {
        RangeSet { ranges: Vec::new() }
    }

    /// The ranges of the set in order.
    pub fn ranges(&self) -> (ranges: &Vec<ByteRange>)
        ensures
            ranges@ == self.in_order(),
    {
        &self.ranges
    }

    pub fn is_empty(&self) -> (empty: bool)
        ensures
            empty == (self.in_order().len() == 0),
    {
        self.ranges.len() == 0
    }

    /// The range is in the set.
    pub fn contains(&self, range: ByteRange) -> (found: bool)
        ensures
            found == self.in_order().contains(range),
    {
        has_range(&self.ranges, range)
    }

    /// Adds a range. It is there once, however often it is added.
    pub fn insert(&mut self, range: ByteRange)
        requires
            old(self).well_formed(),
        ensures
            final(self).well_formed(),
            final(self).in_order().to_set() == old(self).in_order().to_set().insert(range),
    {
        let ghost before = self.ranges@;
        let mut at: usize = 0;
        while at < self.ranges.len() && less(self.ranges[at], range)
            invariant
                self.ranges@ == before,
                at <= self.ranges.len(),
                forall|k: int| 0 <= k < at ==> range_less(#[trigger] before[k], range),
            decreases self.ranges.len() - at,
        {
            at += 1;
        }
        if at < self.ranges.len() && self.ranges[at] == range {
            assert(before[at as int] == range);
            assert(before.to_set().insert(range) =~= before.to_set());
            return ;
        }
        self.ranges.insert(at, range);
        proof {
            let after = self.ranges@;
            assert forall|i: int, j: int| 0 <= i < j < after.len() implies range_less(
                #[trigger] after[i],
                #[trigger] after[j],
            ) by {
                if j == at {
                    assert(after[i] == before[i]);
                } else if i == at {
                    assert(after[j] == before[j - 1]);
                    assert(range_less(range, before[at as int]));
                    if j - 1 > at {
                        assert(range_less(before[at as int], before[j - 1]));
                    }
                } else {
                    let a = if i < at {
                        i
                    } else {
                        i - 1
                    };
                    let b = if j < at {
                        j
                    } else {
                        j - 1
                    };
                    assert(after[i] == before[a] && after[j] == before[b]);
                }
            }
            assert forall|r: ByteRange| #[trigger] after.to_set().contains(r)
                == before.to_set().insert(range).contains(r) by {
                if before.contains(r) {
                    let k = choose|k: int| 0 <= k < before.len() && before[k] == r;
                    if k < at {
                        assert(after[k] == r);
                    } else {
                        assert(after[k + 1] == r);
                    }
                }
                if r == range {
                    assert(after[at as int] == r);
                }
                if after.contains(r) && r != range {
                    let k = choose|k: int| 0 <= k < after.len() && after[k] == r;
                    if k < at {
                        assert(before[k] == r);
                    } else {
                        assert(before[k - 1] == r);
                    }
                }
            }
            assert(after.to_set() =~= before.to_set().insert(range));
        }
    }

    /// The set of the given ranges.
    pub fn from_ranges(ranges: &Vec<ByteRange>) -> (set: RangeSet)
        ensures
            set.well_formed(),
            set.in_order().to_set() == ranges@.to_set(),
    {
        let mut set = RangeSet::new();
        let mut i: usize = 0;
        assert(set.in_order().to_set() =~= ranges@.take(0).to_set());
        while i < ranges.len()
            invariant
                i <= ranges.len(),
                set.well_formed(),
                set.in_order().to_set() == ranges@.take(i as int).to_set(),
            decreases ranges.len() - i,
        {
            set.insert(ranges[i]);
            assert(ranges@.take(i + 1) =~= ranges@.take(i as int).push(ranges@[i as int]));
            proof {
                lemma_push_to_set(ranges@.take(i as int), ranges@[i as int]);
            }
            i += 1;
        }
        assert(ranges@.take(ranges.len() as int) =~= ranges@);
        set
    }
}

pub proof fn lemma_push_to_set(ranges: Seq<ByteRange>, range: ByteRange)
    ensures
        ranges.push(range).to_set() == ranges.to_set().insert(range),
{
    assert forall|r: ByteRange| #[trigger] ranges.push(range).to_set().contains(r)
        == ranges.to_set().insert(range).contains(r) by {
        if ranges.contains(r) {
            let k = choose|k: int| 0 <= k < ranges.len() && ranges[k] == r;
            assert(ranges.push(range)[k] == r);
        }
        if r == range {
            assert(ranges.push(range)[ranges.len() as int] == r);
        }
    }
    assert(ranges.push(range).to_set() =~= ranges.to_set().insert(range));
}

fn less(a: ByteRange, b: ByteRange) -> (r: bool)
    ensures
        r == range_less(a, b),
{
    a.start < b.start || (a.start == b.start && a.end < b.end)
}

fn has_range(ranges: &Vec<ByteRange>, range: ByteRange) -> (found: bool)
    ensures
        found == ranges@.contains(range),
{
    let mut i: usize = 0;
    while i < ranges.len()
        invariant
            i <= ranges.len(),
            forall|k: int| 0 <= k < i ==> ranges@[k] != range,
        decreases ranges.len() - i,
    {
        if ranges[i] == range {
            assert(ranges@[i as int] == range);
            return true;
        }
        i += 1;
    }
    false
}

/// A recorded list of ranges can be resumed from: the partial file has its full length, and
/// every recorded range is one of those planned for that length.
pub open spec fn resumable(partial_len: Option<u64>, recorded: Seq<ByteRange>, total: u64) -> bool {
    &&& partial_len == Some(total)
    &&& forall|i: int| 0 <= i < recorded.len() ==> planned(total).contains(#[trigger] recorded[i])
}

/// What an earlier run left of a file.
#[derive(Debug)]
pub struct Resume {
    /// The ranges that need not be fetched again.
    pub completed: RangeSet,
    /// What was recorded is of no use and is to be removed.
    pub discard: bool,
}

/// Decides what can be kept of an earlier run. `partial_len` is the length of the partial file,
/// and `recorded` the recorded ranges; each is `None` where it is not there or cannot be read.
/// Recorded ranges count only together with a partial file of full length, and only where all of
/// them are planned ranges; otherwise the record is discarded and the file starts from nothing.
pub fn read_completed(
    partial_len: Option<u64>,
    recorded: Option<Vec<ByteRange>>,
    total: u64,
) -> (resume: Resume)
    ensures
        resume.completed.well_formed(),
        if recorded is Some && resumable(partial_len, recorded->0@, total) {
            &&& resume.completed.in_order().to_set() == recorded->0@.to_set()
            &&& !resume.discard
        } else {
            &&& resume.completed.in_order() == Seq::<ByteRange>::empty()
            &&& resume.discard
        },
{
    let nothing = Resume { completed: RangeSet::new(), discard: true };
    let matches = match partial_len {
        Some(len) => len == total,
        None => false,
    };
    match recorded {
        Some(ranges) => {
            let plan = chunk_ranges(total);
            let mut i: usize = 0;
            while i < ranges.len()
                invariant
                    plan@ == planned(total),
                    i <= ranges.len(),
                    forall|k: int| 0 <= k < i ==> planned(total).contains(#[trigger] ranges@[k]),
                    nothing.completed.well_formed(),
                    nothing.completed.in_order() == Seq::<ByteRange>::empty(),
                    nothing.discard,
                    recorded == Some(ranges),
                decreases ranges.len() - i,
            {
                if !has_range(&plan, ranges[i]) {
                    assert(!planned(total).contains(ranges@[i as int]));
                    return nothing;
                }
                i += 1;
            }
            if matches {
                Resume { completed: RangeSet::from_ranges(&ranges), discard: false }
            } else {
                nothing
            }
        },
        None => nothing,
    }
}

pub open spec fn within(ranges: Seq<ByteRange>) -> spec_fn(ByteRange) -> bool {
    |range: ByteRange| ranges.contains(range)
}

pub open spec fn outside(ranges: Seq<ByteRange>) -> spec_fn(ByteRange) -> bool {
    |range: ByteRange| !ranges.contains(range)
}

/// The planned ranges that are still to be fetched, in order.
pub open spec fn pending(total: u64, completed: Seq<ByteRange>) -> Seq<ByteRange> {
    planned(total).filter(outside(completed))
}

/// All of the ranges are planned for a file of the given size.
pub open spec fn all_planned(total: u64, ranges: Seq<ByteRange>) -> bool {
    forall|i: int| 0 <= i < ranges.len() ==> planned(total).contains(#[trigger] ranges[i])
}

/// The planned ranges that are not in the set yet.
pub fn pending_ranges(total: u64, completed: &RangeSet) -> (ranges: Vec<ByteRange>)
    ensures
        ranges@ == pending(total, completed.in_order()),
{
    let plan = chunk_ranges(total);
    let mut ranges: Vec<ByteRange> = Vec::new();
    let mut i: usize = 0;
    let ghost p = outside(completed.in_order());
    reveal(Seq::filter);
    assert(ranges@ =~= plan@.take(0).filter(p));
    while i < plan.len()
        invariant
            p == outside(completed.in_order()),
            i <= plan.len(),
            ranges@ == plan@.take(i as int).filter(p),
        decreases plan.len() - i,
    {
        reveal(Seq::filter);
        assert(plan@.take(i + 1).drop_last() =~= plan@.take(i as int));
        if !completed.contains(plan[i]) {
            ranges.push(plan[i]);
        }
        i += 1;
    }
    assert(plan@.take(plan.len() as int) =~= plan@);
    ranges
}

proof fn lemma_ascending_filter(ranges: Seq<ByteRange>, p: spec_fn(ByteRange) -> bool)
    requires
        ascending(ranges),
    ensures
        ascending(ranges.filter(p)),
        forall|r: ByteRange|
            #[trigger] ranges.filter(p).contains(r) <==> ranges.contains(r) && p(r),
    decreases ranges.len(),
{
    reveal(Seq::filter);
    if ranges.len() > 0 {
        let front = ranges.drop_last();
        let last = ranges.last();
        let kept = front.filter(p);
        lemma_ascending_filter(front, p);
        assert forall|r: ByteRange| #[trigger] ranges.contains(r) <==> front.contains(r) || r
            == last by {
            if front.contains(r) {
                let k = choose|k: int| 0 <= k < front.len() && front[k] == r;
                assert(ranges[k] == r);
            }
            if r == last {
                assert(ranges[ranges.len() - 1] == r);
            }
            if ranges.contains(r) && r != last {
                let k = choose|k: int| 0 <= k < ranges.len() && ranges[k] == r;
                assert(front[k] == r);
            }
        }
        if p(last) {
            let after = kept.push(last);
            assert forall|i: int, j: int| 0 <= i < j < after.len() implies range_less(
                #[trigger] after[i],
                #[trigger] after[j],
            ) by {
                if j == kept.len() {
                    assert(kept.contains(kept[i]));
                    let k = choose|k: int| 0 <= k < front.len() && front[k] == kept[i];
                    assert(range_less(ranges[k], ranges[ranges.len() - 1]));
                }
            }
            assert forall|r: ByteRange| #[trigger] after.contains(r) <==> kept.contains(r) || r
                == last by {
                lemma_push_to_set(kept, last);
                assert(after.to_set().contains(r) == kept.to_set().insert(last).contains(r));
            }
        }
    }
}

/// Ranges in order are determined by the set of them.
pub proof fn lemma_ascending_unique(a: Seq<ByteRange>, b: Seq<ByteRange>)
    requires
        ascending(a),
        ascending(b),
        forall|r: ByteRange| #[trigger] a.contains(r) <==> b.contains(r),
    ensures
        a == b,
    decreases a.len(),
{
    if a.len() == 0 {
        if b.len() > 0 {
            assert(b.contains(b[0]) && !a.contains(b[0]));
        }
        assert(a =~= b);
    } else {
        assert(a.contains(a[0]));
        assert(b.len() > 0);
        let x = a.last();
        let y = b.last();
        assert(a.contains(a[a.len() - 1]) && b.contains(b[b.len() - 1]));
        assert(b.contains(x) && a.contains(y));
        let i = choose|i: int| 0 <= i < b.len() && b[i] == x;
        let j = choose|j: int| 0 <= j < a.len() && a[j] == y;
        if i < b.len() - 1 && j < a.len() - 1 {
            assert(range_less(b[i], b[b.len() - 1]));
            assert(range_less(a[j], a[a.len() - 1]));
        }
        assert(x == y);
        assert forall|r: ByteRange| #[trigger] a.drop_last().contains(r)
            <==> b.drop_last().contains(r) by {
            lemma_contains_but_last(a, r);
            lemma_contains_but_last(b, r);
            assert(a.contains(r) <==> b.contains(r));
        }
        lemma_ascending_unique(a.drop_last(), b.drop_last());
        assert(a.drop_last().push(x) =~= a);
        assert(b.drop_last().push(y) =~= b);
    }
}

proof fn lemma_contains_but_last(ranges: Seq<ByteRange>, r: ByteRange)
    requires
        ascending(ranges),
        ranges.len() > 0,
    ensures
        ranges.drop_last().contains(r) <==> ranges.contains(r) && r != ranges.last(),
{
    let front = ranges.drop_last();
    if front.contains(r) {
        let k = choose|k: int| 0 <= k < front.len() && front[k] == r;
        assert(ranges[k] == r);
        assert(range_less(ranges[k], ranges[ranges.len() - 1]));
    }
    if ranges.contains(r) && r != ranges.last() {
        let k = choose|k: int| 0 <= k < ranges.len() && ranges[k] == r;
        assert(front[k] == r);
    }
}

/// Planned ranges in order are those planned ranges that a list of the same ranges names.
pub proof fn lemma_kept_ranges(total: u64, kept: Seq<ByteRange>, named: Seq<ByteRange>)
    requires
        ascending(kept),
        all_planned(total, named),
        kept.to_set() == named.to_set(),
    ensures
        kept == planned(total).filter(within(named)),
        all_planned(total, kept),
{
    let plan = planned(total);
    lemma_planned_ascending(total);
    lemma_ascending_filter(plan, within(named));
    assert forall|r: ByteRange| #[trigger] kept.contains(r) <==> named.contains(r) by {
        assert(kept.to_set().contains(r) == kept.contains(r));
        assert(named.to_set().contains(r) == named.contains(r));
    }
    assert forall|r: ByteRange| #[trigger] named.contains(r) implies plan.contains(r) by {
        let k = choose|k: int| 0 <= k < named.len() && named[k] == r;
        assert(plan.contains(named[k]));
    }
    lemma_ascending_unique(kept, plan.filter(within(named)));
    assert forall|i: int| 0 <= i < kept.len() implies plan.contains(#[trigger] kept[i]) by {
        assert(kept.contains(kept[i]));
    }
}

/// The planned ranges that a list names are in order and planned.
pub proof fn lemma_kept_of_plan(total: u64, named: Seq<ByteRange>)
    ensures
        ascending(planned(total).filter(within(named))),
        all_planned(total, planned(total).filter(within(named))),
        forall|range: ByteRange|
            #[trigger] planned(total).filter(within(named)).contains(range) <==> planned(
                total,
            ).contains(range) && named.contains(range),
{
    let kept = planned(total).filter(within(named));
    lemma_planned_ascending(total);
    lemma_ascending_filter(planned(total), within(named));
    assert forall|i: int| 0 <= i < kept.len() implies planned(total).contains(
        #[trigger] kept[i],
    ) by {
        assert(kept.contains(kept[i]));
    }
}

/// Where nothing is completed, everything is pending.
pub proof fn lemma_nothing_completed(total: u64)
    ensures
        pending(total, Seq::empty()) == planned(total),
{
    lemma_outside_nothing(planned(total));
}

proof fn lemma_outside_nothing(ranges: Seq<ByteRange>)
    ensures
        ranges.filter(outside(Seq::empty())) == ranges,
    decreases ranges.len(),
{
    reveal(Seq::filter);
    if ranges.len() > 0 {
        lemma_outside_nothing(ranges.drop_last());
        assert(ranges.drop_last().push(ranges.last()) =~= ranges);
    }
}

/// The pending ranges are in order.
pub proof fn lemma_pending_ascending(total: u64, completed: Seq<ByteRange>)
    ensures
        ascending(pending(total, completed)),
{
    lemma_planned_ascending(total);
    lemma_ascending_filter(planned(total), outside(completed));
}

/// The pending ranges are the planned ones that are not completed.
pub proof fn lemma_pending_contains(total: u64, completed: Seq<ByteRange>)
    ensures
        forall|range: ByteRange| #[trigger]
            pending(total, completed).contains(range) <==> planned(total).contains(range)
                && !completed.contains(range),
{
    lemma_planned_ascending(total);
    lemma_ascending_filter(planned(total), outside(completed));
}

/// The ranges that are there and those that are pending are the planned ranges.
pub proof fn law_every_range_is_completed_or_pending(
    total: u64,
    completed: Seq<ByteRange>,
    range: ByteRange,
)
    requires
        all_planned(total, completed),
    ensures
        planned(total).contains(range) <==> completed.contains(range) || pending(
            total,
            completed,
        ).contains(range),
        !(completed.contains(range) && pending(total, completed).contains(range)),
{
    lemma_planned_ascending(total);
    lemma_ascending_filter(planned(total), outside(completed));
    assert(pending(total, completed).contains(range) <==> planned(total).contains(range)
        && !completed.contains(range));
    if completed.contains(range) {
        let k = choose|k: int| 0 <= k < completed.len() && completed[k] == range;
        assert(planned(total).contains(completed[k]));
    }
}

proof fn lemma_filter_splits_len(ranges: Seq<ByteRange>, set: Seq<ByteRange>)
    ensures
        ranges_len(ranges.filter(within(set))) + ranges_len(ranges.filter(outside(set)))
            == ranges_len(ranges),
    decreases ranges.len(),
{
    reveal(Seq::filter);
    if ranges.len() > 0 {
        lemma_filter_splits_len(ranges.drop_last(), set);
        let a = ranges.drop_last().filter(within(set));
        let b = ranges.drop_last().filter(outside(set));
        assert(a.push(ranges.last()).drop_last() =~= a);
        assert(b.push(ranges.last()).drop_last() =~= b);
    }
}

/// What is there and what is still to be fetched add up to the whole file.
pub proof fn law_completed_and_pending(total: u64, completed: Seq<ByteRange>)
    requires
        ascending(completed),
        all_planned(total, completed),
    ensures
        ranges_len(completed) + ranges_len(pending(total, completed)) == total,
        0 <= ranges_len(completed) <= total,
{
    let plan = planned(total);
    lemma_planned_ascending(total);
    lemma_ascending_filter(plan, within(completed));
    assert forall|r: ByteRange| #[trigger] completed.contains(r) <==> plan.filter(
        within(completed),
    ).contains(r) by {
        if completed.contains(r) {
            let k = choose|k: int| 0 <= k < completed.len() && completed[k] == r;
            assert(plan.contains(completed[k]));
        }
    }
    lemma_ascending_unique(completed, plan.filter(within(completed)));
    lemma_filter_splits_len(plan, completed);
    law_ranges_sum_to_size(total);
    lemma_ascending_filter(plan, outside(completed));
    lemma_planned_len_positive(total, pending(total, completed));
    lemma_planned_len_positive(total, completed);
}

proof fn lemma_planned_len_positive(total: u64, ranges: Seq<ByteRange>)
    requires
        forall|r: ByteRange| #[trigger] ranges.contains(r) ==> planned(total).contains(r),
    ensures
        ranges_len(ranges) >= 0,
    decreases ranges.len(),
{
    if ranges.len() > 0 {
        assert(ranges.contains(ranges[ranges.len() - 1]));
        let k = choose|k: int| 0 <= k < planned(total).len() && planned(total)[k] == ranges.last();
        law_ranges_cover_exactly(total);
        assert(range_len(planned(total)[k]) > 0);
        assert forall|r: ByteRange| #[trigger] ranges.drop_last().contains(r) implies planned(
            total,
        ).contains(r) by {
            let k = choose|k: int| 0 <= k < ranges.len() - 1 && ranges.drop_last()[k] == r;
            assert(ranges[k] == r);
            assert(ranges.contains(r));
        }
        lemma_planned_len_positive(total, ranges.drop_last());
    }
}

/// A completed range stays completed, and once every pending range is completed none is pending.
pub proof fn law_nothing_pending_when_all_completed(total: u64, completed: Seq<ByteRange>)
    ensures
        pending(total, completed).len() == 0 <==> (forall|i: int|
            0 <= i < planned(total).len() ==> completed.contains(#[trigger] planned(total)[i])),
{
    let plan = planned(total);
    lemma_planned_ascending(total);
    lemma_ascending_filter(plan, outside(completed));
    if pending(total, completed).len() > 0 {
        let r = pending(total, completed)[0];
        assert(pending(total, completed).contains(r));
        let k = choose|k: int| 0 <= k < plan.len() && plan[k] == r;
        assert(!completed.contains(plan[k]));
    } else {
        assert forall|i: int| 0 <= i < plan.len() implies completed.contains(
            #[trigger] plan[i],
        ) by {
            assert(plan.contains(plan[i]));
            if !completed.contains(plan[i]) {
                assert(pending(total, completed).contains(plan[i]));
            }
        }
    }
}

/// What was recorded of planned ranges is what a later run resumes with, as long as the partial
/// file keeps its length.
pub proof fn law_record_is_read_back(
    total: u64,
    completed: Seq<ByteRange>,
    read_back: Seq<ByteRange>,
)
    requires
        ascending(completed),
        all_planned(total, completed),
        ascending(read_back),
        read_back.to_set() == completed.to_set(),
    ensures
        resumable(Some(total), completed, total),
        read_back == completed,
{
    assert forall|r: ByteRange| #[trigger] read_back.contains(r) <==> completed.contains(r) by {
        assert(read_back.to_set().contains(r) == read_back.contains(r));
        assert(completed.to_set().contains(r) == completed.contains(r));
    }
    lemma_ascending_unique(read_back, completed);
}

/// The number of bytes in the completed ranges of a file.
pub fn completed_bytes(total: u64, completed: &RangeSet) -> (bytes: u64)
    requires
        completed.well_formed(),
        all_planned(total, completed.in_order()),
    ensures
        bytes == ranges_len(completed.in_order()),
        bytes <= total,
{
    let ghost all = completed.in_order();
    proof {
        law_completed_and_pending(total, all);
    }
    let ranges = completed.ranges();
    let mut bytes: u64 = 0;
    let mut i: usize = 0;
    while i < ranges.len()
        invariant
            ranges@ == all,
            all_planned(total, all),
            ranges_len(all) <= total,
            i <= ranges.len(),
            bytes == ranges_len(all.take(i as int)),
        decreases ranges.len() - i,
    {
        assert(all.take(i + 1).drop_last() =~= all.take(i as int));
        assert(all.take(i + 1).last() == all[i as int]);
        proof {
            lemma_len_grows(total, all, i + 1);
            assert(planned(total).contains(all[i as int]));
            let k = choose|k: int|
                0 <= k < planned(total).len() && planned(total)[k] == all[i as int];
            law_ranges_cover_exactly(total);
            assert(range_len(planned(total)[k]) > 0);
        }
        bytes += ranges[i].end - ranges[i].start + 1;
        i += 1;
    }
    assert(all.take(ranges.len() as int) =~= all);
    bytes
}

proof fn lemma_len_grows(total: u64, ranges: Seq<ByteRange>, n: int)
    requires
        0 <= n <= ranges.len(),
        all_planned(total, ranges),
    ensures
        ranges_len(ranges.take(n)) <= ranges_len(ranges),
    decreases ranges.len() - n,
{
    if n < ranges.len() {
        lemma_len_grows(total, ranges, n + 1);
        assert(ranges.take(n + 1).drop_last() =~= ranges.take(n));
        assert(planned(total).contains(ranges[n]));
        let k = choose|k: int| 0 <= k < planned(total).len() && planned(total)[k] == ranges[n];
        law_ranges_cover_exactly(total);
        assert(range_len(planned(total)[k]) > 0);
    } else {
        assert(ranges.take(n) =~= ranges);
    }
}

/// All ranges of a file but the last are a twenty-fourth of the file long, but at least 8 and at
/// most 128 MiB; the last one is not longer.
pub proof fn law_lengths_of_ranges(size: u64, i: int)
    requires
        0 <= i < planned(size).len(),
    ensures
        ({
            let share = (size / 24) as int;
            let length = if share < 8388608 {
                8388608int
            } else if share > 134217728 {
                134217728int
            } else {
                share
            };
            let range = planned(size)[i];
            &&& range.start <= range.end < size
            &&& i < planned(size).len() - 1 ==> range.end - range.start + 1 == length
            &&& i == planned(size).len() - 1 ==> 0 < range.end - range.start + 1 <= length
        }),
{
    law_ranges_cover_exactly(size);
    let chunk = chunk_size(size) as int;
    assert(0 < range_len(planned(size)[i]) <= chunk);
    let n = planned(size).len() as int;
    if i < n - 1 {
        lemma_planned_starts(size, i, n - 1);
        assert(range_len(planned(size)[n - 1]) > 0);
        lemma_fundamental_div_mod(size - 1, chunk);
        assert((i + 1) * chunk <= size - 1) by (nonlinear_arith)
            requires
                i + 1 <= (size - 1) / chunk,
                size - 1 == chunk * ((size - 1) / chunk) + (size - 1) % chunk,
                0 <= (size - 1) % chunk,
                chunk > 0,
        ;
        assert((i + 1) * chunk == i * chunk + chunk) by (nonlinear_arith);
        assert(0 <= i * chunk) by (nonlinear_arith)
            requires
                0 <= i,
                chunk > 0,
        ;
    }
}

/// Ranges in order do not repeat and come by where they start.
pub proof fn law_order_of_ranges(ranges: Seq<ByteRange>, i: int, j: int)
    requires
        ascending(ranges),
        0 <= i < j < ranges.len(),
    ensures
        ranges[i].start <= ranges[j].start,
        ranges[i].start == ranges[j].start ==> ranges[i].end < ranges[j].end,
        ranges[i] != ranges[j],
{
    assert(range_less(ranges[i], ranges[j]));
}

/// A record is resumed from exactly when the partial file is as long as the file and no range in
/// the record is a stranger to the plan.
pub proof fn law_resumed_iff_it_fits(
    partial_len: Option<u64>,
    recorded: Seq<ByteRange>,
    total: u64,
)
    ensures
        resumable(partial_len, recorded, total) <==> partial_len is Some && partial_len->0 == total
            && forall|range: ByteRange| #[trigger]
            recorded.contains(range) ==> planned(total).contains(range),
{
    if resumable(partial_len, recorded, total) {
        assert forall|range: ByteRange| #[trigger] recorded.contains(range) implies planned(
            total,
        ).contains(range) by {
            let k = choose|k: int| 0 <= k < recorded.len() && recorded[k] == range;
            assert(planned(total).contains(recorded[k]));
        }
    }
    if forall|range: ByteRange| #[trigger]
        recorded.contains(range) ==> planned(total).contains(range) {
        assert forall|i: int| 0 <= i < recorded.len() implies planned(total).contains(
            #[trigger] recorded[i],
        ) by {
            assert(recorded.contains(recorded[i]));
        }
    }
}

/// One more range adds the bytes from its first to its last one.
pub proof fn law_range_adds_its_bytes(ranges: Seq<ByteRange>, range: ByteRange)
    ensures
        ranges_len(Seq::empty()) == 0,
        ranges_len(ranges.push(range)) == ranges_len(ranges) + (range.end - range.start) + 1,
        range_len(range) == range.end - range.start + 1,
{
    assert(ranges.push(range).drop_last() =~= ranges);
}

} // verus!
