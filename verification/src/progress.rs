//! The fetches of a file's ranges together: they take turns, and share one counter.

use crate::events::FileState;
use crate::ranges;
use crate::ranges::ByteRange;
use crate::transfer;
use crate::transfer::{FetchEvent, Phase, RangeFetch};
use vstd::prelude::*;

verus! {

/// An event for one of the fetches of a file.
pub struct Turn {
    pub which: int,
    pub event: FetchEvent,
    pub now: u64,
}

/// The first request for each of some ranges.
pub open spec fn first_requests(index: usize, pending: Seq<ByteRange>) -> Seq<RangeFetch> {
    Seq::new(
        pending.len(),
        |i: int|
            RangeFetch {
                index,
                range: pending[i],
                attempt: 0,
                received: 0,
                phase: Phase::Requested,
            },
    )
}

/// The fetches and the state of their file after some turns.
pub open spec fn after_turns(
    fetches: Seq<RangeFetch>,
    state: FileState,
    turns: Seq<Turn>,
) -> (Seq<RangeFetch>, FileState)
    decreases turns.len(),
{
    if turns.len() == 0 {
        (fetches, state)
    } else {
        let (before, counted) = after_turns(fetches, state, turns.drop_last());
        let turn = turns.last();
        let (fetch, after, _) = transfer::fetch_step(
            before[turn.which],
            counted,
            turn.event,
            turn.now,
        );
        (before.update(turn.which, fetch), after)
    }
}

/// The event does not end an attempt while a piece has come in that is not counted.
pub open spec fn nothing_uncounted(fetch: RangeFetch, event: FetchEvent) -> bool {
    match event {
        FetchEvent::Failed { .. } => !(fetch.phase is Writing),
        FetchEvent::Piece { len } => fetch.received + len <= transfer::expected(fetch),
        _ => true,
    }
}

/// Every turn is one that its fetch expects and that does not end the fetch for good with an
/// error, and no failed attempt has a piece that is not counted.
pub open spec fn good_turns(fetches: Seq<RangeFetch>, state: FileState, turns: Seq<Turn>) -> bool
    decreases turns.len(),
{
    turns.len() > 0 ==> {
        let (before, counted) = after_turns(fetches, state, turns.drop_last());
        let turn = turns.last();
        &&& good_turns(fetches, state, turns.drop_last())
        &&& 0 <= turn.which < fetches.len()
        &&& transfer::expects(before[turn.which].phase, turn.event)
        &&& nothing_uncounted(before[turn.which], turn.event)
        &&& !(transfer::fetch_step(before[turn.which], counted, turn.event, turn.now).2 is GiveUp)
    }
}

/// The bytes of a fetch that are in the counter. A fetch that has ended counts as done.
pub open spec fn counted_bytes(fetch: RangeFetch) -> int {
    match fetch.phase {
        Phase::Requested => 0,
        Phase::Receiving => fetch.received as int,
        Phase::Writing { len } => fetch.received - len,
        Phase::Waiting => 0,
        Phase::Ended => fetch.received as int,
    }
}

pub open spec fn all_counted_bytes(fetches: Seq<RangeFetch>) -> int
    decreases fetches.len(),
{
    if fetches.len() == 0 {
        0
    } else {
        all_counted_bytes(fetches.drop_last()) + counted_bytes(fetches.last())
    }
}

/// A fetch that can go on, or has received its whole range.
pub open spec fn sound(fetch: RangeFetch) -> bool {
    &&& transfer::fetch_ok(fetch)
    &&& fetch.phase == Phase::Ended ==> fetch.received == transfer::expected(fetch)
}

proof fn lemma_update_counts(fetches: Seq<RangeFetch>, i: int, fetch: RangeFetch)
    requires
        0 <= i < fetches.len(),
    ensures
        all_counted_bytes(fetches.update(i, fetch)) == all_counted_bytes(fetches) - counted_bytes(
            fetches[i],
        ) + counted_bytes(fetch),
    decreases fetches.len(),
{
    let updated = fetches.update(i, fetch);
    if i == fetches.len() - 1 {
        assert(updated.drop_last() =~= fetches.drop_last());
    } else {
        lemma_update_counts(fetches.drop_last(), i, fetch);
        assert(updated.drop_last() =~= fetches.drop_last().update(i, fetch));
        assert(fetches.drop_last()[i] == fetches[i]);
    }
}

proof fn lemma_first_requests_count_nothing(index: usize, pending: Seq<ByteRange>)
    ensures
        all_counted_bytes(first_requests(index, pending)) == 0,
    decreases pending.len(),
{
    if pending.len() > 0 {
        lemma_first_requests_count_nothing(index, pending.drop_last());
        assert(first_requests(index, pending).drop_last() =~= first_requests(
            index,
            pending.drop_last(),
        ));
    }
}

proof fn lemma_step_counts(fetch: RangeFetch, state: FileState, event: FetchEvent, now: u64)
    requires
        sound(fetch),
        transfer::expects(fetch.phase, event),
        nothing_uncounted(fetch, event),
        !(transfer::fetch_step(fetch, state, event, now).2 is GiveUp),
    ensures
        ({
            let (next, after, _) = transfer::fetch_step(fetch, state, event, now);
            &&& sound(next)
            &&& next.range == fetch.range
            &&& after.total == state.total
            &&& transfer::same_count(
                after.downloaded - state.downloaded,
                counted_bytes(next) - counted_bytes(fetch),
            )
        }),
{
}

/// However the fetches take turns, the counter has grown by the bytes that they have received and
/// written to the file in the attempts that go on or are done.
pub proof fn law_counter_sums_up_fetches(
    index: usize,
    pending: Seq<ByteRange>,
    state: FileState,
    turns: Seq<Turn>,
)
    requires
        forall|i: int|
            0 <= i < pending.len() ==> (#[trigger] pending[i]).start <= pending[i].end
                && ranges::range_len(pending[i]) <= u64::MAX,
        good_turns(first_requests(index, pending), state, turns),
    ensures
        ({
            let (fetches, after) = after_turns(first_requests(index, pending), state, turns);
            &&& fetches.len() == pending.len()
            &&& forall|i: int|
                0 <= i < pending.len() ==> sound(#[trigger] fetches[i]) && fetches[i].range
                    == pending[i]
            &&& after.total == state.total
            &&& transfer::same_count(
                after.downloaded as int,
                state.downloaded + all_counted_bytes(fetches),
            )
        }),
    decreases turns.len(),
{
    let start = first_requests(index, pending);
    if turns.len() == 0 {
        lemma_first_requests_count_nothing(index, pending);
    } else {
        law_counter_sums_up_fetches(index, pending, state, turns.drop_last());
        let (before, counted) = after_turns(start, state, turns.drop_last());
        let turn = turns.last();
        let fetch = before[turn.which];
        let (next, after, _) = transfer::fetch_step(fetch, counted, turn.event, turn.now);
        lemma_step_counts(fetch, counted, turn.event, turn.now);
        lemma_update_counts(before, turn.which, next);
    }
}

proof fn lemma_done_counts_ranges(fetches: Seq<RangeFetch>, pending: Seq<ByteRange>)
    requires
        fetches.len() == pending.len(),
        forall|i: int|
            0 <= i < pending.len() ==> sound(#[trigger] fetches[i]) && fetches[i].range
                == pending[i] && fetches[i].phase == Phase::Ended,
    ensures
        all_counted_bytes(fetches) == ranges::ranges_len(pending),
    decreases pending.len(),
{
    if pending.len() > 0 {
        assert forall|i: int| 0 <= i < pending.len() - 1 implies sound(
            #[trigger] fetches.drop_last()[i],
        ) && fetches.drop_last()[i].range == pending.drop_last()[i]
            && fetches.drop_last()[i].phase == Phase::Ended by {
            assert(fetches.drop_last()[i] == fetches[i]);
        }
        lemma_done_counts_ranges(fetches.drop_last(), pending.drop_last());
        assert(sound(fetches[fetches.len() - 1]));
    }
}

/// When the fetches of all pending ranges are done, in whatever order their pieces came, the
/// counter, which started with the bytes that were there already, stands at the file's size.
pub proof fn law_fetched_file_is_counted_in_full(
    index: usize,
    total: u64,
    completed: Seq<ByteRange>,
    state: FileState,
    turns: Seq<Turn>,
)
    requires
        ranges::ascending(completed),
        ranges::all_planned(total, completed),
        state.downloaded == ranges::ranges_len(completed),
        ({
            let start = first_requests(index, ranges::pending(total, completed));
            let fetches = after_turns(start, state, turns).0;
            &&& good_turns(start, state, turns)
            &&& forall|i: int|
                0 <= i < fetches.len() ==> (#[trigger] fetches[i]).phase == Phase::Ended
        }),
    ensures
        after_turns(
            first_requests(index, ranges::pending(total, completed)),
            state,
            turns,
        ).1.downloaded == total,
{
    let pending = ranges::pending(total, completed);
    let plan = ranges::planned(total);
    assert forall|i: int| 0 <= i < pending.len() implies (#[trigger] pending[i]).start
        <= pending[i].end && ranges::range_len(pending[i]) <= u64::MAX by {
        assert(pending.contains(pending[i]));
        ranges::law_every_range_is_completed_or_pending(total, completed, pending[i]);
        let k = choose|k: int| 0 <= k < plan.len() && plan[k] == pending[i];
        ranges::law_ranges_cover_exactly(total);
        assert(ranges::range_len(plan[k]) > 0);
    }
    law_counter_sums_up_fetches(index, pending, state, turns);
    let (fetches, after) = after_turns(first_requests(index, pending), state, turns);
    lemma_done_counts_ranges(fetches, pending);
    ranges::law_completed_and_pending(total, completed);
}

} // verus!
