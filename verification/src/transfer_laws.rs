//! What the attempts of a fetch come to, event by event and over whole runs.

use crate::events::{EventView, FileState};
use crate::ranges::ByteRange;
use crate::text;
use crate::transfer;
use crate::transfer::{
    FetchAction, FetchActionView, FetchEvent, Phase, RangeFetch, WholeEvent, WholeFetch, RETRIES,
};
use vstd::prelude::*;

verus! {

/// A fetch is about one range of one file from its start to its end, and it leaves the size of
/// the file alone.
pub proof fn law_fetch_keeps_its_range(
    fetch: RangeFetch,
    state: FileState,
    event: FetchEvent,
    now: u64,
)
    ensures
        ({
            let (next, after, _) = transfer::fetch_step(fetch, state, event, now);
            &&& next.index == fetch.index
            &&& next.range == fetch.range
            &&& after.total == state.total
        }),
{
}

/// Every new attempt has the next number, and nothing else changes the number of the attempt.
pub proof fn law_attempts_are_numbered(
    fetch: RangeFetch,
    state: FileState,
    event: FetchEvent,
    now: u64,
)
    requires
        transfer::fetch_ok(fetch),
        transfer::expects(fetch.phase, event),
    ensures
        ({
            let (next, _, action) = transfer::fetch_step(fetch, state, event, now);
            &&& event is Awake ==> next.attempt == fetch.attempt + 1 && next.received == 0
                && next.phase == Phase::Requested && action == FetchActionView::Request
            &&& !(event is Awake) ==> next.attempt == fetch.attempt && action
                != FetchActionView::Request
        }),
{
}

/// The fetch and the state of its file after some events, each at its time.
pub open spec fn after_fetch_events(
    fetch: RangeFetch,
    state: FileState,
    events: Seq<(FetchEvent, u64)>,
) -> (RangeFetch, FileState)
    decreases events.len(),
{
    if events.len() == 0 {
        (fetch, state)
    } else {
        let (f, s) = after_fetch_events(fetch, state, events.drop_last());
        let (next, after, _) = transfer::fetch_step(f, s, events.last().0, events.last().1);
        (next, after)
    }
}

/// Every event comes when the fetch expects it.
pub open spec fn expected_fetch_events(
    fetch: RangeFetch,
    state: FileState,
    events: Seq<(FetchEvent, u64)>,
) -> bool
    decreases events.len(),
{
    events.len() > 0 ==> {
        &&& expected_fetch_events(fetch, state, events.drop_last())
        &&& transfer::expects(
            after_fetch_events(fetch, state, events.drop_last()).0.phase,
            events.last().0,
        )
    }
}

/// How often the fetch is woken up for another attempt.
pub open spec fn wakings(events: Seq<(FetchEvent, u64)>) -> nat
    decreases events.len(),
{
    if events.len() == 0 {
        0
    } else {
        wakings(events.drop_last()) + if events.last().0 is Awake {
            1nat
        } else {
            0
        }
    }
}

/// How often an attempt of the fetch fails.
pub open spec fn failures(
    fetch: RangeFetch,
    state: FileState,
    events: Seq<(FetchEvent, u64)>,
) -> nat
    decreases events.len(),
{
    if events.len() == 0 {
        0
    } else {
        let (f, s) = after_fetch_events(fetch, state, events.drop_last());
        let action = transfer::fetch_step(f, s, events.last().0, events.last().1).2;
        failures(fetch, state, events.drop_last()) + if action is Sleep || action is GiveUp {
            1nat
        } else {
            0
        }
    }
}

/// However a server behaves, a range is asked for at most six times: five attempts follow the
/// first one, and after the sixth failure the fetch is over.
pub proof fn law_attempts_are_bounded(
    index: usize,
    range: ByteRange,
    state: FileState,
    events: Seq<(FetchEvent, u64)>,
)
    requires
        range.start <= range.end,
        range.end - range.start + 1 <= u64::MAX,
        ({
            let start = RangeFetch {
                index,
                range,
                attempt: 0,
                received: 0,
                phase: Phase::Requested,
            };
            expected_fetch_events(start, state, events)
        }),
    ensures
        ({
            let start = RangeFetch {
                index,
                range,
                attempt: 0,
                received: 0,
                phase: Phase::Requested,
            };
            let (fetch, _) = after_fetch_events(start, state, events);
            &&& transfer::fetch_ok(fetch)
            &&& fetch.attempt == wakings(events)
            &&& wakings(events) <= 5
            &&& failures(start, state, events) <= 6
            &&& failures(start, state, events) == 6 ==> fetch.phase == Phase::Ended
        }),
{
    let start = RangeFetch { index, range, attempt: 0, received: 0, phase: Phase::Requested };
    lemma_attempts_and_failures(start, state, events);
}

proof fn lemma_attempts_and_failures(
    start: RangeFetch,
    state: FileState,
    events: Seq<(FetchEvent, u64)>,
)
    requires
        transfer::fetch_ok(start),
        start.attempt == 0,
        start.phase == Phase::Requested,
        expected_fetch_events(start, state, events),
    ensures
        ({
            let (fetch, _) = after_fetch_events(start, state, events);
            &&& transfer::fetch_ok(fetch)
            &&& fetch.attempt == wakings(events)
            &&& fetch.phase != Phase::Waiting && fetch.phase != Phase::Ended ==> failures(
                start,
                state,
                events,
            ) == fetch.attempt
            &&& fetch.phase == Phase::Waiting ==> failures(start, state, events) == fetch.attempt
                + 1
            &&& fetch.phase == Phase::Ended ==> failures(start, state, events) <= fetch.attempt + 1
        }),
    decreases events.len(),
{
    if events.len() > 0 {
        lemma_attempts_and_failures(start, state, events.drop_last());
        let (f, s) = after_fetch_events(start, state, events.drop_last());
        lemma_step_keeps_ok(f, s, events.last().0, events.last().1);
    }
}

proof fn lemma_step_keeps_ok(fetch: RangeFetch, state: FileState, event: FetchEvent, now: u64)
    requires
        transfer::fetch_ok(fetch),
        transfer::expects(fetch.phase, event),
    ensures
        transfer::fetch_ok(transfer::fetch_step(fetch, state, event, now).0),
{
}

/// The event makes the attempt fail: an answer that is not the requested part, a piece that is too
/// long, an end that comes too early, or something that went wrong.
pub open spec fn is_setback(fetch: RangeFetch, event: FetchEvent) -> bool {
    let size = fetch.range.end - fetch.range.start + 1;
    match event {
        FetchEvent::Answered { status } => status != 206,
        FetchEvent::Piece { len } => fetch.received + len > size,
        FetchEvent::Written => false,
        FetchEvent::Ended => fetch.received != size,
        FetchEvent::Broken { .. } => true,
        FetchEvent::Failed { .. } => true,
        FetchEvent::Awake => false,
    }
}

/// The seconds between an attempt and the next one.
pub open spec fn wait_after(attempt: int) -> int
    decreases attempt,
{
    if attempt <= 0 {
        1
    } else if attempt >= 4 {
        16
    } else {
        2 * wait_after(attempt - 1)
    }
}

/// An attempt fails exactly on a setback. The first five failures are followed by a wait, which
/// doubles from one second up to sixteen; the sixth one ends the fetch.
pub proof fn law_setbacks_wait_or_end(
    fetch: RangeFetch,
    state: FileState,
    event: FetchEvent,
    now: u64,
)
    requires
        transfer::fetch_ok(fetch),
        transfer::expects(fetch.phase, event),
    ensures
        ({
            let (next, _, action) = transfer::fetch_step(fetch, state, event, now);
            &&& action is Sleep <==> is_setback(fetch, event) && fetch.attempt < 5
            &&& action is GiveUp <==> is_setback(fetch, event) && fetch.attempt == 5
            &&& action matches FetchActionView::Sleep { seconds } ==> seconds == wait_after(
                fetch.attempt as int,
            ) && next.phase == Phase::Waiting
            &&& action is GiveUp ==> next.phase == Phase::Ended
        }),
{
    reveal_with_fuel(wait_after, 6);
}

/// A fetch that is given up says what was wrong with its last attempt.
pub proof fn law_error_names_the_setback(
    fetch: RangeFetch,
    state: FileState,
    event: FetchEvent,
    now: u64,
)
    requires
        transfer::fetch_ok(fetch),
        transfer::expects(fetch.phase, event),
        transfer::fetch_step(fetch, state, event, now).2 is GiveUp,
    ensures
        ({
            let error = transfer::fetch_step(fetch, state, event, now).2->error;
            let size = (fetch.range.end - fetch.range.start + 1) as nat;
            match event {
                FetchEvent::Answered { status } => error == "server ignored byte range (HTTP "@
                    + transfer::http_status_text(status) + ")"@,
                FetchEvent::Piece { .. } => error == "range response exceeded requested size"@,
                FetchEvent::Ended => error == "short range: expected "@ + text::decimal(size)
                    + ", received "@ + text::decimal(fetch.received as nat),
                FetchEvent::Broken { error: cause } => error == cause@,
                FetchEvent::Failed { error: cause } => error == cause@,
                _ => false,
            }
        }),
{
}

/// A setback takes out of the counter what its attempt has received, and makes no report.
pub proof fn law_setback_takes_back_what_came(
    fetch: RangeFetch,
    state: FileState,
    event: FetchEvent,
    now: u64,
)
    requires
        transfer::fetch_ok(fetch),
        transfer::expects(fetch.phase, event),
        is_setback(fetch, event),
    ensures
        ({
            let (next, after, _) = transfer::fetch_step(fetch, state, event, now);
            let came = fetch.received + if event is Piece {
                event->len as int
            } else {
                0
            };
            &&& (after.downloaded - (state.downloaded - came)) % 0x1_0000_0000_0000_0000 == 0
            &&& after.last_emit == state.last_emit
            &&& next.received == came
        }),
{
    let came = (fetch.received + if event is Piece {
        event->len as int
    } else {
        0
    }) as u128;
    assert(came as u64 == came % 0x1_0000_0000_0000_0000u128) by (bit_vector);
    let (_, after, _) = transfer::fetch_step(fetch, state, event, now);
    assert(after == transfer::taken_back(state, came));
}

/// A good answer is read; a piece that fits is written and counts as received; the end of a
/// complete answer ends the fetch. None of these moves the counter.
pub proof fn law_good_answer_is_taken_in(
    fetch: RangeFetch,
    state: FileState,
    event: FetchEvent,
    now: u64,
)
    requires
        transfer::fetch_ok(fetch),
        transfer::expects(fetch.phase, event),
        !is_setback(fetch, event),
        event is Answered || event is Piece || event is Ended,
    ensures
        ({
            let (next, after, action) = transfer::fetch_step(fetch, state, event, now);
            &&& after == state
            &&& event is Answered ==> action == (FetchActionView::Receive { report: None })
                && next.phase == Phase::Receiving && next.received == fetch.received
            &&& event is Piece ==> action == FetchActionView::Write && next.phase == (
            Phase::Writing { len: event->len }) && next.received == fetch.received + event->len
            &&& event is Ended ==> action == FetchActionView::Finished && next.phase
                == Phase::Ended && next.received == fetch.received
        }),
{
}

/// The report that is due after a counter has grown: the last report is two tenths of a second
/// ago or more, or the file has reached its size. It names the file, the counter and the size.
pub open spec fn reported_growth(
    index: usize,
    before: FileState,
    after: FileState,
    len: u64,
    now: u64,
    action: FetchActionView,
) -> bool {
    let due = now >= before.last_emit + 200_000_000 || after.downloaded == before.total;
    &&& (after.downloaded - (before.downloaded + len)) % 0x1_0000_0000_0000_0000 == 0
    &&& after.total == before.total
    &&& after.last_emit == if due {
        now
    } else {
        before.last_emit
    }
    &&& action == (FetchActionView::Receive {
        report: if due {
            Some(
                EventView::File {
                    index,
                    status: "downloading"@,
                    downloaded: after.downloaded,
                    total: before.total,
                    error: None,
                },
            )
        } else {
            None
        },
    })
}

/// A written piece is counted, and reported where a report is due.
pub proof fn law_written_piece_is_counted(fetch: RangeFetch, state: FileState, now: u64, len: u64)
    requires
        transfer::fetch_ok(fetch),
        fetch.phase == (Phase::Writing { len }),
    ensures
        ({
            let (next, after, action) = transfer::fetch_step(
                fetch,
                state,
                FetchEvent::Written,
                now,
            );
            &&& next.phase == Phase::Receiving
            &&& next.received == fetch.received
            &&& reported_growth(fetch.index, state, after, len, now, action)
        }),
{
}

/// Another attempt leaves the counter of a file alone.
pub proof fn law_another_attempt_counts_nothing(fetch: RangeFetch, state: FileState, now: u64)
    ensures
        transfer::fetch_step(fetch, state, FetchEvent::Awake, now).1 == state,
{
}

/// The fetch of a whole file is about one file, and numbers its attempts as that of a range does.
pub proof fn law_whole_attempts_are_numbered(
    fetch: WholeFetch,
    state: FileState,
    event: WholeEvent,
    now: u64,
)
    requires
        transfer::whole_ok(fetch),
        transfer::whole_expects(fetch.phase, event),
    ensures
        ({
            let (next, after, action) = transfer::whole_step(fetch, state, event, now);
            &&& next.index == fetch.index
            &&& after.total == state.total
            &&& event is Awake ==> next.attempt == fetch.attempt + 1 && next.phase
                == Phase::Requested && action == FetchActionView::Request && after.downloaded == 0
                && after.last_emit == state.last_emit
            &&& !(event is Awake) ==> next.attempt == fetch.attempt && action
                != FetchActionView::Request
        }),
{
}

/// An attempt at a whole file fails exactly when something goes wrong. Five attempts may follow
/// the first one, after the same waits as for a range; what the last one failed of is the error.
/// The counter stays until the next attempt begins.
pub proof fn law_whole_setbacks_wait_or_end(
    fetch: WholeFetch,
    state: FileState,
    event: WholeEvent,
    now: u64,
)
    requires
        transfer::whole_ok(fetch),
        transfer::whole_expects(fetch.phase, event),
    ensures
        ({
            let (next, after, action) = transfer::whole_step(fetch, state, event, now);
            let setback = event is Broken || event is Failed;
            let cause = match event {
                WholeEvent::Broken { error } => error@,
                WholeEvent::Failed { error } => error@,
                _ => Seq::empty(),
            };
            &&& action is Sleep <==> setback && fetch.attempt < 5
            &&& action is GiveUp <==> setback && fetch.attempt == 5
            &&& action matches FetchActionView::Sleep { seconds } ==> seconds == wait_after(
                fetch.attempt as int,
            ) && next.phase == Phase::Waiting
            &&& action matches FetchActionView::GiveUp { error } ==> error == cause && next.phase
                == Phase::Ended
            &&& setback ==> after == state
        }),
{
    reveal_with_fuel(wait_after, 6);
}

/// An answer with a whole file is read, its pieces are written, counted and reported, and its end
/// ends the fetch.
pub proof fn law_whole_answer_is_taken_in(
    fetch: WholeFetch,
    state: FileState,
    event: WholeEvent,
    now: u64,
)
    requires
        transfer::whole_ok(fetch),
        transfer::whole_expects(fetch.phase, event),
    ensures
        ({
            let (next, after, action) = transfer::whole_step(fetch, state, event, now);
            &&& event is Started ==> after == state && next.phase == Phase::Receiving && action
                == (FetchActionView::Receive { report: None })
            &&& event is Piece ==> after == state && next.phase == (Phase::Writing {
                len: event->len,
            }) && action == FetchActionView::Write
            &&& event is Written ==> next.phase == Phase::Receiving && reported_growth(
                fetch.index,
                state,
                after,
                fetch.phase->Writing_len,
                now,
                action,
            )
            &&& event is Ended ==> after == state && next.phase == Phase::Ended && action
                == FetchActionView::Finished
        }),
{
}

/// The waits are those that the seconds between attempts go by, and there are five of them.
pub proof fn law_waits_between_attempts(attempt: u32)
    ensures
        transfer::backoff(attempt) == wait_after(attempt as int),
        RETRIES == 5,
{
    reveal_with_fuel(wait_after, 6);
}

/// The header that asks for a range names its first and its last byte.
pub proof fn law_header_names_first_and_last_byte(range: ByteRange)
    ensures
        ({
            let value = transfer::range_header_text(range);
            let numbers = value.skip(6);
            &&& value.len() >= 6 && value.take(6) == seq!['b', 'y', 't', 'e', 's', '=']
            &&& numbers == text::decimal(range.start as nat) + seq!['-'] + text::decimal(
                range.end as nat,
            )
        }),
{
    reveal_strlit("bytes=");
    reveal_strlit("-");
    assert("bytes="@ =~= seq!['b', 'y', 't', 'e', 's', '=']);
    assert("-"@ =~= seq!['-']);
    let value = transfer::range_header_text(range);
    assert(value.take(6) =~= "bytes="@);
    assert(value.skip(6) =~= text::decimal(range.start as nat) + seq!['-'] + text::decimal(
        range.end as nat,
    ));
}

/// The view of an action shows what the action is and everything that it carries.
pub proof fn law_fetch_action_view_shows_everything(action: FetchAction)
    ensures
        match action {
            FetchAction::Request => action@ is Request,
            FetchAction::Receive { report } => {
                &&& action@ is Receive
                &&& report is None ==> action@->report is None
                &&& report matches Some(event) ==> action@->report == Some(event@)
            },
            FetchAction::Write => action@ is Write,
            FetchAction::Sleep { seconds } => action@ == (FetchActionView::Sleep { seconds }),
            FetchAction::Finished => action@ is Finished,
            FetchAction::GiveUp { error } => action@ == (FetchActionView::GiveUp { error: error@ }),
        },
{
}

} // verus!
