//! Fetching: what is asked for, what an answer leads to, and when another attempt is made.

use crate::events;
use crate::events::{Event, EventView, FileState};
use crate::probe::PARTIAL_CONTENT;
use crate::ranges;
use crate::ranges::ByteRange;
use crate::text;
use vstd::prelude::*;

verus! {

/// How often a failed fetch is tried again.
pub const RETRIES: u32 = 5;

/// The seconds to wait after a failed attempt; the attempts are counted from zero.
pub open spec fn backoff(attempt: u32) -> u64 {
    if attempt == 0 {
        1
    } else if attempt == 1 {
        2
    } else if attempt == 2 {
        4
    } else if attempt == 3 {
        8
    } else {
        16
    }
}

/// The seconds to wait after a failed attempt.
pub fn backoff_seconds(attempt: u32) -> (seconds: u64)
    ensures
        seconds == backoff(attempt),
{
    let shift: u32 = if attempt < 4 {
        attempt
    } else {
        4
    };
    assert(1u64 << 0u32 == 1 && 1u64 << 1u32 == 2 && 1u64 << 2u32 == 4 && 1u64 << 3u32 == 8 && 1u64
        << 4u32 == 16) by (bit_vector);
    1u64 << shift
}

/// The text that an HTTP status stands for: its number and its reason phrase.
pub uninterp spec fn http_status_text(status: u16) -> Seq<char>;

/// `reqwest::StatusCode` displays as its number, a space and the reason phrase that goes with it.
/// The table of the reason phrases stays unstated. Statuses have three digits: `from_u16` refuses
/// other numbers.
#[verifier::external_body]
fn status_text(status: u16) -> (r: String)
    requires
        100 <= status <= 999,
    ensures
        r@ == http_status_text(status),
        r@.len() > 4,
        r@.take(4) == text::decimal(status as nat) + seq![' '],
{
    reqwest::StatusCode::from_u16(status).unwrap().to_string()
}

/// The error of an answer that is not the requested part of the file.
pub open spec fn ignored_range(status_text: Seq<char>) -> Seq<char> {
    "server ignored byte range (HTTP "@ + status_text + ")"@
}

/// The error of an answer that is not the requested part of the file.
pub fn ignored_range_error(status_text: &str) -> (error: String)
    ensures
        error@ == ignored_range(status_text@),
{
    let mut error = "server ignored byte range (HTTP ".to_owned();
    error.append(status_text);
    error.append(")");
    error
}

/// The error of an answer that ended early.
pub open spec fn short_range(expected: nat, received: nat) -> Seq<char> {
    "short range: expected "@ + text::decimal(expected) + ", received "@ + text::decimal(received)
}

fn short_range_error(expected: u64, received: u64) -> (error: String)
    ensures
        error@ == short_range(expected as nat, received as nat),
{
    let mut error = "short range: expected ".to_owned();
    error.append(text::decimal_text(expected).as_str());
    error.append(", received ");
    error.append(text::decimal_text(received).as_str());
    error
}

/// The value of the `Range` header that asks for a range.
pub open spec fn range_header_text(range: ByteRange) -> Seq<char> {
    "bytes="@ + text::decimal(range.start as nat) + "-"@ + text::decimal(range.end as nat)
}

/// The value of the `Range` header that asks for the first byte of a file.
pub fn first_byte_header() -> (value: String)
    ensures
        value@ == range_header_text(ByteRange { start: 0, end: 0 }),
{
    range_header(ByteRange { start: 0, end: 0 })
}

/// The value of the `Range` header that asks for a range.
pub fn range_header(range: ByteRange) -> (value: String)
    ensures
        value@ == range_header_text(range),
{
    let mut value = "bytes=".to_owned();
    value.append(text::decimal_text(range.start).as_str());
    value.append("-");
    value.append(text::decimal_text(range.end).as_str());
    value
}

/// Where a fetch stands.
#[derive(Clone, Copy, Debug, PartialEq, Eq, Structural)]
pub enum Phase {
    /// The request is sent and no answer is there.
    Requested,
    /// The answer is being read.
    Receiving,
    /// A piece of the answer is being written to the file.
    Writing { len: u64 },
    /// The attempt failed and another one will follow.
    Waiting,
    /// Nothing more will be done.
    Ended,
}

/// The fetch of one range of a file.
#[derive(Clone, Copy, Debug, PartialEq, Eq, Structural)]
pub struct RangeFetch {
    pub index: usize,
    pub range: ByteRange,
    /// The attempt, counted from zero.
    pub attempt: u32,
    /// The bytes that this attempt has received.
    pub received: u128,
    pub phase: Phase,
}

/// What happens to a fetch.
#[derive(Debug)]
pub enum FetchEvent {
    /// An answer with this status came.
    Answered { status: u16 },
    /// A piece of the answer came.
    Piece { len: u64 },
    /// The piece is in the file.
    Written,
    /// The answer ended, and all of it is in the file.
    Ended,
    /// The answer broke off.
    Broken { error: String },
    /// Something else went wrong on the way.
    Failed { error: String },
    /// The wait is over.
    Awake,
}

/// What is to be done next for a fetch.
#[derive(Debug)]
pub enum FetchAction {
    /// Send the request.
    Request,
    /// Report, where there is a report, and read on.
    Receive { report: Option<Event> },
    /// Write the piece to the file.
    Write,
    /// Wait.
    Sleep { seconds: u64 },
    /// The fetch is done.
    Finished,
    /// The fetch failed for good.
    GiveUp { error: String },
}

/// What a [`FetchAction`] says.
pub enum FetchActionView {
    Request,
    Receive { report: Option<EventView> },
    Write,
    Sleep { seconds: u64 },
    Finished,
    GiveUp { error: Seq<char> },
}

impl View for FetchAction {
    type V = FetchActionView;

    open spec fn view(&self) -> FetchActionView {
        match *self {
            FetchAction::Request => FetchActionView::Request,
            FetchAction::Receive { report } => FetchActionView::Receive {
                report: match report {
                    Some(event) => Some(event@),
                    None => None,
                },
            },
            FetchAction::Write => FetchActionView::Write,
            FetchAction::Sleep { seconds } => FetchActionView::Sleep { seconds },
            FetchAction::Finished => FetchActionView::Finished,
            FetchAction::GiveUp { error } => FetchActionView::GiveUp { error: error@ },
        }
    }
}

/// The phase of a fetch allows for the event.
pub open spec fn expects(phase: Phase, event: FetchEvent) -> bool {
    match event {
        FetchEvent::Answered { status } => phase == Phase::Requested && 100 <= status <= 999,
        FetchEvent::Piece { .. } => phase == Phase::Receiving,
        FetchEvent::Written => phase is Writing,
        FetchEvent::Ended => phase == Phase::Receiving,
        FetchEvent::Broken { .. } => phase == Phase::Receiving,
        FetchEvent::Failed { .. } => phase == Phase::Requested || phase == Phase::Receiving
            || phase is Writing,
        FetchEvent::Awake => phase == Phase::Waiting,
    }
}

/// The number of bytes that a fetch asks for.
pub open spec fn expected(fetch: RangeFetch) -> int {
    ranges::range_len(fetch.range)
}

/// A fetch that can go on: its range is not empty, its attempt is one of those allowed, and no
/// more than the range has been received. Where the attempt waits to be followed by another one
/// or is over, more may have come.
pub open spec fn fetch_ok(fetch: RangeFetch) -> bool {
    &&& fetch.range.start <= fetch.range.end
    &&& expected(fetch) <= u64::MAX
    &&& fetch.attempt <= RETRIES
    &&& fetch.phase == Phase::Waiting ==> fetch.attempt < RETRIES
    &&& match fetch.phase {
        Phase::Requested => fetch.received == 0,
        Phase::Receiving => fetch.received <= expected(fetch),
        Phase::Writing { len } => len <= fetch.received <= expected(fetch),
        _ => true,
    }
}

/// The counter with an attempt's bytes taken out again. The counter wraps around.
pub open spec fn taken_back(state: FileState, received: u128) -> FileState {
    FileState { downloaded: state.downloaded.wrapping_sub(received as u64), ..state }
}

/// The failure of an attempt: what it received is taken out of the counter, also a piece that came
/// in but was not counted, and it is followed by another attempt after a wait, or was the last
/// one.
pub open spec fn failed(
    fetch: RangeFetch,
    received: u128,
    state: FileState,
    error: Seq<char>,
) -> (RangeFetch, FileState, FetchActionView) {
    if fetch.attempt < RETRIES {
        (
            RangeFetch { phase: Phase::Waiting, received, ..fetch },
            taken_back(state, received),
            FetchActionView::Sleep { seconds: backoff(fetch.attempt) },
        )
    } else {
        (
            RangeFetch { phase: Phase::Ended, received, ..fetch },
            taken_back(state, received),
            FetchActionView::GiveUp { error },
        )
    }
}

/// The counter after a piece was written, and the report that is due then.
pub open spec fn counted(
    index: usize,
    state: FileState,
    len: u64,
    now: u64,
) -> (FileState, Option<EventView>) {
    let downloaded = state.downloaded.wrapping_add(len);
    if events::report_due(state, downloaded, now) {
        (
            FileState { downloaded, last_emit: now, ..state },
            Some(events::progress_event(index, "downloading"@, downloaded, state.total)),
        )
    } else {
        (FileState { downloaded, ..state }, None)
    }
}

/// What an event leads to: the fetch and the state of its file after it, and what is to be done.
pub open spec fn fetch_step(
    fetch: RangeFetch,
    state: FileState,
    event: FetchEvent,
    now: u64,
) -> (RangeFetch, FileState, FetchActionView) {
    match event {
        FetchEvent::Answered { status } => if status == PARTIAL_CONTENT {
            (
                RangeFetch { phase: Phase::Receiving, ..fetch },
                state,
                FetchActionView::Receive { report: None },
            )
        } else {
            failed(fetch, fetch.received, state, ignored_range(http_status_text(status)))
        },
        FetchEvent::Piece { len } => {
            let received = (fetch.received + len) as u128;
            if received > expected(fetch) {
                failed(fetch, received, state, "range response exceeded requested size"@)
            } else {
                (
                    RangeFetch { phase: Phase::Writing { len }, received, ..fetch },
                    state,
                    FetchActionView::Write,
                )
            }
        },
        FetchEvent::Written => {
            let (after, report) = counted(fetch.index, state, fetch.phase->Writing_len, now);
            (
                RangeFetch { phase: Phase::Receiving, ..fetch },
                after,
                FetchActionView::Receive { report },
            )
        },
        FetchEvent::Ended => if fetch.received == expected(fetch) {
            (RangeFetch { phase: Phase::Ended, ..fetch }, state, FetchActionView::Finished)
        } else {
            failed(
                fetch,
                fetch.received,
                state,
                short_range(expected(fetch) as nat, fetch.received as nat),
            )
        },
        FetchEvent::Broken { error } => failed(fetch, fetch.received, state, error@),
        FetchEvent::Failed { error } => failed(fetch, fetch.received, state, error@),
        FetchEvent::Awake => (
            RangeFetch {
                attempt: (fetch.attempt + 1) as u32,
                received: 0,
                phase: Phase::Requested,
                ..fetch
            },
            state,
            FetchActionView::Request,
        ),
    }
}

/// Counts a written piece, and reports where a report is due.
fn count_piece(index: usize, state: &mut FileState, len: u64, now: u64) -> (report: Option<Event>)
    ensures
        *final(state) == counted(index, *old(state), len, now).0,
        match report {
            Some(event) => counted(index, *old(state), len, now).1 == Some(event@),
            None => counted(index, *old(state), len, now).1 is None,
        },
{
    let downloaded = state.downloaded.wrapping_add(len);
    state.downloaded = downloaded;
    events::maybe_emit(index, state, downloaded, "downloading", now)
}

/// What is done first for a fetch.
pub fn first_fetch_action() -> (action: FetchAction)
    ensures
        action@ == FetchActionView::Request,
{
    FetchAction::Request
}

impl RangeFetch {
    /// The fetch of a range, with its first request under way.
    pub fn new(index: usize, range: ByteRange) -> (fetch: RangeFetch)
        requires
            range.start <= range.end,
            ranges::range_len(range) <= u64::MAX,
        ensures
            fetch == (RangeFetch { index, range, attempt: 0, received: 0, phase: Phase::Requested }),
            fetch_ok(fetch),
    {
        RangeFetch { index, range, attempt: 0, received: 0, phase: Phase::Requested }
    }

    fn fail(&mut self, state: &mut FileState, error: String) -> (action: FetchAction)
        ensures
            (*final(self), *final(state), action@) == failed(
                *old(self),
                old(self).received,
                *old(state),
                error@,
            ),
    {
        if self.received > 0 {
            state.downloaded = state.downloaded.wrapping_sub(self.received as u64);
        }
        if self.attempt < RETRIES {
            self.phase = Phase::Waiting;
            FetchAction::Sleep { seconds: backoff_seconds(self.attempt) }
        } else {
            self.phase = Phase::Ended;
            FetchAction::GiveUp { error }
        }
    }

    /// Takes in an event at the given time, and says what is to be done next. `state` is that of
    /// the file, which the fetches of all its ranges share.
    pub fn step(&mut self, state: &mut FileState, event: FetchEvent, now: u64) -> (action:
        FetchAction)
        requires
            fetch_ok(*old(self)),
            expects(old(self).phase, event),
        ensures
            fetch_ok(*final(self)),
            (*final(self), *final(state), action@) == fetch_step(
                *old(self),
                *old(state),
                event,
                now,
            ),
    {
        let expected: u64 = self.range.end - self.range.start + 1;
        match event {
            FetchEvent::Answered { status } => {
                if status == PARTIAL_CONTENT {
                    self.phase = Phase::Receiving;
                    FetchAction::Receive { report: None }
                } else {
                    let line = status_text(status);
                    self.fail(state, ignored_range_error(line.as_str()))
                }
            },
            FetchEvent::Piece { len } => {
                self.received = self.received + len as u128;
                if self.received > expected as u128 {
                    self.fail(state, "range response exceeded requested size".to_owned())
                } else {
                    self.phase = Phase::Writing { len };
                    FetchAction::Write
                }
            },
            FetchEvent::Written => {
                let len: u64 = match self.phase {
                    Phase::Writing { len } => len,
                    _ => 0,
                };
                self.phase = Phase::Receiving;
                let report = count_piece(self.index, state, len, now);
                FetchAction::Receive { report }
            },
            FetchEvent::Ended => {
                if self.received == expected as u128 {
                    self.phase = Phase::Ended;
                    FetchAction::Finished
                } else {
                    let error = short_range_error(expected, self.received as u64);
                    self.fail(state, error)
                }
            },
            FetchEvent::Broken { error } => self.fail(state, error),
            FetchEvent::Failed { error } => self.fail(state, error),
            FetchEvent::Awake => {
                self.attempt += 1;
                self.received = 0;
                self.phase = Phase::Requested;
                FetchAction::Request
            },
        }
    }
}

/// The fetch of a whole file in one answer.
#[derive(Clone, Copy, Debug, PartialEq, Eq, Structural)]
pub struct WholeFetch {
    pub index: usize,
    /// The attempt, counted from zero.
    pub attempt: u32,
    pub phase: Phase,
}

/// What happens to the fetch of a whole file.
#[derive(Debug)]
pub enum WholeEvent {
    /// The answer is there, and so is the empty file.
    Started,
    /// A piece of the answer came.
    Piece { len: u64 },
    /// The piece is in the file.
    Written,
    /// The answer ended, and all of it is in the file.
    Ended,
    /// The answer broke off.
    Broken { error: String },
    /// Something else went wrong on the way.
    Failed { error: String },
    /// The wait is over.
    Awake,
}

pub open spec fn whole_expects(phase: Phase, event: WholeEvent) -> bool {
    match event {
        WholeEvent::Started => phase == Phase::Requested,
        WholeEvent::Piece { .. } => phase == Phase::Receiving,
        WholeEvent::Written => phase is Writing,
        WholeEvent::Ended => phase == Phase::Receiving,
        WholeEvent::Broken { .. } => phase == Phase::Receiving,
        WholeEvent::Failed { .. } => phase == Phase::Requested || phase == Phase::Receiving
            || phase is Writing,
        WholeEvent::Awake => phase == Phase::Waiting,
    }
}

pub open spec fn whole_ok(fetch: WholeFetch) -> bool {
    &&& fetch.attempt <= RETRIES
    &&& fetch.phase == Phase::Waiting ==> fetch.attempt < RETRIES
}

/// The failure of an attempt: it is followed by another one after a wait, or was the last one.
pub open spec fn whole_failed(fetch: WholeFetch, state: FileState, error: Seq<char>) -> (
    WholeFetch,
    FileState,
    FetchActionView,
) {
    if fetch.attempt < RETRIES {
        (
            WholeFetch { phase: Phase::Waiting, ..fetch },
            state,
            FetchActionView::Sleep { seconds: backoff(fetch.attempt) },
        )
    } else {
        (
            WholeFetch { phase: Phase::Ended, ..fetch },
            state,
            FetchActionView::GiveUp { error },
        )
    }
}

/// What an event leads to. Every attempt starts to count from zero.
pub open spec fn whole_step(
    fetch: WholeFetch,
    state: FileState,
    event: WholeEvent,
    now: u64,
) -> (WholeFetch, FileState, FetchActionView) {
    match event {
        WholeEvent::Started => (
            WholeFetch { phase: Phase::Receiving, ..fetch },
            state,
            FetchActionView::Receive { report: None },
        ),
        WholeEvent::Piece { len } => (
            WholeFetch { phase: Phase::Writing { len }, ..fetch },
            state,
            FetchActionView::Write,
        ),
        WholeEvent::Written => {
            let (after, report) = counted(fetch.index, state, fetch.phase->Writing_len, now);
            (
                WholeFetch { phase: Phase::Receiving, ..fetch },
                after,
                FetchActionView::Receive { report },
            )
        },
        WholeEvent::Ended => (
            WholeFetch { phase: Phase::Ended, ..fetch },
            state,
            FetchActionView::Finished,
        ),
        WholeEvent::Broken { error } => whole_failed(fetch, state, error@),
        WholeEvent::Failed { error } => whole_failed(fetch, state, error@),
        WholeEvent::Awake => (
            WholeFetch {
                attempt: (fetch.attempt + 1) as u32,
                phase: Phase::Requested,
                ..fetch
            },
            FileState { downloaded: 0, ..state },
            FetchActionView::Request,
        ),
    }
}

impl WholeFetch {
    /// The fetch of a file, with its first request under way.
    pub fn new(index: usize, state: &mut FileState) -> (fetch: WholeFetch)
        ensures
            fetch == (WholeFetch { index, attempt: 0, phase: Phase::Requested }),
            whole_ok(fetch),
            *final(state) == (FileState { downloaded: 0, ..*old(state) }),
    {
        state.downloaded = 0;
        WholeFetch { index, attempt: 0, phase: Phase::Requested }
    }

    fn fail(&mut self, state: &FileState, error: String) -> (action: FetchAction)
        ensures
            (*final(self), *state, action@) == whole_failed(*old(self), *state, error@),
    {
        if self.attempt < RETRIES {
            self.phase = Phase::Waiting;
            FetchAction::Sleep { seconds: backoff_seconds(self.attempt) }
        } else {
            self.phase = Phase::Ended;
            FetchAction::GiveUp { error }
        }
    }

    /// Takes in an event at the given time, and says what is to be done next.
    pub fn step(&mut self, state: &mut FileState, event: WholeEvent, now: u64) -> (action:
        FetchAction)
        requires
            whole_ok(*old(self)),
            whole_expects(old(self).phase, event),
        ensures
            whole_ok(*final(self)),
            (*final(self), *final(state), action@) == whole_step(
                *old(self),
                *old(state),
                event,
                now,
            ),
    {
        match event {
            WholeEvent::Started => {
                self.phase = Phase::Receiving;
                FetchAction::Receive { report: None }
            },
            WholeEvent::Piece { len } => {
                self.phase = Phase::Writing { len };
                FetchAction::Write
            },
            WholeEvent::Written => {
                let len: u64 = match self.phase {
                    Phase::Writing { len } => len,
                    _ => 0,
                };
                self.phase = Phase::Receiving;
                let report = count_piece(self.index, state, len, now);
                FetchAction::Receive { report }
            },
            WholeEvent::Ended => {
                self.phase = Phase::Ended;
                FetchAction::Finished
            },
            WholeEvent::Broken { error } => self.fail(state, error),
            WholeEvent::Failed { error } => self.fail(state, error),
            WholeEvent::Awake => {
                self.attempt += 1;
                self.phase = Phase::Requested;
                state.downloaded = 0;
                FetchAction::Request
            },
        }
    }
}

/// The control of a job has a say in the action: a request is sent only when work may go on.
pub open spec fn asks_to_go_out(action: FetchActionView) -> bool {
    action is Request
}

/// The control of a job has a say in the event: what comes in of an answer, or that the answer
/// breaks off, is taken in only when work may go on.
pub open spec fn asks_to_come_in(event: FetchEvent) -> bool {
    event is Piece || event is Broken
}

pub open spec fn whole_asks_to_come_in(event: WholeEvent) -> bool {
    event is Piece || event is Broken
}

/// The waits double from one attempt to the next until they stay the same.
pub proof fn law_waits_double(attempt: u32)
    ensures
        backoff(0) == 1,
        attempt < 4 ==> backoff((attempt + 1) as u32) == 2 * backoff(attempt),
        attempt >= 4 ==> backoff(attempt) == 16,
{
}

/// A failed attempt is followed by another one until the last one allowed has failed, and only
/// then the fetch is given up, with the error of that attempt.
pub proof fn law_gives_up_after_last_attempt(
    fetch: RangeFetch,
    state: FileState,
    event: FetchEvent,
    now: u64,
)
    requires
        fetch_ok(fetch),
        expects(fetch.phase, event),
    ensures
        fetch_step(fetch, state, event, now).2 is GiveUp ==> fetch.attempt == RETRIES,
        event matches FetchEvent::Failed { error } ==> fetch_step(fetch, state, event, now).2
            == if fetch.attempt == RETRIES {
            FetchActionView::GiveUp { error: error@ }
        } else {
            FetchActionView::Sleep { seconds: backoff(fetch.attempt) }
        },
        event matches FetchEvent::Broken { error } ==> fetch_step(fetch, state, event, now).2
            == if fetch.attempt == RETRIES {
            FetchActionView::GiveUp { error: error@ }
        } else {
            FetchActionView::Sleep { seconds: backoff(fetch.attempt) }
        },
{
}

/// A range is done only when as many bytes have come as were asked for.
pub proof fn law_finished_range_is_complete(
    fetch: RangeFetch,
    state: FileState,
    event: FetchEvent,
    now: u64,
)
    requires
        fetch_ok(fetch),
        expects(fetch.phase, event),
    ensures
        fetch_step(fetch, state, event, now).2 == FetchActionView::Finished <==> event
            == FetchEvent::Ended && fetch.received == expected(fetch),
{
}

pub open spec fn sum(pieces: Seq<u64>) -> nat
    decreases pieces.len(),
{
    if pieces.len() == 0 {
        0
    } else {
        sum(pieces.drop_last()) + pieces.last() as nat
    }
}

/// The fetch and the state of its file after pieces have come in and been written.
pub open spec fn after_pieces(
    fetch: RangeFetch,
    state: FileState,
    pieces: Seq<u64>,
    times: Seq<u64>,
) -> (RangeFetch, FileState)
    decreases pieces.len(),
{
    if pieces.len() == 0 {
        (fetch, state)
    } else {
        let (f, s) = after_pieces(fetch, state, pieces.drop_last(), times);
        let now = times[pieces.len() - 1];
        let (f1, s1, _) = fetch_step(f, s, FetchEvent::Piece { len: pieces.last() }, now);
        let (f2, s2, _) = fetch_step(f1, s1, FetchEvent::Written, now);
        (f2, s2)
    }
}

/// The two counters agree, up to wrapping around.
pub open spec fn same_count(a: int, b: int) -> bool {
    (a - b) % 0x1_0000_0000_0000_0000 == 0
}

/// While an attempt goes on, the counter grows by the bytes that come in.
pub proof fn law_attempt_counts_its_bytes(
    fetch: RangeFetch,
    state: FileState,
    pieces: Seq<u64>,
    times: Seq<u64>,
)
    requires
        fetch_ok(fetch),
        fetch.phase == Phase::Receiving,
        fetch.received == 0,
        sum(pieces) <= expected(fetch),
    ensures
        ({
            let (f, s) = after_pieces(fetch, state, pieces, times);
            &&& f == RangeFetch { received: sum(pieces) as u128, ..fetch }
            &&& same_count(s.downloaded as int, state.downloaded + sum(pieces))
            &&& s.total == state.total
        }),
    decreases pieces.len(),
{
    if pieces.len() > 0 {
        law_attempt_counts_its_bytes(fetch, state, pieces.drop_last(), times);
    }
}

/// A finished range has added its bytes to the counter, each of them once.
pub proof fn law_finished_range_is_counted(
    fetch: RangeFetch,
    state: FileState,
    pieces: Seq<u64>,
    times: Seq<u64>,
    now: u64,
)
    requires
        fetch_ok(fetch),
        fetch.phase == Phase::Receiving,
        fetch.received == 0,
        sum(pieces) == expected(fetch),
    ensures
        ({
            let (f, s) = after_pieces(fetch, state, pieces, times);
            let (_, after, action) = fetch_step(f, s, FetchEvent::Ended, now);
            &&& action == FetchActionView::Finished
            &&& same_count(after.downloaded as int, state.downloaded + expected(fetch))
        }),
{
    law_attempt_counts_its_bytes(fetch, state, pieces, times);
}

/// An attempt that fails before or between its pieces leaves the counter as it was.
pub proof fn law_failed_attempt_counts_nothing(
    fetch: RangeFetch,
    state: FileState,
    pieces: Seq<u64>,
    times: Seq<u64>,
    event: FetchEvent,
    now: u64,
)
    requires
        fetch_ok(fetch),
        fetch.phase == Phase::Receiving || (fetch.phase == Phase::Requested && pieces.len() == 0),
        fetch.received == 0,
        sum(pieces) <= expected(fetch),
        expects(fetch.phase, event),
        event is Answered || event is Broken || event is Failed || (event is Ended && sum(pieces) < expected(fetch)),
    ensures
        ({
            let (f, s) = after_pieces(fetch, state, pieces, times);
            let (_, after, _) = fetch_step(f, s, event, now);
            after.downloaded == state.downloaded
        }),
{
    if pieces.len() > 0 {
        law_attempt_counts_its_bytes(fetch, state, pieces, times);
    }
}

/// An attempt that fails with a piece that has come in but is not counted, because it is too long
/// or cannot be written, leaves the counter short of the bytes of that piece.
pub proof fn law_uncounted_piece_is_taken_back(
    fetch: RangeFetch,
    state: FileState,
    pieces: Seq<u64>,
    times: Seq<u64>,
    len: u64,
    error: String,
    now: u64,
)
    requires
        fetch_ok(fetch),
        fetch.phase == Phase::Receiving,
        fetch.received == 0,
        sum(pieces) <= expected(fetch),
    ensures
        ({
            let (f, s) = after_pieces(fetch, state, pieces, times);
            let (writing, kept, action) = fetch_step(f, s, FetchEvent::Piece { len }, now);
            let after = if action == FetchActionView::Write {
                fetch_step(writing, kept, FetchEvent::Failed { error }, now).1
            } else {
                kept
            };
            same_count(after.downloaded as int, state.downloaded - len)
        }),
{
    law_attempt_counts_its_bytes(fetch, state, pieces, times);
    let (f, s) = after_pieces(fetch, state, pieces, times);
    let received = (sum(pieces) + len) as u128;
    let (writing, kept, action) = fetch_step(f, s, FetchEvent::Piece { len }, now);
    lemma_taken_back(s, received);
    lemma_same_count_shifts(
        taken_back(s, received).downloaded as int,
        s.downloaded as int,
        state.downloaded as int,
        sum(pieces) as int,
        received as int,
    );
    if action == FetchActionView::Write {
        assert(writing.received == received && kept == s);
    } else {
        assert(kept == taken_back(s, received));
    }
}

proof fn lemma_taken_back(state: FileState, received: u128)
    ensures
        same_count(taken_back(state, received).downloaded as int, state.downloaded - received),
{
    assert(received as u64 == received % 0x1_0000_0000_0000_0000u128) by (bit_vector);
}

proof fn lemma_same_count_shifts(x: int, a: int, b: int, grown: int, taken: int)
    requires
        same_count(x, a - taken),
        same_count(a, b + grown),
    ensures
        same_count(x, b + grown - taken),
{
}

/// How far a step moves the counter does not depend on where the counter stands, so that the
/// fetches of different ranges of a file can take turns.
pub proof fn law_counter_moves_by_own_bytes(
    fetch: RangeFetch,
    a: FileState,
    b: FileState,
    event: FetchEvent,
    now: u64,
)
    ensures
        same_count(
            fetch_step(fetch, a, event, now).1.downloaded - a.downloaded,
            fetch_step(fetch, b, event, now).1.downloaded - b.downloaded,
        ),
{
}

/// The fetch of a whole file and the state of the file after pieces have been written.
pub open spec fn after_written(
    fetch: WholeFetch,
    state: FileState,
    pieces: Seq<u64>,
    times: Seq<u64>,
) -> (WholeFetch, FileState)
    decreases pieces.len(),
{
    if pieces.len() == 0 {
        (fetch, state)
    } else {
        let (f, s) = after_written(fetch, state, pieces.drop_last(), times);
        let now = times[pieces.len() - 1];
        let (f1, s1, _) = whole_step(f, s, WholeEvent::Piece { len: pieces.last() }, now);
        let (f2, s2, _) = whole_step(f1, s1, WholeEvent::Written, now);
        (f2, s2)
    }
}

/// The fetch of a whole file counts the bytes of its last attempt only: the first attempt and every
/// further one start with the counter at zero, and then the counter grows by what is written.
pub proof fn law_whole_fetch_counts_last_attempt(
    fetch: WholeFetch,
    state: FileState,
    now: u64,
    pieces: Seq<u64>,
    times: Seq<u64>,
)
    requires
        whole_ok(fetch),
        fetch.phase == Phase::Waiting || (fetch.phase == Phase::Requested && state.downloaded == 0),
    ensures
        ({
            let (asked, fresh) = if fetch.phase == Phase::Waiting {
                let (f, s, _) = whole_step(fetch, state, WholeEvent::Awake, now);
                (f, s)
            } else {
                (fetch, state)
            };
            let (started, begun, _) = whole_step(asked, fresh, WholeEvent::Started, now);
            let (f, s) = after_written(started, begun, pieces, times);
            &&& f == started
            &&& same_count(s.downloaded as int, sum(pieces) as int)
        }),
    decreases pieces.len(),
{
    if pieces.len() > 0 {
        law_whole_fetch_counts_last_attempt(fetch, state, now, pieces.drop_last(), times);
    }
}

} // verus!
