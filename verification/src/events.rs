//! What the engine reports while it works, and how often.

use crate::hub;
use vstd::prelude::*;

verus! {

/// A report of the engine.
#[derive(Debug)]
pub enum Event {
    /// On the whole job.
    Job { status: &'static str, error: Option<String> },
    /// On one file of the job.
    File {
        index: usize,
        status: &'static str,
        downloaded: u64,
        total: u64,
        error: Option<String>,
    },
}

/// What an [`Event`] says.
pub enum EventView {
    Job { status: Seq<char>, error: Option<Seq<char>> },
    File {
        index: usize,
        status: Seq<char>,
        downloaded: u64,
        total: u64,
        error: Option<Seq<char>>,
    },
}

impl View for Event {
    type V = EventView;

    open spec fn view(&self) -> EventView {
        match *self {
            Event::Job { status, error } => EventView::Job {
                status: status@,
                error: hub::option_text(error),
            },
            Event::File { index, status, downloaded, total, error } => EventView::File {
                index,
                status: status@,
                downloaded,
                total,
                error: hub::option_text(error),
            },
        }
    }
}

/// A report on a file that names no error.
pub open spec fn progress_event(
    index: usize,
    status: Seq<char>,
    downloaded: u64,
    total: u64,
) -> EventView {
    EventView::File { index, status, downloaded, total, error: None }
}

/// What is known of a file while it is being fetched.
#[derive(Clone, Copy, Debug, PartialEq, Eq, Structural)]
pub struct FileState {
    pub downloaded: u64,
    pub total: u64,
    /// When the last report was made, in nanoseconds.
    pub last_emit: u64,
}

/// The shortest time between two reports on a file, in nanoseconds.
pub const EMIT_INTERVAL: u64 = 200_000_000;

/// A report is due: the last one is long enough ago, or the file has reached its size.
pub open spec fn report_due(state: FileState, downloaded: u64, now: u64) -> bool {
    now - state.last_emit >= EMIT_INTERVAL || downloaded == state.total
}

/// Reports on a file where a report is due, and remembers when it did.
pub fn maybe_emit(
    index: usize,
    state: &mut FileState,
    downloaded: u64,
    status: &'static str,
    now: u64,
) -> (event: Option<Event>)
    ensures
        event is Some <==> report_due(*old(state), downloaded, now),
        event matches Some(e) ==> e@ == progress_event(
            index,
            status@,
            downloaded,
            old(state).total,
        ),
        final(state).downloaded == old(state).downloaded,
        final(state).total == old(state).total,
        final(state).last_emit == if report_due(*old(state), downloaded, now) {
            now
        } else {
            old(state).last_emit
        },
{
    let elapsed: u64 = if now >= state.last_emit {
        now - state.last_emit
    } else {
        0
    };
    if elapsed >= EMIT_INTERVAL || downloaded == state.total {
        state.last_emit = now;
        Some(Event::File { index, status, downloaded, total: state.total, error: None })
    } else {
        None
    }
}

/// Between two reports on a file there is the shortest time, unless the file has reached its
/// size by the second one.
pub proof fn law_reports_are_spaced(state: FileState, downloaded: u64, now: u64)
    requires
        report_due(state, downloaded, now),
        downloaded != state.total,
    ensures
        now >= state.last_emit + EMIT_INTERVAL,
{
}

/// A file that has been silent for the interval is reported on, however far it has come.
pub proof fn law_silence_is_broken(state: FileState, downloaded: u64, now: u64)
    requires
        now >= state.last_emit + EMIT_INTERVAL,
    ensures
        report_due(state, downloaded, now),
{
}

/// Whether a report is due depends on how long ago the last one was and on how far the file is from
/// its size, and on nothing else; waiting longer never makes a report less due, and two tenths of
/// a second are always enough.
pub proof fn law_reports_grow_due(
    state: FileState,
    other: FileState,
    downloaded: u64,
    now: u64,
    later: u64,
)
    ensures
        report_due(state, downloaded, now) && later >= now ==> report_due(state, downloaded, later),
        now - state.last_emit >= 200_000_000 ==> report_due(state, downloaded, now),
        now - state.last_emit < 200_000_000 ==> (report_due(state, downloaded, now) <==> downloaded
            == state.total),
        other.total == state.total && other.last_emit == state.last_emit ==> report_due(
            other,
            downloaded,
            now,
        ) == report_due(state, downloaded, now),
        EMIT_INTERVAL == 200_000_000,
{
}

/// A report on progress names the file, its status and both amounts as they are, and no error.
pub proof fn law_progress_event_names_its_file(
    index: usize,
    status: Seq<char>,
    downloaded: u64,
    total: u64,
)
    ensures
        progress_event(index, status, downloaded, total) matches EventView::File {
            index: i,
            status: s,
            downloaded: d,
            total: t,
            error,
        } && i == index && s == status && d == downloaded && t == total && error is None,
{
}

/// The view of a report shows every field of it.
pub proof fn law_event_view_shows_every_field(event: Event)
    ensures
        match event {
            Event::Job { status, error } => event@ matches EventView::Job { status: s, error: e }
                && s == status@ && (error matches Some(text) ==> e == Some(text@)) && (error is None
                ==> e is None),
            Event::File { index, status, downloaded, total, error } => event@ matches
                EventView::File { index: i, status: s, downloaded: d, total: t, error: e } && i
                == index && s == status@ && d == downloaded && t == total && (error matches Some(
                text,
            ) ==> e == Some(text@)) && (error is None ==> e is None),
        },
{
}

/// The arrival of the last byte is always reported.
pub proof fn law_completion_is_reported(state: FileState, now: u64)
    ensures
        report_due(state, state.total, now),
{
}

} // verus!
