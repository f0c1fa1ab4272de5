//! The download of one file, from the first request to the finished file.

use crate::events;
use crate::events::{Event, EventView};
use crate::hub;
use crate::paths;
use crate::paths::{DownloadPaths, DownloadPathsView};
use crate::probe;
use crate::probe::ProbeReply;
use crate::ranges;
use crate::ranges::{ByteRange, RangeSet};
use crate::repo_id;
use crate::text;
use vstd::prelude::*;

verus! {

/// Where the download of a file stands, by what is being done for it.
#[derive(Clone, Copy, Debug, PartialEq, Eq, Structural)]
pub enum FilePhase {
    CreatingFolder,
    Probing,
    /// Looking at the finished file; `ranged` tells that the file can be fetched in ranges.
    CheckingTarget { ranged: bool },
    ReadingRecord,
    Preparing,
    /// Fetching the pending ranges; `asked` tells how many there are.
    FetchingRanges { asked: u64 },
    FetchingWhole,
    CheckingPartial,
    Renaming,
    Ended,
}

/// The download of one file.
#[derive(Debug)]
pub struct FileDownload {
    pub index: usize,
    /// The size of the file in the listing of the repository.
    pub hinted: Option<u64>,
    pub url: String,
    pub paths: DownloadPaths,
    /// The size of the file. It counts from the time when it is known.
    pub total: u64,
    /// The ranges that are in the partial file.
    pub completed: RangeSet,
    pub phase: FilePhase,
}

/// What a [`FileDownload`] holds.
#[verifier::ext_equal]
pub struct FileDownloadView {
    pub index: usize,
    pub hinted: Option<u64>,
    pub url: Seq<char>,
    pub paths: DownloadPathsView,
    pub total: u64,
    pub completed: Seq<ByteRange>,
    pub phase: FilePhase,
}

impl View for FileDownload {
    type V = FileDownloadView;

    open spec fn view(&self) -> FileDownloadView {
        FileDownloadView {
            index: self.index,
            hinted: self.hinted,
            url: self.url@,
            paths: self.paths@,
            total: self.total,
            completed: self.completed.in_order(),
            phase: self.phase,
        }
    }
}

/// What happens to the download of a file.
#[derive(Debug)]
pub enum FileEvent {
    /// What was to be done is done.
    Done,
    /// It could not be done.
    Failed { error: String },
    /// What came of the request for the first byte.
    Probed { reply: ProbeReply },
    /// The length of the finished file, where there is one.
    TargetLength { len: Option<u64> },
    /// The length of the partial file and the recorded ranges, where they are there.
    Record { partial_len: Option<u64>, recorded: Option<Vec<ByteRange>> },
    /// What came of the fetches of the pending ranges, in their order.
    RangesFetched { outcomes: Vec<Result<(), String>> },
    /// The length of the partial file.
    PartialLength { actual: u64 },
}

/// What is to be done next for a file.
#[derive(Debug)]
pub enum FileAction {
    /// Create the folder of the file.
    CreateFolder,
    /// Ask for the first byte.
    Probe,
    /// Look at the length of the finished file.
    StatTarget,
    /// Report, and read what an earlier run has left.
    ReadRecord { report: Event },
    /// Remove the record where it is of no use, start counting with what is there already, and
    /// give the partial file its full length.
    Prepare { discard: bool, already: u64 },
    /// Fetch these ranges.
    FetchRanges { pending: Vec<ByteRange> },
    /// Report, and fetch the file in one piece.
    FetchWhole { report: Event },
    /// Look at the length of the partial file.
    StatPartial,
    /// Make the partial file the finished one.
    Rename,
    /// The file is there. Remove the record of its ranges where there may be one, and report.
    Complete { remove_record: bool, report: Event },
    /// The download failed.
    GiveUp { error: String },
}

/// What a [`FileAction`] says.
pub enum FileActionView {
    CreateFolder,
    Probe,
    StatTarget,
    ReadRecord { report: EventView },
    Prepare { discard: bool, already: int },
    FetchRanges { pending: Seq<ByteRange> },
    FetchWhole { report: EventView },
    StatPartial,
    Rename,
    Complete { remove_record: bool, report: EventView },
    GiveUp { error: Seq<char> },
}

impl View for FileAction {
    type V = FileActionView;

    open spec fn view(&self) -> FileActionView {
        match *self {
            FileAction::CreateFolder => FileActionView::CreateFolder,
            FileAction::Probe => FileActionView::Probe,
            FileAction::StatTarget => FileActionView::StatTarget,
            FileAction::ReadRecord { report } => FileActionView::ReadRecord { report: report@ },
            FileAction::Prepare { discard, already } => FileActionView::Prepare {
                discard,
                already: already as int,
            },
            FileAction::FetchRanges { pending } => FileActionView::FetchRanges {
                pending: pending@,
            },
            FileAction::FetchWhole { report } => FileActionView::FetchWhole { report: report@ },
            FileAction::StatPartial => FileActionView::StatPartial,
            FileAction::Rename => FileActionView::Rename,
            FileAction::Complete { remove_record, report } => FileActionView::Complete {
                remove_record,
                report: report@,
            },
            FileAction::GiveUp { error } => FileActionView::GiveUp { error: error@ },
        }
    }
}

/// The phase of a download allows for the event.
pub open spec fn expects(phase: FilePhase, event: FileEvent) -> bool {
    match event {
        FileEvent::Done => phase == FilePhase::CreatingFolder || phase == FilePhase::Preparing
            || phase == FilePhase::FetchingWhole || phase == FilePhase::Renaming,
        FileEvent::Failed { .. } => phase == FilePhase::CreatingFolder || phase
            == FilePhase::Preparing || phase == FilePhase::FetchingWhole || phase
            == FilePhase::CheckingPartial || phase == FilePhase::Renaming,
        FileEvent::Probed { reply } => phase == FilePhase::Probing && probe::reply_ok(reply),
        FileEvent::TargetLength { .. } => phase is CheckingTarget,
        FileEvent::Record { .. } => phase == FilePhase::ReadingRecord,
        FileEvent::RangesFetched { outcomes } => phase == (FilePhase::FetchingRanges {
            asked: outcomes@.len() as u64,
        }) && outcomes@.len() <= u64::MAX,
        FileEvent::PartialLength { .. } => phase == FilePhase::CheckingPartial,
    }
}

/// The completed ranges are planned ranges of the file, in order.
pub open spec fn download_ok(download: FileDownloadView) -> bool {
    ranges::ascending(download.completed) && ranges::all_planned(download.total, download.completed)
}

/// The first error among some outcomes.
pub open spec fn first_error(outcomes: Seq<Result<(), String>>) -> Option<Seq<char>>
    decreases outcomes.len(),
{
    if outcomes.len() == 0 {
        None
    } else {
        match first_error(outcomes.drop_last()) {
            Some(error) => Some(error),
            None => match outcomes.last() {
                Ok(()) => None,
                Err(error) => Some(error@),
            },
        }
    }
}

/// The error of a partial file that has not the size of the file.
pub open spec fn size_mismatch(expected: nat, actual: nat) -> Seq<char> {
    "size mismatch: expected "@ + text::decimal(expected) + ", received "@ + text::decimal(actual)
}

fn size_mismatch_error(expected: u64, actual: u64) -> (error: String)
    ensures
        error@ == size_mismatch(expected as nat, actual as nat),
{
    let mut error = "size mismatch: expected ".to_owned();
    error.append(text::decimal_text(expected).as_str());
    error.append(", received ");
    error.append(text::decimal_text(actual).as_str());
    error
}

pub open spec fn in_phase(download: FileDownloadView, phase: FilePhase) -> FileDownloadView {
    FileDownloadView { phase, ..download }
}

pub open spec fn gives_up(download: FileDownloadView, error: Seq<char>) -> (
    FileDownloadView,
    FileActionView,
) {
    (in_phase(download, FilePhase::Ended), FileActionView::GiveUp { error })
}

/// The ranges that count as completed after a look at what an earlier run has left.
pub open spec fn kept_ranges(
    total: u64,
    partial_len: Option<u64>,
    recorded: Option<Vec<ByteRange>>,
) -> Seq<ByteRange> {
    if recorded is Some && ranges::resumable(partial_len, recorded->0@, total) {
        ranges::planned(total).filter(ranges::within(recorded->0@))
    } else {
        Seq::empty()
    }
}

/// What an event leads to: the download after it, and what is to be done.
pub open spec fn file_step(download: FileDownloadView, event: FileEvent) -> (
    FileDownloadView,
    FileActionView,
) {
    let total = download.total;
    match event {
        FileEvent::Failed { error } => gives_up(download, error@),
        FileEvent::Done => match download.phase {
            FilePhase::CreatingFolder => (
                in_phase(download, FilePhase::Probing),
                FileActionView::Probe,
            ),
            FilePhase::Preparing => (
                in_phase(
                    download,
                    FilePhase::FetchingRanges {
                        asked: ranges::pending(total, download.completed).len() as u64,
                    },
                ),
                FileActionView::FetchRanges { pending: ranges::pending(total, download.completed) },
            ),
            FilePhase::FetchingWhole => (
                in_phase(download, FilePhase::CheckingPartial),
                FileActionView::StatPartial,
            ),
            _ => (
                in_phase(download, FilePhase::Ended),
                FileActionView::Complete {
                    remove_record: true,
                    report: events::progress_event(download.index, "complete"@, total, total),
                },
            ),
        },
        FileEvent::Probed { reply } => match probe::probe_result(reply, download.hinted) {
            Ok((total, ranged)) => (
                FileDownloadView {
                    total,
                    completed: Seq::empty(),
                    phase: FilePhase::CheckingTarget { ranged },
                    ..download
                },
                FileActionView::StatTarget,
            ),
            Err(error) => gives_up(download, error),
        },
        FileEvent::TargetLength { len } => {
            let started = events::progress_event(download.index, "downloading"@, 0, total);
            if len == Some(total) {
                (
                    in_phase(download, FilePhase::Ended),
                    FileActionView::Complete {
                        remove_record: false,
                        report: events::progress_event(download.index, "complete"@, total, total),
                    },
                )
            } else if download.phase == (FilePhase::CheckingTarget { ranged: true }) {
                (
                    in_phase(download, FilePhase::ReadingRecord),
                    FileActionView::ReadRecord { report: started },
                )
            } else {
                (
                    in_phase(download, FilePhase::FetchingWhole),
                    FileActionView::FetchWhole { report: started },
                )
            }
        },
        FileEvent::Record { partial_len, recorded } => {
            let completed = kept_ranges(total, partial_len, recorded);
            (
                FileDownloadView { completed, phase: FilePhase::Preparing, ..download },
                FileActionView::Prepare {
                    discard: !(recorded is Some && ranges::resumable(
                        partial_len,
                        recorded->0@,
                        total,
                    )),
                    already: ranges::ranges_len(completed),
                },
            )
        },
        FileEvent::RangesFetched { outcomes } => match first_error(outcomes@) {
            Some(error) => gives_up(download, error),
            None => (
                in_phase(download, FilePhase::CheckingPartial),
                FileActionView::StatPartial,
            ),
        },
        FileEvent::PartialLength { actual } => if actual == total {
            (in_phase(download, FilePhase::Renaming), FileActionView::Rename)
        } else {
            gives_up(download, size_mismatch(total as nat, actual as nat))
        },
    }
}

fn take_first_error(outcomes: &Vec<Result<(), String>>) -> (error: Option<String>)
    ensures
        hub::option_text(error) == first_error(outcomes@),
{
    let mut i: usize = 0;
    while i < outcomes.len()
        invariant
            i <= outcomes.len(),
            first_error(outcomes@.take(i as int)) is None,
        decreases outcomes.len() - i,
    {
        assert(outcomes@.take(i + 1).drop_last() =~= outcomes@.take(i as int));
        match &outcomes[i] {
            Ok(()) => {},
            Err(error) => {
                proof {
                    lemma_first_error_stays(outcomes@, i + 1);
                }
                return Some(error.clone());
            },
        }
        i += 1;
    }
    assert(outcomes@.take(outcomes.len() as int) =~= outcomes@);
    None
}

proof fn lemma_first_error_stays(outcomes: Seq<Result<(), String>>, n: int)
    requires
        0 <= n <= outcomes.len(),
        first_error(outcomes.take(n)) is Some,
    ensures
        first_error(outcomes) == first_error(outcomes.take(n)),
    decreases outcomes.len() - n,
{
    if n < outcomes.len() {
        assert(outcomes.take(n + 1).drop_last() =~= outcomes.take(n));
        lemma_first_error_stays(outcomes, n + 1);
    } else {
        assert(outcomes.take(n) =~= outcomes);
    }
}

/// What is done first for a file.
pub fn first_file_action() -> (action: FileAction)
    ensures
        action@ == FileActionView::CreateFolder,
{
    FileAction::CreateFolder
}

impl FileDownload {
    /// The download of a file of a repository, which starts with the folder of the file. A path
    /// that leads out of the folder of the repository is refused.
    pub fn new(
        index: usize,
        destination: &str,
        id: &str,
        path: &str,
        hinted: Option<u64>,
    ) -> (r: Result<FileDownload, String>)
        requires
            repo_id::valid_repo_id(id@),
        ensures
            match r {
                Ok(download) => paths::safe_path(path@) && download_ok(download@) && download@ == (
                FileDownloadView {
                    index,
                    hinted,
                    url: hub::resolve_address(id@, path@),
                    paths: paths::paths_of(paths::target_path(destination@, id@, path@)),
                    total: 0,
                    completed: Seq::empty(),
                    phase: FilePhase::CreatingFolder,
                }),
                Err(error) => !paths::safe_path(path@) && error@ == "unsafe repository path: "@
                    + path@,
            },
    {
        match paths::plan_paths(destination, id, path) {
            Ok(paths) => Ok(
                FileDownload {
                    index,
                    hinted,
                    url: hub::resolve_url(id, path),
                    paths,
                    total: 0,
                    completed: RangeSet::new(),
                    phase: FilePhase::CreatingFolder,
                },
            ),
            Err(error) => Err(error),
        }
    }

    fn report(&self, status: &'static str, downloaded: u64) -> (event: Event)
        ensures
            event@ == events::progress_event(self.index, status@, downloaded, self.total),
    {
        Event::File {
            index: self.index,
            status,
            downloaded,
            total: self.total,
            error: None,
        }
    }

    fn give_up(&mut self, error: String) -> (action: FileAction)
        ensures
            (final(self)@, action@) == gives_up(old(self)@, error@),
    {
        self.phase = FilePhase::Ended;
        FileAction::GiveUp { error }
    }

    /// Takes in an event, and says what is to be done next.
    pub fn step(&mut self, event: FileEvent) -> (action: FileAction)
        requires
            download_ok(old(self)@),
            expects(old(self).phase, event),
        ensures
            download_ok(final(self)@),
            (final(self)@, action@) == file_step(old(self)@, event),
    {
        match event {
            FileEvent::Failed { error } => self.give_up(error),
            FileEvent::Done => match self.phase {
                FilePhase::CreatingFolder => {
                    self.phase = FilePhase::Probing;
                    FileAction::Probe
                },
                FilePhase::Preparing => {
                    let pending = ranges::pending_ranges(self.total, &self.completed);
                    self.phase = FilePhase::FetchingRanges { asked: pending.len() as u64 };
                    FileAction::FetchRanges { pending }
                },
                FilePhase::FetchingWhole => {
                    self.phase = FilePhase::CheckingPartial;
                    FileAction::StatPartial
                },
                _ => {
                    self.phase = FilePhase::Ended;
                    let report = self.report("complete", self.total);
                    FileAction::Complete { remove_record: true, report }
                },
            },
            FileEvent::Probed { reply } => match probe::probe(reply, self.hinted) {
                Ok((total, ranged)) => {
                    self.total = total;
                    self.completed = RangeSet::new();
                    self.phase = FilePhase::CheckingTarget { ranged };
                    FileAction::StatTarget
                },
                Err(error) => self.give_up(error),
            },
            FileEvent::TargetLength { len } => {
                let there = match len {
                    Some(len) => len == self.total,
                    None => false,
                };
                if there {
                    self.phase = FilePhase::Ended;
                    let report = self.report("complete", self.total);
                    FileAction::Complete { remove_record: false, report }
                } else {
                    let report = self.report("downloading", 0);
                    match self.phase {
                        FilePhase::CheckingTarget { ranged: true } => {
                            self.phase = FilePhase::ReadingRecord;
                            FileAction::ReadRecord { report }
                        },
                        _ => {
                            self.phase = FilePhase::FetchingWhole;
                            FileAction::FetchWhole { report }
                        },
                    }
                }
            },
            FileEvent::Record { partial_len, recorded } => {
                let ghost named = recorded;
                let resume = ranges::read_completed(partial_len, recorded, self.total);
                proof {
                    if named is Some && ranges::resumable(partial_len, named->0@, self.total) {
                        ranges::lemma_kept_ranges(
                            self.total,
                            resume.completed.in_order(),
                            named->0@,
                        );
                    }
                    assert(resume.completed.in_order() == kept_ranges(
                        self.total,
                        partial_len,
                        named,
                    ));
                }
                let already = ranges::completed_bytes(self.total, &resume.completed);
                self.completed = resume.completed;
                self.phase = FilePhase::Preparing;
                FileAction::Prepare { discard: resume.discard, already }
            },
            FileEvent::RangesFetched { outcomes } => match take_first_error(&outcomes) {
                Some(error) => self.give_up(error),
                None => {
                    self.phase = FilePhase::CheckingPartial;
                    FileAction::StatPartial
                },
            },
            FileEvent::PartialLength { actual } => {
                if actual == self.total {
                    self.phase = FilePhase::Renaming;
                    FileAction::Rename
                } else {
                    let error = size_mismatch_error(self.total, actual);
                    self.give_up(error)
                }
            },
        }
    }

    /// Notes that a planned range is in the partial file. The completed ranges are then to be
    /// recorded.
    pub fn complete_range(&mut self, range: ByteRange)
        requires
            download_ok(old(self)@),
            ranges::planned(old(self).total).contains(range),
        ensures
            download_ok(final(self)@),
            forall|r: ByteRange| #[trigger]
                final(self)@.completed.contains(r) <==> old(self)@.completed.contains(r) || r
                    == range,
            final(self)@ == (FileDownloadView {
                completed: ranges::planned(old(self).total).filter(
                    ranges::within(old(self)@.completed.push(range)),
                ),
                ..old(self)@
            }),
    {
        let ghost before = self@;
        self.completed.insert(range);
        proof {
            let named = before.completed.push(range);
            ranges::lemma_push_to_set(before.completed, range);
            assert forall|i: int| 0 <= i < named.len() implies ranges::planned(
                before.total,
            ).contains(#[trigger] named[i]) by {
                if i < before.completed.len() {
                    assert(named[i] == before.completed[i]);
                }
            }
            ranges::lemma_kept_ranges(before.total, self.completed.in_order(), named);
            assert forall|r: ByteRange| #[trigger]
                self@.completed.contains(r) <==> before.completed.contains(r) || r == range by {
                assert(self@.completed.to_set().contains(r) == before.completed.to_set().insert(
                    range,
                ).contains(r));
                assert(self@.completed.to_set().contains(r) == self@.completed.contains(r));
            }
        }
    }
}

/// A file is reported as complete where the finished file had its full size from the start, or
/// where the partial file was made the finished one, and in no other case.
pub proof fn law_when_complete(download: FileDownloadView, event: FileEvent)
    requires
        expects(download.phase, event),
    ensures
        file_step(download, event).1 is Complete <==> {
            ||| event == (FileEvent::TargetLength { len: Some(download.total) })
            ||| download.phase == FilePhase::Renaming && event == FileEvent::Done
        },
{
}

/// The partial file is made the finished one only when it has the size of the file.
pub proof fn law_when_renamed(download: FileDownloadView, event: FileEvent)
    requires
        expects(download.phase, event),
    ensures
        file_step(download, event).0.phase == FilePhase::Renaming <==> event == (
        FileEvent::PartialLength { actual: download.total }),
        file_step(download, event).0.phase == FilePhase::Renaming ==> file_step(
            download,
            event,
        ).0.total == download.total,
{
}

/// The download after some events, one after the other.
pub open spec fn after_events(download: FileDownloadView, events: Seq<FileEvent>) -> FileDownloadView
    decreases events.len(),
{
    if events.len() == 0 {
        download
    } else {
        file_step(after_events(download, events.drop_last()), events.last()).0
    }
}

/// Every event comes when it is expected.
pub open spec fn all_expected(download: FileDownloadView, events: Seq<FileEvent>) -> bool
    decreases events.len(),
{
    events.len() > 0 ==> {
        &&& all_expected(download, events.drop_last())
        &&& expects(after_events(download, events.drop_last()).phase, events.last())
    }
}

/// Every planned range was kept from an earlier run, or its fetch came out well.
pub open spec fn all_fetched(
    total: u64,
    kept: Seq<ByteRange>,
    outcomes: Seq<Result<(), String>>,
) -> bool {
    &&& outcomes.len() == ranges::pending(total, kept).len()
    &&& forall|i: int| 0 <= i < outcomes.len() ==> (#[trigger] outcomes[i]) is Ok
    &&& forall|range: ByteRange| #[trigger]
        ranges::planned(total).contains(range) ==> kept.contains(range) || exists|i: int|
            0 <= i < outcomes.len() && #[trigger] ranges::pending(total, kept)[i] == range
                && outcomes[i] is Ok
}

/// The record was read, and then every planned range that it did not have was fetched.
pub open spec fn fetched_in_ranges(total: u64, record: FileEvent, fetched: FileEvent) -> bool {
    match (record, fetched) {
        (
            FileEvent::Record { partial_len, recorded },
            FileEvent::RangesFetched { outcomes },
        ) => all_fetched(total, kept_ranges(total, partial_len, recorded), outcomes@),
        _ => false,
    }
}

/// The events that lead to a phase, and what they have made sure of.
spec fn history(start: FileDownloadView, events: Seq<FileEvent>) -> bool {
    let now = after_events(start, events);
    match now.phase {
        FilePhase::CreatingFolder => events.len() == 0,
        FilePhase::Probing => events.len() == 1,
        FilePhase::CheckingTarget { .. } => events.len() == 2,
        FilePhase::ReadingRecord => events.len() == 3,
        FilePhase::Preparing => events.len() == 4 && kept_from(now, events[3]),
        FilePhase::FetchingRanges { asked } => {
            &&& events.len() == 5
            &&& kept_from(now, events[3])
            &&& asked == ranges::pending(now.total, now.completed).len()
        },
        FilePhase::FetchingWhole => events.len() == 3,
        FilePhase::CheckingPartial => {
            ||| events.len() == 4 && events[3] == FileEvent::Done
            ||| events.len() == 6 && fetched_in_ranges(now.total, events[3], events[5])
        },
        FilePhase::Renaming => {
            &&& events.len() > 0
            &&& events.last() == (FileEvent::PartialLength { actual: now.total })
            &&& {
                ||| events.len() == 5 && events[3] == FileEvent::Done
                ||| events.len() == 7 && fetched_in_ranges(now.total, events[3], events[5])
            }
        },
        FilePhase::Ended => true,
    }
}

/// The completed ranges are those that were kept when the record was read.
spec fn kept_from(download: FileDownloadView, record: FileEvent) -> bool {
    record matches FileEvent::Record { partial_len, recorded } && download.completed == kept_ranges(
        download.total,
        partial_len,
        recorded,
    )
}

proof fn lemma_no_error(outcomes: Seq<Result<(), String>>)
    requires
        first_error(outcomes) is None,
    ensures
        forall|i: int| 0 <= i < outcomes.len() ==> (#[trigger] outcomes[i]) is Ok,
    decreases outcomes.len(),
{
    if outcomes.len() > 0 {
        lemma_no_error(outcomes.drop_last());
        assert forall|i: int| 0 <= i < outcomes.len() implies (#[trigger] outcomes[i]) is Ok by {
            if i < outcomes.len() - 1 {
                assert(outcomes.drop_last()[i] is Ok);
            }
        }
    }
}

proof fn lemma_history(start: FileDownloadView, events: Seq<FileEvent>)
    requires
        start.phase == FilePhase::CreatingFolder,
        all_expected(start, events),
    ensures
        history(start, events),
    decreases events.len(),
{
    if events.len() > 0 {
        let front = events.drop_last();
        let before = after_events(start, front);
        let event = events.last();
        lemma_history(start, front);
        assert(forall|i: int| 0 <= i < front.len() ==> front[i] == events[i]);
        match event {
            FileEvent::Done => {
                if before.phase == FilePhase::Preparing {
                    ranges::lemma_range_count(before.total, before.completed);
                }
            },
            FileEvent::RangesFetched { outcomes } => {
                if first_error(outcomes@) is None {
                    let kept = before.completed;
                    let pending = ranges::pending(before.total, kept);
                    lemma_no_error(outcomes@);
                    ranges::lemma_range_count(before.total, kept);
                    assert forall|range: ByteRange| #[trigger]
                        ranges::planned(before.total).contains(range) implies kept.contains(range)
                        || exists|i: int|
                        0 <= i < outcomes@.len() && #[trigger] pending[i] == range && outcomes@[i] is Ok by {
                        lemma_kept_is_planned(before.total, events[3]);
                        ranges::law_every_range_is_completed_or_pending(
                            before.total,
                            kept,
                            range,
                        );
                        if pending.contains(range) {
                            let i = choose|i: int| 0 <= i < pending.len() && pending[i] == range;
                            assert(pending[i] == range && outcomes@[i] is Ok);
                        }
                    }
                }
            },
            _ => {},
        }
    }
}

proof fn lemma_kept_is_planned(total: u64, record: FileEvent)
    ensures
        record matches FileEvent::Record { partial_len, recorded } ==> ranges::all_planned(
            total,
            kept_ranges(total, partial_len, recorded),
        ),
{
    if let FileEvent::Record { partial_len, recorded } = record {
        if recorded is Some && ranges::resumable(partial_len, recorded->0@, total) {
            ranges::lemma_kept_of_plan(total, recorded->0@);
        }
    }
}

/// However a download goes: when it is complete, then the finished file was found with its full
/// size; or it was fetched in one piece and the partial file was found with the full size; or it
/// was fetched in ranges, of which no fetch failed and which make up the plan of the file together
/// with those that were kept from an earlier run, and the partial file was found with the full
/// size.
pub proof fn law_complete_file_is_all_there(download: FileDownloadView, events: Seq<FileEvent>)
    requires
        download.phase == FilePhase::CreatingFolder,
        events.len() > 0,
        all_expected(download, events),
        file_step(after_events(download, events.drop_last()), events.last()).1 is Complete,
    ensures
        ({
            let total = after_events(download, events.drop_last()).total;
            let measured = events.len() >= 2 && events[events.len() - 2] == (
            FileEvent::PartialLength { actual: total });
            ||| events.len() == 3 && events[2] == (FileEvent::TargetLength { len: Some(total) })
            ||| events.len() == 6 && events[3] == FileEvent::Done && measured
            ||| events.len() == 8 && fetched_in_ranges(total, events[3], events[5]) && measured
        }),
{
    let front = events.drop_last();
    law_when_complete(after_events(download, front), events.last());
    lemma_history(download, front);
    assert(forall|i: int| 0 <= i < front.len() ==> front[i] == events[i]);
}

/// No run that fetched ranges is complete if one of the fetches failed.
pub proof fn law_failed_range_fails_file(
    download: FileDownloadView,
    events: Seq<FileEvent>,
    k: int,
    i: int,
)
    requires
        download.phase == FilePhase::CreatingFolder,
        events.len() > 0,
        all_expected(download, events),
        0 <= k < events.len(),
        events[k] matches FileEvent::RangesFetched { outcomes } && 0 <= i < outcomes@.len()
            && outcomes@[i] is Err,
    ensures
        !(file_step(after_events(download, events.drop_last()), events.last()).1 is Complete),
{
    let last = file_step(after_events(download, events.drop_last()), events.last()).1;
    if last is Complete {
        law_complete_file_is_all_there(download, events);
        lemma_when_ranges_fetched(download, events, k);
        assert(events[5]->outcomes@[i] is Ok);
    }
}

/// The outcomes of the ranges come sixth.
proof fn lemma_when_ranges_fetched(start: FileDownloadView, events: Seq<FileEvent>, k: int)
    requires
        start.phase == FilePhase::CreatingFolder,
        all_expected(start, events),
        0 <= k < events.len(),
        events[k] is RangesFetched,
    ensures
        k == 5,
    decreases events.len(),
{
    let front = events.drop_last();
    if k == events.len() - 1 {
        lemma_history(start, front);
    } else {
        assert(front[k] == events[k]);
        lemma_when_ranges_fetched(start, front, k);
    }
}

/// The ranges whose fetches came out well.
pub open spec fn fetched_ranges(
    pending: Seq<ByteRange>,
    outcomes: Seq<Result<(), String>>,
) -> Seq<ByteRange>
    decreases outcomes.len(),
{
    if outcomes.len() == 0 {
        Seq::empty()
    } else {
        let front = fetched_ranges(pending, outcomes.drop_last());
        if outcomes.last() is Ok {
            front.push(pending[outcomes.len() - 1])
        } else {
            front
        }
    }
}

proof fn lemma_all_fetched_ranges(pending: Seq<ByteRange>, outcomes: Seq<Result<(), String>>)
    requires
        outcomes.len() <= pending.len(),
        forall|i: int| 0 <= i < outcomes.len() ==> (#[trigger] outcomes[i]) is Ok,
    ensures
        fetched_ranges(pending, outcomes) == pending.take(outcomes.len() as int),
    decreases outcomes.len(),
{
    let n = outcomes.len() as int;
    if n > 0 {
        assert forall|i: int| 0 <= i < n - 1 implies (#[trigger] outcomes.drop_last()[i]) is Ok by {
            assert(outcomes[i] is Ok);
        }
        lemma_all_fetched_ranges(pending, outcomes.drop_last());
        assert(outcomes[n - 1] is Ok);
        assert(pending.take(n) =~= pending.take(n - 1).push(pending[n - 1]));
    }
}

/// With the ranges noted whose fetches came out well, all planned ranges are completed.
pub proof fn law_fetched_ranges_are_the_plan(
    total: u64,
    kept: Seq<ByteRange>,
    outcomes: Seq<Result<(), String>>,
)
    requires
        ranges::ascending(kept),
        ranges::all_planned(total, kept),
        all_fetched(total, kept, outcomes),
    ensures
        noted(total, kept, fetched_ranges(ranges::pending(total, kept), outcomes))
            == ranges::planned(total),
{
    let pending = ranges::pending(total, kept);
    lemma_all_fetched_ranges(pending, outcomes);
    assert(pending.take(outcomes.len() as int) =~= pending);
    assert forall|i: int| 0 <= i < pending.len() implies ranges::planned(total).contains(
        #[trigger] pending[i],
    ) by {
        assert(pending.contains(pending[i]));
        ranges::law_every_range_is_completed_or_pending(total, kept, pending[i]);
    }
    law_all_pending_done_is_all(total, kept, pending);
}

proof fn lemma_fetched_ranges(pending: Seq<ByteRange>, outcomes: Seq<Result<(), String>>)
    requires
        outcomes.len() <= pending.len(),
    ensures
        forall|range: ByteRange| #[trigger]
            fetched_ranges(pending, outcomes).contains(range) <==> exists|i: int|
                0 <= i < outcomes.len() && #[trigger] pending[i] == range && outcomes[i] is Ok,
    decreases outcomes.len(),
{
    if outcomes.len() > 0 {
        let n = outcomes.len() - 1;
        let shorter = outcomes.drop_last();
        let front = fetched_ranges(pending, shorter);
        lemma_fetched_ranges(pending, shorter);
        assert forall|range: ByteRange| #[trigger]
            fetched_ranges(pending, outcomes).contains(range) <==> exists|i: int|
                0 <= i < outcomes.len() && #[trigger] pending[i] == range && outcomes[i] is Ok by {
            if outcomes.last() is Ok {
                ranges::lemma_push_to_set(front, pending[n]);
                assert(front.push(pending[n]).to_set().contains(range) == front.to_set().insert(
                    pending[n],
                ).contains(range));
            }
            if front.contains(range) {
                let i = choose|i: int|
                    0 <= i < shorter.len() && #[trigger] pending[i] == range && shorter[i] is Ok;
                assert(pending[i] == range && outcomes[i] is Ok);
            }
            if exists|i: int|
                0 <= i < outcomes.len() && #[trigger] pending[i] == range && outcomes[i] is Ok {
                let i = choose|i: int|
                    0 <= i < outcomes.len() && #[trigger] pending[i] == range && outcomes[i] is Ok;
                if i < n {
                    assert(pending[i] == range && shorter[i] is Ok);
                }
            }
        }
    }
}

/// A run of which some fetches failed leaves a record that the next run takes up: it is read back
/// as it is, and what is pending then are exactly the ranges whose fetches failed.
pub proof fn law_failed_run_is_taken_up(
    total: u64,
    kept: Seq<ByteRange>,
    outcomes: Seq<Result<(), String>>,
)
    requires
        ranges::ascending(kept),
        ranges::all_planned(total, kept),
        outcomes.len() == ranges::pending(total, kept).len(),
    ensures
        ({
            let pending = ranges::pending(total, kept);
            let record = noted(total, kept, fetched_ranges(pending, outcomes));
            &&& ranges::resumable(Some(total), record, total)
            &&& ranges::ascending(record)
            &&& forall|recorded: Vec<ByteRange>|
                recorded@ == record ==> #[trigger] kept_ranges(
                    total,
                    Some(total),
                    Some(recorded),
                ) == record
            &&& forall|i: int|
                0 <= i < pending.len() ==> (ranges::pending(total, record).contains(
                    #[trigger] pending[i],
                ) <==> outcomes[i] is Err)
            &&& forall|range: ByteRange| #[trigger]
                ranges::pending(total, record).contains(range) <==> exists|i: int|
                    0 <= i < pending.len() && #[trigger] pending[i] == range && outcomes[i] is Err
        }),
{
    let plan = ranges::planned(total);
    let pending = ranges::pending(total, kept);
    let fetched = fetched_ranges(pending, outcomes);
    let record = noted(total, kept, fetched);
    ranges::lemma_pending_ascending(total, kept);
    lemma_fetched_ranges(pending, outcomes);
    assert forall|i: int| 0 <= i < pending.len() implies plan.contains(#[trigger] pending[i])
        && !kept.contains(pending[i]) by {
        assert(pending.contains(pending[i]));
        ranges::law_every_range_is_completed_or_pending(total, kept, pending[i]);
    }
    assert forall|k: int| 0 <= k < fetched.len() implies plan.contains(#[trigger] fetched[k]) by {
        assert(fetched.contains(fetched[k]));
        let i = choose|i: int|
            0 <= i < outcomes.len() && #[trigger] pending[i] == fetched[k] && outcomes[i] is Ok;
        assert(plan.contains(pending[i]));
    }
    lemma_noted(total, kept, fetched);
    assert forall|i: int| 0 <= i < pending.len() implies (fetched.contains(#[trigger] pending[i])
        <==> outcomes[i] is Ok) by {
        if fetched.contains(pending[i]) {
            let j = choose|j: int|
                0 <= j < outcomes.len() && #[trigger] pending[j] == pending[i] && outcomes[j] is Ok;
            if j < i {
                assert(ranges::range_less(pending[j], pending[i]));
            } else if i < j {
                assert(ranges::range_less(pending[i], pending[j]));
            }
        } else if outcomes[i] is Ok {
            assert(pending[i] == pending[i] && outcomes[i] is Ok);
        }
    }
    assert forall|i: int| 0 <= i < pending.len() implies (ranges::pending(total, record).contains(
        #[trigger] pending[i],
    ) <==> outcomes[i] is Err) by {
        ranges::law_every_range_is_completed_or_pending(total, record, pending[i]);
        assert(record.contains(pending[i]) <==> fetched.contains(pending[i]));
    }
    assert forall|range: ByteRange| #[trigger]
        ranges::pending(total, record).contains(range) <==> exists|i: int|
            0 <= i < pending.len() && #[trigger] pending[i] == range && outcomes[i] is Err by {
        ranges::law_every_range_is_completed_or_pending(total, record, range);
        ranges::law_every_range_is_completed_or_pending(total, kept, range);
        if ranges::pending(total, record).contains(range) {
            assert(record.contains(range) <==> kept.contains(range) || fetched.contains(range));
            assert(pending.contains(range));
            let i = choose|i: int| 0 <= i < pending.len() && pending[i] == range;
            assert(ranges::pending(total, record).contains(pending[i]));
        }
        if exists|i: int|
            0 <= i < pending.len() && #[trigger] pending[i] == range && outcomes[i] is Err {
            let i = choose|i: int|
                0 <= i < pending.len() && #[trigger] pending[i] == range && outcomes[i] is Err;
            assert(ranges::pending(total, record).contains(pending[i]));
        }
    }
    assert forall|recorded: Vec<ByteRange>| recorded@ == record implies #[trigger] kept_ranges(
        total,
        Some(total),
        Some(recorded),
    ) == record by {
        ranges::lemma_kept_ranges(total, record, record);
    }
}

/// Noting completed ranges while they are fetched changes nothing of the further steps: with other
/// completed ranges the same is done, up to the end.
pub proof fn law_notes_change_no_step(
    download: FileDownloadView,
    completed: Seq<ByteRange>,
    event: FileEvent,
)
    requires
        download.phase is FetchingRanges || download.phase == FilePhase::CheckingPartial
            || download.phase == FilePhase::Renaming,
        expects(download.phase, event),
    ensures
        ({
            let (next, action) = file_step(download, event);
            file_step(FileDownloadView { completed, ..download }, event) == (
                FileDownloadView { completed, ..next },
                action,
            )
        }),
{
}

/// A resumed download fetches the planned ranges that were not recorded, and counts the others as
/// downloaded; the two make up the file.
pub proof fn law_resume_fetches_what_is_missing(
    download: FileDownloadView,
    partial_len: Option<u64>,
    recorded: Vec<ByteRange>,
)
    requires
        download.phase == FilePhase::ReadingRecord,
        ranges::resumable(partial_len, recorded@, download.total),
    ensures
        ({
            let (prepared, action) = file_step(
                download,
                FileEvent::Record { partial_len, recorded: Some(recorded) },
            );
            let (_, fetch) = file_step(prepared, FileEvent::Done);
            &&& action matches FileActionView::Prepare { discard, already }
            &&& !discard
            &&& fetch matches FileActionView::FetchRanges { pending }
            &&& already + ranges::ranges_len(pending) == download.total
            &&& forall|range: ByteRange|
                ranges::planned(download.total).contains(range) ==> (#[trigger] pending.contains(
                    range,
                ) <==> !recorded@.contains(range))
        }),
{
    let total = download.total;
    let kept = kept_ranges(total, partial_len, Some(recorded));
    ranges::lemma_kept_of_plan(total, recorded@);
    ranges::law_completed_and_pending(total, kept);
    assert forall|range: ByteRange| ranges::planned(total).contains(range) implies (
    #[trigger] ranges::pending(total, kept).contains(range) <==> !recorded@.contains(range)) by {
        ranges::law_every_range_is_completed_or_pending(total, kept, range);
        assert(kept.contains(range) <==> ranges::planned(total).contains(range)
            && recorded@.contains(range));
    }
}

/// Where nothing usable is recorded, the record is discarded and every planned range is fetched.
pub proof fn law_fresh_start_fetches_all(
    download: FileDownloadView,
    partial_len: Option<u64>,
    recorded: Option<Vec<ByteRange>>,
)
    requires
        download.phase == FilePhase::ReadingRecord,
        !(recorded is Some && ranges::resumable(partial_len, recorded->0@, download.total)),
    ensures
        ({
            let (prepared, action) = file_step(
                download,
                FileEvent::Record { partial_len, recorded },
            );
            let (_, fetch) = file_step(prepared, FileEvent::Done);
            &&& action == (FileActionView::Prepare { discard: true, already: 0 })
            &&& fetch == (FileActionView::FetchRanges {
                pending: ranges::planned(download.total),
            })
        }),
{
    ranges::lemma_nothing_completed(download.total);
}

/// The completed ranges after `done` have been noted, one after the other.
pub open spec fn noted(total: u64, completed: Seq<ByteRange>, done: Seq<ByteRange>) -> Seq<ByteRange>
    decreases done.len(),
{
    if done.len() == 0 {
        completed
    } else {
        ranges::planned(total).filter(
            ranges::within(noted(total, completed, done.drop_last()).push(done.last())),
        )
    }
}

proof fn lemma_noted(total: u64, completed: Seq<ByteRange>, done: Seq<ByteRange>)
    requires
        ranges::ascending(completed),
        ranges::all_planned(total, completed),
        ranges::all_planned(total, done),
    ensures
        ranges::ascending(noted(total, completed, done)),
        ranges::all_planned(total, noted(total, completed, done)),
        forall|range: ByteRange| #[trigger]
            noted(total, completed, done).contains(range) <==> completed.contains(range)
                || done.contains(range),
    decreases done.len(),
{
    if done.len() > 0 {
        let before = noted(total, completed, done.drop_last());
        let named = before.push(done.last());
        assert forall|i: int| 0 <= i < done.len() - 1 implies ranges::planned(total).contains(
            #[trigger] done.drop_last()[i],
        ) by {
            assert(ranges::planned(total).contains(done[i]));
        }
        lemma_noted(total, completed, done.drop_last());
        ranges::lemma_kept_of_plan(total, named);
        ranges::lemma_push_to_set(before, done.last());
        ranges::lemma_push_to_set(done.drop_last(), done.last());
        assert(done.drop_last().push(done.last()) =~= done);
        assert(ranges::planned(total).contains(done[done.len() - 1]));
        assert forall|range: ByteRange| #[trigger]
            noted(total, completed, done).contains(range) <==> completed.contains(range)
                || done.contains(range) by {
            assert(named.to_set().contains(range) == named.contains(range));
            assert(before.to_set().contains(range) == before.contains(range));
            assert(done.to_set().contains(range) == done.contains(range));
            assert(done.drop_last().to_set().contains(range) == done.drop_last().contains(range));
            if before.contains(range) {
                let k = choose|k: int| 0 <= k < before.len() && before[k] == range;
                assert(ranges::planned(total).contains(before[k]));
            }
        }
    }
}

/// Once every pending range has been noted as completed, in whatever order, all planned ranges
/// are, and nothing is pending.
pub proof fn law_all_pending_done_is_all(
    total: u64,
    completed: Seq<ByteRange>,
    done: Seq<ByteRange>,
)
    requires
        ranges::ascending(completed),
        ranges::all_planned(total, completed),
        ranges::all_planned(total, done),
        forall|range: ByteRange|
            ranges::pending(total, completed).contains(range) ==> #[trigger] done.contains(range),
    ensures
        noted(total, completed, done) == ranges::planned(total),
        ranges::pending(total, noted(total, completed, done)).len() == 0,
{
    let plan = ranges::planned(total);
    let all = noted(total, completed, done);
    lemma_noted(total, completed, done);
    assert forall|range: ByteRange| #[trigger] all.contains(range) <==> plan.contains(range) by {
        ranges::law_every_range_is_completed_or_pending(total, completed, range);
        if done.contains(range) {
            let k = choose|k: int| 0 <= k < done.len() && done[k] == range;
            assert(plan.contains(done[k]));
        }
        if ranges::pending(total, completed).contains(range) {
            assert(done.contains(range));
        }
    }
    ranges::lemma_planned_ascending(total);
    ranges::lemma_ascending_unique(all, plan);
    assert forall|i: int| 0 <= i < plan.len() implies all.contains(#[trigger] plan[i]) by {
        assert(plan.contains(plan[i]));
    }
    ranges::law_nothing_pending_when_all_completed(total, all);
}

} // verus!
