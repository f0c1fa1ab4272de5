//! What the download of a file comes to, step by step.

use crate::download;
use crate::download::{
    FileAction, FileActionView, FileDownload, FileDownloadView, FileEvent, FilePhase,
};
use crate::events::EventView;
use crate::probe;
use crate::ranges;
use crate::ranges::ByteRange;
use crate::text;
use vstd::prelude::*;

verus! {

/// The report is one on the file with the given index: how much of it is there and how large it is,
/// without an error.
pub open spec fn is_report_on(
    report: EventView,
    index: usize,
    status: Seq<char>,
    downloaded: u64,
    total: u64,
) -> bool {
    report == (EventView::File { index, status, downloaded, total, error: None })
}

/// Every report that a step makes is on the file that is downloaded, and has its size: a report at
/// the start says that nothing is there yet, and one at the end that all of it is.
pub proof fn law_reports_are_on_the_file(download: FileDownloadView, event: FileEvent)
    ensures
        match download::file_step(download, event).1 {
            FileActionView::ReadRecord { report } => is_report_on(
                report,
                download.index,
                "downloading"@,
                0,
                download.total,
            ),
            FileActionView::FetchWhole { report } => is_report_on(
                report,
                download.index,
                "downloading"@,
                0,
                download.total,
            ),
            FileActionView::Complete { report, .. } => is_report_on(
                report,
                download.index,
                "complete"@,
                download.total,
                download.total,
            ),
            _ => true,
        },
{
}

/// A download is about one file: where it comes from and where it goes never changes. Its size is
/// set when the server has told it, and the completed ranges only then and when the record is read.
pub proof fn law_download_keeps_its_file(download: FileDownloadView, event: FileEvent)
    ensures
        ({
            let next = download::file_step(download, event).0;
            &&& next.index == download.index
            &&& next.hinted == download.hinted
            &&& next.url == download.url
            &&& next.paths == download.paths
            &&& !(event is Probed) ==> next.total == download.total
            &&& !(event is Probed) && !(event is Record) ==> next.completed == download.completed
        }),
{
}

/// Whatever goes wrong ends the download with that error.
pub proof fn law_failure_ends_download(download: FileDownloadView, error: String)
    ensures
        ({
            let (next, action) = download::file_step(download, FileEvent::Failed { error });
            &&& next.phase == FilePhase::Ended
            &&& action == (FileActionView::GiveUp { error: error@ })
        }),
{
}

/// What follows when something is done: after the folder the first byte is asked for; after the
/// partial file is prepared the pending ranges are fetched; after the whole file is fetched the
/// partial file is looked at; and after it is renamed the file is complete and its record goes.
pub proof fn law_what_follows_when_done(download: FileDownloadView)
    requires
        download::expects(download.phase, FileEvent::Done),
    ensures
        ({
            let (next, action) = download::file_step(download, FileEvent::Done);
            match download.phase {
                FilePhase::CreatingFolder => next.phase == FilePhase::Probing && action
                    == FileActionView::Probe,
                FilePhase::Preparing => {
                    &&& next.phase is FetchingRanges
                    &&& action matches FileActionView::FetchRanges { pending }
                    &&& next.phase->asked as int == pending.len() as int
                    &&& ranges::ascending(pending)
                    &&& forall|range: ByteRange| #[trigger]
                        pending.contains(range) <==> ranges::planned(download.total).contains(range)
                            && !download.completed.contains(range)
                },
                FilePhase::FetchingWhole => next.phase == FilePhase::CheckingPartial && action
                    == FileActionView::StatPartial,
                FilePhase::Renaming => next.phase == FilePhase::Ended && (action matches
                    FileActionView::Complete { remove_record, .. } && remove_record),
                _ => false,
            }
        }),
{
    if download.phase == FilePhase::Preparing {
        let pending = ranges::pending(download.total, download.completed);
        ranges::lemma_pending_ascending(download.total, download.completed);
        ranges::lemma_range_count(download.total, download.completed);
        ranges::lemma_pending_contains(download.total, download.completed);
    }
}

/// The first answer decides: its size and whether ranges work are taken over with nothing
/// completed, and then the finished file is looked at; an error ends the download.
pub proof fn law_what_follows_the_first_answer(download: FileDownloadView, reply: probe::ProbeReply)
    ensures
        ({
            let (next, action) = download::file_step(download, FileEvent::Probed { reply });
            match probe::probe_result(reply, download.hinted) {
                Ok(found) => {
                    &&& next.total == found.0
                    &&& next.completed.len() == 0
                    &&& next.phase == (FilePhase::CheckingTarget { ranged: found.1 })
                    &&& action == FileActionView::StatTarget
                },
                Err(error) => {
                    &&& next.phase == FilePhase::Ended
                    &&& action == (FileActionView::GiveUp { error })
                },
            }
        }),
{
}

/// A finished file of full size needs nothing, and its record is left alone. Otherwise the file is
/// fetched: in ranges, after a look at the record, where the server can do that, and whole where
/// it cannot.
pub proof fn law_what_follows_the_finished_file(
    download: FileDownloadView,
    len: Option<u64>,
    ranged: bool,
)
    requires
        download.phase == (FilePhase::CheckingTarget { ranged }),
    ensures
        ({
            let (next, action) = download::file_step(download, FileEvent::TargetLength { len });
            let there = len is Some && len->0 == download.total;
            &&& there ==> next.phase == FilePhase::Ended && (action matches
                FileActionView::Complete { remove_record, .. } && !remove_record)
            &&& !there && ranged ==> next.phase == FilePhase::ReadingRecord && action is ReadRecord
            &&& !there && !ranged ==> next.phase == FilePhase::FetchingWhole && action is FetchWhole
        }),
{
}

/// A record can be used: the partial file has its full length, and every range in the record is one
/// that is planned for the file.
pub open spec fn usable(
    total: u64,
    partial_len: Option<u64>,
    recorded: Option<Vec<ByteRange>>,
) -> bool {
    &&& partial_len is Some && partial_len->0 == total
    &&& recorded is Some
    &&& forall|range: ByteRange| #[trigger]
        recorded->0@.contains(range) ==> ranges::planned(total).contains(range)
}

/// A record that can be used is kept: its ranges, and no others, count as completed, each once and
/// with its bytes. One that cannot be used is discarded, and nothing counts as completed.
pub proof fn law_what_follows_the_record(
    download: FileDownloadView,
    partial_len: Option<u64>,
    recorded: Option<Vec<ByteRange>>,
)
    ensures
        ({
            let (next, action) = download::file_step(
                download,
                FileEvent::Record { partial_len, recorded },
            );
            let usable = usable(download.total, partial_len, recorded);
            &&& next.phase == FilePhase::Preparing
            &&& ranges::ascending(next.completed)
            &&& forall|range: ByteRange| #[trigger]
                next.completed.contains(range) <==> usable && recorded->0@.contains(range)
            &&& action matches FileActionView::Prepare { discard, already }
            &&& discard == !usable
            &&& already == bytes_in(next.completed)
        }),
{
    let total = download.total;
    let next = download::file_step(download, FileEvent::Record { partial_len, recorded }).0;
    if recorded is Some {
        let named = recorded->0@;
        assert(ranges::resumable(partial_len, named, total) <==> usable(
            total,
            partial_len,
            recorded,
        )) by {
            if ranges::resumable(partial_len, named, total) {
                assert forall|range: ByteRange| #[trigger]
                    named.contains(range) implies ranges::planned(total).contains(range) by {
                    let k = choose|k: int| 0 <= k < named.len() && named[k] == range;
                    assert(ranges::planned(total).contains(named[k]));
                }
            }
            if usable(total, partial_len, recorded) {
                assert forall|i: int| 0 <= i < named.len() implies ranges::planned(total).contains(
                    #[trigger] named[i],
                ) by {
                    assert(named.contains(named[i]));
                }
            }
        }
        ranges::lemma_kept_of_plan(total, named);
    }
    lemma_bytes_in(next.completed);
}

/// The bytes of some ranges, from the first to the last byte of each.
pub open spec fn bytes_in(ranges: Seq<ByteRange>) -> int {
    ranges.fold_left(0int, |sum: int, range: ByteRange| sum + (range.end - range.start) + 1)
}

proof fn lemma_bytes_in(completed: Seq<ByteRange>)
    ensures
        ranges::ranges_len(completed) == bytes_in(completed),
    decreases completed.len(),
{
    if completed.len() > 0 {
        lemma_bytes_in(completed.drop_last());
    }
}

/// The outcomes of the ranges decide: with none failed the partial file is looked at, and
/// otherwise the download ends with the error of the first one that failed.
pub proof fn law_what_follows_the_ranges(
    download: FileDownloadView,
    outcomes: Vec<Result<(), String>>,
)
    ensures
        ({
            let (next, action) = download::file_step(
                download,
                FileEvent::RangesFetched { outcomes },
            );
            let good = forall|i: int| 0 <= i < outcomes@.len() ==> (#[trigger] outcomes@[i]) is Ok;
            &&& good ==> next.phase == FilePhase::CheckingPartial && action
                == FileActionView::StatPartial
            &&& !good ==> next.phase == FilePhase::Ended && exists|i: int|
                0 <= i < outcomes@.len() && (#[trigger] outcomes@[i]) is Err && action == (
                FileActionView::GiveUp { error: outcomes@[i]->Err_0@ }) && forall|k: int|
                    0 <= k < i ==> (#[trigger] outcomes@[k]) is Ok
        }),
{
    lemma_first_error(outcomes@);
}

proof fn lemma_first_error(outcomes: Seq<Result<(), String>>)
    ensures
        match download::first_error(outcomes) {
            None => forall|i: int| 0 <= i < outcomes.len() ==> (#[trigger] outcomes[i]) is Ok,
            Some(error) => exists|i: int|
                0 <= i < outcomes.len() && (#[trigger] outcomes[i]) is Err && error
                    == outcomes[i]->Err_0@ && forall|k: int|
                    0 <= k < i ==> (#[trigger] outcomes[k]) is Ok,
        },
    decreases outcomes.len(),
{
    if outcomes.len() > 0 {
        let front = outcomes.drop_last();
        lemma_first_error(front);
        assert(forall|i: int| 0 <= i < front.len() ==> front[i] == outcomes[i]);
        match download::first_error(front) {
            Some(error) => {
                let i = choose|i: int|
                    0 <= i < front.len() && (#[trigger] front[i]) is Err && error
                        == front[i]->Err_0@ && forall|k: int|
                        0 <= k < i ==> (#[trigger] front[k]) is Ok;
                assert(outcomes[i] is Err);
                assert forall|k: int| 0 <= k < i implies (#[trigger] outcomes[k]) is Ok by {
                    assert(front[k] is Ok);
                }
            },
            None => {
                assert forall|k: int| 0 <= k < front.len() implies (#[trigger] outcomes[k]) is Ok by {
                    assert(front[k] is Ok);
                }
                if outcomes.last() is Err {
                    assert(outcomes[outcomes.len() - 1] is Err);
                }
            },
        }
    }
}

/// A partial file of full size is renamed; one of another size ends the download with an error
/// that names both sizes.
pub proof fn law_what_follows_the_partial_file(download: FileDownloadView, actual: u64)
    ensures
        ({
            let (next, action) = download::file_step(download, FileEvent::PartialLength { actual });
            &&& actual == download.total ==> next.phase == FilePhase::Renaming && action
                == FileActionView::Rename
            &&& actual != download.total ==> next.phase == FilePhase::Ended && action == (
            FileActionView::GiveUp {
                error: "size mismatch: expected "@ + text::decimal(download.total as nat)
                    + ", received "@ + text::decimal(actual as nat),
            })
        }),
{
}

/// The view of a download shows every field of it.
pub proof fn law_download_view_shows_every_field(download: FileDownload)
    ensures
        download@.index == download.index,
        download@.hinted == download.hinted,
        download@.url == download.url@,
        download@.total == download.total,
        download@.completed == download.completed.in_order(),
        download@.phase == download.phase,
        download@.paths.target == download.paths.target@,
        download@.paths.folder == download.paths.folder@,
        download@.paths.partial == download.paths.partial@,
        download@.paths.ranges == download.paths.ranges@,
        download@.paths.ranges_temp == download.paths.ranges_temp@,
{
}

/// The view of an action shows what the action is and everything that it carries.
pub proof fn law_file_action_view_shows_everything(action: FileAction)
    ensures
        match action {
            FileAction::CreateFolder => action@ is CreateFolder,
            FileAction::Probe => action@ is Probe,
            FileAction::StatTarget => action@ is StatTarget,
            FileAction::ReadRecord { report } => action@ == (FileActionView::ReadRecord {
                report: report@,
            }),
            FileAction::Prepare { discard, already } => action@ matches FileActionView::Prepare {
                discard: d,
                already: a,
            } && d == discard && a == already,
            FileAction::FetchRanges { pending } => action@ == (FileActionView::FetchRanges {
                pending: pending@,
            }),
            FileAction::FetchWhole { report } => action@ == (FileActionView::FetchWhole {
                report: report@,
            }),
            FileAction::StatPartial => action@ is StatPartial,
            FileAction::Rename => action@ is Rename,
            FileAction::Complete { remove_record, report } => action@ == (
            FileActionView::Complete { remove_record, report: report@ }),
            FileAction::GiveUp { error } => action@ == (FileActionView::GiveUp { error: error@ }),
        },
{
}

} // verus!
