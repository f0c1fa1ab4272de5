use simplehf::download::{first_file_action, FileAction, FileDownload, FileEvent};
use simplehf::engine::{
    check_manifest_line, default_connections, job_failure, job_started, manifest_failure,
    open_session, permits, start_file, Control, ControlCommand, ControlState, JobRun, Manifest,
    ManifestFile, TaskOutcome,
};
use simplehf::events::{maybe_emit, Event, FileState, EMIT_INTERVAL};
use simplehf::probe::ProbeReply;
use simplehf::ranges::{chunk_ranges, ByteRange};
use simplehf::transfer::{
    backoff_seconds, first_byte_header, first_fetch_action, ignored_range_error, range_header, FetchAction, FetchEvent, Phase, RangeFetch,
    WholeEvent, WholeFetch, RETRIES,
};

const MIB: u64 = 1024 * 1024;

fn file_report(event: &Event) -> (usize, &str, u64, u64) {
    match event {
        Event::File { index, status, downloaded, total, error } => {
            assert!(error.is_none());
            (*index, *status, *downloaded, *total)
        }
        Event::Job { .. } => panic!("a report on the job"),
    }
}

fn job_report(event: &Event) -> (&str, Option<&str>) {
    match event {
        Event::Job { status, error } => (*status, error.as_deref()),
        Event::File { .. } => panic!("a report on a file"),
    }
}

#[test]
fn pause_blocks_work_until_resume() {
    let mut control = Control::new();
    control.set(ControlState::Paused);
    assert!(!control.checkpoint(false));
    control.set(ControlState::Running);
    assert!(control.checkpoint(false));
}

#[test]
fn commands_are_followed_and_reported() {
    let mut control = Control::new();
    assert!(control.checkpoint(false));
    let event = control.follow(ControlCommand::Pause);
    assert_eq!(job_report(&event), ("paused", None));
    assert!(!control.checkpoint(false));
    assert!(control.checkpoint(true));
    let event = control.follow(ControlCommand::Resume);
    assert_eq!(job_report(&event), ("downloading", None));
    assert!(control.checkpoint(false));
}

#[test]
fn a_job_uses_a_limited_number_of_connections() {
    assert_eq!(default_connections(), 8);
    assert_eq!(permits(0), 1);
    assert_eq!(permits(1), 1);
    assert_eq!(permits(8), 8);
    assert_eq!(permits(32), 32);
    assert_eq!(permits(33), 32);
    assert_eq!(permits(usize::MAX), 32);
}

#[test]
fn a_job_that_cannot_be_read_is_reported() {
    assert_eq!(check_manifest_line(0), Err("empty manifest".to_string()));
    assert_eq!(check_manifest_line(1), Ok(()));
    let event = manifest_failure("empty manifest");
    assert_eq!(
        job_report(&event),
        ("failed", Some("invalid manifest: empty manifest"))
    );
}

#[test]
fn a_job_starts_with_a_valid_id_and_a_usable_token() {
    assert_eq!(open_session("o/m", None).unwrap(), None);
    assert_eq!(open_session("o/m", Some("  ")).unwrap(), None);
    assert_eq!(
        open_session("o/m", Some(" hf_x ")).unwrap(),
        Some("Bearer hf_x".to_string())
    );
    let event = open_session("o", Some("a\nb")).unwrap_err();
    assert_eq!(
        job_report(&event),
        ("failed", Some("repository ID must be organization/model"))
    );
    let event = open_session("o/m", Some("a\nb")).unwrap_err();
    assert_eq!(job_report(&event), ("failed", Some("invalid token")));
    assert_eq!(job_report(&job_started()), ("downloading", None));
    assert_eq!(
        job_report(&job_failure("x".to_string())),
        ("failed", Some("x"))
    );
}

#[test]
fn a_job_fails_when_one_of_its_files_fails() {
    let mut run = JobRun::new();
    assert!(run.take(TaskOutcome::Finished).is_none());
    assert_eq!(job_report(&run.last_report()), ("complete", None));
    let report = run
        .take(TaskOutcome::Failed { index: 3, error: "e".to_string() })
        .unwrap();
    match report {
        Event::File { index, status, downloaded, total, error } => {
            assert_eq!((index, status, downloaded, total), (3, "failed", 0, 0));
            assert_eq!(error.as_deref(), Some("e"));
        }
        Event::Job { .. } => panic!("a report on the job"),
    }
    assert!(run.take(TaskOutcome::Finished).is_none());
    assert_eq!(job_report(&run.last_report()), ("failed", None));

    let mut run = JobRun::new();
    let report = run.take(TaskOutcome::Crashed { error: "panic".to_string() }).unwrap();
    assert_eq!(job_report(&report), ("failed", Some("panic")));
    assert_eq!(job_report(&run.last_report()), ("failed", None));
}

#[test]
fn reports_are_spaced_but_the_last_byte_is_always_reported() {
    let mut state = FileState { downloaded: 0, total: 100, last_emit: 1_000 };
    assert!(maybe_emit(7, &mut state, 10, "downloading", 1_000 + EMIT_INTERVAL - 1).is_none());
    assert_eq!(state.last_emit, 1_000);
    let event = maybe_emit(7, &mut state, 20, "downloading", 1_000 + EMIT_INTERVAL).unwrap();
    assert_eq!(file_report(&event), (7, "downloading", 20, 100));
    assert_eq!(state.last_emit, 1_000 + EMIT_INTERVAL);
    let event = maybe_emit(7, &mut state, 100, "downloading", 1_001 + EMIT_INTERVAL).unwrap();
    assert_eq!(file_report(&event), (7, "downloading", 100, 100));
    // A clock that goes back does not count as time passed.
    assert!(maybe_emit(7, &mut state, 50, "downloading", 0).is_none());
}

#[test]
fn waits_double_up_to_a_limit() {
    let waits: Vec<u64> = (0..7).map(backoff_seconds).collect();
    assert_eq!(waits, vec![1, 2, 4, 8, 16, 16, 16]);
}

#[test]
fn a_range_is_asked_for_in_its_header() {
    assert_eq!(range_header(ByteRange { start: 0, end: 0 }), "bytes=0-0");
    assert_eq!(first_byte_header(), "bytes=0-0");
    assert_eq!(
        range_header(ByteRange { start: 8388608, end: 16777215 }),
        "bytes=8388608-16777215"
    );
}

fn state(downloaded: u64) -> FileState {
    FileState { downloaded, total: 1_000, last_emit: 0 }
}

fn receive(fetch: &mut RangeFetch, state: &mut FileState, len: u64) {
    let action = fetch.step(state, FetchEvent::Piece { len }, 1);
    assert!(matches!(action, FetchAction::Write));
    let action = fetch.step(state, FetchEvent::Written, 1);
    assert!(matches!(action, FetchAction::Receive { report: None }));
}

#[test]
fn a_range_is_fetched_piece_by_piece() {
    let mut state = state(500);
    let mut fetch = RangeFetch::new(2, ByteRange { start: 100, end: 199 });
    let action = fetch.step(&mut state, FetchEvent::Answered { status: 206 }, 1);
    assert!(matches!(action, FetchAction::Receive { report: None }));
    receive(&mut fetch, &mut state, 60);
    assert_eq!(state.downloaded, 560);
    fetch.step(&mut state, FetchEvent::Piece { len: 40 }, 1);
    let action = fetch.step(&mut state, FetchEvent::Written, EMIT_INTERVAL);
    match action {
        FetchAction::Receive { report: Some(event) } => {
            assert_eq!(file_report(&event), (2, "downloading", 600, 1_000));
        }
        _ => panic!("no report"),
    }
    assert!(matches!(
        fetch.step(&mut state, FetchEvent::Ended, 1),
        FetchAction::Finished
    ));
    assert_eq!(state.downloaded, 600);
    assert_eq!(fetch.phase, Phase::Ended);
}

#[test]
fn a_failed_attempt_is_taken_back_and_repeated() {
    let mut state = state(500);
    let mut fetch = RangeFetch::new(0, ByteRange { start: 0, end: 99 });
    for wait in [1, 2, 4, 8, 16] {
        fetch.step(&mut state, FetchEvent::Answered { status: 206 }, 1);
        receive(&mut fetch, &mut state, 30);
        assert_eq!(state.downloaded, 530);
        let action = fetch.step(&mut state, FetchEvent::Failed { error: "reset".to_string() }, 1);
        match action {
            FetchAction::Sleep { seconds } => assert_eq!(seconds, wait),
            _ => panic!("no wait"),
        }
        assert_eq!(state.downloaded, 500);
        assert!(matches!(
            fetch.step(&mut state, FetchEvent::Awake, 1),
            FetchAction::Request
        ));
        assert_eq!(fetch.received, 0);
    }
    assert_eq!(fetch.attempt, RETRIES);
    let action = fetch.step(&mut state, FetchEvent::Failed { error: "reset".to_string() }, 1);
    match action {
        FetchAction::GiveUp { error } => assert_eq!(error, "reset"),
        _ => panic!("not given up"),
    }
    assert_eq!(state.downloaded, 500);
}

fn last_attempt(range: ByteRange) -> RangeFetch {
    RangeFetch { index: 0, range, attempt: RETRIES, received: 0, phase: Phase::Requested }
}

fn given_up(action: FetchAction) -> String {
    match action {
        FetchAction::GiveUp { error } => error,
        _ => panic!("not given up"),
    }
}

#[test]
fn answers_that_do_not_fit_the_range_are_errors() {
    let range = ByteRange { start: 10, end: 19 };
    let mut counter = state(0);

    let mut fetch = last_attempt(range);
    let action = fetch.step(&mut counter, FetchEvent::Answered { status: 200 }, 1);
    assert_eq!(given_up(action), "server ignored byte range (HTTP 200 OK)");
    assert_eq!(
        ignored_range_error("416 Range Not Satisfiable"),
        "server ignored byte range (HTTP 416 Range Not Satisfiable)"
    );

    let mut fetch = last_attempt(range);
    fetch.step(&mut counter, FetchEvent::Answered { status: 206 }, 1);
    receive(&mut fetch, &mut counter, 4);
    let action = fetch.step(&mut counter, FetchEvent::Ended, 1);
    assert_eq!(given_up(action), "short range: expected 10, received 4");
    assert_eq!(counter.downloaded, 0);

    let mut fetch = last_attempt(range);
    fetch.step(&mut counter, FetchEvent::Answered { status: 206 }, 1);
    let action = fetch.step(&mut counter, FetchEvent::Piece { len: 11 }, 1);
    assert_eq!(given_up(action), "range response exceeded requested size");
}

#[test]
fn a_whole_file_starts_from_zero_at_every_attempt() {
    let mut state = state(77);
    let mut fetch = WholeFetch::new(1, &mut state);
    assert_eq!(state.downloaded, 0);
    fetch.step(&mut state, WholeEvent::Started, 1);
    let action = fetch.step(&mut state, WholeEvent::Piece { len: 10 }, 1);
    assert!(matches!(action, FetchAction::Write));
    assert_eq!(state.downloaded, 0);
    fetch.step(&mut state, WholeEvent::Written, 1);
    assert_eq!(state.downloaded, 10);
    let action = fetch.step(&mut state, WholeEvent::Failed { error: "e".to_string() }, 1);
    assert!(matches!(action, FetchAction::Sleep { seconds: 1 }));
    assert_eq!(state.downloaded, 10);
    fetch.step(&mut state, WholeEvent::Awake, 1);
    assert_eq!(state.downloaded, 0);
    fetch.step(&mut state, WholeEvent::Started, 1);
    fetch.step(&mut state, WholeEvent::Piece { len: 1_000 }, 1);
    let action = fetch.step(&mut state, WholeEvent::Written, 1);
    match action {
        FetchAction::Receive { report: Some(event) } => {
            assert_eq!(file_report(&event), (1, "downloading", 1_000, 1_000));
        }
        _ => panic!("no report"),
    }
    assert!(matches!(
        fetch.step(&mut state, WholeEvent::Ended, 1),
        FetchAction::Finished
    ));

    let mut fetch = WholeFetch { index: 1, attempt: RETRIES, phase: Phase::Requested };
    let action = fetch.step(&mut state, WholeEvent::Failed { error: "e".to_string() }, 1);
    assert_eq!(given_up(action), "e");

    let mut fetch = WholeFetch { index: 1, attempt: RETRIES, phase: Phase::Receiving };
    let action = fetch.step(&mut state, WholeEvent::Broken { error: "cut".to_string() }, 1);
    assert_eq!(given_up(action), "cut");
}

fn manifest() -> Manifest {
    Manifest {
        repo_id: "org/model".to_string(),
        destination: "/data".to_string(),
        files: vec![
            ManifestFile { path: "w/a b.bin".to_string(), size: Some(20 * MIB) },
            ManifestFile { path: "../x".to_string(), size: None },
        ],
        connections: 8,
    }
}

fn probed(status: u16, total: u64) -> FileEvent {
    FileEvent::Probed {
        reply: ProbeReply::Answered {
            status,
            status_error: None,
            content_range: Some(format!("bytes 0-0/{total}")),
            content_length: None,
        },
    }
}

fn started() -> FileDownload {
    let mut download = start_file(&manifest(), 0).unwrap();
    assert!(matches!(download.step(FileEvent::Done), FileAction::Probe));
    download
}

#[test]
fn a_download_knows_its_address_and_its_paths() {
    let download = started();
    assert_eq!(
        download.url,
        "https://huggingface.co/org/model/resolve/main/w/a%20b.bin?download=true"
    );
    assert_eq!(download.paths.target, "/data/org/model/w/a b.bin");
    assert_eq!(download.paths.partial, "/data/org/model/w/a b.bin.part");
    assert_eq!(
        start_file(&manifest(), 1).unwrap_err(),
        "unsafe repository path: ../x"
    );
}

#[test]
fn a_file_that_is_there_is_not_fetched() {
    let mut download = started();
    assert!(matches!(download.step(probed(206, 42)), FileAction::StatTarget));
    match download.step(FileEvent::TargetLength { len: Some(42) }) {
        FileAction::Complete { remove_record, report } => {
            assert!(!remove_record);
            assert_eq!(file_report(&report), (0, "complete", 42, 42));
        }
        _ => panic!("not complete"),
    }
}

#[test]
fn a_download_resumes_with_the_missing_ranges() {
    let total = 20 * MIB;
    let plan = chunk_ranges(total);
    let mut download = started();
    download.step(probed(206, total));
    match download.step(FileEvent::TargetLength { len: Some(1) }) {
        FileAction::ReadRecord { report } => {
            assert_eq!(file_report(&report), (0, "downloading", 0, total));
        }
        _ => panic!("the record is not read"),
    }
    match download.step(FileEvent::Record {
        partial_len: Some(total),
        recorded: Some(vec![plan[1]]),
    }) {
        FileAction::Prepare { discard, already } => {
            assert!(!discard);
            assert_eq!(already, 8 * MIB);
        }
        _ => panic!("not prepared"),
    }
    match download.step(FileEvent::Done) {
        FileAction::FetchRanges { pending } => assert_eq!(pending, vec![plan[0], plan[2]]),
        _ => panic!("no ranges"),
    }
    download.complete_range(plan[2]);
    assert_eq!(download.completed.ranges(), &vec![plan[1], plan[2]]);
    download.complete_range(plan[0]);
    assert_eq!(download.completed.ranges(), &plan);
    let outcomes = vec![Ok(()), Ok(())];
    assert!(matches!(
        download.step(FileEvent::RangesFetched { outcomes }),
        FileAction::StatPartial
    ));
    assert!(matches!(
        download.step(FileEvent::PartialLength { actual: total }),
        FileAction::Rename
    ));
    match download.step(FileEvent::Done) {
        FileAction::Complete { remove_record, report } => {
            assert!(remove_record);
            assert_eq!(file_report(&report), (0, "complete", total, total));
        }
        _ => panic!("not complete"),
    }
}

#[test]
fn a_stale_record_is_discarded_and_everything_is_fetched() {
    let total = 20 * MIB;
    let mut download = started();
    download.step(probed(206, total));
    download.step(FileEvent::TargetLength { len: None });
    match download.step(FileEvent::Record {
        partial_len: Some(total),
        recorded: Some(vec![ByteRange { start: 1, end: 2 }]),
    }) {
        FileAction::Prepare { discard, already } => {
            assert!(discard);
            assert_eq!(already, 0);
        }
        _ => panic!("not prepared"),
    }
    match download.step(FileEvent::Done) {
        FileAction::FetchRanges { pending } => assert_eq!(pending, chunk_ranges(total)),
        _ => panic!("no ranges"),
    }
}

fn refused(action: FileAction) -> String {
    match action {
        FileAction::GiveUp { error } => error,
        _ => panic!("not given up"),
    }
}

#[test]
fn the_first_error_of_the_ranges_counts() {
    let mut download = started();
    download.step(probed(206, 20 * MIB));
    download.step(FileEvent::TargetLength { len: None });
    download.step(FileEvent::Record { partial_len: None, recorded: None });
    download.step(FileEvent::Done);
    let outcomes = vec![Ok(()), Err("first".to_string()), Err("second".to_string())];
    assert_eq!(refused(download.step(FileEvent::RangesFetched { outcomes })), "first");
}

#[test]
fn a_server_without_ranges_sends_the_whole_file() {
    let mut download = started();
    download.step(probed(200, 42));
    match download.step(FileEvent::TargetLength { len: None }) {
        FileAction::FetchWhole { report } => {
            assert_eq!(file_report(&report), (0, "downloading", 0, 42));
        }
        _ => panic!("not fetched"),
    }
    assert!(matches!(download.step(FileEvent::Done), FileAction::StatPartial));
    assert_eq!(
        refused(download.step(FileEvent::PartialLength { actual: 41 })),
        "size mismatch: expected 42, received 41"
    );
}

#[test]
fn what_goes_wrong_ends_the_download() {
    let mut download = start_file(&manifest(), 0).unwrap();
    let action = download.step(FileEvent::Failed { error: "disk".to_string() });
    assert_eq!(refused(action), "disk");

    let mut download = started();
    let reply = ProbeReply::Failed { error: "dns".to_string() };
    assert_eq!(
        refused(download.step(FileEvent::Probed { reply })),
        "size request failed: dns"
    );
}

#[test]
fn a_piece_that_cannot_be_written_is_taken_out_of_the_counter() {
    let mut counter = state(500);
    let mut fetch = RangeFetch::new(0, ByteRange { start: 0, end: 99 });
    fetch.step(&mut counter, FetchEvent::Answered { status: 206 }, 1);
    receive(&mut fetch, &mut counter, 30);
    fetch.step(&mut counter, FetchEvent::Piece { len: 20 }, 1);
    fetch.step(&mut counter, FetchEvent::Failed { error: "disk".to_string() }, 1);
    assert_eq!(counter.downloaded, 480);

    let mut counter = state(0);
    let mut fetch = RangeFetch::new(0, ByteRange { start: 0, end: 9 });
    fetch.step(&mut counter, FetchEvent::Answered { status: 206 }, 1);
    fetch.step(&mut counter, FetchEvent::Piece { len: 11 }, 1);
    assert_eq!(counter.downloaded, 0u64.wrapping_sub(11));
}

#[test]
fn a_refused_request_leaves_the_counter_alone() {
    let mut counter = state(500);
    let mut fetch = RangeFetch::new(0, ByteRange { start: 0, end: 99 });
    let action = fetch.step(&mut counter, FetchEvent::Answered { status: 503 }, 1);
    assert!(matches!(action, FetchAction::Sleep { seconds: 1 }));
    assert_eq!(counter.downloaded, 500);
}

#[test]
fn ranges_that_take_turns_fill_the_counter() {
    let total = 20 * MIB;
    let plan = chunk_ranges(total);
    let mut counter = FileState { downloaded: 8 * MIB, total, last_emit: 0 };
    let mut first = RangeFetch::new(0, plan[0]);
    let mut second = RangeFetch::new(0, plan[2]);
    first.step(&mut counter, FetchEvent::Answered { status: 206 }, 1);
    second.step(&mut counter, FetchEvent::Answered { status: 206 }, 1);
    receive(&mut first, &mut counter, 5 * MIB);
    receive(&mut second, &mut counter, MIB);
    first.step(&mut counter, FetchEvent::Failed { error: "reset".to_string() }, 1);
    assert_eq!(counter.downloaded, 9 * MIB);
    receive(&mut second, &mut counter, 3 * MIB);
    first.step(&mut counter, FetchEvent::Awake, 1);
    first.step(&mut counter, FetchEvent::Answered { status: 206 }, 1);
    assert!(matches!(
        second.step(&mut counter, FetchEvent::Ended, 1),
        FetchAction::Finished
    ));
    first.step(&mut counter, FetchEvent::Piece { len: 8 * MIB }, 1);
    match first.step(&mut counter, FetchEvent::Written, 1) {
        FetchAction::Receive { report: Some(event) } => {
            assert_eq!(file_report(&event), (0, "downloading", total, total));
        }
        _ => panic!("no report on the last byte"),
    }
    assert!(matches!(
        first.step(&mut counter, FetchEvent::Ended, 1),
        FetchAction::Finished
    ));
    assert_eq!(counter.downloaded, total);
}

#[test]
fn an_answer_that_breaks_off_fails_the_attempt() {
    let mut counter = state(500);
    let mut fetch = RangeFetch::new(0, ByteRange { start: 0, end: 99 });
    fetch.step(&mut counter, FetchEvent::Answered { status: 206 }, 1);
    receive(&mut fetch, &mut counter, 30);
    let action = fetch.step(&mut counter, FetchEvent::Broken { error: "cut".to_string() }, 1);
    assert!(matches!(action, FetchAction::Sleep { seconds: 1 }));
    assert_eq!(counter.downloaded, 500);
}

#[test]
fn a_held_job_neither_asks_nor_takes_anything_in() {
    let mut control = Control::new();
    let broken = FetchEvent::Broken { error: "cut".to_string() };
    assert!(control.lets_out(&FetchAction::Request, false));
    assert!(control.lets_in(&FetchEvent::Piece { len: 5 }, false));
    assert!(control.lets_in(&broken, false));
    assert!(control.lets_in_whole(&WholeEvent::Piece { len: 5 }, false));

    control.set(ControlState::Paused);
    assert!(!control.lets_out(&FetchAction::Request, false));
    assert!(!control.lets_in(&FetchEvent::Piece { len: 5 }, false));
    assert!(!control.lets_in(&broken, false));
    assert!(!control.lets_in_whole(&WholeEvent::Piece { len: 5 }, false));
    assert!(!control.lets_in_whole(&WholeEvent::Broken { error: String::new() }, false));
    assert!(control.lets_out(&FetchAction::Request, true));
    assert!(control.lets_in(&FetchEvent::Piece { len: 5 }, true));

    // What is under way comes to its end.
    assert!(control.lets_out(&FetchAction::Write, false));
    assert!(control.lets_out(&FetchAction::Receive { report: None }, false));
    assert!(control.lets_in(&FetchEvent::Written, false));
    assert!(control.lets_in(&FetchEvent::Ended, false));
    assert!(control.lets_in(&FetchEvent::Answered { status: 206 }, false));
    assert!(control.lets_in_whole(&WholeEvent::Started, false));
}

#[test]
fn a_ranged_file_with_a_failed_range_is_not_complete() {
    for failing in 0..3 {
        let mut download = started();
        download.step(probed(206, 20 * MIB));
        download.step(FileEvent::TargetLength { len: None });
        download.step(FileEvent::Record { partial_len: None, recorded: None });
        download.step(FileEvent::Done);
        let outcomes = (0..3)
            .map(|i| {
                if i == failing {
                    Err("lost".to_string())
                } else {
                    Ok(())
                }
            })
            .collect();
        assert_eq!(refused(download.step(FileEvent::RangesFetched { outcomes })), "lost");
    }
}

#[test]
fn downloads_begin_with_the_folder_and_fetches_with_a_request() {
    assert!(matches!(first_file_action(), FileAction::CreateFolder));
    assert!(matches!(first_fetch_action(), FetchAction::Request));
}

#[test]
fn the_next_run_fetches_the_ranges_that_failed() {
    let total = 20 * MIB;
    let plan = chunk_ranges(total);
    let mut download = started();
    download.step(probed(206, total));
    download.step(FileEvent::TargetLength { len: None });
    download.step(FileEvent::Record { partial_len: None, recorded: None });
    download.step(FileEvent::Done);
    download.complete_range(plan[2]);
    download.complete_range(plan[0]);
    let outcomes = vec![Ok(()), Err("lost".to_string()), Ok(())];
    assert_eq!(refused(download.step(FileEvent::RangesFetched { outcomes })), "lost");
    let recorded = download.completed.ranges().clone();
    assert_eq!(recorded, vec![plan[0], plan[2]]);

    let mut again = started();
    again.step(probed(206, total));
    again.step(FileEvent::TargetLength { len: None });
    match again.step(FileEvent::Record { partial_len: Some(total), recorded: Some(recorded) }) {
        FileAction::Prepare { discard, already } => {
            assert!(!discard);
            assert_eq!(already, 12 * MIB);
        }
        _ => panic!("not prepared"),
    }
    match again.step(FileEvent::Done) {
        FileAction::FetchRanges { pending } => assert_eq!(pending, vec![plan[1]]),
        _ => panic!("no ranges"),
    }
}
