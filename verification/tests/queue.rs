use simplehf::queue::{
    choose_engine, details_line, engine_token, order_job, Change, EngineEvent, EnginePlace, QueuedJob,
};
use simplehf::tree::RepoFile;

fn job() -> QueuedJob {
    let files = vec![
        RepoFile { path: "a".to_string(), size: Some(10), sha256: None },
        RepoFile { path: "b".to_string(), size: None, sha256: None },
    ];
    QueuedJob::new(&files)
}

fn file_event(index: usize, status: &str, downloaded: u64, total: u64) -> EngineEvent {
    EngineEvent::File {
        index,
        status: status.to_string(),
        downloaded,
        total,
        error: None,
    }
}

#[test]
fn a_queued_job_has_its_files_pending() {
    let job = job();
    assert_eq!(job.status, "Queued");
    assert!(!job.over());
    assert_eq!(job.files.len(), 2);
    assert_eq!(job.files[0].path, "a");
    assert_eq!(job.files[0].status, "Pending");
    assert_eq!(job.files[0].total, 10);
    assert_eq!(job.files[1].total, 0);
    assert_eq!(job.totals(), Some((0, 10)));
}

#[test]
fn reports_on_the_job_change_its_line() {
    let mut job = job();
    match job.report(EngineEvent::Job { status: "downloading".to_string(), error: None }) {
        Change::JobLine { line } => assert_eq!(line, "downloading"),
        _ => panic!("no line"),
    }
    assert!(!job.over());
    let error = Some("no space".to_string());
    match job.report(EngineEvent::Job { status: "failed".to_string(), error }) {
        Change::JobLine { line } => assert_eq!(line, "failed \u{2022} no space"),
        _ => panic!("no line"),
    }
    assert!(job.over());
}

#[test]
fn a_job_is_over_when_it_is_complete_failed_or_cancelled() {
    for (status, over) in [
        ("complete", true),
        ("failed", true),
        ("cancelled", true),
        ("paused", false),
        ("Complete", false),
    ] {
        let mut job = job();
        job.report(EngineEvent::Job { status: status.to_string(), error: None });
        assert_eq!(job.over(), over);
    }
}

#[test]
fn reports_on_a_file_change_that_file() {
    let mut job = job();
    match job.report(file_event(1, "downloading", 4, 20)) {
        Change::File { index, grown } => {
            assert_eq!(index, 1);
            assert_eq!(grown, Some(4));
        }
        _ => panic!("no change"),
    }
    match job.report(file_event(1, "downloading", 9, 20)) {
        Change::File { grown, .. } => assert_eq!(grown, Some(5)),
        _ => panic!("no change"),
    }
    match job.report(file_event(1, "downloading", 3, 20)) {
        Change::File { grown, .. } => assert_eq!(grown, Some(0)),
        _ => panic!("no change"),
    }
    match job.report(file_event(1, "complete", 20, 20)) {
        Change::File { grown, .. } => assert_eq!(grown, None),
        _ => panic!("no change"),
    }
    assert_eq!(job.files[1].path, "b");
    assert_eq!(job.files[1].status, "complete");
    assert_eq!(job.files[1].last_bytes, 20);
    assert_eq!(job.files[0].status, "Pending");
    assert_eq!(job.status, "Queued");
    assert_eq!(job.totals(), Some((20, 30)));
}

#[test]
fn reports_on_unknown_files_change_nothing() {
    let mut job = job();
    assert!(matches!(job.report(file_event(2, "downloading", 4, 20)), Change::Nothing));
    assert_eq!(job.totals(), Some((0, 10)));
}

#[test]
fn sums_that_do_not_fit_are_noticed() {
    let mut job = job();
    job.report(file_event(0, "downloading", u64::MAX, 1));
    assert_eq!(job.totals(), Some((u64::MAX, 1)));
    job.report(file_event(1, "downloading", 1, 1));
    assert_eq!(job.totals(), None);
}

#[test]
fn the_details_of_a_file_are_one_line() {
    assert_eq!(
        details_line("downloading", "1.0 KiB", "2.0 KiB", Some("3 B"), &None),
        "downloading \u{2022} 1.0 KiB / 2.0 KiB \u{2022} 3 B/s"
    );
    assert_eq!(
        details_line("failed", "0 B", "0 B", None, &Some("disk".to_string())),
        "failed \u{2022} 0 B / 0 B \u{2022} disk"
    );
}

#[test]
fn the_engine_is_looked_for_in_order() {
    assert_eq!(choose_engine(true, true, true, true), Some(EnginePlace::Override));
    assert_eq!(choose_engine(false, true, true, true), Some(EnginePlace::System));
    assert_eq!(choose_engine(false, false, true, true), Some(EnginePlace::Home));
    assert_eq!(choose_engine(false, false, false, true), Some(EnginePlace::Build));
    assert_eq!(choose_engine(false, false, false, false), None);
}

#[test]
fn the_token_goes_through_the_environment_and_not_into_the_order() {
    assert_eq!(engine_token(""), None);
    assert_eq!(engine_token(" "), Some(" ".to_string()));
    assert_eq!(engine_token("hf_secret"), Some("hf_secret".to_string()));
    let files = vec![RepoFile {
        path: "a".to_string(),
        size: Some(10),
        sha256: Some("oid".to_string()),
    }];
    let order = order_job("o/m".to_string(), "/data".to_string(), files);
    assert_eq!(order.repo_id, "o/m");
    assert_eq!(order.destination, "/data");
    assert_eq!(order.connections, 8);
    assert_eq!(order.files.len(), 1);
    assert_eq!(order.files[0].path, "a");
    assert_eq!(order.files[0].size, Some(10));
    assert_eq!(order.files[0].sha256.as_deref(), Some("oid"));
}
