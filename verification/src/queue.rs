//! The queue of downloads: what is shown of a job while the engine reports on it.

use crate::engine;
use crate::hub;
use crate::text;
use crate::tree;
use crate::tree::{RepoFile, RepoFileView};
use vstd::prelude::*;

verus! {

/// What is known of a file of a job.
#[derive(Debug)]
pub struct FileProgress {
    pub path: String,
    pub status: String,
    pub downloaded: u64,
    pub total: u64,
    pub error: Option<String>,
    /// The bytes at the last report, to tell how fast the file grows.
    pub last_bytes: u64,
}

/// What a [`FileProgress`] holds.
pub struct FileProgressView {
    pub path: Seq<char>,
    pub status: Seq<char>,
    pub downloaded: u64,
    pub total: u64,
    pub error: Option<Seq<char>>,
    pub last_bytes: u64,
}

impl View for FileProgress {
    type V = FileProgressView;

    open spec fn view(&self) -> FileProgressView {
        FileProgressView {
            path: self.path@,
            status: self.status@,
            downloaded: self.downloaded,
            total: self.total,
            error: hub::option_text(self.error),
            last_bytes: self.last_bytes,
        }
    }
}

pub open spec fn progress_views(files: Seq<FileProgress>) -> Seq<FileProgressView> {
    files.map_values(|file: FileProgress| file@)
}

/// A job of the queue.
#[derive(Debug)]
pub struct QueuedJob {
    pub status: String,
    pub files: Vec<FileProgress>,
}

/// A report of the engine, as it arrives.
#[derive(Debug)]
pub enum EngineEvent {
    Job { status: String, error: Option<String> },
    File {
        index: usize,
        status: String,
        downloaded: u64,
        total: u64,
        error: Option<String>,
    },
}

/// What a report changes on the screen.
#[derive(Debug)]
pub enum Change {
    /// The line below the job's name.
    JobLine { line: String },
    /// The file has news. Where it is being downloaded, `grown` tells by how many bytes.
    File { index: usize, grown: Option<u64> },
    /// The report is on a file that the job does not have.
    Nothing,
}

/// What a [`Change`] says.
pub enum ChangeView {
    JobLine { line: Seq<char> },
    File { index: usize, grown: Option<u64> },
    Nothing,
}

impl View for Change {
    type V = ChangeView;

    open spec fn view(&self) -> ChangeView {
        match *self {
            Change::JobLine { line } => ChangeView::JobLine { line: line@ },
            Change::File { index, grown } => ChangeView::File { index, grown },
            Change::Nothing => ChangeView::Nothing,
        }
    }
}

/// A file of a job before the engine has reported on it.
pub open spec fn pending_file(file: RepoFileView) -> FileProgressView {
    FileProgressView {
        path: file.path,
        status: "Pending"@,
        downloaded: 0,
        total: match file.size {
            Some(size) => size,
            None => 0,
        },
        error: None,
        last_bytes: 0,
    }
}

pub open spec fn pending_files(files: Seq<RepoFileView>) -> Seq<FileProgressView> {
    files.map_values(|file: RepoFileView| pending_file(file))
}

/// The mark and text of an error behind a status.
pub open spec fn error_mark(error: Option<Seq<char>>) -> Seq<char> {
    match error {
        Some(error) => " \u{2022} "@ + error,
        None => Seq::empty(),
    }
}

/// How many bytes a file has grown by, where a report says that it is being downloaded. A file
/// that has shrunk has not grown.
pub open spec fn growth(file: FileProgressView, status: Seq<char>, downloaded: u64) -> Option<u64> {
    if status == "downloading"@ {
        Some(
            if downloaded >= file.last_bytes {
                (downloaded - file.last_bytes) as u64
            } else {
                0
            },
        )
    } else {
        None
    }
}

/// The status of a job and its files after a report.
pub open spec fn after_report(
    status: Seq<char>,
    files: Seq<FileProgressView>,
    event: EngineEvent,
) -> (Seq<char>, Seq<FileProgressView>, ChangeView) {
    match event {
        EngineEvent::Job { status: news, error } => (
            news@,
            files,
            ChangeView::JobLine { line: news@ + error_mark(hub::option_text(error)) },
        ),
        EngineEvent::File { index, status: news, downloaded, total, error } => if index
            < files.len() {
            (
                status,
                files.update(
                    index as int,
                    FileProgressView {
                        path: files[index as int].path,
                        status: news@,
                        downloaded,
                        total,
                        error: hub::option_text(error),
                        last_bytes: downloaded,
                    },
                ),
                ChangeView::File { index, grown: growth(files[index as int], news@, downloaded) },
            )
        } else {
            (status, files, ChangeView::Nothing)
        },
    }
}

pub open spec fn downloaded_sum(files: Seq<FileProgressView>) -> nat
    decreases files.len(),
{
    if files.len() == 0 {
        0
    } else {
        downloaded_sum(files.drop_last()) + files.last().downloaded as nat
    }
}

pub open spec fn total_sum(files: Seq<FileProgressView>) -> nat
    decreases files.len(),
{
    if files.len() == 0 {
        0
    } else {
        total_sum(files.drop_last()) + files.last().total as nat
    }
}

/// The job will not be reported on any more.
pub open spec fn is_over(status: Seq<char>) -> bool {
    status == "complete"@ || status == "failed"@ || status == "cancelled"@
}

fn with_error_mark(line: String, error: &Option<String>) -> (r: String)
    ensures
        r@ == line@ + error_mark(hub::option_text(*error)),
{
    match error {
        Some(error) => {
            let mut r = line;
            r.append(" \u{2022} ");
            r.append(error.as_str());
            assert(r@ =~= line@ + error_mark(Some(error@)));
            r
        },
        None => {
            assert(line@ =~= line@ + error_mark(None));
            line
        },
    }
}

impl QueuedJob {
    /// A job that waits for the engine.
    pub fn new(files: &Vec<RepoFile>) -> (job: QueuedJob)
        ensures
            job.status@ == "Queued"@,
            progress_views(job.files@) == pending_files(tree::file_views(files@)),
    {
        let ghost wanted = pending_files(tree::file_views(files@));
        let mut list: Vec<FileProgress> = Vec::new();
        let mut i: usize = 0;
        assert(progress_views(list@) =~= wanted.take(0));
        while i < files.len()
            invariant
                wanted == pending_files(tree::file_views(files@)),
                i <= files.len(),
                progress_views(list@) == wanted.take(i as int),
            decreases files.len() - i,
        {
            let ghost before = list@;
            let file = &files[i];
            let progress = FileProgress {
                path: file.path.clone(),
                status: "Pending".to_owned(),
                downloaded: 0,
                total: match file.size {
                    Some(size) => size,
                    None => 0,
                },
                error: None,
                last_bytes: 0,
            };
            let ghost shown = progress@;
            list.push(progress);
            assert(wanted[i as int] == pending_file(file@));
            assert(progress_views(list@) =~= progress_views(before).push(shown));
            assert(wanted.take(i + 1) =~= wanted.take(i as int).push(wanted[i as int]));
            i += 1;
        }
        assert(wanted.take(files.len() as int) =~= wanted);
        QueuedJob { status: "Queued".to_owned(), files: list }
    }

    /// Takes in a report of the engine, and says what it changes.
    pub fn report(&mut self, event: EngineEvent) -> (change: Change)
        ensures
            (final(self).status@, progress_views(final(self).files@), change@) == after_report(
                old(self).status@,
                progress_views(old(self).files@),
                event,
            ),
    {
        match event {
            EngineEvent::Job { status, error } => {
                let line = with_error_mark(status.clone(), &error);
                self.status = status;
                Change::JobLine { line }
            },
            EngineEvent::File { index, status, downloaded, total, error } => {
                if index >= self.files.len() {
                    return Change::Nothing;
                }
                let ghost before = progress_views(self.files@);
                let last_bytes = self.files[index].last_bytes;
                let grown: Option<u64> = if text::same_text(status.as_str(), "downloading") {
                    Some(
                        if downloaded >= last_bytes {
                            downloaded - last_bytes
                        } else {
                            0
                        },
                    )
                } else {
                    None
                };
                let path = self.files[index].path.clone();
                let progress = FileProgress {
                    path,
                    status,
                    downloaded,
                    total,
                    error,
                    last_bytes: downloaded,
                };
                let ghost shown = progress@;
                self.files[index] = progress;
                assert(progress_views(self.files@) =~= before.update(index as int, shown));
                Change::File { index, grown }
            },
        }
    }

    /// How much of the job is there, and how much there is: the sums over its files, where both
    /// fit in 64 bits.
    pub fn totals(&self) -> (sums: Option<(u64, u64)>)
        ensures
            match sums {
                Some(s) => s.0 == downloaded_sum(progress_views(self.files@)) && s.1 == total_sum(
                    progress_views(self.files@),
                ),
                None => downloaded_sum(progress_views(self.files@)) > u64::MAX || total_sum(
                    progress_views(self.files@),
                ) > u64::MAX,
            },
    {
        let ghost views = progress_views(self.files@);
        let mut downloaded: u64 = 0;
        let mut total: u64 = 0;
        let mut i: usize = 0;
        while i < self.files.len()
            invariant
                views == progress_views(self.files@),
                i <= self.files.len(),
                downloaded == downloaded_sum(views.take(i as int)),
                total == total_sum(views.take(i as int)),
            decreases self.files.len() - i,
        {
            let file = &self.files[i];
            assert(views.take(i + 1).drop_last() =~= views.take(i as int));
            assert(views.take(i + 1).last() == file@);
            if downloaded > u64::MAX - file.downloaded || total > u64::MAX - file.total {
                proof {
                    lemma_sums_grow(views, i + 1);
                }
                return None;
            }
            downloaded += file.downloaded;
            total += file.total;
            i += 1;
        }
        assert(views.take(self.files.len() as int) =~= views);
        Some((downloaded, total))
    }

    /// The engine has reported on the job for the last time.
    pub fn over(&self) -> (b: bool)
        ensures
            b == is_over(self.status@),
    {
        let status = self.status.as_str();
        text::same_text(status, "complete") || text::same_text(status, "failed")
            || text::same_text(status, "cancelled")
    }
}

proof fn lemma_sums_grow(files: Seq<FileProgressView>, n: int)
    requires
        0 <= n <= files.len(),
    ensures
        downloaded_sum(files.take(n)) <= downloaded_sum(files),
        total_sum(files.take(n)) <= total_sum(files),
    decreases files.len() - n,
{
    if n < files.len() {
        lemma_sums_grow(files, n + 1);
        assert(files.take(n + 1).drop_last() =~= files.take(n));
    } else {
        assert(files.take(n) =~= files);
    }
}

/// The line below a file's name: its status and its amounts, and then its speed and its error where
/// there are any.
pub open spec fn details_text(
    status: Seq<char>,
    downloaded: Seq<char>,
    total: Seq<char>,
    speed: Option<Seq<char>>,
    error: Option<Seq<char>>,
) -> Seq<char> {
    status + " \u{2022} "@ + downloaded + " / "@ + total + (match speed {
        Some(speed) => " \u{2022} "@ + speed + "/s"@,
        None => Seq::<char>::empty(),
    }) + error_mark(error)
}

/// The line below a file's name. The amounts and the speed come as texts.
pub fn details_line(
    status: &str,
    downloaded: &str,
    total: &str,
    speed: Option<&str>,
    error: &Option<String>,
) -> (line: String)
    ensures
        line@ == details_text(
            status@,
            downloaded@,
            total@,
            match speed {
                Some(speed) => Some(speed@),
                None => None,
            },
            hub::option_text(*error),
        ),
{
    let mut line = status.to_owned();
    line.append(" \u{2022} ");
    line.append(downloaded);
    line.append(" / ");
    line.append(total);
    let ghost front = line@;
    match speed {
        Some(speed) => {
            line.append(" \u{2022} ");
            line.append(speed);
            line.append("/s");
            assert(line@ =~= front + (" \u{2022} "@ + speed@ + "/s"@));
        },
        None => {
            assert(line@ =~= front + Seq::<char>::empty());
        },
    }
    with_error_mark(line, error)
}

/// What the engine is told to do. It is written to the engine's input.
#[derive(Debug)]
pub struct JobOrder {
    pub repo_id: String,
    /// The folder below which the files are stored.
    pub destination: String,
    /// How many connections may be open at a time.
    pub connections: usize,
    pub files: Vec<RepoFile>,
}

/// The order for a job. It is made of the repository, the folder and the files alone: a token has
/// no place in it.
pub fn order_job(repo_id: String, destination: String, files: Vec<RepoFile>) -> (order: JobOrder)
    ensures
        order.repo_id@ == repo_id@,
        order.destination@ == destination@,
        order.connections == 8,
        tree::file_views(order.files@) == tree::file_views(files@),
{
    JobOrder { repo_id, destination, connections: engine::default_connections(), files }
}

/// What the environment of the engine holds for a token: the token as it is, where there is one.
pub open spec fn env_token(token: Seq<char>) -> Option<Seq<char>> {
    if token.len() > 0 {
        Some(token)
    } else {
        None
    }
}

/// The token for the environment of the engine. It reaches the engine in no other way.
pub fn engine_token(token: &str) -> (env: Option<String>)
    ensures
        hub::option_text(env) == env_token(token@),
{
    if token.is_empty() {
        None
    } else {
        Some(token.to_owned())
    }
}

/// The engine asks the Hub with the token that the window asks with: what is left of the token
/// without the white space around it is the same, and where the environment has none, nothing is
/// left.
pub proof fn law_engine_has_the_windows_token(token: Seq<char>)
    ensures
        match env_token(token) {
            Some(env) => hub::bare_token(env) == hub::bare_token(token),
            None => hub::bare_token(token).len() == 0,
        },
{
}

/// Where the engine can be found.
#[derive(Clone, Copy, Debug, PartialEq, Eq, Structural)]
pub enum EnginePlace {
    /// Where the environment says.
    Override,
    /// Where the package installs it.
    System,
    /// Below the user's home.
    Home,
    /// Where it is built.
    Build,
}

/// The first place where there is an engine.
pub open spec fn chosen_place(overridden: bool, system: bool, home: bool, build: bool) -> Option<
    EnginePlace,
> {
    if overridden {
        Some(EnginePlace::Override)
    } else if system {
        Some(EnginePlace::System)
    } else if home {
        Some(EnginePlace::Home)
    } else if build {
        Some(EnginePlace::Build)
    } else {
        None
    }
}

/// Chooses the engine among the places where there is one: the override first, then the system,
/// the home and the build.
pub fn choose_engine(overridden: bool, system: bool, home: bool, build: bool) -> (place: Option<
    EnginePlace,
>)
    ensures
        place == chosen_place(overridden, system, home, build),
{
    if overridden {
        Some(EnginePlace::Override)
    } else if system {
        Some(EnginePlace::System)
    } else if home {
        Some(EnginePlace::Home)
    } else if build {
        Some(EnginePlace::Build)
    } else {
        None
    }
}

/// The reports on one file leave what is known of the other files alone.
pub proof fn law_report_touches_one_file(
    status: Seq<char>,
    files: Seq<FileProgressView>,
    event: EngineEvent,
    other: int,
)
    requires
        0 <= other < files.len(),
        event is File ==> event->index != other,
    ensures
        after_report(status, files, event).1.len() == files.len(),
        after_report(status, files, event).1[other] == files[other],
        event is File ==> after_report(status, files, event).0 == status,
{
}

/// A job starts with nothing downloaded and with the known sizes of its files.
pub proof fn law_queued_job_starts_at_zero(files: Seq<RepoFileView>)
    ensures
        downloaded_sum(pending_files(files)) == 0,
        total_sum(pending_files(files)) == tree::known_sizes(files),
    decreases files.len(),
{
    if files.len() > 0 {
        law_queued_job_starts_at_zero(files.drop_last());
        assert(pending_files(files).drop_last() =~= pending_files(files.drop_last()));
    }
}

/// An engine is found exactly when there is one somewhere, and it is that of the first place that
/// has one, whatever the places after it have.
pub proof fn law_first_engine_is_chosen(overridden: bool, system: bool, home: bool, build: bool)
    ensures
        ({
            let place = chosen_place(overridden, system, home, build);
            &&& place is None <==> !overridden && !system && !home && !build
            &&& place == Some(EnginePlace::Override) <==> overridden
            &&& place == Some(EnginePlace::System) <==> system && !overridden
            &&& place == Some(EnginePlace::Home) <==> home && !overridden && !system
            &&& place == Some(EnginePlace::Build) <==> build && !overridden && !system && !home
        }),
{
}

/// The line below a file's name starts with its status and its amounts. A speed and an error are
/// added behind them, each with its own mark, whatever the status is; and where there is none,
/// nothing stands for it.
pub proof fn law_details_show_everything(
    status: Seq<char>,
    downloaded: Seq<char>,
    total: Seq<char>,
    speed: Seq<char>,
    error: Seq<char>,
    any_speed: Option<Seq<char>>,
)
    ensures
        details_text(status, downloaded, total, None, None) == status + " \u{2022} "@ + downloaded
            + " / "@ + total,
        details_text(status, downloaded, total, Some(speed), None) == details_text(
            status,
            downloaded,
            total,
            None,
            None,
        ) + " \u{2022} "@ + speed + "/s"@,
        details_text(status, downloaded, total, any_speed, Some(error)) == details_text(
            status,
            downloaded,
            total,
            any_speed,
            None,
        ) + " \u{2022} "@ + error,
{
    let plain = status + " \u{2022} "@ + downloaded + " / "@ + total;
    assert(details_text(status, downloaded, total, None, None) =~= plain);
    assert(details_text(status, downloaded, total, Some(speed), None) =~= plain + " \u{2022} "@
        + speed + "/s"@);
    assert(details_text(status, downloaded, total, any_speed, Some(error)) =~= details_text(
        status,
        downloaded,
        total,
        any_speed,
        None,
    ) + " \u{2022} "@ + error);
}

/// A report on the job sets its status and leaves its files alone; the line shows the status, and
/// behind it the error, where there is one.
pub proof fn law_job_report_is_shown(
    status: Seq<char>,
    files: Seq<FileProgressView>,
    news: String,
    error: Option<String>,
)
    ensures
        ({
            let (after, kept, change) = after_report(
                status,
                files,
                EngineEvent::Job { status: news, error },
            );
            &&& after == news@
            &&& kept == files
            &&& error is None ==> change == (ChangeView::JobLine { line: news@ })
            &&& error matches Some(text) ==> change == (ChangeView::JobLine {
                line: news@ + " \u{2022} "@ + text@,
            })
        }),
{
    assert(news@ + Seq::<char>::empty() =~= news@);
    if let Some(text) = error {
        assert(news@ + (" \u{2022} "@ + text@) =~= news@ + " \u{2022} "@ + text@);
    }
}

/// A report on a file of the job becomes what is known of that file; its path stays. The growth is
/// told while the file is being downloaded: how much more there is than at the report before, or
/// nothing if there is less.
pub proof fn law_file_report_is_shown(
    status: Seq<char>,
    files: Seq<FileProgressView>,
    index: usize,
    news: String,
    downloaded: u64,
    total: u64,
    error: Option<String>,
)
    requires
        index < files.len(),
    ensures
        ({
            let (after, changed, change) = after_report(
                status,
                files,
                EngineEvent::File { index, status: news, downloaded, total, error },
            );
            let before = files[index as int];
            let file = changed[index as int];
            &&& after == status
            &&& changed.len() == files.len()
            &&& forall|k: int|
                0 <= k < files.len() && k != index ==> #[trigger] changed[k] == files[k]
            &&& file.path == before.path
            &&& file.status == news@
            &&& file.downloaded == downloaded
            &&& file.total == total
            &&& file.last_bytes == downloaded
            &&& error is None ==> file.error is None
            &&& error matches Some(text) ==> file.error == Some(text@)
            &&& change matches ChangeView::File { index: shown, grown }
            &&& shown == index
            &&& grown is Some <==> news@ == "downloading"@
            &&& grown matches Some(bytes) ==> {
                &&& downloaded >= before.last_bytes ==> bytes == downloaded - before.last_bytes
                &&& downloaded < before.last_bytes ==> bytes == 0
            }
        }),
{
}

/// A report on a file that the job does not have changes nothing.
pub proof fn law_unknown_file_changes_nothing(
    status: Seq<char>,
    files: Seq<FileProgressView>,
    index: usize,
    news: String,
    downloaded: u64,
    total: u64,
    error: Option<String>,
)
    requires
        index >= files.len(),
    ensures
        after_report(
            status,
            files,
            EngineEvent::File { index, status: news, downloaded, total, error },
        ) == (status, files, ChangeView::Nothing),
{
}

/// One more file adds its amounts to those of the job.
pub proof fn law_file_adds_its_amounts(files: Seq<FileProgressView>, file: FileProgressView)
    ensures
        downloaded_sum(Seq::empty()) == 0,
        total_sum(Seq::empty()) == 0,
        downloaded_sum(files.push(file)) == downloaded_sum(files) + file.downloaded,
        total_sum(files.push(file)) == total_sum(files) + file.total,
{
    assert(files.push(file).drop_last() =~= files);
}

/// Every file of a new job waits, with nothing downloaded and with its known size, in the order of
/// the selection.
pub proof fn law_queued_files_wait(files: Seq<RepoFileView>, i: int)
    requires
        0 <= i < files.len(),
    ensures
        pending_files(files).len() == files.len(),
        ({
            let file = pending_files(files)[i];
            &&& file.path == files[i].path
            &&& file.status == "Pending"@
            &&& file.downloaded == 0
            &&& file.last_bytes == 0
            &&& file.error is None
            &&& files[i].size matches Some(size) ==> file.total == size
            &&& files[i].size is None ==> file.total == 0
        }),
{
}

/// A job is over when it is complete, failed or cancelled, and at no other status.
pub proof fn law_three_ways_to_be_over(status: Seq<char>)
    ensures
        is_over("complete"@),
        is_over("failed"@),
        is_over("cancelled"@),
        status != "complete"@ && status != "failed"@ && status != "cancelled"@ ==> !is_over(status),
{
}

/// A token is handed on as it is, and no token is handed on where there is none.
pub proof fn law_token_is_handed_on(token: Seq<char>)
    ensures
        token.len() > 0 ==> env_token(token) == Some(token),
        token.len() == 0 ==> env_token(token) is None,
{
}

/// The view of what is known of a file shows every field of it.
pub proof fn law_progress_view_shows_every_field(files: Seq<FileProgress>, i: int)
    requires
        0 <= i < files.len(),
    ensures
        progress_views(files).len() == files.len(),
        progress_views(files)[i] == files[i]@,
        files[i]@.path == files[i].path@,
        files[i]@.status == files[i].status@,
        files[i]@.downloaded == files[i].downloaded,
        files[i]@.total == files[i].total,
        files[i]@.last_bytes == files[i].last_bytes,
        files[i].error is None ==> files[i]@.error is None,
        files[i].error matches Some(text) ==> files[i]@.error == Some(text@),
{
}

/// The view of a change shows everything that it carries.
pub proof fn law_change_view_shows_everything(change: Change)
    ensures
        match change {
            Change::JobLine { line } => change@ == (ChangeView::JobLine { line: line@ }),
            Change::File { index, grown } => change@ == (ChangeView::File { index, grown }),
            Change::Nothing => change@ is Nothing,
        },
{
}

} // verus!
