//! A job of the engine: what it is told, how it starts, how it can be held, and how it ends.

use crate::download;
use crate::download::{FileDownload, FileDownloadView, FilePhase};
use crate::events::{Event, EventView, FileState};
use crate::hub;
use crate::paths;
use crate::repo_id;
use crate::transfer;
use crate::transfer::{
    FetchAction, FetchActionView, FetchEvent, RangeFetch, WholeEvent, WholeFetch,
};
use vstd::prelude::*;

verus! {

/// A file that a job is to fetch.
#[derive(Debug)]
pub struct ManifestFile {
    pub path: String,
    pub size: Option<u64>,
}

/// What a job is to do.
#[derive(Debug)]
pub struct Manifest {
    pub repo_id: String,
    /// The folder below which the files are stored.
    pub destination: String,
    pub files: Vec<ManifestFile>,
    /// How many connections may be open at a time.
    pub connections: usize,
}

/// The number of connections of a job that names none.
pub fn default_connections() -> (n: usize)
    ensures
        n == 8,
{
    8
}

/// How many fetches of a job may run at a time: what the job asks for, but at least one and at
/// most 32.
pub open spec fn permits_for(connections: usize) -> usize {
    if connections < 1 {
        1
    } else if connections > 32 {
        32
    } else {
        connections
    }
}

pub fn permits(connections: usize) -> (n: usize)
    ensures
        n == permits_for(connections),
{
    if connections < 1 {
        1
    } else if connections > 32 {
        32
    } else {
        connections
    }
}

/// A report that the job failed.
pub open spec fn job_failed(error: Seq<char>) -> EventView {
    EventView::Job { status: "failed"@, error: Some(error) }
}

/// The report that the job failed.
pub fn job_failure(error: String) -> (event: Event)
    ensures
        event@ == job_failed(error@),
{
    Event::Job { status: "failed", error: Some(error) }
}

/// Accepts a line of input with the given number of bytes as a job to be read.
pub fn check_manifest_line(count: usize) -> (r: Result<(), String>)
    ensures
        r is Ok <==> count != 0,
        r matches Err(error) ==> error@ == "empty manifest"@,
{
    if count == 0 {
        Err("empty manifest".to_owned())
    } else {
        Ok(())
    }
}

/// The report on a job that could not be read.
pub fn manifest_failure(error: &str) -> (event: Event)
    ensures
        event@ == job_failed("invalid manifest: "@ + error@),
{
    let mut message = "invalid manifest: ".to_owned();
    message.append(error);
    job_failure(message)
}

/// The token cannot stand in a header.
pub open spec fn unusable_token(token: Option<&str>) -> bool {
    match token {
        Some(token) => hub::bare_token(token@).len() > 0 && !hub::header_text(
            "Bearer "@ + hub::bare_token(token@),
        ),
        None => false,
    }
}

/// Decides whether a job can start. If it can, the result is the value of the authorization
/// header that its requests carry, where they carry one; if it cannot, the report to make.
pub fn open_session(id: &str, token: Option<&str>) -> (r: Result<Option<String>, Event>)
    ensures
        match r {
            Ok(header) => {
                &&& repo_id::valid_repo_id(id@)
                &&& !unusable_token(token)
                &&& hub::option_text(header) == if token is Some && hub::bare_token(
                    token->0@,
                ).len() > 0 {
                    Some("Bearer "@ + hub::bare_token(token->0@))
                } else {
                    None
                }
            },
            Err(event) => {
                if repo_id::valid_repo_id(id@) {
                    unusable_token(token) && event@ == job_failed("invalid token"@)
                } else {
                    event@ == job_failed("repository ID must be organization/model"@)
                }
            },
        },
{
    if let Err(error) = repo_id::validate_repo_id(id) {
        return Err(job_failure(error));
    }
    match token {
        Some(token) => match hub::authorization(token) {
            Ok(header) => Ok(header),
            Err(_) => Err(job_failure("invalid token".to_owned())),
        },
        None => Ok(None),
    }
}

/// The report that the job has started.
pub fn job_started() -> (event: Event)
    ensures
        event@ == (EventView::Job { status: "downloading"@, error: None }),
{
    Event::Job { status: "downloading", error: None }
}

/// The download of a file of a job.
pub fn start_file(manifest: &Manifest, index: usize) -> (r: Result<FileDownload, String>)
    requires
        repo_id::valid_repo_id(manifest.repo_id@),
        index < manifest.files.len(),
    ensures
        ({
            let file = manifest.files[index as int];
            let target = paths::target_path(
                manifest.destination@,
                manifest.repo_id@,
                file.path@,
            );
            match r {
                Ok(started) => {
                    &&& paths::safe_path(file.path@)
                    &&& download::download_ok(started@)
                    &&& started@ == (FileDownloadView {
                        index,
                        hinted: file.size,
                        url: hub::resolve_address(manifest.repo_id@, file.path@),
                        paths: paths::paths_of(target),
                        total: 0,
                        completed: Seq::empty(),
                        phase: FilePhase::CreatingFolder,
                    })
                },
                Err(error) => !paths::safe_path(file.path@) && error@
                    == "unsafe repository path: "@ + file.path@,
            }
        }),
{
    let file = &manifest.files[index];
    FileDownload::new(
        index,
        manifest.destination.as_str(),
        manifest.repo_id.as_str(),
        file.path.as_str(),
        file.size,
    )
}

/// How the download of a file ended.
#[derive(Debug)]
pub enum TaskOutcome {
    Finished,
    Failed { index: usize, error: String },
    /// The task did not come to an end of its own.
    Crashed { error: String },
}

/// A job while its files are being fetched.
#[derive(Clone, Copy, Debug, PartialEq, Eq, Structural)]
pub struct JobRun {
    pub failed: bool,
}

/// The report that the end of a file's download calls for.
pub open spec fn outcome_report(outcome: TaskOutcome) -> Option<EventView> {
    match outcome {
        TaskOutcome::Finished => None,
        TaskOutcome::Failed { index, error } => Some(
            EventView::File {
                index,
                status: "failed"@,
                downloaded: 0,
                total: 0,
                error: Some(error@),
            },
        ),
        TaskOutcome::Crashed { error } => Some(job_failed(error@)),
    }
}

/// A job of which these outcomes have come in has failed.
pub open spec fn any_failed(outcomes: Seq<TaskOutcome>) -> bool {
    exists|i: int| 0 <= i < outcomes.len() && !(#[trigger] outcomes[i] is Finished)
}

/// Whether a job has failed when one more outcome has come in.
pub open spec fn failed_with(failed: bool, outcome: TaskOutcome) -> bool {
    failed || !(outcome is Finished)
}

/// The last report of a job.
pub open spec fn end_report(failed: bool) -> EventView {
    EventView::Job {
        status: if failed {
            "failed"@
        } else {
            "complete"@
        },
        error: None,
    }
}

impl JobRun {
    /// A job of which no download has ended.
    pub fn new() -> (run: JobRun)
        ensures
            !run.failed,
    {
        JobRun { failed: false }
    }

    /// Takes in how the download of a file ended, and says what is to be reported.
    pub fn take(&mut self, outcome: TaskOutcome) -> (report: Option<Event>)
        ensures
            final(self).failed == failed_with(old(self).failed, outcome),
            match report {
                Some(event) => outcome_report(outcome) == Some(event@),
                None => outcome_report(outcome) is None,
            },
    {
        match outcome {
            TaskOutcome::Finished => None,
            TaskOutcome::Failed { index, error } => {
                self.failed = true;
                Some(
                    Event::File {
                        index,
                        status: "failed",
                        downloaded: 0,
                        total: 0,
                        error: Some(error),
                    },
                )
            },
            TaskOutcome::Crashed { error } => {
                self.failed = true;
                Some(job_failure(error))
            },
        }
    }

    /// The last report of the job.
    pub fn last_report(&self) -> (event: Event)
        ensures
            event@ == end_report(self.failed),
    {
        Event::Job { status: if self.failed { "failed" } else { "complete" }, error: None }
    }
}

/// Whether a job has failed after some outcomes, taken in one after the other.
pub open spec fn failed_after(outcomes: Seq<TaskOutcome>) -> bool
    decreases outcomes.len(),
{
    outcomes.len() > 0 && failed_with(failed_after(outcomes.drop_last()), outcomes.last())
}

/// A job is complete only if every one of its files is; one that failed makes the job fail.
pub proof fn law_job_complete_iff_all_files_are(outcomes: Seq<TaskOutcome>)
    ensures
        failed_after(outcomes) == any_failed(outcomes),
    decreases outcomes.len(),
{
    if outcomes.len() > 0 {
        let front = outcomes.drop_last();
        law_job_complete_iff_all_files_are(front);
        if any_failed(front) {
            let k = choose|k: int| 0 <= k < front.len() && !(#[trigger] front[k] is Finished);
            assert(!(outcomes[k] is Finished));
        }
        if !(outcomes.last() is Finished) {
            assert(!(outcomes[outcomes.len() - 1] is Finished));
        }
        if any_failed(outcomes) {
            let k = choose|k: int|
                0 <= k < outcomes.len() && !(#[trigger] outcomes[k] is Finished);
            if k < front.len() {
                assert(!(front[k] is Finished));
            }
        }
    }
}

/// A job works, or is held.
#[derive(Clone, Copy, Debug, PartialEq, Eq, Structural)]
pub enum ControlState {
    Running,
    Paused,
}

/// What a running job can be told.
#[derive(Clone, Copy, Debug, PartialEq, Eq, Structural)]
pub enum ControlCommand {
    Pause,
    Resume,
}

/// The state that a command leads to.
pub open spec fn commanded(command: ControlCommand) -> ControlState {
    match command {
        ControlCommand::Pause => ControlState::Paused,
        ControlCommand::Resume => ControlState::Running,
    }
}

/// The report that a command was followed.
pub open spec fn command_report(command: ControlCommand) -> EventView {
    EventView::Job {
        status: match command {
            ControlCommand::Pause => "paused"@,
            ControlCommand::Resume => "downloading"@,
        },
        error: None,
    }
}

/// Holds a job and lets it go on.
#[derive(Clone, Copy, Debug, PartialEq, Eq, Structural)]
pub struct Control {
    pub state: ControlState,
}

impl Control {
    /// The control of a job that works.
    pub fn new() -> (control: Control)
        ensures
            control.state == ControlState::Running,
    {
        Control { state: ControlState::Running }
    }

    pub fn set(&mut self, state: ControlState)
        ensures
            final(self).state == state,
    {
        self.state = state;
    }

    /// Work may go on. It waits while the job is held, as long as someone is there who can let it
    /// go on.
    pub open spec fn goes_on(&self, abandoned: bool) -> bool {
        self.state == ControlState::Running || abandoned
    }

    /// The action may be carried out now.
    pub open spec fn passes_out(&self, action: FetchActionView, abandoned: bool) -> bool {
        transfer::asks_to_go_out(action) ==> self.goes_on(abandoned)
    }

    /// The event in the fetch of a range may be taken in now.
    pub open spec fn passes_in(&self, event: FetchEvent, abandoned: bool) -> bool {
        transfer::asks_to_come_in(event) ==> self.goes_on(abandoned)
    }

    /// The event in the fetch of a whole file may be taken in now.
    pub open spec fn whole_passes_in(&self, event: WholeEvent, abandoned: bool) -> bool {
        transfer::whole_asks_to_come_in(event) ==> self.goes_on(abandoned)
    }

    /// Work may go on.
    pub fn checkpoint(&self, abandoned: bool) -> (go_on: bool)
        ensures
            go_on == self.goes_on(abandoned),
    {
        match self.state {
            ControlState::Running => true,
            ControlState::Paused => abandoned,
        }
    }

    /// The action may be carried out now: a request waits until work may go on.
    pub fn lets_out(&self, action: &FetchAction, abandoned: bool) -> (now: bool)
        ensures
            now == self.passes_out(action@, abandoned),
    {
        match action {
            FetchAction::Request => self.checkpoint(abandoned),
            _ => true,
        }
    }

    /// The event in the fetch of a range may be taken in now: what comes of an answer waits until
    /// work may go on.
    pub fn lets_in(&self, event: &FetchEvent, abandoned: bool) -> (now: bool)
        ensures
            now == self.passes_in(*event, abandoned),
    {
        match event {
            FetchEvent::Piece { .. } => self.checkpoint(abandoned),
            FetchEvent::Broken { .. } => self.checkpoint(abandoned),
            _ => true,
        }
    }

    /// The event in the fetch of a whole file may be taken in now.
    pub fn lets_in_whole(&self, event: &WholeEvent, abandoned: bool) -> (now: bool)
        ensures
            now == self.whole_passes_in(*event, abandoned),
    {
        match event {
            WholeEvent::Piece { .. } => self.checkpoint(abandoned),
            WholeEvent::Broken { .. } => self.checkpoint(abandoned),
            _ => true,
        }
    }

    /// Follows a command, and says what is to be reported.
    pub fn follow(&mut self, command: ControlCommand) -> (event: Event)
        ensures
            final(self).state == commanded(command),
            event@ == command_report(command),
    {
        match command {
            ControlCommand::Pause => {
                self.set(ControlState::Paused);
                Event::Job { status: "paused", error: None }
            },
            ControlCommand::Resume => {
                self.set(ControlState::Running);
                Event::Job { status: "downloading", error: None }
            },
        }
    }
}

/// The state of a job after some commands.
pub open spec fn state_after(commands: Seq<ControlCommand>) -> ControlState {
    if commands.len() == 0 {
        ControlState::Running
    } else {
        commanded(commands.last())
    }
}

/// A job that was told to pause stays held until it is told to go on: it is held exactly when the
/// last command was to pause.
pub proof fn law_paused_until_resumed(commands: Seq<ControlCommand>)
    ensures
        state_after(commands) == ControlState::Paused <==> commands.len() > 0 && commands.last()
            == ControlCommand::Pause,
        state_after(commands.push(ControlCommand::Pause)) == ControlState::Paused,
        state_after(commands.push(ControlCommand::Resume)) == ControlState::Running,
{
}

/// While a job is held, no request is let out, and no event that is let in leads to a piece being
/// written or to bytes being received. The counter grows only by a piece that was let in before.
pub proof fn law_held_range_neither_asks_nor_writes(
    control: Control,
    fetch: RangeFetch,
    state: FileState,
    event: FetchEvent,
    now: u64,
)
    requires
        control.state == ControlState::Paused,
        transfer::fetch_ok(fetch),
        transfer::expects(fetch.phase, event),
        control.passes_in(event, false),
    ensures
        ({
            let (next, after, action) = transfer::fetch_step(fetch, state, event, now);
            &&& action != FetchActionView::Write
            &&& action == FetchActionView::Request ==> !control.passes_out(action, false)
            &&& next.received <= fetch.received
            &&& event == FetchEvent::Written || after.downloaded == state.downloaded
                || after.downloaded == transfer::taken_back(state, fetch.received).downloaded
        }),
{
}

/// The same of the fetch of a whole file: while the job is held, no request is let out, and no
/// event that is let in leads to a piece being written.
pub proof fn law_held_whole_neither_asks_nor_writes(
    control: Control,
    fetch: WholeFetch,
    state: FileState,
    event: WholeEvent,
    now: u64,
)
    requires
        control.state == ControlState::Paused,
        transfer::whole_ok(fetch),
        transfer::whole_expects(fetch.phase, event),
        control.whole_passes_in(event, false),
    ensures
        ({
            let (_, after, action) = transfer::whole_step(fetch, state, event, now);
            &&& action != FetchActionView::Write
            &&& action == FetchActionView::Request ==> !control.passes_out(action, false)
            &&& event == WholeEvent::Written || after.downloaded == state.downloaded
                || after.downloaded == 0
        }),
{
}

/// While a job works, nothing waits.
pub proof fn law_running_job_waits_for_nothing(
    control: Control,
    action: FetchActionView,
    event: FetchEvent,
    whole: WholeEvent,
)
    requires
        control.state == ControlState::Running,
    ensures
        control.passes_out(action, false),
        control.passes_in(event, false),
        control.whole_passes_in(whole, false),
{
}

/// A job runs as many fetches at a time as it asks for, but never fewer than one or more than 32.
pub proof fn law_permits_are_what_is_asked_for(connections: usize)
    ensures
        1 <= permits_for(connections) <= 32,
        1 <= connections <= 32 ==> permits_for(connections) == connections,
        connections == 0 ==> permits_for(connections) == 1,
        connections > 32 ==> permits_for(connections) == 32,
{
}

/// The failure of a job is reported with its error.
pub proof fn law_failed_job_says_why(error: Seq<char>)
    ensures
        job_failed(error) matches EventView::Job { status, error: e } && status == "failed"@ && e
            == Some(error),
{
}

/// A token is unusable exactly when there is something left of it without white space that cannot
/// stand in a header.
pub proof fn law_unusable_tokens(token: &str)
    ensures
        !unusable_token(None),
        hub::bare_token(token@).len() == 0 ==> !unusable_token(Some(token)),
        hub::bare_token(token@).len() > 0 ==> (unusable_token(Some(token)) <==> !hub::header_text(
            "Bearer "@ + hub::bare_token(token@),
        )),
{
}

/// A file that failed is reported by its index with its error and without amounts, a task that
/// crashed as a failure of the job, and a file that is finished not once more.
pub proof fn law_failed_files_are_reported(index: usize, error: String)
    ensures
        outcome_report(TaskOutcome::Finished) is None,
        outcome_report(TaskOutcome::Failed { index, error }) == Some(
            EventView::File {
                index,
                status: "failed"@,
                downloaded: 0,
                total: 0,
                error: Some(error@),
            },
        ),
        outcome_report(TaskOutcome::Crashed { error }) == Some(
            EventView::Job { status: "failed"@, error: Some(error@) },
        ),
{
}

/// Pausing holds a job and resuming lets it go on; a held job waits unless nobody is left who could
/// let it go on.
pub proof fn law_commands_hold_and_release(control: Control)
    ensures
        commanded(ControlCommand::Pause) == ControlState::Paused,
        commanded(ControlCommand::Resume) == ControlState::Running,
        control.state == ControlState::Running ==> control.goes_on(false) && control.goes_on(true),
        control.state == ControlState::Paused ==> !control.goes_on(false) && control.goes_on(true),
{
}

/// Only requests, pieces of an answer and its breaking off ever wait; everything else that is under
/// way comes to its end also while the job is held.
pub proof fn law_only_the_server_is_held(
    control: Control,
    action: FetchActionView,
    event: FetchEvent,
    whole: WholeEvent,
    abandoned: bool,
)
    ensures
        action is Request ==> (control.passes_out(action, abandoned) <==> control.goes_on(
            abandoned,
        )),
        !(action is Request) ==> control.passes_out(action, abandoned),
        event is Piece || event is Broken ==> (control.passes_in(event, abandoned)
            <==> control.goes_on(abandoned)),
        !(event is Piece || event is Broken) ==> control.passes_in(event, abandoned),
        whole is Piece || whole is Broken ==> (control.whole_passes_in(whole, abandoned)
            <==> control.goes_on(abandoned)),
        !(whole is Piece || whole is Broken) ==> control.whole_passes_in(whole, abandoned),
{
}

/// The last report says that the job is complete exactly when every outcome was that of a finished
/// file, and otherwise that it failed.
pub proof fn law_last_report_sums_up(outcomes: Seq<TaskOutcome>)
    ensures
        (forall|i: int| 0 <= i < outcomes.len() ==> (#[trigger] outcomes[i]) is Finished)
            ==> end_report(failed_after(outcomes)) == (EventView::Job {
            status: "complete"@,
            error: None,
        }),
        (exists|i: int|
            0 <= i < outcomes.len() && ((#[trigger] outcomes[i]) is Failed
                || outcomes[i] is Crashed)) ==> end_report(failed_after(outcomes)) == (
        EventView::Job { status: "failed"@, error: None }),
{
    law_job_complete_iff_all_files_are(outcomes);
}

/// A command that was followed is reported by what the job does then.
pub proof fn law_commands_are_reported(command: ControlCommand)
    ensures
        command_report(command) == (EventView::Job {
            status: if commanded(command) == ControlState::Paused {
                "paused"@
            } else {
                "downloading"@
            },
            error: None,
        }),
{
}

} // verus!
