//! The life of a download: how it is prepared, runs and ends, what is stored of
//! it on the way, and what is reported.

use vstd::prelude::*;

use crate::commands;
use crate::commands::{find_task, selection_text, stored_selection};
use crate::error::{ErrorView, LanFlowError};
use crate::fields;
use crate::message;
use crate::models;
use crate::models::{
    ConflictPolicy,
    CreateTaskInput,
    CreateTaskInputView,
    PerformanceSettings,
    TaskDto,
    TaskDtoView,
    TaskProgressEvent,
    TaskProgressEventView,
};
use crate::outside::crypto;
use crate::outside::json;
use crate::snapshot;
use crate::tasks;
use crate::tasks::{
    failure_event,
    finished_event,
    progress_event,
    Completion,
    CompletionView,
    COMPLETION_BATCH,
};
use crate::text;
use crate::wire::snapshot::{ManifestFileView, SnapshotManifest, SnapshotManifestView};

verus! {

// ---------------------------------------------------------------------------
// What is stored of a download
// ---------------------------------------------------------------------------

/// The columns of a stored download that change while it runs.
#[derive(Debug)]
pub struct StateUpdate {
    pub status: String,
    pub completed_bytes: u64,
    pub speed_bps: u64,
    pub completed_files: u64,
    pub error: Option<String>,
    pub updated_at: i64,
}

/// The model of a [`StateUpdate`].
#[verifier::ext_equal]
pub struct StateUpdateView {
    pub status: Seq<char>,
    pub completed_bytes: u64,
    pub speed_bps: u64,
    pub completed_files: u64,
    pub error: Option<Seq<char>>,
    pub updated_at: i64,
}

impl View for StateUpdate {
    type V = StateUpdateView;

    open spec fn view(&self) -> StateUpdateView {
        StateUpdateView {
            status: self.status@,
            completed_bytes: self.completed_bytes,
            speed_bps: self.speed_bps,
            completed_files: self.completed_files,
            error: text::optional(self.error),
            updated_at: self.updated_at,
        }
    }
}

/// A stored download after its state was written.
pub open spec fn with_state(task: TaskDtoView, update: StateUpdateView) -> TaskDtoView {
    TaskDtoView {
        status: update.status,
        completed_bytes: update.completed_bytes,
        speed_bps: update.speed_bps,
        completed_files: update.completed_files,
        error: update.error,
        updated_at: update.updated_at,
        ..task
    }
}

/// The columns of a stored download that change when it is stopped.
#[derive(Debug)]
pub struct StatusUpdate {
    pub status: String,
    pub speed_bps: u64,
    pub error: Option<String>,
    pub updated_at: i64,
}

/// The model of a [`StatusUpdate`].
#[verifier::ext_equal]
pub struct StatusUpdateView {
    pub status: Seq<char>,
    pub speed_bps: u64,
    pub error: Option<Seq<char>>,
    pub updated_at: i64,
}

impl View for StatusUpdate {
    type V = StatusUpdateView;

    open spec fn view(&self) -> StatusUpdateView {
        StatusUpdateView {
            status: self.status@,
            speed_bps: self.speed_bps,
            error: text::optional(self.error),
            updated_at: self.updated_at,
        }
    }
}

/// The change to a status: nothing is being transferred any more.
pub open spec fn status_change(
    status: Seq<char>,
    error: Option<Seq<char>>,
    now: i64,
) -> StatusUpdateView {
    StatusUpdateView { status, speed_bps: 0, error, updated_at: now }
}

/// A stored download after its status was written.
pub open spec fn with_status(task: TaskDtoView, update: StatusUpdateView) -> TaskDtoView {
    TaskDtoView {
        status: update.status,
        speed_bps: update.speed_bps,
        error: update.error,
        updated_at: update.updated_at,
        ..task
    }
}

/// The change of a download that is paused.
pub fn paused_update(now: i64) -> (update: StatusUpdate)
    ensures
        update@ == status_change("paused"@, None, now),
{
    StatusUpdate { status: "paused".to_owned(), speed_bps: 0, error: None, updated_at: now }
}

/// The change of a download that is given up.
pub fn cancelled_update(now: i64) -> (update: StatusUpdate)
    ensures
        update@ == status_change("cancelled"@, None, now),
{
    StatusUpdate { status: "cancelled".to_owned(), speed_bps: 0, error: None, updated_at: now }
}

/// The change of a download that could not be prepared.
pub fn failed_update(error: &LanFlowError, now: i64) -> (update: StatusUpdate)
    ensures
        update@ == status_change("failed"@, Some(error@.text()), now),
{
    StatusUpdate {
        status: "failed".to_owned(),
        speed_bps: 0,
        error: Some(error.message()),
        updated_at: now,
    }
}

/// A change of the status keeps what was downloaded: a download that is
/// stopped can go on where it was.
pub proof fn law_status_keeps_progress(
    task: TaskDtoView,
    status: Seq<char>,
    error: Option<Seq<char>>,
    now: i64,
)
    ensures
        ({
            let stopped = with_status(task, status_change(status, error, now));
            &&& stopped.status == status
            &&& stopped.error == error
            &&& stopped.speed_bps == 0
            &&& stopped.completed_bytes == task.completed_bytes
            &&& stopped.completed_files == task.completed_files
            &&& stopped.total_bytes == task.total_bytes
            &&& stopped.file_count == task.file_count
            &&& stopped.id == task.id
        }),
{
}

/// A download whose snapshot failed.
pub open spec fn failed_task(task: TaskDtoView, error: ErrorView) -> TaskDtoView {
    TaskDtoView { status: "failed"@, error: Some(error.text()), speed_bps: 0, ..task }
}

/// Marks a download whose snapshot failed.
pub fn snapshot_failed(task: &mut TaskDto, error: &LanFlowError)
    ensures
        final(task)@ == failed_task(old(task)@, error@),
{
    task.status = "failed".to_owned();
    task.error = Some(error.message());
    task.speed_bps = 0;
}

// ---------------------------------------------------------------------------
// Preparing a download
// ---------------------------------------------------------------------------

/// What the preparation of a download waits for.
#[derive(Clone, Copy, Debug, PartialEq, Eq, Structural)]
pub enum PrepareStage {
    /// For the new download to be stored.
    Store,
    /// For a connection to the peer of a stored download.
    Connect,
    /// For the snapshot.
    Snapshot,
    /// For the failure to be stored.
    NoteFailure,
    /// For the snapshot to be stored.
    StoreManifest,
    /// For the stored downloads.
    Find,
    /// For the transfer to begin.
    Start,
    /// The transfer has begun.
    Started,
    /// The preparation failed.
    Failed,
}

/// What is stored of a download that goes on.
#[derive(Debug)]
pub struct StoredTask {
    pub peer_id: String,
    pub share_id: String,
    pub paths_json: String,
    pub policy: String,
}

/// The model of a [`StoredTask`].
#[verifier::ext_equal]
pub struct StoredTaskView {
    pub peer_id: Seq<char>,
    pub share_id: Seq<char>,
    pub paths_json: Seq<char>,
    pub policy: Seq<char>,
}

impl View for StoredTask {
    type V = StoredTaskView;

    open spec fn view(&self) -> StoredTaskView {
        StoredTaskView {
            peer_id: self.peer_id@,
            share_id: self.share_id@,
            paths_json: self.paths_json@,
            policy: self.policy@,
        }
    }
}

/// The preparation of a download, a new one or one that goes on.
pub struct Preparation {
    pub stage: PrepareStage,
    pub task_id: String,
    pub share_id: String,
    pub paths: Vec<String>,
    pub chunk_size: u32,
    pub policy: ConflictPolicy,
    /// The download, where it is new or was found.
    pub task: Option<TaskDto>,
    /// The snapshot, until the transfer begins.
    pub manifest: Option<SnapshotManifest>,
    /// Why there is no snapshot.
    pub failure: Option<LanFlowError>,
}

/// The model of a [`Preparation`].
#[verifier::ext_equal]
pub struct PreparationView {
    pub stage: PrepareStage,
    pub task_id: Seq<char>,
    pub share_id: Seq<char>,
    pub paths: Seq<Seq<char>>,
    pub chunk_size: u32,
    pub policy: ConflictPolicy,
    pub task: Option<TaskDtoView>,
    pub manifest: Option<SnapshotManifestView>,
    pub failure: Option<ErrorView>,
}

impl View for Preparation {
    type V = PreparationView;

    open spec fn view(&self) -> PreparationView {
        PreparationView {
            stage: self.stage,
            task_id: self.task_id@,
            share_id: self.share_id@,
            paths: fields::views(self.paths@),
            chunk_size: self.chunk_size,
            policy: self.policy,
            task: match self.task {
                Some(task) => Some(task@),
                None => None,
            },
            manifest: match self.manifest {
                Some(manifest) => Some(manifest@),
                None => None,
            },
            failure: match self.failure {
                Some(error) => Some(error@),
                None => None,
            },
        }
    }
}

/// What was heard or done.
pub enum PrepareEvent {
    /// The new download is stored.
    Stored,
    /// There is a connection to the peer; these are the settings.
    Connected(PerformanceSettings),
    /// There is no snapshot, at this time.
    SnapshotFailed(LanFlowError, i64),
    /// There is a snapshot, at this time.
    SnapshotReady(SnapshotManifest, i64),
    /// The failure is stored.
    FailureNoted,
    /// The snapshot is stored.
    ManifestStored,
    /// The downloads that are stored.
    TasksListed(Vec<TaskDto>),
    /// The transfer has begun.
    Started,
}

/// The model of a [`PrepareEvent`].
#[verifier::ext_equal]
pub enum PrepareEventView {
    Stored,
    Connected(PerformanceSettings),
    SnapshotFailed(ErrorView, i64),
    SnapshotReady(SnapshotManifestView, i64),
    FailureNoted,
    ManifestStored,
    TasksListed(Seq<TaskDtoView>),
    Started,
}

impl View for PrepareEvent {
    type V = PrepareEventView;

    open spec fn view(&self) -> PrepareEventView {
        match self {
            PrepareEvent::Stored => PrepareEventView::Stored,
            PrepareEvent::Connected(settings) => PrepareEventView::Connected(*settings),
            PrepareEvent::SnapshotFailed(error, now) => PrepareEventView::SnapshotFailed(
                error@,
                *now,
            ),
            PrepareEvent::SnapshotReady(manifest, now) => PrepareEventView::SnapshotReady(
                manifest@,
                *now,
            ),
            PrepareEvent::FailureNoted => PrepareEventView::FailureNoted,
            PrepareEvent::ManifestStored => PrepareEventView::ManifestStored,
            PrepareEvent::TasksListed(list) => PrepareEventView::TasksListed(fields::views(list@)),
            PrepareEvent::Started => PrepareEventView::Started,
        }
    }
}

/// What is to be done next.
pub enum PrepareAction {
    /// Store a new download, the text of its paths and the name of its policy.
    Store(TaskDto, String, String),
    /// Get a connection to a peer.
    Connect(String),
    /// Ask for a snapshot of some paths of a share, in chunks of a size.
    RequestSnapshot(String, Vec<String>, u32),
    /// Store that the download failed.
    NoteStatus(StatusUpdate),
    /// Store the text of the snapshot, its size and its number of files.
    StoreManifest(String, u64, u64),
    /// Read the downloads that are stored.
    ListTasks,
    /// Begin the transfer.
    Start(TaskDto, SnapshotManifest, ConflictPolicy),
    /// Nothing more.
    Done(TaskDto),
    /// Give up.
    Fail(LanFlowError),
}

/// The model of a [`PrepareAction`].
#[verifier::ext_equal]
pub enum PrepareActionView {
    Store(TaskDtoView, Seq<char>, Seq<char>),
    Connect(Seq<char>),
    RequestSnapshot(Seq<char>, Seq<Seq<char>>, u32),
    NoteStatus(StatusUpdateView),
    StoreManifest(Seq<char>, u64, u64),
    ListTasks,
    Start(TaskDtoView, SnapshotManifestView, ConflictPolicy),
    Done(TaskDtoView),
    Fail(ErrorView),
}

impl View for PrepareAction {
    type V = PrepareActionView;

    open spec fn view(&self) -> PrepareActionView {
        match self {
            PrepareAction::Store(task, paths, policy) => PrepareActionView::Store(
                task@,
                paths@,
                policy@,
            ),
            PrepareAction::Connect(peer_id) => PrepareActionView::Connect(peer_id@),
            PrepareAction::RequestSnapshot(share_id, paths, chunk_size) =>
                PrepareActionView::RequestSnapshot(share_id@, fields::views(paths@), *chunk_size),
            PrepareAction::NoteStatus(update) => PrepareActionView::NoteStatus(update@),
            PrepareAction::StoreManifest(stored, bytes, files) => PrepareActionView::StoreManifest(
                stored@,
                *bytes,
                *files,
            ),
            PrepareAction::ListTasks => PrepareActionView::ListTasks,
            PrepareAction::Start(task, manifest, policy) => PrepareActionView::Start(
                task@,
                manifest@,
                *policy,
            ),
            PrepareAction::Done(task) => PrepareActionView::Done(task@),
            PrepareAction::Fail(error) => PrepareActionView::Fail(error@),
        }
    }
}

/// Whether an event is what a preparation waits for.
pub open spec fn prepare_awaits(stage: PrepareStage, event: PrepareEventView) -> bool {
    match event {
        PrepareEventView::Stored => stage == PrepareStage::Store,
        PrepareEventView::Connected(_) => stage == PrepareStage::Connect,
        PrepareEventView::SnapshotFailed(_, _) => stage == PrepareStage::Snapshot,
        PrepareEventView::SnapshotReady(_, _) => stage == PrepareStage::Snapshot,
        PrepareEventView::FailureNoted => stage == PrepareStage::NoteFailure,
        PrepareEventView::ManifestStored => stage == PrepareStage::StoreManifest,
        PrepareEventView::TasksListed(_) => stage == PrepareStage::Find,
        PrepareEventView::Started => stage == PrepareStage::Start,
    }
}

/// Whether the numbers of an event are in range: the size of a snapshot has 64
/// bits, that of a chunk 32.
pub open spec fn in_range(event: PrepareEventView) -> bool {
    match event {
        PrepareEventView::Connected(settings) => settings.chunk_size_mib < 0x1000,
        PrepareEventView::SnapshotReady(manifest, _) => tasks::total_size(manifest.files)
            <= u64::MAX,
        _ => true,
    }
}

/// Whether a preparation holds what its stage needs.
pub open spec fn is_sound(state: PreparationView) -> bool {
    match state.stage {
        PrepareStage::NoteFailure => state.failure is Some,
        PrepareStage::StoreManifest => state.task is Some && state.manifest is Some,
        PrepareStage::Find => state.manifest is Some,
        PrepareStage::Start => state.task is Some,
        _ => true,
    }
}

/// The preparation of a new download.
pub open spec fn created(
    task: TaskDtoView,
    input: CreateTaskInputView,
    chunk_size: u32,
) -> PreparationView {
    PreparationView {
        stage: PrepareStage::Store,
        task_id: task.id,
        share_id: input.share_id,
        paths: input.remote_paths,
        chunk_size,
        policy: input.conflict_policy,
        task: Some(task),
        manifest: None,
        failure: None,
    }
}

/// The preparation of a stored download.
pub open spec fn resumed(
    task_id: Seq<char>,
    share_id: Seq<char>,
    paths: Seq<Seq<char>>,
    policy: ConflictPolicy,
) -> PreparationView {
    PreparationView {
        stage: PrepareStage::Connect,
        task_id,
        share_id,
        paths,
        chunk_size: 0,
        policy,
        task: None,
        manifest: None,
        failure: None,
    }
}

/// How the preparation of a new download begins, or why it does not.
pub open spec fn creation(
    task: TaskDtoView,
    input: CreateTaskInputView,
    settings: PerformanceSettings,
) -> Result<(PreparationView, PrepareActionView), ErrorView> {
    if input.remote_paths.len() == 0 {
        Err(ErrorView::InvalidInput("至少选择一个文件或目录"@))
    } else {
        Ok(
            (
                created(task, input, commands::new_chunk_size(settings)),
                PrepareActionView::Store(
                    task,
                    json::texts_json(input.remote_paths),
                    input.conflict_policy.name(),
                ),
            ),
        )
    }
}

/// How the preparation of a stored download begins, or why it does not;
/// `stored` is what is stored of it.
pub open spec fn resumption(task_id: Seq<char>, stored: Option<StoredTaskView>) -> Result<
    (PreparationView, PrepareActionView),
    ErrorView,
> {
    match stored {
        None => Err(ErrorView::NotFound("任务不存在"@)),
        Some(row) => match commands::selection_of(row.paths_json, row.policy) {
            Ok((paths, policy)) => Ok(
                (
                    resumed(task_id, row.share_id, paths, policy),
                    PrepareActionView::Connect(row.peer_id),
                ),
            ),
            Err(error) => Err(error),
        },
    }
}

/// The request for the snapshot of a download.
pub open spec fn snapshot_request(state: PreparationView) -> PrepareActionView {
    PrepareActionView::RequestSnapshot(state.share_id, state.paths, state.chunk_size)
}

/// A new download whose snapshot is there.
pub open spec fn prepared_task(
    task: TaskDtoView,
    manifest: SnapshotManifestView,
    now: i64,
) -> TaskDtoView {
    TaskDtoView {
        total_bytes: tasks::total_size(manifest.files) as u64,
        file_count: tasks::plain_files(manifest.files) as u64,
        updated_at: now,
        ..task
    }
}

/// What a preparation becomes with an event that it waits for, and what is to
/// be done then.
pub open spec fn prepare_step(state: PreparationView, event: PrepareEventView) -> (
    PreparationView,
    PrepareActionView,
) {
    match event {
        PrepareEventView::Stored => {
            let next = PreparationView { stage: PrepareStage::Snapshot, ..state };
            (next, snapshot_request(next))
        },
        PrepareEventView::Connected(settings) => {
            let next = PreparationView {
                stage: PrepareStage::Snapshot,
                chunk_size: (0x10_0000 * settings.chunk_size_mib) as u32,
                ..state
            };
            (next, snapshot_request(next))
        },
        PrepareEventView::SnapshotFailed(error, now) => (
            PreparationView {
                stage: PrepareStage::NoteFailure,
                task: match state.task {
                    Some(task) => Some(failed_task(task, error)),
                    None => None,
                },
                failure: Some(error),
                ..state
            },
            PrepareActionView::NoteStatus(
                status_change("failed"@, Some(error.text()), now),
            ),
        ),
        PrepareEventView::FailureNoted => (
            PreparationView { stage: PrepareStage::Failed, failure: None, ..state },
            PrepareActionView::Fail(state.failure->0),
        ),
        PrepareEventView::SnapshotReady(manifest, now) => match state.task {
            Some(task) => {
                let prepared = prepared_task(task, manifest, now);
                (
                    PreparationView {
                        stage: PrepareStage::StoreManifest,
                        task: Some(prepared),
                        manifest: Some(manifest),
                        ..state
                    },
                    PrepareActionView::StoreManifest(
                        crypto::base64_text(message::encoded(manifest)),
                        prepared.total_bytes,
                        prepared.file_count,
                    ),
                )
            },
            None => (
                PreparationView {
                    stage: PrepareStage::Find,
                    manifest: Some(manifest),
                    ..state
                },
                PrepareActionView::ListTasks,
            ),
        },
        PrepareEventView::ManifestStored => (
            PreparationView { stage: PrepareStage::Start, manifest: None, ..state },
            PrepareActionView::Start(state.task->0, state.manifest->0, state.policy),
        ),
        PrepareEventView::TasksListed(list) => match commands::first_task(list, state.task_id) {
            Some(task) => (
                PreparationView {
                    stage: PrepareStage::Start,
                    task: Some(task),
                    manifest: None,
                    ..state
                },
                PrepareActionView::Start(task, state.manifest->0, state.policy),
            ),
            None => (
                PreparationView { stage: PrepareStage::Failed, manifest: None, ..state },
                PrepareActionView::Fail(ErrorView::NotFound("任务不存在"@)),
            ),
        },
        PrepareEventView::Started => (
            PreparationView { stage: PrepareStage::Started, task: None, ..state },
            PrepareActionView::Done(state.task->0),
        ),
    }
}

impl Preparation {
    /// Begins to prepare a new download. One of nothing is refused, and
    /// nothing is stored for it.
    pub fn create(task: TaskDto, input: &CreateTaskInput, settings: &PerformanceSettings) -> (begun:
        Result<(Preparation, PrepareAction), LanFlowError>)
        ensures
            input@.remote_paths.len() == 0 ==> (begun matches Err(e) && e@
                == ErrorView::InvalidInput("至少选择一个文件或目录"@)),
            input@.remote_paths.len() > 0 ==> (begun matches Ok((preparation, action))
                && is_sound(preparation@) && preparation@ == created(
                task@,
                input@,
                commands::new_chunk_size(*settings),
            ) && action@ == PrepareActionView::Store(
                task@,
                json::texts_json(input@.remote_paths),
                input@.conflict_policy.name(),
            ) && json::lists(json::texts_json(input@.remote_paths), input@.remote_paths)),
            match creation(task@, input@, *settings) {
                Ok((state, first)) => begun matches Ok((preparation, action)) && is_sound(
                    preparation@,
                ) && preparation@ == state && action@ == first && json::lists(
                    json::texts_json(input@.remote_paths),
                    input@.remote_paths,
                ),
                Err(error) => begun matches Err(e) && e@ == error,
            },
    {
        match commands::check_task_input(input) {
            Ok(_) => {},
            Err(error) => {
                return Err(error);
            },
        }
        let paths_json = match selection_text(&input.remote_paths) {
            Ok(stored) => stored,
            Err(error) => {
                return Err(error);
            },
        };
        let action = PrepareAction::Store(
            task.clone(),
            paths_json,
            input.conflict_policy.as_str().to_owned(),
        );
        let preparation = Preparation {
            stage: PrepareStage::Store,
            task_id: task.id.clone(),
            share_id: input.share_id.clone(),
            paths: fields::copy_texts(&input.remote_paths),
            chunk_size: commands::task_chunk_size(settings),
            policy: input.conflict_policy,
            task: Some(task),
            manifest: None,
            failure: None,
        };
        Ok((preparation, action))
    }

    /// Begins to prepare a download that goes on; `stored` is what is stored
    /// of it.
    pub fn resume(task_id: String, stored: Option<StoredTask>) -> (begun: Result<
        (Preparation, PrepareAction),
        LanFlowError,
    >)
        ensures
            match stored {
                None => begun matches Err(e) && e@ == ErrorView::NotFound("任务不存在"@),
                Some(row) => match commands::selection_of(row@.paths_json, row@.policy) {
                    Ok((paths, policy)) => begun matches Ok((preparation, action)) && is_sound(
                        preparation@,
                    ) && preparation@ == resumed(task_id@, row@.share_id, paths, policy) && action@
                        == PrepareActionView::Connect(row@.peer_id),
                    Err(error) => begun matches Err(e) && e@ == error,
                },
            },
            match resumption(
                task_id@,
                match stored {
                    Some(row) => Some(row@),
                    None => None,
                },
            ) {
                Ok((state, first)) => begun matches Ok((preparation, action)) && is_sound(
                    preparation@,
                ) && preparation@ == state && action@ == first,
                Err(error) => begun matches Err(e) && e@ == error,
            },
    {
        let row = match stored {
            Some(row) => row,
            None => {
                return Err(LanFlowError::NotFound("任务不存在".to_owned()));
            },
        };
        let (paths, policy) = match stored_selection(row.paths_json.as_str(), row.policy.as_str()) {
            Ok(selection) => selection,
            Err(error) => {
                return Err(error);
            },
        };
        let preparation = Preparation {
            stage: PrepareStage::Connect,
            task_id,
            share_id: row.share_id,
            paths,
            chunk_size: 0,
            policy,
            task: None,
            manifest: None,
            failure: None,
        };
        Ok((preparation, PrepareAction::Connect(row.peer_id)))
    }

    fn request(&mut self) -> (action: PrepareAction)
        ensures
            final(self)@ == (PreparationView { stage: PrepareStage::Snapshot, ..old(self)@ }),
            action@ == snapshot_request(final(self)@),
    {
        self.stage = PrepareStage::Snapshot;
        PrepareAction::RequestSnapshot(
            self.share_id.clone(),
            fields::copy_texts(&self.paths),
            self.chunk_size,
        )
    }

    /// Takes in an event that the preparation waits for, and tells what is to
    /// be done next.
    pub fn step(&mut self, event: PrepareEvent) -> (action: PrepareAction)
        requires
            is_sound(old(self)@),
            prepare_awaits(old(self)@.stage, event@),
            in_range(event@),
        ensures
            is_sound(final(self)@),
            (final(self)@, action@) == prepare_step(old(self)@, event@),
    {
        match event {
            PrepareEvent::Stored => self.request(),
            PrepareEvent::Connected(settings) => {
                self.chunk_size = commands::resume_chunk_size(&settings);
                self.request()
            },
            PrepareEvent::SnapshotFailed(error, now) => {
                let update = failed_update(&error, now);
                let mut kept = self.task.take();
                if let Some(mut task) = kept {
                    snapshot_failed(&mut task, &error);
                    kept = Some(task);
                }
                self.task = kept;
                self.stage = PrepareStage::NoteFailure;
                self.failure = Some(error);
                PrepareAction::NoteStatus(update)
            },
            PrepareEvent::FailureNoted => {
                let error = self.failure.take().unwrap();
                self.stage = PrepareStage::Failed;
                PrepareAction::Fail(error)
            },
            PrepareEvent::SnapshotReady(manifest, now) => {
                let kept = self.task.take();
                match kept {
                    Some(mut task) => {
                        let (bytes, files) = tasks::manifest_totals(&manifest.files).unwrap();
                        commands::task_prepared(&mut task, bytes, files, now);
                        let stored = tasks::manifest_text(&manifest);
                        self.task = Some(task);
                        self.manifest = Some(manifest);
                        self.stage = PrepareStage::StoreManifest;
                        PrepareAction::StoreManifest(stored, bytes, files)
                    },
                    None => {
                        self.manifest = Some(manifest);
                        self.stage = PrepareStage::Find;
                        PrepareAction::ListTasks
                    },
                }
            },
            PrepareEvent::ManifestStored => {
                let task = self.task.take().unwrap();
                let manifest = self.manifest.take().unwrap();
                self.task = Some(task.clone());
                self.stage = PrepareStage::Start;
                PrepareAction::Start(task, manifest, self.policy)
            },
            PrepareEvent::TasksListed(list) => {
                let manifest = self.manifest.take().unwrap();
                match find_task(&list, self.task_id.as_str()) {
                    Ok(task) => {
                        self.task = Some(task.clone());
                        self.stage = PrepareStage::Start;
                        PrepareAction::Start(task, manifest, self.policy)
                    },
                    Err(error) => {
                        self.stage = PrepareStage::Failed;
                        PrepareAction::Fail(error)
                    },
                }
            },
            PrepareEvent::Started => {
                let task = self.task.take().unwrap();
                self.stage = PrepareStage::Started;
                PrepareAction::Done(task)
            },
        }
    }
}

/// The stored downloads after what is to be done for the download `id` was
/// done.
pub open spec fn rows_after(
    rows: Map<Seq<char>, TaskDtoView>,
    id: Seq<char>,
    action: PrepareActionView,
) -> Map<Seq<char>, TaskDtoView> {
    match action {
        PrepareActionView::Store(task, _, _) => rows.insert(task.id, task),
        PrepareActionView::NoteStatus(update) => if rows.contains_key(id) {
            rows.insert(id, with_status(rows[id], update))
        } else {
            rows
        },
        PrepareActionView::StoreManifest(_, total_bytes, file_count) => if rows.contains_key(id) {
            rows.insert(id, TaskDtoView { total_bytes, file_count, ..rows[id] })
        } else {
            rows
        },
        _ => rows,
    }
}

/// A new download whose snapshot fails leaves one more stored download, with
/// the text of the error, and nothing is started for it: the error is what the
/// preparation ends with.
pub proof fn law_failed_snapshot_is_stored(
    task: TaskDtoView,
    input: CreateTaskInputView,
    chunk_size: u32,
    error: ErrorView,
    now: i64,
    rows: Map<Seq<char>, TaskDtoView>,
)
    ensures
        ({
            let begun = created(task, input, chunk_size);
            let store = PrepareActionView::Store(
                task,
                json::texts_json(input.remote_paths),
                input.conflict_policy.name(),
            );
            let (asking, request) = prepare_step(begun, PrepareEventView::Stored);
            let (failing, note) = prepare_step(
                asking,
                PrepareEventView::SnapshotFailed(error, now),
            );
            let (ended, last) = prepare_step(failing, PrepareEventView::FailureNoted);
            let after = rows_after(
                rows_after(
                    rows_after(rows_after(rows, task.id, store), task.id, request),
                    task.id,
                    note,
                ),
                task.id,
                last,
            );
            &&& request == PrepareActionView::RequestSnapshot(
                input.share_id,
                input.remote_paths,
                chunk_size,
            )
            &&& last == PrepareActionView::Fail(error)
            &&& ended.stage == PrepareStage::Failed
            &&& forall|event: PrepareEventView| !prepare_awaits(ended.stage, event)
            &&& after == rows.insert(
                task.id,
                TaskDtoView { updated_at: now, ..failed_task(task, error) },
            )
        }),
{
    let store = PrepareActionView::Store(
        task,
        json::texts_json(input.remote_paths),
        input.conflict_policy.name(),
    );
    let stored = rows_after(rows, task.id, store);
    let update = status_change("failed"@, Some(error.text()), now);
    assert(stored[task.id] == task);
    assert(with_status(task, update) == (TaskDtoView {
        updated_at: now,
        ..failed_task(task, error)
    }));
    assert(stored.insert(task.id, with_status(task, update)) =~= rows.insert(
        task.id,
        with_status(task, update),
    ));
}

/// What a preparation becomes with some events, one after the other.
pub open spec fn prepared_after(state: PreparationView, events: Seq<PrepareEventView>) -> PreparationView
    decreases events.len(),
{
    if events.len() == 0 {
        state
    } else {
        prepare_step(prepared_after(state, events.drop_last()), events.last()).0
    }
}

/// Whether each of some events is what the preparation waits for when it
/// comes.
pub open spec fn prepare_awaits_all(state: PreparationView, events: Seq<PrepareEventView>) -> bool
    decreases events.len(),
{
    events.len() == 0 || (prepare_awaits_all(state, events.drop_last()) && prepare_awaits(
        prepared_after(state, events.drop_last()).stage,
        events.last(),
    ))
}

/// Whether some events tell of a snapshot that failed.
pub open spec fn tells_failure(events: Seq<PrepareEventView>) -> bool {
    exists|i: int| 0 <= i < events.len() && (#[trigger] events[i]) is SnapshotFailed
}

/// Whether some events tell of a snapshot.
pub open spec fn tells_snapshot(events: Seq<PrepareEventView>) -> bool {
    exists|i: int| 0 <= i < events.len() && (#[trigger] events[i]) is SnapshotReady
}

proof fn lemma_preparation(state: PreparationView, events: Seq<PrepareEventView>)
    requires
        state.stage == PrepareStage::Store || state.stage == PrepareStage::Connect,
        prepare_awaits_all(state, events),
    ensures
        ({
            let now = prepared_after(state, events);
            &&& now.share_id == state.share_id
            &&& now.paths == state.paths
            &&& now.policy == state.policy
            &&& now.task_id == state.task_id
            &&& tells_failure(events) ==> now.stage == PrepareStage::NoteFailure || now.stage
                == PrepareStage::Failed
            &&& now.stage == PrepareStage::StoreManifest || now.stage == PrepareStage::Find
                || now.stage == PrepareStage::Start || now.stage == PrepareStage::Started
                ==> tells_snapshot(events)
        }),
    decreases events.len(),
{
    if events.len() > 0 {
        let before = events.drop_last();
        let last = events.last();
        lemma_preparation(state, before);
        assert(events[events.len() - 1] == last);
        if tells_failure(events) && !(last is SnapshotFailed) {
            let i = choose|i: int|
                0 <= i < events.len() && (#[trigger] events[i]) is SnapshotFailed;
            assert(before[i] == events[i]);
            assert(tells_failure(before));
        }
        if tells_snapshot(before) {
            let i = choose|i: int|
                0 <= i < before.len() && (#[trigger] before[i]) is SnapshotReady;
            assert(events[i] == before[i]);
        }
    }
}

/// The transfer begins only after there is a snapshot, never after one failed,
/// and with the policy that the preparation began with.
pub proof fn law_transfer_needs_a_snapshot(
    state: PreparationView,
    events: Seq<PrepareEventView>,
    event: PrepareEventView,
)
    requires
        state.stage == PrepareStage::Store || state.stage == PrepareStage::Connect,
        prepare_awaits_all(state, events.push(event)),
        prepare_step(prepared_after(state, events), event).1 is Start,
    ensures
        tells_snapshot(events.push(event)),
        !tells_failure(events.push(event)),
        prepare_step(prepared_after(state, events), event).1 matches PrepareActionView::Start(
            _,
            _,
            policy,
        ) && policy == state.policy,
{
    assert(events.push(event).drop_last() =~= events);
    lemma_preparation(state, events);
    lemma_preparation(state, events.push(event));
}

/// A download that goes on asks for what was stored when it was created: the
/// same peer, the same paths of the same share; and it begins with the stored
/// download and the policy that it was created with. What is not stored does
/// not go on.
pub proof fn law_resume_asks_for_what_was_stored(
    task: TaskDtoView,
    input: CreateTaskInputView,
    settings: PerformanceSettings,
    manifest: SnapshotManifestView,
    now: i64,
    list: Seq<TaskDtoView>,
)
    requires
        task.peer_id == input.peer_id,
        task.share_id == input.share_id,
        json::lists(json::texts_json(input.remote_paths), input.remote_paths),
    ensures
        ({
            let row = StoredTaskView {
                peer_id: task.peer_id,
                share_id: task.share_id,
                paths_json: json::texts_json(input.remote_paths),
                policy: input.conflict_policy.name(),
            };
            let begun = resumed(task.id, row.share_id, input.remote_paths, input.conflict_policy);
            let (asking, request) = prepare_step(begun, PrepareEventView::Connected(settings));
            let (finding, look) = prepare_step(
                asking,
                PrepareEventView::SnapshotReady(manifest, now),
            );
            let (starting, start) = prepare_step(finding, PrepareEventView::TasksListed(list));
            &&& row.peer_id == input.peer_id
            &&& commands::selection_of(row.paths_json, row.policy) == Ok::<
                (Seq<Seq<char>>, ConflictPolicy),
                ErrorView,
            >((input.remote_paths, input.conflict_policy))
            &&& request == PrepareActionView::RequestSnapshot(
                input.share_id,
                input.remote_paths,
                (0x10_0000 * settings.chunk_size_mib) as u32,
            )
            &&& look == PrepareActionView::ListTasks
            &&& start == match commands::first_task(list, task.id) {
                Some(kept) => PrepareActionView::Start(kept, manifest, input.conflict_policy),
                None => PrepareActionView::Fail(ErrorView::NotFound("任务不存在"@)),
            }
        }),
{
    models::law_policy_names(input.conflict_policy);
}

/// Whether an event tells what came of an action.
pub open spec fn prepare_answers(action: PrepareActionView, event: PrepareEventView) -> bool {
    match action {
        PrepareActionView::Store(_, _, _) => event is Stored,
        PrepareActionView::Connect(_) => event is Connected,
        PrepareActionView::RequestSnapshot(_, _, _) => event is SnapshotReady || event
            is SnapshotFailed,
        PrepareActionView::NoteStatus(_) => event is FailureNoted,
        PrepareActionView::StoreManifest(_, _, _) => event is ManifestStored,
        PrepareActionView::ListTasks => event is TasksListed,
        PrepareActionView::Start(_, _, _) => event is Started,
        PrepareActionView::Done(_) => false,
        PrepareActionView::Fail(_) => false,
    }
}

/// An event is waited for exactly when it tells what came of the last action,
/// so that a preparation that goes on never gets stuck.
pub proof fn law_each_request_is_answered(
    state: PreparationView,
    events: Seq<PrepareEventView>,
    event: PrepareEventView,
    next: PrepareEventView,
)
    requires
        prepare_awaits_all(state, events.push(event)),
    ensures
        prepare_awaits_all(state, events.push(event).push(next)) <==> prepare_answers(
            prepare_step(prepared_after(state, events), event).1,
            next,
        ),
{
    assert(events.push(event).drop_last() =~= events);
    assert(events.push(event).push(next).drop_last() =~= events.push(event));
}

/// A new download is stored before anything is asked for, as it was made, with
/// what was chosen for it; a download of nothing is refused and not stored.
/// What is stored then begins to go on just like that: the peer is asked for
/// that was chosen, and the paths of the share under the policy.
pub proof fn law_stored_downloads_go_on(
    task: TaskDtoView,
    input: CreateTaskInputView,
    settings: PerformanceSettings,
)
    requires
        task.peer_id == input.peer_id,
        task.share_id == input.share_id,
        json::lists(json::texts_json(input.remote_paths), input.remote_paths),
    ensures
        match creation(task, input, settings) {
            Err(error) => input.remote_paths.len() == 0 && error is InvalidInput,
            Ok((state, action)) => {
                &&& input.remote_paths.len() > 0
                &&& action matches PrepareActionView::Store(row, paths_json, policy)
                &&& row == task
                &&& state.stage == PrepareStage::Store
                &&& state.task == Some(task)
                &&& state == created(task, input, state.chunk_size)
                &&& commands::settings_ok(settings) ==> state.chunk_size == settings.chunk_size_mib
                    * 1024 * 1024
                &&& resumption(
                    row.id,
                    Some(
                        StoredTaskView {
                            peer_id: row.peer_id,
                            share_id: row.share_id,
                            paths_json,
                            policy,
                        },
                    ),
                ) == Ok::<(PreparationView, PrepareActionView), ErrorView>(
                    (
                        resumed(task.id, input.share_id, input.remote_paths, input.conflict_policy),
                        PrepareActionView::Connect(input.peer_id),
                    ),
                )
            },
        },
        resumption(task.id, None) == Err::<(PreparationView, PrepareActionView), ErrorView>(
            ErrorView::NotFound("任务不存在"@),
        ),
{
    models::law_policy_names(input.conflict_policy);
}

proof fn lemma_created(
    task: TaskDtoView,
    input: CreateTaskInputView,
    chunk_size: u32,
    events: Seq<PrepareEventView>,
)
    requires
        prepare_awaits_all(created(task, input, chunk_size), events),
    ensures
        ({
            let state = prepared_after(created(task, input, chunk_size), events);
            let n = events.len();
            &&& state.share_id == input.share_id
            &&& state.paths == input.remote_paths
            &&& state.chunk_size == chunk_size
            &&& state.policy == input.conflict_policy
            &&& state.stage != PrepareStage::Connect && state.stage != PrepareStage::Find
            &&& state.stage == PrepareStage::Store || state.stage == PrepareStage::Snapshot
                ==> state.task == Some(task)
            &&& state.stage == PrepareStage::NoteFailure ==> n > 0 && (events[n - 1]
                matches PrepareEventView::SnapshotFailed(error, _) && state.failure == Some(error))
            &&& state.stage == PrepareStage::StoreManifest ==> n > 0 && (events[n - 1]
                matches PrepareEventView::SnapshotReady(manifest, now) && state.manifest == Some(
                manifest,
            ) && state.task == Some(prepared_task(task, manifest, now)))
            &&& state.stage == PrepareStage::Start ==> n > 1 && (events[n - 2]
                matches PrepareEventView::SnapshotReady(manifest, now) && state.task == Some(
                prepared_task(task, manifest, now),
            ))
        }),
    decreases events.len(),
{
    if events.len() > 0 {
        lemma_created(task, input, chunk_size, events.drop_last());
    }
}

/// A new download asks for the paths that were chosen, of the share that was
/// chosen; stores what it is told to store; and begins with just that
/// snapshot, as the download that was created, with the size and the number of
/// files of the snapshot. An error it ends with is the one it was told.
pub proof fn law_new_download_gets_what_was_chosen(
    task: TaskDtoView,
    input: CreateTaskInputView,
    chunk_size: u32,
    events: Seq<PrepareEventView>,
    event: PrepareEventView,
)
    requires
        prepare_awaits_all(created(task, input, chunk_size), events.push(event)),
        event matches PrepareEventView::SnapshotReady(manifest, _) ==> tasks::total_size(
            manifest.files,
        ) <= u64::MAX && tasks::plain_files(manifest.files) <= u64::MAX,
    ensures
        match prepare_step(prepared_after(created(task, input, chunk_size), events), event).1 {
            PrepareActionView::RequestSnapshot(share_id, paths, size) => share_id == input.share_id
                && paths == input.remote_paths && size == chunk_size,
            PrepareActionView::NoteStatus(update) => event
                matches PrepareEventView::SnapshotFailed(error, now) && update.status == "failed"@
                && update.error == Some(error.text()) && update.speed_bps == 0 && update.updated_at
                == now,
            PrepareActionView::StoreManifest(stored, bytes, files) => event
                matches PrepareEventView::SnapshotReady(manifest, _) && stored
                == crypto::base64_text(message::encoded(manifest)) && bytes == tasks::total_size(
                manifest.files,
            ) && files == tasks::plain_files(manifest.files),
            PrepareActionView::Start(begun, manifest, policy) => events.len() > 0 && (events.last()
                matches PrepareEventView::SnapshotReady(ready, now) && manifest == ready && policy
                == input.conflict_policy && begun == (TaskDtoView {
                total_bytes: tasks::total_size(ready.files) as u64,
                file_count: tasks::plain_files(ready.files) as u64,
                updated_at: now,
                ..task
            })),
            PrepareActionView::Done(begun) => begun.id == task.id && events.len() > 1 && (
            events[events.len() - 2] matches PrepareEventView::SnapshotReady(ready, now) && begun
                == (TaskDtoView {
                total_bytes: tasks::total_size(ready.files) as u64,
                file_count: tasks::plain_files(ready.files) as u64,
                updated_at: now,
                ..task
            })),
            PrepareActionView::Fail(error) => events.len() > 0 && (events.last()
                matches PrepareEventView::SnapshotFailed(told, _) && error == told),
            PrepareActionView::Store(_, _, _) => false,
            PrepareActionView::Connect(_) => false,
            PrepareActionView::ListTasks => false,
        },
{
    assert(events.push(event).drop_last() =~= events);
    lemma_created(task, input, chunk_size, events);
}

proof fn lemma_resumed(
    task_id: Seq<char>,
    share_id: Seq<char>,
    paths: Seq<Seq<char>>,
    policy: ConflictPolicy,
    events: Seq<PrepareEventView>,
)
    requires
        prepare_awaits_all(resumed(task_id, share_id, paths, policy), events),
    ensures
        ({
            let state = prepared_after(resumed(task_id, share_id, paths, policy), events);
            let n = events.len();
            &&& state.task_id == task_id
            &&& state.share_id == share_id
            &&& state.paths == paths
            &&& state.policy == policy
            &&& state.stage != PrepareStage::Store && state.stage != PrepareStage::StoreManifest
            &&& state.stage == PrepareStage::Connect || state.stage == PrepareStage::Snapshot
                ==> state.task is None
            &&& state.stage == PrepareStage::NoteFailure ==> n > 0 && (events[n - 1]
                matches PrepareEventView::SnapshotFailed(error, _) && state.failure == Some(error))
            &&& state.stage == PrepareStage::Find ==> n > 0 && (events[n - 1]
                matches PrepareEventView::SnapshotReady(manifest, _) && state.manifest == Some(
                manifest,
            ))
            &&& state.stage == PrepareStage::Start ==> n > 0 && (events[n - 1]
                matches PrepareEventView::TasksListed(list) && state.task
                == commands::first_task(list, task_id) && state.task is Some)
        }),
    decreases events.len(),
{
    if events.len() > 0 {
        lemma_resumed(task_id, share_id, paths, policy, events.drop_last());
    }
}

/// A download that goes on asks for the paths that were stored, in chunks of
/// the size that is set now, and begins with the download of its own identity
/// and with the snapshot that it was told. It begins exactly where such a
/// download is stored.
pub proof fn law_resumed_download_gets_what_was_stored(
    task_id: Seq<char>,
    share_id: Seq<char>,
    paths: Seq<Seq<char>>,
    policy: ConflictPolicy,
    events: Seq<PrepareEventView>,
    event: PrepareEventView,
)
    requires
        prepare_awaits_all(resumed(task_id, share_id, paths, policy), events.push(event)),
        in_range(event),
    ensures
        match prepare_step(prepared_after(resumed(task_id, share_id, paths, policy), events), event).1 {
            PrepareActionView::RequestSnapshot(share, list, size) => share == share_id && list
                == paths && (event matches PrepareEventView::Connected(settings) && size
                == settings.chunk_size_mib * 1024 * 1024),
            PrepareActionView::NoteStatus(update) => event
                matches PrepareEventView::SnapshotFailed(error, now) && update.status == "failed"@
                && update.error == Some(error.text()) && update.speed_bps == 0 && update.updated_at
                == now,
            PrepareActionView::Start(begun, manifest, chosen) => chosen == policy && begun.id
                == task_id && (event matches PrepareEventView::TasksListed(list) && list.contains(
                begun,
            )) && events.len() > 0 && (events.last() matches PrepareEventView::SnapshotReady(
                ready,
                _,
            ) && manifest == ready),
            PrepareActionView::Done(begun) => begun.id == task_id && events.len() > 0 && (
            events.last() matches PrepareEventView::TasksListed(list) && list.contains(begun)),
            PrepareActionView::Fail(error) => (event matches PrepareEventView::TasksListed(list)
                && error == ErrorView::NotFound("任务不存在"@) && forall|i: int|
                0 <= i < list.len() ==> (#[trigger] list[i]).id != task_id) || (events.len() > 0
                && (events.last() matches PrepareEventView::SnapshotFailed(told, _) && error
                == told)),
            PrepareActionView::ListTasks => event is SnapshotReady,
            PrepareActionView::StoreManifest(_, _, _) => false,
            PrepareActionView::Store(_, _, _) => false,
            PrepareActionView::Connect(_) => false,
        },
{
    assert(events.push(event).drop_last() =~= events);
    lemma_resumed(task_id, share_id, paths, policy, events);
    if let PrepareEventView::TasksListed(list) = event {
        commands::law_tasks_are_found_by_identity(list, task_id);
    }
    if events.len() > 0 {
        if let PrepareEventView::TasksListed(list) = events.last() {
            commands::law_tasks_are_found_by_identity(list, task_id);
        }
    }
}

// ---------------------------------------------------------------------------
// Running a download
// ---------------------------------------------------------------------------

/// Where a download stands.
#[derive(Clone, Copy, Debug, PartialEq, Eq, Structural)]
pub enum RunStage {
    /// Files are being fetched.
    Running,
    /// All files are there.
    Completed,
    /// It failed.
    Failed,
    /// It was stopped.
    Stopped,
}

/// A download that runs.
pub struct TaskRun {
    /// The download as it was when it began.
    pub task: TaskDto,
    pub total_bytes: u64,
    pub file_count: u64,
    pub completion: Completion,
    pub stage: RunStage,
}

/// The model of a [`TaskRun`].
#[verifier::ext_equal]
pub struct TaskRunView {
    pub task: TaskDtoView,
    pub total_bytes: u64,
    pub file_count: u64,
    pub completion: CompletionView,
    pub stage: RunStage,
}

impl View for TaskRun {
    type V = TaskRunView;

    open spec fn view(&self) -> TaskRunView {
        TaskRunView {
            task: self.task@,
            total_bytes: self.total_bytes,
            file_count: self.file_count,
            completion: self.completion@,
            stage: self.stage,
        }
    }
}

/// What happens to a download that runs.
pub enum RunEvent {
    /// It is time to report: the bytes that are done, the speed and the time.
    Tick(u64, u64, i64),
    /// A file with an identity and a path is there.
    FileDone(String, String),
    /// All files are there: the bytes that are done and the time.
    AllDone(u64, i64),
    /// It failed, because it was cancelled or not, at this time.
    Failed(LanFlowError, bool, i64),
}

/// The model of a [`RunEvent`].
#[verifier::ext_equal]
pub enum RunEventView {
    Tick(u64, u64, i64),
    FileDone(Seq<char>, Seq<char>),
    AllDone(u64, i64),
    Failed(ErrorView, bool, i64),
}

impl View for RunEvent {
    type V = RunEventView;

    open spec fn view(&self) -> RunEventView {
        match self {
            RunEvent::Tick(done, speed, now) => RunEventView::Tick(*done, *speed, *now),
            RunEvent::FileDone(id, path) => RunEventView::FileDone(id@, path@),
            RunEvent::AllDone(done, now) => RunEventView::AllDone(*done, *now),
            RunEvent::Failed(error, cancelled, now) => RunEventView::Failed(
                error@,
                *cancelled,
                *now,
            ),
        }
    }
}

/// What is to be done, in this order.
pub struct RunStep {
    /// The files that are to be noted as complete.
    pub note: Vec<String>,
    /// The state that is to be stored.
    pub save: Option<StateUpdate>,
    /// The report that is to be sent.
    pub report: Option<TaskProgressEvent>,
}

/// The model of a [`RunStep`].
#[verifier::ext_equal]
pub struct RunStepView {
    pub note: Seq<Seq<char>>,
    pub save: Option<StateUpdateView>,
    pub report: Option<TaskProgressEventView>,
}

impl View for RunStep {
    type V = RunStepView;

    open spec fn view(&self) -> RunStepView {
        RunStepView {
            note: fields::views(self.note@),
            save: match self.save {
                Some(update) => Some(update@),
                None => None,
            },
            report: match self.report {
                Some(event) => Some(event@),
                None => None,
            },
        }
    }
}

/// Whether an event can happen to a download. One that is complete can still
/// fail: its end may not be stored.
pub open spec fn run_awaits(state: TaskRunView, event: RunEventView) -> bool {
    match event {
        RunEventView::Tick(_, _, _) => state.stage == RunStage::Running,
        RunEventView::FileDone(_, _) => state.stage == RunStage::Running
            && state.completion.completed_files < u64::MAX,
        RunEventView::AllDone(_, _) => state.stage == RunStage::Running,
        RunEventView::Failed(_, _, _) => state.stage == RunStage::Running || state.stage
            == RunStage::Completed,
    }
}

/// A download that has just begun.
pub open spec fn run_begun(task: TaskDtoView, total_bytes: u64, file_count: u64) -> TaskRunView {
    TaskRunView {
        task,
        total_bytes,
        file_count,
        completion: CompletionView {
            pending: Seq::empty(),
            completed_files: 0,
            current_file: Seq::empty(),
        },
        stage: RunStage::Running,
    }
}

/// The state that is stored while a download runs or once it is complete.
pub open spec fn running_state(
    status: Seq<char>,
    done: u64,
    speed: u64,
    files: u64,
    now: i64,
) -> StateUpdateView {
    StateUpdateView {
        status,
        completed_bytes: done,
        speed_bps: speed,
        completed_files: files,
        error: None,
        updated_at: now,
    }
}

/// The state that is stored when a download failed.
pub open spec fn failed_state(task: TaskDtoView, error: ErrorView, now: i64) -> StateUpdateView {
    StateUpdateView {
        status: "failed"@,
        completed_bytes: task.completed_bytes,
        speed_bps: 0,
        completed_files: task.completed_files,
        error: Some(error.text()),
        updated_at: now,
    }
}

/// How a download begins to run, and the state that is to be stored then.
pub open spec fn run_start(task: TaskDtoView, total_bytes: u64, file_count: u64, now: i64) -> (
    TaskRunView,
    StateUpdateView,
) {
    (
        run_begun(task, total_bytes, file_count),
        running_state("downloading"@, 0, 0, 0, now),
    )
}

/// What a download becomes with an event, and what is to be done then.
pub open spec fn run_step(state: TaskRunView, event: RunEventView) -> (TaskRunView, RunStepView) {
    let flushed = CompletionView { pending: Seq::empty(), ..state.completion };
    match event {
        RunEventView::Tick(done, speed, now) => (
            TaskRunView { completion: flushed, ..state },
            RunStepView {
                note: state.completion.pending,
                save: Some(
                    running_state(
                        "downloading"@,
                        done,
                        speed,
                        state.completion.completed_files,
                        now,
                    ),
                ),
                report: Some(
                    TaskProgressEventView {
                        task_id: state.task.id,
                        status: "downloading"@,
                        completed_bytes: done,
                        total_bytes: state.total_bytes,
                        speed_bps: speed,
                        completed_files: state.completion.completed_files,
                        file_count: state.file_count,
                        current_file: state.completion.current_file,
                    },
                ),
            },
        ),
        RunEventView::FileDone(id, path) => {
            let pending = state.completion.pending.push(id);
            let full = pending.len() >= COMPLETION_BATCH;
            (
                TaskRunView {
                    completion: CompletionView {
                        pending: if full {
                            Seq::empty()
                        } else {
                            pending
                        },
                        completed_files: (state.completion.completed_files + 1) as u64,
                        current_file: path,
                    },
                    ..state
                },
                RunStepView {
                    note: if full {
                        pending
                    } else {
                        Seq::empty()
                    },
                    save: None,
                    report: None,
                },
            )
        },
        RunEventView::AllDone(done, now) => (
            TaskRunView { completion: flushed, stage: RunStage::Completed, ..state },
            RunStepView {
                note: state.completion.pending,
                save: Some(
                    running_state("completed"@, done, 0, state.completion.completed_files, now),
                ),
                report: Some(
                    tasks::finished_report(
                        state.task.id,
                        state.completion,
                        done,
                        state.total_bytes,
                        state.file_count,
                    ),
                ),
            },
        ),
        RunEventView::Failed(error, cancelled, now) => if cancelled {
            (
                TaskRunView { stage: RunStage::Stopped, ..state },
                RunStepView { note: Seq::empty(), save: None, report: None },
            )
        } else {
            (
                TaskRunView { stage: RunStage::Failed, ..state },
                RunStepView {
                    note: Seq::empty(),
                    save: Some(failed_state(state.task, error, now)),
                    report: Some(tasks::failure_report(state.task, error)),
                },
            )
        },
    }
}

fn saved(status: &str, done: u64, speed: u64, files: u64, now: i64) -> (update: StateUpdate)
    ensures
        update@ == running_state(status@, done, speed, files, now),
{
    StateUpdate {
        status: status.to_owned(),
        completed_bytes: done,
        speed_bps: speed,
        completed_files: files,
        error: None,
        updated_at: now,
    }
}

impl TaskRun {
    /// Begins to run a download; the result is also the state that is to be
    /// stored.
    pub fn start(task: TaskDto, total_bytes: u64, file_count: u64, now: i64) -> (started: (
        TaskRun,
        StateUpdate,
    ))
        ensures
            started.0@ == run_begun(task@, total_bytes, file_count),
            started.1@ == running_state("downloading"@, 0, 0, 0, now),
            (started.0@, started.1@) == run_start(task@, total_bytes, file_count, now),
    {
        let run = TaskRun {
            task,
            total_bytes,
            file_count,
            completion: Completion::new(),
            stage: RunStage::Running,
        };
        (run, saved("downloading", 0, 0, 0, now))
    }

    /// Takes in what happened to the download, and tells what is to be done.
    pub fn step(&mut self, event: RunEvent) -> (step: RunStep)
        requires
            run_awaits(old(self)@, event@),
        ensures
            (final(self)@, step@) == run_step(old(self)@, event@),
    {
        match event {
            RunEvent::Tick(done, speed, now) => {
                let report = progress_event(
                    self.task.id.as_str(),
                    "downloading",
                    done,
                    self.total_bytes,
                    speed,
                    self.completion.completed_files,
                    self.file_count,
                    self.completion.current_file.as_str(),
                );
                let update = saved(
                    "downloading",
                    done,
                    speed,
                    self.completion.completed_files,
                    now,
                );
                let note = self.completion.take_pending();
                RunStep { note, save: Some(update), report: Some(report) }
            },
            RunEvent::FileDone(id, path) => {
                let note = if self.completion.finish_file(id, path) {
                    self.completion.take_pending()
                } else {
                    Vec::new()
                };
                assert(fields::views(Seq::<String>::empty()) =~= Seq::empty());
                RunStep { note, save: None, report: None }
            },
            RunEvent::AllDone(done, now) => {
                let report = finished_event(
                    self.task.id.as_str(),
                    &self.completion,
                    done,
                    self.total_bytes,
                    self.file_count,
                );
                let update = saved("completed", done, 0, self.completion.completed_files, now);
                let note = self.completion.take_pending();
                self.stage = RunStage::Completed;
                RunStep { note, save: Some(update), report: Some(report) }
            },
            RunEvent::Failed(error, cancelled, now) => {
                assert(fields::views(Seq::<String>::empty()) =~= Seq::empty());
                if cancelled {
                    self.stage = RunStage::Stopped;
                    RunStep { note: Vec::new(), save: None, report: None }
                } else {
                    self.stage = RunStage::Failed;
                    let update = StateUpdate {
                        status: "failed".to_owned(),
                        completed_bytes: self.task.completed_bytes,
                        speed_bps: 0,
                        completed_files: self.task.completed_files,
                        error: Some(error.message()),
                        updated_at: now,
                    };
                    let report = failure_event(&self.task, &error);
                    RunStep { note: Vec::new(), save: Some(update), report: Some(report) }
                }
            },
        }
    }
}

/// What a download becomes with some events, one after the other.
pub open spec fn run_after(state: TaskRunView, events: Seq<RunEventView>) -> TaskRunView
    decreases events.len(),
{
    if events.len() == 0 {
        state
    } else {
        run_step(run_after(state, events.drop_last()), events.last()).0
    }
}

/// Whether each of some events can happen when it comes.
pub open spec fn run_awaits_all(state: TaskRunView, events: Seq<RunEventView>) -> bool
    decreases events.len(),
{
    events.len() == 0 || (run_awaits_all(state, events.drop_last()) && run_awaits(
        run_after(state, events.drop_last()),
        events.last(),
    ))
}

/// The files that came in with some events, in this order.
pub open spec fn files_done(events: Seq<RunEventView>) -> Seq<Seq<char>>
    decreases events.len(),
{
    if events.len() == 0 {
        Seq::empty()
    } else {
        match events.last() {
            RunEventView::FileDone(id, _) => files_done(events.drop_last()).push(id),
            _ => files_done(events.drop_last()),
        }
    }
}

/// The files that were noted with some events, in this order.
pub open spec fn files_noted(state: TaskRunView, events: Seq<RunEventView>) -> Seq<Seq<char>>
    decreases events.len(),
{
    if events.len() == 0 {
        Seq::empty()
    } else {
        let before = events.drop_last();
        files_noted(state, before) + run_step(run_after(state, before), events.last()).1.note
    }
}

/// Every file that came in is noted once, in order; what is not noted yet is
/// kept. A download that is complete has noted all its files.
pub proof fn law_files_are_noted_once(
    task: TaskDtoView,
    total_bytes: u64,
    file_count: u64,
    events: Seq<RunEventView>,
)
    requires
        run_awaits_all(run_begun(task, total_bytes, file_count), events),
    ensures
        ({
            let begun = run_begun(task, total_bytes, file_count);
            let now = run_after(begun, events);
            &&& files_noted(begun, events) + now.completion.pending == files_done(events)
            &&& now.completion.completed_files == files_done(events).len()
            &&& now.stage == RunStage::Completed ==> files_noted(begun, events) == files_done(
                events,
            )
            &&& now.task == task
            &&& now.total_bytes == total_bytes
            &&& now.file_count == file_count
        }),
    decreases events.len(),
{
    let begun = run_begun(task, total_bytes, file_count);
    if events.len() > 0 {
        let before = events.drop_last();
        law_files_are_noted_once(task, total_bytes, file_count, before);
        let was = run_after(begun, before);
        let now = run_after(begun, events);
        let noted = files_noted(begun, before);
        let note = run_step(was, events.last()).1.note;
        match events.last() {
            RunEventView::FileDone(id, _) => {
                assert(note + now.completion.pending =~= was.completion.pending.push(id));
                assert((noted + note) + now.completion.pending =~= (noted
                    + was.completion.pending).push(id));
            },
            _ => {
                assert(note + now.completion.pending =~= was.completion.pending);
                assert((noted + note) + now.completion.pending =~= noted + was.completion.pending);
            },
        }
        if now.stage == RunStage::Completed {
            assert(now.completion.pending =~= Seq::empty());
            assert((noted + note) + now.completion.pending =~= noted + note);
        }
    } else {
        assert(files_noted(begun, events) + begun.completion.pending =~= files_done(events));
    }
}

/// The path of the file that came in last with some events.
pub open spec fn last_file(events: Seq<RunEventView>) -> Seq<char>
    decreases events.len(),
{
    if events.len() == 0 {
        Seq::empty()
    } else {
        match events.last() {
            RunEventView::FileDone(_, path) => path,
            _ => last_file(events.drop_last()),
        }
    }
}

proof fn lemma_last_file(
    task: TaskDtoView,
    total_bytes: u64,
    file_count: u64,
    events: Seq<RunEventView>,
)
    requires
        run_awaits_all(run_begun(task, total_bytes, file_count), events),
    ensures
        ({
            let state = run_after(run_begun(task, total_bytes, file_count), events);
            &&& state.completion.current_file == last_file(events)
            &&& state.completion.pending.len() < COMPLETION_BATCH
        }),
    decreases events.len(),
{
    if events.len() > 0 {
        lemma_last_file(task, total_bytes, file_count, events.drop_last());
    }
}

/// What is stored of a download is what is reported of it: whenever one of
/// them changes, so does the other, and both tell the same state, the same
/// bytes, the same files and the same speed of this download.
pub proof fn law_stored_and_reported_agree(
    task: TaskDtoView,
    total_bytes: u64,
    file_count: u64,
    events: Seq<RunEventView>,
    event: RunEventView,
    row: TaskDtoView,
)
    requires
        run_awaits_all(run_begun(task, total_bytes, file_count), events.push(event)),
    ensures
        ({
            let step = run_step(
                run_after(run_begun(task, total_bytes, file_count), events),
                event,
            ).1;
            &&& step.save is Some <==> step.report is Some
            &&& step.save matches Some(save) ==> (step.report matches Some(report) && {
                &&& save.completed_bytes == report.completed_bytes
                &&& save.completed_files == report.completed_files
                &&& save.speed_bps == report.speed_bps
                &&& save.status == report.status
                &&& report.task_id == task.id
                &&& with_state(row, save).completed_bytes == report.completed_bytes
                &&& with_state(row, save).completed_files == report.completed_files
                &&& with_state(row, save).speed_bps == report.speed_bps
                &&& with_state(row, save).status == report.status
            })
        }),
{
    assert(events.push(event).drop_last() =~= events);
    law_files_are_noted_once(task, total_bytes, file_count, events);
}

/// While a download runs, the bytes that are done and the speed are stored as
/// they are told, with the number of files that came in so far, and reported
/// beside the size of the download and the file that came in last.
pub proof fn law_progress_is_stored(
    task: TaskDtoView,
    total_bytes: u64,
    file_count: u64,
    events: Seq<RunEventView>,
    done: u64,
    speed: u64,
    now: i64,
    row: TaskDtoView,
)
    requires
        run_awaits_all(
            run_begun(task, total_bytes, file_count),
            events.push(RunEventView::Tick(done, speed, now)),
        ),
    ensures
        ({
            let (state, step) = run_step(
                run_after(run_begun(task, total_bytes, file_count), events),
                RunEventView::Tick(done, speed, now),
            );
            &&& state.stage == RunStage::Running
            &&& step.save matches Some(save) && with_state(row, save) == (TaskDtoView {
                status: "downloading"@,
                completed_bytes: done,
                speed_bps: speed,
                completed_files: files_done(events).len() as u64,
                error: None,
                updated_at: now,
                ..row
            })
            &&& step.report matches Some(report) && report == (TaskProgressEventView {
                task_id: task.id,
                status: "downloading"@,
                completed_bytes: done,
                total_bytes,
                speed_bps: speed,
                completed_files: files_done(events).len() as u64,
                file_count,
                current_file: last_file(events),
            })
            &&& state.completion.pending.len() == 0
        }),
{
    assert(events.push(RunEventView::Tick(done, speed, now)).drop_last() =~= events);
    law_files_are_noted_once(task, total_bytes, file_count, events);
    lemma_last_file(task, total_bytes, file_count, events);
}

/// A download that fails is stored with the text of its error, which is also
/// reported, and with what was stored of it before it began; one that was
/// cancelled is left as it is stored.
pub proof fn law_failures_are_stored(
    task: TaskDtoView,
    total_bytes: u64,
    file_count: u64,
    events: Seq<RunEventView>,
    error: ErrorView,
    cancelled: bool,
    now: i64,
    row: TaskDtoView,
)
    requires
        run_awaits_all(
            run_begun(task, total_bytes, file_count),
            events.push(RunEventView::Failed(error, cancelled, now)),
        ),
    ensures
        ({
            let (state, step) = run_step(
                run_after(run_begun(task, total_bytes, file_count), events),
                RunEventView::Failed(error, cancelled, now),
            );
            &&& step.note.len() == 0
            &&& cancelled ==> state.stage == RunStage::Stopped && step.save is None && step.report
                is None
            &&& !cancelled ==> state.stage == RunStage::Failed && (step.save matches Some(save)
                && with_state(row, save) == (TaskDtoView {
                status: "failed"@,
                completed_bytes: task.completed_bytes,
                speed_bps: 0,
                completed_files: task.completed_files,
                error: Some(error.text()),
                updated_at: now,
                ..row
            })) && (step.report matches Some(report) && report == (TaskProgressEventView {
                task_id: task.id,
                status: "failed"@,
                completed_bytes: task.completed_bytes,
                total_bytes: task.total_bytes,
                speed_bps: 0,
                completed_files: task.completed_files,
                file_count: task.file_count,
                current_file: error.text(),
            }))
            &&& forall|next: RunEventView| !run_awaits(state, next)
        }),
{
    assert(events.push(RunEventView::Failed(error, cancelled, now)).drop_last() =~= events);
    law_files_are_noted_once(task, total_bytes, file_count, events);
}

/// Files that came in are noted 256 at a time, or with the next report.
pub proof fn law_files_are_noted_in_batches(
    task: TaskDtoView,
    total_bytes: u64,
    file_count: u64,
    events: Seq<RunEventView>,
    id: Seq<char>,
    path: Seq<char>,
)
    requires
        run_awaits_all(
            run_begun(task, total_bytes, file_count),
            events.push(RunEventView::FileDone(id, path)),
        ),
    ensures
        ({
            let (state, step) = run_step(
                run_after(run_begun(task, total_bytes, file_count), events),
                RunEventView::FileDone(id, path),
            );
            &&& state.stage == RunStage::Running
            &&& step.save is None
            &&& step.report is None
            &&& step.note.len() == 0 || step.note.len() == 256
            &&& state.completion.pending.len() < 256
        }),
{
    assert(events.push(RunEventView::FileDone(id, path)).drop_last() =~= events);
    lemma_last_file(task, total_bytes, file_count, events);
}

/// A download that begins is stored as one of which nothing is done yet and
/// nothing went wrong.
pub proof fn law_begun_download_has_nothing_done(
    task: TaskDtoView,
    total_bytes: u64,
    file_count: u64,
    row: TaskDtoView,
    now: i64,
)
    ensures
        ({
            let (state, save) = run_start(task, total_bytes, file_count, now);
            &&& state == run_begun(task, total_bytes, file_count)
            &&& state.stage == RunStage::Running
            &&& state.completion.completed_files == 0
            &&& state.completion.pending.len() == 0
            &&& with_state(row, save) == (TaskDtoView {
                status: "downloading"@,
                completed_bytes: 0,
                speed_bps: 0,
                completed_files: 0,
                error: None,
                updated_at: now,
                ..row
            })
        }),
{
}

/// A download ends well in one way: what is stored is that it is complete, with
/// all files that came in and all bytes that are done, without speed and
/// without an error; and just that is reported.
pub proof fn law_finished_task_is_stored(
    task: TaskDtoView,
    total_bytes: u64,
    file_count: u64,
    events: Seq<RunEventView>,
    done: u64,
    now: i64,
    row: TaskDtoView,
)
    requires
        run_awaits_all(
            run_begun(task, total_bytes, file_count),
            events.push(RunEventView::AllDone(done, now)),
        ),
    ensures
        ({
            let begun = run_begun(task, total_bytes, file_count);
            let (ended, step) = run_step(
                run_after(begun, events),
                RunEventView::AllDone(done, now),
            );
            &&& ended.stage == RunStage::Completed
            &&& step.save matches Some(update) && with_state(row, update) == (TaskDtoView {
                status: "completed"@,
                completed_bytes: done,
                speed_bps: 0,
                completed_files: files_done(events).len() as u64,
                error: None,
                updated_at: now,
                ..row
            })
            &&& step.report matches Some(event) && event == (TaskProgressEventView {
                task_id: task.id,
                status: "completed"@,
                completed_bytes: done,
                total_bytes,
                speed_bps: 0,
                completed_files: files_done(events).len() as u64,
                file_count,
                current_file: Seq::empty(),
            })
        }),
{
    assert(events.push(RunEventView::AllDone(done, now)).drop_last() =~= events);
    law_files_are_noted_once(task, total_bytes, file_count, events);
}

/// A download that ends after all files of its snapshot came in, and for which
/// all their bytes were counted, is stored with the number of these files and
/// with their size.
pub proof fn law_whole_snapshot_is_counted(
    task: TaskDtoView,
    files: Seq<ManifestFileView>,
    bitmaps: Seq<Seq<u8>>,
    events: Seq<RunEventView>,
    done: u64,
    now: i64,
    row: TaskDtoView,
)
    requires
        tasks::total_size(files) <= u64::MAX,
        tasks::plain_files(files) <= u64::MAX,
        forall|i: int|
            0 <= i < files.len() ==> snapshot::tiles(
                (#[trigger] files[i]).chunks,
                files[i].size as nat,
            ),
        done == tasks::all_bytes_done(files, bitmaps),
        files_done(events).len() == tasks::plain_files(files),
        run_awaits_all(
            run_begun(
                task,
                tasks::total_size(files) as u64,
                tasks::plain_files(files) as u64,
            ),
            events.push(RunEventView::AllDone(done, now)),
        ),
    ensures
        ({
            let begun = run_begun(
                task,
                tasks::total_size(files) as u64,
                tasks::plain_files(files) as u64,
            );
            let step = run_step(run_after(begun, events), RunEventView::AllDone(done, now)).1;
            &&& step.save matches Some(update) && with_state(row, update).status == "completed"@
                && with_state(row, update).completed_bytes == tasks::total_size(files)
                && with_state(row, update).completed_files == tasks::plain_files(files)
                && with_state(row, update).speed_bps == 0 && with_state(row, update).error is None
            &&& step.report matches Some(event) && event.completed_bytes == event.total_bytes
                && event.completed_files == event.file_count
        }),
{
    tasks::law_task_bytes_add_up(files, bitmaps);
    law_finished_task_is_stored(
        task,
        tasks::total_size(files) as u64,
        tasks::plain_files(files) as u64,
        events,
        done,
        now,
        row,
    );
}

} // verus!
