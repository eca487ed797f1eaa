//! The download of one file: the steps from looking at what is in its place to
//! moving the finished file there.

use vstd::arithmetic::div_mod::{
    lemma_fundamental_div_mod,
    lemma_fundamental_div_mod_converse,
};
use vstd::prelude::*;

use crate::client;
use crate::error::{ErrorView, LanFlowError};
use crate::fields;
use crate::models::ConflictPolicy;
use crate::paths;
use crate::snapshot;
use crate::tasks;
use crate::tasks::{ChunkResults, ChunkResultsView, TargetChoice};
use crate::wire::snapshot::{ChunkHashView, ManifestFile, ManifestFileView};

verus! {

/// What the download of a file waits for.
#[derive(Clone, Copy, Debug, PartialEq, Eq, Structural)]
pub enum Stage {
    /// To hear what is in the file's place.
    Target,
    /// For a name that no file has.
    Name,
    /// To hear what is left of an earlier try.
    Partial,
    /// For the chunks of an earlier try to be checked.
    Check,
    /// For the partial file to be made.
    Make,
    /// For the missing chunks.
    Fetch,
    /// For the chunks that came in to be noted.
    Note,
    /// For the whole file to be checked.
    Verify,
    /// To hear whether something is where the file goes.
    Place,
    /// For the old file to be removed.
    Remove,
    /// For the file to be moved.
    Move,
    /// The file is in its place.
    Placed,
    /// Nothing had to be done.
    Skipped,
    /// The download failed.
    Failed,
}

/// The download of a file.
pub struct FileDownload {
    pub file: ManifestFile,
    pub policy: ConflictPolicy,
    pub stage: Stage,
    /// The place that belongs to the file.
    pub target: String,
    /// Where the file goes: its place, or beside a file that is there.
    pub goal: String,
    /// Where the file lies until it is complete.
    pub partial: String,
    /// Which chunks are there.
    pub bitmap: Vec<u8>,
    /// What went wrong with a chunk.
    pub failure: Option<LanFlowError>,
}

/// The model of a [`FileDownload`].
#[verifier::ext_equal]
pub struct DownloadView {
    pub file: ManifestFileView,
    pub policy: ConflictPolicy,
    pub stage: Stage,
    pub target: Seq<char>,
    pub goal: Seq<char>,
    pub partial: Seq<char>,
    pub bitmap: Seq<u8>,
    pub failure: Option<ErrorView>,
}

impl View for FileDownload {
    type V = DownloadView;

    open spec fn view(&self) -> DownloadView {
        DownloadView {
            file: self.file@,
            policy: self.policy,
            stage: self.stage,
            target: self.target@,
            goal: self.goal@,
            partial: self.partial@,
            bitmap: self.bitmap@,
            failure: match self.failure {
                Some(error) => Some(error@),
                None => None,
            },
        }
    }
}

/// What was heard or done.
pub enum DownloadEvent {
    /// Whether a file is in the place, and whether it has the right hash.
    TargetSeen(bool, bool),
    /// A name that no file has.
    NameFound(String),
    /// The length of the partial file, where there is one.
    PartialSeen(Option<u64>),
    /// The marks that are left after the check.
    Checked(Vec<u8>),
    /// The partial file has its full length.
    PartialMade,
    /// What came of the missing chunks.
    Fetched(ChunkResults),
    /// The chunks that came in are noted.
    Noted,
    /// Whether the partial file has the right hash.
    WholeChecked(bool),
    /// Whether a file is where this one goes.
    GoalSeen(bool),
    /// The old file is gone.
    OldRemoved,
    /// The file was moved.
    Moved,
}

/// The model of a [`DownloadEvent`].
#[verifier::ext_equal]
pub enum DownloadEventView {
    TargetSeen(bool, bool),
    NameFound(Seq<char>),
    PartialSeen(Option<u64>),
    Checked(Seq<u8>),
    PartialMade,
    Fetched(ChunkResultsView),
    Noted,
    WholeChecked(bool),
    GoalSeen(bool),
    OldRemoved,
    Moved,
}

impl View for DownloadEvent {
    type V = DownloadEventView;

    open spec fn view(&self) -> DownloadEventView {
        match self {
            DownloadEvent::TargetSeen(exists, same) => DownloadEventView::TargetSeen(
                *exists,
                *same,
            ),
            DownloadEvent::NameFound(path) => DownloadEventView::NameFound(path@),
            DownloadEvent::PartialSeen(len) => DownloadEventView::PartialSeen(*len),
            DownloadEvent::Checked(bitmap) => DownloadEventView::Checked(bitmap@),
            DownloadEvent::PartialMade => DownloadEventView::PartialMade,
            DownloadEvent::Fetched(results) => DownloadEventView::Fetched(results@),
            DownloadEvent::Noted => DownloadEventView::Noted,
            DownloadEvent::WholeChecked(ok) => DownloadEventView::WholeChecked(*ok),
            DownloadEvent::GoalSeen(exists) => DownloadEventView::GoalSeen(*exists),
            DownloadEvent::OldRemoved => DownloadEventView::OldRemoved,
            DownloadEvent::Moved => DownloadEventView::Moved,
        }
    }
}

/// What is to be done next.
pub enum DownloadAction {
    /// Look whether a file is at a path and has the right hash.
    LookAtTarget(String),
    /// Find a name beside a path that no file has.
    FindName(String),
    /// Look how long the partial file is.
    LookAtPartial(String),
    /// Check the marked chunks of the partial file.
    CheckChunks(Vec<u8>),
    /// Make the partial file, or give it its full length.
    MakePartial(u64),
    /// Fetch the chunks at some positions; the others have so many bytes.
    Fetch(Vec<usize>, u64),
    /// Note which chunks came in.
    NoteChunks(Vec<usize>),
    /// Check the hash of the partial file.
    CheckWhole(String),
    /// Look whether a file is at a path.
    LookAtGoal(String),
    /// Remove the file at a path.
    RemoveOld(String),
    /// Move the partial file to a path and give it a time, in seconds and
    /// nanoseconds.
    Move(String, i64, u32),
    /// Nothing more. So many bytes count as done that were not fetched.
    Finish(u64),
    /// Give up.
    Fail(LanFlowError),
}

/// The model of a [`DownloadAction`].
#[verifier::ext_equal]
pub enum DownloadActionView {
    LookAtTarget(Seq<char>),
    FindName(Seq<char>),
    LookAtPartial(Seq<char>),
    CheckChunks(Seq<u8>),
    MakePartial(u64),
    Fetch(Seq<int>, u64),
    NoteChunks(Seq<usize>),
    CheckWhole(Seq<char>),
    LookAtGoal(Seq<char>),
    RemoveOld(Seq<char>),
    Move(Seq<char>, int, int),
    Finish(u64),
    Fail(ErrorView),
}

impl View for DownloadAction {
    type V = DownloadActionView;

    open spec fn view(&self) -> DownloadActionView {
        match self {
            DownloadAction::LookAtTarget(path) => DownloadActionView::LookAtTarget(path@),
            DownloadAction::FindName(path) => DownloadActionView::FindName(path@),
            DownloadAction::LookAtPartial(path) => DownloadActionView::LookAtPartial(path@),
            DownloadAction::CheckChunks(bitmap) => DownloadActionView::CheckChunks(bitmap@),
            DownloadAction::MakePartial(size) => DownloadActionView::MakePartial(*size),
            DownloadAction::Fetch(list, bytes) => DownloadActionView::Fetch(
                tasks::positions(list@),
                *bytes,
            ),
            DownloadAction::NoteChunks(list) => DownloadActionView::NoteChunks(list@),
            DownloadAction::CheckWhole(path) => DownloadActionView::CheckWhole(path@),
            DownloadAction::LookAtGoal(path) => DownloadActionView::LookAtGoal(path@),
            DownloadAction::RemoveOld(path) => DownloadActionView::RemoveOld(path@),
            DownloadAction::Move(path, seconds, nanoseconds) => DownloadActionView::Move(
                path@,
                *seconds as int,
                *nanoseconds as int,
            ),
            DownloadAction::Finish(bytes) => DownloadActionView::Finish(*bytes),
            DownloadAction::Fail(error) => DownloadActionView::Fail(error@),
        }
    }
}

/// Whether an event is what a download waits for.
pub open spec fn awaited(stage: Stage, event: DownloadEventView) -> bool {
    match event {
        DownloadEventView::TargetSeen(_, _) => stage == Stage::Target,
        DownloadEventView::NameFound(_) => stage == Stage::Name,
        DownloadEventView::PartialSeen(_) => stage == Stage::Partial,
        DownloadEventView::Checked(_) => stage == Stage::Check,
        DownloadEventView::PartialMade => stage == Stage::Make,
        DownloadEventView::Fetched(_) => stage == Stage::Fetch,
        DownloadEventView::Noted => stage == Stage::Note,
        DownloadEventView::WholeChecked(_) => stage == Stage::Verify,
        DownloadEventView::GoalSeen(_) => stage == Stage::Place,
        DownloadEventView::OldRemoved => stage == Stage::Remove,
        DownloadEventView::Moved => stage == Stage::Move,
    }
}

/// A download that has just begun.
pub open spec fn begun(
    file: ManifestFileView,
    bitmap: Seq<u8>,
    policy: ConflictPolicy,
    target: Seq<char>,
    partial: Seq<char>,
) -> DownloadView {
    DownloadView {
        file,
        policy,
        stage: Stage::Target,
        target,
        goal: target,
        partial,
        bitmap,
        failure: None,
    }
}

/// How the download of a file begins, or why it does not.
pub open spec fn download_start(
    file: ManifestFileView,
    bitmap: Seq<u8>,
    destination: Seq<char>,
    partial_root: Seq<char>,
    policy: ConflictPolicy,
    cancelled: bool,
) -> Result<(DownloadView, DownloadActionView), ErrorView> {
    if cancelled {
        Err(ErrorView::Cancelled)
    } else {
        match paths::relative_parts(file.relative_path) {
            Ok(list) => {
                let target = paths::safe_path(destination, list);
                Ok(
                    (
                        begun(
                            file,
                            bitmap,
                            policy,
                            target,
                            paths::path_push(partial_root, file.id + ".part"@),
                        ),
                        DownloadActionView::LookAtTarget(target),
                    ),
                )
            },
            Err(error) => Err(error),
        }
    }
}

/// The step that puts a file in its place.
pub open spec fn moving(state: DownloadView) -> (DownloadView, DownloadActionView) {
    (
        DownloadView { stage: Stage::Move, ..state },
        DownloadActionView::Move(
            state.goal,
            state.file.modified_ms as int / 1000,
            (state.file.modified_ms as int % 1000) * 1_000_000,
        ),
    )
}

/// The step after a file was found to be right.
pub open spec fn placing(state: DownloadView) -> (DownloadView, DownloadActionView) {
    (DownloadView { stage: Stage::Place, ..state }, DownloadActionView::LookAtGoal(state.goal))
}

/// The step after the chunks came in and were noted: a failure counts now;
/// without one the whole file is checked.
pub open spec fn chunks_done(state: DownloadView) -> (DownloadView, DownloadActionView) {
    match state.failure {
        Some(error) => (
            DownloadView { stage: Stage::Failed, failure: None, ..state },
            DownloadActionView::Fail(error),
        ),
        None => (
            DownloadView { stage: Stage::Verify, ..state },
            DownloadActionView::CheckWhole(state.partial),
        ),
    }
}

/// Whether some bit of a bitmap is set.
pub open spec fn some_marked(bitmap: Seq<u8>) -> bool {
    exists|i: int| 0 <= i < bitmap.len() && bitmap[i] != 0
}

/// What a download becomes with an event that it waits for, and what is to be
/// done then.
pub open spec fn download_step(state: DownloadView, event: DownloadEventView) -> (
    DownloadView,
    DownloadActionView,
) {
    match event {
        DownloadEventView::TargetSeen(exists, same) => if exists && (same || state.policy
            == ConflictPolicy::Skip) {
            (
                DownloadView { stage: Stage::Skipped, ..state },
                DownloadActionView::Finish(state.file.size),
            )
        } else if exists && state.policy == ConflictPolicy::KeepBoth {
            (
                DownloadView { stage: Stage::Name, ..state },
                DownloadActionView::FindName(state.target),
            )
        } else {
            (
                DownloadView { stage: Stage::Partial, ..state },
                DownloadActionView::LookAtPartial(state.partial),
            )
        },
        DownloadEventView::NameFound(path) => (
            DownloadView { stage: Stage::Partial, goal: path, ..state },
            DownloadActionView::LookAtPartial(state.partial),
        ),
        DownloadEventView::PartialSeen(len) => if len == Some(state.file.size) && some_marked(
            state.bitmap,
        ) {
            (
                DownloadView { stage: Stage::Check, ..state },
                DownloadActionView::CheckChunks(state.bitmap),
            )
        } else {
            (
                DownloadView {
                    stage: Stage::Make,
                    bitmap: Seq::new(state.bitmap.len(), |i: int| 0u8),
                    ..state
                },
                DownloadActionView::MakePartial(state.file.size),
            )
        },
        DownloadEventView::Checked(bitmap) => (
            DownloadView { stage: Stage::Make, bitmap, ..state },
            DownloadActionView::MakePartial(state.file.size),
        ),
        DownloadEventView::PartialMade => {
            let chunks = state.file.chunks;
            (
                DownloadView { stage: Stage::Fetch, ..state },
                DownloadActionView::Fetch(
                    tasks::missing_positions(chunks, state.bitmap, chunks.len()),
                    tasks::held_bytes(chunks, state.bitmap),
                ),
            )
        },
        DownloadEventView::Fetched(results) => {
            let heard = DownloadView { failure: results.first_error, ..state };
            if state.file.chunks.len() > 1 && results.completed.len() > 0 {
                (
                    DownloadView { stage: Stage::Note, ..heard },
                    DownloadActionView::NoteChunks(results.completed),
                )
            } else {
                chunks_done(heard)
            }
        },
        DownloadEventView::Noted => chunks_done(state),
        DownloadEventView::WholeChecked(ok) => if ok {
            placing(state)
        } else {
            (
                DownloadView { stage: Stage::Failed, ..state },
                DownloadActionView::Fail(
                    ErrorView::Protocol(state.file.relative_path + " 整文件校验失败"@),
                ),
            )
        },
        DownloadEventView::GoalSeen(exists) => if exists && state.policy
            == ConflictPolicy::Overwrite {
            (
                DownloadView { stage: Stage::Remove, ..state },
                DownloadActionView::RemoveOld(state.goal),
            )
        } else {
            moving(state)
        },
        DownloadEventView::OldRemoved => moving(state),
        DownloadEventView::Moved => (
            DownloadView { stage: Stage::Placed, ..state },
            DownloadActionView::Finish(0),
        ),
    }
}

impl FileDownload {
    /// Begins the download of a file. `bitmap` tells which chunks were marked
    /// in an earlier try.
    pub fn start(
        file: ManifestFile,
        bitmap: Vec<u8>,
        destination: &str,
        partial_root: &str,
        policy: ConflictPolicy,
        cancelled: bool,
    ) -> (started: Result<(FileDownload, DownloadAction), LanFlowError>)
        ensures
            cancelled ==> (started matches Err(e) && e@ == ErrorView::Cancelled),
            !cancelled ==> match paths::relative_parts(file@.relative_path) {
                Ok(list) => {
                    let target = paths::safe_path(destination@, list);
                    &&& started matches Ok((download, action))
                    &&& download@ == begun(
                        file@,
                        bitmap@,
                        policy,
                        target,
                        paths::path_push(partial_root@, file@.id + ".part"@),
                    )
                    &&& action@ == DownloadActionView::LookAtTarget(target)
                },
                Err(error) => started matches Err(e) && e@ == error,
            },
            match download_start(
                file@,
                bitmap@,
                destination@,
                partial_root@,
                policy,
                cancelled,
            ) {
                Ok((state, first)) => started matches Ok((download, action)) && download@ == state
                    && action@ == first,
                Err(error) => started matches Err(e) && e@ == error,
            },
    {
        if cancelled {
            return Err(LanFlowError::Cancelled);
        }
        let target = match paths::safe_destination_path(destination, file.relative_path.as_str()) {
            Ok(target) => target,
            Err(error) => {
                return Err(error);
            },
        };
        let partial = tasks::partial_path(partial_root, file.id.as_str());
        let goal = target.clone();
        let action = DownloadAction::LookAtTarget(target.clone());
        let download = FileDownload {
            file,
            policy,
            stage: Stage::Target,
            target,
            goal,
            partial,
            bitmap,
            failure: None,
        };
        Ok((download, action))
    }

    fn place(&mut self) -> (action: DownloadAction)
        ensures
            (final(self)@, action@) == placing(old(self)@),
    {
        self.stage = Stage::Place;
        DownloadAction::LookAtGoal(self.goal.clone())
    }

    fn move_there(&mut self) -> (action: DownloadAction)
        ensures
            (final(self)@, action@) == moving(old(self)@),
    {
        self.stage = Stage::Move;
        let (seconds, nanoseconds) = tasks::split_ms(self.file.modified_ms);
        DownloadAction::Move(self.goal.clone(), seconds, nanoseconds)
    }

    fn finish_chunks(&mut self) -> (action: DownloadAction)
        ensures
            (final(self)@, action@) == chunks_done(old(self)@),
    {
        let failure = self.failure.take();
        match failure {
            Some(error) => {
                self.stage = Stage::Failed;
                DownloadAction::Fail(error)
            },
            None => {
                self.stage = Stage::Verify;
                DownloadAction::CheckWhole(self.partial.clone())
            },
        }
    }

    fn make_partial(&mut self, bitmap: Vec<u8>) -> (action: DownloadAction)
        ensures
            final(self)@ == (DownloadView { stage: Stage::Make, bitmap: bitmap@, ..old(self)@ }),
            action@ == DownloadActionView::MakePartial(old(self)@.file.size),
    {
        self.stage = Stage::Make;
        self.bitmap = bitmap;
        DownloadAction::MakePartial(self.file.size)
    }

    /// Takes in an event that the download waits for, and tells what is to be
    /// done next.
    pub fn step(&mut self, event: DownloadEvent) -> (action: DownloadAction)
        requires
            awaited(old(self)@.stage, event@),
        ensures
            (final(self)@, action@) == download_step(old(self)@, event@),
    {
        match event {
            DownloadEvent::TargetSeen(exists, same) => {
                match tasks::choose_target(exists, same, self.policy) {
                    TargetChoice::Present => {
                        self.stage = Stage::Skipped;
                        DownloadAction::Finish(self.file.size)
                    },
                    TargetChoice::Skip => {
                        self.stage = Stage::Skipped;
                        DownloadAction::Finish(self.file.size)
                    },
                    TargetChoice::KeepBoth => {
                        self.stage = Stage::Name;
                        DownloadAction::FindName(self.target.clone())
                    },
                    TargetChoice::Write => {
                        self.stage = Stage::Partial;
                        DownloadAction::LookAtPartial(self.partial.clone())
                    },
                }
            },
            DownloadEvent::NameFound(path) => {
                self.stage = Stage::Partial;
                self.goal = path;
                DownloadAction::LookAtPartial(self.partial.clone())
            },
            DownloadEvent::PartialSeen(len) => {
                let kept = fields::copy_bytes(self.bitmap.as_slice());
                let (bitmap, check) = tasks::resume_bitmap(kept, len, self.file.size);
                if check {
                    self.stage = Stage::Check;
                    DownloadAction::CheckChunks(bitmap)
                } else {
                    self.make_partial(bitmap)
                }
            },
            DownloadEvent::Checked(bitmap) => self.make_partial(bitmap),
            DownloadEvent::PartialMade => {
                let (missing, present) = tasks::missing_chunks(
                    &self.file.chunks,
                    self.bitmap.as_slice(),
                );
                self.stage = Stage::Fetch;
                DownloadAction::Fetch(missing, present)
            },
            DownloadEvent::Fetched(results) => {
                let note = results.needs_checkpoint(self.file.chunks.len());
                self.failure = results.first_error;
                if note {
                    self.stage = Stage::Note;
                    DownloadAction::NoteChunks(results.completed)
                } else {
                    self.finish_chunks()
                }
            },
            DownloadEvent::Noted => self.finish_chunks(),
            DownloadEvent::WholeChecked(ok) => {
                if ok {
                    self.place()
                } else {
                    self.stage = Stage::Failed;
                    DownloadAction::Fail(tasks::whole_file_error(&self.file))
                }
            },
            DownloadEvent::GoalSeen(exists) => {
                if tasks::removes_old(exists, self.policy) {
                    self.stage = Stage::Remove;
                    DownloadAction::RemoveOld(self.goal.clone())
                } else {
                    self.move_there()
                }
            },
            DownloadEvent::OldRemoved => self.move_there(),
            DownloadEvent::Moved => {
                self.stage = Stage::Placed;
                DownloadAction::Finish(0)
            },
        }
    }
}

// ---------------------------------------------------------------------------
// Laws
// ---------------------------------------------------------------------------

/// What a download becomes with some events, one after the other.
pub open spec fn after(state: DownloadView, events: Seq<DownloadEventView>) -> DownloadView
    decreases events.len(),
{
    if events.len() == 0 {
        state
    } else {
        download_step(after(state, events.drop_last()), events.last()).0
    }
}

/// Whether each of some events is what the download waits for when it comes.
pub open spec fn all_awaited(state: DownloadView, events: Seq<DownloadEventView>) -> bool
    decreases events.len(),
{
    events.len() == 0 || (all_awaited(state, events.drop_last()) && awaited(
        after(state, events.drop_last()).stage,
        events.last(),
    ))
}

/// Whether some events show that the partial file is right: it was found to
/// have the right hash.
pub open spec fn shown_right(events: Seq<DownloadEventView>) -> bool {
    events.contains(DownloadEventView::WholeChecked(true))
}

/// Whether a stage comes after the file was found to be right.
pub open spec fn is_past_check(stage: Stage) -> bool {
    stage == Stage::Place || stage == Stage::Remove || stage == Stage::Move || stage
        == Stage::Placed
}

proof fn lemma_history(state: DownloadView, events: Seq<DownloadEventView>)
    requires
        state.stage == Stage::Target,
        all_awaited(state, events),
    ensures
        after(state, events).file == state.file,
        after(state, events).policy == state.policy,
        after(state, events).partial == state.partial,
        is_past_check(after(state, events).stage) ==> shown_right(events),
        after(state, events).stage == Stage::Remove ==> state.policy == ConflictPolicy::Overwrite,
    decreases events.len(),
{
    if events.len() > 0 {
        let before = events.drop_last();
        let event = events.last();
        lemma_history(state, before);
        assert forall|e: DownloadEventView| before.contains(e) implies events.contains(e) by {
            let i = before.index_of(e);
            assert(events[i] == e);
        }
        assert(events.contains(event)) by {
            assert(events[events.len() - 1] == event);
        }
    }
}

/// A file is moved to its place only after the whole of it was found to have
/// the right hash.
pub proof fn law_only_right_files_are_moved(
    state: DownloadView,
    events: Seq<DownloadEventView>,
    event: DownloadEventView,
)
    requires
        state.stage == Stage::Target,
        all_awaited(state, events.push(event)),
        download_step(after(state, events), event).1 is Move,
    ensures
        shown_right(events.push(event)),
{
    assert(events.push(event).drop_last() =~= events);
    lemma_history(state, events.push(event));
}

/// The file in the way is removed only where it is to be overwritten, and only
/// after the new file was found to be right.
pub proof fn law_old_file_stays_until_replaced(
    state: DownloadView,
    events: Seq<DownloadEventView>,
    event: DownloadEventView,
)
    requires
        state.stage == Stage::Target,
        all_awaited(state, events.push(event)),
        download_step(after(state, events), event).1 is RemoveOld,
    ensures
        state.policy == ConflictPolicy::Overwrite,
        shown_right(events.push(event)),
{
    assert(events.push(event).drop_last() =~= events);
    lemma_history(state, events.push(event));
}

/// A download ends well in two ways only: the file was moved to its place, or
/// a file was there that has the right hash or is not to be touched.
pub proof fn law_finished_files_are_there(
    state: DownloadView,
    events: Seq<DownloadEventView>,
    event: DownloadEventView,
)
    requires
        state.stage == Stage::Target,
        all_awaited(state, events.push(event)),
        download_step(after(state, events), event).1 is Finish,
    ensures
        event == DownloadEventView::Moved && shown_right(events.push(event)) || (event
            matches DownloadEventView::TargetSeen(exists, same) && exists && (same || state.policy
            == ConflictPolicy::Skip)),
{
    assert(events.push(event).drop_last() =~= events);
    lemma_history(state, events);
    lemma_history(state, events.push(event));
}

/// A download that begins looks first at the file's own place, which lies below
/// the destination under the stored names of the parts of its path. It works on
/// a partial file of its own, named by the identity of the file. Where it was
/// cancelled, or where the path leads elsewhere, it does not begin.
pub proof fn law_downloads_begin_below_their_destination(
    file: ManifestFileView,
    bitmap: Seq<u8>,
    destination: Seq<char>,
    partial_root: Seq<char>,
    policy: ConflictPolicy,
    cancelled: bool,
)
    ensures
        match download_start(file, bitmap, destination, partial_root, policy, cancelled) {
            Ok((state, action)) => {
                &&& !cancelled
                &&& paths::relative_parts(file.relative_path) == Ok::<Seq<Seq<char>>, ErrorView>(
                    paths::parts(file.relative_path),
                )
                &&& action == DownloadActionView::LookAtTarget(state.target)
                &&& paths::is_under(state.target, destination)
                &&& paths::parts(state.target) == paths::parts(destination) + paths::parts(
                    file.relative_path,
                ).map_values(|part: Seq<char>| paths::safe_name(part))
                &&& state.partial == paths::path_push(partial_root, file.id + ".part"@)
                &&& state == begun(file, bitmap, policy, state.target, state.partial)
            },
            Err(error) => {
                &&& cancelled || paths::relative_parts(file.relative_path) is Err
                &&& cancelled ==> error == ErrorView::Cancelled
            },
        },
{
    paths::law_safe_path_stays_below(destination, paths::parts(file.relative_path));
}

/// The path that events leave a file with: the name that was found, and the
/// file's own place where none was.
pub open spec fn settled_path(target: Seq<char>, events: Seq<DownloadEventView>) -> Seq<char>
    decreases events.len(),
{
    if events.len() == 0 {
        target
    } else {
        match events.last() {
            DownloadEventView::NameFound(path) => path,
            _ => settled_path(target, events.drop_last()),
        }
    }
}

/// Whether events tell that a file was in the place.
pub open spec fn met_a_file(events: Seq<DownloadEventView>) -> bool {
    exists|i: int|
        0 <= i < events.len() && (#[trigger] events[i] matches DownloadEventView::TargetSeen(
            exists,
            _,
        ) && exists)
}

/// Whether an event tells what came of an action.
pub open spec fn answers(action: DownloadActionView, event: DownloadEventView) -> bool {
    match action {
        DownloadActionView::LookAtTarget(_) => event is TargetSeen,
        DownloadActionView::FindName(_) => event is NameFound,
        DownloadActionView::LookAtPartial(_) => event is PartialSeen,
        DownloadActionView::CheckChunks(_) => event is Checked,
        DownloadActionView::MakePartial(_) => event is PartialMade,
        DownloadActionView::Fetch(_, _) => event is Fetched,
        DownloadActionView::NoteChunks(_) => event is Noted,
        DownloadActionView::CheckWhole(_) => event is WholeChecked,
        DownloadActionView::LookAtGoal(_) => event is GoalSeen,
        DownloadActionView::RemoveOld(_) => event is OldRemoved,
        DownloadActionView::Move(_, _, _) => event is Moved,
        DownloadActionView::Finish(_) => false,
        DownloadActionView::Fail(_) => false,
    }
}

proof fn lemma_paths(
    file: ManifestFileView,
    bitmap: Seq<u8>,
    policy: ConflictPolicy,
    target: Seq<char>,
    partial: Seq<char>,
    events: Seq<DownloadEventView>,
)
    requires
        all_awaited(begun(file, bitmap, policy, target, partial), events),
    ensures
        ({
            let state = after(begun(file, bitmap, policy, target, partial), events);
            &&& state.file == file
            &&& state.policy == policy
            &&& state.target == target
            &&& state.partial == partial
            &&& state.goal == settled_path(target, events)
            &&& state.stage == Stage::Target <==> events.len() == 0
            &&& state.stage == Stage::Target || state.stage == Stage::Name || state.stage
                == Stage::Partial ==> state.bitmap == bitmap
            &&& state.stage == Stage::Make ==> events.last() is Checked || events.last()
                is PartialSeen
            &&& state.stage == Stage::Make && events.last() is Checked ==> events.last()
                == DownloadEventView::Checked(state.bitmap)
            &&& state.stage == Stage::Make && events.last() is PartialSeen ==> forall|i: int|
                0 <= i < state.bitmap.len() ==> state.bitmap[i] == 0
            &&& policy == ConflictPolicy::KeepBoth && met_a_file(events) && state.stage
                != Stage::Name && state.stage != Stage::Skipped ==> events.contains(
                DownloadEventView::NameFound(settled_path(target, events)),
            )
        }),
    decreases events.len(),
{
    if events.len() > 0 {
        let before = events.drop_last();
        lemma_paths(file, bitmap, policy, target, partial, before);
        assert(events[events.len() - 1] == events.last());
        assert forall|e: DownloadEventView| before.contains(e) implies events.contains(e) by {
            assert(events[before.index_of(e)] == e);
        }
        if met_a_file(events) && !(events.last() is TargetSeen) {
            let i = choose|i: int|
                0 <= i < events.len() && (#[trigger] events[i]
                    matches DownloadEventView::TargetSeen(exists, _) && exists);
            assert(before[i] == events[i]);
        }
        if events.last() is TargetSeen && !events.last()->TargetSeen_0 {
            assert(!met_a_file(events)) by {
                assert(before.len() == 0);
            }
        }
    }
}

/// A file is moved to the path that was looked at just before: the one that a
/// name was found for, and the file's own place where none had to be. The old
/// file that is removed is the one at that path, a name is looked for beside
/// the file's own place, and all work goes on in the one partial file.
pub proof fn law_files_go_where_was_looked(
    file: ManifestFileView,
    bitmap: Seq<u8>,
    policy: ConflictPolicy,
    target: Seq<char>,
    partial: Seq<char>,
    events: Seq<DownloadEventView>,
    event: DownloadEventView,
)
    requires
        all_awaited(begun(file, bitmap, policy, target, partial), events.push(event)),
    ensures
        match download_step(after(begun(file, bitmap, policy, target, partial), events), event).1 {
            DownloadActionView::LookAtTarget(path) => path == target,
            DownloadActionView::FindName(path) => path == target,
            DownloadActionView::LookAtPartial(path) => path == partial,
            DownloadActionView::MakePartial(size) => size == file.size,
            DownloadActionView::CheckWhole(path) => path == partial,
            DownloadActionView::LookAtGoal(path) => path == settled_path(target, events),
            DownloadActionView::RemoveOld(path) => path == settled_path(target, events),
            DownloadActionView::Move(path, _, _) => path == settled_path(target, events),
            _ => true,
        },
{
    assert(events.push(event).drop_last() =~= events);
    lemma_paths(file, bitmap, policy, target, partial, events);
}

/// Where both files are to be kept and one is in the place, the other is moved
/// to a name that was found for it, and none is removed.
pub proof fn law_both_files_are_kept(
    file: ManifestFileView,
    bitmap: Seq<u8>,
    target: Seq<char>,
    partial: Seq<char>,
    events: Seq<DownloadEventView>,
    event: DownloadEventView,
)
    requires
        all_awaited(
            begun(file, bitmap, ConflictPolicy::KeepBoth, target, partial),
            events.push(event),
        ),
        met_a_file(events),
    ensures
        match download_step(
            after(begun(file, bitmap, ConflictPolicy::KeepBoth, target, partial), events),
            event,
        ).1 {
            DownloadActionView::Move(path, _, _) => events.contains(
                DownloadEventView::NameFound(path),
            ),
            DownloadActionView::RemoveOld(_) => false,
            _ => true,
        },
{
    assert(events.push(event).drop_last() =~= events);
    lemma_paths(file, bitmap, ConflictPolicy::KeepBoth, target, partial, events);
}

/// The time that a file is given where it is put is the one that it has in the
/// manifest, to the millisecond.
pub proof fn law_files_keep_their_time(
    state: DownloadView,
    events: Seq<DownloadEventView>,
    event: DownloadEventView,
)
    requires
        state.stage == Stage::Target,
        all_awaited(state, events.push(event)),
    ensures
        download_step(after(state, events), event).1 matches DownloadActionView::Move(
            _,
            seconds,
            nanoseconds,
        ) ==> 0 <= nanoseconds < 1_000_000_000 && seconds * 1_000_000_000 + nanoseconds
            == state.file.modified_ms * 1_000_000,
{
    assert(events.push(event).drop_last() =~= events);
    lemma_history(state, events);
}

/// What is in the place decides first: a file with the right hash is left as
/// it is and counts as done, any other one where it is not to be touched, and
/// without one, or where it is to be replaced, the download goes on.
pub proof fn law_what_is_there_decides(
    file: ManifestFileView,
    bitmap: Seq<u8>,
    policy: ConflictPolicy,
    target: Seq<char>,
    partial: Seq<char>,
    exists: bool,
    same: bool,
)
    ensures
        ({
            let action = download_step(
                begun(file, bitmap, policy, target, partial),
                DownloadEventView::TargetSeen(exists, same),
            ).1;
            &&& !exists ==> action == DownloadActionView::LookAtPartial(partial)
            &&& exists && same ==> action == DownloadActionView::Finish(file.size)
            &&& exists && !same && policy == ConflictPolicy::Skip ==> action
                == DownloadActionView::Finish(file.size)
            &&& exists && !same && policy == ConflictPolicy::Overwrite ==> action
                == DownloadActionView::LookAtPartial(partial)
            &&& exists && !same && policy == ConflictPolicy::KeepBoth ==> action
                == DownloadActionView::FindName(target)
        }),
{
}

/// An event is waited for exactly when it tells what came of the last action,
/// so that a download that goes on never gets stuck.
pub proof fn law_each_action_is_answered(
    state: DownloadView,
    events: Seq<DownloadEventView>,
    event: DownloadEventView,
    next: DownloadEventView,
)
    requires
        all_awaited(state, events.push(event)),
    ensures
        all_awaited(state, events.push(event).push(next)) <==> answers(
            download_step(after(state, events), event).1,
            next,
        ),
{
    assert(events.push(event).drop_last() =~= events);
    assert(events.push(event).push(next).drop_last() =~= events.push(event));
}

/// Marks of an earlier try count only where the partial file is there in full
/// length, and only as far as the check leaves them: exactly the chunks
/// without such a mark are fetched, each once and in their order, and with the
/// bytes that are there already they make up the file.
pub proof fn law_missing_chunks_are_fetched(
    file: ManifestFileView,
    bitmap: Seq<u8>,
    policy: ConflictPolicy,
    target: Seq<char>,
    partial: Seq<char>,
    events: Seq<DownloadEventView>,
)
    requires
        all_awaited(
            begun(file, bitmap, policy, target, partial),
            events.push(DownloadEventView::PartialMade),
        ),
    ensures
        download_step(
            after(begun(file, bitmap, policy, target, partial), events),
            DownloadEventView::PartialMade,
        ).1 matches DownloadActionView::Fetch(list, bytes) && {
            &&& events.last() is Checked || events.last() is PartialSeen
            &&& forall|k: int|
                #[trigger] list.contains(k) <==> 0 <= k < file.chunks.len() && !(events.last()
                    matches DownloadEventView::Checked(checked) && tasks::bit(
                    checked,
                    file.chunks[k].index as nat,
                ))
            &&& forall|i: int, j: int| 0 <= i < j < list.len() ==> list[i] < list[j]
            &&& snapshot::tiles(file.chunks, file.size as nat) ==> bytes + tasks::lengths_at(
                file.chunks,
                list,
            ) == file.size
        },
{
    let start = begun(file, bitmap, policy, target, partial);
    let state = after(start, events);
    let n = file.chunks.len();
    assert(events.push(DownloadEventView::PartialMade).drop_last() =~= events);
    lemma_paths(file, bitmap, policy, target, partial, events);
    let list = tasks::missing_positions(file.chunks, state.bitmap, n);
    tasks::lemma_missing_in_order(file.chunks, state.bitmap, n);
    assert forall|k: int|
        #[trigger] list.contains(k) <==> 0 <= k < n && !(events.last()
            matches DownloadEventView::Checked(checked) && tasks::bit(
            checked,
            file.chunks[k].index as nat,
        )) by {
        if list.contains(k) {
            assert(0 <= list[list.index_of(k)] < n);
        }
        if 0 <= k < n {
            tasks::law_unmarked_chunks_are_fetched(file.chunks, state.bitmap, k);
            if events.last() is PartialSeen {
                tasks::lemma_blank(state.bitmap, file.chunks[k].index as nat);
            }
        }
    }
    if snapshot::tiles(file.chunks, file.size as nat) {
        tasks::law_file_bytes_add_up(file, state.bitmap);
    }
}

/// The marked chunks are checked where there are any and the partial file has
/// the length of the file; else the file is fetched from the start.
pub proof fn law_partial_file_decides(
    file: ManifestFileView,
    bitmap: Seq<u8>,
    policy: ConflictPolicy,
    target: Seq<char>,
    partial: Seq<char>,
    events: Seq<DownloadEventView>,
    len: Option<u64>,
)
    requires
        all_awaited(
            begun(file, bitmap, policy, target, partial),
            events.push(DownloadEventView::PartialSeen(len)),
        ),
    ensures
        download_step(
            after(begun(file, bitmap, policy, target, partial), events),
            DownloadEventView::PartialSeen(len),
        ).1 == if len == Some(file.size) && exists|j: nat| tasks::bit(bitmap, j) {
            DownloadActionView::CheckChunks(bitmap)
        } else {
            DownloadActionView::MakePartial(file.size)
        },
{
    assert(events.push(DownloadEventView::PartialSeen(len)).drop_last() =~= events);
    lemma_paths(file, bitmap, policy, target, partial, events);
    if exists|j: nat| tasks::bit(bitmap, j) {
        let j = choose|j: nat| tasks::bit(bitmap, j);
        if !some_marked(bitmap) {
            tasks::lemma_blank(bitmap, j);
        }
    } else if some_marked(bitmap) {
        let i = choose|i: int| 0 <= i < bitmap.len() && bitmap[i] != 0;
        tasks::lemma_bit_of_byte(bitmap, i);
    }
}

/// Chunks that came in are noted for a later try before anything else happens,
/// also where others failed; the first failure is what the download fails
/// with, and without one the whole file is checked.
pub proof fn law_chunks_are_noted_before_failing(state: DownloadView, results: ChunkResultsView)
    ensures
        ({
            let (heard, action) = download_step(state, DownloadEventView::Fetched(results));
            let outcome = match results.first_error {
                Some(error) => DownloadActionView::Fail(error),
                None => DownloadActionView::CheckWhole(state.partial),
            };
            if results.completed.len() > 0 && state.file.chunks.len() > 1 {
                &&& action == DownloadActionView::NoteChunks(results.completed)
                &&& download_step(heard, DownloadEventView::Noted).1 == outcome
            } else {
                action == outcome
            }
        }),
{
}

/// A file with a wrong hash is never put in place, and one with the right hash
/// is; what is in its way is removed first where it is to be replaced. Once it
/// is moved nothing more is counted for it: its bytes were when they came in.
pub proof fn law_right_files_are_placed(state: DownloadView, ok: bool, exists: bool)
    ensures
        ({
            let (checked, action) = download_step(state, DownloadEventView::WholeChecked(ok));
            let (seen, after_seen) = download_step(checked, DownloadEventView::GoalSeen(exists));
            &&& action is LookAtGoal <==> ok
            &&& action is Fail <==> !ok
            &&& ok ==> (after_seen is RemoveOld <==> exists && state.policy
                == ConflictPolicy::Overwrite)
            &&& ok && !(after_seen is RemoveOld) ==> after_seen is Move
            &&& ok && after_seen is RemoveOld ==> download_step(
                seen,
                DownloadEventView::OldRemoved,
            ).1 is Move
            &&& !ok ==> action == DownloadActionView::Fail(
                ErrorView::Protocol(state.file.relative_path + " 整文件校验失败"@),
            )
            &&& download_step(state, DownloadEventView::Moved).1 == DownloadActionView::Finish(0)
        }),
{
}

/// A partial file after chunks of a source file came in, one after the other;
/// `order` are their positions.
pub open spec fn with_chunks(
    partial: Seq<u8>,
    source: Seq<u8>,
    chunks: Seq<ChunkHashView>,
    order: Seq<int>,
) -> Seq<u8>
    decreases order.len(),
{
    if order.len() == 0 {
        partial
    } else {
        let chunk = chunks[order.last()];
        client::overwritten(
            with_chunks(partial, source, chunks, order.drop_last()),
            chunk.offset as nat,
            source.subrange(chunk.offset as int, chunk.offset + chunk.length),
        )
    }
}

/// Each byte of a file is in one chunk.
proof fn lemma_place(source: Seq<u8>, chunks: Seq<ChunkHashView>, size: nat, p: int, j: int)
    requires
        snapshot::are_chunks_of(chunks, source, size),
        0 < size <= u32::MAX,
        source.len() <= u64::MAX,
        0 <= p < source.len(),
        0 <= j < chunks.len(),
    ensures
        0 <= p / (size as int) < chunks.len(),
        chunks[j].offset + chunks[j].length <= source.len(),
        chunks[j].offset <= p < chunks[j].offset + chunks[j].length <==> j == p / (size as int),
{
    let i = p / (size as int);
    let n = chunks.len() as int;
    let len = source.len() as int;
    let d = size as int;
    lemma_fundamental_div_mod(p, d);
    assert(d * i == i * d) by (nonlinear_arith);
    assert(i < n) by (nonlinear_arith)
        requires
            i * d <= p < len <= n * d,
            d > 0,
    ;
    assert(0 <= i) by (nonlinear_arith)
        requires
            0 <= p < i * d + d,
            d > 0,
    ;
    assert(0 <= j * d <= (n - 1) * d) by (nonlinear_arith)
        requires
            0 <= j <= n - 1,
            d > 0,
    ;
    assert((j + 1) * d == j * d + d) by (nonlinear_arith);
    assert(chunks[j] == snapshot::chunk_at(source, size, j as nat));
    if j * d <= p < j * d + d {
        lemma_fundamental_div_mod_converse(p, d, j, p - j * d);
    }
}

proof fn lemma_with_chunks(
    partial: Seq<u8>,
    source: Seq<u8>,
    chunks: Seq<ChunkHashView>,
    size: nat,
    order: Seq<int>,
    p: int,
)
    requires
        snapshot::are_chunks_of(chunks, source, size),
        0 < size <= u32::MAX,
        source.len() <= u64::MAX,
        partial.len() == source.len(),
        forall|k: int| 0 <= k < order.len() ==> 0 <= #[trigger] order[k] < chunks.len(),
        0 <= p < source.len(),
    ensures
        with_chunks(partial, source, chunks, order).len() == source.len(),
        with_chunks(partial, source, chunks, order)[p] == if order.contains(p / (size as int)) {
            source[p]
        } else {
            partial[p]
        },
    decreases order.len(),
{
    if order.len() > 0 {
        let before = order.drop_last();
        lemma_with_chunks(partial, source, chunks, size, before, p);
        lemma_place(source, chunks, size, p, order.last());
        let i = p / (size as int);
        if before.contains(i) {
            assert(order[before.index_of(i)] == i);
        }
        if order.contains(i) && i != order.last() {
            assert(before[order.index_of(i)] == i);
        }
    }
}

/// What a download puts in place is what was shared: a partial file of the
/// source's length in which every chunk came in, in any order, or was intact
/// before, holds what the source holds.
pub proof fn law_download_gives_the_source(
    partial: Seq<u8>,
    source: Seq<u8>,
    chunks: Seq<ChunkHashView>,
    chunk_size: nat,
    order: Seq<int>,
)
    requires
        snapshot::are_chunks_of(chunks, source, chunk_size),
        0 < chunk_size <= u32::MAX,
        source.len() <= u64::MAX,
        partial.len() == source.len(),
        forall|k: int| 0 <= k < order.len() ==> 0 <= #[trigger] order[k] < chunks.len(),
        forall|i: int|
            0 <= i < chunks.len() && !order.contains(i) ==> tasks::chunk_contents(
                partial,
                #[trigger] chunks[i],
            ) == tasks::chunk_contents(source, chunks[i]),
    ensures
        with_chunks(partial, source, chunks, order) == source,
{
    let result = with_chunks(partial, source, chunks, order);
    if source.len() > 0 {
        lemma_with_chunks(partial, source, chunks, chunk_size, order, 0);
    } else if order.len() > 0 {
        lemma_no_chunks(source, chunks, chunk_size);
        assert(0 <= order[0] < chunks.len());
    }
    assert forall|p: int| 0 <= p < source.len() implies #[trigger] result[p] == source[p] by {
        lemma_with_chunks(partial, source, chunks, chunk_size, order, p);
        let i = p / (chunk_size as int);
        lemma_place(source, chunks, chunk_size, p, 0);
        lemma_place(source, chunks, chunk_size, p, i);
        if !order.contains(i) {
            let chunk = chunks[i];
            let start = chunk.offset as int;
            assert(partial.subrange(start, start + chunk.length)[p - start] == source.subrange(
                start,
                start + chunk.length,
            )[p - start]);
        }
    }
    assert(result =~= source);
}

/// An empty file has no chunks.
proof fn lemma_no_chunks(source: Seq<u8>, chunks: Seq<ChunkHashView>, size: nat)
    requires
        snapshot::are_chunks_of(chunks, source, size),
        source.len() == 0,
    ensures
        chunks.len() == 0,
{
    if chunks.len() > 0 {
        let n = chunks.len() as int;
        assert(0 <= (n - 1) * size) by (nonlinear_arith)
            requires
                n >= 1,
                size >= 0,
        ;
    }
}

} // verus!
