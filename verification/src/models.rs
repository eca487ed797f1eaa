//! The values that the library hands to its surroundings and takes from them.

use vstd::prelude::*;

use crate::fields;
use crate::text;

verus! {

/// A directory that is shared.
#[derive(Debug)]
pub struct ShareDto {
    pub id: String,
    pub name: String,
    pub path: String,
    pub enabled: bool,
    pub created_at: i64,
}

/// The model of a [`ShareDto`].
#[verifier::ext_equal]
pub struct ShareDtoView {
    pub id: Seq<char>,
    pub name: Seq<char>,
    pub path: Seq<char>,
    pub enabled: bool,
    pub created_at: i64,
}

impl View for ShareDto {
    type V = ShareDtoView;

    open spec fn view(&self) -> ShareDtoView {
        ShareDtoView {
            id: self.id@,
            name: self.name@,
            path: self.path@,
            enabled: self.enabled,
            created_at: self.created_at,
        }
    }
}

impl Clone for ShareDto {
    fn clone(&self) -> (copy: ShareDto)
        ensures
            copy@ == self@,
    {
        let copy = ShareDto {
            id: self.id.clone(),
            name: self.name.clone(),
            path: self.path.clone(),
            enabled: self.enabled,
            created_at: self.created_at,
        };
        assert(copy@ =~= self@);
        copy
    }
}
/// Another device.
#[derive(Debug)]
pub struct PeerDto {
    pub id: String,
    pub name: String,
    pub address: String,
    pub port: u16,
    pub online: bool,
    pub manual: bool,
    pub protocol_major: u16,
    pub protocol_minor: u16,
    pub last_seen: i64,
}

/// The model of a [`PeerDto`].
#[verifier::ext_equal]
pub struct PeerDtoView {
    pub id: Seq<char>,
    pub name: Seq<char>,
    pub address: Seq<char>,
    pub port: u16,
    pub online: bool,
    pub manual: bool,
    pub protocol_major: u16,
    pub protocol_minor: u16,
    pub last_seen: i64,
}

impl View for PeerDto {
    type V = PeerDtoView;

    open spec fn view(&self) -> PeerDtoView {
        PeerDtoView {
            id: self.id@,
            name: self.name@,
            address: self.address@,
            port: self.port,
            online: self.online,
            manual: self.manual,
            protocol_major: self.protocol_major,
            protocol_minor: self.protocol_minor,
            last_seen: self.last_seen,
        }
    }
}

impl Clone for PeerDto {
    fn clone(&self) -> (copy: PeerDto)
        ensures
            copy@ == self@,
    {
        let copy = PeerDto {
            id: self.id.clone(),
            name: self.name.clone(),
            address: self.address.clone(),
            port: self.port,
            online: self.online,
            manual: self.manual,
            protocol_major: self.protocol_major,
            protocol_minor: self.protocol_minor,
            last_seen: self.last_seen,
        };
        assert(copy@ =~= self@);
        copy
    }
}
/// A share of another device.
#[derive(Debug)]
pub struct RemoteShareDto {
    pub id: String,
    pub name: String,
    pub enabled: bool,
}

/// The model of a [`RemoteShareDto`].
#[verifier::ext_equal]
pub struct RemoteShareDtoView {
    pub id: Seq<char>,
    pub name: Seq<char>,
    pub enabled: bool,
}

impl View for RemoteShareDto {
    type V = RemoteShareDtoView;

    open spec fn view(&self) -> RemoteShareDtoView {
        RemoteShareDtoView {
            id: self.id@,
            name: self.name@,
            enabled: self.enabled,
        }
    }
}

impl Clone for RemoteShareDto {
    fn clone(&self) -> (copy: RemoteShareDto)
        ensures
            copy@ == self@,
    {
        let copy = RemoteShareDto {
            id: self.id.clone(),
            name: self.name.clone(),
            enabled: self.enabled,
        };
        assert(copy@ =~= self@);
        copy
    }
}
/// An entry of a share of another device.
#[derive(Debug)]
pub struct RemoteEntryDto {
    pub id: String,
    pub name: String,
    pub relative_path: String,
    pub is_dir: bool,
    pub size: u64,
    pub modified_ms: i64,
}

/// The model of a [`RemoteEntryDto`].
#[verifier::ext_equal]
pub struct RemoteEntryDtoView {
    pub id: Seq<char>,
    pub name: Seq<char>,
    pub relative_path: Seq<char>,
    pub is_dir: bool,
    pub size: u64,
    pub modified_ms: i64,
}

impl View for RemoteEntryDto {
    type V = RemoteEntryDtoView;

    open spec fn view(&self) -> RemoteEntryDtoView {
        RemoteEntryDtoView {
            id: self.id@,
            name: self.name@,
            relative_path: self.relative_path@,
            is_dir: self.is_dir,
            size: self.size,
            modified_ms: self.modified_ms,
        }
    }
}

impl Clone for RemoteEntryDto {
    fn clone(&self) -> (copy: RemoteEntryDto)
        ensures
            copy@ == self@,
    {
        let copy = RemoteEntryDto {
            id: self.id.clone(),
            name: self.name.clone(),
            relative_path: self.relative_path.clone(),
            is_dir: self.is_dir,
            size: self.size,
            modified_ms: self.modified_ms,
        };
        assert(copy@ =~= self@);
        copy
    }
}
/// What happens to a file that is in the way of a download.
#[derive(Clone, Copy, Debug, PartialEq, Eq, Structural)]
pub enum ConflictPolicy {
    KeepBoth,
    Overwrite,
    Skip,
}

impl ConflictPolicy {
    /// The name of a policy.
    pub open spec fn name(self) -> Seq<char> {
        match self {
            ConflictPolicy::KeepBoth => "keep_both"@,
            ConflictPolicy::Overwrite => "overwrite"@,
            ConflictPolicy::Skip => "skip"@,
        }
    }

    pub fn as_str(&self) -> (name: &'static str)
        ensures
            name@ == self.name(),
    {
        match self {
            ConflictPolicy::KeepBoth => "keep_both",
            ConflictPolicy::Overwrite => "overwrite",
            ConflictPolicy::Skip => "skip",
        }
    }

    /// The policy with a name. Under a name that is none, both files are kept.
    pub open spec fn named(name: Seq<char>) -> ConflictPolicy {
        if name == "overwrite"@ {
            ConflictPolicy::Overwrite
        } else if name == "skip"@ {
            ConflictPolicy::Skip
        } else {
            ConflictPolicy::KeepBoth
        }
    }

    /// The policy with a name.
    pub fn from_name(name: &str) -> (policy: ConflictPolicy)
        ensures
            policy == ConflictPolicy::named(name@),
    {
        if text::same_text(name, "overwrite") {
            ConflictPolicy::Overwrite
        } else if text::same_text(name, "skip") {
            ConflictPolicy::Skip
        } else {
            ConflictPolicy::KeepBoth
        }
    }
}

/// A policy is found again under its name.
pub proof fn law_policy_names(policy: ConflictPolicy)
    ensures
        ConflictPolicy::named(policy.name()) == policy,
{
    reveal_strlit("keep_both");
    reveal_strlit("overwrite");
    reveal_strlit("skip");
    assert("keep_both"@.len() == 9 && "overwrite"@.len() == 9 && "skip"@.len() == 4);
    assert("keep_both"@[0] == 'k' && "overwrite"@[0] == 'o');
}

/// A name that is none of a policy stands for the policy under which no file is
/// lost.
pub proof fn law_unknown_policies_keep_both(name: Seq<char>)
    requires
        name != "overwrite"@,
        name != "skip"@,
    ensures
        ConflictPolicy::named(name) == ConflictPolicy::KeepBoth,
{
}

/// What a download is to fetch.
#[derive(Debug)]
pub struct CreateTaskInput {
    pub peer_id: String,
    pub share_id: String,
    pub remote_paths: Vec<String>,
    pub destination: String,
    pub conflict_policy: ConflictPolicy,
}

/// The model of a [`CreateTaskInput`].
#[verifier::ext_equal]
pub struct CreateTaskInputView {
    pub peer_id: Seq<char>,
    pub share_id: Seq<char>,
    pub remote_paths: Seq<Seq<char>>,
    pub destination: Seq<char>,
    pub conflict_policy: ConflictPolicy,
}

impl View for CreateTaskInput {
    type V = CreateTaskInputView;

    open spec fn view(&self) -> CreateTaskInputView {
        CreateTaskInputView {
            peer_id: self.peer_id@,
            share_id: self.share_id@,
            remote_paths: fields::views(self.remote_paths@),
            destination: self.destination@,
            conflict_policy: self.conflict_policy,
        }
    }
}

impl Clone for CreateTaskInput {
    fn clone(&self) -> (copy: CreateTaskInput)
        ensures
            copy@ == self@,
    {
        let copy = CreateTaskInput {
            peer_id: self.peer_id.clone(),
            share_id: self.share_id.clone(),
            remote_paths: fields::copy_texts(&self.remote_paths),
            destination: self.destination.clone(),
            conflict_policy: self.conflict_policy,
        };
        assert(copy@ =~= self@);
        copy
    }
}
/// A download.
#[derive(Debug)]
pub struct TaskDto {
    pub id: String,
    pub peer_id: String,
    pub peer_name: String,
    pub share_id: String,
    pub destination: String,
    pub status: String,
    pub total_bytes: u64,
    pub completed_bytes: u64,
    pub speed_bps: u64,
    pub file_count: u64,
    pub completed_files: u64,
    pub error: Option<String>,
    pub created_at: i64,
    pub updated_at: i64,
}

/// The model of a [`TaskDto`].
#[verifier::ext_equal]
pub struct TaskDtoView {
    pub id: Seq<char>,
    pub peer_id: Seq<char>,
    pub peer_name: Seq<char>,
    pub share_id: Seq<char>,
    pub destination: Seq<char>,
    pub status: Seq<char>,
    pub total_bytes: u64,
    pub completed_bytes: u64,
    pub speed_bps: u64,
    pub file_count: u64,
    pub completed_files: u64,
    pub error: Option<Seq<char>>,
    pub created_at: i64,
    pub updated_at: i64,
}

impl View for TaskDto {
    type V = TaskDtoView;

    open spec fn view(&self) -> TaskDtoView {
        TaskDtoView {
            id: self.id@,
            peer_id: self.peer_id@,
            peer_name: self.peer_name@,
            share_id: self.share_id@,
            destination: self.destination@,
            status: self.status@,
            total_bytes: self.total_bytes,
            completed_bytes: self.completed_bytes,
            speed_bps: self.speed_bps,
            file_count: self.file_count,
            completed_files: self.completed_files,
            error: text::optional(self.error),
            created_at: self.created_at,
            updated_at: self.updated_at,
        }
    }
}

impl Clone for TaskDto {
    fn clone(&self) -> (copy: TaskDto)
        ensures
            copy@ == self@,
    {
        let copy = TaskDto {
            id: self.id.clone(),
            peer_id: self.peer_id.clone(),
            peer_name: self.peer_name.clone(),
            share_id: self.share_id.clone(),
            destination: self.destination.clone(),
            status: self.status.clone(),
            total_bytes: self.total_bytes,
            completed_bytes: self.completed_bytes,
            speed_bps: self.speed_bps,
            file_count: self.file_count,
            completed_files: self.completed_files,
            error: text::copy_optional(&self.error),
            created_at: self.created_at,
            updated_at: self.updated_at,
        };
        assert(copy@ =~= self@);
        copy
    }
}
/// What a user can set.
#[derive(Clone, Copy, Debug, PartialEq, Eq, Structural)]
pub struct PerformanceSettings {
    pub automatic: bool,
    pub data_connections: u8,
    pub streams_per_connection: u8,
    pub chunk_size_mib: u32,
    /// Zero selects an automatic value based on available parallelism.
    pub hash_workers: u8,
    pub bandwidth_limit_mbps: u32,
    pub listen_port: u16,
    pub autostart: bool,
}

/// The settings of a new installation.
pub open spec fn default_settings() -> PerformanceSettings {
    PerformanceSettings {
        automatic: true,
        data_connections: 2,
        streams_per_connection: 4,
        chunk_size_mib: 8,
        hash_workers: 0,
        bandwidth_limit_mbps: 0,
        listen_port: 47_932,
        autostart: false,
    }
}

impl Default for PerformanceSettings {
    fn default() -> (settings: PerformanceSettings)
        ensures
            settings == default_settings(),
    {
        PerformanceSettings {
            automatic: true,
            data_connections: 2,
            streams_per_connection: 4,
            chunk_size_mib: 8,
            hash_workers: 0,
            bandwidth_limit_mbps: 0,
            listen_port: 47_932,
            autostart: false,
        }
    }
}

/// Everything that the first screen shows.
#[derive(Debug)]
pub struct AppOverview {
    pub device_id: String,
    pub device_name: String,
    pub listen_port: u16,
    pub server_running: bool,
    pub shares: Vec<ShareDto>,
    pub peers: Vec<PeerDto>,
    pub tasks: Vec<TaskDto>,
    pub settings: PerformanceSettings,
}

/// The model of a [`AppOverview`].
#[verifier::ext_equal]
pub struct AppOverviewView {
    pub device_id: Seq<char>,
    pub device_name: Seq<char>,
    pub listen_port: u16,
    pub server_running: bool,
    pub shares: Seq<ShareDtoView>,
    pub peers: Seq<PeerDtoView>,
    pub tasks: Seq<TaskDtoView>,
    pub settings: PerformanceSettings,
}

impl View for AppOverview {
    type V = AppOverviewView;

    open spec fn view(&self) -> AppOverviewView {
        AppOverviewView {
            device_id: self.device_id@,
            device_name: self.device_name@,
            listen_port: self.listen_port,
            server_running: self.server_running,
            shares: fields::views(self.shares@),
            peers: fields::views(self.peers@),
            tasks: fields::views(self.tasks@),
            settings: self.settings,
        }
    }
}
/// How far a download has come.
#[derive(Debug)]
pub struct TaskProgressEvent {
    pub task_id: String,
    pub status: String,
    pub completed_bytes: u64,
    pub total_bytes: u64,
    pub speed_bps: u64,
    pub completed_files: u64,
    pub file_count: u64,
    pub current_file: String,
}

/// The model of a [`TaskProgressEvent`].
#[verifier::ext_equal]
pub struct TaskProgressEventView {
    pub task_id: Seq<char>,
    pub status: Seq<char>,
    pub completed_bytes: u64,
    pub total_bytes: u64,
    pub speed_bps: u64,
    pub completed_files: u64,
    pub file_count: u64,
    pub current_file: Seq<char>,
}

impl View for TaskProgressEvent {
    type V = TaskProgressEventView;

    open spec fn view(&self) -> TaskProgressEventView {
        TaskProgressEventView {
            task_id: self.task_id@,
            status: self.status@,
            completed_bytes: self.completed_bytes,
            total_bytes: self.total_bytes,
            speed_bps: self.speed_bps,
            completed_files: self.completed_files,
            file_count: self.file_count,
            current_file: self.current_file@,
        }
    }
}

impl Clone for TaskProgressEvent {
    fn clone(&self) -> (copy: TaskProgressEvent)
        ensures
            copy@ == self@,
    {
        let copy = TaskProgressEvent {
            task_id: self.task_id.clone(),
            status: self.status.clone(),
            completed_bytes: self.completed_bytes,
            total_bytes: self.total_bytes,
            speed_bps: self.speed_bps,
            completed_files: self.completed_files,
            file_count: self.file_count,
            current_file: self.current_file.clone(),
        };
        assert(copy@ =~= self@);
        copy
    }
}
} // verus!
