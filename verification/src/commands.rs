//! What a user can do: the checks on what was entered, and the values that
//! are made of it.

use vstd::prelude::*;
use vstd::utf8;

use crate::auth;
use crate::auth::LanFlowServerSetup;
use crate::discovery::now_ms;
use crate::error::{ErrorView, LanFlowError};
use crate::fields;
use crate::models::{
    AppOverview,
    AppOverviewView,
    ConflictPolicy,
    CreateTaskInput,
    PeerDto,
    PeerDtoView,
    PerformanceSettings,
    ShareDto,
    ShareDtoView,
    TaskDto,
    TaskDtoView,
    TaskProgressEvent,
    TaskProgressEventView,
};
use crate::outside::json;
use crate::outside::machine;
use crate::outside::opaque;
use crate::outside::strings::string_from_utf8;
use crate::snapshot;
use crate::text;
use crate::wire::snapshot::SnapshotProgress;

verus! {

// ---------------------------------------------------------------------------
// Shares
// ---------------------------------------------------------------------------

/// Refuses a share without a name or without a password.
pub fn check_new_share(name: &str, password: &str) -> (checked: Result<(), LanFlowError>)
    ensures
        text::trimmed(name@).len() == 0 || password@.len() == 0 ==> (checked matches Err(e)
            && e@ == ErrorView::InvalidInput("分享名称和密码不能为空"@)),
        text::trimmed(name@).len() > 0 && password@.len() > 0 ==> checked is Ok,
{
    let inner = text::trim(name);
    proof {
        text::lemma_empty_text(inner@);
        text::lemma_empty_text(password@);
    }
    if inner.as_str().as_bytes().len() == 0 || password.as_bytes().len() == 0 {
        return Err(LanFlowError::InvalidInput("分享名称和密码不能为空".to_owned()));
    }
    Ok(())
}

/// Refuses to share what is no directory.
pub fn check_share_directory(is_dir: bool) -> (checked: Result<(), LanFlowError>)
    ensures
        is_dir ==> checked is Ok,
        !is_dir ==> (checked matches Err(e) && e@ == ErrorView::InvalidInput(
            "分享路径不是目录"@,
        )),
{
    if !is_dir {
        return Err(LanFlowError::InvalidInput("分享路径不是目录".to_owned()));
    }
    Ok(())
}

/// A new share with a given identity and time.
pub open spec fn fresh_share(id: Seq<char>, name: Seq<char>, path: Seq<char>, now: i64) -> ShareDtoView {
    ShareDtoView { id, name: text::trimmed(name), path, enabled: true, created_at: now }
}

/// A new share with a given identity and time.
pub fn share_with(id: String, name: &str, path: String, now: i64) -> (share: ShareDto)
    ensures
        share@ == fresh_share(id@, name@, path@, now),
{
    ShareDto { id, name: text::trim(name), path, enabled: true, created_at: now }
}

/// Whether a text can be a new identity: that of a random one.
pub open spec fn is_fresh_id(id: Seq<char>) -> bool {
    exists|bytes: Seq<u8>|
        machine::is_random_uuid(bytes) && id == #[trigger] machine::uuid_text(bytes)
}

/// A new identity.
pub fn fresh_id() -> (id: String)
    ensures
        is_fresh_id(id@),
{
    let bytes = machine::new_uuid();
    let id = machine::format_uuid(bytes.as_slice());
    assert(id@ == machine::uuid_text(bytes@));
    id
}

/// A new share, and the record of its password.
pub fn create_share(setup: &LanFlowServerSetup, name: &str, path: String, password: &str) -> (created:
    Result<(ShareDto, Vec<u8>), LanFlowError>)
    ensures
        text::trimmed(name@).len() == 0 || password@.len() == 0 ==> (created matches Err(e)
            && e@ == ErrorView::InvalidInput("分享名称和密码不能为空"@)),
        text::trimmed(name@).len() > 0 && password@.len() > 0 ==> match created {
            Ok((share, record)) => is_fresh_id(share@.id) && share@ == fresh_share(
                share@.id,
                name@,
                path@,
                share@.created_at,
            ) && opaque::registered(
                setup.keys(),
                utf8::encode_utf8(share@.id),
                utf8::encode_utf8(password@),
                record@,
            ),
            Err(error) => exists|id: Seq<char>| #[trigger]
                is_fresh_id(id) && auth::can_register(setup.keys(), id, password@, Err(error@)),
        },
{
    match check_new_share(name, password) {
        Ok(_) => {},
        Err(error) => {
            return Err(error);
        },
    }
    let share = share_with(fresh_id(), name, path, now_ms());
    match auth::register_password(setup, share.id.as_str(), password) {
        Ok(record) => Ok((share, record)),
        Err(error) => {
            assert(is_fresh_id(share@.id));
            Err(error)
        },
    }
}

/// A share after it was edited.
pub open spec fn edited_share(old: ShareDtoView, name: Seq<char>, path: Seq<char>, enabled: bool) -> ShareDtoView {
    ShareDtoView {
        id: old.id,
        name: text::trimmed(name),
        path,
        enabled,
        created_at: old.created_at,
    }
}

/// A share after it was edited, and the record of its password. A password
/// that is left empty stays as it was.
pub fn update_share(
    setup: &LanFlowServerSetup,
    old: Option<(ShareDto, Vec<u8>)>,
    name: &str,
    path: String,
    password: Option<String>,
    enabled: bool,
) -> (updated: Result<(ShareDto, Vec<u8>), LanFlowError>)
    ensures
        match old {
            None => updated matches Err(e) && e@ == ErrorView::NotFound("分享不存在"@),
            Some((share, record)) => {
                let unchanged = text::optional(password) is None || text::optional(
                    password,
                )->0.len() == 0;
                &&& unchanged ==> (updated matches Ok((s, r)) && s@ == edited_share(
                    share@,
                    name@,
                    path@,
                    enabled,
                ) && r@ == record@)
                &&& !unchanged ==> match updated {
                    Ok((s, r)) => s@ == edited_share(share@, name@, path@, enabled)
                        && opaque::registered(
                        setup.keys(),
                        utf8::encode_utf8(share@.id),
                        utf8::encode_utf8(text::optional(password)->0),
                        r@,
                    ),
                    Err(error) => auth::can_register(
                        setup.keys(),
                        share@.id,
                        text::optional(password)->0,
                        Err(error@),
                    ),
                }
            },
        },
{
    let (kept, old_record) = match old {
        Some(old) => old,
        None => {
            return Err(LanFlowError::NotFound("分享不存在".to_owned()));
        },
    };
    let share = ShareDto {
        id: kept.id,
        name: text::trim(name),
        path,
        enabled,
        created_at: kept.created_at,
    };
    match password {
        Some(password) => {
            proof {
                text::lemma_empty_text(password@);
            }
            if password.as_str().as_bytes().len() > 0 {
                match auth::register_password(setup, share.id.as_str(), password.as_str()) {
                    Ok(record) => Ok((share, record)),
                    Err(error) => Err(error),
                }
            } else {
                Ok((share, old_record))
            }
        },
        None => Ok((share, old_record)),
    }
}

// ---------------------------------------------------------------------------
// Addresses
// ---------------------------------------------------------------------------

fn holds_char(value: &str, c: char) -> (holds: bool)
    ensures
        holds == value@.contains(c),
{
    let chars = text::chars_of(value);
    let mut i: usize = 0;
    while i < chars.len()
        invariant
            i <= chars@.len(),
            chars@ == value@,
            forall|j: int| 0 <= j < i ==> chars@[j] != c,
        decreases chars@.len() - i,
    {
        if chars[i] == c {
            assert(value@[i as int] == c);
            return true;
        }
        i += 1;
    }
    false
}

/// An address with a port: its own, or the one that is usual.
pub open spec fn full_address(address: Seq<char>, port: u16) -> Seq<char> {
    if address.contains(':') {
        address
    } else {
        address + ":"@ + text::decimal(port as nat)
    }
}

/// An address with a port.
pub fn normalize_address(address: String, port: u16) -> (full: String)
    ensures
        full@ == full_address(address@, port),
{
    if holds_char(address.as_str(), ':') {
        return address;
    }
    let number = text::decimal_text(port as u64);
    let open = text::joined(address.as_str(), ":");
    text::joined(open.as_str(), number.as_str())
}

/// The address of a device that was found; one of the sixth version stands in
/// brackets.
pub open spec fn socket_address(peer: PeerDtoView) -> Seq<char> {
    if peer.address.contains(':') && !peer.address.contains('.') {
        "["@ + peer.address + "]:"@ + text::decimal(peer.port as nat)
    } else {
        peer.address + ":"@ + text::decimal(peer.port as nat)
    }
}

/// The address of a device that was found.
pub fn peer_socket_address(peer: &PeerDto) -> (address: String)
    ensures
        address@ == socket_address(peer@),
{
    let number = text::decimal_text(peer.port as u64);
    if holds_char(peer.address.as_str(), ':') && !holds_char(peer.address.as_str(), '.') {
        let open = text::joined("[", peer.address.as_str());
        let closed = text::joined(open.as_str(), "]:");
        text::joined(closed.as_str(), number.as_str())
    } else {
        let open = text::joined(peer.address.as_str(), ":");
        text::joined(open.as_str(), number.as_str())
    }
}

/// A share is named without white space at the ends of its name, and keeps its
/// identity and the time it was made when it is edited; a new one is open.
pub proof fn law_shares_keep_their_identity(
    id: Seq<char>,
    name: Seq<char>,
    path: Seq<char>,
    now: i64,
    other_name: Seq<char>,
    other_path: Seq<char>,
    enabled: bool,
)
    ensures
        ({
            let share = fresh_share(id, name, path, now);
            let edited = edited_share(share, other_name, other_path, enabled);
            &&& share.id == id && share.created_at == now && share.path == path && share.enabled
            &&& edited.id == id && edited.created_at == now
            &&& edited.path == other_path && edited.enabled == enabled
            &&& edited_share(share, name, path, true) == share
        }),
{
}

/// An address is used with the port it names; one that names none gets the
/// usual port, and only such a one.
pub proof fn law_addresses_get_a_port(address: Seq<char>, port: u16, other: u16)
    ensures
        full_address(address, port).contains(':'),
        address.contains(':') ==> full_address(address, port) == address,
        !address.contains(':') ==> full_address(address, port) == address + ":"@ + text::decimal(
            port as nat,
        ),
        full_address(full_address(address, port), other) == full_address(address, port),
{
    reveal_strlit(":");
    if !address.contains(':') {
        assert(full_address(address, port)[address.len() as int] == ':');
    }
}

/// The address of a device ends in its port; one of the newer kind, which has
/// colons of its own, stands in brackets.
pub proof fn law_devices_are_reached_at_their_port(peer: PeerDtoView)
    ensures
        !peer.address.contains(':') || peer.address.contains('.') ==> socket_address(peer)
            == peer.address + ":"@ + text::decimal(peer.port as nat),
        peer.address.contains(':') && !peer.address.contains('.') ==> socket_address(peer) == "["@
            + peer.address + "]:"@ + text::decimal(peer.port as nat),
{
}

/// The error for a device that is no longer there.
pub fn peer_offline() -> (error: LanFlowError)
    ensures
        error@ == ErrorView::NotFound("设备已离线"@),
{
    LanFlowError::NotFound("设备已离线".to_owned())
}

/// The error for a device that was not connected to.
pub fn peer_not_connected() -> (error: LanFlowError)
    ensures
        error@ == ErrorView::NotFound("请先连接设备"@),
{
    LanFlowError::NotFound("请先连接设备".to_owned())
}

/// The error for a share without a kept password.
pub fn no_kept_password() -> (error: LanFlowError)
    ensures
        error@ == ErrorView::NotFound("没有保存的密码"@),
{
    LanFlowError::NotFound("没有保存的密码".to_owned())
}

// ---------------------------------------------------------------------------
// Downloads
// ---------------------------------------------------------------------------

/// Refuses a download of nothing.
pub fn check_task_input(input: &CreateTaskInput) -> (checked: Result<(), LanFlowError>)
    ensures
        input@.remote_paths.len() == 0 ==> (checked matches Err(e) && e@ == ErrorView::InvalidInput(
            "至少选择一个文件或目录"@,
        )),
        input@.remote_paths.len() > 0 ==> checked is Ok,
{
    if input.remote_paths.len() == 0 {
        return Err(LanFlowError::InvalidInput("至少选择一个文件或目录".to_owned()));
    }
    Ok(())
}

/// Refuses a destination that is no directory.
pub fn check_destination(is_dir: bool) -> (checked: Result<(), LanFlowError>)
    ensures
        is_dir ==> checked is Ok,
        !is_dir ==> (checked matches Err(e) && e@ == ErrorView::InvalidInput(
            "目标路径不是目录"@,
        )),
{
    if !is_dir {
        return Err(LanFlowError::InvalidInput("目标路径不是目录".to_owned()));
    }
    Ok(())
}

/// The chunk size of a new download, in bytes: between one and 64 mebibytes.
pub open spec fn new_chunk_size(settings: PerformanceSettings) -> u32 {
    if settings.chunk_size_mib < 1 {
        0x10_0000
    } else if settings.chunk_size_mib > 64 {
        0x400_0000
    } else {
        (0x10_0000 * settings.chunk_size_mib) as u32
    }
}

/// The chunk size of a new download, in bytes.
pub fn task_chunk_size(settings: &PerformanceSettings) -> (size: u32)
    ensures
        size == new_chunk_size(*settings),
{
    let mebibytes: u32 = if settings.chunk_size_mib < 1 {
        1
    } else if settings.chunk_size_mib > 64 {
        64
    } else {
        settings.chunk_size_mib
    };
    mebibytes * 0x10_0000
}

/// The chunk size of a download that goes on, in bytes.
pub fn resume_chunk_size(settings: &PerformanceSettings) -> (size: u32)
    requires
        settings.chunk_size_mib < 0x1000,
    ensures
        size == 0x10_0000 * settings.chunk_size_mib,
{
    settings.chunk_size_mib * 0x10_0000
}

/// A new download with a given identity and time.
pub open spec fn fresh_task(
    id: Seq<char>,
    input: crate::models::CreateTaskInputView,
    peer_name: Seq<char>,
    destination: Seq<char>,
    now: i64,
) -> TaskDtoView {
    TaskDtoView {
        id,
        peer_id: input.peer_id,
        peer_name,
        share_id: input.share_id,
        destination,
        status: "preparing"@,
        total_bytes: 0,
        completed_bytes: 0,
        speed_bps: 0,
        file_count: 0,
        completed_files: 0,
        error: None,
        created_at: now,
        updated_at: now,
    }
}

/// A new download with a given identity and time.
pub fn task_with(
    id: String,
    input: &CreateTaskInput,
    peer_name: &str,
    destination: String,
    now: i64,
) -> (task: TaskDto)
    ensures
        task@ == fresh_task(id@, input@, peer_name@, destination@, now),
{
    TaskDto {
        id,
        peer_id: input.peer_id.clone(),
        peer_name: peer_name.to_owned(),
        share_id: input.share_id.clone(),
        destination,
        status: "preparing".to_owned(),
        total_bytes: 0,
        completed_bytes: 0,
        speed_bps: 0,
        file_count: 0,
        completed_files: 0,
        error: None,
        created_at: now,
        updated_at: now,
    }
}

/// A new download.
pub fn new_task(input: &CreateTaskInput, peer_name: &str, destination: String) -> (task: TaskDto)
    ensures
        is_fresh_id(task@.id),
        task@ == fresh_task(task@.id, input@, peer_name@, destination@, task@.created_at),
{
    task_with(fresh_id(), input, peer_name, destination, now_ms())
}

/// The chunk size of a download is the one that was set, in mebibytes, where
/// the settings are within their bounds, for a new download as for one that
/// goes on; a share cuts its files just so.
pub proof fn law_chunk_size_is_the_one_set(settings: PerformanceSettings)
    ensures
        settings_ok(settings) ==> new_chunk_size(settings) == settings.chunk_size_mib * 1024 * 1024,
        snapshot::clamped_chunk_size(new_chunk_size(settings)) == new_chunk_size(settings),
{
}

/// A new download is what was entered, for the device it was entered for, and
/// nothing of it is done.
pub proof fn law_new_task_is_what_was_entered(
    id: Seq<char>,
    input: crate::models::CreateTaskInputView,
    peer_name: Seq<char>,
    destination: Seq<char>,
    now: i64,
)
    ensures
        ({
            let task = fresh_task(id, input, peer_name, destination, now);
            &&& task.id == id
            &&& task.peer_id == input.peer_id && task.share_id == input.share_id
            &&& task.peer_name == peer_name && task.destination == destination
            &&& task.completed_bytes == 0 && task.total_bytes == 0 && task.speed_bps == 0
            &&& task.completed_files == 0 && task.file_count == 0
            &&& task.error is None && task.status == "preparing"@
            &&& task.created_at == now && task.updated_at == now
        }),
{
}

/// A download whose snapshot is there.
pub fn task_prepared(task: &mut TaskDto, total_bytes: u64, file_count: u64, now: i64)
    ensures
        final(task)@ == (TaskDtoView {
            total_bytes,
            file_count,
            updated_at: now,
            ..old(task)@
        }),
{
    task.total_bytes = total_bytes;
    task.file_count = file_count;
    task.updated_at = now;
}

/// The report on a download whose snapshot is being built.
pub fn preparing_event(task_id: &str, progress: &SnapshotProgress) -> (event: TaskProgressEvent)
    ensures
        event@ == (TaskProgressEventView {
            task_id: task_id@,
            status: "preparing"@,
            completed_bytes: progress@.prepared_bytes,
            total_bytes: progress@.total_bytes,
            speed_bps: progress@.speed_bps,
            completed_files: 0,
            file_count: progress@.total_entries,
            current_file: progress@.current_path,
        }),
{
    TaskProgressEvent {
        task_id: task_id.to_owned(),
        status: "preparing".to_owned(),
        completed_bytes: progress.prepared_bytes,
        total_bytes: progress.total_bytes,
        speed_bps: progress.speed_bps,
        completed_files: 0,
        file_count: progress.total_entries,
        current_file: progress.current_path.clone(),
    }
}

/// The first of some downloads with an identity.
pub open spec fn first_task(tasks: Seq<TaskDtoView>, id: Seq<char>) -> Option<TaskDtoView>
    decreases tasks.len(),
{
    if tasks.len() == 0 {
        None
    } else {
        match first_task(tasks.drop_last(), id) {
            Some(task) => Some(task),
            None => if tasks.last().id == id {
                Some(tasks.last())
            } else {
                None
            },
        }
    }
}

proof fn lemma_first_task(tasks: Seq<TaskDtoView>, id: Seq<char>, n: int)
    requires
        0 <= n <= tasks.len(),
        first_task(tasks.take(n), id) is Some,
    ensures
        first_task(tasks, id) == first_task(tasks.take(n), id),
    decreases tasks.len() - n,
{
    if n < tasks.len() {
        assert(tasks.take(n + 1).drop_last() =~= tasks.take(n));
        lemma_first_task(tasks, id, n + 1);
    } else {
        assert(tasks.take(n) =~= tasks);
    }
}

/// A download is found by its identity: what is found has it and is in the
/// list, and nothing before it there has it; nothing is found only where no
/// download has it.
pub proof fn law_tasks_are_found_by_identity(tasks: Seq<TaskDtoView>, id: Seq<char>)
    ensures
        match first_task(tasks, id) {
            Some(task) => task.id == id && tasks.contains(task) && exists|i: int|
                0 <= i < tasks.len() && #[trigger] tasks[i] == task && forall|j: int|
                    0 <= j < i ==> (#[trigger] tasks[j]).id != id,
            None => forall|j: int| 0 <= j < tasks.len() ==> (#[trigger] tasks[j]).id != id,
        },
    decreases tasks.len(),
{
    if tasks.len() > 0 {
        let before = tasks.drop_last();
        law_tasks_are_found_by_identity(before, id);
        assert(forall|j: int| 0 <= j < before.len() ==> before[j] == #[trigger] tasks[j]);
        match first_task(before, id) {
            Some(task) => {
                let i = choose|i: int|
                    0 <= i < before.len() && #[trigger] before[i] == task && forall|j: int|
                        0 <= j < i ==> (#[trigger] before[j]).id != id;
                assert(tasks[i] == task);
                assert forall|j: int| 0 <= j < i implies (#[trigger] tasks[j]).id != id by {
                    assert(before[j].id != id);
                }
            },
            None => {
                assert forall|j: int| 0 <= j < before.len() implies (#[trigger] tasks[j]).id
                    != id by {
                    assert(before[j].id != id);
                }
                assert(tasks[tasks.len() - 1] == tasks.last());
            },
        }
    }
}

/// The download with an identity.
pub fn find_task(tasks: &Vec<TaskDto>, id: &str) -> (task: Result<TaskDto, LanFlowError>)
    ensures
        match first_task(fields::views(tasks@), id@) {
            Some(expected) => task matches Ok(t) && t@ == expected,
            None => task matches Err(e) && e@ == ErrorView::NotFound("任务不存在"@),
        },
{
    let ghost all = fields::views(tasks@);
    let mut i: usize = 0;
    assert(all.take(0) =~= Seq::empty());
    while i < tasks.len()
        invariant
            i <= tasks@.len(),
            all == fields::views(tasks@),
            first_task(all.take(i as int), id@) is None,
        decreases tasks@.len() - i,
    {
        proof {
            assert(all[i as int] == tasks@[i as int]@);
            assert(all.take(i + 1).drop_last() =~= all.take(i as int));
            assert(all.take(i + 1).last() == tasks@[i as int]@);
        }
        if text::same_text(tasks[i].id.as_str(), id) {
            proof {
                lemma_first_task(all, id@, i + 1);
            }
            return Ok(tasks[i].clone());
        }
        i += 1;
    }
    assert(all.take(i as int) =~= all);
    Err(LanFlowError::NotFound("任务不存在".to_owned()))
}

/// The text under which the paths that a download fetches are stored.
pub fn selection_text(paths: &Vec<String>) -> (stored: Result<String, LanFlowError>)
    ensures
        stored matches Ok(text) && text@ == json::texts_json(fields::views(paths@))
            && json::lists(text@, fields::views(paths@)),
{
    match json::texts_to_json(paths) {
        Ok(text) => Ok(text),
        Err(message) => Err(LanFlowError::Internal(message)),
    }
}

/// What a stored download fetches, and what it does about files in the way, or
/// why its paths cannot be read.
pub open spec fn selection_of(paths_json: Seq<char>, policy: Seq<char>) -> Result<
    (Seq<Seq<char>>, ConflictPolicy),
    ErrorView,
> {
    match json::json_texts(paths_json) {
        Ok(paths) => Ok((paths, ConflictPolicy::named(policy))),
        Err(message) => Err(ErrorView::Database(message)),
    }
}

/// What a stored download fetches, and what it does about files in the way.
pub fn stored_selection(paths_json: &str, policy: &str) -> (stored: Result<
    (Vec<String>, ConflictPolicy),
    LanFlowError,
>)
    ensures
        match selection_of(paths_json@, policy@) {
            Ok((paths, expected)) => stored matches Ok((list, p)) && fields::views(list@) == paths
                && p == expected,
            Err(error) => stored matches Err(e) && e@ == error,
        },
{
    match json::texts_from_json(paths_json) {
        Ok(paths) => Ok((paths, ConflictPolicy::from_name(policy))),
        Err(message) => Err(LanFlowError::Database(message)),
    }
}

// ---------------------------------------------------------------------------
// Settings and start
// ---------------------------------------------------------------------------

/// Whether settings are within their bounds.
pub open spec fn settings_ok(settings: PerformanceSettings) -> bool {
    &&& 1 <= settings.data_connections <= 8
    &&& 1 <= settings.streams_per_connection <= 16
    &&& 1 <= settings.chunk_size_mib <= 64
    &&& settings.hash_workers <= 32
}

/// Refuses settings that are out of bounds.
pub fn check_settings(settings: &PerformanceSettings) -> (checked: Result<(), LanFlowError>)
    ensures
        settings_ok(*settings) ==> checked is Ok,
        !settings_ok(*settings) ==> (checked matches Err(e) && e@ == ErrorView::InvalidInput(
            "性能参数超出允许范围"@,
        )),
{
    if settings.data_connections < 1 || settings.data_connections > 8
        || settings.streams_per_connection < 1 || settings.streams_per_connection > 16
        || settings.chunk_size_mib < 1 || settings.chunk_size_mib > 64 || settings.hash_workers
        > 32 {
        return Err(LanFlowError::InvalidInput("性能参数超出允许范围".to_owned()));
    }
    Ok(())
}

/// The settings of a new installation are within the bounds.
pub proof fn law_first_settings_are_accepted()
    ensures
        settings_ok(crate::models::default_settings()),
{
}

/// The identity of this device, as it was kept; `None` where a new one is to
/// be drawn.
pub fn kept_device_id(value: Option<Vec<u8>>) -> (id: Result<Option<String>, LanFlowError>)
    ensures
        match value {
            None => id matches Ok(None),
            Some(bytes) => if utf8::valid_utf8(bytes@) {
                id matches Ok(Some(text)) && text@ == utf8::decode_utf8(bytes@)
            } else {
                id matches Err(e) && e@ == ErrorView::Database("设备 ID 编码无效"@)
            },
        },
{
    match value {
        None => Ok(None),
        Some(bytes) => match string_from_utf8(bytes) {
            Some(id) => Ok(Some(id)),
            None => Err(LanFlowError::Database("设备 ID 编码无效".to_owned())),
        },
    }
}

/// The name of this device: the one that was kept, where it can be read, else
/// the given one.
pub fn device_name_or(value: Option<Vec<u8>>, other: String) -> (name: String)
    ensures
        match value {
            Some(bytes) => if utf8::valid_utf8(bytes@) {
                name@ == utf8::decode_utf8(bytes@)
            } else {
                name@ == other@
            },
            None => name@ == other@,
        },
{
    match value {
        Some(bytes) => match string_from_utf8(bytes) {
            Some(name) => name,
            None => other,
        },
        None => other,
    }
}

/// The name of a device that says nothing of its own: the first of the two
/// names that the system gives, else a general one.
pub fn default_device_name(computer: Option<String>, host: Option<String>) -> (name: String)
    ensures
        name@ == match text::optional(computer) {
            Some(c) => c,
            None => match text::optional(host) {
                Some(h) => h,
                None => "LanFlow 设备"@,
            },
        },
{
    match computer {
        Some(name) => name,
        None => match host {
            Some(name) => name,
            None => "LanFlow 设备".to_owned(),
        },
    }
}

/// The salt of this installation: the one that was kept, where it is 32 bytes
/// long, else a new one. The flag tells whether it is new.
pub fn install_salt(value: Option<Vec<u8>>) -> (salt: (Vec<u8>, bool))
    ensures
        salt.0@.len() == 32,
        match value {
            Some(bytes) => if bytes@.len() == 32 {
                salt.0@ == bytes@ && !salt.1
            } else {
                salt.1
            },
            None => salt.1,
        },
{
    match value {
        Some(bytes) => if bytes.len() == 32 {
            (bytes, false)
        } else {
            (machine::random_bytes(32), true)
        },
        None => (machine::random_bytes(32), true),
    }
}

/// Everything that the first screen shows.
pub fn overview(
    device_id: &str,
    device_name: &str,
    server_running: bool,
    shares: Vec<ShareDto>,
    peers: Vec<PeerDto>,
    tasks: Vec<TaskDto>,
    settings: PerformanceSettings,
) -> (view: AppOverview)
    ensures
        view@ == (AppOverviewView {
            device_id: device_id@,
            device_name: device_name@,
            listen_port: settings.listen_port,
            server_running,
            shares: fields::views(shares@),
            peers: fields::views(peers@),
            tasks: fields::views(tasks@),
            settings,
        }),
{
    AppOverview {
        device_id: device_id.to_owned(),
        device_name: device_name.to_owned(),
        listen_port: settings.listen_port,
        server_running,
        shares,
        peers,
        tasks,
        settings,
    }
}

} // verus!
