use lanflow::auth::new_server_setup;
use lanflow::commands::{
    check_destination, check_new_share, check_settings, check_share_directory, check_task_input,
    create_share, default_device_name, device_name_or, find_task, fresh_id, install_salt,
    kept_device_id, new_task, no_kept_password, normalize_address, overview, peer_not_connected,
    peer_offline, peer_socket_address, preparing_event, resume_chunk_size, share_with,
    task_chunk_size, task_prepared, task_with, update_share,
};
use lanflow::error::{IoError, IoErrorKind, LanFlowError, ProtocolError};
use lanflow::models::{ConflictPolicy, CreateTaskInput, PeerDto, PerformanceSettings};
use lanflow::wire::snapshot::SnapshotProgress;

fn peer(address: &str) -> PeerDto {
    PeerDto {
        id: "p".to_owned(),
        name: "Peer".to_owned(),
        address: address.to_owned(),
        port: 80,
        online: true,
        manual: false,
        protocol_major: 1,
        protocol_minor: 0,
        last_seen: 0,
    }
}

fn input(remote_paths: Vec<String>) -> CreateTaskInput {
    CreateTaskInput {
        peer_id: "p".to_owned(),
        share_id: "s".to_owned(),
        remote_paths,
        destination: "/d".to_owned(),
        conflict_policy: ConflictPolicy::Skip,
    }
}

#[test]
fn shares_need_a_name_and_a_password() {
    let refused = "输入无效: 分享名称和密码不能为空";
    assert!(check_new_share("n", "p").is_ok());
    assert_eq!(check_new_share(" \t\u{3000}", "p").unwrap_err().message(), refused);
    assert_eq!(check_new_share("n", "").unwrap_err().message(), refused);
    assert!(check_new_share("n", " ").is_ok());
    assert!(check_share_directory(true).is_ok());
    assert_eq!(
        check_share_directory(false).unwrap_err().message(),
        "输入无效: 分享路径不是目录"
    );
}

#[test]
fn shares_are_made() {
    let share = share_with("i".to_owned(), "  my share\n", "/p".to_owned(), 4);
    assert_eq!(share.name, "my share");
    assert!(share.enabled);
    let setup = new_server_setup();
    let (share, record) = match create_share(&setup, " n ", "/p".to_owned(), "pw") {
        Ok(made) => made,
        Err(_) => panic!(),
    };
    assert_eq!((share.name.as_str(), share.path.as_str()), ("n", "/p"));
    assert_eq!(share.id.len(), 36);
    assert!(!record.is_empty());
    assert!(create_share(&setup, "", "/p".to_owned(), "pw").is_err());
    let created_at = share.created_at;
    let id = share.id.clone();
    let (changed, kept) = match update_share(
        &setup,
        Some((share, record.clone())),
        " new ",
        "/q".to_owned(),
        Some(String::new()),
        false,
    ) {
        Ok(changed) => changed,
        Err(_) => panic!(),
    };
    assert_eq!(kept, record);
    assert_eq!((changed.id.as_str(), changed.name.as_str()), (id.as_str(), "new"));
    assert_eq!((changed.path.as_str(), changed.enabled), ("/q", false));
    assert_eq!(changed.created_at, created_at);
    let (_, renewed) = match update_share(
        &setup,
        Some((changed, kept)),
        "n",
        "/q".to_owned(),
        Some("other".to_owned()),
        true,
    ) {
        Ok(changed) => changed,
        Err(_) => panic!(),
    };
    assert_ne!(renewed, record);
    match update_share(&setup, None, "n", "/q".to_owned(), None, true) {
        Err(error) => assert_eq!(error.message(), "未找到: 分享不存在"),
        Ok(_) => panic!(),
    }
}

#[test]
fn identities_look_like_uuids() {
    let id = fresh_id();
    assert_eq!(id.len(), 36);
    for (index, c) in id.chars().enumerate() {
        match index {
            8 | 13 | 18 | 23 => assert_eq!(c, '-'),
            14 => assert_eq!(c, '4'),
            _ => assert!(c.is_ascii_hexdigit() && !c.is_ascii_uppercase()),
        }
    }
    assert_ne!(id, fresh_id());
}

#[test]
fn addresses() {
    assert_eq!(normalize_address("1.2.3.4".to_owned(), 47_932), "1.2.3.4:47932");
    assert_eq!(normalize_address("1.2.3.4:5".to_owned(), 47_932), "1.2.3.4:5");
    assert_eq!(peer_socket_address(&peer("1.2.3.4")), "1.2.3.4:80");
    assert_eq!(peer_socket_address(&peer("fe80::1")), "[fe80::1]:80");
    assert_eq!(peer_socket_address(&peer("::ffff:1.2.3.4")), "::ffff:1.2.3.4:80");
}

#[test]
fn refusals() {
    assert_eq!(peer_offline().message(), "未找到: 设备已离线");
    assert_eq!(peer_not_connected().message(), "未找到: 请先连接设备");
    assert_eq!(no_kept_password().message(), "未找到: 没有保存的密码");
    assert!(check_task_input(&input(vec!["a".to_owned()])).is_ok());
    assert_eq!(
        check_task_input(&input(Vec::new())).unwrap_err().message(),
        "输入无效: 至少选择一个文件或目录"
    );
    assert!(check_destination(true).is_ok());
    assert_eq!(
        check_destination(false).unwrap_err().message(),
        "输入无效: 目标路径不是目录"
    );
}

#[test]
fn chunk_sizes() {
    let settings = |chunk_size_mib| PerformanceSettings {
        chunk_size_mib,
        ..PerformanceSettings::default()
    };
    assert_eq!(task_chunk_size(&settings(8)), 8 << 20);
    assert_eq!(task_chunk_size(&settings(0)), 1 << 20);
    assert_eq!(task_chunk_size(&settings(u32::MAX)), 64 << 20);
    assert_eq!(resume_chunk_size(&settings(8)), 8 << 20);
    assert_eq!(resume_chunk_size(&settings(0)), 0);
}

#[test]
fn tasks_are_made() {
    let mut task = task_with("t".to_owned(), &input(Vec::new()), "Peer", "/real".to_owned(), 9);
    assert_eq!((task.id.as_str(), task.status.as_str()), ("t", "preparing"));
    assert_eq!((task.peer_id.as_str(), task.peer_name.as_str()), ("p", "Peer"));
    assert_eq!(task.destination, "/real");
    assert_eq!((task.total_bytes, task.created_at, task.updated_at), (0, 9, 9));
    assert!(task.error.is_none());
    task_prepared(&mut task, 100, 3, 12);
    assert_eq!((task.total_bytes, task.file_count, task.updated_at), (100, 3, 12));
    assert_eq!(task.created_at, 9);
    let drawn = new_task(&input(Vec::new()), "Peer", "/real".to_owned());
    assert_eq!(drawn.id.len(), 36);
    let tasks = vec![drawn, task];
    assert_eq!(find_task(&tasks, "t").unwrap_or_else(|_| panic!()).file_count, 3);
    match find_task(&tasks, "u") {
        Err(error) => assert_eq!(error.message(), "未找到: 任务不存在"),
        Ok(_) => panic!(),
    }
}

#[test]
fn preparation_is_reported() {
    let progress = SnapshotProgress {
        snapshot_id: "a".to_owned(),
        phase: "hashing".to_owned(),
        scanned_entries: 1,
        total_entries: 2,
        prepared_bytes: 3,
        total_bytes: 4,
        cache_hits: 5,
        current_path: "path".to_owned(),
        hash_workers: 6,
        speed_bps: 7,
    };
    let event = preparing_event("t", &progress);
    assert_eq!((event.task_id.as_str(), event.status.as_str()), ("t", "preparing"));
    assert_eq!((event.completed_bytes, event.total_bytes, event.speed_bps), (3, 4, 7));
    assert_eq!((event.completed_files, event.file_count), (0, 2));
    assert_eq!(event.current_file, "path");
}

#[test]
fn settings_have_bounds() {
    let check = |data_connections, streams_per_connection, chunk_size_mib, hash_workers| {
        check_settings(&PerformanceSettings {
            data_connections,
            streams_per_connection,
            chunk_size_mib,
            hash_workers,
            ..PerformanceSettings::default()
        })
    };
    assert!(check(1, 1, 1, 0).is_ok());
    assert!(check(8, 16, 64, 32).is_ok());
    for refused in [
        check(0, 1, 1, 0),
        check(9, 1, 1, 0),
        check(1, 0, 1, 0),
        check(1, 17, 1, 0),
        check(1, 1, 0, 0),
        check(1, 1, 65, 0),
        check(1, 1, 1, 33),
    ] {
        assert_eq!(refused.unwrap_err().message(), "输入无效: 性能参数超出允许范围");
    }
}

#[test]
fn kept_values_of_the_device() {
    assert_eq!(kept_device_id(None).unwrap(), None);
    assert_eq!(kept_device_id(Some(b"id".to_vec())).unwrap(), Some("id".to_owned()));
    assert_eq!(
        kept_device_id(Some(vec![0xff])).unwrap_err().message(),
        "数据库错误: 设备 ID 编码无效"
    );
    assert_eq!(device_name_or(Some(b"n".to_vec()), "o".to_owned()), "n");
    assert_eq!(device_name_or(Some(vec![0xff]), "o".to_owned()), "o");
    assert_eq!(device_name_or(None, "o".to_owned()), "o");
    assert_eq!(default_device_name(Some("c".to_owned()), Some("h".to_owned())), "c");
    assert_eq!(default_device_name(None, Some("h".to_owned())), "h");
    assert_eq!(default_device_name(None, None), "LanFlow 设备");
    assert_eq!(install_salt(Some(vec![4; 32])), (vec![4; 32], false));
    let (salt, fresh) = install_salt(Some(vec![4; 31]));
    assert_eq!((salt.len(), fresh), (32, true));
    assert_ne!(salt, install_salt(None).0);
}

#[test]
fn the_overview_shows_everything() {
    let settings = PerformanceSettings { listen_port: 7, ..PerformanceSettings::default() };
    let view = overview("d", "n", true, Vec::new(), vec![peer("a")], Vec::new(), settings);
    assert_eq!((view.device_id.as_str(), view.device_name.as_str()), ("d", "n"));
    assert_eq!((view.listen_port, view.server_running), (7, true));
    assert_eq!(view.peers.len(), 1);
    assert_eq!(view.settings.listen_port, 7);
}

#[test]
fn policies_have_names() {
    for (policy, name) in [
        (ConflictPolicy::KeepBoth, "keep_both"),
        (ConflictPolicy::Overwrite, "overwrite"),
        (ConflictPolicy::Skip, "skip"),
    ] {
        assert_eq!(policy.as_str(), name);
        assert_eq!(ConflictPolicy::from_name(name).as_str(), name);
    }
    assert_eq!(ConflictPolicy::from_name("other").as_str(), "keep_both");
}

#[test]
fn error_texts() {
    let text = |message: &str| message.to_owned();
    let io = IoError { kind: IoErrorKind::Other, message: text("m") };
    assert_eq!(LanFlowError::Io(io).message(), "I/O 错误: m");
    assert_eq!(LanFlowError::Protocol(text("m")).message(), "协议错误: m");
    assert_eq!(LanFlowError::Auth(text("m")).message(), "认证失败: m");
    assert_eq!(LanFlowError::Database(text("m")).message(), "数据库错误: m");
    assert_eq!(LanFlowError::NotFound(text("m")).message(), "未找到: m");
    assert_eq!(LanFlowError::InvalidInput(text("m")).message(), "输入无效: m");
    assert_eq!(LanFlowError::Cancelled.message(), "任务已取消");
    assert_eq!(LanFlowError::Internal(text("m")).message(), "内部错误: m");
    match LanFlowError::from_protocol(ProtocolError::Protocol(text("m"))) {
        LanFlowError::Protocol(message) => assert_eq!(message, "m"),
        _ => panic!(),
    }
    let io = IoError { kind: IoErrorKind::NotFound, message: text("gone") };
    match LanFlowError::from_protocol(ProtocolError::Io(io)) {
        LanFlowError::Io(error) => assert_eq!(error.message, "gone"),
        _ => panic!(),
    }
}
