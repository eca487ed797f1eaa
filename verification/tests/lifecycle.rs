use lanflow::commands::{selection_text, stored_selection, task_with};
use lanflow::error::LanFlowError;
use lanflow::lifecycle::{
    cancelled_update, failed_update, paused_update, snapshot_failed, Preparation, PrepareAction,
    PrepareEvent, PrepareStage, RunEvent, RunStage, StoredTask, TaskRun,
};
use lanflow::models::{ConflictPolicy, CreateTaskInput, PerformanceSettings, TaskDto};
use lanflow::tasks::{finished_event, Completion};
use lanflow::wire::snapshot::{ManifestFile, SnapshotManifest};

fn input(policy: ConflictPolicy, paths: &[&str]) -> CreateTaskInput {
    CreateTaskInput {
        peer_id: "p".to_owned(),
        share_id: "s".to_owned(),
        remote_paths: paths.iter().map(|path| path.to_string()).collect(),
        destination: "/d".to_owned(),
        conflict_policy: policy,
    }
}

fn task(id: &str) -> TaskDto {
    let input = input(ConflictPolicy::Skip, &["a"]);
    task_with(id.to_owned(), &input, "Peer", "/real".to_owned(), 9)
}

fn file(id: &str, size: u64, is_dir: bool) -> ManifestFile {
    ManifestFile {
        id: id.to_owned(),
        relative_path: id.to_owned(),
        size,
        modified_ms: 0,
        blake3: Vec::new(),
        chunks: Vec::new(),
        is_dir,
    }
}

fn manifest() -> SnapshotManifest {
    SnapshotManifest {
        snapshot_id: "snap".to_owned(),
        files: vec![file("a", 7, false), file("b", 0, true), file("c", 5, false)],
        error: String::new(),
    }
}

fn create(policy: ConflictPolicy, paths: &[&str]) -> (Preparation, PrepareAction) {
    let settings = PerformanceSettings::default();
    match Preparation::create(task("t"), &input(policy, paths), &settings) {
        Ok(begun) => begun,
        Err(_) => panic!(),
    }
}

#[test]
fn selections_are_stored_as_json() {
    let paths = vec!["a/b".to_owned(), "q\"\\\n\u{7}文".to_owned()];
    let text = selection_text(&paths).unwrap();
    assert_eq!(text, "[\"a/b\",\"q\\\"\\\\\\n\\u0007文\"]");
    let (read, policy) = stored_selection(&text, "overwrite").unwrap();
    assert_eq!(read, paths);
    assert_eq!(policy, ConflictPolicy::Overwrite);
    assert_eq!(selection_text(&Vec::new()).unwrap(), "[]");
    assert_eq!(stored_selection("[]", "other").unwrap().1, ConflictPolicy::KeepBoth);
    for broken in ["", "[", "{}", "[1]", "[\"a\"] x"] {
        match stored_selection(broken, "skip") {
            Err(LanFlowError::Database(text)) => assert!(!text.is_empty()),
            _ => panic!(),
        }
    }
}

#[test]
fn a_new_download_is_prepared() {
    let (mut preparation, first) = create(ConflictPolicy::Overwrite, &["a", "c"]);
    match first {
        PrepareAction::Store(task, paths, policy) => {
            assert_eq!(task.id, "t");
            assert_eq!((paths.as_str(), policy.as_str()), ("[\"a\",\"c\"]", "overwrite"));
        }
        _ => panic!(),
    }
    match preparation.step(PrepareEvent::Stored) {
        PrepareAction::RequestSnapshot(share, paths, chunk_size) => {
            assert_eq!((share.as_str(), chunk_size), ("s", 8 << 20));
            assert_eq!(paths, vec!["a", "c"]);
        }
        _ => panic!(),
    }
    match preparation.step(PrepareEvent::SnapshotReady(manifest(), 12)) {
        PrepareAction::StoreManifest(text, bytes, files) => {
            assert!(!text.is_empty());
            assert_eq!((bytes, files), (12, 2));
        }
        _ => panic!(),
    }
    match preparation.step(PrepareEvent::ManifestStored) {
        PrepareAction::Start(task, manifest, policy) => {
            assert_eq!((task.total_bytes, task.file_count, task.updated_at), (12, 2, 12));
            assert_eq!(task.status, "preparing");
            assert_eq!(manifest.snapshot_id, "snap");
            assert_eq!(policy, ConflictPolicy::Overwrite);
        }
        _ => panic!(),
    }
    match preparation.step(PrepareEvent::Started) {
        PrepareAction::Done(task) => assert_eq!(task.id, "t"),
        _ => panic!(),
    }
    assert_eq!(preparation.stage, PrepareStage::Started);
}

#[test]
fn a_failed_snapshot_is_noted() {
    let (mut preparation, _) = create(ConflictPolicy::Skip, &["a"]);
    preparation.step(PrepareEvent::Stored);
    let error = LanFlowError::Protocol("gone".to_owned());
    match preparation.step(PrepareEvent::SnapshotFailed(error, 20)) {
        PrepareAction::NoteStatus(update) => {
            assert_eq!(update.status, "failed");
            assert_eq!(update.error.unwrap(), "协议错误: gone");
            assert_eq!((update.speed_bps, update.updated_at), (0, 20));
        }
        _ => panic!(),
    }
    match preparation.step(PrepareEvent::FailureNoted) {
        PrepareAction::Fail(error) => assert_eq!(error.message(), "协议错误: gone"),
        _ => panic!(),
    }
    assert_eq!(preparation.stage, PrepareStage::Failed);
    assert_eq!(preparation.task.unwrap().status, "failed");
}

#[test]
fn a_download_of_nothing_is_refused() {
    let settings = PerformanceSettings::default();
    match Preparation::create(task("t"), &input(ConflictPolicy::Skip, &[]), &settings) {
        Err(error) => assert_eq!(error.message(), "输入无效: 至少选择一个文件或目录"),
        Ok(_) => panic!(),
    }
}

#[test]
fn a_stored_download_goes_on() {
    for policy in [ConflictPolicy::KeepBoth, ConflictPolicy::Overwrite, ConflictPolicy::Skip] {
        let (_, first) = create(policy, &["x/y", "z"]);
        let stored = match first {
            PrepareAction::Store(task, paths_json, policy) => {
                StoredTask { peer_id: task.peer_id, share_id: task.share_id, paths_json, policy }
            }
            _ => panic!(),
        };
        let (mut preparation, connect) =
            match Preparation::resume("t".to_owned(), Some(stored)) {
                Ok(begun) => begun,
                Err(_) => panic!(),
            };
        match connect {
            PrepareAction::Connect(peer) => assert_eq!(peer, "p"),
            _ => panic!(),
        }
        let settings = PerformanceSettings { chunk_size_mib: 3, ..PerformanceSettings::default() };
        match preparation.step(PrepareEvent::Connected(settings)) {
            PrepareAction::RequestSnapshot(share, paths, chunk_size) => {
                assert_eq!((share.as_str(), chunk_size), ("s", 3 << 20));
                assert_eq!(paths, vec!["x/y", "z"]);
            }
            _ => panic!(),
        }
        assert!(matches!(
            preparation.step(PrepareEvent::SnapshotReady(manifest(), 1)),
            PrepareAction::ListTasks
        ));
        match preparation.step(PrepareEvent::TasksListed(vec![task("u"), task("t")])) {
            PrepareAction::Start(task, _, started) => {
                assert_eq!(task.id, "t");
                assert_eq!(started, policy);
            }
            _ => panic!(),
        }
    }
}

#[test]
fn downloads_that_cannot_go_on() {
    match Preparation::resume("t".to_owned(), None) {
        Err(error) => assert_eq!(error.message(), "未找到: 任务不存在"),
        Ok(_) => panic!(),
    }
    let stored = |json: &str| StoredTask {
        peer_id: "p".to_owned(),
        share_id: "s".to_owned(),
        paths_json: json.to_owned(),
        policy: "skip".to_owned(),
    };
    assert!(matches!(
        Preparation::resume("t".to_owned(), Some(stored("no"))),
        Err(LanFlowError::Database(_))
    ));
    let (mut preparation, _) =
        match Preparation::resume("t".to_owned(), Some(stored("[\"a\"]"))) {
            Ok(begun) => begun,
            Err(_) => panic!(),
        };
    preparation.step(PrepareEvent::Connected(PerformanceSettings::default()));
    preparation.step(PrepareEvent::SnapshotReady(manifest(), 1));
    match preparation.step(PrepareEvent::TasksListed(vec![task("u")])) {
        PrepareAction::Fail(error) => assert_eq!(error.message(), "未找到: 任务不存在"),
        _ => panic!(),
    }
}

#[test]
fn a_download_runs_to_its_end() {
    let (mut run, first) = TaskRun::start(task("t"), 12, 300, 1);
    assert_eq!((first.status.as_str(), first.completed_bytes, first.updated_at), ("downloading", 0, 1));
    let mut noted = Vec::new();
    for n in 0..300 {
        let step = run.step(RunEvent::FileDone(format!("{n}"), format!("p{n}")));
        assert_eq!(step.note.len(), if n == 259 { 256 } else { 0 });
        assert!(step.save.is_none() && step.report.is_none());
        noted.extend(step.note);
        if n == 3 {
            let tick = run.step(RunEvent::Tick(5, 6, 7));
            assert_eq!(tick.note.len(), 4);
            noted.extend(tick.note);
            let report = tick.report.unwrap();
            assert_eq!((report.completed_bytes, report.speed_bps), (5, 6));
            assert_eq!((report.completed_files, report.file_count), (4, 300));
            assert_eq!(report.current_file, "p3");
            let save = tick.save.unwrap();
            assert_eq!((save.status.as_str(), save.speed_bps), ("downloading", 6));
        }
    }
    let end = run.step(RunEvent::AllDone(12, 30));
    noted.extend(end.note);
    assert_eq!(noted, (0..300).map(|n| n.to_string()).collect::<Vec<_>>());
    let save = end.save.unwrap();
    assert_eq!((save.status.as_str(), save.completed_bytes, save.completed_files), ("completed", 12, 300));
    assert_eq!((save.speed_bps, save.error, save.updated_at), (0, None, 30));
    let report = end.report.unwrap();
    assert_eq!((report.status.as_str(), report.current_file.as_str()), ("completed", ""));
    assert_eq!(run.stage, RunStage::Completed);
}

#[test]
fn failures_and_stops_of_a_download() {
    let mut failed = TaskRun::start(task("t"), 12, 2, 1).0;
    let step = failed.step(RunEvent::Failed(LanFlowError::Auth("x".to_owned()), false, 8));
    let save = step.save.unwrap();
    assert_eq!((save.status.as_str(), save.updated_at), ("failed", 8));
    assert_eq!(save.error.unwrap(), "认证失败: x");
    assert_eq!(step.report.unwrap().current_file, "认证失败: x");
    assert_eq!(failed.stage, RunStage::Failed);
    let mut stopped = TaskRun::start(task("t"), 12, 2, 1).0;
    let step = stopped.step(RunEvent::Failed(LanFlowError::Cancelled, true, 8));
    assert!(step.save.is_none() && step.report.is_none() && step.note.is_empty());
    assert_eq!(stopped.stage, RunStage::Stopped);
}

#[test]
fn status_changes() {
    assert_eq!(paused_update(3).status, "paused");
    assert_eq!(cancelled_update(3).status, "cancelled");
    assert!(paused_update(3).error.is_none());
    let error = LanFlowError::NotFound("n".to_owned());
    assert_eq!(failed_update(&error, 3).error.unwrap(), "未找到: n");
    let mut changed = task("t");
    changed.speed_bps = 4;
    changed.completed_bytes = 5;
    snapshot_failed(&mut changed, &error);
    assert_eq!((changed.status.as_str(), changed.speed_bps), ("failed", 0));
    assert_eq!((changed.completed_bytes, changed.updated_at), (5, 9));
    assert_eq!(changed.error.unwrap(), "未找到: n");
    let mut completion = Completion::new();
    completion.finish_file("i".to_owned(), "p".to_owned());
    let event = finished_event("t", &completion, 10, 11, 1);
    assert_eq!((event.completed_bytes, event.total_bytes, event.completed_files), (10, 11, 1));
    assert_eq!((event.speed_bps, event.current_file.as_str()), (0, ""));
}
