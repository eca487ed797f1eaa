use lanflow::download::{DownloadAction, DownloadEvent, FileDownload, Stage};
use lanflow::error::LanFlowError;
use lanflow::models::ConflictPolicy;
use lanflow::tasks::ChunkResults;
use lanflow::wire::snapshot::{ChunkHash, ManifestFile};

fn chunk(index: u32, offset: u64, data: &[u8]) -> ChunkHash {
    ChunkHash {
        index,
        offset,
        length: data.len() as u32,
        blake3: blake3::hash(data).as_bytes().to_vec(),
    }
}

fn file(chunks: Vec<ChunkHash>, whole: &[u8]) -> ManifestFile {
    ManifestFile {
        id: "id".to_owned(),
        relative_path: "a/b:c".to_owned(),
        size: whole.len() as u64,
        modified_ms: 1_500,
        blake3: blake3::hash(whole).as_bytes().to_vec(),
        chunks,
        is_dir: false,
    }
}

fn two_chunks() -> ManifestFile {
    file(vec![chunk(0, 0, b"abc"), chunk(1, 3, b"de")], b"abcde")
}

fn start(file: ManifestFile, bitmap: Vec<u8>, policy: ConflictPolicy) -> FileDownload {
    match FileDownload::start(file, bitmap, "/d", "/p", policy, false) {
        Ok((download, DownloadAction::LookAtTarget(target))) => {
            assert_eq!(target, "/d/a/~lf-623A63");
            assert_eq!(download.partial, "/p/id.part");
            download
        }
        _ => panic!(),
    }
}

fn all(indexes: &[usize]) -> ChunkResults {
    let mut results = ChunkResults::new();
    for index in indexes {
        results.succeed(*index);
    }
    results
}

#[test]
fn a_new_file_is_fetched_checked_and_moved() {
    let mut download = start(two_chunks(), vec![0], ConflictPolicy::Overwrite);
    assert!(matches!(
        download.step(DownloadEvent::TargetSeen(false, false)),
        DownloadAction::LookAtPartial(_)
    ));
    assert!(matches!(
        download.step(DownloadEvent::PartialSeen(None)),
        DownloadAction::MakePartial(5)
    ));
    match download.step(DownloadEvent::PartialMade) {
        DownloadAction::Fetch(missing, present) => {
            assert_eq!((missing, present), (vec![0, 1], 0));
        }
        _ => panic!(),
    }
    match download.step(DownloadEvent::Fetched(all(&[1, 0]))) {
        DownloadAction::NoteChunks(list) => assert_eq!(list, vec![1, 0]),
        _ => panic!(),
    }
    match download.step(DownloadEvent::Noted) {
        DownloadAction::CheckWhole(path) => assert_eq!(path, "/p/id.part"),
        _ => panic!(),
    }
    assert!(matches!(
        download.step(DownloadEvent::WholeChecked(true)),
        DownloadAction::LookAtGoal(_)
    ));
    match download.step(DownloadEvent::GoalSeen(true)) {
        DownloadAction::RemoveOld(path) => assert_eq!(path, "/d/a/~lf-623A63"),
        _ => panic!(),
    }
    match download.step(DownloadEvent::OldRemoved) {
        DownloadAction::Move(path, seconds, nanoseconds) => {
            assert_eq!(path, "/d/a/~lf-623A63");
            assert_eq!((seconds, nanoseconds), (1, 500_000_000));
        }
        _ => panic!(),
    }
    assert!(matches!(download.step(DownloadEvent::Moved), DownloadAction::Finish(0)));
    assert_eq!(download.stage, Stage::Placed);
}

#[test]
fn a_file_of_one_chunk_is_checked_whole() {
    let one = file(vec![chunk(0, 0, b"abc")], b"abc");
    let mut download = start(one, Vec::new(), ConflictPolicy::KeepBoth);
    download.step(DownloadEvent::TargetSeen(false, false));
    download.step(DownloadEvent::PartialSeen(Some(2)));
    download.step(DownloadEvent::PartialMade);
    assert!(matches!(
        download.step(DownloadEvent::Fetched(all(&[0]))),
        DownloadAction::CheckWhole(_)
    ));
    assert!(matches!(
        download.step(DownloadEvent::WholeChecked(true)),
        DownloadAction::LookAtGoal(_)
    ));
    assert!(matches!(
        download.step(DownloadEvent::GoalSeen(false)),
        DownloadAction::Move(_, _, _)
    ));
}

#[test]
fn files_that_are_there_are_left() {
    let mut same = start(two_chunks(), vec![0], ConflictPolicy::Overwrite);
    assert!(matches!(
        same.step(DownloadEvent::TargetSeen(true, true)),
        DownloadAction::Finish(5)
    ));
    let mut skipped = start(two_chunks(), vec![0], ConflictPolicy::Skip);
    assert!(matches!(
        skipped.step(DownloadEvent::TargetSeen(true, false)),
        DownloadAction::Finish(5)
    ));
    assert_eq!(skipped.stage, Stage::Skipped);
    let mut beside = start(two_chunks(), vec![0], ConflictPolicy::KeepBoth);
    assert!(matches!(
        beside.step(DownloadEvent::TargetSeen(true, false)),
        DownloadAction::FindName(_)
    ));
    beside.step(DownloadEvent::NameFound("/d/a/other".to_owned()));
    assert_eq!(beside.goal, "/d/a/other");
}

#[test]
fn an_earlier_try_is_used() {
    let mut download = start(two_chunks(), vec![3], ConflictPolicy::Skip);
    download.step(DownloadEvent::TargetSeen(false, false));
    match download.step(DownloadEvent::PartialSeen(Some(5))) {
        DownloadAction::CheckChunks(bitmap) => assert_eq!(bitmap, vec![3]),
        _ => panic!(),
    }
    download.step(DownloadEvent::Checked(vec![2]));
    match download.step(DownloadEvent::PartialMade) {
        DownloadAction::Fetch(missing, present) => {
            assert_eq!((missing, present), (vec![0], 2));
        }
        _ => panic!(),
    }
}

#[test]
fn failures_end_a_download() {
    let mut download = start(two_chunks(), vec![0], ConflictPolicy::Skip);
    download.step(DownloadEvent::TargetSeen(false, false));
    download.step(DownloadEvent::PartialSeen(None));
    download.step(DownloadEvent::PartialMade);
    let mut results = all(&[0]);
    results.fail(LanFlowError::Protocol("lost".to_owned()));
    assert!(matches!(
        download.step(DownloadEvent::Fetched(results)),
        DownloadAction::NoteChunks(_)
    ));
    match download.step(DownloadEvent::Noted) {
        DownloadAction::Fail(error) => assert_eq!(error.message(), "协议错误: lost"),
        _ => panic!(),
    }
    let mut wrong = start(two_chunks(), vec![0], ConflictPolicy::Skip);
    wrong.step(DownloadEvent::TargetSeen(false, false));
    wrong.step(DownloadEvent::PartialSeen(None));
    wrong.step(DownloadEvent::PartialMade);
    wrong.step(DownloadEvent::Fetched(all(&[0, 1])));
    wrong.step(DownloadEvent::Noted);
    match wrong.step(DownloadEvent::WholeChecked(false)) {
        DownloadAction::Fail(error) => {
            assert_eq!(error.message(), "协议错误: a/b:c 整文件校验失败");
        }
        _ => panic!(),
    }
    assert_eq!(wrong.stage, Stage::Failed);
    assert!(matches!(
        FileDownload::start(two_chunks(), vec![0], "/d", "/p", ConflictPolicy::Skip, true),
        Err(LanFlowError::Cancelled)
    ));
    let mut outside = two_chunks();
    outside.relative_path = "../x".to_owned();
    assert!(matches!(
        FileDownload::start(outside, vec![0], "/d", "/p", ConflictPolicy::Skip, false),
        Err(LanFlowError::InvalidInput(_))
    ));
}
