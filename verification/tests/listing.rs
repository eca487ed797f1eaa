use lanflow::listing::{id_of_path, list_entries, FileKind, RawEntry};

fn raw(name: &str, kind: FileKind) -> RawEntry {
    RawEntry { name: name.to_owned(), kind, size: 5, modified_ms: 9 }
}

fn names(items: &Vec<RawEntry>, offset: usize, limit: usize, query: &str) -> (Vec<String>, bool) {
    let (entries, more) = list_entries(Some(items), "", offset, limit, query).unwrap();
    (entries.into_iter().map(|entry| entry.display_name).collect(), more)
}

fn sample() -> Vec<RawEntry> {
    vec![
        raw("b.txt", FileKind::File),
        raw("Zeta", FileKind::Directory),
        raw("A.txt", FileKind::File),
        raw("link", FileKind::Symlink),
        raw("alpha", FileKind::Directory),
        raw("pipe", FileKind::Other),
        raw("a.TXT", FileKind::File),
    ]
}

#[test]
fn directories_come_first_then_names() {
    let (list, more) = names(&sample(), 0, 100, "");
    assert_eq!(list, vec!["alpha", "Zeta", "A.txt", "a.TXT", "b.txt"]);
    assert!(!more);
}

#[test]
fn equal_names_keep_their_order() {
    let items = vec![
        raw("X", FileKind::File),
        raw("a", FileKind::File),
        raw("x", FileKind::File),
        raw("A", FileKind::File),
    ];
    assert_eq!(names(&items, 0, 9, "").0, vec!["a", "A", "X", "x"]);
}

#[test]
fn pages_join() {
    let items = sample();
    assert_eq!(names(&items, 0, 2, ""), (vec!["alpha".to_owned(), "Zeta".to_owned()], true));
    assert_eq!(names(&items, 2, 2, ""), (vec!["A.txt".to_owned(), "a.TXT".to_owned()], true));
    assert_eq!(names(&items, 4, 2, ""), (vec!["b.txt".to_owned()], false));
    assert_eq!(names(&items, 3, 2, ""), (vec!["a.TXT".to_owned(), "b.txt".to_owned()], false));
    assert_eq!(names(&items, 9, 2, ""), (Vec::new(), false));
    assert_eq!(names(&items, usize::MAX, usize::MAX, ""), (Vec::new(), false));
}

#[test]
fn queries_ignore_case() {
    assert_eq!(names(&sample(), 0, 9, "TXT").0, vec!["A.txt", "a.TXT", "b.txt"]);
    assert_eq!(names(&sample(), 0, 9, "zeta").0, vec!["Zeta"]);
    assert!(names(&sample(), 0, 9, "link").0.is_empty());
    assert!(names(&sample(), 0, 9, "a longer text than any name").0.is_empty());
}

#[test]
fn entries_are_described() {
    let items = vec![raw("Name", FileKind::File), raw("dir", FileKind::Directory)];
    let (entries, _) = list_entries(Some(&items), "x/y//", 0, 9, "").unwrap();
    assert_eq!(entries[0].display_name, "dir");
    assert!(entries[0].is_dir);
    assert_eq!(entries[0].size, 0);
    assert_eq!(entries[1].relative_path, "x/y/Name");
    assert_eq!(entries[1].raw_name, b"Name".to_vec());
    assert_eq!(entries[1].size, 5);
    assert_eq!(entries[1].modified_ms, 9);
    assert_eq!(entries[1].id, blake3::hash(b"x/y/Name").to_hex().to_string());
    let (top, _) = list_entries(Some(&items), "", 0, 9, "").unwrap();
    assert_eq!(top[1].relative_path, "Name");
    assert_eq!(id_of_path("Name"), top[1].id);
    assert_eq!(top[1].id.len(), 64);
}

#[test]
fn what_is_no_directory_is_refused() {
    let error = list_entries(None, "a", 0, 1, "").unwrap_err();
    assert_eq!(error.message(), "输入无效: 远端路径不是目录");
}

#[test]
fn many_entries_are_sorted() {
    let mut items = Vec::new();
    for n in 0..2000u32 {
        items.push(raw(&format!("f{:04}", (n * 7919) % 2000), FileKind::File));
    }
    let (list, more) = names(&items, 0, 2000, "");
    let mut expected = list.clone();
    expected.sort();
    assert_eq!(list, expected);
    assert_eq!(list.len(), 2000);
    assert!(!more);
}
