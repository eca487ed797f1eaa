use lanflow::paths::{
    check_confined, check_no_symlink, join_parts, path_parts, push_name, safe_destination_component,
    safe_destination_path, strip_root, unreachable_root, validate_relative_path,
};

#[test]
fn rejects_path_traversal() {
    assert!(validate_relative_path("../secret").is_err());
    assert!(validate_relative_path("/etc/passwd").is_err());
}

#[test]
fn escapes_cross_platform_reserved_names() {
    assert!(safe_destination_component("CON").starts_with("~lf-"));
    assert!(safe_destination_component("bad:name").starts_with("~lf-"));
    assert_eq!(safe_destination_component("normal.txt"), "normal.txt");
}

#[test]
fn relative_paths_are_cut_into_parts() {
    assert_eq!(validate_relative_path("").unwrap(), Vec::<String>::new());
    assert_eq!(validate_relative_path(".").unwrap(), Vec::<String>::new());
    assert_eq!(validate_relative_path("./a//b/./c/").unwrap(), vec!["a", "b", "c"]);
    assert_eq!(validate_relative_path("..a/b..").unwrap(), vec!["..a", "b.."]);
}

#[test]
fn clean_paths_stay() {
    for path in ["", "./a//b/./c/", "..a/b..", "x"] {
        let parts = validate_relative_path(path).unwrap();
        let joined = join_parts(&parts);
        assert_eq!(validate_relative_path(&joined).unwrap(), parts);
    }
}

#[test]
fn refusals_say_why() {
    assert_eq!(
        validate_relative_path("/a").unwrap_err().message(),
        "输入无效: 不允许绝对远端路径"
    );
    assert_eq!(
        validate_relative_path("a/../b").unwrap_err().message(),
        "输入无效: 路径包含非法组件"
    );
    assert_eq!(
        validate_relative_path("./..").unwrap_err().message(),
        "输入无效: 路径包含非法组件"
    );
    assert_eq!(unreachable_root("gone").message(), "输入无效: 分享目录不可访问: gone");
    assert_eq!(check_no_symlink(true).unwrap_err().message(), "输入无效: 符号链接不允许访问");
    assert!(check_no_symlink(false).is_ok());
}

#[test]
fn confinement_goes_by_whole_names() {
    assert!(check_confined("/srv/share", "/srv/share").is_ok());
    assert!(check_confined("/srv/share", "/srv/share/a/b").is_ok());
    assert!(check_confined("/", "/srv").is_ok());
    assert_eq!(
        check_confined("/srv/share", "/srv/shared").unwrap_err().message(),
        "输入无效: 路径超出分享目录"
    );
    assert!(check_confined("/srv/share", "/srv").is_err());
    assert!(check_confined("/srv/share", "srv/share/a").is_err());
    assert_eq!(strip_root("/srv/share/a/b", "/srv/share").unwrap(), vec!["a", "b"]);
    assert!(strip_root("/srv", "/srv/share").is_none());
}

#[test]
fn safe_names() {
    let escaped = [
        ("", "~lf-"),
        (".", "~lf-2E"),
        ("..", "~lf-2E2E"),
        ("a.", "~lf-612E"),
        ("a ", "~lf-6120"),
        ("aux", "~lf-617578"),
        ("Lpt4", "~lf-4C707434"),
        ("a/b", "~lf-612F62"),
        ("a\\b", "~lf-615C62"),
        ("a\0", "~lf-6100"),
        ("~lf-61", "~lf-7E6C662D3631"),
        ("é?", "~lf-C3A93F"),
    ];
    for (name, stored) in escaped {
        assert_eq!(safe_destination_component(name), stored);
    }
    for name in ["COM5", "CON.txt", "名字", "~lf", ".hidden", "a b"] {
        assert_eq!(safe_destination_component(name), name);
    }
}

#[test]
fn safe_names_differ() {
    let names = ["", "a", "a.", "A.", "~lf-", "~lf-2E", ".", "con", "CON", "Con"];
    for (i, a) in names.iter().enumerate() {
        for b in &names[i + 1..] {
            assert_ne!(safe_destination_component(a), safe_destination_component(b));
        }
    }
}

#[test]
fn destinations_stay_below_the_root() {
    assert_eq!(safe_destination_path("/d", "a/CON/b:c").unwrap(), "/d/a/~lf-434F4E/~lf-623A63");
    assert_eq!(safe_destination_path("/d/", "a").unwrap(), "/d/a");
    assert_eq!(safe_destination_path("/", "a").unwrap(), "/a");
    assert_eq!(safe_destination_path("/d", "./").unwrap(), "/d");
    assert!(safe_destination_path("/d", "a/../../b").is_err());
    let stored = safe_destination_path("/d", "x\\..\\y/z").unwrap();
    assert!(check_confined("/d", &stored).is_ok());
    assert_eq!(path_parts(&stored).len(), 3);
}

#[test]
fn joining() {
    assert_eq!(join_parts(&["a".to_owned(), "b".to_owned()]), "a/b");
    assert_eq!(join_parts(&[]), "");
    assert_eq!(push_name("", "a"), "a");
    assert_eq!(push_name("x", "a"), "x/a");
}
