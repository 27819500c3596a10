use rusk::path::NormarizedPath;
use rusk::taskkey::{
    NotPathTaskString, NotPhonyTaskString, PathLiteralFault, PathTaskString, PhonyNameFault,
    PhonyTaskString, TaskKey, TaskKeyParseError, TaskKeyRelative,
};
use rusk::text::{compare_str, split_lines};

#[test]
fn phony_name_accepted() {
    let p = PhonyTaskString::try_from("build-all_2".to_string()).ok().unwrap();
    assert_eq!(p.as_str(), "build-all_2");
}

#[test]
fn phony_name_errors() {
    assert_eq!(
        PhonyTaskString::try_from(String::new()).err().unwrap(),
        NotPhonyTaskString(PhonyNameFault::Empty)
    );
    assert_eq!(
        PhonyTaskString::try_from("1abc".to_string()).err().unwrap(),
        NotPhonyTaskString(PhonyNameFault::FirstNotAlphabetic)
    );
    assert_eq!(
        PhonyTaskString::try_from("ab c".to_string()).err().unwrap(),
        NotPhonyTaskString(PhonyNameFault::DisallowedCharacter)
    );
}

#[test]
fn path_literal_parsing() {
    let p = PathTaskString::try_from("out/a".to_string()).ok().unwrap();
    assert_eq!(p.as_str(), "out/a");
    assert_eq!(
        PathTaskString::try_from("abc".to_string()).err().unwrap(),
        NotPathTaskString(PathLiteralFault::NoSeparatorOrDot)
    );
    assert_eq!(
        PathTaskString::try_from(String::new()).err().unwrap(),
        NotPathTaskString(PathLiteralFault::Empty)
    );
}

#[test]
fn task_key_relative_parsing() {
    assert!(matches!(
        TaskKeyRelative::try_from("build".to_string()),
        Ok(TaskKeyRelative::Phony(_))
    ));
    assert!(matches!(
        TaskKeyRelative::try_from("out.txt".to_string()),
        Ok(TaskKeyRelative::File(_))
    ));
    assert!(matches!(
        TaskKeyRelative::try_from(String::new()),
        Err(TaskKeyParseError::Empty)
    ));
    assert!(matches!(
        TaskKeyRelative::try_from("bad key".to_string()),
        Err(TaskKeyParseError::Phony(NotPhonyTaskString(PhonyNameFault::DisallowedCharacter)))
    ));
}

#[test]
fn task_key_relative_order() {
    let a = TaskKeyRelative::try_from("zeta".to_string()).ok().unwrap();
    let f = TaskKeyRelative::try_from("./a".to_string()).ok().unwrap();
    let b = TaskKeyRelative::try_from("alpha".to_string()).ok().unwrap();
    assert_eq!(a.cmp(&f), std::cmp::Ordering::Less);
    assert_eq!(f.cmp(&a), std::cmp::Ordering::Greater);
    assert_eq!(b.cmp(&a), std::cmp::Ordering::Less);
    assert_eq!(a.cmp(&a), std::cmp::Ordering::Equal);
}

#[test]
fn file_key_resolves_against_base() {
    let base = NormarizedPath::from_absolute("/proj/sub");
    let k = TaskKeyRelative::try_from("../out/./bin.txt".to_string()).ok().unwrap();
    let key = k.into_task_key(&base);
    assert!(matches!(key, TaskKey::File(_)));
    assert_eq!(key.as_str(), "/proj/out/bin.txt");
    let p = TaskKeyRelative::try_from("lint".to_string()).ok().unwrap();
    assert_eq!(p.into_task_key(&base).as_str(), "lint");
}

#[test]
fn same_key_compares_kind_and_text() {
    let base = NormarizedPath::from_absolute("/p");
    let a = TaskKeyRelative::try_from("a".to_string()).ok().unwrap().into_task_key(&base);
    let a2 = TaskKeyRelative::try_from("a".to_string()).ok().unwrap().into_task_key(&base);
    let f = TaskKeyRelative::try_from("./a".to_string()).ok().unwrap().into_task_key(&base);
    assert!(a.same_key(&a2));
    assert!(!a.same_key(&f));
    assert_eq!(f.as_str(), "/p/a");
}

#[test]
fn normalised_paths() {
    assert_eq!(NormarizedPath::from_absolute("/a/./b/../c/").as_abs_str(), "/a/c");
    let base = NormarizedPath::from_absolute("/a");
    assert_eq!(base.resolve("/etc/x").as_abs_str(), "/etc/x");
    assert_eq!(base.resolve("b/c").as_abs_str(), "/a/b/c");
    assert_eq!(NormarizedPath::from_absolute("/").resolve("b").as_abs_str(), "/b");
}

#[test]
fn parent_directories() {
    let p = NormarizedPath::from_absolute("/a/b");
    let parent = p.into_parent().unwrap();
    assert_eq!(parent.as_abs_str(), "/a");
    let root = parent.into_parent().unwrap();
    assert_eq!(root.as_abs_str(), "/");
    assert!(root.into_parent().is_none());
}

#[test]
fn short_forms() {
    let cwd = NormarizedPath::from_absolute("/home/u/proj");
    assert_eq!(NormarizedPath::from_absolute("/home/u/proj/sub").as_short_str(&cwd), "./sub");
    assert_eq!(NormarizedPath::from_absolute("/home/u/proj").as_short_str(&cwd), ".");
    assert_eq!(NormarizedPath::from_absolute("/home/u/proj/a.txt").as_short_str(&cwd), "a.txt");
    assert_eq!(NormarizedPath::from_absolute("/home/u/proj/x/y").as_short_str(&cwd), "x/y");
    assert_eq!(NormarizedPath::from_absolute("/x").as_short_str(&cwd), "/x");
    assert_eq!(NormarizedPath::from_absolute("/home/u/other").as_short_str(&cwd), "../other");
    let cwd = NormarizedPath::from_absolute("/a/c");
    assert_eq!(NormarizedPath::from_absolute("/a/b").as_short_str(&cwd), "/a/b");
}

#[test]
fn lines_of_scripts() {
    assert_eq!(split_lines("a\nb\r\nc"), vec!["a".to_string(), "b".to_string(), "c".to_string()]);
    assert_eq!(split_lines("a\n"), vec!["a".to_string()]);
    assert_eq!(split_lines(""), Vec::<String>::new());
    assert_eq!(split_lines("\n\n"), vec![String::new(), String::new()]);
    assert_eq!(split_lines("x\r"), vec!["x\r".to_string()]);
    assert_eq!(split_lines("x"), "x".lines().map(|l| l.to_string()).collect::<Vec<_>>());
}

#[test]
fn string_order() {
    assert_eq!(compare_str("abc", "abd"), std::cmp::Ordering::Less);
    assert_eq!(compare_str("ab", "abc"), std::cmp::Ordering::Less);
    assert_eq!(compare_str("b", "abc"), std::cmp::Ordering::Greater);
    assert_eq!(compare_str("é", "é"), std::cmp::Ordering::Equal);
    assert_eq!(compare_str("Z", "a"), "Z".cmp("a"));
}

#[test]
fn borrowed_key_resolves_like_owned() {
    let base = NormarizedPath::from_absolute("/r");
    let k = TaskKeyRelative::try_from("sub/../x.o".to_string()).ok().unwrap();
    assert_eq!(k.as_task_key(&base).as_str(), "/r/x.o");
    assert_eq!(k.into_task_key(&base).as_str(), "/r/x.o");
}

#[test]
fn fault_messages() {
    assert_eq!(
        NotPhonyTaskString(PhonyNameFault::FirstNotAlphabetic).message(),
        "first character must be alphabetic"
    );
    assert_eq!(
        NotPathTaskString(PathLiteralFault::NoSeparatorOrDot).message(),
        "Path must contain '/' or '.'"
    );
    assert_eq!(TaskKeyParseError::Empty.message(), "empty string is not allowed");
    assert!(matches!(
        TaskKeyRelative::try_from("-x".to_string()),
        Err(TaskKeyParseError::Phony(NotPhonyTaskString(PhonyNameFault::FirstNotAlphabetic)))
    ));
}
