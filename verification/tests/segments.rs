use mortar::segments::{append_path, join_segments, push_segments, strip_leading_slashes};
use std::path::PathBuf;

#[test]
fn segments_settle_onto_a_stack() {
    let mut stack = vec!["a".to_owned(), "b".to_owned()];
    push_segments(&mut stack, "../c/./d//");
    assert_eq!(stack, vec!["a".to_owned(), "c".to_owned(), "d".to_owned()]);
    push_segments(&mut stack, "../../../../e");
    assert_eq!(stack, vec!["e".to_owned()]);
    push_segments(&mut stack, "");
    assert_eq!(stack, vec!["e".to_owned()]);
}

#[test]
fn settled_segments() {
    let cases: [(&str, &[&str]); 12] = [
        ("", &[]),
        ("/", &[]),
        ("a", &["a"]),
        ("/a/b", &["a", "b"]),
        ("a//b/", &["a", "b"]),
        ("./a/./b", &["a", "b"]),
        ("a/../b", &["b"]),
        ("a/b/../../c", &["c"]),
        ("../a", &["a"]),
        ("a/../..", &[]),
        ("...", &["..."]),
        (".a/..b", &[".a", "..b"]),
    ];
    for (text, names) in cases {
        let mut stack = Vec::new();
        push_segments(&mut stack, text);
        assert_eq!(stack, names.iter().map(|name| name.to_string()).collect::<Vec<_>>());
    }
}

#[test]
fn settling_twice_changes_nothing() {
    for text in ["a/../b/./c//d", "/x/../../y/", "..", "a/b/c", "./", "/a/./b/.."] {
        let mut stack = Vec::new();
        push_segments(&mut stack, text);
        let once = join_segments(&stack);
        let mut again = Vec::new();
        push_segments(&mut again, &once);
        assert_eq!(join_segments(&again), once, "{:?}", text);
    }
}

#[test]
fn segments_are_joined_by_slashes() {
    assert_eq!(join_segments(&vec![]), "");
    assert_eq!(join_segments(&vec!["a".to_owned()]), "a");
    assert_eq!(join_segments(&vec!["a".to_owned(), "b".to_owned(), "c".to_owned()]), "a/b/c");
}

#[test]
fn leading_slashes_are_stripped() {
    for (text, rest) in [("", ""), ("/", ""), ("///", ""), ("a", "a"), ("//a//b/", "a//b/")] {
        assert_eq!(strip_leading_slashes(text), rest, "{:?}", text);
    }
}

#[test]
fn appended_paths() {
    let cases = [
        ("/test", "/b", "/b"),
        ("/tmp/a b", "/tmp/c/7", "/tmp/c/7"),
        ("/root", "x/y", "/root/x/y"),
        ("/root/", "x", "/root/x"),
        ("", "x", "x"),
        ("a", "", "a/"),
        ("", "", ""),
        ("/", "x", "/x"),
    ];
    for (base, path, whole) in cases {
        assert_eq!(append_path(base, path), whole, "{:?} {:?}", base, path);
        let mut buffer = PathBuf::from(base);
        buffer.push(path);
        assert_eq!(buffer.to_str().unwrap(), whole, "{:?} {:?}", base, path);
    }
}
