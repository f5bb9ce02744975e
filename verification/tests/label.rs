use mortar::label::{Label, ParseError, ParseErrorKind};
use regex::Regex;

fn label(repository: &str, package: &str, target: &str) -> Label {
    Label {
        repository: repository.to_owned(),
        package: package.to_owned(),
        target: target.to_owned(),
    }
}

fn failure(kind: ParseErrorKind, text: &str) -> Result<Label, ParseError> {
    Err(ParseError { kind, label: text.to_owned() })
}

#[test]
fn lone_target() {
    assert_eq!(
        Label::new(":a_target", "default_repo", "default_package").unwrap(),
        Label {
            repository: "default_repo".to_owned(),
            package: "default_package".to_owned(),
            target: "a_target".to_owned(),
        }
    );
}

#[test]
fn label_relative_path() {
    assert_eq!(
        Label::new("//a_package:a_target", "default_repo", "current_package").unwrap(),
        Label {
            repository: "default_repo".to_owned(),
            package: "a_package".to_owned(),
            target: "a_target".to_owned(),
        }
    );
}

#[test]
fn label_fully_qualifed_path() {
    assert_eq!(
        Label::new(
            "@another_repo//different_package:another_target",
            "default_repo",
            "current_package"
        )
        .unwrap(),
        Label {
            repository: "another_repo".to_owned(),
            package: "different_package".to_owned(),
            target: "another_target".to_owned(),
        }
    );
}

#[test]
fn resolving_twice_gives_the_same() {
    for text in ["//a/b:c", ":t", "sub", "@r//p", "", "//", "a:b:c"] {
        assert_eq!(Label::new(text, "repo", "pkg"), Label::new(text, "repo", "pkg"));
    }
}

#[test]
fn target_alone_keeps_repository_and_package() {
    for (repository, package) in [("r", "p"), ("repo", "a/../b"), ("x", "."), ("", "")] {
        assert_eq!(Label::new(":t", repository, package), Ok(label(repository, package, "t")));
    }
}

#[test]
fn root_marker_takes_the_package_from_the_root() {
    assert_eq!(Label::new("//pkg:t", "r", "p"), Ok(label("r", "pkg", "t")));
}

#[test]
fn repository_prefix_names_the_repository() {
    assert_eq!(Label::new("@other//pkg:t", "r", "p"), Ok(label("other", "pkg", "t")));
}

#[test]
fn repository_name_may_hold_single_slashes() {
    assert_eq!(
        Label::new("@example.org/some-repo//pkg:t", "r", "p"),
        Ok(label("example.org/some-repo", "pkg", "t"))
    );
}

#[test]
fn package_without_root_is_appended() {
    assert_eq!(Label::new("sub:t", "r", "cur"), Ok(label("r", "cur/sub", "t")));
    assert_eq!(Label::new("sub:t", "r", "."), Ok(label("r", "sub", "t")));
    assert_eq!(Label::new("sub:t", "r", ""), Ok(label("r", "sub", "t")));
    assert_eq!(Label::new("../x:t", "r", "a/b"), Ok(label("r", "a/x", "t")));
    assert_eq!(Label::new("/abs:t", "r", "cur"), Ok(label("r", "cur/abs", "t")));
}

#[test]
fn target_is_taken_from_the_last_segment() {
    assert_eq!(Label::new("//a/b", "r", "p"), Ok(label("r", "a/b", "b")));
    assert_eq!(Label::new("@o//a/b/", "r", "p"), Ok(label("o", "a/b", "b")));
    assert_eq!(Label::new("sub", "r", "cur"), Ok(label("r", "cur/sub", "sub")));
    assert_eq!(Label::new("..", "r", "a/b"), Ok(label("r", "a", "a")));
    assert_eq!(Label::new("/", "r", "p"), Ok(label("r", "p", "p")));
}

#[test]
fn root_path_is_normalized() {
    assert_eq!(Label::new("//a/./b/../c:t", "r", "p"), Ok(label("r", "a/c", "t")));
    assert_eq!(Label::new("//a//b/:t", "r", "p"), Ok(label("r", "a/b", "t")));
    assert_eq!(Label::new("//../a:t", "r", "p"), Ok(label("r", "a", "t")));
    assert_eq!(Label::new("//.:t", "r", "p"), Ok(label("r", "", "t")));
}

#[test]
fn exact_root_keeps_the_path_as_written() {
    assert_eq!(Label::new("!/a/../b:t", "r", "p"), Ok(label("r", "a/../b", "t")));
    assert_eq!(Label::new("@o!/a/./b", "r", "p"), Ok(label("o", "a/./b", "b")));
}

#[test]
fn root_marker_without_package_keeps_the_current_package() {
    assert_eq!(Label::new("//:t", "r", "cur"), Ok(label("r", "cur", "t")));
    assert_eq!(Label::new("@o//:t", "r", "cur"), Ok(label("o", "cur", "t")));
}

#[test]
fn text_that_is_no_label_is_invalid() {
    for text in [
        "", "//", "!/", ":", "x:", "a:b:c", "@repo", "@//pkg:t", "@re po//pkg:t", "@repo//",
        "a$b", "a\nb:t", "//pkg:t\\", "//pkg:t`", "@repo:t", "pkg:tä",
    ] {
        assert_eq!(
            Label::new(text, "r", "p"),
            failure(ParseErrorKind::InvalidLabel, text),
            "{:?}",
            text
        );
    }
}

#[test]
fn root_package_without_target_misses_the_target() {
    for text in ["//.", "//a/..", "!/.", "@o//./", "//.."] {
        assert_eq!(
            Label::new(text, "r", "p"),
            failure(ParseErrorKind::MissingTarget, text),
            "{:?}",
            text
        );
    }
    assert_eq!(Label::new("..", "r", "cur"), failure(ParseErrorKind::MissingTarget, ".."));
    assert_eq!(Label::new(".", "r", ""), failure(ParseErrorKind::MissingTarget, "."));
}

#[test]
fn package_may_hold_what_a_target_may_not() {
    assert_eq!(Label::new("//dé`\\:t", "r", "p"), Ok(label("r", "dé`\\", "t")));
}

#[test]
fn target_characters_are_those_of_the_pattern() {
    let pattern = Regex::new(r#"^[a-zA-Z0-9!%@^_#"$&'()*\-+,;<=>?\[\]{|}~/. ]+$"#).unwrap();
    for code in 0u32..0x250 {
        let Some(c) = char::from_u32(code) else { continue };
        let target = format!("x{}", c);
        let resolved = Label::new(&format!(":{}", target), "r", "p");
        if pattern.is_match(&target) {
            assert_eq!(resolved, Ok(label("r", "p", &target)), "{:?}", c);
        } else {
            assert!(resolved.is_err(), "{:?}", c);
        }
    }
}

#[test]
fn repository_characters_are_those_of_the_pattern() {
    let pattern = Regex::new(r"^[-A-Za-z0-9/._]+$").unwrap();
    for code in 0u32..0x250 {
        let Some(c) = char::from_u32(code) else { continue };
        if c == '/' || c == '!' {
            continue;
        }
        let repository = format!("x{}y", c);
        let resolved = Label::new(&format!("@{}//p:t", repository), "r", "p");
        if pattern.is_match(&repository) {
            assert_eq!(resolved, Ok(label(&repository, "p", "t")), "{:?}", c);
        } else {
            assert!(resolved.is_err(), "{:?}", c);
        }
    }
}

#[test]
fn package_characters_are_those_of_the_pattern() {
    let pattern = fancy_regex::Regex::new(r"^[^\n$:]+?(?=:(?:.|\s)+$|$)").unwrap();
    for code in 0u32..0x250 {
        let Some(c) = char::from_u32(code) else { continue };
        if c == '/' {
            continue;
        }
        let package = format!("x{}y", c);
        let text = format!("{}:t", package);
        let found = pattern.find(&text).unwrap().map(|found| found.as_str().to_owned());
        let resolved = Label::new(&format!("//{}", text), "r", "p");
        if found.as_deref() == Some(package.as_str()) {
            assert_eq!(resolved, Ok(label("r", &package, "t")), "{:?}", c);
        } else {
            assert!(resolved.is_err(), "{:?}", c);
        }
    }
}

#[test]
fn package_characters_are_all_but_three() {
    for code in 0u32..0x250 {
        let Some(c) = char::from_u32(code) else { continue };
        if c == '/' {
            continue;
        }
        let package = format!("x{}y", c);
        let resolved = Label::new(&format!("//{}:t", package), "r", "p");
        if c == '\n' || c == '$' || c == ':' {
            assert!(resolved.is_err(), "{:?}", c);
        } else {
            assert_eq!(resolved, Ok(label("r", &package, "t")), "{:?}", c);
        }
    }
}

#[test]
fn parse_resolves_as_new_does() {
    for text in ["//a/b:c", ":t", "sub", "@r//p", "", "//", "a:b:c", "//.", "!/x/../y"] {
        assert_eq!(Label::parse(text, "repo", "pkg"), Label::new(text, "repo", "pkg"));
    }
    assert_eq!(Label::parse("//a/./b:t", "r", "p"), Ok(label("r", "a/b", "t")));
    assert_eq!(Label::parse("//a/b", "r", "p"), Ok(label("r", "a/b", "b")));
    assert_eq!(Label::parse("//a/..", "r", "p"), failure(ParseErrorKind::MissingTarget, "//a/.."));
}

#[test]
fn a_package_behind_a_root_marker_does_not_follow_the_current_package() {
    for text in ["//a/b:c", "@r//p", "!/x/../y:t", "//x"] {
        assert_eq!(Label::new(text, "repo", "one"), Label::new(text, "repo", "two/three"));
    }
}
