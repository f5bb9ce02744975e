use mortar::label::ParseErrorKind;
use mortar::path::{Label, Written};

fn label(repository: &str, package: &str, target: &str, exact: bool) -> Label {
    Label {
        repository: repository.to_owned(),
        package: package.to_owned(),
        target: target.to_owned(),
        exact,
    }
}

#[test]
fn path_relative_path() {
    assert_eq!(
        Label::new("a_dir:a_file", "default_package", "cur_dir"),
        Label {
            repository: "default_package".to_owned(),
            package: "cur_dir/a_dir".to_owned(),
            target: "a_file".to_owned(),
            exact: false
        }
    );
}

#[test]
fn path_fully_qualifed_path() {
    assert_eq!(
        Label::new(
            "@another_package!/different_dir/../another_dir:another_file",
            "default_package",
            "cur_dir"
        ),
        Label {
            repository: "another_package".to_owned(),
            package: "/another_dir".to_owned(),
            target: "another_file".to_owned(),
            exact: true
        }
    );
}

#[test]
fn rooted_forms() {
    assert_eq!(Label::parse("//a/b:t", "r", "cur"), Ok(label("r", "/a/b", "t", false)));
    assert_eq!(Label::parse("!/a/./b:t", "r", "cur"), Ok(label("r", "/a/b", "t", true)));
    assert_eq!(Label::parse("@o_-X//a:t", "r", "cur"), Ok(label("o_-X", "/a", "t", false)));
    assert_eq!(Label::parse("//..:t", "r", "cur"), Ok(label("r", "/", "t", false)));
}

#[test]
fn relative_forms() {
    assert_eq!(Label::parse(":t", "r", "cur"), Ok(label("r", "cur", "t", false)));
    assert_eq!(Label::parse("!:t", "r", "cur"), Ok(label("r", "cur", "t", true)));
    assert_eq!(Label::parse("!sub:t", "r", "cur"), Ok(label("r", "cur/sub", "t", true)));
    assert_eq!(Label::parse("../x:t", "r", "a/b"), Ok(label("r", "a/x", "t", false)));
    assert_eq!(Label::parse("/abs:t", "r", "cur"), Ok(label("r", "cur/abs", "t", false)));
    assert_eq!(Label::parse("..:t", "r", "cur"), Ok(label("r", ".", "t", false)));
    assert_eq!(Label::parse("x:t", "r", "/abs"), Ok(label("r", "abs/x", "t", false)));
    assert_eq!(Label::parse("x:t", "r", ""), Ok(label("r", "x", "t", false)));
}

#[test]
fn forms_that_are_not_rooted_are_relative() {
    assert_eq!(Label::parse("//:t", "r", "cur"), Ok(label("r", "cur", "t", false)));
    assert_eq!(Label::parse("!/:t", "r", "cur"), Ok(label("r", "cur", "t", true)));
    assert_eq!(Label::parse("@o:t", "r", "cur"), Ok(label("r", "cur/@o", "t", false)));
    assert_eq!(Label::parse("@o9//a:t", "r", "cur"), Ok(label("r", "cur/@o9/a", "t", false)));
}

#[test]
fn a_path_label_needs_one_colon_and_a_target() {
    for text in ["", "a", "//a", "a:", "a:b:c", "a:b/c", "@o//a", ":"] {
        let error = Label::parse(text, "r", "cur").unwrap_err();
        assert_eq!(error.kind, ParseErrorKind::InvalidLabel, "{:?}", text);
        assert_eq!(error.label, text);
    }
}

fn written(repository: &str, path: &str, target: &str, exact: bool) -> Written {
    Written {
        repository: repository.to_owned(),
        path: path.to_owned(),
        target: target.to_owned(),
        exact,
    }
}

#[test]
fn a_rooted_label_says_its_path_from_the_slash_on() {
    assert_eq!(
        Label::read("@o!/a/../b/:t", "r", "cur"),
        Ok(written("o", "/a/../b/", "t", true))
    );
    assert_eq!(Label::read("//a:t", "r", "cur"), Ok(written("r", "/a", "t", false)));
}

#[test]
fn a_relative_label_says_its_path_behind_the_current_package() {
    assert_eq!(Label::read("a/./b:t", "r", "cur"), Ok(written("r", "cur/a/./b", "t", false)));
    assert_eq!(Label::read("!:t", "r", "cur"), Ok(written("r", "cur/", "t", true)));
    assert_eq!(Label::read("x:t", "r", "//abs"), Ok(written("r", "abs/x", "t", false)));
    assert_eq!(Label::read("x:t", "r", ""), Ok(written("r", "x", "t", false)));
    assert_eq!(Label::read("/:t", "r", "/"), Ok(written("r", "", "t", false)));
}

#[test]
fn what_is_no_label_says_nothing() {
    for text in ["", "a", "a:", "a:b:c", "a:b/c"] {
        let error = Label::read(text, "r", "cur").unwrap_err();
        assert_eq!(error.kind, ParseErrorKind::InvalidLabel, "{:?}", text);
        assert_eq!(error.label, text);
    }
}

#[test]
fn the_package_is_the_one_given() {
    assert_eq!(
        Label::with_package(written("r", "a/../b", "t", true), "b".to_owned()),
        label("r", "b", "t", true)
    );
    assert_eq!(
        Label::with_package(written("r", "a", "t", false), "".to_owned()),
        label("r", "", "t", false)
    );
}
