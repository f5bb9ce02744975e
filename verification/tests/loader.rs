use mortar::loader::{Lookup, MortarModuleResolver};

#[test]
fn a_module_that_is_there_is_taken_as_written() {
    assert_eq!(MortarModuleResolver::get_path(Some("/src/build"), "./lib", true), "./lib");
    assert_eq!(MortarModuleResolver::get_path(None, "./lib", true), "./lib");
}

#[test]
fn a_module_without_importer_is_taken_as_written() {
    assert_eq!(MortarModuleResolver::get_path(None, "a/../lib", false), "a/../lib");
}

#[test]
fn a_module_is_looked_for_from_its_importer() {
    assert_eq!(MortarModuleResolver::get_path(Some("/src/./build"), "../lib", false), "/src/lib");
    assert_eq!(MortarModuleResolver::get_path(Some("pkg"), "rules/cc", false), "pkg/rules/cc");
    assert_eq!(MortarModuleResolver::get_path(Some("pkg"), "/abs/./m", false), "/abs/m");
}

#[test]
fn the_normal_form_is_that_of_normalize_path() {
    assert_eq!(MortarModuleResolver::get_path(Some("a/.."), "", false), ".");
    assert_eq!(MortarModuleResolver::get_path(Some(""), "x//y/", false), "x/y");
    assert_eq!(MortarModuleResolver::get_path(Some("/a/b/"), "..", false), "/a");
}

#[test]
fn lookup_follows_what_was_found() {
    assert_eq!(MortarModuleResolver::lookup("m".to_owned(), true), Lookup::Load("m".to_owned()));
    assert_eq!(
        MortarModuleResolver::lookup("m".to_owned(), false),
        Lookup::NotFound("m".to_owned())
    );
    assert_eq!(MortarModuleResolver::new(), MortarModuleResolver {});
}
