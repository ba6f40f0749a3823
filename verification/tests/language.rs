use loc::Files;
use loc::get_language_name;
use loc::is_hidden;

#[test]
fn known_extensions_resolve() {
    assert_eq!(get_language_name("rs"), "Rust");
    assert_eq!(get_language_name("py"), "Python");
    assert_eq!(get_language_name("c"), "C");
    assert_eq!(get_language_name("cpp"), "C++");
    assert_eq!(get_language_name("java"), "Java");
    assert_eq!(get_language_name("js"), "JavaScript");
    assert_eq!(get_language_name("sh"), "Shell");
    assert_eq!(get_language_name("sql"), "SQL");
    assert_eq!(get_language_name("html"), "HTML");
}

#[test]
fn unknown_extensions_are_unrecognized() {
    assert_eq!(get_language_name("xyz"), "unrecognized");
    assert_eq!(get_language_name(""), "unrecognized");
    assert_eq!(get_language_name("RS"), "unrecognized");
}

#[test]
fn hidden_names_start_with_a_dot() {
    assert!(is_hidden(".git"));
    assert!(is_hidden("."));
    assert!(!is_hidden("src"));
    assert!(!is_hidden(""));
    assert!(!is_hidden("a.rs"));
}

#[test]
fn extension_follows_the_last_dot() {
    assert_eq!(Files::get_extension_from_filename("a/b/c.rs"), Some("rs"));
    assert_eq!(Files::get_extension_from_filename("main.rs"), Some("rs"));
    assert_eq!(Files::get_extension_from_filename("archive.tar.gz"), Some("gz"));
    assert_eq!(Files::get_extension_from_filename(".a.b"), Some("b"));
    assert_eq!(Files::get_extension_from_filename("foo."), Some(""));
}

#[test]
fn names_without_an_extension_have_none() {
    assert_eq!(Files::get_extension_from_filename("Makefile"), None);
    assert_eq!(Files::get_extension_from_filename(".gitignore"), None);
    assert_eq!(Files::get_extension_from_filename("dir.d/file"), None);
    assert_eq!(Files::get_extension_from_filename(""), None);
    assert_eq!(Files::get_extension_from_filename("a/"), None);
}

#[test]
fn trailing_separators_are_ignored() {
    assert_eq!(Files::get_extension_from_filename("a.rs/"), Some("rs"));
    assert_eq!(Files::get_extension_from_filename("d/a.tar.gz//"), Some("gz"));
    assert_eq!(Files::get_extension_from_filename("//"), None);
}

#[test]
fn dot_components_have_no_extension() {
    assert_eq!(Files::get_extension_from_filename(".."), None);
    assert_eq!(Files::get_extension_from_filename("x/.."), None);
    assert_eq!(Files::get_extension_from_filename("a.b/.."), None);
    assert_eq!(Files::get_extension_from_filename("."), None);
    assert_eq!(Files::get_extension_from_filename("..."), Some(""));
}
