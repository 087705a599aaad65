use hitch::paths::{display_under_home, file_name_of, path_join, path_starts_with, shorten_home};
use hitch::text::chars_of;

fn name(p: &str) -> Option<String> {
    file_name_of(&chars_of(p)).map(|v| v.into_iter().collect())
}

#[test]
fn joining_paths() {
    assert_eq!(path_join("/a", "b"), "/a/b");
    assert_eq!(path_join("/a/", "b"), "/a/b");
    assert_eq!(path_join("/a", "/b"), "/b");
    assert_eq!(path_join("", "b"), "b");
}

#[test]
fn file_names() {
    assert_eq!(name("/usr/bin/zsh"), Some("zsh".to_string()));
    assert_eq!(name("a/b/"), Some("b".to_string()));
    assert_eq!(name("a/b/."), Some("b".to_string()));
    assert_eq!(name("a/.."), None);
    assert_eq!(name("/"), None);
    assert_eq!(name(""), None);
}

#[test]
fn prefixes_and_parents() {
    assert!(path_starts_with("/a/b", "/a"));
    assert!(path_starts_with("/a", "/a"));
    assert!(!path_starts_with("/ab", "/a"));
    assert_eq!(shorten_home("/home/u/x/y", Some("/home/u")), "~/x/y");
    assert_eq!(shorten_home("/home/user", Some("/home/u")), "/home/user");
}

#[test]
fn home_shorthand() {
    assert_eq!(shorten_home("/home/u/src", Some("/home/u")), "~/src");
    assert_eq!(shorten_home("/home/u", Some("/home/u")), "~");
    assert_eq!(shorten_home("/tmp", Some("/home/u")), "/tmp");
    assert_eq!(shorten_home("/tmp", None), "/tmp");
    assert_eq!(display_under_home("/p", Some("x")), "~/x");
}
