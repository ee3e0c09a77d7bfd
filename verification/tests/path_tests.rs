use xcraft::path::{
    extension_of, join_path, normalize_lexically, parent_path, paths_equal, strip_prefix,
};

#[test]
fn join_follows_path_join() {
    assert_eq!(join_path("/a", "b"), "/a/b");
    assert_eq!(join_path("/a/", "b"), "/a/b");
    assert_eq!(join_path("/a", "/b"), "/b");
    assert_eq!(join_path("", "b"), "b");
}

#[test]
fn lexical_normalization() {
    assert_eq!(normalize_lexically("/a/b/../c/./d"), "/a/c/d");
    assert_eq!(normalize_lexically("a/../../b"), "b");
    assert_eq!(normalize_lexically("/.."), "/");
    assert_eq!(normalize_lexically("./x//y/"), "x/y");
}

#[test]
fn parents() {
    assert_eq!(parent_path("/a/b"), Some("/a".to_string()));
    assert_eq!(parent_path("/a//b/./"), Some("/a".to_string()));
    assert_eq!(parent_path("/a"), Some("/".to_string()));
    assert_eq!(parent_path("a"), Some("".to_string()));
    assert_eq!(parent_path("./a"), Some(".".to_string()));
    assert_eq!(parent_path("a/../b"), Some("a/..".to_string()));
    assert_eq!(parent_path("/"), None);
    assert_eq!(parent_path(""), None);
    assert_eq!(parent_path("."), Some("".to_string()));
}

#[test]
fn extensions() {
    assert_eq!(extension_of("/x/App.ipa"), Some("ipa".to_string()));
    assert_eq!(extension_of("/x/a.tar.gz/"), Some("gz".to_string()));
    assert_eq!(extension_of("/x/.hidden"), None);
    assert_eq!(extension_of("/x/noext"), None);
    assert_eq!(extension_of("/x/trailing."), Some("".to_string()));
    assert_eq!(extension_of("/x/.."), None);
    assert_eq!(extension_of("/"), None);
}

#[test]
fn prefixes_and_equality() {
    assert_eq!(strip_prefix("/a/b/c", "/a"), Some("b/c".to_string()));
    assert_eq!(strip_prefix("/a/b/c", "/a/b/c"), Some("".to_string()));
    assert_eq!(strip_prefix("/ab/c", "/a"), None);
    assert_eq!(strip_prefix("a/b", ""), Some("a/b".to_string()));
    assert!(paths_equal("/a//b/./c/", "/a/b/c"));
    assert!(!paths_equal("/a/b", "a/b"));
    assert!(!paths_equal("/a/../b", "/b"));
}

#[test]
fn normal_form_is_its_own_normal_form() {
    for p in ["/a/b/./c/../d", "/..", "a/../../b/./", "./x//y/", "", "../..", "/a/.b/..c"] {
        let once = normalize_lexically(p);
        assert_eq!(normalize_lexically(&once), once);
    }
    assert_eq!(normalize_lexically("/a/b/./c/../d"), "/a/b/d");
}
