use netidx::path::Path;

#[test]
fn new_is_idempotent() {
    for s in ["", "/", "//", "/a//b/", "a/b", "/foo\\/bar//baz", "x\\\\//y", "/a\\"] {
        let p = Path::new(s);
        assert_eq!(Path::new(p.as_str()), p);
    }
}

#[test]
fn new_canonicalizes() {
    assert_eq!(Path::new("/a//b/").as_str(), "/a/b");
    assert_eq!(Path::new("//").as_str(), "/");
    assert_eq!(Path::new("").as_str(), "");
    assert_eq!(Path::new("a//b").as_str(), "a/b");
    assert_eq!(Path::new("/a\\//b").as_str(), "/a\\//b");
}

#[test]
fn parts_respect_escapes() {
    assert_eq!(Path::parts("/foo/bar/baz"), vec!["foo", "bar", "baz"]);
    assert_eq!(Path::parts("/foo\\/bar/baz"), vec!["foo\\/bar", "baz"]);
    assert_eq!(Path::parts("/foo\\\\/bar/baz"), vec!["foo\\\\", "bar", "baz"]);
    assert_eq!(Path::parts("/foo\\\\\\/bar/baz"), vec!["foo\\\\\\/bar", "baz"]);
    assert!(Path::parts("/").is_empty());
}

#[test]
fn dirname_basename_append() {
    for s in ["/a/b", "/foo/bar/baz", "/x\\/y/z", "a/b/c"] {
        let p = Path::new(s);
        let d = Path::dirname(p.as_str()).unwrap();
        let b = Path::basename(p.as_str()).unwrap();
        assert_eq!(Path::new(d).append(b), p);
    }
}

#[test]
fn dirname_examples() {
    assert_eq!(Path::dirname("/foo/bar/baz"), Some("/foo/bar"));
    assert_eq!(Path::dirname("/"), None);
    assert_eq!(Path::dirname("/foo"), None);
    assert_eq!(Path::dirname_with_sep("/foo/bar/baz"), Some("/foo/bar/"));
    assert_eq!(Path::dirname_with_sep("/foo"), None);
}

#[test]
fn basename_examples() {
    assert_eq!(Path::basename("/foo/bar/baz"), Some("baz"));
    assert_eq!(Path::basename("foo"), Some("foo"));
    assert_eq!(Path::basename("foo/bar"), Some("bar"));
    assert_eq!(Path::basename(""), None);
    assert_eq!(Path::basename("/"), None);
    assert_eq!(Path::basename("/a\\/b"), Some("a\\/b"));
}

#[test]
fn dirnames_examples() {
    assert_eq!(Path::dirnames("/a/b/c"), vec!["/", "/a", "/a/b", "/a/b/c"]);
    assert_eq!(Path::dirnames("/"), vec!["/"]);
    assert_eq!(Path::dirnames("/a"), vec!["/", "/a"]);
    assert_eq!(
        Path::dirnames("/some/path/ending/in/foo"),
        vec!["/", "/some", "/some/path", "/some/path/ending", "/some/path/ending/in", "/some/path/ending/in/foo"]
    );
    assert_eq!(Path::dirnames("/a\\/b/c"), vec!["/", "/a\\/b", "/a\\/b/c"]);
}

#[test]
fn append_examples() {
    let p = Path::root().append("/bar").append("//baz//////foo/");
    assert_eq!(p.as_str(), "/bar/baz/foo");
    let p = Path::root().append("bar").append("baz");
    assert_eq!(p.as_str(), "/bar/baz");
    assert_eq!(Path::root().append(""), Path::root());
}

#[test]
fn levels_examples() {
    assert_eq!(Path::levels("/foo/bar/baz"), 3);
    assert_eq!(Path::levels("/"), 0);
    assert_eq!(Path::levels("/a\\/b"), 1);
}

#[test]
fn separator_search() {
    assert_eq!(Path::rfind_sep("/foo/bar/baz"), Some(8));
    assert_eq!(Path::rfind_sep(""), None);
    assert_eq!(Path::find_sep("foo/bar/baz"), Some(3));
    assert_eq!(Path::find_sep(""), None);
    assert_eq!(Path::find_sep("a\\/b/c"), Some(4));
    assert_eq!(Path::rfind_sep("a/b\\/c"), Some(1));
    assert_eq!(Path::find_sep("a\\\\/b"), Some(3));
    assert_eq!(Path::find_sep("foo\\/bar/baz"), Some(8));
}

#[test]
fn separator_positions_are_byte_offsets() {
    assert_eq!(Path::rfind_sep("é/"), Some(2));
    assert_eq!(Path::find_sep("é/"), Some(2));
    assert_eq!(Path::rfind_sep("/é/ü"), Some(3));
    let s = "/ab/é\\/c";
    let i = Path::rfind_sep(s).unwrap();
    assert_eq!(&s[i..i + 1], "/");
}

#[test]
fn root_and_basename_append() {
    for s in ["/foo", "/a\\/b"] {
        let p = Path::new(s);
        assert_eq!(Path::dirname(p.as_str()), None);
        let b = Path::basename(p.as_str()).unwrap();
        assert_eq!(Path::root().append(b), p);
    }
}

#[test]
fn escape_and_unescape() {
    assert_eq!(Path::escape("foo/bar"), "foo\\/bar");
    assert_eq!(Path::escape("\\hello world"), "\\\\hello world");
    assert_eq!(Path::unescape("foo\\/bar"), "foo/bar");
    assert_eq!(Path::unescape("\\\\hello world"), "\\hello world");
    assert_eq!(Path::unescape("a\\b"), "a\\b");
    assert_eq!(Path::unescape("a\\"), "a\\");
    assert_eq!(Path::unescape(&Path::escape("x/y\\z")), "x/y\\z");
}

#[test]
fn absolute_and_root() {
    assert!(Path::is_absolute("/a"));
    assert!(!Path::is_absolute("a/b"));
    assert!(!Path::is_absolute(""));
    assert_eq!(Path::root().as_str(), "/");
}
