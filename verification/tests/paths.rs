//! URIs and paths.

use lsp4a::path::{join, language_id, path_before, resolve, show_path};
use lsp4a::uri::{path_to_uri, try_uri_to_path, uri_to_path};

#[test]
fn uri_encodes_spaces_and_non_ascii() {
    let uri = path_to_uri("/tmp/a dir/héllo.py");
    assert_eq!(uri, "file:///tmp/a%20dir/h%C3%A9llo.py");
}

#[test]
fn a_path_comes_back_from_its_uri() {
    for path in ["/tmp/a dir/héllo.py", "/%41/%/+-._~", "/🦀/#?&=", "", "relative"] {
        assert_eq!(uri_to_path(&path_to_uri(path)), path);
    }
}

#[test]
fn escapes_decode_to_bytes() {
    assert_eq!(uri_to_path("file:///caf%C3%A9"), "/café");
    assert_eq!(uri_to_path("file:///caf%c3%a9"), "/café");
    // bytes that are no UTF-8 are replaced
    assert_eq!(uri_to_path("file:///a%FFb"), "/a\u{fffd}b");
}

#[test]
fn what_is_no_escape_stands_for_itself() {
    assert_eq!(uri_to_path("/plain"), "/plain");
    assert_eq!(uri_to_path("file:///100%"), "/100%");
    assert_eq!(uri_to_path("file:///a%4"), "/a%4");
    assert_eq!(uri_to_path("file:///a%zz"), "/a%zz");
    // an escape may end the URI
    assert_eq!(uri_to_path("file:///a%20"), "/a ");
    // a sign in front of one digit is a number too
    assert_eq!(uri_to_path("file:///a%+1b"), "/a\u{1}b");
}

#[test]
fn an_escape_that_splits_a_character_is_not_decoded() {
    assert!(try_uri_to_path("file:///%aéb").is_none());
    assert!(try_uri_to_path("file:///%éb").is_some());
}

#[test]
fn files_are_named_relative_to_a_directory() {
    assert_eq!(join("/ws", "a.py"), "/ws/a.py");
    assert_eq!(join("/ws/", "a.py"), "/ws/a.py");
    assert_eq!(join("/ws", "/b/a.py"), "/b/a.py");
    assert_eq!(join("", "a.py"), "a.py");
    assert_eq!(join("/ws", ""), "/ws/");
}

#[test]
fn a_file_that_is_not_there_is_named() {
    assert_eq!(resolve("/ws", "a.py", Ok("/real/a.py".to_string())), Ok("/real/a.py".to_string()));
    assert_eq!(
        resolve("/ws", "a.py", Err("No such file".to_string())),
        Err("file not found: /ws/a.py: No such file".to_string())
    );
}

#[test]
fn paths_are_shown_relative_to_the_workspace() {
    assert_eq!(show_path("/ws", "/ws/src/a.py"), "src/a.py");
    assert_eq!(show_path("/ws/", "/ws//src/./a.py/"), "src/./a.py");
    assert_eq!(show_path("/ws", "/wsx/a.py"), "/wsx/a.py");
    assert_eq!(show_path("/ws", "/ws"), "");
    assert_eq!(show_path("/", "/a"), "a");
    assert_eq!(show_path("", "a/b"), "a/b");
    assert_eq!(show_path(".", "./a"), "a");
    assert_eq!(show_path("/ws", ""), "");
}

#[test]
fn paths_are_ordered_by_component() {
    assert!(path_before("/a/b.py", "/a.py"));
    assert!(!path_before("/a.py", "/a/b.py"));
    assert!(path_before("/a", "/a/b"));
    assert!(!path_before("/a//b", "/a/./b"));
    assert!(path_before("/a", "."));
    assert!(path_before(".", ".."));
    assert!(path_before("..", "a"));
}

#[test]
fn the_extension_tells_the_language() {
    for (path, language) in [
        ("/a.py", "python"),
        ("/a.pyi", "python"),
        ("/a.go", "go"),
        ("/a.rs", "rust"),
        ("/a.ts", "typescript"),
        ("/a.tsx", "typescriptreact"),
        ("/a.js", "javascript"),
        ("/a.mjs", "javascript"),
        ("/a.cjs", "javascript"),
        ("/a.jsx", "javascriptreact"),
        ("/a.tar.py", "python"),
        ("/a.PY", "plaintext"),
        ("/.py", "plaintext"),
        ("/a.", "plaintext"),
        ("/a", "plaintext"),
        ("/a.py/..", "plaintext"),
        ("", "plaintext"),
    ] {
        assert_eq!(language_id(path), language, "{path}");
    }
}
