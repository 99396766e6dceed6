use lsp_core::paths::relative_to_root;
use lsp_core::uri::{from_file_uri, to_file_uri, UriStyle};

#[test]
fn uri_a_unix_path_round_trips() {
    let uri = to_file_uri("/ws/src/a.cs", UriStyle::Encoded).expect("absolute");
    assert_eq!(uri, "file:///ws/src/a.cs");
    assert_eq!(from_file_uri(&uri), Some("/ws/src/a.cs".to_string()));
}

#[test]
fn uri_a_drive_colon_is_spelled_per_style_and_decodes_to_one_path() {
    let plain = to_file_uri("C:/ws/a.cs", UriStyle::Plain).expect("absolute");
    let encoded = to_file_uri("C:/ws/a.cs", UriStyle::Encoded).expect("absolute");
    assert_eq!(plain, "file:///C:/ws/a.cs");
    assert_eq!(encoded, "file:///C%3A/ws/a.cs");
    assert_eq!(from_file_uri(&plain), Some("C:/ws/a.cs".to_string()));
    assert_eq!(from_file_uri(&encoded), Some("C:/ws/a.cs".to_string()));
    assert_eq!(from_file_uri("file:///c%3a/ws/a.cs"), Some("C:/ws/a.cs".to_string()));
}

#[test]
fn uri_a_relative_path_has_no_uri() {
    assert_eq!(to_file_uri("ws/a.cs", UriStyle::Plain), None);
    assert_eq!(to_file_uri("", UriStyle::Encoded), None);
}

#[test]
fn uri_characters_outside_the_kept_set_are_percent_encoded() {
    let uri = to_file_uri("/ws/a b/café.cs", UriStyle::Encoded).expect("absolute");
    assert_eq!(uri, "file:///ws/a%20b/caf%C3%A9.cs");
    assert_eq!(from_file_uri(&uri), Some("/ws/a b/café.cs".to_string()));
}

#[test]
fn uri_other_schemes_hosts_and_bad_escapes_name_no_file() {
    assert_eq!(from_file_uri("source-generated:/Foo.g.cs"), None);
    assert_eq!(from_file_uri("file://server/share/a.cs"), None);
    assert_eq!(from_file_uri("file:///ws/%zz"), None);
    assert_eq!(from_file_uri("file:///ws/%C3"), None);
    assert_eq!(from_file_uri("file://localhost/ws/a.cs"), Some("/ws/a.cs".to_string()));
}

#[test]
fn paths_a_path_under_the_root_is_made_relative() {
    assert_eq!(relative_to_root("/ws", "/ws/src/a.cs"), Some("src/a.cs".to_string()));
    assert_eq!(relative_to_root("/ws/", "/ws/src/a.cs"), Some("src/a.cs".to_string()));
    assert_eq!(relative_to_root("C:/repo", "C:/repo/a.cs"), Some("a.cs".to_string()));
}

#[test]
fn paths_anything_not_strictly_below_the_root_is_refused() {
    assert_eq!(relative_to_root("/ws", "/ws"), None);
    assert_eq!(relative_to_root("/ws", "/ws/"), None);
    assert_eq!(relative_to_root("/ws", "/wsx/a.cs"), None);
    assert_eq!(relative_to_root("/ws", "/elsewhere/a.cs"), None);
    assert_eq!(relative_to_root("/ws", "/ws/../etc/passwd"), None);
    assert_eq!(relative_to_root("/ws", "/ws/a/./b"), None);
    assert_eq!(relative_to_root("/ws", "/ws/a//b"), None);
    assert_eq!(relative_to_root("/ws", "/ws/.hidden/a"), Some(".hidden/a".to_string()));
    assert_eq!(relative_to_root("/ws", "/ws/a..b"), Some("a..b".to_string()));
}
