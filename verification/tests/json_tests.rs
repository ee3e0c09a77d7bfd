use xcraft::compile_db::{lookup_keys, unit_lookup};
use xcraft::config::{build_root_from_settings, read_build_settings, read_schemes, SettingsError};
use xcraft::export::{first_settings, ExportError};
use xcraft::json::{get, Json};
use xcraft::server::{frame_message, read_request, reply_for, Method, Reply};

#[test]
fn requests_read_their_fields() {
    let body = br#"{"jsonrpc":"2.0","id":7,"method":"buildTarget/sources","params":{"targets":[{"uri":"dummy://xcraft"},{"uri":3},{}],"rootUri":"file:///p","action":"register","uri":"file:///a.swift","textDocument":{"uri":"file:///b.swift"}}}"#;
    let (doc, req) = read_request(body).unwrap();
    assert!(req.has_id);
    assert_eq!(req.method.as_deref(), Some("buildTarget/sources"));
    assert!(req.params_is_object);
    assert_eq!(req.root_uri.as_deref(), Some("file:///p"));
    assert_eq!(
        req.target_uris,
        Some(vec![Some("dummy://xcraft".to_string()), None, None])
    );
    assert_eq!(req.action.as_deref(), Some("register"));
    assert_eq!(req.uri.as_deref(), Some("file:///a.swift"));
    assert_eq!(req.document_uri.as_deref(), Some("file:///b.swift"));
    assert!(matches!(get(&doc, "id"), Some(Json::Number(n)) if n == "7"));
}

#[test]
fn absent_or_mistyped_fields_read_as_none() {
    let (_, req) = read_request(br#"{"method":5,"params":[1,2]}"#).unwrap();
    assert!(!req.has_id);
    assert_eq!(req.method, None);
    assert!(!req.params_is_object);
    assert_eq!(req.target_uris, None);
    let (_, req) = read_request(br#"[1]"#).unwrap();
    assert!(!req.has_id);
    assert!(read_request(b"{not json").is_none());
}

#[test]
fn loop_replies_by_method() {
    assert_eq!(reply_for(Method::Exit, true), Reply::Stop);
    assert_eq!(reply_for(Method::Initialized, false), Reply::Silent);
    assert_eq!(reply_for(Method::Unknown, false), Reply::Silent);
    assert_eq!(reply_for(Method::Unknown, true), Reply::Answer);
    assert_eq!(reply_for(Method::Shutdown, true), Reply::Answer);
}

#[test]
fn frames_hold_header_then_body() {
    let out = frame_message(b"{}");
    assert_eq!(out, b"Content-Length: 2\r\n\r\n{}".to_vec());
}

#[test]
fn build_settings_are_read_from_the_first_entry() {
    let out = br#"[{"action":"build","buildSettings":{"SYMROOT":"/dd/App-1/Build/Products","PRODUCT_NAME":"App","DEVELOPMENT_TEAM":"T1","WRAPPER_NAME":7}},{"buildSettings":{}}]"#;
    let entries = read_build_settings(out).unwrap();
    assert_eq!(entries.len(), 2);
    assert_eq!(entries[0].product_name.as_deref(), Some("App"));
    assert_eq!(entries[0].development_team.as_deref(), Some("T1"));
    assert_eq!(entries[0].wrapper_name, None);
    assert_eq!(build_root_from_settings(&entries).unwrap(), "/dd/App-1");
    let first = first_settings(entries).unwrap();
    assert_eq!(first.symroot.as_deref(), Some("/dd/App-1/Build/Products"));
}

#[test]
fn malformed_or_empty_settings_fail() {
    assert!(read_build_settings(br#"[{"target":"x"}]"#).is_none());
    assert!(read_build_settings(br#"{"buildSettings":{}}"#).is_none());
    assert!(read_build_settings(b"garbage").is_none());
    let empty = read_build_settings(b"[]").unwrap();
    assert_eq!(build_root_from_settings(&empty), Err(SettingsError::NoSymroot));
    assert!(matches!(first_settings(empty), Err(ExportError::NoBuildSettings)));
    let no_symroot = read_build_settings(br#"[{"buildSettings":{"PRODUCT_NAME":"A"}}]"#).unwrap();
    assert_eq!(build_root_from_settings(&no_symroot), Err(SettingsError::NoSymroot));
}

#[test]
fn schemes_are_the_listed_strings() {
    let out = br#"{"workspace":{"name":"App","schemes":["App",3,"Tests"]}}"#;
    assert_eq!(read_schemes(out).unwrap(), vec!["App", "Tests"]);
    assert_eq!(read_schemes(br#"{"project":{}}"#).unwrap(), Vec::<String>::new());
    assert!(read_schemes(b"").is_none());
}

#[test]
fn unit_lookup_keys_follow_files_then_list_entries() {
    let files = vec!["/P/A.swift".to_string()];
    let entries = vec!["/P/B.swift".to_string(), "/P/c.Swift".to_string()];
    let l = unit_lookup(&files, &entries, vec![vec!["x".to_string()]]);
    assert_eq!(l.keys, vec!["/p/a.swift", "/p/b.swift", "/p/c.swift"]);
    assert_eq!(l.expansions, vec![vec!["x".to_string()]]);
    assert_eq!(lookup_keys(&vec![]), Vec::<String>::new());
}
