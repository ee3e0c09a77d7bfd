use xcraft::config::BspConfig;
use xcraft::server::{
    build_target_sources, content_length, decimal, directory_uris, file_path_from_uri,
    frame_header, hex_lower, index_database_path, index_paths, method_of, parse_header_line,
    source_packages_checkouts_dir, source_roots, target_uri, tuist_input_source_dir,
    request_method, unknown_method_answer, unknown_method_message, HeaderError, HeaderLine,
    Method, Registrations, UriError,
};

#[test]
fn methods_dispatch_by_name() {
    assert_eq!(method_of("build/initialize"), Method::Initialize);
    assert_eq!(method_of("build/initialized"), Method::Initialized);
    assert_eq!(method_of("workspace/buildTargets"), Method::BuildTargets);
    assert_eq!(method_of("buildTarget/sources"), Method::TargetSources);
    assert_eq!(method_of("workspace/waitForBuildSystemUpdates"), Method::WaitForUpdates);
    assert_eq!(method_of("textDocument/registerForChanges"), Method::RegisterForChanges);
    assert_eq!(method_of("textDocument/sourceKitOptions"), Method::SourceKitOptions);
    assert_eq!(method_of("build/shutdown"), Method::Shutdown);
    assert_eq!(method_of("exit"), Method::Exit);
    assert_eq!(method_of("build/Initialize"), Method::Unknown);
    assert_eq!(method_of(""), Method::Unknown);
    assert_eq!(unknown_method_message("foo/bar"), "unhandled method foo/bar");
    assert_eq!(target_uri(), "dummy://xcraft");
}

#[test]
fn frames_carry_the_body_length() {
    assert_eq!(decimal(0), "0");
    assert_eq!(decimal(1234567), "1234567");
    assert_eq!(frame_header(42), "Content-Length: 42\r\n\r\n");
}

#[test]
fn header_lines_are_read_back() {
    assert_eq!(parse_header_line("Content-Length: 42\r\n"), Ok(HeaderLine::Length(42)));
    assert_eq!(parse_header_line("Content-Length:7"), Ok(HeaderLine::Length(7)));
    assert_eq!(parse_header_line("\r\n"), Ok(HeaderLine::End));
    assert_eq!(parse_header_line(""), Ok(HeaderLine::End));
    assert_eq!(parse_header_line("Content-Type: json\r\n"), Ok(HeaderLine::Other));
    assert_eq!(parse_header_line("content-length: 3\r\n"), Ok(HeaderLine::Other));
    assert_eq!(parse_header_line("Content-Length: x\r\n"), Err(HeaderError::InvalidLength));
    assert_eq!(parse_header_line("Content-Length: -1\n"), Err(HeaderError::InvalidLength));
}

#[test]
fn written_frames_read_back() {
    let header = frame_header(1234);
    let (first, blank) = header.split_at(header.len() - 2);
    assert_eq!(parse_header_line(first), Ok(HeaderLine::Length(1234)));
    assert_eq!(parse_header_line(blank), Ok(HeaderLine::End));
    let lines = vec![first.to_string(), blank.to_string()];
    assert_eq!(content_length(&lines), Ok(1234));
}

#[test]
fn content_length_reads_until_blank_line() {
    let lines: Vec<String> = vec!["Content-Length: 5\r\n".into(), "X: y\r\n".into(), "\r\n".into(), "Content-Length: zz\r\n".into()];
    assert_eq!(content_length(&lines), Ok(5));
    let lines: Vec<String> = vec!["Content-Length: 5\r\n".into(), "Content-Length: 9\r\n".into(), "\r\n".into()];
    assert_eq!(content_length(&lines), Ok(9));
    let lines: Vec<String> = vec!["X: y\r\n".into(), "\r\n".into()];
    assert_eq!(content_length(&lines), Err(HeaderError::MissingLength));
    let lines: Vec<String> = vec!["Content-Length: q\r\n".into(), "Content-Length: 1\r\n".into()];
    assert_eq!(content_length(&lines), Err(HeaderError::InvalidLength));
}

#[test]
fn registrations_follow_register_and_unregister() {
    let mut r = Registrations::new();
    let a = "file:///a.swift".to_string();
    let b = "file:///b.swift".to_string();
    r.register_for_changes("register", a.clone());
    r.register_for_changes("register", a.clone());
    r.register_for_changes("register", b.clone());
    assert!(r.contains(&a));
    assert!(r.contains(&b));
    r.register_for_changes("unregister", a.clone());
    assert!(!r.contains(&a));
    assert!(r.contains(&b));
    r.register_for_changes("refresh", a.clone());
    assert!(!r.contains(&a));
    r.register_for_changes("unregister", "file:///never".to_string());
    assert!(r.contains(&b));
}

#[test]
fn hex_is_lowercase_two_digits_per_byte() {
    assert_eq!(hex_lower(&[0x00, 0x0f, 0xab, 0xff]), "000fabff");
    assert_eq!(hex_lower(&[]), "");
}

#[test]
fn index_database_is_named_after_the_store_digest() {
    assert_eq!(
        index_database_path("/proj", "abc"),
        "/proj/.xcraft/bsp/index-db-900150983cd24fb0d6963f7d28e17f72"
    );
    let c = BspConfig::new("/proj", "A.xcworkspace", "A.xcworkspace", "A", "/dd", None);
    let p = index_paths("/proj", &c);
    assert_eq!(p.index_store_path, "/dd/Index.noindex/DataStore");
    assert!(p.index_database_path.starts_with("/proj/.xcraft/bsp/index-db-"));
    assert_eq!(p.index_database_path.len(), "/proj/.xcraft/bsp/index-db-".len() + 32);
}

#[test]
fn directory_uris_need_absolute_paths() {
    let paths = vec!["/tmp/x".to_string(), "/tmp/y/".to_string()];
    assert_eq!(directory_uris(&paths).unwrap(), vec!["file:///tmp/x/", "file:///tmp/y/"]);
    let paths = vec!["/tmp/x".to_string(), "rel".to_string(), "also/rel".to_string()];
    assert_eq!(directory_uris(&paths).unwrap_err(), "rel");
}

#[test]
fn file_uris_name_local_paths() {
    assert_eq!(file_path_from_uri("file:///tmp/a.swift").unwrap(), "/tmp/a.swift");
    assert_eq!(file_path_from_uri("file:///tmp/My%20App/b.swift").unwrap(), "/tmp/My App/b.swift");
    match file_path_from_uri("not a uri") {
        Err(UriError::Invalid(u)) => assert_eq!(u, "not a uri"),
        other => panic!("unexpected {other:?}"),
    }
    match file_path_from_uri("https://example.com/a") {
        Err(UriError::Unsupported(u)) => assert_eq!(u, "https://example.com/a"),
        other => panic!("unexpected {other:?}"),
    }
}

fn tuist_config() -> BspConfig {
    BspConfig::new("/p", "app/Project.swift", "app/App.xcworkspace", "App", "/dd", None)
}

#[test]
fn source_roots_cover_generated_and_package_sources() {
    let c = tuist_config();
    assert_eq!(tuist_input_source_dir(&c, false), "/p/app");
    assert_eq!(tuist_input_source_dir(&c, true), "/p/app/Project.swift");
    assert_eq!(source_packages_checkouts_dir(&c), "/dd/SourcePackages/checkouts");
    assert_eq!(
        source_roots(&c, false, true),
        vec!["/p/app/App.xcworkspace", "/p/app", "/dd/SourcePackages/checkouts"]
    );
    let x = BspConfig::new("/p", "App.xcworkspace", "App.xcworkspace", "App", "/dd", None);
    assert_eq!(source_roots(&x, false, false), vec!["/p/App.xcworkspace"]);
}

#[test]
fn target_sources_answer_only_the_synthetic_target() {
    let c = tuist_config();
    let targets = vec![Some("dummy://other".to_string()), Some("dummy://xcraft".to_string()), None];
    let out = build_target_sources(&c, Some(&targets), false, false).unwrap();
    assert_eq!(out.targets, vec![1]);
    assert_eq!(out.uris, vec!["file:///p/app/App.xcworkspace/", "file:///p/app/"]);
    let none = build_target_sources(&c, Some(&vec![None]), false, false).unwrap();
    assert!(none.targets.is_empty());
    assert!(none.uris.is_empty());
    let rel = BspConfig::new("rel", "A.xcworkspace", "A.xcworkspace", "A", "/dd", None);
    assert!(build_target_sources(&rel, None, false, false).is_ok());
    assert_eq!(
        build_target_sources(&rel, Some(&vec![Some("dummy://xcraft".to_string())]), false, false).unwrap_err(),
        "rel/A.xcworkspace"
    );
}

#[test]
fn requests_with_absent_fields() {
    assert_eq!(request_method(None), Method::Unknown);
    assert_eq!(request_method(Some("exit")), Method::Exit);
    assert!(unknown_method_answer(false, Some("foo")).is_none());
    let e = unknown_method_answer(true, Some("foo")).unwrap();
    assert_eq!(e.code, -32601);
    assert_eq!(e.message, "unhandled method foo");
    assert_eq!(unknown_method_answer(true, None).unwrap().message, "unhandled method ");
}

#[test]
fn registration_requests_default_absent_fields() {
    let mut r = Registrations::new();
    r.register_request(None, Some("file:///a"));
    assert!(!r.contains(&"file:///a".to_string()));
    r.register_request(Some("register"), None);
    assert!(r.contains(&String::new()));
    r.register_request(Some("register"), Some("file:///a"));
    assert!(r.contains(&"file:///a".to_string()));
    r.register_request(Some("unregister"), Some("file:///a"));
    assert!(!r.contains(&"file:///a".to_string()));
}
