use xcraft::xcactivitylog::{
    candidate_log_paths, extract_compile_lines, parse_number, sort_candidates, string_tokens, Keyed,
    LogError, LogFile, ManifestLog,
};

fn token(s: &str) -> Vec<u8> {
    format!("{}\"{}", s.len(), s).into_bytes()
}

fn log_with(tokens: &[&str]) -> Vec<u8> {
    let mut data = b"SLF0".to_vec();
    for t in tokens {
        data.extend_from_slice(b"7#");
        data.extend(token(t));
    }
    data
}

#[test]
fn numbers_are_trimmed_and_checked() {
    assert_eq!(parse_number(b" 12 ", 0, 4), Some(12));
    assert_eq!(parse_number(b"x+7y", 1, 3), Some(7));
    assert_eq!(parse_number(b"", 0, 0), None);
    assert_eq!(parse_number(b"1a", 0, 2), None);
    assert_eq!(parse_number(b"99999999999999999999999", 0, 23), None);
}

#[test]
fn tokens_follow_their_length_prefixes() {
    assert_eq!(string_tokens(b"3\"abc"), vec!["abc"]);
    assert_eq!(string_tokens(b"5-3%xyz4\"defg2(1\"z"), vec!["defg", "z"]);
    // A truncated payload ends the walk.
    assert_eq!(string_tokens(b"2\"ok9\"ab"), vec!["ok"]);
    // An unreadable length prefix ends the walk too.
    assert_eq!(string_tokens(b"2\"okzz\"ab"), vec!["ok"]);
    // Invalid UTF-8 is replaced.
    assert_eq!(string_tokens(b"1\"\xff"), vec!["\u{fffd}"]);
}

#[test]
fn compile_lines_come_from_swift_sections() {
    let data = log_with(&[
        "SwiftDriver\\ Compilation App\rcd /tmp/p\r\rbuiltin-Swift-Compilation -- swiftc a.swift",
        "CompileC foo.c",
        "CompileSwiftSources normal\nswiftc b.swift",
    ]);
    let lines = extract_compile_lines(&data).unwrap();
    assert_eq!(
        lines,
        vec![
            "SwiftDriver\\ Compilation App",
            "cd /tmp/p",
            "builtin-Swift-Compilation -- swiftc a.swift",
            "",
            "CompileSwiftSources normal",
            "swiftc b.swift",
            "",
        ]
    );
}

#[test]
fn data_without_magic_is_not_a_log() {
    assert!(matches!(extract_compile_lines(b"SLF"), Err(LogError::NotActivityLog)));
    assert!(matches!(extract_compile_lines(b"GZIP...."), Err(LogError::NotActivityLog)));
    assert_eq!(extract_compile_lines(b"SLF0").unwrap(), Vec::<String>::new());
}

fn manifest_log(scheme: Option<&str>, file: Option<&str>, key: u64) -> ManifestLog {
    ManifestLog {
        scheme_name: scheme.map(|s| s.to_string()),
        file_name: file.map(|s| s.to_string()),
        sort_key: key,
    }
}

fn file(path: &str, len: u64, modified: i128) -> LogFile {
    LogFile { path: path.to_string(), len, modified }
}

#[test]
fn candidates_prefer_manifest_order_then_recent_files() {
    let manifest = vec![
        manifest_log(Some("App"), Some("old.xcactivitylog"), 10),
        manifest_log(Some("Other"), Some("other.xcactivitylog"), 99),
        manifest_log(Some("App"), Some("new.xcactivitylog"), 20),
        manifest_log(Some("App"), None, 30),
    ];
    let files = vec![
        file("/L/old.xcactivitylog", 5, 1),
        file("/L/empty.xcactivitylog", 0, 9),
        file("/L/recent.xcactivitylog", 5, 7),
        file("/L/notes.txt", 5, 8),
        file("/L/mid.xcactivitylog", 5, 3),
    ];
    let out = candidate_log_paths("/L", Some(manifest), Some("App"), &files).unwrap();
    assert_eq!(
        out,
        vec![
            "/L/new.xcactivitylog",
            "/L/old.xcactivitylog",
            "/L/recent.xcactivitylog",
            "/L/mid.xcactivitylog",
        ]
    );
}

#[test]
fn candidates_without_scheme_take_every_manifest_log() {
    let manifest = vec![
        manifest_log(None, Some("a.xcactivitylog"), 1),
        manifest_log(Some("X"), Some("b.xcactivitylog"), 2),
    ];
    let out = candidate_log_paths("/L", Some(manifest), None, &vec![]).unwrap();
    assert_eq!(out, vec!["/L/b.xcactivitylog", "/L/a.xcactivitylog"]);
}

#[test]
fn no_candidate_is_an_error() {
    let files = vec![file("/L/x.txt", 3, 1), file("/L/.xcactivitylog", 3, 1)];
    assert!(matches!(candidate_log_paths("/L", None, None, &files), Err(LogError::NoLogFound)));
}

#[test]
fn sorting_is_stable_and_descending() {
    let v = vec![
        Keyed { key: 1, path: "a".to_string() },
        Keyed { key: 3, path: "b".to_string() },
        Keyed { key: 1, path: "c".to_string() },
        Keyed { key: -2, path: "d".to_string() },
    ];
    let out: Vec<String> = sort_candidates(v).into_iter().map(|k| k.path).collect();
    assert_eq!(out, vec!["b", "a", "c", "d"]);
}

#[test]
fn tokens_of_joined_streams_are_joined() {
    let a: Vec<u8> = b"3\"abc7#2%xy".to_vec();
    let b: Vec<u8> = b"1\"z9\"tr".to_vec();
    let joined: Vec<u8> = [a.clone(), b.clone()].concat();
    let mut expected = string_tokens(&a);
    expected.extend(string_tokens(&b));
    assert_eq!(string_tokens(&joined), expected);
    assert_eq!(string_tokens(&joined), vec!["abc", "z"]);
}
