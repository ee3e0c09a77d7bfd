use xcraft::parser::{extract_files, parse_compile_db, parse_swift_section};

#[test]
fn parses_swift_driver_sections() {
    let lines = vec![
        "SwiftDriver\\ Compilation App normal arm64 com.apple.xcode.tools.swift.compiler".to_string(),
        "cd /tmp/project".to_string(),
        "builtin-Swift-Compilation -- /usr/bin/swiftc -module-name App /tmp/project/Sources/App.swift".to_string(),
        "".to_string(),
    ];

    let db = parse_compile_db(&lines, "/");
    assert_eq!(db.swift_units.len(), 1);
    assert!(db.swift_units[0].command.contains("swiftc -module-name App"));
    assert_eq!(db.swift_units[0].files.len(), 1);
}

#[test]
fn driver_section_keeps_command_after_launcher() {
    let lines = vec![
        "SwiftDriver App normal arm64".to_string(),
        "    cd \"/tmp/my project\"".to_string(),
        "  builtin-SwiftDriver -- swiftc Sources/A.swift @/tmp/App.SwiftFileList   ".to_string(),
    ];
    let unit = parse_swift_section(&lines, 0, 3, "/cwd").expect("unit");
    assert_eq!(unit.command, "swiftc Sources/A.swift @/tmp/App.SwiftFileList");
    assert_eq!(unit.directory, "/tmp/my project");
    assert_eq!(unit.files, vec!["/tmp/my project/Sources/A.swift".to_string()]);
    assert_eq!(unit.file_lists, vec!["/tmp/App.SwiftFileList".to_string()]);
}

#[test]
fn driver_section_without_launcher_is_skipped() {
    let lines = vec![
        "SwiftDriver App normal arm64".to_string(),
        "swiftc -module-name App".to_string(),
    ];
    assert!(parse_swift_section(&lines, 0, 2, "/cwd").is_none());
}

#[test]
fn compile_sources_section_uses_cwd_without_cd() {
    let lines = vec![
        "noise".to_string(),
        "CompileSwiftSources normal arm64".to_string(),
        "swiftc -c main.swift".to_string(),
        "".to_string(),
        "CompileC foo.c".to_string(),
    ];
    let db = parse_compile_db(&lines, "/work");
    assert_eq!(db.version, 1);
    assert_eq!(db.swift_units.len(), 1);
    let unit = &db.swift_units[0];
    assert_eq!(unit.directory, "/work");
    assert_eq!(unit.command, "swiftc -c main.swift");
    assert_eq!(unit.files, vec!["/work/main.swift".to_string()]);
}

#[test]
fn extract_files_splits_sources_and_lists() {
    let (files, lists) = extract_files(
        "swiftc '/abs/Space Dir/B.swift' rel/C.swift x.SwiftFileList @y.SwiftFileList -o out.o",
        "/base",
    );
    assert_eq!(files, vec!["/abs/Space Dir/B.swift".to_string(), "/base/rel/C.swift".to_string()]);
    assert_eq!(lists, vec!["/base/x.SwiftFileList".to_string(), "/base/y.SwiftFileList".to_string()]);
}

#[test]
fn unbalanced_command_has_no_files() {
    let (files, lists) = extract_files("swiftc 'A.swift", "/base");
    assert!(files.is_empty());
    assert!(lists.is_empty());
}

#[test]
fn joined_logs_parse_as_joined_units() {
    let a: Vec<String> = vec![
        "CompileSwiftSources normal".to_string(),
        "swiftc a.swift".to_string(),
        "".to_string(),
    ];
    let b: Vec<String> = vec![
        "CompileSwiftSources normal".to_string(),
        "cd /b".to_string(),
        "swiftc b.swift".to_string(),
    ];
    let joined: Vec<String> = [a.clone(), b.clone()].concat();
    let units: Vec<String> =
        parse_compile_db(&joined, "/w").swift_units.into_iter().map(|u| u.command).collect();
    let mut expected: Vec<String> =
        parse_compile_db(&a, "/w").swift_units.into_iter().map(|u| u.command).collect();
    expected.extend(parse_compile_db(&b, "/w").swift_units.into_iter().map(|u| u.command));
    assert_eq!(units, expected);
    assert_eq!(units, vec!["swiftc a.swift", "swiftc b.swift"]);
}
