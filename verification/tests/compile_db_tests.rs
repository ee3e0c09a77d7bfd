use xcraft::compile_db::{
    args_file_entries, command_to_arguments, expand_arguments, filter_arguments,
    normalize_for_lookup, working_directory, ArgPiece, CompileDb, SwiftCompileUnit, UnitLookup,
};

fn unit(dir: &str, command: &str) -> SwiftCompileUnit {
    SwiftCompileUnit {
        directory: dir.to_string(),
        command: command.to_string(),
        files: vec![],
        file_lists: vec![],
    }
}

fn args(pieces: &[ArgPiece]) -> Vec<String> {
    pieces
        .iter()
        .map(|p| match p {
            ArgPiece::Arg(a) => a.clone(),
            ArgPiece::Expand(f) => format!("<{f}>"),
        })
        .collect()
}

#[test]
fn query_returns_filtered_swift_arguments() {
    let db = CompileDb::new(vec![unit(
        "/tmp/p",
        "/usr/bin/swiftc -module-name App -emit-localized-strings-path /tmp/foo -working-directory /tmp/p /tmp/p/Sources/App.swift",
    )]);
    let lookups = vec![UnitLookup { keys: vec!["/tmp/p/sources/app.swift".to_string()], expansions: vec![] }];
    let (flags, workdir) = db.query(&lookups, &"/tmp/p/sources/app.swift".to_string()).unwrap();
    assert!(!flags.contains(&"-emit-localized-strings-path".to_string()));
    assert_eq!(
        flags,
        vec!["-module-name", "App", "-working-directory", "/tmp/p", "/tmp/p/Sources/App.swift"]
    );
    assert_eq!(workdir, "/tmp/p");
    assert!(db.query(&lookups, &"/tmp/p/other.swift".to_string()).is_none());
}

#[test]
fn later_unit_wins_and_file_lists_expand() {
    let db = CompileDb::new(vec![
        unit("/a", "swiftc -module-name A x.swift"),
        unit("/b", "swiftc -module-name B -filelist /b/list @/b/args"),
    ]);
    let lookups = vec![
        UnitLookup { keys: vec!["/k/x.swift".to_string()], expansions: vec![] },
        UnitLookup {
            keys: vec!["/k/x.swift".to_string(), "/k/y.swift".to_string()],
            expansions: vec![
                vec![],
                vec![],
                vec!["/k/x.swift".to_string(), "/k/y.swift".to_string()],
                vec!["-DDEBUG".to_string()],
            ],
        },
    ];
    let (flags, workdir) = db.query(&lookups, &"/k/x.swift".to_string()).unwrap();
    assert_eq!(flags, vec!["-module-name", "B", "/k/x.swift", "/k/y.swift", "-DDEBUG"]);
    assert_eq!(workdir, "/b");
}

#[test]
fn filter_drops_and_references() {
    let input: Vec<String> = [
        "-use-frontend-parseable-output",
        "-emit-localized-strings",
        "-emit-localized-strings-path",
        "/tmp/x",
        "-filelist",
        "/tmp/files",
        "@/tmp/resp",
        "-O",
    ]
    .iter()
    .map(|s| s.to_string())
    .collect();
    let out = filter_arguments(input);
    assert_eq!(args(&out), vec!["</tmp/files>", "</tmp/resp>", "-O"]);
    assert!(filter_arguments(vec!["-filelist".to_string()]).is_empty());
}

#[test]
fn command_drops_the_executable() {
    let out = command_to_arguments("swiftc -module-name 'My App' -g");
    assert_eq!(args(&out), vec!["-module-name", "My App", "-g"]);
    assert!(command_to_arguments("").is_empty());
    assert!(command_to_arguments("swiftc 'open").is_empty());
}

#[test]
fn expansion_replaces_references_in_place() {
    let pieces = vec![
        ArgPiece::Arg("-a".to_string()),
        ArgPiece::Expand("/f".to_string()),
        ArgPiece::Arg("-b".to_string()),
        ArgPiece::Expand("/missing".to_string()),
    ];
    let expansions = vec![vec![], vec!["x".to_string(), "y".to_string()]];
    assert_eq!(expand_arguments(&pieces, &expansions), vec!["-a", "x", "y", "-b"]);
}

#[test]
fn args_files_are_shell_split_or_read_by_line() {
    assert_eq!(args_file_entries("a.swift 'b c.swift'\n"), vec!["a.swift", "b c.swift"]);
    assert_eq!(args_file_entries("  it's.swift \n\n other.swift\n"), vec!["it's.swift", "other.swift"]);
}

#[test]
fn working_directory_prefers_flag() {
    let flags: Vec<String> = vec!["-x".into(), "-working-directory".into(), "/w".into()];
    assert_eq!(working_directory(&flags, "/d"), "/w");
    let flags: Vec<String> = vec!["-working-directory".into()];
    assert_eq!(working_directory(&flags, "/d"), "/d");
}

#[test]
fn lookup_keys_are_lowercase() {
    assert_eq!(normalize_for_lookup("/Users/Me/App.swift"), "/users/me/app.swift");
}
