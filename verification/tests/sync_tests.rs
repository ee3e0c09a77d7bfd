use xcraft::config::{BspConfig, ConfigError};
use xcraft::sync::{maybe_sync_after_build, sync_with_config, LogFailure, LogRead, SyncState};

fn log_with(tokens: &[&str]) -> Vec<u8> {
    let mut data = b"SLF0".to_vec();
    for t in tokens {
        data.extend(format!("{}\"{}", t.len(), t).into_bytes());
    }
    data
}

fn swift_log() -> Vec<u8> {
    log_with(&["CompileSwiftSources normal\rcd /p\rswiftc /p/a.swift"])
}

#[test]
fn first_log_with_units_wins() {
    let reads = vec![
        ("/L/a".to_string(), LogRead::Failed("gunzip failed".to_string())),
        ("/L/b".to_string(), LogRead::Data(b"junk".to_vec())),
        ("/L/c".to_string(), LogRead::Data(log_with(&["CompileC x.c"]))),
        ("/L/d".to_string(), LogRead::Data(swift_log())),
        ("/L/e".to_string(), LogRead::Failed("never read".to_string())),
    ];
    let db = sync_with_config(reads, "/").unwrap();
    assert_eq!(db.version, 1);
    assert_eq!(db.swift_units.len(), 1);
    assert_eq!(db.swift_units[0].directory, "/p");
    assert_eq!(db.swift_units[0].files, vec!["/p/a.swift".to_string()]);
}

#[test]
fn last_failure_is_reported_when_no_log_has_units() {
    let reads = vec![
        ("/L/a".to_string(), LogRead::Failed("boom".to_string())),
        ("/L/b".to_string(), LogRead::Data(log_with(&["CompileC x.c"]))),
        ("/L/c".to_string(), LogRead::Data(b"nope".to_vec())),
    ];
    match sync_with_config(reads, "/") {
        Err((path, LogFailure::NotActivityLog)) => assert_eq!(path, "/L/c"),
        other => panic!("unexpected {other:?}"),
    }
    let reads = vec![
        ("/L/a".to_string(), LogRead::Failed("boom".to_string())),
        ("/L/b".to_string(), LogRead::Data(log_with(&[]))),
    ];
    match sync_with_config(reads, "/") {
        Err((path, LogFailure::Unreadable(msg))) => {
            assert_eq!(path, "/L/a");
            assert_eq!(msg, "boom");
        },
        other => panic!("unexpected {other:?}"),
    }
}

#[test]
fn empty_database_is_fine_without_failures() {
    let reads = vec![("/L/a".to_string(), LogRead::Data(log_with(&["CompileC x.c"])))];
    let db = sync_with_config(reads, "/").unwrap();
    assert!(db.swift_units.is_empty());
    assert!(sync_with_config(vec![], "/").unwrap().swift_units.is_empty());
}

#[test]
fn steps_stop_at_first_usable_log() {
    let s = SyncState::start();
    let s = s.step("/L/a".to_string(), LogRead::Data(b"bad!".to_vec()), "/");
    assert!(!s.done);
    assert!(matches!(s.last_error, Some((_, LogFailure::NotActivityLog))));
    let s = s.step("/L/b".to_string(), LogRead::Data(swift_log()), "/");
    assert!(s.done);
    let db = s.finish().unwrap();
    assert_eq!(db.swift_units.len(), 1);
}

#[test]
fn sync_after_build_only_for_matching_config() {
    let config = BspConfig::new("/p", "App.xcworkspace", "App.xcworkspace", "App", "/dd", None);
    let loaded: Result<BspConfig, ConfigError> = Ok(config);
    assert!(maybe_sync_after_build(&loaded, "/p/App.xcworkspace", "App"));
    assert!(maybe_sync_after_build(&loaded, "/p/./App.xcworkspace/", "App"));
    assert!(!maybe_sync_after_build(&loaded, "/p/Other.xcworkspace", "App"));
    assert!(!maybe_sync_after_build(&loaded, "/p/App.xcworkspace", "Tests"));
    let missing: Result<BspConfig, ConfigError> = Err(ConfigError::NotInitialized);
    assert!(!maybe_sync_after_build(&missing, "/p/App.xcworkspace", "App"));
}
