use xcraft::cache::{cache_file, CachedState};
use xcraft::config::{
    bsp_data_dir, build_root_from_symroot, compile_db_path, index_db_dir, relativize, state_path,
    BspConfig, ConfigError, StoredBspState,
};

#[test]
fn build_root_is_derived_from_symroot() {
    let actual =
        build_root_from_symroot("/Users/me/Library/Developer/Xcode/DerivedData/App-123/Build/Products");
    assert_eq!(actual, "/Users/me/Library/Developer/Xcode/DerivedData/App-123");
}

#[test]
fn build_root_of_relative_symroot_is_relative() {
    assert_eq!(build_root_from_symroot("DD/Build/Products"), "DD");
    assert_eq!(build_root_from_symroot("/Build"), "/");
}

#[test]
fn stored_state_reuses_top_level_workspace_and_scheme_fields() {
    let config = BspConfig::new(
        "/proj",
        "app/Project.swift",
        "app/App.xcworkspace",
        "App",
        "/proj/DerivedData/App-123",
        None,
    );
    assert_eq!(config.workspace_input, "/proj/app/Project.swift");
    assert_eq!(config.generated_workspace.as_deref(), Some("/proj/app/App.xcworkspace"));
    assert_eq!(config.compile_db_path, "/proj/.xcraft/bsp/compile-db.json");

    let state = config.stored_state("/proj", CachedState::empty());
    assert_eq!(state.workspace.as_deref(), Some("app/Project.swift"));
    assert_eq!(state.scheme.as_deref(), Some("App"));
    let bsp = state.bsp.expect("bsp section");
    assert_eq!(bsp.generated_workspace.as_deref(), Some("app/App.xcworkspace"));
    assert_eq!(bsp.build_root, "/proj/DerivedData/App-123");
}

#[test]
fn xcode_config_has_no_generated_workspace_and_uses_profile_paths() {
    let config = BspConfig::new(
        "/proj",
        "App.xcworkspace",
        "App.xcworkspace/",
        "App",
        "/proj/DerivedData/App-123",
        Some("sim"),
    );
    assert!(config.generated_workspace.is_none());
    assert!(!config.uses_generated_workspace());
    assert_eq!(config.effective_workspace(), "/proj/App.xcworkspace");
    let state = config.stored_state("/proj", CachedState::empty());
    assert!(state.bsp.as_ref().unwrap().generated_workspace.is_none());
    let loaded = BspConfig::load("/proj", Some("sim"), &state).unwrap();
    assert_eq!(loaded.compile_db_path, "/proj/.xcraft/bsp/compile-db.sim.json");
}

#[test]
fn saved_config_loads_back() {
    let config = BspConfig::new(
        "/proj",
        "app/Project.swift",
        "app/App.xcworkspace",
        "App",
        "/proj/DerivedData/App-123",
        None,
    );
    let mut before = CachedState::empty();
    before.configuration = Some("Debug".to_string());
    let saved = config.stored_state("/proj", before);
    assert_eq!(saved.configuration.as_deref(), Some("Debug"));
    let back = BspConfig::load("/proj", None, &saved).unwrap();
    assert_eq!(back.workspace_input, config.workspace_input);
    assert_eq!(back.generated_workspace, config.generated_workspace);
    assert_eq!(back.scheme, "App");
    assert_eq!(back.build_root, "/proj/DerivedData/App-123");
    assert!(back.matches("/proj/app/Project.swift", "App"));
    assert!(!back.matches("/proj/app/Project.swift", "Other"));
}

#[test]
fn config_outside_root_is_stored_absolute() {
    let config = BspConfig::new("/proj", "/elsewhere/App.xcworkspace", "/elsewhere/App.xcworkspace", "App", "/dd", None);
    let state = config.stored_state("/proj", CachedState::empty());
    assert_eq!(state.workspace.as_deref(), Some("/elsewhere/App.xcworkspace"));
}

#[test]
fn load_reports_each_missing_field() {
    let empty = CachedState::empty();
    assert!(matches!(BspConfig::load("/p", None, &empty), Err(ConfigError::NotInitialized)));

    let mut state = CachedState::empty();
    state.bsp = Some(StoredBspState { generated_workspace: None, build_root: "/dd".to_string() });
    assert!(matches!(BspConfig::load("/p", None, &state), Err(ConfigError::WorkspaceMissing)));

    state.workspace = Some("App.xcworkspace".to_string());
    assert!(matches!(BspConfig::load("/p", None, &state), Err(ConfigError::SchemeMissing)));

    state.scheme = Some("App".to_string());
    let c = BspConfig::load("/p", None, &state).unwrap();
    assert_eq!(c.workspace_input, "/p/App.xcworkspace");
    assert_eq!(c.build_root, "/dd");
}

#[test]
fn profiles_get_their_own_files() {
    assert_eq!(compile_db_path("/p", None), "/p/.xcraft/bsp/compile-db.json");
    assert_eq!(compile_db_path("/p", Some("sim")), "/p/.xcraft/bsp/compile-db.sim.json");
    assert_ne!(compile_db_path("/p", Some("sim")), compile_db_path("/p", Some("device")));
    assert_eq!(state_path("/p", None), "/p/.xcraft/state.toml");
    assert_eq!(state_path("/p", Some("sim")), "/p/.xcraft/state.sim.toml");
    assert_eq!(cache_file(Some("device")), "state.device.toml");
    assert_eq!(cache_file(None), "state.toml");
}

#[test]
fn data_dirs_live_under_xcraft() {
    assert_eq!(bsp_data_dir("/p"), "/p/.xcraft/bsp");
    assert_eq!(index_db_dir("/p/"), "/p/.xcraft/bsp");
}

#[test]
fn relativize_strips_the_root() {
    assert_eq!(relativize("/proj", "/proj/app/Project.swift"), "app/Project.swift");
    assert_eq!(relativize("/proj/", "/proj//app/./x/"), "app/./x");
    assert_eq!(relativize("/proj", "/other/x"), "/other/x");
    assert_eq!(relativize("/proj", "/proj"), "");
}

#[test]
fn index_store_and_version() {
    let c = BspConfig::new("/p", "A.xcworkspace", "A.xcworkspace", "A", "/dd", None);
    assert_eq!(c.index_store_path(), "/dd/Index.noindex/DataStore");
    assert_eq!(BspConfig::bsp_version(), "2.2.0");
}

#[test]
fn saved_config_loads_back_exactly_under_normal_root() {
    let config = BspConfig::new(
        "/proj",
        "/proj/app/Project.swift",
        "/proj/app/App.xcworkspace",
        "App",
        "/dd",
        Some("sim"),
    );
    let saved = config.stored_state("/proj", CachedState::empty());
    let back = BspConfig::load("/proj", Some("sim"), &saved).unwrap();
    assert_eq!(back.workspace_input, "/proj/app/Project.swift");
    assert_eq!(back.generated_workspace.as_deref(), Some("/proj/app/App.xcworkspace"));
    assert_eq!(back.compile_db_path, config.compile_db_path);
    let rel = BspConfig::new("proj", "/x/App.xcworkspace", "/x/App.xcworkspace", "App", "/dd", None);
    let saved = rel.stored_state("proj", CachedState::empty());
    assert_eq!(BspConfig::load("proj", None, &saved).unwrap().workspace_input, "/x/App.xcworkspace");
}
