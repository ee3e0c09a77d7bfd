use xcraft::bsp::init;
use xcraft::cache::CachedState;
use xcraft::connection::{bsp_dir, connection_argv, connection_file, connection_file_path};

#[test]
fn connection_starts_the_server_with_its_profile() {
    assert_eq!(connection_argv("/bin/xcraft", None), vec!["/bin/xcraft", "bsp", "serve"]);
    assert_eq!(
        connection_argv("/bin/xcraft", Some("sim")),
        vec!["/bin/xcraft", "bsp", "serve", "--profile", "sim"]
    );
    let f = connection_file("/bin/xcraft", None, "0.3.0");
    assert_eq!(f.name, "xcraft");
    assert_eq!(f.version, "0.3.0");
    assert_eq!(f.bsp_version, "2.2.0");
    assert_eq!(f.languages, vec!["swift"]);
    assert_eq!(bsp_dir("/p"), "/p/.bsp");
    assert_eq!(connection_file_path("/p"), "/p/.bsp/xcraft.json");
}

#[test]
fn init_writes_config_state_and_connection() {
    let mut state = CachedState::empty();
    state.destination = Some("simulator:abc".to_string());
    let plan = init(
        "/p",
        "app/Project.swift",
        "app/App.xcworkspace",
        "App",
        "/dd",
        Some("sim"),
        state,
        "/bin/xcraft",
        "0.3.0",
    );
    assert_eq!(plan.config.compile_db_path, "/p/.xcraft/bsp/compile-db.sim.json");
    assert_eq!(plan.state.workspace.as_deref(), Some("app/Project.swift"));
    assert_eq!(plan.state.destination.as_deref(), Some("simulator:abc"));
    assert_eq!(
        plan.state.bsp.as_ref().unwrap().generated_workspace.as_deref(),
        Some("app/App.xcworkspace")
    );
    assert_eq!(plan.connection.argv, vec!["/bin/xcraft", "bsp", "serve", "--profile", "sim"]);
}
