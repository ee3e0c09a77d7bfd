//! Setting up BSP for a project: the config, the state file content and the
//! connection file that `init` writes.
use vstd::prelude::*;

use crate::cache::{opt_view, CachedState};
use crate::config::{compile_db_path_spec, opt_string_view, stores_as, BspConfig};
use crate::connection::{argv_spec, connection_file, ConnectionFile};
use crate::path::{components, join_spec};
use crate::text::string_views;

verus! {

/// What `init` writes: the config (kept in the state file) and the connection
/// file.
#[derive(Debug, Clone)]
pub struct InitPlan {
    pub config: BspConfig,
    /// The state file content after the config is saved into it.
    pub state: CachedState,
    /// The content of `.bsp/xcraft.json`.
    pub connection: ConnectionFile,
}

/// Initialize BSP metadata for the project at `root`: the config for the
/// workspace input built through `effective_ws` with `scheme` into `build_root`,
/// saved into the current state file content `state`, and the connection file
/// that starts the server binary `exe` of version `version`.
pub fn init(
    root: &str,
    input_ws: &str,
    effective_ws: &str,
    scheme: &str,
    build_root: &str,
    profile: Option<&str>,
    state: CachedState,
    exe: &str,
    version: &str,
) -> (out: InitPlan)
    ensures
        out.config.workspace_input@ == join_spec(root@, input_ws@),
        opt_string_view(out.config.generated_workspace) == if components(input_ws@) == components(
            effective_ws@,
        ) {
            None
        } else {
            Some(join_spec(root@, effective_ws@))
        },
        out.config.scheme@ == scheme@,
        out.config.build_root@ == build_root@,
        out.config.compile_db_path@ == compile_db_path_spec(root@, opt_view(profile)),
        stores_as(root@, out.config, state, out.state),
        out.connection.name@ == "xcraft"@,
        out.connection.version@ == version@,
        out.connection.bsp_version@ == "2.2.0"@,
        string_views(out.connection.languages@) == seq!["swift"@],
        string_views(out.connection.argv@) == argv_spec(exe@, opt_view(profile)),
{
    let config = BspConfig::new(root, input_ws, effective_ws, scheme, build_root, profile);
    let saved = config.stored_state(root, state);
    let connection = connection_file(exe, profile, version);
    InitPlan { config, state: saved, connection }
}

} // verus!
