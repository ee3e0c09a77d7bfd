//! The BSP connection file that points sourcekit-lsp at the server.
use vstd::prelude::*;

use crate::config::BspConfig;
use crate::path::{join_path, join_spec};
use crate::text::{owned, string_views};

verus! {

/// The content of `.bsp/xcraft.json`.
#[derive(Debug, Clone)]
pub struct ConnectionFile {
    pub name: String,
    pub version: String,
    pub bsp_version: String,
    pub languages: Vec<String>,
    pub argv: Vec<String>,
}

/// The command that starts the server: `EXE bsp serve`, plus `--profile PROFILE`.
pub open spec fn argv_spec(exe: Seq<char>, profile: Option<Seq<char>>) -> Seq<Seq<char>> {
    match profile {
        Some(p) => seq![exe, "bsp"@, "serve"@, "--profile"@, p],
        None => seq![exe, "bsp"@, "serve"@],
    }
}

/// The command line that sourcekit-lsp runs to start the server.
pub fn connection_argv(exe: &str, profile: Option<&str>) -> (out: Vec<String>)
    ensures
        string_views(out@) == argv_spec(exe@, crate::cache::opt_view(profile)),
{
    let mut argv: Vec<String> = Vec::new();
    argv.push(owned(exe));
    argv.push(owned("bsp"));
    argv.push(owned("serve"));
    match profile {
        Some(p) => {
            argv.push(owned("--profile"));
            argv.push(owned(p));
        },
        None => {},
    }
    assert(string_views(argv@) =~= argv_spec(exe@, crate::cache::opt_view(profile)));
    argv
}

/// The connection file for the server binary `exe` of version `version`.
pub fn connection_file(exe: &str, profile: Option<&str>, version: &str) -> (out: ConnectionFile)
    ensures
        out.name@ == "xcraft"@,
        out.version@ == version@,
        out.bsp_version@ == "2.2.0"@,
        string_views(out.languages@) == seq!["swift"@],
        string_views(out.argv@) == argv_spec(exe@, crate::cache::opt_view(profile)),
{
    let mut languages: Vec<String> = Vec::new();
    languages.push(owned("swift"));
    assert(string_views(languages@) =~= seq!["swift"@]);
    ConnectionFile {
        name: owned("xcraft"),
        version: owned(version),
        bsp_version: owned(BspConfig::bsp_version()),
        languages,
        argv: connection_argv(exe, profile),
    }
}

/// The standardized `.bsp` directory under the project root.
pub fn bsp_dir(root: &str) -> (out: String)
    ensures
        out@ == join_spec(root@, ".bsp"@),
{
    join_path(root, ".bsp")
}

/// Location of the connection file.
pub fn connection_file_path(root: &str) -> (out: String)
    ensures
        out@ == join_spec(join_spec(root@, ".bsp"@), "xcraft.json"@),
{
    let d = bsp_dir(root);
    join_path(d.as_str(), "xcraft.json")
}

} // verus!
