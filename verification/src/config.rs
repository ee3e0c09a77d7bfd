//! The BSP configuration: where its files live, and how it is kept in the shared
//! state file.
use vstd::prelude::*;

use crate::cache::{cache_file, cache_file_spec, opt_view, CachedState};
use crate::path::{
    components, is_absolute, join_path, join_spec, lemma_relativize_resolves_any_root,
    lemma_relativize_resolves_exactly, normalize_lexically, normalize_spec, paths_equal,
    relativize_spec, strip_prefix,
};
use crate::json::{
    as_text, get, get_in, json_of, member, member_of, parse_json, text_of, Json, JsonView,
};
use crate::text::{chars_of, concat_chars, owned, string_of, string_views};

verus! {

/// BSP-only fields persisted under `[bsp]` inside `.xcraft/state[.profile].toml`.
#[derive(Debug, Clone)]
pub struct StoredBspState {
    /// The generated `.xcworkspace` used for `xcodebuild` when the logical workspace
    /// input is not directly buildable, e.g. Tuist `Project.swift`.
    pub generated_workspace: Option<String>,
    /// DerivedData root used to find activity logs and the index store.
    pub build_root: String,
}

/// Hydrated BSP config assembled from `.xcraft/state[.profile].toml`.
#[derive(Debug, Clone)]
pub struct BspConfig {
    /// The original workspace argument, resolved against the project root.
    pub workspace_input: String,
    /// Generated `.xcworkspace` used for build operations when needed.
    pub generated_workspace: Option<String>,
    pub scheme: String,
    pub build_root: String,
    /// On-disk compile metadata consumed by the BSP server.
    pub compile_db_path: String,
}

/// Why a BSP config cannot be loaded from the state file.
#[derive(Debug, Clone, Copy, PartialEq, Eq, Structural)]
pub enum ConfigError {
    /// The state file has no `[bsp]` section.
    NotInitialized,
    /// The state file names no workspace.
    WorkspaceMissing,
    /// The state file names no scheme.
    SchemeMissing,
}

pub open spec fn opt_string_view(o: Option<String>) -> Option<Seq<char>> {
    match o {
        Some(s) => Some(s@),
        None => None,
    }
}

/// `.xcraft/bsp` under the project root.
pub open spec fn bsp_data_dir_spec(root: Seq<char>) -> Seq<char> {
    join_spec(join_spec(root, ".xcraft"@), "bsp"@)
}

/// xcraft-owned BSP artifacts live under `.xcraft/bsp/` so they do not pollute the
/// standardized `.bsp/` entrypoint directory.
pub fn bsp_data_dir(root: &str) -> (out: String)
    ensures
        out@ == bsp_data_dir_spec(root@),
{
    let d = join_path(root, ".xcraft");
    join_path(d.as_str(), "bsp")
}

/// The file name of a profile's compile database.
pub open spec fn compile_db_file_spec(profile: Option<Seq<char>>) -> Seq<char> {
    match profile {
        Some(p) => "compile-db."@ + p + ".json"@,
        None => "compile-db.json"@,
    }
}

pub open spec fn compile_db_path_spec(root: Seq<char>, profile: Option<Seq<char>>) -> Seq<char> {
    join_spec(bsp_data_dir_spec(root), compile_db_file_spec(profile))
}

/// Location of the generated Swift compile database.
pub fn compile_db_path(root: &str, profile: Option<&str>) -> (out: String)
    ensures
        out@ == compile_db_path_spec(root@, opt_view(profile)),
{
    let dir = bsp_data_dir(root);
    let file = match profile {
        Some(p) => {
            let a = chars_of("compile-db.");
            let b = chars_of(p);
            let c = chars_of(".json");
            let ab = concat_chars(a.as_slice(), b.as_slice());
            let abc = concat_chars(ab.as_slice(), c.as_slice());
            string_of(abc.as_slice())
        },
        None => owned("compile-db.json"),
    };
    join_path(dir.as_str(), file.as_str())
}

/// Reuse the same directory namespace for the sourcekit index database cache.
pub fn index_db_dir(root: &str) -> (out: String)
    ensures
        out@ == bsp_data_dir_spec(root@),
{
    bsp_data_dir(root)
}

/// `.xcraft/state[.profile].toml` under the project root.
pub open spec fn state_path_spec(root: Seq<char>, profile: Option<Seq<char>>) -> Seq<char> {
    join_spec(join_spec(root, ".xcraft"@), cache_file_spec(profile))
}

/// Location of the state file of a profile.
pub fn state_path(root: &str, profile: Option<&str>) -> (out: String)
    ensures
        out@ == state_path_spec(root@, opt_view(profile)),
{
    let d = join_path(root, ".xcraft");
    let f = cache_file(profile);
    join_path(d.as_str(), f.as_str())
}

/// Store project-local paths relative to the project root when they lie under it,
/// and keep other paths as they are.
pub fn relativize(root: &str, path: &str) -> (out: String)
    ensures
        out@ == relativize_spec(root@, path@),
{
    match strip_prefix(path, root) {
        Some(r) => r,
        None => owned(path),
    }
}

/// `SYMROOT` points at `.../Build/Products`, while BSP needs the DerivedData root.
pub open spec fn build_root_spec(symroot: Seq<char>) -> Seq<char> {
    normalize_spec(join_spec(symroot, "../.."@))
}

/// The DerivedData root that a `SYMROOT` build setting lies in.
pub fn build_root_from_symroot(symroot: &str) -> (out: String)
    ensures
        out@ == build_root_spec(symroot@),
{
    let j = join_path(symroot, "../..");
    normalize_lexically(j.as_str())
}

pub open spec fn index_store_spec(build_root: Seq<char>) -> Seq<char> {
    join_spec(join_spec(build_root, "Index.noindex"@), "DataStore"@)
}

impl BspConfig {
    /// A config for the workspace `input_ws` (built through `effective_ws`), both
    /// resolved against `root`; `generated_workspace` is set exactly when the two
    /// workspaces differ.
    pub fn new(
        root: &str,
        input_ws: &str,
        effective_ws: &str,
        scheme: &str,
        build_root: &str,
        profile: Option<&str>,
    ) -> (out: Self)
        ensures
            out.workspace_input@ == join_spec(root@, input_ws@),
            opt_string_view(out.generated_workspace) == if components(input_ws@) == components(
                effective_ws@,
            ) {
                None
            } else {
                Some(join_spec(root@, effective_ws@))
            },
            out.scheme@ == scheme@,
            out.build_root@ == build_root@,
            out.compile_db_path@ == compile_db_path_spec(root@, opt_view(profile)),
    {
        let generated_workspace = if paths_equal(input_ws, effective_ws) {
            None
        } else {
            Some(join_path(root, effective_ws))
        };
        BspConfig {
            workspace_input: join_path(root, input_ws),
            generated_workspace,
            scheme: owned(scheme),
            build_root: owned(build_root),
            compile_db_path: compile_db_path(root, profile),
        }
    }

    /// The config that the state file of a profile holds: the top-level workspace
    /// and scheme plus the `[bsp]` section, with workspace paths resolved against
    /// `root`.
    pub fn load(root: &str, profile: Option<&str>, state: &CachedState) -> (out: Result<
        Self,
        ConfigError,
    >)
        ensures
            match out {
                Ok(c) => loads_as(root@, opt_view(profile), *state, c),
                Err(ConfigError::NotInitialized) => state.bsp is None,
                Err(ConfigError::WorkspaceMissing) => state.bsp is Some && state.workspace is None,
                Err(ConfigError::SchemeMissing) => state.bsp is Some && state.workspace is Some
                    && state.scheme is None,
            },
    {
        let stored = match &state.bsp {
            Some(b) => b,
            None => return Err(ConfigError::NotInitialized),
        };
        let workspace_input = match &state.workspace {
            Some(w) => w,
            None => return Err(ConfigError::WorkspaceMissing),
        };
        let scheme = match &state.scheme {
            Some(s) => s,
            None => return Err(ConfigError::SchemeMissing),
        };
        let generated_workspace = match &stored.generated_workspace {
            Some(g) => Some(join_path(root, g.as_str())),
            None => None,
        };
        Ok(BspConfig {
            workspace_input: join_path(root, workspace_input.as_str()),
            generated_workspace,
            scheme: scheme.clone(),
            build_root: stored.build_root.clone(),
            compile_db_path: compile_db_path(root, profile),
        })
    }

    /// The state file content after saving this config into `state`: the workspace
    /// and scheme go to the top-level fields, the rest to `[bsp]`; project-local
    /// paths are stored relative to `root`. Other fields are kept.
    pub fn stored_state(&self, root: &str, state: CachedState) -> (out: CachedState)
        ensures
            stores_as(root@, *self, state, out),
    {
        let generated_workspace = match &self.generated_workspace {
            Some(g) => Some(relativize(root, g.as_str())),
            None => None,
        };
        CachedState {
            workspace: Some(relativize(root, self.workspace_input.as_str())),
            scheme: Some(self.scheme.clone()),
            configuration: state.configuration,
            destination: state.destination,
            bsp: Some(StoredBspState { generated_workspace, build_root: self.build_root.clone() }),
        }
    }

    /// Whether this config belongs to the build of `scheme` in the workspace whose
    /// resolved path is `input_ws_abs`.
    pub fn matches(&self, input_ws_abs: &str, scheme: &str) -> (r: bool)
        ensures
            r == (self.scheme@ == scheme@ && components(self.workspace_input@) == components(
                input_ws_abs@,
            )),
    {
        let s = owned(scheme);
        self.scheme == s && paths_equal(self.workspace_input.as_str(), input_ws_abs)
    }

    /// The index store inside the DerivedData root.
    pub fn index_store_path(&self) -> (out: String)
        ensures
            out@ == index_store_spec(self.build_root@),
    {
        let d = join_path(self.build_root.as_str(), "Index.noindex");
        join_path(d.as_str(), "DataStore")
    }

    /// The workspace that builds run on: the generated one when there is one,
    /// else the workspace input.
    pub open spec fn effective_spec(&self) -> Seq<char> {
        match self.generated_workspace {
            Some(g) => g@,
            None => self.workspace_input@,
        }
    }

    /// The workspace that builds run on (see `effective_spec`).
    pub fn effective_workspace(&self) -> (out: &str)
        ensures
            out@ == self.effective_spec(),
    {
        match &self.generated_workspace {
            Some(g) => g.as_str(),
            None => self.workspace_input.as_str(),
        }
    }

    /// Whether builds run on a generated workspace rather than the input.
    pub fn uses_generated_workspace(&self) -> (r: bool)
        ensures
            r == self.generated_workspace is Some,
    {
        self.generated_workspace.is_some()
    }

    /// The version of the Build Server Protocol that the server speaks.
    pub fn bsp_version() -> (out: &'static str)
        ensures
            out@ == "2.2.0"@,
    {
        "2.2.0"
    }
}


/// Joining different relative names onto one directory gives different paths.
proof fn lemma_join_distinct(d: Seq<char>, f1: Seq<char>, f2: Seq<char>)
    requires
        f1 != f2,
        f1.len() > 0 && f1[0] != '/',
        f2.len() > 0 && f2[0] != '/',
    ensures
        join_spec(d, f1) != join_spec(d, f2),
{
    let h = if d.len() > 0 && d.last() != '/' {
        d + seq!['/']
    } else {
        d
    };
    assert(join_spec(d, f1) =~= h + f1);
    assert(join_spec(d, f2) =~= h + f2);
    if join_spec(d, f1) == join_spec(d, f2) {
        assert((h + f1).skip(h.len() as int) =~= f1);
        assert((h + f2).skip(h.len() as int) =~= f2);
    }
}

/// Names built as `prefix + p + suffix` differ for different `p`, and differ
/// from `alone` when that is shorter than `prefix + suffix`.
proof fn lemma_names_distinct(
    prefix: Seq<char>,
    suffix: Seq<char>,
    alone: Seq<char>,
    a: Option<Seq<char>>,
    b: Option<Seq<char>>,
)
    requires
        a != b,
        alone.len() < prefix.len() + suffix.len(),
    ensures
        (match a {
            Some(p) => prefix + p + suffix,
            None => alone,
        }) != (match b {
            Some(p) => prefix + p + suffix,
            None => alone,
        }),
{
    match (a, b) {
        (Some(p), Some(q)) => {
            if prefix + p + suffix == prefix + q + suffix {
                assert((prefix + p + suffix).len() == (prefix + q + suffix).len());
                assert(p.len() == q.len());
                assert((prefix + p + suffix).subrange(
                    prefix.len() as int,
                    (prefix.len() + p.len()) as int,
                ) =~= p);
                assert((prefix + q + suffix).subrange(
                    prefix.len() as int,
                    (prefix.len() + q.len()) as int,
                ) =~= q);
            }
        },
        _ => {},
    }
}

/// `c` is the config that the state file content `state` holds for the project
/// at `root` and `profile`: the top-level workspace and scheme plus the `[bsp]`
/// section, with workspace paths resolved against `root`.
pub open spec fn loads_as(
    root: Seq<char>,
    profile: Option<Seq<char>>,
    state: CachedState,
    c: BspConfig,
) -> bool {
    &&& state.bsp is Some
    &&& state.workspace is Some
    &&& state.scheme is Some
    &&& c.workspace_input@ == join_spec(root, state.workspace->0@)
    &&& opt_string_view(c.generated_workspace) == match state.bsp->0.generated_workspace {
        Some(g) => Some(join_spec(root, g@)),
        None => None,
    }
    &&& c.scheme@ == state.scheme->0@
    &&& c.build_root@ == state.bsp->0.build_root@
    &&& c.compile_db_path@ == compile_db_path_spec(root, profile)
}

/// `out` is the state file content `state` after `c` is saved into it: the
/// workspace and scheme go to the top-level fields, the rest to `[bsp]`;
/// project-local paths are stored relative to `root`. Other fields are kept.
pub open spec fn stores_as(root: Seq<char>, c: BspConfig, state: CachedState, out: CachedState) -> bool {
    &&& out.workspace is Some
    &&& out.workspace->0@ == relativize_spec(root, c.workspace_input@)
    &&& out.scheme is Some
    &&& out.scheme->0@ == c.scheme@
    &&& out.bsp is Some
    &&& opt_string_view(out.bsp->0.generated_workspace) == match c.generated_workspace {
        Some(g) => Some(relativize_spec(root, g@)),
        None => None,
    }
    &&& out.bsp->0.build_root@ == c.build_root@
    &&& out.configuration == state.configuration
    &&& out.destination == state.destination
}

/// The build settings that the BSP setup and the export read from
/// `xcodebuild -showBuildSettings -json`, each when it is a string.
#[derive(Debug, Clone)]
pub struct BuildSettings {
    pub symroot: Option<String>,
    pub product_name: Option<String>,
    pub wrapper_name: Option<String>,
    pub development_team: Option<String>,
}

/// Why no DerivedData root comes out of the build settings.
#[derive(Debug, Clone, Copy, PartialEq, Eq, Structural)]
pub enum SettingsError {
    /// The output is not a list of entries with a `buildSettings` object.
    Malformed,
    /// The first entry has no `SYMROOT` string (or there is no entry).
    NoSymroot,
}

/// The `buildSettings` objects of the entries, when the document is an array
/// of objects that each have one.
pub open spec fn settings_objects(j: JsonView) -> Option<Seq<JsonView>> {
    match j {
        JsonView::Array(es) => if forall|i: int| 0 <= i < es.len() ==> settings_entry(#[trigger] es[i]) {
            Some(es.map_values(|e: JsonView| member(e, "buildSettings"@)->0))
        } else {
            None
        },
        _ => None,
    }
}

/// The settings read from one `buildSettings` object.
pub open spec fn settings_spec(b: BuildSettings, o: JsonView) -> bool {
    &&& opt_string_view(b.symroot) == as_text(member(o, "SYMROOT"@))
    &&& opt_string_view(b.product_name) == as_text(member(o, "PRODUCT_NAME"@))
    &&& opt_string_view(b.wrapper_name) == as_text(member(o, "WRAPPER_NAME"@))
    &&& opt_string_view(b.development_team) == as_text(member(o, "DEVELOPMENT_TEAM"@))
}

fn settings_of(o: &Json) -> (out: BuildSettings)
    ensures
        settings_spec(out, o.view()),
{
    BuildSettings {
        symroot: text_of(get(o, "SYMROOT")),
        product_name: text_of(get(o, "PRODUCT_NAME")),
        wrapper_name: text_of(get(o, "WRAPPER_NAME")),
        development_team: text_of(get(o, "DEVELOPMENT_TEAM")),
    }
}

/// An entry that is an object with a `buildSettings` object.
pub open spec fn settings_entry(e: JsonView) -> bool {
    (e matches JsonView::Object(_)) && (member(e, "buildSettings"@) matches Some(
        JsonView::Object(_),
    ))
}

/// The `buildSettings` object of an entry, if it is one with such an object.
fn settings_object(e: &Json) -> (out: Option<&Json>)
    ensures
        out is Some == settings_entry(e.view()),
        out matches Some(o) ==> member(e.view(), "buildSettings"@) == Some(o.view()),
{
    match e {
        Json::Object(_) => {},
        _ => return None,
    }
    match get(e, "buildSettings") {
        Some(o) => match o {
            Json::Object(_) => Some(o),
            _ => None,
        },
        None => None,
    }
}

/// The settings of each entry, when every entry has a `buildSettings` object.
fn settings_list(es: &Vec<Json>) -> (out: Option<Vec<BuildSettings>>)
    ensures
        match out {
            Some(v) => v@.len() == es@.len() && forall|k: int|
                0 <= k < es@.len() ==> settings_entry((#[trigger] es@[k]).view()) && settings_spec(
                    v@[k],
                    member(es@[k].view(), "buildSettings"@)->0,
                ),
            None => exists|k: int| 0 <= k < es@.len() && !settings_entry((#[trigger] es@[k]).view()),
        },
{
    let mut out: Vec<BuildSettings> = Vec::new();
    let mut i: usize = 0;
    while i < es.len()
        invariant
            i <= es@.len(),
            out@.len() == i,
            forall|k: int|
                0 <= k < i ==> settings_entry((#[trigger] es@[k]).view()) && settings_spec(
                    out@[k],
                    member(es@[k].view(), "buildSettings"@)->0,
                ),
        decreases es@.len() - i,
    {
        match settings_object(&es[i]) {
            Some(o) => {
                out.push(settings_of(o));
            },
            None => {
                return None;
            },
        }
        i = i + 1;
    }
    Some(out)
}

/// Read the settings of each entry of `xcodebuild -showBuildSettings -json`;
/// `None` when the output is not JSON of that shape.
pub fn read_build_settings(output: &[u8]) -> (out: Option<Vec<BuildSettings>>)
    ensures
        match out {
            Some(v) => json_of(output@) matches Some(j) && settings_objects(j) matches Some(os)
                && v@.len() == os.len() && forall|i: int|
                0 <= i < os.len() ==> settings_spec(#[trigger] v@[i], os[i]),
            None => json_of(output@) is None || settings_objects(json_of(output@)->0) is None,
        },
{
    let doc = match parse_json(output) {
        Some(d) => d,
        None => return None,
    };
    let es = match &doc {
        Json::Array(es) => es,
        _ => return None,
    };
    let ghost ev = doc.view()->Array_0;
    assert(doc.view() == JsonView::Array(ev));
    assert(forall|k: int| 0 <= k < es@.len() ==> ev[k] == (#[trigger] es@[k]).view());
    let r = settings_list(es);
    proof {
        match r {
            Some(_) => {
                let os = ev.map_values(|e: JsonView| member(e, "buildSettings"@)->0);
                assert forall|k: int| 0 <= k < ev.len() implies settings_entry(#[trigger] ev[k]) by {
                    assert(ev[k] == es@[k].view());
                }
                assert(settings_objects(doc.view()) == Some(os));
            },
            None => {
                let k = choose|k: int| 0 <= k < es@.len() && !settings_entry((#[trigger] es@[k]).view());
                assert(ev[k] == es@[k].view());
            },
        }
    }
    r
}

/// The DerivedData root from the build settings: the first entry's `SYMROOT`,
/// two levels up.
pub fn build_root_from_settings(entries: &Vec<BuildSettings>) -> (out: Result<String, SettingsError>)
    ensures
        out is Ok <==> (entries@.len() > 0 && entries@[0].symroot is Some),
        out matches Ok(b) ==> b@ == build_root_spec(entries@[0].symroot->0@),
        out matches Err(e) ==> e == SettingsError::NoSymroot,
{
    if entries.len() == 0 {
        return Err(SettingsError::NoSymroot);
    }
    match &entries[0].symroot {
        Some(s) => Ok(build_root_from_symroot(s.as_str())),
        None => Err(SettingsError::NoSymroot),
    }
}

/// The strings among documents, in order.
pub open spec fn text_items(xs: Seq<JsonView>) -> Seq<Seq<char>>
    decreases xs.len(),
{
    if xs.len() == 0 {
        Seq::empty()
    } else {
        let init = text_items(xs.drop_last());
        match xs.last() {
            JsonView::Str(s) => init.push(s),
            _ => init,
        }
    }
}

/// The schemes that `xcodebuild -list -json` names for a workspace: the strings
/// of `workspace.schemes`, or none when that is not an array.
pub open spec fn schemes_spec(j: JsonView) -> Seq<Seq<char>> {
    match member_of(member(j, "workspace"@), "schemes"@) {
        Some(JsonView::Array(xs)) => text_items(xs),
        _ => Seq::empty(),
    }
}

/// Read the workspace's schemes from `xcodebuild -list -json`; `None` when the
/// output is not JSON.
pub fn read_schemes(output: &[u8]) -> (out: Option<Vec<String>>)
    ensures
        match out {
            Some(v) => json_of(output@) matches Some(j) && string_views(v@) == schemes_spec(j),
            None => json_of(output@) is None,
        },
{
    let doc = match parse_json(output) {
        Some(d) => d,
        None => return None,
    };
    let mut out: Vec<String> = Vec::new();
    match get_in(get(&doc, "workspace"), "schemes") {
        Some(Json::Array(xs)) => {
            let ghost xv = Seq::new(xs@.len(), |k: int| xs@[k].view());
            let mut i: usize = 0;
            while i < xs.len()
                invariant
                    i <= xs@.len(),
                    xv == Seq::new(xs@.len(), |k: int| xs@[k].view()),
                    string_views(out@) == text_items(xv.take(i as int)),
                decreases xs@.len() - i,
            {
                assert(xv.take(i + 1).drop_last() =~= xv.take(i as int));
                assert(xv.take(i + 1).last() == xs@[i as int].view());
                match &xs[i] {
                    Json::Str(t) => {
                        let ghost before = out@;
                        out.push(t.clone());
                        assert(string_views(out@) =~= string_views(before).push(t@));
                    },
                    _ => {},
                }
                i = i + 1;
            }
            proof {
                assert(xv.take(xs@.len() as int) =~= xv);
                assert(Json::Array(*xs).view()->Array_0 =~= xv);
            }
        },
        _ => {
            assert(string_views(out@) =~= Seq::<Seq<char>>::empty());
        },
    }
    Some(out)
}

/// What is saved is loaded back: a config saved into the state file (with
/// absolute workspace paths) loads, under any project root and profile, as the
/// same workspaces (equal as paths), scheme and DerivedData root. When the root
/// is absolute and the root and workspace paths are in normal form, each
/// workspace path other than the root comes back as the very same text.
pub proof fn lemma_saved_config_loads_back(
    root: Seq<char>,
    profile: Option<Seq<char>>,
    c: BspConfig,
    before: CachedState,
    saved: CachedState,
    back: BspConfig,
)
    requires
        is_absolute(c.workspace_input@),
        c.generated_workspace matches Some(g) ==> is_absolute(g@),
        stores_as(root, c, before, saved),
        loads_as(root, profile, saved, back),
    ensures
        components(back.workspace_input@) == components(c.workspace_input@),
        back.generated_workspace is Some == c.generated_workspace is Some,
        back.generated_workspace matches Some(bg) ==> components(bg@) == components(
            c.generated_workspace->0@,
        ),
        back.scheme@ == c.scheme@,
        back.build_root@ == c.build_root@,
        back.compile_db_path@ == compile_db_path_spec(root, profile),
        is_normal_root(root) && normalize_spec(c.workspace_input@) == c.workspace_input@
            && c.workspace_input@ != root ==> back.workspace_input@ == c.workspace_input@,
        (c.generated_workspace matches Some(g) && is_normal_root(root) && normalize_spec(g@) == g@
            && g@ != root) ==> back.generated_workspace->0@ == c.generated_workspace->0@,
{
    lemma_relativize_resolves_any_root(root, c.workspace_input@);
    if is_normal_root(root) && normalize_spec(c.workspace_input@) == c.workspace_input@
        && c.workspace_input@ != root {
        lemma_relativize_resolves_exactly(root, c.workspace_input@);
    }
    match c.generated_workspace {
        Some(g) => {
            lemma_relativize_resolves_any_root(root, g@);
            if is_normal_root(root) && normalize_spec(g@) == g@ && g@ != root {
                lemma_relativize_resolves_exactly(root, g@);
            }
        },
        None => {},
    }
}

/// An absolute project root in normal form (as the current directory is).
pub open spec fn is_normal_root(root: Seq<char>) -> bool {
    is_absolute(root) && normalize_spec(root) == root
}

/// Each profile keeps its own compile database and its own state file: different
/// profiles (or a profile and none) never share either path.
pub proof fn lemma_profiles_kept_apart(
    root: Seq<char>,
    a: Option<Seq<char>>,
    b: Option<Seq<char>>,
)
    requires
        a != b,
    ensures
        compile_db_path_spec(root, a) != compile_db_path_spec(root, b),
        state_path_spec(root, a) != state_path_spec(root, b),
{
    reveal_strlit("compile-db.");
    reveal_strlit(".json");
    reveal_strlit("compile-db.json");
    reveal_strlit("state.");
    reveal_strlit(".toml");
    reveal_strlit("state.toml");
    lemma_names_distinct("compile-db."@, ".json"@, "compile-db.json"@, a, b);
    lemma_names_distinct("state."@, ".toml"@, "state.toml"@, a, b);
    let fa = compile_db_file_spec(a);
    let fb = compile_db_file_spec(b);
    assert(fa.len() > 0 && fa[0] == 'c');
    assert(fb.len() > 0 && fb[0] == 'c');
    lemma_join_distinct(bsp_data_dir_spec(root), fa, fb);
    let sa = cache_file_spec(a);
    let sb = cache_file_spec(b);
    assert(sa.len() > 0 && sa[0] == 's');
    assert(sb.len() > 0 && sb[0] == 's');
    lemma_join_distinct(join_spec(root, ".xcraft"@), sa, sb);
}

} // verus!
