//! The decisions of the BSP server: which handler a request goes to, message
//! framing, the registered documents, the source roots of the synthetic target and
//! the index database location.
use vstd::prelude::*;

use crate::config::{bsp_data_dir_spec, index_db_dir, BspConfig};
use crate::path::{is_absolute, join_path, join_spec, parent_path, parent_spec};
use crate::text::{chars_of, concat_chars, ends_with, has_prefix, starts_with, str_eq, string_of};
use crate::json::{
    as_text, get, get_in, json_of, member, member_of, opt_ref_view, parse_json, text_of, Json, JsonView,
};
use crate::xcactivitylog::{
    all_digits, digits_value, is_digit, parse_number, parse_number_spec, strip_lead, strip_trail,
    unsigned_digits, ws_prefix_len, ws_suffix_len,
};

verus! {

/// The one synthetic build target that the server exposes.
pub open spec fn target_uri_spec() -> Seq<char> {
    "dummy://xcraft"@
}

pub fn target_uri() -> (out: &'static str)
    ensures
        out@ == target_uri_spec(),
{
    "dummy://xcraft"
}

/// The requests the server tells apart.
#[derive(Debug, Clone, Copy, PartialEq, Eq, Structural)]
pub enum Method {
    Initialize,
    Initialized,
    BuildTargets,
    TargetSources,
    WaitForUpdates,
    RegisterForChanges,
    SourceKitOptions,
    Shutdown,
    Exit,
    Unknown,
}

/// The handler of a method name.
pub open spec fn method_spec(name: Seq<char>) -> Method {
    if name == "build/initialize"@ {
        Method::Initialize
    } else if name == "build/initialized"@ {
        Method::Initialized
    } else if name == "workspace/buildTargets"@ {
        Method::BuildTargets
    } else if name == "buildTarget/sources"@ {
        Method::TargetSources
    } else if name == "workspace/waitForBuildSystemUpdates"@ {
        Method::WaitForUpdates
    } else if name == "textDocument/registerForChanges"@ {
        Method::RegisterForChanges
    } else if name == "textDocument/sourceKitOptions"@ {
        Method::SourceKitOptions
    } else if name == "build/shutdown"@ {
        Method::Shutdown
    } else if name == "exit"@ {
        Method::Exit
    } else {
        Method::Unknown
    }
}

/// Dispatch a request by its method name.
pub fn method_of(name: &str) -> (out: Method)
    ensures
        out == method_spec(name@),
{
    if str_eq(name, "build/initialize") {
        Method::Initialize
    } else if str_eq(name, "build/initialized") {
        Method::Initialized
    } else if str_eq(name, "workspace/buildTargets") {
        Method::BuildTargets
    } else if str_eq(name, "buildTarget/sources") {
        Method::TargetSources
    } else if str_eq(name, "workspace/waitForBuildSystemUpdates") {
        Method::WaitForUpdates
    } else if str_eq(name, "textDocument/registerForChanges") {
        Method::RegisterForChanges
    } else if str_eq(name, "textDocument/sourceKitOptions") {
        Method::SourceKitOptions
    } else if str_eq(name, "build/shutdown") {
        Method::Shutdown
    } else if str_eq(name, "exit") {
        Method::Exit
    } else {
        Method::Unknown
    }
}

/// The message of the error answer to an unknown method.
pub fn unknown_method_message(name: &str) -> (out: String)
    ensures
        out@ == "unhandled method "@ + name@,
{
    let a = chars_of("unhandled method ");
    let b = chars_of(name);
    let c = concat_chars(a.as_slice(), b.as_slice());
    string_of(c.as_slice())
}

/// The text of an optional request field, empty when the field is absent.
pub open spec fn field_or_empty(f: Option<&str>) -> Seq<char> {
    match f {
        Some(t) => t@,
        None => Seq::empty(),
    }
}

/// Dispatch a request whose method name may be absent (an absent name is empty,
/// so the request is unknown).
pub fn request_method(method: Option<&str>) -> (out: Method)
    ensures
        out == method_spec(field_or_empty(method)),
{
    let name: &str = match method {
        Some(m) => m,
        None => "",
    };
    proof {
        reveal_strlit("");
    }
    assert(name@ == field_or_empty(method));
    method_of(name)
}

/// The JSON-RPC error code of a method the server does not handle.
pub open spec fn method_not_found() -> int {
    -32601
}

/// A JSON-RPC error answer.
#[derive(Debug, Clone)]
pub struct RpcError {
    pub code: i32,
    pub message: String,
}

/// The answer to a request for a method the server does not handle: an error
/// with the method-not-found code, and only when the message has an id (a
/// notification gets no answer).
pub fn unknown_method_answer(has_id: bool, method: Option<&str>) -> (out: Option<RpcError>)
    ensures
        out is Some == has_id,
        out matches Some(e) ==> e.code == method_not_found() && e.message@ == "unhandled method "@
            + field_or_empty(method),
{
    if !has_id {
        return None;
    }
    let name = match method {
        Some(m) => m,
        None => "",
    };
    proof {
        reveal_strlit("");
    }
    Some(RpcError { code: -32601, message: unknown_method_message(name) })
}

/// The decimal digit of `d < 10`.
pub open spec fn digit_char(d: nat) -> char {
    ((d + 48) as u32) as char
}

/// The decimal representation of `n`, without leading zeros.
pub open spec fn decimal_spec(n: nat) -> Seq<char>
    decreases n,
{
    if n < 10 {
        seq![digit_char(n)]
    } else {
        decimal_spec(n / 10).push(digit_char(n % 10))
    }
}

fn digit_exec(d: usize) -> (c: char)
    requires
        d < 10,
    ensures
        c == digit_char(d as nat),
{
    let cs = chars_of("0123456789");
    proof {
        reveal_strlit("0123456789");
    }
    cs[d]
}

/// The decimal representation of `n`.
pub fn decimal(n: usize) -> (out: String)
    ensures
        out@ == decimal_spec(n as nat),
    decreases n,
{
    let c = digit_exec(n % 10);
    let mut cs: Vec<char> = if n < 10 {
        Vec::new()
    } else {
        let head = decimal(n / 10);
        chars_of(head.as_str())
    };
    let ghost before = cs@;
    cs.push(c);
    proof {
        if n < 10 {
            assert(cs@ =~= seq![digit_char(n as nat)]);
        } else {
            assert(cs@ == decimal_spec((n / 10) as nat).push(digit_char((n % 10) as nat)));
        }
    }
    string_of(cs.as_slice())
}

/// The header block that frames a message body of `len` bytes.
pub open spec fn frame_header_spec(len: nat) -> Seq<char> {
    "Content-Length: "@ + decimal_spec(len) + "\r\n\r\n"@
}

/// Frame a JSON-RPC message body of `len` bytes with its `Content-Length` header.
pub fn frame_header(len: usize) -> (out: String)
    ensures
        out@ == frame_header_spec(len as nat),
{
    let a = chars_of("Content-Length: ");
    let d = decimal(len);
    let dc = chars_of(d.as_str());
    let b = chars_of("\r\n\r\n");
    let ad = concat_chars(a.as_slice(), dc.as_slice());
    let adb = concat_chars(ad.as_slice(), b.as_slice());
    string_of(adb.as_slice())
}

/// The bytes of a framed message: the header block (as UTF-8) and then the body.
pub open spec fn frame_spec(body: Seq<u8>) -> Seq<u8> {
    vstd::utf8::encode_utf8(frame_header_spec(body.len())) + body
}

/// Frame a message body with its `Content-Length` header.
pub fn frame_message(body: &[u8]) -> (out: Vec<u8>)
    ensures
        out@ == frame_spec(body@),
{
    let header = frame_header(body.len());
    let hb = header.as_str().as_bytes();
    let mut out: Vec<u8> = Vec::new();
    let mut i: usize = 0;
    while i < hb.len()
        invariant
            i <= hb@.len(),
            out@ == hb@.take(i as int),
        decreases hb@.len() - i,
    {
        out.push(hb[i]);
        assert(hb@.take(i + 1) =~= hb@.take(i as int).push(hb@[i as int]));
        i = i + 1;
    }
    let ghost h = out@;
    let mut j: usize = 0;
    while j < body.len()
        invariant
            j <= body@.len(),
            out@ == h + body@.take(j as int),
        decreases body@.len() - j,
    {
        out.push(body[j]);
        assert(h + body@.take(j + 1) =~= (h + body@.take(j as int)).push(body@[j as int]));
        j = j + 1;
    }
    assert(hb@.take(hb@.len() as int) =~= hb@);
    assert(body@.take(body@.len() as int) =~= body@);
    out
}

/// What one header line of a message tells the reader.
#[derive(Debug, Clone, Copy, PartialEq, Eq, Structural)]
pub enum HeaderLine {
    /// The blank line that ends the headers.
    End,
    /// A `Content-Length` header and its value.
    Length(usize),
    /// Any other header.
    Other,
}

/// Why a header cannot be read.
#[derive(Debug, Clone, Copy, PartialEq, Eq, Structural)]
pub enum HeaderError {
    /// The `Content-Length` value is not a `usize`.
    InvalidLength,
    /// The headers end without a `Content-Length`.
    MissingLength,
}

/// `s` without trailing `\r` and `\n` characters.
pub open spec fn trim_line_end(s: Seq<char>) -> Seq<char>
    decreases s.len(),
{
    if s.len() > 0 && (s.last() == '\r' || s.last() == '\n') {
        trim_line_end(s.drop_last())
    } else {
        s
    }
}

/// What a header line (as read, with its line end) means.
pub open spec fn header_spec(line: Seq<char>) -> Result<HeaderLine, HeaderError> {
    let t = trim_line_end(line);
    if t.len() == 0 {
        Ok(HeaderLine::End)
    } else if starts_with(t, "Content-Length:"@) {
        match parse_number_spec(vstd::utf8::encode_utf8(t.skip("Content-Length:"@.len() as int))) {
            Some(n) => Ok(HeaderLine::Length(n as usize)),
            None => Err(HeaderError::InvalidLength),
        }
    } else {
        Ok(HeaderLine::Other)
    }
}

/// Read one header line of a `Content-Length`-framed message.
#[verifier::spinoff_prover]
pub fn parse_header_line(line: &str) -> (out: Result<HeaderLine, HeaderError>)
    ensures
        out == header_spec(line@),
{
    let cs = chars_of(line);
    let mut n = cs.len();
    assert(cs@.take(n as int) =~= cs@);
    while n > 0 && (cs[n - 1] == '\r' || cs[n - 1] == '\n')
        invariant
            n <= cs@.len(),
            trim_line_end(line@) == trim_line_end(cs@.take(n as int)),
            cs@ == line@,
        decreases n,
    {
        assert(cs@.take(n as int).drop_last() =~= cs@.take(n - 1));
        n = n - 1;
    }
    proof {
        assert(cs@.take(cs@.len() as int) =~= cs@);
    }
    let ghost t = cs@.take(n as int);
    assert(trim_line_end(t) == t);
    if n == 0 {
        return Ok(HeaderLine::End);
    }
    let t_chars = crate::text::sub_chars(cs.as_slice(), 0, n);
    let p = chars_of("Content-Length:");
    if has_prefix(t_chars.as_slice(), p.as_slice()) {
        let rest = string_of(crate::text::sub_chars(t_chars.as_slice(), p.len(), n).as_slice());
        assert(rest@ =~= t.skip("Content-Length:"@.len() as int));
        let bytes = rest.as_str().as_bytes();
        match parse_number(bytes, 0, bytes.len()) {
            Some(v) => {
                assert(bytes@.subrange(0, bytes@.len() as int) =~= bytes@);
                Ok(HeaderLine::Length(v))
            },
            None => {
                assert(bytes@.subrange(0, bytes@.len() as int) =~= bytes@);
                Err(HeaderError::InvalidLength)
            },
        }
    } else {
        Ok(HeaderLine::Other)
    }
}

/// The documents the client has registered for change notifications.
#[derive(Debug, Clone)]
pub struct Registrations {
    pub uris: Vec<String>,
}

/// The set of registered documents.
pub open spec fn uri_set(v: Seq<String>) -> Set<Seq<char>> {
    Set::new(|u: Seq<char>| exists|i: int| 0 <= i < v.len() && (#[trigger] v[i])@ == u)
}

impl Registrations {
    pub fn new() -> (out: Registrations)
        ensures
            uri_set(out.uris@) == Set::<Seq<char>>::empty(),
    {
        let r = Registrations { uris: Vec::new() };
        assert(uri_set(r.uris@) =~= Set::<Seq<char>>::empty());
        r
    }

    /// Whether `uri` is registered.
    pub fn contains(&self, uri: &String) -> (r: bool)
        ensures
            r == uri_set(self.uris@).contains(uri@),
    {
        let mut i: usize = 0;
        while i < self.uris.len()
            invariant
                i <= self.uris@.len(),
                forall|j: int| 0 <= j < i ==> self.uris@[j]@ != uri@,
            decreases self.uris@.len() - i,
        {
            if self.uris[i] == *uri {
                assert(uri_set(self.uris@).contains(uri@));
                return true;
            }
            i = i + 1;
        }
        false
    }

    /// Apply a `textDocument/registerForChanges` request whose fields may be
    /// absent: an absent action or URI counts as empty.
    pub fn register_request(&mut self, action: Option<&str>, uri: Option<&str>)
        ensures
            uri_set(final(self).uris@) == if field_or_empty(action) == "register"@ {
                uri_set(old(self).uris@).insert(field_or_empty(uri))
            } else if field_or_empty(action) == "unregister"@ {
                uri_set(old(self).uris@).remove(field_or_empty(uri))
            } else {
                uri_set(old(self).uris@)
            },
    {
        let a = match action {
            Some(a) => a,
            None => "",
        };
        let u = match uri {
            Some(u) => crate::text::owned(u),
            None => String::new(),
        };
        proof {
            reveal_strlit("");
        }
        assert(a@ == field_or_empty(action));
        assert(u@ == field_or_empty(uri));
        self.register_for_changes(a, u);
    }

    /// Apply a `textDocument/registerForChanges` request: `register` adds the
    /// document, `unregister` removes it, any other action changes nothing.
    pub fn register_for_changes(&mut self, action: &str, uri: String)
        ensures
            uri_set(final(self).uris@) == if action@ == "register"@ {
                uri_set(old(self).uris@).insert(uri@)
            } else if action@ == "unregister"@ {
                uri_set(old(self).uris@).remove(uri@)
            } else {
                uri_set(old(self).uris@)
            },
    {
        if str_eq(action, "register") {
            if !self.contains(&uri) {
                let ghost before = self.uris@;
                self.uris.push(uri);
                assert forall|u: Seq<char>| uri_set(self.uris@).contains(u) <==> uri_set(
                    before,
                ).insert(uri@).contains(u) by {
                    if uri_set(before).contains(u) {
                        let i = choose|i: int| 0 <= i < before.len() && (#[trigger] before[i])@ == u;
                        assert(self.uris@[i] == before[i]);
                    }
                    if uri_set(self.uris@).contains(u) {
                        let i = choose|i: int| 0 <= i < self.uris@.len() && (#[trigger] self.uris@[i])@ == u;
                        if i < before.len() {
                            assert(self.uris@[i] == before[i]);
                        }
                    }
                    if u == uri@ {
                        assert(self.uris@[before.len() as int]@ == u);
                    }
                }
                assert(uri_set(self.uris@) =~= uri_set(before).insert(uri@));
            } else {
                assert(uri_set(self.uris@) =~= uri_set(self.uris@).insert(uri@));
            }
        } else if str_eq(action, "unregister") {
            let ghost before = self.uris@;
            let mut kept: Vec<String> = Vec::new();
            let mut i: usize = 0;
            while i < self.uris.len()
                invariant
                    i <= self.uris@.len(),
                    self.uris@ == before,
                    forall|j: int| 0 <= j < kept@.len() ==> (#[trigger] kept@[j])@ != uri@,
                    forall|u: Seq<char>| uri_set(kept@).contains(u) <==> (u != uri@ && uri_set(
                        before.take(i as int),
                    ).contains(u)),
                decreases self.uris@.len() - i,
            {
                let ghost kb = kept@;
                if self.uris[i] != uri {
                    kept.push(self.uris[i].clone());
                }
                assert forall|u: Seq<char>| uri_set(kept@).contains(u) <==> (u != uri@ && uri_set(
                    before.take(i + 1),
                ).contains(u)) by {
                    let bt = before.take(i + 1);
                    if uri_set(kept@).contains(u) {
                        let k = choose|k: int| 0 <= k < kept@.len() && (#[trigger] kept@[k])@ == u;
                        if k < kb.len() {
                            assert(kept@[k] == kb[k]);
                            assert(uri_set(kb).contains(u));
                            let t = choose|t: int| 0 <= t < before.take(i as int).len() && (
                            #[trigger] before.take(i as int)[t])@ == u;
                            assert(bt[t] == before.take(i as int)[t]);
                        } else {
                            assert(bt[i as int] == before[i as int]);
                        }
                    }
                    if u != uri@ && uri_set(bt).contains(u) {
                        let t = choose|t: int| 0 <= t < bt.len() && (#[trigger] bt[t])@ == u;
                        if t < i {
                            assert(before.take(i as int)[t] == bt[t]);
                            assert(uri_set(kb).contains(u));
                            let k = choose|k: int| 0 <= k < kb.len() && (#[trigger] kb[k])@ == u;
                            assert(kept@[k] == kb[k]);
                        } else {
                            assert(kept@[kb.len() as int]@ == u);
                        }
                    }
                }
                i = i + 1;
            }
            self.uris = kept;
            assert(before.take(before.len() as int) =~= before);
            assert(uri_set(self.uris@) =~= uri_set(before).remove(uri@));
        } else {
        }
    }
}

/// Wraps `md5::compute`, whose result is the MD5 digest of the bytes: sixteen
/// bytes, named here.
#[verifier::external_body]
fn md5_digest(data: &[u8]) -> (out: Vec<u8>)
    ensures
        out@ == md5_of(data@),
        out@.len() == 16,
{
    md5::compute(data).0.to_vec()
}

/// The MD5 digest of a byte sequence.
pub uninterp spec fn md5_of(data: Seq<u8>) -> Seq<u8>;

/// The lowercase hexadecimal digit of `d < 16`.
pub open spec fn hex_char(d: u8) -> char {
    if d < 10 {
        ((d + 48) as u32) as char
    } else {
        ((d + 87) as u32) as char
    }
}

/// Lowercase hexadecimal, two digits per byte (`{:02x}` of each byte).
pub open spec fn hex_spec(data: Seq<u8>) -> Seq<char>
    decreases data.len(),
{
    if data.len() == 0 {
        Seq::empty()
    } else {
        hex_spec(data.drop_last()) + seq![hex_char(data.last() / 16), hex_char(data.last() % 16)]
    }
}

fn hex_char_exec(d: u8) -> (c: char)
    requires
        d < 16,
    ensures
        c == hex_char(d),
{
    let table = "0123456789abcdef";
    proof {
        reveal_strlit("0123456789abcdef");
    }
    let cs = chars_of(table);
    let c = cs[d as usize];
    assert(c == hex_char(d)) by {
        reveal_strlit("0123456789abcdef");
    }
    c
}

/// Lowercase hexadecimal of bytes.
pub fn hex_lower(data: &[u8]) -> (out: String)
    ensures
        out@ == hex_spec(data@),
{
    let mut out: Vec<char> = Vec::new();
    let mut i: usize = 0;
    while i < data.len()
        invariant
            i <= data@.len(),
            out@ == hex_spec(data@.take(i as int)),
        decreases data@.len() - i,
    {
        assert(data@.take(i + 1).drop_last() =~= data@.take(i as int));
        let b = data[i];
        let hi = hex_char_exec(b / 16);
        let lo = hex_char_exec(b % 16);
        let ghost before = out@;
        out.push(hi);
        out.push(lo);
        assert(out@ =~= before + seq![hi, lo]);
        i = i + 1;
    }
    assert(data@.take(data@.len() as int) =~= data@);
    string_of(out.as_slice())
}

/// Where the index database of an index store lives: one directory per index
/// store, named after the MD5 digest of the store's path, under the BSP data
/// directory.
pub open spec fn index_database_spec(root: Seq<char>, index_store: Seq<char>) -> Seq<char> {
    join_spec(
        bsp_data_dir_spec(root),
        "index-db-"@ + hex_spec(md5_of(vstd::utf8::encode_utf8(index_store))),
    )
}

/// The index database path for the project root and index store path.
pub fn index_database_path(root: &str, index_store_path: &str) -> (out: String)
    ensures
        out@ == index_database_spec(root@, index_store_path@),
{
    let digest = md5_digest(index_store_path.as_bytes());
    let hex = hex_lower(digest.as_slice());
    let a = chars_of("index-db-");
    let h = chars_of(hex.as_str());
    let name = string_of(concat_chars(a.as_slice(), h.as_slice()).as_slice());
    let dir = index_db_dir(root);
    join_path(dir.as_str(), name.as_str())
}

/// Wraps `url::Url::from_directory_path` (and the URL's text): the `file` URL of a
/// directory. As the crate's source shows on Unix, it exists exactly for absolute
/// paths, begins with `file://` and ends with `/`; the rest is named.
#[verifier::external_body]
fn directory_uri(path: &str) -> (out: Option<String>)
    ensures
        out is Some <==> is_absolute(path@),
        out matches Some(u) ==> u@ == directory_uri_of(path@) && starts_with(u@, "file://"@)
            && ends_with(u@, "/"@),
{
    url::Url::from_directory_path(path).ok().map(|u| u.to_string())
}

/// The `file` URL text of a directory path.
pub uninterp spec fn directory_uri_of(path: Seq<char>) -> Seq<char>;

/// Wraps `url::Url::parse` followed, for a URI that parses, by
/// `Url::to_file_path`: `None` when the text is no URL; else the file path that
/// the URL names, if it names a local path. Both results are named; nothing more
/// is stated of them.
#[verifier::external_body]
fn uri_to_path(uri: &str) -> (out: Option<Option<String>>)
    ensures
        out is Some == url_parses(uri@),
        out matches Some(r) ==> match r {
            Some(p) => file_path_of_uri(uri@) == Some(p@),
            None => file_path_of_uri(uri@) is None,
        },
{
    match url::Url::parse(uri) {
        Ok(u) => Some(u.to_file_path().ok().map(|p| p.display().to_string())),
        Err(_) => None,
    }
}

/// Whether a text parses as a URL.
pub uninterp spec fn url_parses(uri: Seq<char>) -> bool;

/// The local path that a URL names, if any.
pub uninterp spec fn file_path_of_uri(uri: Seq<char>) -> Option<Seq<char>>;

/// The directory that holds the sources of a workspace input: the input itself
/// when it is a directory, else its parent (the directory of a Tuist
/// `Project.swift`), or the input when it has no parent.
pub open spec fn input_source_dir_spec(input: Seq<char>, input_is_dir: bool) -> Seq<char> {
    if input_is_dir {
        input
    } else {
        match parent_spec(input) {
            Some(p) => p,
            None => input,
        }
    }
}

/// The source directory of the workspace input (see `input_source_dir_spec`);
/// `input_is_dir` tells whether the input is a directory on disk.
pub fn tuist_input_source_dir(config: &BspConfig, input_is_dir: bool) -> (out: String)
    ensures
        out@ == input_source_dir_spec(config.workspace_input@, input_is_dir),
{
    if input_is_dir {
        return config.workspace_input.clone();
    }
    match parent_path(config.workspace_input.as_str()) {
        Some(p) => p,
        None => config.workspace_input.clone(),
    }
}

/// `SourcePackages/checkouts` inside a DerivedData root, where Swift packages are
/// checked out.
pub open spec fn checkouts_dir_spec(build_root: Seq<char>) -> Seq<char> {
    join_spec(join_spec(build_root, "SourcePackages"@), "checkouts"@)
}

/// The package checkouts directory of the config's DerivedData root.
pub fn source_packages_checkouts_dir(config: &BspConfig) -> (out: String)
    ensures
        out@ == checkouts_dir_spec(config.build_root@),
{
    let d = join_path(config.build_root.as_str(), "SourcePackages");
    join_path(d.as_str(), "checkouts")
}

/// The source roots of the synthetic target: the effective workspace; then,
/// when builds use a generated workspace, the directory of the workspace input
/// (where Tuist sources live); then the package checkouts when that directory
/// exists.
pub open spec fn source_roots_spec(
    config: BspConfig,
    input_is_dir: bool,
    checkouts_exist: bool,
) -> Seq<Seq<char>> {
    seq![config.effective_spec()] + (if config.generated_workspace is Some {
        seq![input_source_dir_spec(config.workspace_input@, input_is_dir)]
    } else {
        Seq::empty()
    }) + (if checkouts_exist {
        seq![checkouts_dir_spec(config.build_root@)]
    } else {
        Seq::empty()
    })
}

/// The source root directories of the synthetic target (see `source_roots_spec`).
pub fn source_roots(config: &BspConfig, input_is_dir: bool, checkouts_exist: bool) -> (out: Vec<
    String,
>)
    ensures
        crate::text::string_views(out@) == source_roots_spec(*config, input_is_dir, checkouts_exist),
{
    let mut out: Vec<String> = Vec::new();
    out.push(crate::text::owned(config.effective_workspace()));
    if config.uses_generated_workspace() {
        out.push(tuist_input_source_dir(config, input_is_dir));
    }
    if checkouts_exist {
        out.push(source_packages_checkouts_dir(config));
    }
    assert(crate::text::string_views(out@) =~= source_roots_spec(
        *config,
        input_is_dir,
        checkouts_exist,
    ));
    out
}

/// The directory URIs of paths: all of them when every path is absolute, else
/// the first path that has none.
pub fn directory_uris(paths: &Vec<String>) -> (out: Result<Vec<String>, String>)
    ensures
        match out {
            Ok(uris) => {
                &&& forall|i: int| 0 <= i < paths@.len() ==> is_absolute(#[trigger] paths@[i]@)
                &&& uris@.len() == paths@.len()
                &&& forall|i: int|
                    0 <= i < paths@.len() ==> (#[trigger] uris@[i])@ == directory_uri_of(
                        paths@[i]@,
                    )
            },
            Err(p) => exists|i: int|
                0 <= i < paths@.len() && !is_absolute(#[trigger] paths@[i]@) && p@ == paths@[i]@
                    && forall|j: int| 0 <= j < i ==> is_absolute(paths@[j]@),
        },
{
    let mut uris: Vec<String> = Vec::new();
    let mut i: usize = 0;
    while i < paths.len()
        invariant
            i <= paths@.len(),
            uris@.len() == i,
            forall|j: int| 0 <= j < i ==> is_absolute(#[trigger] paths@[j]@),
            forall|j: int| 0 <= j < i ==> (#[trigger] uris@[j])@ == directory_uri_of(paths@[j]@),
        decreases paths@.len() - i,
    {
        match directory_uri(paths[i].as_str()) {
            Some(u) => {
                uris.push(u);
            },
            None => {
                return Err(paths[i].clone());
            },
        }
        i = i + 1;
    }
    Ok(uris)
}

/// The bytes of characters below 256, one byte per character.
pub open spec fn narrow_bytes(s: Seq<char>) -> Seq<u8> {
    s.map_values(|c: char| c as u8)
}

proof fn lemma_decimal_digits(n: nat)
    ensures
        decimal_spec(n).len() > 0,
        forall|i: int|
            0 <= i < decimal_spec(n).len() ==> '0' <= #[trigger] decimal_spec(n)[i] <= '9',
        digits_value(narrow_bytes(decimal_spec(n))) == n,
    decreases n,
{
    let d = decimal_spec(n);
    let e = narrow_bytes(d);
    if n < 10 {
        assert(e.drop_last() =~= Seq::<u8>::empty());
        assert(digit_char(n) as u8 == n + 48);
        assert(e.last() == d[0] as u8);
        assert(digits_value(e) == digits_value(e.drop_last()) * 10 + (e.last() - 0x30) as nat);
    } else {
        lemma_decimal_digits(n / 10);
        let h = decimal_spec(n / 10);
        assert(d == h.push(digit_char(n % 10)));
        assert(e.drop_last() =~= narrow_bytes(h));
        assert(digit_char(n % 10) as u8 == n % 10 + 48);
        assert(e.last() == digit_char(n % 10) as u8);
        assert(forall|i: int| 0 <= i < h.len() ==> d[i] == h[i]);
        assert(digits_value(e) == digits_value(e.drop_last()) * 10 + (e.last() - 0x30) as nat);
        assert(digits_value(e) == (n / 10) * 10 + n % 10);
    }
}

/// What the writer frames, the reader reads back: the header block written
/// before a body of `n` bytes, read as lines (each with its line end), is a
/// `Content-Length` line giving `n` followed by the blank line that ends the
/// headers.
pub proof fn lemma_frame_header_read_back(n: nat)
    requires
        n <= usize::MAX,
    ensures
        ({
            let h = frame_header_spec(n);
            &&& header_spec(h.take(h.len() - 2)) == Ok::<HeaderLine, HeaderError>(
                HeaderLine::Length(n as usize),
            )
            &&& header_spec(h.skip(h.len() - 2)) == Ok::<HeaderLine, HeaderError>(HeaderLine::End)
            &&& content_length_spec(seq![h.take(h.len() - 2), h.skip(h.len() - 2)]) == Ok::<
                usize,
                HeaderError,
            >(n as usize)
        }),
{
    reveal_strlit("Content-Length: ");
    reveal_strlit("Content-Length:");
    reveal_strlit("\r\n\r\n");
    lemma_decimal_digits(n);
    let p = "Content-Length: "@;
    let d = decimal_spec(n);
    let h = frame_header_spec(n);
    let line = h.take(h.len() - 2);
    let t = p + d;
    assert(line =~= t + seq!['\r', '\n']);
    assert(line.drop_last() =~= t + seq!['\r']);
    assert((t + seq!['\r']).drop_last() =~= t);
    assert(t.last() == d.last());
    assert(trim_line_end(t) == t);
    assert(trim_line_end(t + seq!['\r']) == trim_line_end(t));
    assert(trim_line_end(line) == trim_line_end(t + seq!['\r']));
    assert(starts_with(t, "Content-Length:"@)) by {
        assert(t.take(15) =~= "Content-Length:"@);
    }
    let rest = t.skip(15);
    assert(rest =~= seq![' '] + d);
    let bytes = vstd::utf8::encode_utf8(rest);
    assert(vstd::utf8::is_ascii_chars(rest)) by {
        assert forall|i: int| 0 <= i < rest.len() implies '\0' <= #[trigger] rest[i] <= '\u{7f}' by {
            if i > 0 {
                assert(rest[i] == d[i - 1]);
            }
        }
    }
    vstd::utf8::is_ascii_chars_encode_utf8(rest);
    let e = narrow_bytes(d);
    assert(bytes.len() == d.len() + 1);
    assert(bytes[0] == 0x20u8);
    assert(bytes.skip(1) =~= e) by {
        assert forall|i: int| 0 <= i < e.len() implies bytes.skip(1)[i] == e[i] by {
            assert(rest[i + 1] == d[i]);
        }
    }
    assert(ws_prefix_len(bytes) == 1);
    assert(strip_lead(bytes) == strip_lead(e));
    assert(e[0] == d[0] as u8);
    assert(ws_prefix_len(e) == 0);
    assert(strip_lead(e) == e);
    let k = e.len() - 1;
    assert(e[k] == d[k] as u8);
    assert(ws_suffix_len(e) == 0) by {
        if e.len() >= 2 {
            assert(e[k - 1] == d[k - 1] as u8);
        }
        if e.len() >= 3 {
            assert(e[k - 2] == d[k - 2] as u8);
        }
    }
    assert(strip_trail(e) == e);
    assert(unsigned_digits(e) == e);
    assert(all_digits(e)) by {
        assert forall|i: int| 0 <= i < e.len() implies is_digit(#[trigger] e[i]) by {
            assert(e[i] == d[i] as u8);
        }
    }
    assert(parse_number_spec(bytes) == Some(n));
    assert(h.skip(h.len() - 2) =~= seq!['\r', '\n']);
    assert(seq!['\r', '\n'].drop_last() =~= seq!['\r']);
    assert(seq!['\r'].drop_last() =~= Seq::<char>::empty());
    assert(trim_line_end(seq!['\r']) == trim_line_end(Seq::<char>::empty()));
    assert(trim_line_end(seq!['\r', '\n']) == trim_line_end(seq!['\r']));
    assert(header_spec(h.skip(h.len() - 2)) == Ok::<HeaderLine, HeaderError>(HeaderLine::End));
    assert(header_spec(line) == Ok::<HeaderLine, HeaderError>(HeaderLine::Length(n as usize)));
    let two = seq![line, h.skip(h.len() - 2)];
    assert(two.drop_last() =~= seq![line]);
    assert(seq![line].drop_last() =~= Seq::<Seq<char>>::empty());
    assert(!ended(Seq::<Seq<char>>::empty()));
    assert(!ended(seq![line])) by {
        if ended(seq![line]) {
            let k = choose|k: int| 0 <= k < 1 && header_spec(#[trigger] seq![line][k]) == Ok::<
                HeaderLine,
                HeaderError,
            >(HeaderLine::End);
            assert(seq![line][k] == line);
        }
    }
    assert(headers_fold(Seq::<Seq<char>>::empty()) == Ok::<Option<usize>, HeaderError>(None));
    assert(seq![line].last() == line);
    assert(two.last() == h.skip(h.len() - 2));
    assert(headers_fold(seq![line]) == Ok::<Option<usize>, HeaderError>(Some(n as usize)));
    assert(headers_fold(two) == Ok::<Option<usize>, HeaderError>(Some(n as usize)));
}

/// Why a request's URI cannot be used.
#[derive(Debug, Clone)]
pub enum UriError {
    /// The text does not parse as a URL.
    Invalid(String),
    /// The URL does not name a local file path.
    Unsupported(String),
}

/// The local path that a document or root URI names; the URI itself in the
/// error when it is no URL or names no local path.
pub fn file_path_from_uri(uri: &str) -> (out: Result<String, UriError>)
    ensures
        match out {
            Ok(p) => url_parses(uri@) && file_path_of_uri(uri@) == Some(p@),
            Err(UriError::Invalid(u)) => !url_parses(uri@) && u@ == uri@,
            Err(UriError::Unsupported(u)) => url_parses(uri@) && file_path_of_uri(uri@) is None
                && u@ == uri@,
        },
{
    match uri_to_path(uri) {
        Some(Some(p)) => Ok(p),
        Some(None) => Err(UriError::Unsupported(crate::text::owned(uri))),
        None => Err(UriError::Invalid(crate::text::owned(uri))),
    }
}

/// The index paths that the server announces when it is initialized.
#[derive(Debug, Clone)]
pub struct IndexPaths {
    /// The index store that Xcode builds write.
    pub index_store_path: String,
    /// The database that the language server keeps for that store.
    pub index_database_path: String,
}

/// The index store of the config and the index database that goes with it.
pub fn index_paths(root: &str, config: &BspConfig) -> (out: IndexPaths)
    ensures
        out.index_store_path@ == crate::config::index_store_spec(config.build_root@),
        out.index_database_path@ == index_database_spec(root@, out.index_store_path@),
{
    let store = config.index_store_path();
    let db = index_database_path(root, store.as_str());
    IndexPaths { index_store_path: store, index_database_path: db }
}

/// The headers read so far: the last `Content-Length` seen, or the error that
/// stops the reading. Reading stops at the blank line.
pub open spec fn headers_fold(lines: Seq<Seq<char>>) -> Result<Option<usize>, HeaderError>
    decreases lines.len(),
{
    if lines.len() == 0 {
        Ok(None)
    } else {
        match headers_fold(lines.drop_last()) {
            Err(e) => Err(e),
            Ok(len) => if ended(lines.drop_last()) {
                Ok(len)
            } else {
                match header_spec(lines.last()) {
                    Err(e) => Err(e),
                    Ok(HeaderLine::Length(n)) => Ok(Some(n)),
                    Ok(_) => Ok(len),
                }
            },
        }
    }
}

/// Some line of `lines` is the blank line that ends the headers.
pub open spec fn ended(lines: Seq<Seq<char>>) -> bool {
    exists|i: int| 0 <= i < lines.len() && header_spec(#[trigger] lines[i]) == Ok::<
        HeaderLine,
        HeaderError,
    >(HeaderLine::End)
}

/// The body length that the header lines of a message announce: the last
/// `Content-Length` before the blank line; an invalid value stops the reading.
pub open spec fn content_length_spec(lines: Seq<Seq<char>>) -> Result<usize, HeaderError> {
    match headers_fold(lines) {
        Err(e) => Err(e),
        Ok(Some(n)) => Ok(n),
        Ok(None) => Err(HeaderError::MissingLength),
    }
}

/// The body length announced by the header lines of a message, as read (each
/// with its line end).
pub fn content_length(lines: &Vec<String>) -> (out: Result<usize, HeaderError>)
    ensures
        out == content_length_spec(crate::text::string_views(lines@)),
{
    let ghost lv = crate::text::string_views(lines@);
    let mut len: Option<usize> = None;
    let mut i: usize = 0;
    while i < lines.len()
        invariant
            i <= lines@.len(),
            lv == crate::text::string_views(lines@),
            headers_fold(lv.take(i as int)) == Ok::<Option<usize>, HeaderError>(len),
            !ended(lv.take(i as int)),
        decreases lines@.len() - i,
    {
        let ghost pre = lv.take(i as int);
        proof {
            assert(lv.take(i + 1).drop_last() =~= pre);
            assert(lv.take(i + 1).last() == lines@[i as int]@);
        }
        match parse_header_line(lines[i].as_str()) {
            Err(e) => {
                proof {
                    lemma_fold_after_stop(lv, i as int + 1);
                }
                return Err(e);
            },
            Ok(HeaderLine::End) => {
                proof {
                    assert(ended(lv.take(i + 1))) by {
                        assert(lv.take(i + 1)[i as int] == lines@[i as int]@);
                    }
                    lemma_fold_after_stop(lv, i as int + 1);
                }
                return match len {
                    Some(n) => Ok(n),
                    None => Err(HeaderError::MissingLength),
                };
            },
            Ok(HeaderLine::Length(n)) => {
                len = Some(n);
            },
            Ok(HeaderLine::Other) => {},
        }
        proof {
            assert(!ended(lv.take(i + 1))) by {
                if ended(lv.take(i + 1)) {
                    let k = choose|k: int| 0 <= k < i + 1 && header_spec(
                        #[trigger] lv.take(i + 1)[k],
                    ) == Ok::<HeaderLine, HeaderError>(HeaderLine::End);
                    if k < i {
                        assert(pre[k] == lv.take(i + 1)[k]);
                    }
                }
            }
        }
        i = i + 1;
    }
    proof {
        assert(lv.take(lines@.len() as int) =~= lv);
    }
    match len {
        Some(n) => Ok(n),
        None => Err(HeaderError::MissingLength),
    }
}

/// Once the headers have ended or failed, later lines change nothing.
proof fn lemma_fold_after_stop(lines: Seq<Seq<char>>, n: int)
    requires
        0 <= n <= lines.len(),
        ended(lines.take(n)) || headers_fold(lines.take(n)) is Err,
    ensures
        headers_fold(lines) == headers_fold(lines.take(n)),
    decreases lines.len() - n,
{
    if n < lines.len() {
        let init = lines.drop_last();
        assert(init.take(n) =~= lines.take(n));
        lemma_fold_after_stop(init, n);
        if ended(lines.take(n)) {
            let k = choose|k: int| 0 <= k < n && header_spec(#[trigger] lines.take(n)[k]) == Ok::<
                HeaderLine,
                HeaderError,
            >(HeaderLine::End);
            assert(init[k] == lines.take(n)[k]);
            assert(ended(init));
        }
    } else {
        assert(lines.take(n) =~= lines);
    }
}

/// The sources of the requested targets: the positions of the requested targets
/// that are the synthetic target, and the directory URIs of its source roots.
#[derive(Debug, Clone)]
pub struct TargetSources {
    pub targets: Vec<usize>,
    pub uris: Vec<String>,
}

/// The positions of the requested targets (given by their URIs) that are the
/// synthetic target.
pub open spec fn matching_targets(uris: Seq<Option<Seq<char>>>) -> Seq<int>
    decreases uris.len(),
{
    if uris.len() == 0 {
        Seq::empty()
    } else if uris.last() == Some(target_uri_spec()) {
        matching_targets(uris.drop_last()).push(uris.len() - 1)
    } else {
        matching_targets(uris.drop_last())
    }
}

pub open spec fn opt_strings_view(v: Seq<Option<String>>) -> Seq<Option<Seq<char>>> {
    v.map_values(|o: Option<String>| crate::config::opt_string_view(o))
}

/// Answer a `buildTarget/sources` request (an absent target list asks for none): the requested targets that are the
/// synthetic target get its source roots (see `source_roots_spec`) as directory
/// URIs. Fails with the first source root that has no directory URI, when some
/// target asks for them.
pub fn build_target_sources(
    config: &BspConfig,
    targets: Option<&Vec<Option<String>>>,
    input_is_dir: bool,
    checkouts_exist: bool,
) -> (out: Result<TargetSources, String>)
    ensures
        ({
            let roots = source_roots_spec(*config, input_is_dir, checkouts_exist);
            let wanted = match targets {
                Some(t) => matching_targets(opt_strings_view(t@)),
                None => Seq::empty(),
            };
            match out {
                Ok(ts) => {
                    &&& ts.targets@.map_values(|k: usize| k as int) == wanted
                    &&& (wanted.len() == 0 ==> ts.uris@.len() == 0)
                    &&& (wanted.len() > 0 ==> {
                        &&& ts.uris@.len() == roots.len()
                        &&& forall|i: int|
                            0 <= i < roots.len() ==> is_absolute(#[trigger] roots[i])
                                && ts.uris@[i]@ == directory_uri_of(roots[i])
                    })
                },
                Err(p) => wanted.len() > 0 && exists|i: int|
                    0 <= i < roots.len() && !is_absolute(#[trigger] roots[i]) && p@ == roots[i]
                        && forall|j: int| 0 <= j < i ==> is_absolute(roots[j]),
            }
        }),
{
    let empty: Vec<Option<String>> = Vec::new();
    let target_uris = match targets {
        Some(t) => t,
        None => &empty,
    };
    assert(opt_strings_view(empty@) =~= Seq::<Option<Seq<char>>>::empty());
    let ghost tv = opt_strings_view(target_uris@);
    let mut targets: Vec<usize> = Vec::new();
    let mut i: usize = 0;
    let want = target_uri();
    while i < target_uris.len()
        invariant
            i <= target_uris@.len(),
            tv == opt_strings_view(target_uris@),
            want@ == target_uri_spec(),
            targets@.map_values(|k: usize| k as int) == matching_targets(tv.take(i as int)),
        decreases target_uris@.len() - i,
    {
        proof {
            assert(tv.take(i + 1).drop_last() =~= tv.take(i as int));
            assert(tv.take(i + 1).last() == crate::config::opt_string_view(target_uris@[i as int]));
        }
        let hit = match &target_uris[i] {
            Some(u) => str_eq(u.as_str(), want),
            None => false,
        };
        if hit {
            let ghost before = targets@;
            targets.push(i);
            assert(targets@.map_values(|k: usize| k as int) =~= before.map_values(
                |k: usize| k as int,
            ).push(i as int));
        }
        i = i + 1;
    }
    proof {
        assert(tv.take(target_uris@.len() as int) =~= tv);
    }
    if targets.len() == 0 {
        return Ok(TargetSources { targets, uris: Vec::new() });
    }
    let roots = source_roots(config, input_is_dir, checkouts_exist);
    match directory_uris(&roots) {
        Ok(uris) => {
            proof {
                let rv = crate::text::string_views(roots@);
                assert forall|k: int| 0 <= k < rv.len() implies is_absolute(#[trigger] rv[k])
                    && uris@[k]@ == directory_uri_of(rv[k]) by {
                    assert(rv[k] == roots@[k]@);
                }
            }
            Ok(TargetSources { targets, uris })
        },
        Err(p) => {
            proof {
                let rv = crate::text::string_views(roots@);
                let k = choose|k: int|
                    0 <= k < roots@.len() && !is_absolute(#[trigger] roots@[k]@) && p@ == roots@[k]@
                        && forall|j: int| 0 <= j < k ==> is_absolute(roots@[j]@);
                assert(rv[k] == roots@[k]@);
                assert forall|j: int| 0 <= j < k implies is_absolute(rv[j]) by {
                    assert(rv[j] == roots@[j]@);
                }
            }
            Err(p)
        },
    }
}

/// What the server reads of a JSON-RPC message.
#[derive(Debug, Clone)]
pub struct Request {
    /// The message has an `id` (it is a request, not a notification).
    pub has_id: bool,
    /// The `method`, when it is a string.
    pub method: Option<String>,
    /// The `params` are an object.
    pub params_is_object: bool,
    /// `params.rootUri`, when it is a string.
    pub root_uri: Option<String>,
    /// `params.targets`, when it is an array: the `uri` of each target, when it
    /// is a string.
    pub target_uris: Option<Vec<Option<String>>>,
    /// `params.action`, when it is a string.
    pub action: Option<String>,
    /// `params.uri`, when it is a string.
    pub uri: Option<String>,
    /// `params.textDocument.uri`, when it is a string.
    pub document_uri: Option<String>,
}

pub open spec fn opt_text_view(o: Option<String>) -> Option<Seq<char>> {
    match o {
        Some(s) => Some(s@),
        None => None,
    }
}

/// The `uri` of each target of a target list.
pub open spec fn targets_spec(targets: Option<JsonView>) -> Option<Seq<Option<Seq<char>>>> {
    match targets {
        Some(JsonView::Array(ts)) => Some(ts.map_values(|t: JsonView| as_text(member(t, "uri"@)))),
        _ => None,
    }
}

/// The fields of a message (see `Request`).
pub open spec fn request_spec(r: Request, m: JsonView) -> bool {
    let params = member(m, "params"@);
    &&& r.has_id == member(m, "id"@) is Some
    &&& opt_text_view(r.method) == as_text(member(m, "method"@))
    &&& r.params_is_object == (params matches Some(JsonView::Object(_)))
    &&& opt_text_view(r.root_uri) == as_text(member_of(params, "rootUri"@))
    &&& match r.target_uris {
        Some(v) => targets_spec(member_of(params, "targets"@)) == Some(opt_strings_view(v@)),
        None => targets_spec(member_of(params, "targets"@)) is None,
    }
    &&& opt_text_view(r.action) == as_text(member_of(params, "action"@))
    &&& opt_text_view(r.uri) == as_text(member_of(params, "uri"@))
    &&& opt_text_view(r.document_uri) == as_text(
        member_of(member_of(params, "textDocument"@), "uri"@),
    )
}

fn text_field(j: Option<&Json>, key: &str) -> (out: Option<String>)
    ensures
        opt_text_view(out) == as_text(member_of(opt_ref_view(j), key@)),
{
    text_of(get_in(j, key))
}

/// The `uri` of each target in `params.targets`, when that is an array.
fn target_uris_of(params: Option<&Json>) -> (out: Option<Vec<Option<String>>>)
    ensures
        match out {
            Some(v) => targets_spec(member_of(opt_ref_view(params), "targets"@)) == Some(
                opt_strings_view(v@),
            ),
            None => targets_spec(member_of(opt_ref_view(params), "targets"@)) is None,
        },
{
    match get_in(params, "targets") {
        Some(Json::Array(ts)) => {
            let mut v: Vec<Option<String>> = Vec::new();
            let mut i: usize = 0;
            while i < ts.len()
                invariant
                    i <= ts@.len(),
                    v@.len() == i,
                    forall|k: int|
                        0 <= k < i ==> crate::config::opt_string_view(#[trigger] v@[k]) == as_text(
                            member(ts@[k].view(), "uri"@),
                        ),
                decreases ts@.len() - i,
            {
                let u = text_of(get(&ts[i], "uri"));
                v.push(u);
                i = i + 1;
            }
            proof {
                let tv = Json::Array(*ts).view()->Array_0;
                assert(opt_strings_view(v@) =~= tv.map_values(
                    |x: JsonView| as_text(member(x, "uri"@)),
                ));
            }
            Some(v)
        },
        _ => None,
    }
}

/// Read what the server needs of a message.
#[verifier::spinoff_prover]
pub fn request_of(m: &Json) -> (out: Request)
    ensures
        request_spec(out, m.view()),
{
    let params = get(m, "params");
    let params_is_object = match params {
        Some(Json::Object(_)) => true,
        _ => false,
    };
    let target_uris = target_uris_of(params);
    let document = get_in(params, "textDocument");
    Request {
        has_id: get(m, "id").is_some(),
        method: text_field(Some(m), "method"),
        params_is_object,
        root_uri: text_field(params, "rootUri"),
        target_uris,
        action: text_field(params, "action"),
        uri: text_field(params, "uri"),
        document_uri: text_field(document, "uri"),
    }
}

/// What the loop does after a message.
#[derive(Debug, Clone, Copy, PartialEq, Eq, Structural)]
pub enum Reply {
    /// Stop serving.
    Stop,
    /// Send nothing.
    Silent,
    /// Send the handler's answer.
    Answer,
}

/// What the loop does with a message of this method: `exit` stops the server,
/// `build/initialized` and notifications of unknown methods get nothing, every
/// other message is answered.
pub fn reply_for(method: Method, has_id: bool) -> (out: Reply)
    ensures
        out == match method {
            Method::Exit => Reply::Stop,
            Method::Initialized => Reply::Silent,
            Method::Unknown => if has_id {
                Reply::Answer
            } else {
                Reply::Silent
            },
            _ => Reply::Answer,
        },
{
    match method {
        Method::Exit => Reply::Stop,
        Method::Initialized => Reply::Silent,
        Method::Unknown => if has_id {
            Reply::Answer
        } else {
            Reply::Silent
        },
        _ => Reply::Answer,
    }
}

/// Read a message body: the request, or `None` when the body is not JSON.
pub fn read_request(body: &[u8]) -> (out: Option<(Json, Request)>)
    ensures
        match out {
            Some((m, r)) => json_of(body@) == Some(m.view()) && request_spec(r, m.view()),
            None => json_of(body@) is None,
        },
{
    match parse_json(body) {
        Some(m) => {
            let r = request_of(&m);
            Some((m, r))
        },
        None => None,
    }
}

/// A framed message reads back: its bytes are the header block and then exactly
/// the body, and the header block, read as lines, announces the body's length.
pub proof fn lemma_message_read_back(body: Seq<u8>)
    requires
        body.len() <= usize::MAX,
    ensures
        ({
            let h = frame_header_spec(body.len());
            let hb = vstd::utf8::encode_utf8(h);
            &&& frame_spec(body).take(hb.len() as int) == hb
            &&& frame_spec(body).skip(hb.len() as int) == body
            &&& content_length_spec(seq![h.take(h.len() - 2), h.skip(h.len() - 2)]) == Ok::<
                usize,
                HeaderError,
            >(body.len() as usize)
        }),
{
    lemma_frame_header_read_back(body.len());
    let hb = vstd::utf8::encode_utf8(frame_header_spec(body.len()));
    assert(frame_spec(body).take(hb.len() as int) =~= hb);
    assert(frame_spec(body).skip(hb.len() as int) =~= body);
}

/// The package checkouts are a source root exactly when they exist, always the
/// last one, at `SourcePackages/checkouts` in the DerivedData root, whether or
/// not builds go through a generated workspace. Without a generated workspace
/// the roots are the workspace input and those checkouts; with one, the
/// generated workspace and the input's source directory come first.
pub proof fn lemma_source_roots_shape(config: BspConfig, input_is_dir: bool, checkouts_exist: bool)
    ensures
        ({
            let roots = source_roots_spec(config, input_is_dir, checkouts_exist);
            let checkouts = join_spec(join_spec(config.build_root@, "SourcePackages"@), "checkouts"@);
            &&& checkouts_exist ==> roots.len() >= 2 && roots.last() == checkouts
            &&& config.generated_workspace is None ==> roots == if checkouts_exist {
                seq![config.workspace_input@, checkouts]
            } else {
                seq![config.workspace_input@]
            }
            &&& config.generated_workspace matches Some(g) ==> roots.len() >= 2 && roots[0] == g@
                && roots[1] == input_source_dir_spec(config.workspace_input@, input_is_dir)
        }),
{
    let roots = source_roots_spec(config, input_is_dir, checkouts_exist);
    let checkouts = join_spec(join_spec(config.build_root@, "SourcePackages"@), "checkouts"@);
    if config.generated_workspace is None {
        if checkouts_exist {
            assert(roots =~= seq![config.workspace_input@, checkouts]);
        } else {
            assert(roots =~= seq![config.workspace_input@]);
        }
    }
}

} // verus!
