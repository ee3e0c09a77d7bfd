//! Archiving a project and exporting an IPA: the signing decision, the product
//! name, the `xcodebuild` arguments of both steps, the export options property
//! list and where the IPA is looked for.
use vstd::prelude::*;

use crate::config::BuildSettings;
use crate::path::{extension_of, extension_spec, join_path, join_spec};
use crate::text::{
    chars_of, concat_strs, contains_char, owned, starts_with, str_eq, str_has_prefix,
    string_views,
};

verus! {

/// Options for archiving and exporting an IPA.
#[derive(Debug, Clone)]
pub struct ExportOptions {
    /// The workspace or project path handed to `xcodebuild`.
    pub workspace_path: String,
    /// The workspace is an Xcode workspace, passed with `-workspace`.
    pub is_xcode_workspace: bool,
    pub scheme: String,
    pub configuration: String,
    /// Raw `-destination` string for `xcodebuild archive`
    /// (e.g. `generic/platform=iOS`).
    pub archive_dest_raw: String,
    pub derived_data: Option<String>,
    pub skip_codesigning: bool,
    pub xcbeautify: Option<bool>,
    pub extra_args: Vec<String>,
    pub extra_env: Vec<(String, String)>,
    pub output_dir: String,
}

/// The destination used for archives when the user names none: any iOS device.
pub open spec fn default_archive_destination() -> Seq<char> {
    "generic/platform=iOS"@
}

/// The `-destination` of the archive step: the one the user passed, else any iOS
/// device.
pub fn archive_destination(destination: Option<&str>) -> (out: String)
    ensures
        out@ == match destination {
            Some(d) => d@,
            None => default_archive_destination(),
        },
{
    match destination {
        Some(d) => owned(d),
        None => owned("generic/platform=iOS"),
    }
}

/// How the IPA is signed.
#[derive(Debug, Clone)]
pub struct Signing {
    /// The export is signed with the development team.
    pub signed: bool,
    /// The development team, empty when the build settings name none.
    pub team_id: String,
}

/// The export is signed exactly when code signing is not skipped and the build
/// settings name a non-empty development team.
pub fn export_signing(skip_codesigning: bool, development_team: Option<&str>) -> (out: Signing)
    ensures
        out.signed == (!skip_codesigning && match development_team {
            Some(t) => t@.len() > 0,
            None => false,
        }),
        out.team_id@ == match development_team {
            Some(t) => t@,
            None => Seq::<char>::empty(),
        },
{
    match development_team {
        Some(t) => Signing { signed: !skip_codesigning && chars_of(t).len() > 0, team_id: owned(t) },
        None => Signing { signed: false, team_id: String::new() },
    }
}

/// The product name: `PRODUCT_NAME`, else `WRAPPER_NAME`, else `App`.
pub fn product_name(product: Option<&str>, wrapper: Option<&str>) -> (out: String)
    ensures
        out@ == match (product, wrapper) {
            (Some(p), _) => p@,
            (None, Some(w)) => w@,
            (None, None) => "App"@,
        },
{
    match product {
        Some(p) => owned(p),
        None => match wrapper {
            Some(w) => owned(w),
            None => owned("App"),
        },
    }
}

/// The line that tells how the IPA is exported.
pub fn export_mode(signing: &Signing) -> (out: String)
    ensures
        out@ == if signing.signed {
            "signed (team: "@ + signing.team_id@ + ")"@
        } else {
            "unsigned"@
        },
{
    if signing.signed {
        let a = concat_strs("signed (team: ", signing.team_id.as_str());
        concat_strs(a.as_str(), ")")
    } else {
        owned("unsigned")
    }
}

/// The archive inside the temporary directory `dir`.
pub fn archive_path(dir: &str) -> (out: String)
    ensures
        out@ == join_spec(dir@, "archive.xcarchive"@),
{
    join_path(dir, "archive.xcarchive")
}

/// An extra argument that is a build setting (`KEY=VALUE`), not a flag.
pub open spec fn is_setting_arg(a: Seq<char>) -> bool {
    a.contains('=') && !starts_with(a, "-"@)
}

/// The extra arguments that follow the `archive` action: flags and other
/// arguments that are not build settings, except `archive` itself.
pub open spec fn is_trailing_arg(a: Seq<char>) -> bool {
    !is_setting_arg(a) && a != "archive"@
}

fn is_setting_arg_exec(a: &str) -> (r: bool)
    ensures
        r == is_setting_arg(a@),
{
    contains_char(a, '=') && !str_has_prefix(a, "-")
}

/// The `xcodebuild archive` arguments: build settings among the extra
/// arguments; the code signing overrides when signing is skipped; scheme,
/// configuration, destination and archive path; the DerivedData path when given;
/// the workspace when it is an Xcode workspace; the `archive` action; then the
/// other extra arguments.
pub open spec fn archive_args_spec(opts: ExportOptions, archive: Seq<char>) -> Seq<Seq<char>> {
    let extra = string_views(opts.extra_args@);
    extra.filter(|a: Seq<char>| is_setting_arg(a)) + (if opts.skip_codesigning {
        seq![
            "CODE_SIGNING_ALLOWED=NO"@,
            "CODE_SIGNING_REQUIRED=NO"@,
            "CODE_SIGN_IDENTITY=\"\""@,
        ]
    } else {
        Seq::empty()
    }) + seq![
        "-scheme"@,
        opts.scheme@,
        "-configuration"@,
        opts.configuration@,
        "-destination"@,
        opts.archive_dest_raw@,
        "-archivePath"@,
        archive,
    ] + (match opts.derived_data {
        Some(dd) => seq!["-derivedDataPath"@, dd@],
        None => Seq::empty(),
    }) + (if opts.is_xcode_workspace {
        seq!["-workspace"@, opts.workspace_path@]
    } else {
        Seq::empty()
    }) + seq!["archive"@] + extra.filter(|a: Seq<char>| is_trailing_arg(a))
}

fn push_str(out: &mut Vec<String>, s: &str)
    ensures
        string_views(final(out)@) == string_views(old(out)@).push(s@),
{
    let ghost before = out@;
    out.push(owned(s));
    assert(string_views(out@) =~= string_views(before).push(s@));
}

/// Append the extra arguments that are (`settings`) or are not build settings.
fn push_extra(out: &mut Vec<String>, extra: &Vec<String>, settings: bool)
    ensures
        string_views(final(out)@) == string_views(old(out)@) + if settings {
            string_views(extra@).filter(|a: Seq<char>| is_setting_arg(a))
        } else {
            string_views(extra@).filter(|a: Seq<char>| is_trailing_arg(a))
        },
{
    let ghost start = string_views(out@);
    let ghost ev = string_views(extra@);
    let ghost pred: spec_fn(Seq<char>) -> bool = if settings {
        |a: Seq<char>| is_setting_arg(a)
    } else {
        |a: Seq<char>| is_trailing_arg(a)
    };
    let mut i: usize = 0;
    while i < extra.len()
        invariant
            i <= extra@.len(),
            ev == string_views(extra@),
            pred == (if settings {
                |a: Seq<char>| is_setting_arg(a)
            } else {
                |a: Seq<char>| is_trailing_arg(a)
            }),
            string_views(out@) == start + ev.take(i as int).filter(pred),
        decreases extra@.len() - i,
    {
        let a = extra[i].as_str();
        let keep = if settings {
            is_setting_arg_exec(a)
        } else {
            !is_setting_arg_exec(a) && !str_eq(a, "archive")
        };
        assert(keep == pred(ev[i as int]));
        proof {
            reveal(Seq::filter);
            assert(ev.take(i + 1).drop_last() =~= ev.take(i as int));
            assert(ev.take(i + 1).last() == ev[i as int]);
        }
        if keep {
            push_str(out, a);
            assert(start + ev.take(i + 1).filter(pred) =~= (start + ev.take(i as int).filter(
                pred,
            )).push(ev[i as int]));
        }
        i = i + 1;
    }
    assert(ev.take(extra@.len() as int) =~= ev);
}

/// The arguments of the archive step (see `archive_args_spec`).
pub fn archive_args(opts: &ExportOptions, archive: &str) -> (out: Vec<String>)
    ensures
        string_views(out@) == archive_args_spec(*opts, archive@),
{
    let mut args: Vec<String> = Vec::new();
    push_extra(&mut args, &opts.extra_args, true);
    let ghost s1 = string_views(args@);
    if opts.skip_codesigning {
        push_str(&mut args, "CODE_SIGNING_ALLOWED=NO");
        push_str(&mut args, "CODE_SIGNING_REQUIRED=NO");
        push_str(&mut args, "CODE_SIGN_IDENTITY=\"\"");
    }
    let ghost s2 = string_views(args@);
    push_str(&mut args, "-scheme");
    push_str(&mut args, opts.scheme.as_str());
    push_str(&mut args, "-configuration");
    push_str(&mut args, opts.configuration.as_str());
    push_str(&mut args, "-destination");
    push_str(&mut args, opts.archive_dest_raw.as_str());
    push_str(&mut args, "-archivePath");
    push_str(&mut args, archive);
    let ghost s3 = string_views(args@);
    match &opts.derived_data {
        Some(dd) => {
            push_str(&mut args, "-derivedDataPath");
            push_str(&mut args, dd.as_str());
        },
        None => {},
    }
    let ghost s4 = string_views(args@);
    if opts.is_xcode_workspace {
        push_str(&mut args, "-workspace");
        push_str(&mut args, opts.workspace_path.as_str());
    }
    let ghost s5 = string_views(args@);
    push_str(&mut args, "archive");
    let ghost s6 = string_views(args@);
    push_extra(&mut args, &opts.extra_args, false);
    proof {
        let ev = string_views(opts.extra_args@);
        assert(s2 =~= s1 + (if opts.skip_codesigning {
            seq![
                "CODE_SIGNING_ALLOWED=NO"@,
                "CODE_SIGNING_REQUIRED=NO"@,
                "CODE_SIGN_IDENTITY=\"\""@,
            ]
        } else {
            Seq::empty()
        }));
        assert(s3 =~= s2 + seq![
            "-scheme"@,
            opts.scheme@,
            "-configuration"@,
            opts.configuration@,
            "-destination"@,
            opts.archive_dest_raw@,
            "-archivePath"@,
            archive@,
        ]);
        assert(s4 =~= s3 + match opts.derived_data {
            Some(dd) => seq!["-derivedDataPath"@, dd@],
            None => Seq::empty(),
        });
        assert(s5 =~= s4 + if opts.is_xcode_workspace {
            seq!["-workspace"@, opts.workspace_path@]
        } else {
            Seq::empty()
        });
        assert(s6 =~= s5 + seq!["archive"@]);
        assert(string_views(args@) =~= archive_args_spec(*opts, archive@));
    }
    args
}

/// The `xcodebuild -exportArchive` arguments.
pub open spec fn export_args_spec(
    archive: Seq<char>,
    output_dir: Seq<char>,
    plist: Seq<char>,
) -> Seq<Seq<char>> {
    seq![
        "-exportArchive"@,
        "-archivePath"@,
        archive,
        "-exportPath"@,
        output_dir,
        "-exportOptionsPlist"@,
        plist,
    ]
}

/// The arguments of the export step.
pub fn export_args(archive: &str, output_dir: &str, plist: &str) -> (out: Vec<String>)
    ensures
        string_views(out@) == export_args_spec(archive@, output_dir@, plist@),
{
    let mut args: Vec<String> = Vec::new();
    push_str(&mut args, "-exportArchive");
    push_str(&mut args, "-archivePath");
    push_str(&mut args, archive);
    push_str(&mut args, "-exportPath");
    push_str(&mut args, output_dir);
    push_str(&mut args, "-exportOptionsPlist");
    push_str(&mut args, plist);
    assert(string_views(args@) =~= export_args_spec(archive@, output_dir@, plist@));
    args
}

/// The property list text up to the team of a signed export.
pub open spec fn signed_plist_head() -> Seq<char> {
    "<?xml version=\"1.0\" encoding=\"UTF-8\"?>\n<!DOCTYPE plist PUBLIC \"-//Apple//DTD PLIST 1.0//EN\" \"http://www.apple.com/DTDs/PropertyList-1.0.dtd\">\n<plist version=\"1.0\">\n<dict>\n    <key>method</key>\n    <string>debugging</string>\n    <key>teamID</key>\n    <string>"@
}

/// The property list text after the team of a signed export.
pub open spec fn signed_plist_tail() -> Seq<char> {
    "</string>\n    <key>signingStyle</key>\n    <string>automatic</string>\n</dict>\n</plist>\n"@
}

/// The property list of an unsigned export.
pub open spec fn unsigned_plist() -> Seq<char> {
    "<?xml version=\"1.0\" encoding=\"UTF-8\"?>\n<!DOCTYPE plist PUBLIC \"-//Apple//DTD PLIST 1.0//EN\" \"http://www.apple.com/DTDs/PropertyList-1.0.dtd\">\n<plist version=\"1.0\">\n<dict>\n    <key>method</key>\n    <string>debugging</string>\n    <key>signingStyle</key>\n    <string>manual</string>\n    <key>signingCertificate</key>\n    <string>-</string>\n    <key>provisioningProfiles</key>\n    <dict/>\n</dict>\n</plist>\n"@
}

/// The `ExportOptions.plist` for `xcodebuild -exportArchive`: a debugging export,
/// signed automatically with the team, or unsigned with manual signing.
pub fn export_options_plist(signing: &Signing) -> (out: String)
    ensures
        out@ == plist_spec(signing.signed, signing.team_id@),
{
    if signing.signed {
        let a = concat_strs(
            "<?xml version=\"1.0\" encoding=\"UTF-8\"?>\n<!DOCTYPE plist PUBLIC \"-//Apple//DTD PLIST 1.0//EN\" \"http://www.apple.com/DTDs/PropertyList-1.0.dtd\">\n<plist version=\"1.0\">\n<dict>\n    <key>method</key>\n    <string>debugging</string>\n    <key>teamID</key>\n    <string>",
            signing.team_id.as_str(),
        );
        concat_strs(
            a.as_str(),
            "</string>\n    <key>signingStyle</key>\n    <string>automatic</string>\n</dict>\n</plist>\n",
        )
    } else {
        owned(
            "<?xml version=\"1.0\" encoding=\"UTF-8\"?>\n<!DOCTYPE plist PUBLIC \"-//Apple//DTD PLIST 1.0//EN\" \"http://www.apple.com/DTDs/PropertyList-1.0.dtd\">\n<plist version=\"1.0\">\n<dict>\n    <key>method</key>\n    <string>debugging</string>\n    <key>signingStyle</key>\n    <string>manual</string>\n    <key>signingCertificate</key>\n    <string>-</string>\n    <key>provisioningProfiles</key>\n    <dict/>\n</dict>\n</plist>\n",
        )
    }
}

/// Where the exported IPA is expected: `<product>.ipa` in the output directory.
pub fn ipa_path(output_dir: &str, product: &str) -> (out: String)
    ensures
        out@ == join_spec(output_dir@, product@ + ".ipa"@),
{
    let name = concat_strs(product, ".ipa");
    join_path(output_dir, name.as_str())
}

/// A path whose extension is `ipa`.
pub open spec fn is_ipa(p: Seq<char>) -> bool {
    extension_spec(p) == Some("ipa"@)
}

/// When the IPA is not where it was expected: the first entry of the output
/// directory (in listing order) whose path has the `ipa` extension.
pub fn find_ipa(output_dir: &str, entries: &Vec<String>) -> (out: Option<String>)
    ensures
        match out {
            Some(p) => exists|i: int|
                0 <= i < entries@.len() && is_ipa(#[trigger] join_spec(output_dir@, entries@[i]@))
                    && p@ == join_spec(output_dir@, entries@[i]@) && forall|j: int|
                    0 <= j < i ==> !is_ipa(join_spec(output_dir@, entries@[j]@)),
            None => forall|i: int|
                0 <= i < entries@.len() ==> !is_ipa(#[trigger] join_spec(output_dir@, entries@[i]@)),
        },
{
    let mut i: usize = 0;
    while i < entries.len()
        invariant
            i <= entries@.len(),
            forall|j: int| 0 <= j < i ==> !is_ipa(#[trigger] join_spec(output_dir@, entries@[j]@)),
        decreases entries@.len() - i,
    {
        let p = join_path(output_dir, entries[i].as_str());
        let hit = match extension_of(p.as_str()) {
            Some(e) => str_eq(e.as_str(), "ipa"),
            None => false,
        };
        if hit {
            return Some(p);
        }
        i = i + 1;
    }
    None
}

/// Why the export cannot start.
#[derive(Debug, Clone, Copy, PartialEq, Eq, Structural)]
pub enum ExportError {
    /// `xcodebuild` returned no build settings.
    NoBuildSettings,
}

/// The build settings the export goes by: those of the first entry.
pub fn first_settings(entries: Vec<BuildSettings>) -> (out: Result<BuildSettings, ExportError>)
    ensures
        out is Err <==> entries@.len() == 0,
        out matches Ok(s) ==> s == entries@[0],
{
    let mut entries = entries;
    if entries.len() == 0 {
        return Err(ExportError::NoBuildSettings);
    }
    Ok(entries.remove(0))
}

/// The `ExportOptions.plist` text of an export that is signed (with `team`) or not.
pub open spec fn plist_spec(signed: bool, team: Seq<char>) -> Seq<char> {
    if signed {
        signed_plist_head() + team + signed_plist_tail()
    } else {
        unsigned_plist()
    }
}

/// Every export is a debugging (development) export: both property lists open
/// with the same header and the `method` key set to `debugging`, whether the
/// export is signed or not. A signed one then names the team and automatic
/// signing; an unsigned one asks for manual signing with no certificate.
pub proof fn lemma_plist_is_debugging_export(signed: bool, team: Seq<char>)
    ensures
        starts_with(
            plist_spec(signed, team),
            "<?xml version=\"1.0\" encoding=\"UTF-8\"?>\n<!DOCTYPE plist PUBLIC \"-//Apple//DTD PLIST 1.0//EN\" \"http://www.apple.com/DTDs/PropertyList-1.0.dtd\">\n<plist version=\"1.0\">\n<dict>\n    <key>method</key>\n    <string>debugging</string>\n"@,
        ),
        signed ==> starts_with(
            plist_spec(signed, team).skip(224),
            "    <key>teamID</key>\n    <string>"@ + team + "</string>\n"@,
        ),
        signed ==> crate::text::ends_with(
            plist_spec(signed, team),
            "    <key>signingStyle</key>\n    <string>automatic</string>\n</dict>\n</plist>\n"@,
        ),
        !signed ==> crate::text::ends_with(
            plist_spec(signed, team),
            "    <key>signingStyle</key>\n    <string>manual</string>\n    <key>signingCertificate</key>\n    <string>-</string>\n    <key>provisioningProfiles</key>\n    <dict/>\n</dict>\n</plist>\n"@,
        ),
{
    let p = "<?xml version=\"1.0\" encoding=\"UTF-8\"?>\n<!DOCTYPE plist PUBLIC \"-//Apple//DTD PLIST 1.0//EN\" \"http://www.apple.com/DTDs/PropertyList-1.0.dtd\">\n<plist version=\"1.0\">\n<dict>\n    <key>method</key>\n    <string>debugging</string>\n"@;
    let tid = "    <key>teamID</key>\n    <string>"@;
    let close = "</string>\n"@;
    let auto_end = "    <key>signingStyle</key>\n    <string>automatic</string>\n</dict>\n</plist>\n"@;
    let manual_end = "    <key>signingStyle</key>\n    <string>manual</string>\n    <key>signingCertificate</key>\n    <string>-</string>\n    <key>provisioningProfiles</key>\n    <dict/>\n</dict>\n</plist>\n"@;
    reveal_strlit("<?xml version=\"1.0\" encoding=\"UTF-8\"?>\n<!DOCTYPE plist PUBLIC \"-//Apple//DTD PLIST 1.0//EN\" \"http://www.apple.com/DTDs/PropertyList-1.0.dtd\">\n<plist version=\"1.0\">\n<dict>\n    <key>method</key>\n    <string>debugging</string>\n");
    reveal_strlit("    <key>teamID</key>\n    <string>");
    reveal_strlit("</string>\n");
    reveal_strlit("    <key>signingStyle</key>\n    <string>automatic</string>\n</dict>\n</plist>\n");
    reveal_strlit("    <key>signingStyle</key>\n    <string>manual</string>\n    <key>signingCertificate</key>\n    <string>-</string>\n    <key>provisioningProfiles</key>\n    <dict/>\n</dict>\n</plist>\n");
    reveal_strlit("<?xml version=\"1.0\" encoding=\"UTF-8\"?>\n<!DOCTYPE plist PUBLIC \"-//Apple//DTD PLIST 1.0//EN\" \"http://www.apple.com/DTDs/PropertyList-1.0.dtd\">\n<plist version=\"1.0\">\n<dict>\n    <key>method</key>\n    <string>debugging</string>\n    <key>teamID</key>\n    <string>");
    reveal_strlit("</string>\n    <key>signingStyle</key>\n    <string>automatic</string>\n</dict>\n</plist>\n");
    reveal_strlit("<?xml version=\"1.0\" encoding=\"UTF-8\"?>\n<!DOCTYPE plist PUBLIC \"-//Apple//DTD PLIST 1.0//EN\" \"http://www.apple.com/DTDs/PropertyList-1.0.dtd\">\n<plist version=\"1.0\">\n<dict>\n    <key>method</key>\n    <string>debugging</string>\n    <key>signingStyle</key>\n    <string>manual</string>\n    <key>signingCertificate</key>\n    <string>-</string>\n    <key>provisioningProfiles</key>\n    <dict/>\n</dict>\n</plist>\n");
    assert(p.len() == 224);
    let head = signed_plist_head();
    let tail = signed_plist_tail();
    assert(head =~= p + tid);
    assert(tail =~= close + auto_end);
    assert(unsigned_plist() =~= p + manual_end);
    let t = plist_spec(signed, team);
    if signed {
        assert(t =~= p + (tid + team + close) + auto_end);
        assert(t.take(p.len() as int) =~= p);
        assert(t.skip(224).take((tid + team + close).len() as int) =~= tid + team + close);
        assert(t.skip(t.len() - auto_end.len()) =~= auto_end);
    } else {
        assert(t.take(p.len() as int) =~= p);
        assert(t.skip(t.len() - manual_end.len()) =~= manual_end);
    }
}

} // verus!
