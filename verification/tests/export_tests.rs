use xcraft::export::{
    archive_args, archive_destination, archive_path, export_args, export_mode,
    export_options_plist, export_signing, find_ipa, ipa_path, product_name, ExportOptions,
    Signing,
};

fn options(skip: bool) -> ExportOptions {
    ExportOptions {
        workspace_path: "/p/App.xcworkspace".to_string(),
        is_xcode_workspace: true,
        scheme: "App".to_string(),
        configuration: "Release".to_string(),
        archive_dest_raw: "generic/platform=iOS".to_string(),
        derived_data: Some("/dd".to_string()),
        skip_codesigning: skip,
        xcbeautify: Some(false),
        extra_args: vec![
            "FOO=1".to_string(),
            "-quiet".to_string(),
            "archive".to_string(),
            "-x=y".to_string(),
            "plain".to_string(),
        ],
        extra_env: vec![],
        output_dir: "export".to_string(),
    }
}

#[test]
fn archive_arguments_put_settings_first_and_flags_last() {
    let args = archive_args(&options(true), "/tmp/t/archive.xcarchive");
    assert_eq!(
        args,
        vec![
            "FOO=1",
            "CODE_SIGNING_ALLOWED=NO",
            "CODE_SIGNING_REQUIRED=NO",
            "CODE_SIGN_IDENTITY=\"\"",
            "-scheme",
            "App",
            "-configuration",
            "Release",
            "-destination",
            "generic/platform=iOS",
            "-archivePath",
            "/tmp/t/archive.xcarchive",
            "-derivedDataPath",
            "/dd",
            "-workspace",
            "/p/App.xcworkspace",
            "archive",
            "-quiet",
            "-x=y",
            "plain",
        ]
    );
}

#[test]
fn archive_arguments_without_optional_parts() {
    let mut o = options(false);
    o.derived_data = None;
    o.is_xcode_workspace = false;
    o.extra_args = vec![];
    let args = archive_args(&o, "a.xcarchive");
    assert_eq!(
        args,
        vec![
            "-scheme",
            "App",
            "-configuration",
            "Release",
            "-destination",
            "generic/platform=iOS",
            "-archivePath",
            "a.xcarchive",
            "archive",
        ]
    );
}

#[test]
fn export_arguments() {
    assert_eq!(
        export_args("/t/archive.xcarchive", "export", "/t/opts.plist"),
        vec![
            "-exportArchive",
            "-archivePath",
            "/t/archive.xcarchive",
            "-exportPath",
            "export",
            "-exportOptionsPlist",
            "/t/opts.plist",
        ]
    );
    assert_eq!(archive_path("/tmp/t"), "/tmp/t/archive.xcarchive");
}

#[test]
fn signing_needs_a_team_and_no_skip() {
    let s = export_signing(false, Some("ABCDE12345"));
    assert!(s.signed);
    assert_eq!(s.team_id, "ABCDE12345");
    assert_eq!(export_mode(&s), "signed (team: ABCDE12345)");
    assert!(!export_signing(true, Some("ABCDE12345")).signed);
    assert!(!export_signing(false, Some("")).signed);
    let none = export_signing(false, None);
    assert!(!none.signed);
    assert_eq!(none.team_id, "");
    assert_eq!(export_mode(&none), "unsigned");
}

#[test]
fn product_name_falls_back() {
    assert_eq!(product_name(Some("Prod"), Some("Wrap.app")), "Prod");
    assert_eq!(product_name(None, Some("Wrap.app")), "Wrap.app");
    assert_eq!(product_name(None, None), "App");
}

#[test]
fn destination_defaults_to_any_ios_device() {
    assert_eq!(archive_destination(None), "generic/platform=iOS");
    assert_eq!(archive_destination(Some("platform=iOS,name=X")), "platform=iOS,name=X");
}

#[test]
fn signed_plist_names_the_team() {
    let s = Signing { signed: true, team_id: "T1".to_string() };
    let plist = export_options_plist(&s);
    assert!(plist.starts_with("<?xml version=\"1.0\" encoding=\"UTF-8\"?>\n<!DOCTYPE plist"));
    assert!(plist.contains("    <key>teamID</key>\n    <string>T1</string>\n"));
    assert!(plist.contains("<string>automatic</string>"));
    assert!(plist.ends_with("</dict>\n</plist>\n"));
}

#[test]
fn unsigned_plist_signs_manually() {
    let s = Signing { signed: false, team_id: "T1".to_string() };
    let plist = export_options_plist(&s);
    assert!(!plist.contains("teamID"));
    assert!(plist.contains("<key>signingCertificate</key>\n    <string>-</string>"));
    assert!(plist.contains("<key>provisioningProfiles</key>\n    <dict/>"));
}

#[test]
fn ipa_is_looked_for_by_name_then_by_extension() {
    assert_eq!(ipa_path("export", "App"), "export/App.ipa");
    let entries = vec![
        "ExportOptions.plist".to_string(),
        ".ipa".to_string(),
        "Other.IPA".to_string(),
        "Found.ipa".to_string(),
        "Second.ipa".to_string(),
    ];
    assert_eq!(find_ipa("export", &entries), Some("export/Found.ipa".to_string()));
    assert_eq!(find_ipa("export", &vec!["x.ipa.zip".to_string()]), None);
}
