use aulua::config::{PackConfig, ResolvedPackageAsset, ResolvedPackageMessage};
use aulua::pack::{
    ensure_unique_archive_path, join_archive_paths, normalize_archive_path, plan_package_entries,
    render_package_ini, to_crlf, validate_install_archive_path, ArchivePathError, PackEntrySource,
};

#[test]
fn to_crlf_converts_lf_to_crlf() {
    let input = "a\nb\nc";
    let actual = to_crlf(input);
    assert_eq!(actual, "a\r\nb\r\nc");
}

#[test]
fn to_crlf_keeps_existing_crlf() {
    let input = "a\r\nb\r\nc";
    let actual = to_crlf(input);
    assert_eq!(actual, "a\r\nb\r\nc");
}

#[test]
fn to_crlf_normalizes_mixed_newlines() {
    let input = "a\nb\r\nc\rd";
    let actual = to_crlf(input);
    assert_eq!(actual, "a\r\nb\r\nc\r\nd");
}

#[test]
fn render_package_ini_uses_crlf_and_expected_keys() {
    let pack = PackConfig {
        id: "karoterra.example".to_string(),
        name: "Example".to_string(),
        information: "Example package".to_string(),
        version: Some("1.2.3".to_string()),
        uninstall_sub_folder_file: false,
        out_dir: "dist".to_string(),
        file_name: "karoterra.example-v1.2.3.au2pkg.zip".to_string(),
        script_sub_dir: "karoterra.example".to_string(),
        message: None,
        assets: vec![],
    };

    let ini = render_package_ini(&pack);

    assert_eq!(
        ini,
        "[package]\r\nid=karoterra.example\r\nname=Example\r\ninformation=Example package\r\n"
    );
}

#[test]
fn normalize_archive_path_replaces_backslashes() {
    let actual = normalize_archive_path(r"Script\pkg\main.anm2").unwrap();
    assert_eq!(actual, "Script/pkg/main.anm2");
}

#[test]
fn normalize_archive_path_rejects_empty() {
    assert!(normalize_archive_path("").is_err());
    assert!(normalize_archive_path("   ").is_err());
}

#[test]
fn normalize_archive_path_rejects_absolute_path() {
    assert!(normalize_archive_path("/Script/pkg/main.anm2").is_err());
}

#[test]
fn normalize_archive_path_rejects_parent_dir() {
    assert!(normalize_archive_path("Script/../main.anm2").is_err());
}

#[test]
fn normalize_archive_path_rejects_current_dir() {
    assert!(normalize_archive_path("Script/./main.anm2").is_err());
}

#[test]
fn normalize_archive_path_rejects_empty_component() {
    assert!(normalize_archive_path("Script//main.anm2").is_err());
}

#[test]
fn normalize_archive_path_rejects_drive_letter_like_component() {
    assert!(normalize_archive_path("Script/C:/main.anm2").is_err());
}

#[test]
fn validate_install_archive_path_accepts_script_path() {
    assert!(validate_install_archive_path("Script/pkg/main.anm2").is_ok());
}

#[test]
fn validate_install_archive_path_accepts_language_path() {
    assert!(validate_install_archive_path("Language/English.aul2").is_ok());
}

#[test]
fn validate_install_archive_path_rejects_package_ini() {
    assert!(validate_install_archive_path("package.ini").is_err());
}

#[test]
fn validate_install_archive_path_rejects_package_txt() {
    assert!(validate_install_archive_path("package.txt").is_err());
}

#[test]
fn validate_install_archive_path_rejects_unknown_root() {
    assert!(validate_install_archive_path("Docs/README.md").is_err());
}

#[test]
fn join_archive_paths_skips_empty_parts() {
    let actual = join_archive_paths(&["Script", "", "pkg", "main.anm2"]).unwrap();
    assert_eq!(actual, "Script/pkg/main.anm2");
}

#[test]
fn ensure_unique_archive_path_rejects_duplicates() {
    let mut seen = Vec::new();

    ensure_unique_archive_path(&mut seen, "Script/pkg/main.anm2").unwrap();
    assert!(ensure_unique_archive_path(&mut seen, "Script/pkg/main.anm2").is_err());
}

// --- further cases ---

#[test]
fn normalize_archive_path_error_kinds() {
    assert_eq!(normalize_archive_path(""), Err(ArchivePathError::Empty));
    assert_eq!(normalize_archive_path(" \t "), Err(ArchivePathError::Empty));
    assert_eq!(normalize_archive_path("\\a"), Err(ArchivePathError::Absolute));
    assert_eq!(normalize_archive_path("a/"), Err(ArchivePathError::EmptyComponent));
    assert_eq!(normalize_archive_path("a/./b"), Err(ArchivePathError::CurrentDir));
    assert_eq!(normalize_archive_path("..\\b"), Err(ArchivePathError::ParentDir));
    assert_eq!(normalize_archive_path("x/d:"), Err(ArchivePathError::DriveLetter));
    // The first bad component decides.
    assert_eq!(normalize_archive_path("a/../b//c"), Err(ArchivePathError::ParentDir));
}

#[test]
fn normalize_archive_path_is_idempotent() {
    let once = normalize_archive_path("Plugin\\sub\\x.dll").unwrap();
    assert_eq!(once, "Plugin/sub/x.dll");
    assert_eq!(normalize_archive_path(&once).unwrap(), once);
}

#[test]
fn validate_install_archive_path_error_kinds() {
    assert_eq!(validate_install_archive_path("package.ini"), Err(ArchivePathError::Reserved));
    assert_eq!(validate_install_archive_path("Docs/a"), Err(ArchivePathError::UnknownRoot));
    assert_eq!(validate_install_archive_path("Script/../a"), Err(ArchivePathError::ParentDir));
    assert_eq!(validate_install_archive_path("Preset\\a.txt"), Ok(()));
    // package.ini below an install directory is fine.
    assert_eq!(validate_install_archive_path("Script/package.ini"), Ok(()));
}

#[test]
fn join_archive_paths_checks_the_result() {
    assert_eq!(join_archive_paths(&["", "", ""]), Err(ArchivePathError::Empty));
    assert_eq!(join_archive_paths(&["Script", "a\\b", "c"]).unwrap(), "Script/a/b/c");
    assert_eq!(join_archive_paths(&["Script", ".."]), Err(ArchivePathError::ParentDir));
}

#[test]
fn ensure_unique_archive_path_records_new_paths() {
    let mut seen = Vec::new();
    assert_eq!(ensure_unique_archive_path(&mut seen, "a"), Ok(()));
    assert_eq!(ensure_unique_archive_path(&mut seen, "b"), Ok(()));
    assert_eq!(seen, vec!["a".to_string(), "b".to_string()]);
    assert_eq!(ensure_unique_archive_path(&mut seen, "a"), Err(ArchivePathError::Duplicate));
    assert_eq!(seen.len(), 2);
}

#[test]
fn to_crlf_edge_cases() {
    assert_eq!(to_crlf(""), "");
    assert_eq!(to_crlf("\r"), "\r\n");
    assert_eq!(to_crlf("\n\r"), "\r\n\r\n");
    assert_eq!(to_crlf("\r\r\n"), "\r\n\r\n");
    let once = to_crlf("x\ry\nz\r\n");
    assert_eq!(to_crlf(&once), once);
}

#[test]
fn render_package_ini_writes_uninstall_flag() {
    let pack = PackConfig {
        id: "karoterra.example".to_string(),
        name: "Example".to_string(),
        information: "Example package".to_string(),
        version: None,
        uninstall_sub_folder_file: true,
        out_dir: "dist".to_string(),
        file_name: "karoterra.example.au2pkg.zip".to_string(),
        script_sub_dir: "karoterra.example".to_string(),
        message: None,
        assets: vec![],
    };
    assert_eq!(
        render_package_ini(&pack),
        "[package]\r\nid=karoterra.example\r\nname=Example\r\ninformation=Example package\r\nuninstall_sub_folder_file=1\r\n"
    );
}

fn plan_pack(sub: &str, dests: &[&str], message: bool) -> PackConfig {
    PackConfig {
        id: "karoterra.example".to_string(),
        name: "Example".to_string(),
        information: "Example package".to_string(),
        version: None,
        uninstall_sub_folder_file: false,
        out_dir: "dist".to_string(),
        file_name: "karoterra.example.au2pkg.zip".to_string(),
        script_sub_dir: sub.to_string(),
        message: if message {
            Some(ResolvedPackageMessage::Text("hello".to_string()))
        } else {
            None
        },
        assets: dests
            .iter()
            .map(|d| ResolvedPackageAsset { src: "docs/README.md".to_string(), dest: d.to_string() })
            .collect(),
    }
}

fn entry(path: &str, source: PackEntrySource) -> (String, PackEntrySource) {
    (path.to_string(), source)
}

#[test]
fn plan_lists_entries_in_order() {
    let pack = plan_pack("karoterra.example", &["Script\\karoterra.example\\docs\\README.md"], true);
    let plan = plan_package_entries(&pack, &["main.anm2".to_string(), "sub.obj2".to_string()]);
    assert_eq!(plan.failure, None);
    assert_eq!(
        plan.entries,
        vec![
            entry("package.ini", PackEntrySource::PackageIni),
            entry("package.txt", PackEntrySource::PackageTxt),
            entry("Script/karoterra.example/main.anm2", PackEntrySource::Script(0)),
            entry("Script/karoterra.example/sub.obj2", PackEntrySource::Script(1)),
            entry("Script/karoterra.example/docs/README.md", PackEntrySource::Asset(0)),
        ]
    );
}

#[test]
fn plan_with_empty_script_sub_dir_puts_scripts_under_script() {
    let pack = plan_pack("", &[], false);
    let plan = plan_package_entries(&pack, &["main.anm2".to_string()]);
    assert_eq!(plan.failure, None);
    assert_eq!(
        plan.entries,
        vec![
            entry("package.ini", PackEntrySource::PackageIni),
            entry("Script/main.anm2", PackEntrySource::Script(0)),
        ]
    );
}

#[test]
fn plan_refuses_repeated_path() {
    let pack = plan_pack("pkg", &["Script/pkg/main.anm2"], false);
    let plan = plan_package_entries(&pack, &["main.anm2".to_string()]);
    assert_eq!(plan.failure, Some((PackEntrySource::Asset(0), ArchivePathError::Duplicate)));
    assert_eq!(plan.entries.len(), 2);

    let plan = plan_package_entries(&plan_pack("pkg", &[], false), &["a.anm2".to_string(), "a.anm2".to_string()]);
    assert_eq!(plan.failure, Some((PackEntrySource::Script(1), ArchivePathError::Duplicate)));
}

#[test]
fn plan_stops_at_first_bad_path() {
    let pack = plan_pack("pkg", &["Other/readme.txt", "package.ini"], false);
    let plan = plan_package_entries(&pack, &["main.anm2".to_string()]);
    assert_eq!(plan.failure, Some((PackEntrySource::Asset(0), ArchivePathError::UnknownRoot)));
    assert_eq!(plan.entries.len(), 2);

    let pack = plan_pack("pkg", &["package.txt"], false);
    let plan = plan_package_entries(&pack, &[]);
    assert_eq!(plan.failure, Some((PackEntrySource::Asset(0), ArchivePathError::Reserved)));

    let pack = plan_pack("..", &[], false);
    let plan = plan_package_entries(&pack, &["main.anm2".to_string()]);
    assert_eq!(plan.failure, Some((PackEntrySource::Script(0), ArchivePathError::ParentDir)));
    assert_eq!(plan.entries, vec![entry("package.ini", PackEntrySource::PackageIni)]);
}

#[test]
fn to_crlf_matches_replace_chain() {
    for input in ["", "a", "\r", "\n", "\r\n", "\n\r", "a\r\r\nb\n\nc\r", "x\r\n\r\ny"] {
        let expected = input.replace("\r\n", "\n").replace('\r', "\n").replace('\n', "\r\n");
        assert_eq!(to_crlf(input), expected);
        assert_eq!(to_crlf(&to_crlf(input)), to_crlf(input));
    }
}
