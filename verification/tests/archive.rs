use mudup::archive::{
    parse_artifact_manifest, validate_archive_listing, validate_relative_archive_path,
    ArchivePathError, ManifestError,
};

#[test]
fn rejects_archive_path_escape() {
    assert!(validate_relative_archive_path("v1/bin/mudud", "v1").is_ok());
    assert!(validate_relative_archive_path("/v1/bin/mudud", "v1").is_err());
    assert!(validate_relative_archive_path("v1/../bin/mudud", "v1").is_err());
    assert!(validate_relative_archive_path("other/bin/mudud", "v1").is_err());
}

#[test]
fn parses_artifact_manifest() {
    let manifest = parse_artifact_manifest(
        "version=v1\nbin_dir=bin\nlib_list=lib/lib-list.txt\n\n[files]\nbin/mudud\n",
    )
    .unwrap();
    assert_eq!(manifest.version, "v1");
    assert!(manifest.files.iter().any(|f| f == "bin/mudud"));
}

#[test]
fn archive_entry_errors_name_the_entry() {
    match validate_relative_archive_path("other/bin/mudud", "v1") {
        Err(ArchivePathError::EscapesRoot(e)) => assert_eq!(e, "other/bin/mudud"),
        other => panic!("unexpected {:?}", other),
    }
    match validate_relative_archive_path("v1/../bin/mudud", "v1") {
        Err(ArchivePathError::UnsafeEntry(e)) => assert_eq!(e, "v1/../bin/mudud"),
        other => panic!("unexpected {:?}", other),
    }
    match validate_relative_archive_path("/v1/bin/mudud", "v1") {
        Err(ArchivePathError::EscapesRoot(e)) => assert_eq!(e, "/v1/bin/mudud"),
        other => panic!("unexpected {:?}", other),
    }
}

#[test]
fn archive_entries_follow_path_components() {
    assert!(validate_relative_archive_path("v1/", "v1").is_ok());
    assert!(validate_relative_archive_path("v1", "v1").is_ok());
    assert!(validate_relative_archive_path("v1/./bin//mudud", "v1").is_ok());
    assert!(validate_relative_archive_path("v1/bin/", "v1").is_ok());
    assert!(matches!(
        validate_relative_archive_path("./v1/bin", "v1"),
        Err(ArchivePathError::EscapesRoot(_))
    ));
    assert!(matches!(
        validate_relative_archive_path("", "v1"),
        Err(ArchivePathError::EscapesRoot(_))
    ));
    assert!(matches!(
        validate_relative_archive_path("..", "v1"),
        Err(ArchivePathError::EscapesRoot(_))
    ));
    assert!(matches!(
        validate_relative_archive_path("v1/..", "v1"),
        Err(ArchivePathError::UnsafeEntry(_))
    ));
    assert!(matches!(
        validate_relative_archive_path("v1/a/../../etc", "v1"),
        Err(ArchivePathError::UnsafeEntry(_))
    ));
    assert!(matches!(
        validate_relative_archive_path("v10/bin", "v1"),
        Err(ArchivePathError::EscapesRoot(_))
    ));
}

#[test]
fn archive_listing_reports_first_bad_entry() {
    assert!(validate_archive_listing("v1/\nv1/bin/\nv1/bin/mudud\n", "v1").is_ok());
    assert!(validate_archive_listing("", "v1").is_ok());
    match validate_archive_listing("v1/\nv1/a/../../x\n../y\n", "v1") {
        Err(ArchivePathError::UnsafeEntry(e)) => assert_eq!(e, "v1/a/../../x"),
        other => panic!("unexpected {:?}", other),
    }
    match validate_archive_listing("v1/ok\r\n../y\r\n", "v1") {
        Err(ArchivePathError::EscapesRoot(e)) => assert_eq!(e, "../y"),
        other => panic!("unexpected {:?}", other),
    }
}

#[test]
fn manifest_needs_a_version() {
    assert!(matches!(
        parse_artifact_manifest("bin_dir=bin\n[files]\nversion=v1\n"),
        Err(ManifestError::MissingVersion)
    ));
    assert!(matches!(parse_artifact_manifest(""), Err(ManifestError::MissingVersion)));
}

#[test]
fn manifest_defaults_and_keys() {
    let m = parse_artifact_manifest("  version =  v2 \r\nnoise line\nother=1\nversion=v3\n").unwrap();
    assert_eq!(m.version, "v3");
    assert_eq!(m.bin_dir, "bin");
    assert_eq!(m.lib_list, "lib/lib-list.txt");
    assert!(m.files.is_empty());
    let m = parse_artifact_manifest("version=v1\nbin_dir = tools\nlib_list=libs.txt\n").unwrap();
    assert_eq!(m.bin_dir, "tools");
    assert_eq!(m.lib_list, "libs.txt");
}

#[test]
fn manifest_files_form_a_sorted_path_set() {
    let m = parse_artifact_manifest(
        "version=v1\n[files]\nb\na/c\n  a  \nbin//mudud\nbin/mudud\nbin/./mudud\n[files]\n\nversion=v9\n",
    )
    .unwrap();
    assert_eq!(m.version, "v1");
    assert_eq!(m.files, vec!["a", "a/c", "b", "bin//mudud", "version=v9"]);
}
