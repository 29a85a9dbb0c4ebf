use mudup::archive::parse_artifact_manifest;
use mudup::self_update::{nanos_since_epoch, self_update_urls, BinarySearch};
use mudup::toolchain::{
    check_uninstall, is_listed_release, path_lists_dir, release_list_line, settings_toml,
    toolchain_requirements, RequiredKind, ToolchainError,
};

#[test]
fn toolchain_requirements_in_check_order() {
    let m = parse_artifact_manifest("version=v1\nbin_dir=bin\n[files]\nshare/x\nbin/mudud\n").unwrap();
    let reqs = toolchain_requirements(&m, Some("v1"), &["mudud", "mudu"]).unwrap();
    let got: Vec<(RequiredKind, Vec<String>)> =
        reqs.into_iter().map(|r| (r.kind, r.parts)).collect();
    assert_eq!(
        got,
        vec![
            (RequiredKind::Binary, vec!["bin".to_string(), "mudud".to_string()]),
            (RequiredKind::Binary, vec!["bin".to_string(), "mudu".to_string()]),
            (RequiredKind::LibList, vec!["lib/lib-list.txt".to_string()]),
            (RequiredKind::File, vec!["bin/mudud".to_string()]),
            (RequiredKind::File, vec!["share/x".to_string()]),
        ]
    );
}

#[test]
fn toolchain_directory_must_match_manifest() {
    let m = parse_artifact_manifest("version=v1\n").unwrap();
    assert!(matches!(
        toolchain_requirements(&m, None, &["mudud"]),
        Err(ToolchainError::InvalidDirectory)
    ));
    match toolchain_requirements(&m, Some("v2"), &["mudud"]) {
        Err(ToolchainError::VersionMismatch { manifest, directory }) => {
            assert_eq!(manifest, "v1");
            assert_eq!(directory, "v2");
        }
        other => panic!("unexpected {:?}", other),
    }
}

#[test]
fn listed_releases_and_lines() {
    assert!(is_listed_release("v20260514.1144"));
    assert!(!is_listed_release("current"));
    assert!(!is_listed_release(".current-next"));
    assert!(is_listed_release("currently"));
    assert_eq!(release_list_line("v1", Some("v1")), "v1 (current)");
    assert_eq!(release_list_line("v1", Some("v2")), "v1");
    assert_eq!(release_list_line("v1", None), "v1");
}

#[test]
fn current_toolchain_cannot_be_uninstalled() {
    match check_uninstall(Some("v1"), "v1") {
        Err(ToolchainError::UninstallCurrent(v)) => assert_eq!(v, "v1"),
        other => panic!("unexpected {:?}", other),
    }
    assert!(check_uninstall(Some("v1"), "v2").is_ok());
    assert!(check_uninstall(None, "v2").is_ok());
}

#[test]
fn settings_file_text() {
    assert_eq!(
        settings_toml("/home/u/.mududb"),
        "manifest_version = 1\nroot = \"/home/u/.mududb\"\n"
    );
}

#[test]
fn self_update_locations() {
    let u = self_update_urls("x86_64-unknown-linux-gnu");
    assert_eq!(u.archive_name, "mudup-x86_64-unknown-linux-gnu.tar.gz");
    assert_eq!(
        u.archive_url,
        "https://github.com/scuptio/mudup/releases/download/latest/mudup-x86_64-unknown-linux-gnu.tar.gz"
    );
    assert_eq!(u.checksum_url, format!("{}.sha256", u.archive_url));
    assert!(nanos_since_epoch().unwrap() > 0);
}

#[test]
fn binary_search_is_depth_first() {
    let mut s = BinarySearch::new("root".to_string());
    assert_eq!(s.next_dir().as_deref(), Some("root"));
    assert_eq!(s.visit_entry("root/a".to_string(), true, Some("a")), None);
    assert_eq!(s.visit_entry("root/b".to_string(), true, Some("b")), None);
    assert_eq!(s.visit_entry("root/x".to_string(), false, Some("mudupx")), None);
    assert_eq!(s.visit_entry("root/y".to_string(), false, None), None);
    assert_eq!(s.next_dir().as_deref(), Some("root/b"));
    assert_eq!(
        s.visit_entry("root/b/mudup".to_string(), false, Some("mudup")).as_deref(),
        Some("root/b/mudup")
    );
    assert_eq!(s.next_dir().as_deref(), Some("root/a"));
    assert_eq!(s.next_dir(), None);
}

#[test]
fn library_search_directories() {
    assert_eq!(mudup::libs::SYSTEM_LIBRARY_DIRS.len(), 6);
    assert_eq!(mudup::libs::SYSTEM_LIBRARY_DIRS[0], "/lib");
}

#[test]
fn search_path_holds_proxy_dir() {
    assert!(path_lists_dir(Some("/usr/bin:/home/u/.mududb/bin"), "/home/u/.mududb/bin"));
    assert!(path_lists_dir(Some("/home/u/.mududb//bin/:/usr/bin"), "/home/u/.mududb/bin"));
    assert!(!path_lists_dir(Some("/usr/bin::/home/u/.mududb"), "/home/u/.mududb/bin"));
    assert!(!path_lists_dir(Some(""), "/home/u/.mududb/bin"));
    assert!(!path_lists_dir(None, "/home/u/.mududb/bin"));
}
