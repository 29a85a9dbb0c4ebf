use mudup::remote::{
    artifact_filename, artifact_version, channel_manifest_from_tags_page,
    channel_manifest_from_versions, checksum_from_response, collect_versions,
    extract_version_from_href, is_release_tag, release_artifact_for_version,
    resolve_install_version, select_channel_artifact, sha256_url_for_artifact,
    versions_from_hrefs, install_target, ChannelManifest, InstallTarget, Release, ReleaseArtifact, RemoteError,
};

const HOST: &str = "x86_64-unknown-linux-gnu";

#[test]
fn release_tags() {
    assert!(is_release_tag("v20260514.1144"));
    assert!(!is_release_tag("v20260514-1144"));
    assert!(!is_release_tag("v2026051.11440"));
    assert!(!is_release_tag("x20260514.1144"));
    assert!(!is_release_tag("v20260514.114"));
    assert!(!is_release_tag("v2026a514.1144"));
    assert!(!is_release_tag("v20260514.1144 "));
    assert!(!is_release_tag("v٢0260514.1144"));
}

#[test]
fn versions_in_links() {
    assert_eq!(
        extract_version_from_href("/scuptio/mududb/releases/tag/v20260514.1144"),
        Some("v20260514.1144")
    );
    assert_eq!(
        extract_version_from_href("https://github.com/scuptio/mududb/releases/tag/v20260101.0000"),
        Some("v20260101.0000")
    );
    assert_eq!(extract_version_from_href("/scuptio/mududb/releases/tag/latest"), None);
    assert_eq!(extract_version_from_href("/scuptio/mududb/tags"), None);
    assert_eq!(
        extract_version_from_href("/scuptio/mududb/releases/tag/v20260514.1144/extra"),
        None
    );
}

#[test]
fn artifact_for_requested_version() {
    let a = release_artifact_for_version("v20260514.1144", HOST).unwrap();
    assert_eq!(a.host, HOST);
    assert_eq!(
        a.url,
        "https://github.com/scuptio/mududb/releases/download/v20260514.1144/mududb-v20260514.1144-x86_64-unknown-linux-gnu.tar.gz"
    );
    match release_artifact_for_version("latest", HOST) {
        Err(RemoteError::InvalidVersion(v)) => assert_eq!(v, "latest"),
        other => panic!("unexpected {:?}", other),
    }
}

#[test]
fn checksum_url_and_body() {
    assert_eq!(sha256_url_for_artifact("https://x/a.tar.gz"), "https://x/a.tar.gz.sha256");
    assert_eq!(
        checksum_from_response("  abc123  mududb.tar.gz\n").as_deref(),
        Some("abc123")
    );
    assert_eq!(checksum_from_response(" \n\t "), None);
}

#[test]
fn versions_sorted_and_distinct() {
    let hrefs = vec![
        Some("/scuptio/mududb/releases/tag/v20260514.1144".to_string()),
        None,
        Some("/other".to_string()),
        Some("/scuptio/mududb/releases/tag/v20250101.0000".to_string()),
        Some("/scuptio/mududb/releases/tag/v20260514.1144".to_string()),
        Some("/scuptio/mududb/releases/tag/v20260601.0930".to_string()),
    ];
    assert_eq!(
        versions_from_hrefs(&hrefs),
        vec!["v20250101.0000", "v20260514.1144", "v20260601.0930"]
    );
}

#[test]
fn tags_page_is_read_through_scraper() {
    let page = r#"<html><body>
        <a href="/scuptio/mududb/releases/tag/v20260514.1144">one</a>
        <a>no link</a>
        <a href="/scuptio/mududb/releases/tag/v20240101.0101">two</a>
        <div href="/scuptio/mududb/releases/tag/v20990101.0101">not a link</div>
        <a href="/scuptio/mududb/releases/tag/v20260514.1144">again</a>
    </body></html>"#;
    assert_eq!(collect_versions(page), vec!["v20240101.0101", "v20260514.1144"]);
    let channel = channel_manifest_from_tags_page(page, HOST).unwrap();
    assert_eq!(channel.latest, "v20260514.1144");
    assert_eq!(channel.releases.len(), 2);
    assert_eq!(channel.releases[0].version, "v20240101.0101");
    assert!(matches!(
        channel_manifest_from_tags_page("<html></html>", HOST),
        Err(RemoteError::NoVersionFound)
    ));
}

#[test]
fn latest_install_selects_latest_for_host() {
    let versions = vec!["v20240101.0101".to_string(), "v20260514.1144".to_string()];
    let channel = channel_manifest_from_versions(versions, HOST).unwrap();
    let a = select_channel_artifact(&channel, HOST).unwrap();
    assert_eq!(a.host, HOST);
    assert_eq!(artifact_version(&a.url).as_deref(), Some("v20260514.1144"));
    assert!(matches!(
        channel_manifest_from_versions(Vec::new(), HOST),
        Err(RemoteError::NoVersionFound)
    ));
}

fn artifact(host: &str, url: &str) -> ReleaseArtifact {
    ReleaseArtifact { host: host.to_string(), url: url.to_string() }
}

#[test]
fn selection_prefers_host_then_first() {
    let channel = ChannelManifest {
        latest: "v2".to_string(),
        releases: vec![
            Release { version: "v1".to_string(), artifacts: vec![artifact("h", "u1")] },
            Release {
                version: "v2".to_string(),
                artifacts: vec![artifact("a", "ua"), artifact("h", "uh"), artifact("h", "uh2")],
            },
        ],
    };
    assert_eq!(select_channel_artifact(&channel, "h").unwrap().url, "uh");
    assert_eq!(select_channel_artifact(&channel, "z").unwrap().url, "ua");
    let missing = ChannelManifest { latest: "v3".to_string(), releases: Vec::new() };
    match select_channel_artifact(&missing, "h") {
        Err(RemoteError::LatestNotFound(v)) => assert_eq!(v, "v3"),
        other => panic!("unexpected {:?}", other),
    }
    let empty = ChannelManifest {
        latest: "v3".to_string(),
        releases: vec![Release { version: "v3".to_string(), artifacts: Vec::new() }],
    };
    match select_channel_artifact(&empty, "h") {
        Err(RemoteError::NoArtifact(v)) => assert_eq!(v, "v3"),
        other => panic!("unexpected {:?}", other),
    }
}

#[test]
fn artifact_file_names_and_versions() {
    assert_eq!(artifact_filename("https://x/y/mududb.tar.gz"), Some("mududb.tar.gz"));
    assert_eq!(artifact_filename("https://x/y/"), None);
    assert_eq!(artifact_filename("plain"), Some("plain"));
    assert_eq!(
        artifact_version("https://x/v/mududb-v20260514.1144-x86_64-unknown-linux-gnu.tar.gz")
            .as_deref(),
        Some("v20260514.1144")
    );
    assert_eq!(artifact_version("mududb-v20260514.1144.tar.gz").as_deref(), Some("v20260514.1144"));
    assert_eq!(artifact_version("https://x/mududb-v2026.tar.gz"), None);
    assert_eq!(artifact_version("https://x/mudup-v20260514.1144-h.tar.gz"), None);
    assert_eq!(artifact_version("https://x/mududb-v20260514.1144-h.zip"), None);
    assert_eq!(artifact_version("https://x/mududb-v.tar.gz"), None);
}

#[test]
fn install_version_falls_back_to_request() {
    assert_eq!(
        resolve_install_version("https://x/mududb-v20260514.1144-h.tar.gz", "latest"),
        "v20260514.1144"
    );
    assert_eq!(resolve_install_version("https://x/other.tar.gz", "latest"), "latest");
}

#[test]
fn requested_version_round_trips_through_url() {
    let a = release_artifact_for_version("v20991231.2359", HOST).unwrap();
    assert_eq!(artifact_version(&a.url).as_deref(), Some("v20991231.2359"));
    assert_eq!(
        artifact_filename(&a.url),
        Some("mududb-v20991231.2359-x86_64-unknown-linux-gnu.tar.gz")
    );
}

#[test]
fn install_requests_resolve() {
    assert!(matches!(install_target("latest", HOST), Ok(InstallTarget::Latest)));
    match install_target("v20260514.1144", HOST) {
        Ok(InstallTarget::Artifact(a)) => assert!(a.url.ends_with("/mududb-v20260514.1144-x86_64-unknown-linux-gnu.tar.gz")),
        other => panic!("unexpected {:?}", other),
    }
    match install_target("newest", HOST) {
        Err(RemoteError::InvalidVersion(v)) => assert_eq!(v, "newest"),
        other => panic!("unexpected {:?}", other),
    }
}
