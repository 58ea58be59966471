use belka::updater::{
    check_for_update, parse_version, update_body, update_info, Asset, Release, Version,
    RELEASES_URL,
};

fn release(tag: &str, draft: bool, prerelease: bool) -> Release {
    Release {
        tag_name: tag.into(),
        html_url: format!("https://example.test/release/{tag}"),
        draft,
        prerelease,
        assets: vec![
            Asset {
                name: format!("BelkaTunnel-{tag}.dmg"),
                browser_download_url: format!("https://example.test/dl/BelkaTunnel-{tag}.dmg"),
            },
            Asset {
                name: "other-asset.txt".into(),
                browser_download_url: "https://example.test/dl/other-asset.txt".into(),
            },
        ],
    }
}

#[test]
fn parses_version_with_or_without_v() {
    assert_eq!(parse_version("0.1.2").unwrap(), Version::new(0, 1, 2));
    assert_eq!(parse_version("v0.1.2").unwrap(), Version::new(0, 1, 2));
    assert_eq!(
        parse_version("v0.1.2-beta.1").unwrap().text(),
        "0.1.2-beta.1"
    );
    assert!(parse_version("not a version").is_err());
}

#[test]
fn check_returns_update_when_remote_is_newer() {
    let info = check_for_update(&release("v0.2.0", false, false), "0.1.0").unwrap();
    let info = info.expect("expected Some(UpdateInfo)");
    assert_eq!(info.latest_version, "v0.2.0");
    assert_eq!(info.release_url, "https://example.test/release/v0.2.0");
    // Asset filter picks the .dmg that contains 'BelkaTunnel' — not the
    // .txt sibling.
    assert_eq!(
        info.asset_url.as_deref(),
        Some("https://example.test/dl/BelkaTunnel-v0.2.0.dmg")
    );
}

#[test]
fn check_returns_none_when_remote_is_equal_or_older() {
    let same = check_for_update(&release("v0.1.0", false, false), "0.1.0").unwrap();
    assert!(same.is_none(), "equal versions should not advertise update");
    let older = check_for_update(&release("v0.0.1", false, false), "0.1.0").unwrap();
    assert!(older.is_none(), "older remote should not advertise update");
}

#[test]
fn check_skips_drafts_and_prereleases() {
    assert!(
        check_for_update(&release("v0.2.0", true, false), "0.1.0")
            .unwrap()
            .is_none(),
        "draft release leaked through"
    );
    assert!(
        check_for_update(&release("v0.2.0", false, true), "0.1.0")
            .unwrap()
            .is_none(),
        "prerelease leaked through"
    );
    // A draft is skipped before its tag is read.
    assert_eq!(check_for_update(&release("x", true, false), "0.1.0"), Ok(None));
}

#[test]
fn unreadable_versions_are_named() {
    let err = check_for_update(&release("latest", false, false), "0.1.0").unwrap_err();
    assert!(err.contains("latest"), "{err}");
    let err = check_for_update(&release("v0.2.0", false, false), "dev").unwrap_err();
    assert!(err.contains("dev"), "{err}");
}

#[test]
fn versions_are_ordered_as_semver_orders_them() {
    let newer = |tag: &str, current: &str| {
        check_for_update(&release(tag, false, false), current)
            .unwrap()
            .is_some()
    };
    assert!(newer("v0.10.0", "0.9.0"));
    assert!(newer("v1.0.0", "1.0.0-rc.1"));
    assert!(!newer("v1.0.0-rc.1", "1.0.0"));
    assert!(newer("v1.0.0-rc.11", "1.0.0-rc.2"));
}

#[test]
fn versions_are_written_as_they_were_read() {
    let version = parse_version(" vv1.2.3-rc.1+build.5 ").unwrap();
    assert_eq!(version.major, 1);
    assert_eq!(version.minor, 2);
    assert_eq!(version.patch, 3);
    assert_eq!(version.pre, "rc.1");
    assert_eq!(version.build, "build.5");
    assert_eq!(version.text(), "1.2.3-rc.1+build.5");
}

#[test]
fn an_update_leads_to_its_asset_or_its_page() {
    let info = update_info(&release("v0.2.0", false, false));
    assert_eq!(info.url(), "https://example.test/dl/BelkaTunnel-v0.2.0.dmg");
    assert!(info.title().contains("v0.2.0"), "{}", info.title());
    let mut bare = release("v0.2.0", false, false);
    bare.assets.remove(0);
    let info = update_info(&bare);
    assert_eq!(info.asset_url, None);
    assert_eq!(info.url(), "https://example.test/release/v0.2.0");
    assert!(update_body("0.1.0").contains("0.1.0"));
    assert!(RELEASES_URL.starts_with("https://api.github.com/"));
}
