use dpetoolbox::update_check::{
    cli_update_notice, get_web_update_banner, is_prerelease_version, select_update,
    version_is_newer, Release, UpdateInfo, UpdateSlot, CURRENT_VERSION,
};

#[test]
fn test_version_comparison() {
    assert!(version_is_newer("v2.1.0", "2.0.2"));
    assert!(version_is_newer("v3.0.0", "2.2.0-dev1"));
    assert!(version_is_newer("2.2.0", "2.2.0-dev1"));
    assert!(!version_is_newer("2.0.0", "2.0.2"));
    assert!(!version_is_newer("2.2.0-dev1", "2.2.0-dev1"));
    assert!(version_is_newer("2.2.0-dev2", "2.2.0-dev1"));
}

#[test]
fn test_is_prerelease() {
    assert!(is_prerelease_version("2.2.0-dev1"));
    assert!(is_prerelease_version("2.2.0-beta1"));
    assert!(!is_prerelease_version("2.1.0"));
}

#[test]
fn prerelease_markers() {
    assert!(is_prerelease_version("3.0.0-rc1"));
    assert!(is_prerelease_version("3.0.0-alpha"));
    assert!(!is_prerelease_version("3.0.0-gamma"));
    assert!(!is_prerelease_version(""));
}

#[test]
fn version_is_not_newer_than_itself() {
    for v in ["2.2.0", "v1.0", "2.2.0-dev3", "", "abc"] {
        assert!(!version_is_newer(v, v));
    }
}

#[test]
fn longer_version_wins_on_equal_prefix() {
    assert!(version_is_newer("2.2.0.1", "2.2.0"));
    assert!(!version_is_newer("2.2", "2.2.0"));
}

#[test]
fn stable_beats_its_prerelease() {
    assert!(version_is_newer("v2.3.0", "2.3.0-beta2"));
    assert!(!version_is_newer("2.3.0-beta2", "2.3.0"));
}

fn release(tag: &str, pre: bool) -> Release {
    Release { tag_name: tag.to_string(), prerelease: pre, html_url: format!("https://example.com/{}", tag) }
}

#[test]
fn stable_user_is_offered_first_newer_stable() {
    let releases = vec![release("v2.4.0-dev1", true), release("v2.3.0", false), release("v2.2.5", false)];
    let info = select_update(&releases, "2.2.0").unwrap();
    assert_eq!(info.latest_version, "v2.3.0");
    assert_eq!(info.download_url, "https://example.com/v2.3.0");
    assert!(!info.is_prerelease);
}

#[test]
fn prerelease_user_is_offered_prereleases() {
    let releases = vec![release("v2.2.0-dev2", true), release("v2.1.0", false)];
    let info = select_update(&releases, "2.2.0-dev1").unwrap();
    assert_eq!(info.latest_version, "v2.2.0-dev2");
    assert!(info.is_prerelease);
}

#[test]
fn no_update_when_nothing_newer() {
    let releases = vec![release("v2.1.0", false), release("v2.2.0", false)];
    assert!(select_update(&releases, "2.2.0").is_none());
    assert!(select_update(&Vec::new(), "2.2.0").is_none());
}

#[test]
fn banner_for_stable_and_none() {
    let info = UpdateInfo {
        latest_version: "v9.9.9".to_string(),
        download_url: "https://x/y".to_string(),
        is_prerelease: false,
    };
    let banner = get_web_update_banner(Some(&info));
    assert!(banner.contains("New stable release available: <strong>v9.9.9</strong> (current: 2.2.0)"));
    assert!(banner.contains("<a href=\"https://x/y\""));
    assert_eq!(get_web_update_banner(None), "");
}

#[test]
fn banner_for_prerelease() {
    let info = UpdateInfo {
        latest_version: "v3.0.0-rc1".to_string(),
        download_url: "u".to_string(),
        is_prerelease: true,
    };
    assert!(get_web_update_banner(Some(&info)).contains("New pre-release available"));
}

#[test]
fn update_slot_keeps_first_outcome() {
    let mut slot = UpdateSlot::new();
    assert!(slot.get_update_info().is_none());
    let first = UpdateInfo { latest_version: "v3".into(), download_url: "a".into(), is_prerelease: false };
    let second = UpdateInfo { latest_version: "v4".into(), download_url: "b".into(), is_prerelease: false };
    assert!(slot.set(Some(first)));
    assert!(!slot.set(Some(second)));
    assert_eq!(slot.get_update_info().unwrap().latest_version, "v3");
}

#[test]
fn update_slot_without_update() {
    let mut slot = UpdateSlot::new();
    assert!(slot.set(None));
    assert!(slot.get_update_info().is_none());
}

#[test]
fn cli_notice_lines() {
    let info = UpdateInfo { latest_version: "v2.5.0".into(), download_url: "https://d".into(), is_prerelease: false };
    let lines = cli_update_notice(Some(&info));
    assert_eq!(
        lines,
        vec![
            String::new(),
            "  ** New stable available: v2.5.0 (current: 2.2.0) **".to_string(),
            "     Download: https://d".to_string(),
            String::new(),
        ]
    );
    assert!(cli_update_notice(None).is_empty());
    assert_eq!(CURRENT_VERSION, "2.2.0");
}

#[test]
fn versions_with_different_part_counts_can_both_be_newer() {
    assert!(version_is_newer("2.2", "2.2.0-dev1"));
    assert!(version_is_newer("2.2.0-dev1", "2.2"));
}

#[test]
fn a_leading_v_never_changes_the_order() {
    for (a, b) in [("2.1.0", "2.0.2"), ("1.0.0", "1.0.0"), ("1.0.0-rc1", "1.0.0"), ("3", "2.9.9"), ("0.9", "1.0")] {
        let base = version_is_newer(a, b);
        assert_eq!(version_is_newer(&format!("v{}", a), b), base);
        assert_eq!(version_is_newer(a, &format!("v{}", b)), base);
    }
}
