use aether::search::Platform;
use aether::updates::{
    release_version_from_tag, updater_install_support, updater_pubkey, version_is_newer,
    version_parts, UpdateInstallResult, UpdateInstallStatus,
};

#[test]
fn version_comparison_handles_release_tags() {
    assert!(version_is_newer("v2.0.0", "1.9.9"));
    assert!(version_is_newer("1.0.1", "1.0.0"));
    assert!(!version_is_newer("1.0.0", "1.0.0"));
    assert!(!version_is_newer("0.9.9", "1.0.0"));
}

#[test]
fn versions_split_into_numeric_parts() {
    assert_eq!(version_parts(" v1.2.3-beta.4 "), vec![1, 2, 3, 4]);
    assert_eq!(version_parts("1..2"), vec![1, 2]);
    assert_eq!(version_parts("99999999999999999999999.1"), vec![1]);
    assert!(!version_is_newer("1.0", "1.0.0"));
    assert!(version_is_newer("1.0.0.1", "1.0.0"));
}

#[test]
fn tags_lose_their_v_prefix() {
    assert_eq!(release_version_from_tag(" v1.4.0 "), "1.4.0");
    assert_eq!(release_version_from_tag("vV2"), "2");
    assert_eq!(release_version_from_tag("1.0"), "1.0");
}

#[test]
fn updater_pubkey_treats_a_placeholder_as_unconfigured() {
    assert_eq!(updater_pubkey(Some("")), None);
    assert_eq!(updater_pubkey(Some("  \n")), None);
    assert_eq!(updater_pubkey(None), None);
    assert_eq!(
        updater_pubkey(Some("  dW50cnVzdGVkIGNvbW1lbnQ6IG1pbmlzaWdu\n")).as_deref(),
        Some("dW50cnVzdGVkIGNvbW1lbnQ6IG1pbmlzaWdu")
    );
}

#[test]
fn package_managed_linux_installs_update_elsewhere() {
    assert!(updater_install_support(&Platform::Linux, false).is_err());
    assert!(updater_install_support(&Platform::Linux, true).is_ok());
    assert!(updater_install_support(&Platform::Windows, false).is_ok());
    assert!(updater_install_support(&Platform::MacOs { major_version: 13 }, false).is_ok());
}

#[test]
fn install_results_need_a_restart_only_after_installing() {
    let installed = UpdateInstallResult::new(UpdateInstallStatus::Installed, "done");
    assert_eq!(installed.status, "installed");
    assert!(installed.needs_restart);
    assert_eq!(installed.message, "done");
    assert!(installed.version.is_none());
    let unsupported = UpdateInstallResult::new(UpdateInstallStatus::Unsupported, "no");
    assert_eq!(unsupported.status, "unsupported");
    assert!(!unsupported.needs_restart);
    assert_eq!(UpdateInstallStatus::Unconfigured.as_str(), "unconfigured");
    assert_eq!(UpdateInstallStatus::Unavailable.as_str(), "unavailable");
}
