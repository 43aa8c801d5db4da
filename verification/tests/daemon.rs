use vram_booster::cgroup::{is_app_scope, user_manager};
use vram_booster::config::ceiling_for;
use vram_booster::dmem::{dmem_low_has_value, parse_dmem_capacity};

#[test]
fn parse_dmem_capacity_picks_drm_entries() {
    let content = "drm/0000:2d:00.0/vram 8573157376\ndrm/0000:2d:00.0/gtt 0\nsystem 12345\n";
    let entries = parse_dmem_capacity(content);
    assert_eq!(
        entries,
        vec![("drm/0000:2d:00.0/vram".to_string(), 8573157376)]
    );
}

#[test]
fn parse_dmem_capacity_ignores_malformed() {
    assert!(parse_dmem_capacity("").is_empty());
    assert!(parse_dmem_capacity("drm/x/vram notanumber\njunk\n").is_empty());
}

#[test]
fn is_app_scope_exact_component_only() {
    assert!(is_app_scope(
        "/sys/fs/cgroup/user.slice/user-1000.slice/user@1000.service/app.slice/app-foo.scope"
    ));
    assert!(!is_app_scope("/sys/fs/cgroup/user.slice/session.slice"));
    // substring that is not an exact path component must not match
    assert!(!is_app_scope("/sys/fs/cgroup/my-app.slice-x/foo"));
}

#[test]
fn user_manager_only_for_a_users_app_slice() {
    let manager = "/sys/fs/cgroup/user.slice/user-1000.slice/user@1000.service";
    assert_eq!(
        user_manager(&format!("{manager}/app.slice/app-foo.scope")),
        Some(manager.to_string())
    );
    assert_eq!(
        user_manager(&format!("{manager}/app.slice/app-x.slice/app-foo.scope")),
        Some(manager.to_string())
    );
    assert_eq!(user_manager("/sys/fs/cgroup/app.slice/foo.service"), None);
    assert_eq!(
        user_manager("/sys/fs/cgroup/user.slice/user-1000.slice/session-2.scope"),
        None
    );
}

#[test]
fn ceiling_for_leaves_the_reserve() {
    let mib = 1024 * 1024;
    assert_eq!(ceiling_for(8192 * mib, 256), Some(7936 * mib));
    assert_eq!(ceiling_for(8192 * mib, 0), None);
    assert_eq!(ceiling_for(256 * mib, 256), None);
    assert_eq!(ceiling_for(8192 * mib, u64::MAX), None);
}

#[test]
fn dmem_low_has_value_matches_exact_key_and_value() {
    let body = "drm/0000:2d:00.0/vram 7715841638\n";
    assert!(dmem_low_has_value(
        body,
        "drm/0000:2d:00.0/vram",
        7715841638
    ));
    assert!(!dmem_low_has_value(body, "drm/0000:2d:00.0/vram", 0));
    assert!(!dmem_low_has_value(body, "drm/other/vram", 7715841638));
    assert!(!dmem_low_has_value("", "drm/0000:2d:00.0/vram", 7715841638));
}
