use vram_booster::cgroup::{
    cgroup_path_in, is_boost_file, is_safe_dir, is_users_cgroup, pid_comm, unit_label, user_manager,
};

#[test]
fn unit_label_is_the_last_component() {
    assert_eq!(unit_label("/sys/fs/cgroup/user.slice/app.slice/app-foo.scope"), "app-foo.scope");
    assert_eq!(unit_label("no-slash"), "no-slash");
    assert_eq!(unit_label("/ends/"), "");
}

#[test]
fn user_manager_uses_the_first_app_slice() {
    assert_eq!(
        user_manager("/u/user@1.service/app.slice/x/app.slice/y"),
        Some("/u/user@1.service".to_string())
    );
    assert_eq!(user_manager("user@1.service/app.slice/x"), Some("user@1.service".to_string()));
    assert_eq!(user_manager("/u/user@1.service/app.slice"), None);
    assert_eq!(user_manager("/u/user@1.services/app.slice/x"), None);
}

#[test]
fn cgroup_path_from_the_unified_line() {
    let body = "1:name=systemd:/x\n0::/user.slice/app.slice/app-foo.scope \n";
    assert_eq!(
        cgroup_path_in(body),
        Some("/sys/fs/cgroup/user.slice/app.slice/app-foo.scope".to_string())
    );
    assert_eq!(cgroup_path_in("1:cpu:/x\n"), None);
    assert_eq!(cgroup_path_in("0::/\n"), Some("/sys/fs/cgroup/".to_string()));
}

#[test]
fn dirs_with_dot_dot_are_refused() {
    assert!(is_safe_dir("/sys/fs/cgroup/user.slice/app.slice/a.scope"));
    assert!(!is_safe_dir("/sys/fs/cgroup/../etc"));
    assert!(!is_safe_dir("/x/a..b"));
}

#[test]
fn boost_files_are_dmem_low_of_units_below_app_slice() {
    assert!(is_boost_file("/sys/fs/cgroup/user.slice/u/app.slice/a.scope/dmem.low"));
    assert!(is_boost_file("/sys/fs/cgroup/user.slice/u/app.slice/x.slice/a.scope/dmem.low"));
    assert!(!is_boost_file("/sys/fs/cgroup/user.slice/u/app.slice/a.scope/dmem.max"));
    assert!(!is_boost_file("/sys/fs/cgroup/user.slice/u/session.slice/s.scope/dmem.low"));
    // slices themselves are left alone
    assert!(!is_boost_file("/sys/fs/cgroup/user.slice/u/app.slice/dmem.low"));
    assert!(!is_boost_file("/sys/fs/cgroup/user.slice/u/app.slice/x.slice/dmem.low"));
    assert!(!is_boost_file("dmem.low"));
}

#[test]
fn users_cgroup_by_uid() {
    let cg = "/sys/fs/cgroup/user.slice/user-1000.slice/user@1000.service/app.slice/a.scope";
    assert!(is_users_cgroup(cg, 1000));
    assert!(!is_users_cgroup(cg, 100));
    assert!(!is_users_cgroup(cg, 10000));
    assert!(!is_users_cgroup("/sys/fs/cgroup/app.slice/a.scope", 0));
    // a unit of user 1000's nested below another user's slice is not user 1000's
    assert!(!is_users_cgroup(
        "/sys/fs/cgroup/user.slice/user-1001.slice/x/user-1000.slice/a.scope",
        1000
    ));
    assert!(is_users_cgroup(
        "/sys/fs/cgroup/user.slice/user-1001.slice/x/user-1000.slice/a.scope",
        1001
    ));
    assert!(!is_users_cgroup("/sys/fs/cgroup/user.slice/user-1000.slice", 1000));
}

#[test]
fn comm_is_trimmed() {
    assert_eq!(pid_comm(Some("firefox\n")), "firefox");
    assert_eq!(pid_comm(None), "");
}
