use socketup::cli::{target_os_env, target_triple, target_vendor};

#[test]
fn vendor_ladder_picks_the_first_match() {
    assert_eq!(target_vendor(true, true, true), "unknown");
    assert_eq!(target_vendor(false, true, true), "apple");
    assert_eq!(target_vendor(false, false, true), "pc");
    assert_eq!(target_vendor(false, false, false), "vendor");
}

#[test]
fn os_env_names() {
    assert_eq!(target_os_env(true, true, false, "linux"), "linux-gnu");
    assert_eq!(target_os_env(true, false, false, "linux"), "linux");
    assert_eq!(target_os_env(false, false, true, "macos"), "darwin");
    assert_eq!(target_os_env(false, false, false, "freebsd"), "freebsd");
}

#[test]
fn triple_joins_with_dashes() {
    assert_eq!(target_triple("x86_64", "unknown", "linux-gnu"), "x86_64-unknown-linux-gnu");
}
