//! Where files live, and the configuration's defaults.
use modelsteward::settings::{
    load_warning, preserved_as, real_home, strip_snap_redirect, xdg_dir, AppConfig, Env,
    ModelOverrides,
};

fn env(home: &str) -> Env {
    Env {
        home: Some(home.to_string()),
        config_home: None,
        state_home: None,
        data_home: None,
    }
}

fn is_default(c: &AppConfig) -> bool {
    c.scan_dirs == vec!["/home/u/models".to_string()]
        && c.port == 8080
        && c.server_bin.is_none()
        && c.ollama_port == 11434
        && c.models_max == 1
        && c.overrides.is_empty()
        && c.disabled.is_empty()
        && c.kwh_price_usd == 150_000
        && c.archives_keep == 5
}

#[test]
fn corrupt_configs_are_loud_and_never_silently_clobbered() {
    // Missing = quiet defaults; unparseable = defaults + the parse error
    // surfaced; a save preserves an unparseable original as
    // config.json.corrupt before writing.
    let e = env("/home/u");
    let path = "/home/u/.config/modelsteward/config.json";
    // Missing: quiet defaults.
    let (cfg, err) = AppConfig::load_checked(None, &e);
    assert!(is_default(&cfg));
    assert!(err.is_none());
    // Corrupt: defaults + loud error.
    let (cfg, err) = AppConfig::load_checked(Some(Err("trailing comma".to_string())), &e);
    assert!(is_default(&cfg));
    assert!(err.is_some(), "parse failure must be surfaced");
    assert!(load_warning(path, &err.unwrap()).contains("(trailing comma)"));
    // Save rescues the corrupt original before overwriting.
    assert_eq!(
        preserved_as(path, Some(false)).as_deref(),
        Some("/home/u/.config/modelsteward/config.json.corrupt")
    );
    assert_eq!(preserved_as(path, Some(true)), None);
    assert_eq!(preserved_as(path, None), None);
    let (roundtrip, err) = AppConfig::load_checked(Some(Ok(cfg)), &e);
    assert!(is_default(&roundtrip));
    assert!(err.is_none());
}

#[test]
fn default_scan_dir_survives_snap_home() {
    // A snap-launched app must not get a vanishing ~/snap/…/models scan dir.
    let d = AppConfig::defaults(&env("/home/u/snap/code/258"));
    assert!(
        !d.scan_dirs.iter().any(|p| p.split('/').any(|c| c == "snap")),
        "{:?}",
        d.scan_dirs
    );
}

#[test]
fn snap_redirects_strip_but_snap_users_survive() {
    let strip = |p: &str| strip_snap_redirect(p);
    // The real redirect shape: home/snap/<app>/<revision>.
    assert_eq!(strip("/home/buck/snap/code/258"), Some("/home/buck".into()));
    assert_eq!(
        strip("/home/buck/snap/code/258/.local/share"),
        Some("/home/buck".into())
    );
    // A user literally named snap, or snap as a plain dir: untouched.
    assert_eq!(strip("/home/snap"), None);
    assert_eq!(strip("/data/snap/scott"), None);
    assert_eq!(strip("/home/buck"), None);
}

#[test]
fn xdg_empty_or_relative_means_unset() {
    // Empty or relative values must be ignored.
    let e = env("/home/u");
    assert!(xdg_dir(&Some("".to_string()), &e, ".config").starts_with('/'));
    assert!(xdg_dir(&Some("relative/path".to_string()), &e, ".config").starts_with('/'));
    assert_eq!(xdg_dir(&Some("/x".to_string()), &e, ".config"), "/x/modelsteward");
    assert_eq!(xdg_dir(&None, &e, ".config"), "/home/u/.config/modelsteward");
}

#[test]
fn the_real_home_is_behind_the_redirect() {
    assert_eq!(real_home(&env("/home/u/snap/code/258")), "/home/u");
    assert_eq!(real_home(&env("/home/u")), "/home/u");
}

#[test]
fn overrides_that_say_nothing_are_default() {
    assert!(ModelOverrides::default().is_default());
    let mut ov = ModelOverrides::default();
    ov.ctx = Some(4096);
    assert!(!ov.is_default());
    assert_eq!(ov.copy().ctx, Some(4096));
}
