//! The operations that the modules make together.
use modelsteward::discover::{Device, LlamaInstall};
use modelsteward::gguf::GgufMeta;
use modelsteward::library::{ModelFile, Source};
use modelsteward::measurements::{Measurement, Measurements};
use modelsteward::meter::Bucket;
use modelsteward::router::{default_entries, RouterConfig};
use modelsteward::settings::{AppConfig, Env, ModelOverrides};
use modelsteward::system::{
    build_git, build_id, config_file, device_source, disabled_ids, env_fingerprint, fleet_known_ids,
    install_systemd_unit, is_managed_install, meter_range, meter_report_text, migrate_rename,
    migrate_snap_strays, migration_note, moves, pick_server, preset_path, renamed_dirs,
    router_config, scan_models, scan_report, systemd_unit_text, write_preset, Candidate, ScanReport,
};

fn env() -> Env {
    Env {
        home: Some("/home/u".to_string()),
        config_home: None,
        state_home: None,
        data_home: None,
    }
}

fn shelf(path: &str) -> ModelFile {
    ModelFile {
        path: path.to_string(),
        file_size: 1,
        source: Source::Shelf,
        // Only models whose header read get an alias.
        meta: Some(GgufMeta::default()),
        mmproj: None,
    }
}

#[test]
fn disabled_resolves_both_keyings_so_nothing_acts_on_them() {
    let a = "/m/Alpha-7B-Q4_K_M.gguf";
    let b = "/m/Beta-7B-Q4_K_M.gguf";
    let models = vec![shelf(a), shelf(b)];
    let alias_of = |p: &str| {
        default_entries(&models)
            .into_iter()
            .find(|(_, m, _)| m.path == p)
            .map(|(alias, _, _)| alias)
            .expect("model should have an alias")
    };

    // Keyed by PATH (how the Library disables a shelf model)…
    let mut cfg = AppConfig::defaults(&env());
    cfg.disabled = vec![a.to_string()];
    let off = disabled_ids(&cfg, &models);
    assert!(
        off.contains_key(&alias_of(a)),
        "a path-keyed disable must resolve to the router id calibrate sees"
    );
    assert!(!off.contains_key(&alias_of(b)));

    // …and keyed by ROUTER ID (how a cache-only model is disabled,
    // since it has no path we own).
    cfg.disabled = vec!["some-cache-id".to_string()];
    let off = disabled_ids(&cfg, &models);
    assert!(off.contains_key("some-cache-id"));
    assert!(!off.contains_key(&alias_of(a)));
}

#[test]
fn build_id_pins_the_exact_software() {
    // Version + git describe (or "release") + date.
    let id = build_id("0.5.2", &build_git(Some("")), "2026-09-01");
    assert!(id.starts_with("0.5.2"), "{id}");
    assert!(id.contains('(') && id.ends_with(')'), "{id}");
    assert!(!id.contains("(, "), "git field must never be empty: {id}");
    assert_eq!(
        build_id("0.5.2", &build_git(Some("v0.5.2-3-gabc\n")), "2026-09-01"),
        "0.5.2 (v0.5.2-3-gabc, 2026-09-01)"
    );
    assert_eq!(build_git(None), "release");
}

#[test]
fn systemd_unit_runs_llama_server_with_our_preset() {
    let cfg = RouterConfig {
        server_bin: "/opt/bin/llama-server".to_string(),
        port: 8080,
        preset_path: "/home/u/.config/modelsteward/router.ini".to_string(),
        models_max: 1,
    };
    let unit = systemd_unit_text(&cfg);
    assert!(unit.contains(
        "ExecStart=/opt/bin/llama-server --models-preset /home/u/.config/modelsteward/router.ini --host 127.0.0.1 --port 8080 --models-max 1"
    ));
    // The preset path in ExecStart is exactly what find_preset_process
    // matches on — this is the ownership handshake with the router module.
    assert!(unit.contains("WantedBy=default.target"));
}

#[test]
fn env_fingerprint_changes_with_build_and_devices() {
    let mk = |build, mib| ScanReport {
        installs: vec![LlamaInstall {
            server_path: "/s".to_string(),
            build: Some(build),
            commit: None,
            built_with: None,
            backends: vec![],
        }],
        devices: vec![Device {
            id: "CUDA0".into(),
            name: "GPU".into(),
            total_mib: mib,
            free_mib: 0,
        }],
        devices_from: Some("/s".to_string()),
        models: vec![],
    };
    let a = env_fingerprint(&mk(10216, 24111));
    assert_eq!(a, env_fingerprint(&mk(10216, 24111)), "stable");
    assert_ne!(a, env_fingerprint(&mk(10360, 24111)), "build matters");
    assert_ne!(a, env_fingerprint(&mk(10216, 48000)), "devices matter");
}

#[test]
fn free_memory_and_names_leave_the_environment_as_it_is() {
    let mk = |name: &str, free_mib: u64| ScanReport {
        installs: vec![],
        devices: vec![Device { id: "CUDA0".into(), name: name.into(), total_mib: 24111, free_mib }],
        devices_from: None,
        models: vec![],
    };
    assert_eq!(env_fingerprint(&mk("GPU", 0)), env_fingerprint(&mk("another name", 9000)));
}

#[test]
fn disabled_models_and_stray_overrides_shape_the_preset() {
    let models = vec![shelf("/m/Alpha.gguf"), shelf("/m/Beta.gguf")];
    let mut cfg = AppConfig::defaults(&env());
    cfg.disabled = vec!["/m/Beta.gguf".to_string()];
    let mut ov = ModelOverrides::default();
    ov.ctx = Some(4096);
    cfg.overrides.insert("alpha".to_string(), ov.copy());
    cfg.overrides.insert("o/Cache:Q4".to_string(), ov);
    let (ini, n) = write_preset(&cfg, &models, "/s/slots");
    assert_eq!(n, 1);
    assert!(ini.contains("[alpha]\nmodel = /m/Alpha.gguf\n"), "{ini}");
    assert!(!ini.contains("[beta]"), "{ini}");
    assert!(ini.contains("[o/Cache:Q4]\nc = 4096"), "{ini}");
}

#[test]
fn an_explicit_server_is_taken_or_refused() {
    let mut cfg = AppConfig::defaults(&env());
    let found = vec![
        Candidate { path: "/managed".into(), build: Some(9), managed: true, sees_devices: true },
        Candidate { path: "/own".into(), build: Some(7), managed: false, sees_devices: true },
    ];
    assert_eq!(pick_server(&cfg, false, &found, "/c.json"), Ok("/own".to_string()));
    cfg.server_bin = Some("/pinned".to_string());
    assert_eq!(pick_server(&cfg, true, &found, "/c.json"), Ok("/pinned".to_string()));
    assert!(pick_server(&cfg, false, &found, "/c.json").is_err());
    cfg.server_bin = None;
    assert!(pick_server(&cfg, false, &[], "/c.json").unwrap_err().contains("/c.json"));
    assert!(device_source(&found).is_some());
    assert_eq!(device_source(&[]), None);
}

#[test]
fn managed_installs_are_known_by_their_place() {
    assert!(is_managed_install("/data/modelsteward/builds/b7/llama-server", "/data/modelsteward"));
    assert!(!is_managed_install("/data/modelsteward2/llama-server", "/data/modelsteward"));
}

#[test]
fn the_fleet_knows_presets_and_measurements_but_not_the_disabled() {
    let mut cfg = AppConfig::defaults(&env());
    cfg.disabled = vec!["off".to_string()];
    let mut m = Measurements::new();
    m.insert("measured".to_string(), Measurement::default());
    m.insert("off".to_string(), Measurement::default());
    let known = fleet_known_ids(&cfg, &[], Some("[*]\n[a]\n"), &m);
    assert!(known.contains_key("a") && known.contains_key("measured"));
    assert!(!known.contains_key("off") && !known.contains_key("*"));
}

#[test]
fn the_meter_reports_over_a_named_range() {
    assert_eq!(meter_range(None, 100).unwrap(), ("all time".to_string(), None));
    assert_eq!(meter_range(Some("today"), 90_000).unwrap().1, Some(86_400));
    assert_eq!(meter_range(Some("24h"), 10).unwrap().1, Some(0));
    assert!(meter_range(Some("1y"), 0).unwrap_err().starts_with("unknown range \"1y\""));
    let buckets = vec![Bucket {
        when: 3600,
        model: "a".to_string(),
        turns: 1,
        prompt: 900,
        generated: 100,
        reused: 0,
    }];
    let text = meter_report_text(&buckets, Some("24h"), 7200, Some("drifted"), 3_000_000).unwrap();
    assert!(text.starts_with("WARNING: drifted\n\nMeter — last 24h"), "{text}");
    assert!(text.contains("1 turns"), "{text}");
    assert!(meter_report_text(&[], Some("x"), 0, None, 0).is_err());
}

#[test]
fn files_of_the_former_name_move_once() {
    assert!(moves(true, false));
    assert!(!moves(true, true) && !moves(false, false));
    let dirs = renamed_dirs(&env());
    assert!(dirs.iter().all(|(old, new)| old != new && new.contains("modelsteward")), "{dirs:?}");
    assert!(migration_note("/old", "/new", None).contains("/new"));
    assert!(migration_note("/old", "/new", Some("denied")).contains("denied"));
    assert!(migrate_rename(vec![]).is_empty());
    assert_eq!(migrate_rename(vec!["moved".to_string()]).len(), 2);
    let strays = migrate_snap_strays(&env());
    assert_eq!(
        strays[0],
        (".config/modelsteward".to_string(), "/home/u/.config/modelsteward".to_string())
    );
}

#[test]
fn places_and_the_unit() {
    let e = env();
    assert_eq!(config_file(&e), "/home/u/.config/modelsteward/config.json");
    assert_eq!(preset_path(&e), "/home/u/.config/modelsteward/router.ini");
    let cfg = AppConfig::defaults(&e);
    let rc = router_config(&cfg, Some("/opt/llama-server".to_string()), &e);
    assert_eq!((rc.port, rc.models_max), (8080, 1));
    assert_eq!(rc.preset_path, preset_path(&e));
    assert!(install_systemd_unit(&e).unwrap().starts_with("/home/u/.config/systemd/user/"));
    assert_eq!(
        scan_models(&cfg, &["/extra".to_string()]),
        vec!["/home/u/models".to_string(), "/extra".to_string()]
    );
    let r = scan_report(vec![], None, vec![]);
    assert!(r.devices.is_empty() && r.devices_from.is_none());
}
