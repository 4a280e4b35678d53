//! The router: its preset, its processes, its answers.
use modelsteward::fingerprint::fnv;
use modelsteward::json::{parse, Json};
use modelsteward::library::{ModelFile, Source};
use modelsteward::measurements::{
    migrate_measurement, read_measurements, read_measurements_checked, upsert_measurement,
    Measurement, Measurements,
};
use modelsteward::preset::{
    embedding_ids_in_preset, ids_in_preset, mine_load_error, urlencode, vision_ids_in_preset,
};
use modelsteward::router::{
    cmdline_matches, cmdline_matches_port, default_entries, find_preset_process,
    find_preset_process_on, loaded_other, marker_is_live, parse_extra_line, parse_models_response,
    parse_tool_call_probe, poll_stop, render_preset, resident, router_mode_supported, start_args,
    start_refusal, status, still_loaded, stop_plan, waits_for_unload, Marker, RouterConfig,
    RouterModel, RouterState, StopPlan, StopPoll,
};
use modelsteward::safefs::{rescue, Loaded};
use modelsteward::settings::ModelOverrides;

fn json(text: &str) -> Json {
    parse(text).unwrap()
}

fn model(path: &str) -> ModelFile {
    ModelFile {
        path: path.to_string(),
        file_size: 0,
        source: Source::Shelf,
        meta: Some(Default::default()),
        mmproj: None,
    }
}

#[test]
fn pre_router_builds_get_a_plain_language_refusal() {
    let e = router_mode_supported(Some(10_088)).unwrap_err();
    assert!(e.contains("b10088") && e.contains("10216") && e.contains("Build Advisor"));
    assert!(router_mode_supported(Some(10_216)).is_ok());
    assert!(router_mode_supported(Some(10_675)).is_ok());
    assert!(router_mode_supported(None).is_ok(), "unprobeable -> let the timeout judge");
}

#[test]
fn extra_flag_lines_accept_what_model_cards_teach() {
    assert_eq!(parse_extra_line("fit-target = 2048").unwrap(), ("fit-target".into(), "2048".into()));
    assert_eq!(parse_extra_line("--n-cpu-moe 32").unwrap(), ("n-cpu-moe".into(), "32".into()));
    assert_eq!(parse_extra_line("-ub 2048").unwrap(), ("ub".into(), "2048".into()));
    assert_eq!(parse_extra_line("--cpu-moe").unwrap(), ("cpu-moe".into(), "true".into()));
    assert_eq!(parse_extra_line("cache-reuse=512").unwrap(), ("cache-reuse".into(), "512".into()));
    assert!(parse_extra_line("what even is this line here").is_err());
    assert!(parse_extra_line("").is_err());
}

#[test]
fn port_ownership_needs_both_credentials() {
    let preset = "/home/u/.config/modelsteward/router.ini";
    let ours_18080 = "/opt/bin/llama-server --models-preset \
         /home/u/.config/modelsteward/router.ini --host 127.0.0.1 --port 18080";
    assert!(cmdline_matches(ours_18080, preset), "preset credential holds");
    assert!(
        !cmdline_matches_port(ours_18080, preset, 8080),
        "but it must NOT claim ownership of port 8080"
    );
    assert!(cmdline_matches_port(ours_18080, preset, 18080));
    // A stranger's server never matches either way.
    assert!(!cmdline_matches_port(
        "/usr/bin/llama-server -m model.gguf --port 8080",
        preset,
        8080
    ));
}

#[test]
fn transient_failures_are_never_fresh_so_remeasure_actually_remeasures() {
    let busy = Measurement {
        // A REAL stored shape: the router 500s a load while another
        // session holds the slot; classify() maps it to ServerBusy.
        error: Some("load failed: /models/load: status code 500".into()),
        args_fp: Some("aaaa".into()),
        env_fp: Some("eeee".into()),
        ..Default::default()
    };
    assert!(
        !busy.is_fresh(Some("aaaa"), "eeee"),
        "a ServerBusy failure must be stale so the promised re-measure happens"
    );
    // A permanent failure under the same fingerprints stays fresh.
    let broken = Measurement {
        error: Some("unknown model architecture 'qwen3.5-ollama'".into()),
        args_fp: Some("aaaa".into()),
        env_fp: Some("eeee".into()),
        ..Default::default()
    };
    assert!(
        broken.is_fresh(Some("aaaa"), "eeee"),
        "a permanent failure is not re-tried on every calibrate"
    );
}

#[test]
fn router_state_display_is_plain_language() {
    let ext = RouterState::External { detail: "llama-server pid 4242".into() };
    let text = ext.to_text();
    assert!(!text.contains('{') && !text.contains("External"), "{text}");
    assert!(text.contains("won't touch"), "{text}");
    assert!(RouterState::Down.to_text().contains("nothing is answering"));
    let ours = RouterState::Ours { models: vec![] };
    assert!(ours.to_text().contains("0 models"));
}

#[test]
fn preset_has_coding_agent_defaults_and_per_model_sections() {
    let m1 = model("/models/a.gguf");
    let m2 = model("/models/b.gguf");
    let entries = vec![
        ("alpha".to_string(), &m1, ModelOverrides::default()),
        (
            "beta".to_string(),
            &m2,
            ModelOverrides {
                cache_type_kv: Some("f16".into()),
                ctx: Some(16384),
                extra: vec![("fit-target".into(), "2048".into())],
                ..Default::default()
            },
        ),
    ];
    let extra = vec![(
        "unsloth/Some-GGUF:Q5_K_XL".to_string(),
        ModelOverrides {
            ctx: Some(32768),
            ..Default::default()
        },
    )];
    let ini = render_preset(&entries, &extra, "/state/slots");
    assert!(ini.contains("version = 1"));
    // Cache-id section: configures an existing router model, no path.
    assert!(ini.contains("[unsloth/Some-GGUF:Q5_K_XL]\nc = 32768"));
    assert!(ini.contains("[*]\nnp = 1\ncache-type-k = q8_0"));
    // Agent-workload cache defaults: mid-prompt
    // KV reuse + a bigger host-RAM budget for swapped-out slot caches.
    assert!(ini.contains("cache-reuse = 256"));
    assert!(ini.contains("cache-ram = 24576"));
    // Slot save/restore API enabled fleet-wide (groundwork for cheap
    // swap-back; the dir itself is created by write_preset).
    assert!(ini.contains("slot-save-path = "));
    assert!(ini.contains("[alpha]\nmodel = /models/a.gguf\n"));
    // beta overrides the global KV type and pins ctx.
    assert!(ini.contains("[beta]"));
    assert!(ini.contains("cache-type-k = f16"));
    assert!(ini.contains("c = 16384"));
    assert!(ini.contains("fit-target = 2048"));
}

#[test]
fn duplicate_aliases_get_suffixes_not_collisions() {
    let m1 = model("/x/Same-Name.gguf");
    let m2 = model("/y/Same-Name.gguf");
    let models = vec![m1, m2];
    let entries = default_entries(&models);
    assert_eq!(entries[0].0, "same-name");
    assert_eq!(entries[1].0, "same-name-2");
}

#[test]
fn metaless_models_are_excluded_from_the_preset() {
    let mut broken = model("/x/broken.gguf");
    broken.meta = None;
    assert!(default_entries(&[broken]).is_empty());
}

#[test]
fn parses_models_response_including_failures() {
    let body = json(r#"{"data": [ {"id": "good", "status": {"value": "loaded", "args": []}}, {"id": "bad", "status": {"value": "unloaded", "failed": true, "exit_code": 1}}, {"id": "pending", "status": {"value": "loading"}} ]}"#);
    let models = parse_models_response(&body);
    assert_eq!(models.len(), 3);
    assert_eq!(models[0].status, "loaded");
    assert_eq!(models[1].status, "failed(1)");
    assert_eq!(models[2].status, "loading");
}

#[test]
fn fnv_is_stable_and_discriminating() {
    assert_eq!(fnv("abc"), fnv("abc"));
    assert_ne!(fnv("abc"), fnv("abd"));
    assert_eq!(fnv(""), "cbf29ce484222325");
}

#[test]
fn args_fingerprint_comes_from_status_args() {
    let body = json(r#"{"data": [ {"id": "a", "status": {"value": "unloaded", "args": ["llama-server", "-c", "4096"]}}, {"id": "b", "status": {"value": "unloaded"}} ]}"#);
    let models = parse_models_response(&body);
    assert_eq!(models[0].args_fp.as_deref(), Some(fnv("llama-server -c 4096").as_str()));
    assert!(models[1].args_fp.is_none());
}

#[test]
fn ephemeral_port_does_not_change_the_fingerprint() {
    let fp = |port: &str| {
        let body = json(r#"{"data": [ {"id": "a", "status": {"value": "unloaded", "args": ["llama-server", "--port", "PORT", "-c", "4096"]}} ]}"#.replace("PORT", port)
                .as_str());
        parse_models_response(&body)[0].args_fp.clone().unwrap()
    };
    assert_eq!(fp("0"), fp("53001"), "load-assigned port must not mark models stale");
    let no_port = {
        let body = json(r#"{"data": [ {"id": "a", "status": {"value": "unloaded", "args": ["llama-server", "-c", "4096"]}} ]}"#);
        parse_models_response(&body)[0].args_fp.clone().unwrap()
    };
    assert_eq!(fp("0"), no_port);
}

#[test]
fn tool_call_probe_parsing_is_strict() {
    // A live shape.
    let good = json(r#"{"choices":[{"message":{"tool_calls":[ {"function":{"name":"get_weather","arguments":"{\"city\":\"Paris\"}"}}]}, "finish_reason":"tool_calls"}]}"#);
    assert!(parse_tool_call_probe(&good));

    // Truncated arguments (the max_tokens pitfall) -> not a pass.
    let truncated = json(r#"{"choices":[{"message":{"tool_calls":[ {"function":{"name":"get_weather","arguments":"{"}}]}, "finish_reason":"length"}]}"#);
    assert!(!parse_tool_call_probe(&truncated));

    // Plain text answer, no tool call.
    let text = json(r#"{"choices":[{"message":{"content":"It is sunny."}, "finish_reason":"stop"}]}"#);
    assert!(!parse_tool_call_probe(&text));

    // Hallucinated different function name.
    let wrong = json(r#"{"choices":[{"message":{"tool_calls":[ {"function":{"name":"weather_lookup","arguments":"{}"}}]}}]}"#);
    assert!(!parse_tool_call_probe(&wrong));
}

#[test]
fn migration_moves_ctx_stale_and_keeps_bench() {
    let mut all = Measurements::new();
    all.insert(
        "unsloth/Repo:Q5".into(),
        Measurement {
            n_ctx: Some(90_000),
            tool_call: Some(true),
            args_fp: Some("aaaa".into()),
            env_fp: Some("eeee".into()),
            pp_tps: Some(1_500_000_000),
            tg_tps: Some(40_000_000),
            bench_build: Some(10454),
            ..Default::default()
        },
    );
    migrate_measurement(&mut all, "unsloth/Repo:Q5", "repo-q5");
    assert!(!all.contains_key("unsloth/Repo:Q5"), "old key removed");
    let m = all.get("repo-q5").unwrap();
    assert_eq!(m.n_ctx, Some(90_000));
    assert_eq!(m.tool_call, Some(true));
    assert!(m.args_fp.is_none() && m.env_fp.is_none(), "stale -> re-measures");
    assert_eq!(m.tg_tps, Some(40_000_000), "bench travels (same bytes, same build)");
    assert_eq!(m.bench_build, Some(10454));

    // Never clobber an existing entry under the new id.
    let mut all2 = Measurements::new();
    all2.insert("old".into(), Measurement { n_ctx: Some(1), ..Default::default() });
    all2.insert("new".into(), Measurement { n_ctx: Some(2), ..Default::default() });
    migrate_measurement(&mut all2, "old", "new");
    assert_eq!(all2.get("new").unwrap().n_ctx, Some(2));
    assert!(all2.contains_key("old"), "kept when nothing moved");
}

#[test]
fn freshness_requires_matching_fingerprints() {
    let m = Measurement {
        n_ctx: Some(1000),
        tool_call: Some(true),
        error: None,
        args_fp: Some("aaaa".into()),
        env_fp: Some("eeee".into()),
        ..Default::default()
    };
    assert!(m.is_fresh(Some("aaaa"), "eeee"));
    assert!(!m.is_fresh(Some("bbbb"), "eeee"), "args changed -> stale");
    assert!(!m.is_fresh(Some("aaaa"), "ffff"), "env changed -> stale");
    assert!(!m.is_fresh(None, "eeee"), "unknown current args -> stale");

    let failed = Measurement {
        n_ctx: None,
        tool_call: None,
        error: Some("boom".into()),
        args_fp: Some("aaaa".into()),
        env_fp: Some("eeee".into()),
        ..Default::default()
    };
    assert!(failed.is_fresh(Some("aaaa"), "eeee"), "failures are remembered");
}

#[test]
fn cmdline_matching_requires_both_binary_and_preset() {
    let preset = "/home/u/.config/app/router.ini";
    assert!(cmdline_matches(
        "/opt/llama-server --models-preset /home/u/.config/app/router.ini",
        preset
    ));
    assert!(!cmdline_matches("/opt/llama-server -m other.gguf", preset));
    assert!(!cmdline_matches(
        "vim /home/u/.config/app/router.ini",
        preset
    ));
}

#[test]
fn a_truncated_measurements_file_is_rescued_not_read_as_empty() {
    let mut good = Measurements::new();
    good.insert("qwen".to_string(), Measurement { n_ctx: Some(113920), ..Default::default() });
    let (m, damage) = read_measurements_checked("/s/measurements.json", Loaded::Parsed(good), None);
    assert_eq!(m.len(), 1);
    assert_eq!(damage, None);

    // Truncated the way an interrupted write would.
    let path = "/s/measurements.json";
    let saved = rescue(path);
    let torn = parse("{\"qwen\": {\"n_c").unwrap_err();
    let (m, damage) = read_measurements_checked(path, Loaded::Damaged(torn), Some(&saved));
    assert!(m.is_empty(), "a damaged file yields no measurements");
    let why = damage.expect("damage must be REPORTED, not swallowed");
    assert!(why.contains("damaged"), "{why}");
    // The damaged bytes survive beside the file, so the next write cannot
    // destroy the user's only copy.
    assert!(saved.ends_with(".corrupt"), "{saved}");
    assert!(why.contains(&saved), "{why}");
    assert!(read_measurements(Loaded::Missing).is_empty());
}

#[test]
fn old_measurement_files_parse_as_stale() {
    let m = Measurement { n_ctx: Some(72960), ..Default::default() };
    assert_eq!(m.n_ctx, Some(72960));
    assert!(!m.is_fresh(Some("anything"), "env"), "no fingerprints -> re-measure");
}

#[test]
fn marker_roundtrip_and_pid_recycling_safety() {
    let m = Marker {
        pid: 1, // pid 1 exists but is init, not llama-server
        port: 18080,
        preset_path: "/tmp/p.ini".to_string(),
        server_bin: "/usr/bin/llama-server".to_string(),
    };
    // init's cmdline doesn't mention llama-server or our preset ->
    // a recycled pid is "not ours", never a kill target.
    assert!(!marker_is_live(&m, Some("/sbin/init splash")));
    assert!(!marker_is_live(&m, None));
    assert!(marker_is_live(&m, Some("/usr/bin/llama-server --models-preset /tmp/p.ini --port 18080")));
}

fn config() -> RouterConfig {
    RouterConfig {
        server_bin: "/opt/llama-server".to_string(),
        port: 8080,
        preset_path: "/c/router.ini".to_string(),
        models_max: 1,
    }
}

fn listed(id: &str, status: &str) -> RouterModel {
    RouterModel { id: id.to_string(), status: status.to_string(), source: None, args_fp: None }
}

#[test]
fn the_state_follows_who_answers() {
    let procs = vec![
        (7u32, "/opt/llama-server --models-preset /c/router.ini --host 127.0.0.1 --port 8080".to_string()),
        (9u32, "/usr/bin/llama-server -m m.gguf --port 8080".to_string()),
    ];
    assert_eq!(find_preset_process(&procs, "/c/router.ini"), Some(7));
    assert_eq!(find_preset_process_on(&procs, "/c/router.ini", 9999), None);
    let up = Ok(vec![listed("a", "loaded")]);
    let s = status(None, None, &procs, &config(), up);
    assert_eq!(s, RouterState::Ours { models: vec![listed("a", "loaded")] });
    let s = status(None, None, &procs[1..], &config(), Ok(vec![]));
    assert!(matches!(s, RouterState::External { .. }), "{s:?}");
    let s = status(None, None, &[], &config(), Err("refused".to_string()));
    assert_eq!(s, RouterState::Down);
}

#[test]
fn starting_is_refused_where_something_runs() {
    assert_eq!(start_refusal(None, false, 8080), None);
    assert!(start_refusal(Some(7), false, 8080).unwrap().contains('7'));
    assert!(start_refusal(None, true, 8080).unwrap().contains("8080"));
    let args = start_args(&config());
    assert!(args.windows(2).any(|w| w[0] == "--models-preset" && w[1] == "/c/router.ini"), "{args:?}");
    assert!(args.windows(2).any(|w| w[0] == "--port" && w[1] == "8080"), "{args:?}");
}

#[test]
fn only_our_own_process_is_ever_signalled() {
    assert!(matches!(
        stop_plan(Some((7, true)), None),
        StopPlan::Signal { pid: 7, stale_marker: false }
    ));
    assert!(matches!(
        stop_plan(Some((7, false)), Some(9)),
        StopPlan::Signal { pid: 9, stale_marker: true }
    ));
    assert!(matches!(stop_plan(Some((7, false)), None), StopPlan::Nothing { stale_marker: true, .. }));
    assert!(matches!(stop_plan(None, None), StopPlan::Nothing { stale_marker: false, .. }));
}

#[test]
fn residency_is_read_off_the_status() {
    assert!(resident("loaded") && resident("loading"));
    assert!(!resident("unloaded"));
    let models = vec![listed("a", "loaded"), listed("b", "unloaded")];
    assert_eq!(loaded_other(&models, "b").as_deref(), Some("a"));
    assert_eq!(loaded_other(&models, "a"), None);
    assert!(still_loaded(&models, "a") && !still_loaded(&models, "b"));
}

#[test]
fn a_remeasurement_keeps_the_baselines_of_the_same_setup() {
    let mut all = Measurements::new();
    let old = Measurement {
        n_ctx: Some(1),
        args_fp: Some("a".into()),
        env_fp: Some("e".into()),
        tg_tps: Some(40_000_000),
        ..Default::default()
    };
    all.insert("m".into(), old.clone());
    let again = Measurement { n_ctx: Some(2), tg_tps: None, ..old.clone() };
    upsert_measurement(&mut all, "m", again.clone());
    assert_eq!(all.get("m").unwrap().tg_tps, Some(40_000_000));
    assert_eq!(all.get("m").unwrap().n_ctx, Some(2));
    let moved = Measurement { args_fp: Some("b".into()), ..again };
    upsert_measurement(&mut all, "m", moved);
    assert_eq!(all.get("m").unwrap().tg_tps, None, "another setup drops them");
}

#[test]
fn presets_tell_their_sections() {
    let text = "[*]\nnp = 1\n\n[a]\nmodel = /a.gguf\nmmproj = /p.gguf\n\n[b]\nembedding = true\n";
    assert!(ids_in_preset(text).contains_key("a") && ids_in_preset(text).contains_key("b"));
    assert!(!ids_in_preset(text).contains_key("*"));
    assert!(vision_ids_in_preset(text).contains_key("a"));
    assert!(!vision_ids_in_preset(text).contains_key("b"));
    assert!(embedding_ids_in_preset(text).contains_key("b"));
}

#[test]
fn ids_are_encoded_for_a_query() {
    assert_eq!(urlencode("unsloth/Repo:Q5 é"), "unsloth%2FRepo%3AQ5%20%C3%A9");
    assert_eq!(urlencode("a-b_c.d~e"), "a-b_c.d~e");
}

#[test]
fn the_last_load_error_is_mined() {
    let log = "x\nerror loading model: first\ny\nE error loading model: second \n";
    assert_eq!(mine_load_error(log).as_deref(), Some("second"));
    assert_eq!(mine_load_error("quiet"), None);
}

#[test]
fn a_router_that_winds_down_is_given_its_time() {
    assert_eq!(poll_stop(1, false, 7), StopPoll::Gone);
    assert_eq!(poll_stop(299, true, 7), StopPoll::Wait);
    assert_eq!(poll_stop(300, false, 7), StopPoll::Gone);
    match poll_stop(300, true, 7) {
        StopPoll::GiveUp(why) => assert_eq!(
            why,
            "router (pid 7) still running 30s after SIGTERM; not escalating \
             automatically — it may exit late, so check --status before restarting"
        ),
        other => panic!("{other:?}"),
    }
}

#[test]
fn an_unload_is_waited_for_while_the_router_answers() {
    let held = [RouterModel {
        id: "m".into(),
        status: "loading".into(),
        source: None,
        args_fp: None,
    }];
    assert!(waits_for_unload(Some(&held), "m"));
    assert!(!waits_for_unload(Some(&held), "other"));
    assert!(!waits_for_unload(None, "m"), "a router that is gone holds nothing");
}
