//! The build advisor: reading tools' output, verdicts, rebuild commands, and
//! what a rebuild changed.
use modelsteward::advisor::{
    build_commands, check, default_backends, is_narrated, keep_tail, locked_models, mine_failures,
    parse_build_tag, parse_compute_cap, parse_gfx_target, parse_persistence_mode,
    persistence_fix_from_execstart, rebuild_commands, rebuild_plan, recorded_source, repo_candidate,
    repo_of, stale_cache, step_line, upstream_probe, verdicts, verify_outcome, verify_summary,
    BackendSelection, BuildCheck, MachineProbe, RepoProbe, VerifyReport,
};
use modelsteward::measurements::{Measurement, Measurements};

fn m(ctx: Option<u64>, err: Option<&str>) -> Measurement {
    Measurement {
        n_ctx: ctx,
        error: err.map(String::from),
        ..Default::default()
    }
}

#[test]
fn verify_outcome_classifies_the_b10630_case() {
    let mut before = Measurements::new();
    let mut after = Measurements::new();
    before.insert("locked".into(), m(None, Some("rope sections")));
    after.insert("locked".into(), m(None, Some("rope sections")));
    before.insert("fine".into(), m(Some(120_064), None));
    after.insert("fine".into(), m(Some(111_872), None));
    before.insert("wins".into(), m(None, Some("old format")));
    after.insert("wins".into(), m(Some(90_000), None));
    before.insert("regresses".into(), m(Some(50_000), None));
    after.insert("regresses".into(), m(None, Some("boom")));
    let r = verify_outcome(&before, &after);
    assert_eq!(r.unlocked, vec!["wins"]);
    assert_eq!(r.still_locked, vec!["locked"]);
    assert_eq!(r.newly_locked, vec!["regresses"]);
    assert_eq!(r.ctx_shifts, vec![("fine".to_string(), 120_064, 111_872)]);
    let text = verify_summary(&r).join("\n");
    assert!(text.contains("REGRESSION"), "{text}");
    assert!(text.contains("unlocked ✔"), "{text}");
    assert!(text.contains("-7%") || text.contains("−7%"), "{text}");
}

#[test]
fn a_rebuild_that_changed_nothing_says_so() {
    let none = Measurements::new();
    assert_eq!(
        verify_summary(&verify_outcome(&none, &none)),
        vec!["no measured changes — same locks, same contexts".to_string()]
    );
}

fn shifted(shifts: &[(u64, u64)]) -> Vec<String> {
    verify_summary(&VerifyReport {
        unlocked: vec![],
        still_locked: vec![],
        newly_locked: vec![],
        ctx_shifts: shifts.iter().map(|(b, a)| ("m".to_string(), *b, *a)).collect(),
    })
}

/// The mean is that of the true ratios, so the nudge comes at 5% and not a
/// token before it.
#[test]
fn a_loss_is_worth_reporting_from_five_percent_on() {
    assert_eq!(shifted(&[(100, 95)]).len(), 2);
    assert_eq!(shifted(&[(100_000_001, 95_000_001)]).len(), 1);
    assert_eq!(shifted(&[(3, 1), (3, 4)]).len(), 2);
    assert_eq!(shifted(&[(3, 1), (3, 5)]).len(), 1);
    let big = u64::MAX;
    assert_eq!(shifted(&[(big, big / 20 * 19), (big, big / 20 * 19)]).len(), 2);
    let lines = shifted(&[(100, 95)]);
    assert!(lines[1].starts_with("this looks worth reporting upstream"), "{lines:?}");
}

#[test]
fn the_mean_change_is_told_in_percent() {
    let told = |shifts: &[(u64, u64)]| -> String {
        let line = shifted(shifts)[0].clone();
        let from = line.find("(mean ").unwrap() + "(mean ".len();
        line[from..line.find('%').unwrap()].to_string()
    };
    assert_eq!(told(&[(1, 10_000_000)]), "+999999900");
    assert_eq!(told(&[(1, u64::MAX)]), "+1844674407370955161400");
    assert_eq!(told(&[(120_064, 111_872)]), "-7");
    assert_eq!(told(&[(1000, 1025)]), "+2");
    assert_eq!(told(&[(1000, 1035)]), "+4");
    assert_eq!(told(&[(1000, 999)]), "-0");
    assert_eq!(told(&[(3, 4), (7, 5), (11, 11)]), "+2");
    assert_eq!(told(&[(0, 5), (7, 5)]), "+inf");
    assert_eq!(told(&[(0, 5), (0, 0)]), "NaN");
}

#[test]
fn persistence_fix_derived_from_the_real_ubuntu_unit() {
    let show = "ExecStart={ path=/usr/bin/nvidia-persistenced ; \
argv[]=/usr/bin/nvidia-persistenced --user nvidia-persistenced \
--no-persistence-mode --verbose ; ignore_errors=no ; start_time=[n/a] ; \
stop_time=[n/a] ; pid=0 ; code=(null) ; status=0/0 }";
    let fix = persistence_fix_from_execstart(show).unwrap();
    assert!(fix.contains("systemctl edit nvidia-persistenced"), "{fix}");
    assert!(
        fix.contains("/usr/bin/nvidia-persistenced --user nvidia-persistenced --verbose"),
        "the derived ExecStart must be the real one minus the flag: {fix}"
    );
    assert!(!fix.contains("--no-persistence-mode\n"), "{fix}");
    // A daemon launched WITHOUT the flag needs no override.
    assert!(persistence_fix_from_execstart(
        "ExecStart={ path=/usr/bin/nvidia-persistenced ; argv[]=/usr/bin/nvidia-persistenced --verbose ; }"
    )
    .is_none());
    // No daemon at all -> generic advice.
    assert!(persistence_fix_from_execstart("").is_none());
}

#[test]
fn parses_build_tags_and_compute_caps() {
    assert_eq!(parse_build_tag("b10366"), Some(10366));
    assert_eq!(parse_build_tag("b10366-14-gdeadbeef"), Some(10366));
    assert_eq!(parse_build_tag("v1.2"), None);
    assert_eq!(parse_compute_cap("8.6\n"), Some("86".into()));
    assert_eq!(parse_compute_cap("12.0"), Some("120".into()));
    assert_eq!(parse_compute_cap("garbage"), None);
}

#[test]
fn locked_models_are_the_needs_newer_build_failures() {
    let mut all = Measurements::new();
    all.insert(
        "old-format".into(),
        m(None, Some("key x.rope.dimension_sections has wrong array length")),
    );
    all.insert(
        "bad-blob".into(),
        m(None, Some("wrong number of tensors; expected 2131, got 720")),
    );
    all.insert("fine".into(), m(Some(50_000), None));
    assert_eq!(locked_models(&all, None), vec!["old-format".to_string()]);

    // "failed(1)" alone is unclassifiable — the router log rescues it.
    let mut m2 = Measurements::new();
    m2.insert(
        "gemma4-latest".into(),
        m(None, Some("retry also failed: gemma4-latest did not load: failed(1)")),
    );
    let log = "\
[123] 0.0 E llama_model_load: error loading model: error loading model hyperparameters: key x has wrong array length\n\
0.49 W srv operator(): got exception: {\"error\":{\"code\":500,\"message\":\"model name=gemma4-latest failed to load\",\"type\":\"server_error\"}}\n";
    assert_eq!(locked_models(&m2, Some(log)), vec!["gemma4-latest".to_string()]);
    assert!(locked_models(&m2, None).is_empty());
    let mined = mine_failures(log);
    assert_eq!(mined.len(), 1);
    assert!(mined.get("gemma4-latest").unwrap().contains("wrong array length"));
}

#[test]
fn verdicts_speak_outcomes() {
    let c = BuildCheck {
        current_build: Some(10216),
        upstream_build: Some(10366),
        behind: Some(150),
        locked_models: vec!["a".into(), "b".into()],
        cuda_arch: Some("86".into()),
        nvcc: Some("release 12.4".into()),
        cmake: true,
        ..Default::default()
    };
    let v = verdicts(&c, false);
    assert!(v[0].0.contains("150 builds behind"));
    assert!(v.iter().any(|(h, _)| h.contains("unlock 2 model(s)")));
    assert!(
        v.iter().any(|(h, _)| h.contains("Ready to build with: CUDA (compute capability 86)")),
        "toolchain card names the ready backends"
    );
    assert!(
        v.iter().all(|(h, _)| !h.contains("-D")),
        "headlines never contain cmake flags"
    );
}

#[test]
fn rebuild_commands_are_ff_only_arch_pinned_and_backend_explicit() {
    let c = BuildCheck {
        repo: Some("/home/u/src/llama.cpp".into()),
        cuda_arch: Some("86".into()),
        rocm_gfx: Some("gfx1100".into()),
        ..Default::default()
    };
    let all = BackendSelection { cuda: true, vulkan: true, hip: true };
    let cmds = rebuild_commands(&c, all);
    assert_eq!(cmds[0].0, "git");
    assert!(cmds[0].1.contains(&"--ff-only".to_string()), "never clobbers local work");
    let cfg = &cmds[1].1;
    assert!(cfg.iter().any(|a| a == "-DGGML_CUDA=ON"));
    assert!(cfg.iter().any(|a| a == "-DCMAKE_CUDA_ARCHITECTURES=86"));
    assert!(cfg.iter().any(|a| a == "-DGGML_VULKAN=ON"));
    assert!(cfg.iter().any(|a| a == "-DGGML_HIP=ON"));
    assert!(cfg.iter().any(|a| a == "-DAMDGPU_TARGETS=gfx1100"));
    assert!(cmds[2].1.iter().any(|a| a == "Release"));

    // Deselected backends are explicitly OFF — the cmake cache would
    // otherwise resurrect whatever the last configure used.
    let cuda_only = BackendSelection { cuda: true, vulkan: false, hip: false };
    let cfg = &rebuild_commands(&c, cuda_only)[1].1;
    assert!(cfg.iter().any(|a| a == "-DGGML_VULKAN=OFF"));
    assert!(cfg.iter().any(|a| a == "-DGGML_HIP=OFF"));
    assert!(!cfg.iter().any(|a| a.contains("AMDGPU_TARGETS")));
    // The same configure and build steps, without the git step.
    assert_eq!(build_commands("/home/u/src/llama.cpp", &c, all), cmds[1..].to_vec());
}

#[test]
fn a_rebuild_needs_a_checkout() {
    let sel = BackendSelection { cuda: false, vulkan: false, hip: false };
    let mut c = BuildCheck::default();
    assert_eq!(rebuild_plan(&c, sel), Err("no git checkout to rebuild".to_string()));
    c.repo = Some("/home/u/src/llama.cpp".into());
    assert_eq!(rebuild_plan(&c, sel), Ok(rebuild_commands(&c, sel)));
}

fn quiet_machine() -> MachineProbe {
    MachineProbe {
        compute_cap: None,
        nvcc: None,
        glslc: None,
        vulkaninfo: None,
        hipcc: None,
        rocminfo: None,
        cmake: None,
        persistence_mode: None,
        exec_start: None,
    }
}

fn probed_repo(fetched: bool) -> RepoProbe {
    RepoProbe {
        repo: "/src/llama.cpp".into(),
        describe_head: Some("b10366".into()),
        porcelain: Some("".into()),
        symbolic_ref: Some("refs/heads/master".into()),
        fetched,
        describe_upstream: Some("b10400".into()),
        behind: Some("34".into()),
    }
}

#[test]
fn the_check_joins_what_the_tools_answered() {
    let mut machine = quiet_machine();
    machine.compute_cap = Some("8.6\n".into());
    machine.nvcc = Some("nvcc: NVIDIA\nCuda compilation tools, release 12.4, V12.4.131\n".into());
    machine.cmake = Some("cmake version 3.28\n".into());
    machine.persistence_mode = Some("Disabled\n".into());
    let c = check(
        Some("/src/llama.cpp/build/bin/llama-server"),
        Some(10366),
        &Measurements::new(),
        None,
        &machine,
        Some(&probed_repo(true)),
    );
    assert_eq!(c.cuda_arch.as_deref(), Some("86"));
    assert_eq!(c.nvcc.as_deref(), Some("Cuda compilation tools, release 12.4, V12.4.131"));
    assert!(c.cmake && !c.glslc && !c.vulkan_runtime);
    assert_eq!(c.persistence_mode, Some(false));
    assert_eq!(c.source_build, Some(10366));
    assert_eq!(c.upstream_build, Some(10400));
    assert_eq!(c.behind, Some(34));
    assert_eq!(c.dirty, Some(false));
    assert_eq!(c.detached, Some(false));
}

#[test]
fn a_failed_fetch_leaves_freshness_unknown() {
    let s = upstream_probe(1_000, Some(10366), Some(&probed_repo(false)));
    assert!(!s.reachable);
    assert_eq!(s.upstream_build, None);
    assert_eq!(s.behind, None);
    let s = upstream_probe(1_000, Some(10366), Some(&probed_repo(true)));
    assert!(s.reachable);
    assert_eq!(s.upstream_build, Some(10400));
    assert_eq!(s.behind, Some(34));
    assert!(!upstream_probe(1_000, None, None).reachable);
}

#[test]
fn backend_defaults_follow_toolchain_and_hardware() {
    let mut c = BuildCheck {
        cuda_arch: Some("86".into()),
        nvcc: Some("release 12.4".into()),
        glslc: true,
        ..Default::default()
    };
    assert_eq!(
        default_backends(&c),
        BackendSelection { cuda: true, vulkan: true, hip: false }
    );
    // AMD box: no nvcc, ROCm installed.
    c = BuildCheck {
        hipcc: Some("HIP version 6.1".into()),
        rocm_gfx: Some("gfx1100".into()),
        glslc: false,
        ..Default::default()
    };
    assert_eq!(
        default_backends(&c),
        BackendSelection { cuda: false, vulkan: false, hip: true }
    );
}

#[test]
fn parses_persistence_mode() {
    assert_eq!(parse_persistence_mode("Enabled\n"), Some(true));
    assert_eq!(parse_persistence_mode("Disabled"), Some(false));
    assert_eq!(parse_persistence_mode("garbage"), None);
}

#[test]
fn parses_rocminfo_gfx_target() {
    let out = "  Marketing Name:  AMD Radeon RX 7900\n  Name:                    gfx1100\n  Name: amdgcn-amd-amdhsa--gfx1100\n";
    assert_eq!(parse_gfx_target(out), Some("gfx1100".into()));
    assert_eq!(parse_gfx_target("Name: some-cpu"), None);
}

#[test]
fn moved_checkouts_get_a_fresh_build_dir() {
    // Cache from a DIFFERENT (now nonexistent) source dir -> cleared.
    let gone = "/home/u/snap/code/258/.local/share/modelsteward/llama.cpp";
    let cache = format!("CMAKE_HOME_DIRECTORY:INTERNAL={gone}\n");
    let recorded = recorded_source(&cache).unwrap();
    assert_eq!(recorded, gone);
    let note = stale_cache(&recorded, None, "/tmp/x/llama.cpp", Some("/tmp/x/llama.cpp")).unwrap();
    assert!(note.contains("checkout has moved"), "{note}");

    // Cache matching the real location -> untouched.
    let cache = "CMAKE_HOME_DIRECTORY:INTERNAL=/tmp/x/llama.cpp\n";
    let recorded = recorded_source(cache).unwrap();
    assert_eq!(
        stale_cache(&recorded, Some("/tmp/x/llama.cpp"), "/tmp/x/llama.cpp", Some("/tmp/x/llama.cpp")),
        None,
        "matching cache must survive"
    );
    // No recorded source says nothing.
    assert_eq!(recorded_source("CMAKE_BUILD_TYPE:STRING=Release\n"), None);
}

#[test]
fn steps_are_narrated_sparsely_and_keep_a_bounded_tail() {
    assert_eq!(step_line("git", &["-C".to_string(), "/r".to_string()]), "$ git -C /r");
    assert!(is_narrated("[ 12%] Building CXX object", 1));
    assert!(is_narrated("Building", 3));
    assert!(is_narrated("quiet", 50));
    assert!(!is_narrated("quiet", 51));
    let mut kept = Vec::new();
    for i in 0..40 {
        keep_tail(&mut kept, format!("line {i}"));
    }
    assert_eq!(kept.len(), 30);
    assert_eq!(kept[0], "line 10");
    assert_eq!(kept[29], "line 39");
}

#[test]
fn the_checkout_is_found_from_the_binary() {
    assert_eq!(
        repo_candidate("/src/llama.cpp/build/bin/llama-server"),
        Some("/src/llama.cpp".to_string())
    );
    assert_eq!(
        repo_of("/src/llama.cpp/build/bin/llama-server", true, None),
        Some("/src/llama.cpp".to_string())
    );
}
