//! The library table: disk, router, measurements and config in one row.
use modelsteward::gguf::GgufMeta;
use modelsteward::library::{ModelFile, Source};
use modelsteward::measurements::{Measurement, Measurements};
use modelsteward::router::RouterModel;
use modelsteward::rows::{
    advice_for, assemble, failure_hint, read_ram_mib, router_ids_by_path, AdviceLevel, Hardware,
};

const HW: Hardware = Hardware {
    vram_mib: 24_000,
    ram_mib: 64_000,
};

fn file(name: &str, source: Source, gb: u64, meta: bool) -> ModelFile {
    ModelFile {
        path: format!("/m/{name}"),
        file_size: gb * 1024 * 1024 * 1024,
        source,
        meta: if meta { Some(GgufMeta::default()) } else { None },
        mmproj: None,
    }
}

#[test]
fn feature_flags_flow_into_rows() {
    let mut vision = file("gemma-it.gguf", Source::Shelf, 10, true);
    vision.mmproj = Some("/m/mmproj-F16.gguf".to_string());
    let mut mtp = file("qwen-mtp.gguf", Source::Shelf, 10, true);
    mtp.meta.as_mut().unwrap().has_mtp = true;
    let mut embed = file("bge-small.gguf", Source::Shelf, 1, true);
    embed.meta.as_mut().unwrap().architecture = Some("nomic-bert".into());

    let rows = assemble(&[vision, mtp, embed], &[], &Measurements::new(), &[], HW);
    assert!(rows[0].vision && !rows[0].mtp && !rows[0].embedding);
    assert!(rows[1].mtp && !rows[1].vision);
    assert!(rows[2].embedding);
    assert!(
        rows[2].advice.contains("embedding model"),
        "embed advice replaces chat-centric advice: {}",
        rows[2].advice
    );
}

fn rm(id: &str, status: &str, source: &str) -> RouterModel {
    RouterModel {
        id: id.into(),
        status: status.into(),
        source: Some(source.into()),
        args_fp: None,
    }
}

#[test]
fn advice_grades_by_size_measurement_and_failure() {
    // Too large outright.
    let (lvl, msg) = advice_for(Some(&GgufMeta::default()), 120 * 1024 * 1024 * 1024, None, None, None, HW);
    assert_eq!(lvl, AdviceLevel::Bad);
    assert!(msg.contains("too large"), "{msg}");
    // Bigger than VRAM → CPU spill warning.
    let (lvl, msg) = advice_for(Some(&GgufMeta::default()), 30 * 1024 * 1024 * 1024, None, None, None, HW);
    assert_eq!(lvl, AdviceLevel::Warn);
    assert!(msg.contains("partly on CPU"), "{msg}");
    // Measured small ctx.
    let (lvl, msg) = advice_for(Some(&GgufMeta::default()), 10 << 30, Some(8192), None, None, HW);
    assert_eq!(lvl, AdviceLevel::Warn);
    assert!(msg.contains("small for agentic"), "{msg}");
    // Measured healthy.
    let (lvl, _) = advice_for(Some(&GgufMeta::default()), 10 << 30, Some(80_000), None, None, HW);
    assert_eq!(lvl, AdviceLevel::Good);
    // Failure dominates.
    let (lvl, msg) = advice_for(
        Some(&GgufMeta::default()),
        10 << 30,
        None,
        None,
        Some("key qwen35moe.rope.dimension_sections has wrong array length"),
        HW,
    );
    assert_eq!(lvl, AdviceLevel::Bad);
    assert!(msg.contains("newer than your llama.cpp build"), "{msg}");
}

#[test]
fn joins_disk_router_measurements_and_config() {
    let models = vec![file("A.gguf", Source::Shelf, 10, true)];
    let routers = vec![rm("a", "loaded", "preset")];
    let mut meas = Measurements::new();
    meas.insert(
        "a".into(),
        Measurement {
            n_ctx: Some(90_000),
            tool_call: Some(true),
            error: None,
            args_fp: None,
            env_fp: None,
            ..Default::default()
        },
    );
    let rows = assemble(&models, &routers, &meas, &["a".into()], HW);
    assert_eq!(rows.len(), 1);
    let r = &rows[0];
    assert_eq!(r.router_id.as_deref(), Some("a"));
    assert_eq!(r.server_status.as_deref(), Some("loaded"));
    assert_eq!(r.measured_ctx, Some(90_000));
    assert!(r.in_opencode);
    assert_eq!(r.advice_level, AdviceLevel::Good);
}

#[test]
fn unique_repo_match_rescues_unpredictable_cache_tags() {
    // No quant token in the filename → tag not derivable → fallback OK.
    let models = vec![file(
        "gemma-4-31B-instruct.gguf",
        Source::HfHub {
            repo: "google/gemma-4-31B-it-qat-q4_0-gguf".into(),
        },
        17,
        true,
    )];
    let routers = vec![rm("google/gemma-4-31B-it-qat-q4_0-gguf:IT", "unloaded", "cache")];
    let rows = assemble(&models, &routers, &Measurements::new(), &[], HW);
    assert_eq!(rows.len(), 1, "must join, not duplicate");
    assert_eq!(
        rows[0].router_id.as_deref(),
        Some("google/gemma-4-31B-it-qat-q4_0-gguf:IT")
    );
}

#[test]
fn two_quants_of_one_repo_never_share_an_identity() {
    // Q4 and Q5 files of the same repo, router
    // offers only the Q5 → the Q4 must NOT glue itself onto it.
    let models = vec![
        file(
            "Qwen3.8-27B-UD-Q4_K_XL.gguf",
            Source::HfHub {
                repo: "unsloth/Qwen3.8-27B-GGUF".into(),
            },
            18,
            true,
        ),
        file(
            "Qwen3.8-27B-UD-Q5_K_XL.gguf",
            Source::HfHub {
                repo: "unsloth/Qwen3.8-27B-GGUF".into(),
            },
            20,
            true,
        ),
    ];
    let routers = vec![rm("unsloth/Qwen3.8-27B-GGUF:Q5_K_XL", "loaded", "cache")];
    let rows = assemble(&models, &routers, &Measurements::new(), &[], HW);
    assert_eq!(rows.len(), 2);
    let q4 = rows.iter().find(|r| r.display.contains("Q4_K_XL")).unwrap();
    let q5 = rows.iter().find(|r| r.display.contains("Q5_K_XL")).unwrap();
    assert_eq!(
        q5.router_id.as_deref(),
        Some("unsloth/Qwen3.8-27B-GGUF:Q5_K_XL")
    );
    assert_eq!(q5.server_status.as_deref(), Some("loaded"));
    assert_eq!(
        q4.router_id.as_deref(),
        Some("unsloth/Qwen3.8-27B-GGUF:Q4_K_XL"),
        "keeps its own (unoffered) identity"
    );
    assert!(q4.server_status.is_none(), "not offered ≠ offered");
    assert!(q4.advice.contains("doesn't currently offer"), "{}", q4.advice);
}

#[test]
fn same_named_files_get_the_preset_suffix_not_a_shared_identity() {
    // Two files with identical stems (user's manual download + archived
    // copy). The preset generator aliases them base and base-2; rows
    // must map one file to each — never both onto base with a phantom
    // "-2" row left over.
    let models = vec![
        file("Qwen3.8-27B-UD-Q4_K_XL.gguf", Source::Shelf, 18, true),
        {
            let mut f2 = file("Qwen3.8-27B-UD-Q4_K_XL.gguf", Source::Shelf, 18, true);
            f2.path = "/other/Qwen3.8-27B-UD-Q4_K_XL.gguf".to_string();
            f2
        },
    ];
    let routers = vec![
        rm("qwen3.8-27b-ud-q4_k_xl", "loaded", "preset"),
        rm("qwen3.8-27b-ud-q4_k_xl-2", "unloaded", "preset"),
    ];
    let rows = assemble(&models, &routers, &Measurements::new(), &[], HW);
    assert_eq!(rows.len(), 2, "no phantom router-only row");
    let ids: Vec<_> = rows.iter().filter_map(|r| r.router_id.clone()).collect();
    assert!(ids.contains(&"qwen3.8-27b-ud-q4_k_xl".to_string()));
    assert!(ids.contains(&"qwen3.8-27b-ud-q4_k_xl-2".to_string()));
    // Statuses map per file, not shared.
    let loaded: Vec<_> = rows
        .iter()
        .filter(|r| r.server_status.as_deref() == Some("loaded"))
        .collect();
    assert_eq!(loaded.len(), 1);
    // Both carry the duplicate note.
    assert!(rows.iter().all(|r| r.advice.contains("stored twice")), "{:?}",
        rows.iter().map(|r| &r.advice).collect::<Vec<_>>());
}

#[test]
fn filename_quant_outranks_a_lying_header_stamp() {
    // Real case: unsloth UD-Q5_K_XL stamped general.file_type=Q4_K_S
    // while its tensors are predominantly q5_K/q6_K.
    let mut m = file("Qwen3.8-27B-UD-Q5_K_XL.gguf", Source::Shelf, 20, true);
    m.meta.as_mut().unwrap().quantization = Some("Q4_K_S".into());
    let rows = assemble(&[m], &[], &Measurements::new(), &[], HW);
    assert_eq!(rows[0].quant, "Q5_K_XL");
    assert_eq!(rows[0].quant_header_disagrees.as_deref(), Some("Q4_K_S"));

    // Agreement (or no filename token) → header value, no note.
    let mut m2 = file("model-Q4_K_M.gguf", Source::Shelf, 10, true);
    m2.meta.as_mut().unwrap().quantization = Some("Q4_K_M".into());
    let rows = assemble(&[m2], &[], &Measurements::new(), &[], HW);
    assert_eq!(rows[0].quant, "Q4_K_M");
    assert!(rows[0].quant_header_disagrees.is_none());
}

#[test]
fn router_only_models_still_get_rows() {
    let routers = vec![rm("mystery/model:Q4", "unloaded", "cache")];
    let rows = assemble(&[], &routers, &Measurements::new(), &[], HW);
    assert_eq!(rows.len(), 1);
    assert_eq!(rows[0].source, "cache");
    // Cache entries with no file behind them download on Load — the row
    // must say so, and grade as a caveat rather than a blank unknown.
    assert_eq!(rows[0].advice_level, AdviceLevel::Warn);
    assert!(rows[0].advice.contains("downloads it from HuggingFace"), "{}", rows[0].advice);
}

#[test]
fn cache_row_points_at_local_twin() {
    // The shelf holds the exact quant the
    // router's HF cache entry names, but the entry (stale revision)
    // would re-download 20GB. The row must steer to the shelf copy.
    let models = vec![file("Qwen3.8-27B-UD-Q5_K_XL.gguf", Source::Shelf, 20, true)];
    let routers = vec![rm("unsloth/Qwen3.8-27B-GGUF:Q5_K_XL", "unloaded", "cache")];
    let rows = assemble(&models, &routers, &Measurements::new(), &[], HW);
    let cache_row = rows
        .iter()
        .find(|r| r.router_id.as_deref() == Some("unsloth/Qwen3.8-27B-GGUF:Q5_K_XL"))
        .expect("cache entry keeps its own row");
    assert_eq!(cache_row.advice_level, AdviceLevel::Warn);
    assert!(cache_row.advice.contains("downloads it from HuggingFace"), "{}", cache_row.advice);
    assert!(
        cache_row.advice.contains("'Qwen3.8-27B-UD-Q5_K_XL'"),
        "must name the on-disk twin: {}",
        cache_row.advice
    );
}

#[test]
fn twin_match_requires_the_same_quant() {
    // A Q4 on the shelf is NOT a stand-in for the cache entry's Q5.
    let models = vec![file("Qwen3.8-27B-UD-Q4_K_XL.gguf", Source::Shelf, 18, true)];
    let routers = vec![rm("unsloth/Qwen3.8-27B-GGUF:Q5_K_XL", "unloaded", "cache")];
    let rows = assemble(&models, &routers, &Measurements::new(), &[], HW);
    let cache_row = rows
        .iter()
        .find(|r| r.router_id.as_deref() == Some("unsloth/Qwen3.8-27B-GGUF:Q5_K_XL"))
        .unwrap();
    assert!(cache_row.advice.contains("downloads it from HuggingFace"), "{}", cache_row.advice);
    assert!(
        !cache_row.advice.contains("same model already on disk"),
        "different quant must not be offered as a twin: {}",
        cache_row.advice
    );
}

#[test]
fn memory_is_read_off_meminfo() {
    assert_eq!(read_ram_mib("MemTotal:       65536000 kB\nMemFree: 1 kB\n"), 64_000);
    assert_eq!(read_ram_mib("nothing"), 0);
}

#[test]
fn ids_follow_the_preset() {
    let models = vec![
        file("A.gguf", Source::Shelf, 1, true),
        file("B.gguf", Source::HfHub { repo: "o/B-GGUF".into() }, 1, true),
        file("broken.gguf", Source::Shelf, 1, false),
    ];
    let ids = router_ids_by_path(&models);
    assert_eq!(ids.get("/m/A.gguf").map(|s| s.as_str()), Some("a"));
    assert!(!ids.contains_key("/m/broken.gguf"));
    assert_eq!(ids.get("/m//./A.gguf").map(|s| s.as_str()), Some("a"), "one path, two spellings");
}

#[test]
fn hints_speak_plainly() {
    assert!(failure_hint("unknown model architecture: 'x'").contains("newer than your llama.cpp"));
    assert_ne!(failure_hint("out of memory"), failure_hint("bad magic"));
}
