//! OpenCode's configuration: what a sync writes and what it never touches.
use std::collections::BTreeMap;
use modelsteward::json::{number, parse, Json};
use modelsteward::jsonc::parse_value;
use modelsteward::measurements::{Measurement, Measurements};
use modelsteward::opencode::{
    backup_path, comment_out, comment_out_ghosts, configured_from_source, orphans_in,
    restore_last_backup, safety_context, sync_source, write_backed_up, DesiredModel, FileOp,
    Restore, SyncError,
};

fn json(text: &str) -> Json {
    parse(text).unwrap()
}

/// The value at a path of keys.
fn at<'a>(doc: &'a Json, path: &str) -> Option<&'a Json> {
    let mut j = doc;
    for key in path.split('/').skip(1) {
        j = j.get(key)?;
    }
    Some(j)
}

const SAMPLE: &str = r#"{
  "$schema": "https://opencode.ai/config.json",
  "provider": {
    "llamacpp": {
      "npm": "@ai-sdk/openai-compatible",
      "options": {
        "baseURL": "http://127.0.0.1:8080/v1"
      },
      "models": {
        // the user's own note about this model
        "qwen3.6-27b-ud-q5_k_xl": {
          "name": "hand-tuned name",
          "tool_call": true,
          "temperature": 0.6,
          "limit": {
            "context": 262144,
            "output": 32768
          }
        },
        "stale-model": {
          "name": "no longer served"
        }
      }
    },
    "ollama": {
      "options": { "baseURL": "http://127.0.0.1:11434/v1" },
      "models": { "ornith:35b": { "name": "untouchable" } }
    }
  }
}"#;

fn desired(id: &str, ctx: u64) -> DesiredModel {
    DesiredModel {
        id: id.into(),
        display_name: format!("{id} (llama.cpp)"),
        context: ctx,
        tool_call: None,
        vision: false,
    }
}

#[test]
fn ghost_rules_are_conservative() {
    // SAMPLE contains configured models incl. "stale-model".
    let orphans = vec![
        "stale-model".to_string(),
        "offered-elsewhere".to_string(),
        "measured-one".to_string(),
    ];
    let offered = vec!["offered-elsewhere".to_string()];
    let mut m = Measurements::new();
    m.insert("measured-one".into(), Measurement::default());
    let run = comment_out_ghosts(SAMPLE, &orphans, &offered, &m);
    assert!(run.failed.is_none());
    // Only the unoffered, unmeasured one goes; note it must actually
    // exist in the file for comment-out to succeed.
    let ghosts: Vec<&str> = run.versions.iter().map(|(id, _)| id.as_str()).collect();
    assert_eq!(ghosts, vec!["stale-model"]);
    let out = &run.versions[0].1;
    assert!(out.contains("// \"stale-model\""), "{out}");
}

#[test]
fn vision_writes_image_modality_but_never_overwrites() {
    // Fresh entry for a vision-served model -> image input declared.
    let d = DesiredModel { vision: true, ..desired("looker", 90_000) };
    let (out, _) = sync_source(SAMPLE, "http://127.0.0.1:8080/v1", &[d]).unwrap();
    let parsed = parse_value(&out).unwrap().unwrap();
    assert_eq!(
        at(&parsed, "/provider/llamacpp/models/looker/modalities/input"),
        Some(&json(r#"["text", "image"]"#))
    );

    // Existing entry with NO modalities key -> filled in on update.
    let d = DesiredModel { vision: true, ..desired("stale-model", 90_000) };
    let (out, _) = sync_source(SAMPLE, "http://127.0.0.1:8080/v1", &[d]).unwrap();
    let parsed = parse_value(&out).unwrap().unwrap();
    assert_eq!(
        at(&parsed, "/provider/llamacpp/models/stale-model/modalities/input"),
        Some(&json(r#"["text", "image"]"#)),
        "absent modalities gets the measured truth"
    );

    // Non-vision model -> no modalities key invented.
    let d = desired("plain", 90_000);
    let (out, _) = sync_source(SAMPLE, "http://127.0.0.1:8080/v1", &[d]).unwrap();
    let parsed = parse_value(&out).unwrap().unwrap();
    assert!(at(&parsed, "/provider/llamacpp/models/plain/modalities")
        .is_none());
}

#[test]
fn measured_tool_call_fills_gaps_but_never_overwrites() {
    // "stale-model" in SAMPLE has NO tool_call key -> measured verdict
    // fills it in.
    let d = DesiredModel {
        tool_call: Some(false),
        ..desired("stale-model", 90_000)
    };
    let (out, _) = sync_source(SAMPLE, "http://127.0.0.1:8080/v1", &[d]).unwrap();
    let parsed = parse_value(&out).unwrap().unwrap();
    assert_eq!(
        at(&parsed, "/provider/llamacpp/models/stale-model/tool_call"),
        Some(&Json::Bool(false)),
        "absent key gets the measured verdict"
    );

    // "qwen3.6-27b-ud-q5_k_xl" HAS tool_call: true in SAMPLE — a
    // measured `false` must NOT overwrite the recorded value.
    let d2 = DesiredModel {
        tool_call: Some(false),
        ..desired("qwen3.6-27b-ud-q5_k_xl", 91_000)
    };
    let (out2, _) = sync_source(SAMPLE, "http://127.0.0.1:8080/v1", &[d2]).unwrap();
    let parsed2 = parse_value(&out2).unwrap().unwrap();
    assert_eq!(
        at(&parsed2, "/provider/llamacpp/models/qwen3.6-27b-ud-q5_k_xl/tool_call"),
        Some(&Json::Bool(true)),
        "present key is sacred"
    );
    assert_eq!(
        at(&parsed2, "/provider/llamacpp/models/qwen3.6-27b-ud-q5_k_xl/limit/context"),
        Some(&number(safety_context(91_000))),
        "context still refreshes"
    );

    // New entries carry the measured verdict directly.
    let d3 = DesiredModel {
        tool_call: Some(false),
        ..desired("brand-new", 8_192)
    };
    let (out3, _) = sync_source(SAMPLE, "http://127.0.0.1:8080/v1", &[d3]).unwrap();
    let parsed3 = parse_value(&out3).unwrap().unwrap();
    assert_eq!(
        at(&parsed3, "/provider/llamacpp/models/brand-new/tool_call"),
        Some(&Json::Bool(false))
    );
}

#[test]
fn updates_existing_entry_only_touching_measured_context() {
    let (out, report) =
        sync_source(SAMPLE, "http://127.0.0.1:8080/v1", &[desired("qwen3.6-27b-ud-q5_k_xl", 72_960)])
            .unwrap();
    assert_eq!(report.updated, vec!["qwen3.6-27b-ud-q5_k_xl"]);
    assert!(out.contains(&format!(r#""context": {}"#, safety_context(72_960))));
    // Hand-set values and the user's comment survive.
    assert!(out.contains("hand-tuned name"));
    assert!(out.contains(r#""temperature": 0.6"#));
    assert!(out.contains("the user's own note"));
    // Untouched entry keeps its old output limit.
    assert!(out.contains(r#""output": 32768"#));
}

#[test]
fn adds_new_entry_and_reports_orphans() {
    let (out, report) =
        sync_source(SAMPLE, "http://127.0.0.1:8080/v1", &[desired("gemma4-latest", 36_096)])
            .unwrap();
    assert_eq!(report.added, vec!["gemma4-latest"]);
    assert!(out.contains(r#""gemma4-latest""#));
    let ctx = safety_context(36_096);
    assert!(out.contains(&format!(r#""context": {ctx}"#)));
    // output = min(ctx/2, 32768)
    assert!(out.contains(&format!(r#""output": {}"#, ctx / 2)));
    // Both pre-existing models are now orphans — reported, not removed.
    let mut orphans = report.orphans.clone();
    orphans.sort();
    assert_eq!(orphans, vec!["qwen3.6-27b-ud-q5_k_xl", "stale-model"]);
    assert!(out.contains("stale-model"), "orphans stay in the file");
}

#[test]
fn never_touches_other_providers() {
    let (out, _) =
        sync_source(SAMPLE, "http://127.0.0.1:8080/v1", &[desired("x", 4096)]).unwrap();
    assert!(out.contains(r#""ornith:35b": { "name": "untouchable" }"#));
}

#[test]
fn scaffolds_provider_into_a_bare_config() {
    let bare = "{\n  \"$schema\": \"https://opencode.ai/config.json\"\n}";
    let (out, report) =
        sync_source(bare, "http://127.0.0.1:9090/v1", &[desired("m", 8192)]).unwrap();
    assert_eq!(report.added, vec!["m"]);
    assert!(out.contains("@ai-sdk/openai-compatible"));
    assert!(out.contains("http://127.0.0.1:9090/v1"));
    let parsed = parse_value(&out).unwrap().unwrap();
    assert_eq!(
        at(&parsed, "/provider/llamacpp/models/m/limit/context"),
        Some(&number(safety_context(8192)))
    );
}

#[test]
fn idempotent_when_nothing_changed() {
    let (once, _) =
        sync_source(SAMPLE, "http://127.0.0.1:8080/v1", &[desired("qwen3.6-27b-ud-q5_k_xl", 262_144)])
            .unwrap();
    let (twice, report) =
        sync_source(&once, "http://127.0.0.1:8080/v1", &[desired("qwen3.6-27b-ud-q5_k_xl", 262_144)])
            .unwrap();
    assert_eq!(once, twice);
    assert_eq!(report.updated.len(), 1);
}

#[test]
fn safety_haircut_is_five_percent_floored_to_256() {
    assert_eq!(safety_context(72_960), 69_120);
    assert_eq!(safety_context(262_144), 248_832);
    assert_eq!(safety_context(256), 0, "tiny values floor to zero — callers must treat 0 as unusable");
}

/// The files after the operations.
fn carry_out(files: &mut BTreeMap<String, String>, ops: Vec<FileOp>) {
    for op in ops {
        match op {
            FileOp::Rename { from, to } => {
                if let Some(text) = files.remove(&from) {
                    files.insert(to, text);
                }
            }
            FileOp::Write { path, text } => {
                files.insert(path, text);
            }
        }
    }
}

fn held<'a>(files: &'a BTreeMap<String, String>, path: &str) -> &'a str {
    files.get(path).map(String::as_str).unwrap_or("")
}

fn replace(files: &mut BTreeMap<String, String>, path: &str, text: &str) {
    let original = held(files, path).to_string();
    carry_out(files, write_backed_up(path, &original, text));
}

fn restore(files: &mut BTreeMap<String, String>, path: &str) -> String {
    match restore_last_backup(path, held(files, path), held(files, &backup_path(path, 1))) {
        Restore::Identical { said } => said,
        Restore::Swap { ops, said } => {
            carry_out(files, ops);
            said
        }
    }
}

#[test]
fn backups_are_numbered_and_restore_toggles() {
    let path = "/c/opencode.json";
    assert_eq!(backup_path(path, 1), "/c/opencode.json.lcc.bak.1");
    assert!(write_backed_up(path, "v0", "v0").is_empty(), "nothing to write, nothing moves");
    let mut files = BTreeMap::new();
    files.insert(path.to_string(), "v0".to_string());
    for v in ["v1", "v2", "v3"] {
        replace(&mut files, path, v);
    }
    // Newest backup first.
    assert_eq!(held(&files, path), "v3");
    assert_eq!(held(&files, &backup_path(path, 1)), "v2");
    assert_eq!(held(&files, &backup_path(path, 2)), "v1");
    assert_eq!(held(&files, &backup_path(path, 3)), "v0");

    // Restore = swap with .1; twice = back where we started.
    let before = files.clone();
    let said = restore(&mut files, path);
    assert_eq!(
        said,
        "restored /c/opencode.json from /c/opencode.json.lcc.bak.1 (run again to toggle back)"
    );
    assert_eq!(held(&files, path), "v2");
    assert_eq!(held(&files, &backup_path(path, 1)), "v3");
    restore(&mut files, path);
    assert_eq!(files, before);
    assert!(matches!(restore_last_backup(path, "v2", "v2"), Restore::Identical { .. }));
}

#[test]
fn no_more_than_five_backups_are_kept() {
    let path = "/c/opencode.json";
    let mut files = BTreeMap::new();
    files.insert(path.to_string(), "v0".to_string());
    for n in 1..=8 {
        replace(&mut files, path, &format!("v{n}"));
    }
    assert_eq!(files.len(), 6);
    assert_eq!(held(&files, &backup_path(path, 1)), "v7");
    assert_eq!(held(&files, &backup_path(path, 5)), "v3");
}

#[test]
fn the_configured_models_are_read_with_their_limits() {
    let v = configured_from_source(SAMPLE).unwrap();
    assert_eq!(v.len(), 2);
    let q = v.iter().find(|m| m.id == "qwen3.6-27b-ud-q5_k_xl").unwrap();
    assert_eq!(q.name.as_deref(), Some("hand-tuned name"));
    assert_eq!((q.context, q.output, q.tool_call), (Some(262_144), Some(32_768), Some(true)));
    assert!(configured_from_source("{}").unwrap().is_empty());
}

#[test]
fn orphans_are_what_is_configured_and_not_kept() {
    let keep = vec!["stale-model".to_string()];
    assert_eq!(orphans_in(SAMPLE, &keep).unwrap(), vec!["qwen3.6-27b-ud-q5_k_xl"]);
}

#[test]
fn broken_configs_are_refused_and_named() {
    let d = [desired("m", 8192)];
    let err = sync_source("{ broken", "http://127.0.0.1:8080/v1", &d).unwrap_err();
    assert!(!err.message().is_empty());
    let err = comment_out(SAMPLE, "nope").unwrap_err();
    assert!(matches!(err, SyncError::CommentingOut(_, _)));
    assert!(err.message().contains("nope"), "{}", err.message());
}
