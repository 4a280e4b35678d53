//! pi's models.json.
use modelsteward::json::{parse, Json};
use modelsteward::opencode::{safety_context, DesiredModel};
use modelsteward::piagent::{
    backup_path, configured_models, pi_present, provider_json, sync_file, sync_file_with_known,
    PiSyncError, PiSyncReport,
};
use modelsteward::textmap::TextMap;

const MODELS: &str = "/home/u/.pi/agent/models.json";

fn json(text: &str) -> Json {
    parse(text).unwrap()
}

fn desired(id: &str, ctx: u64, vision: bool) -> DesiredModel {
    DesiredModel {
        id: id.into(),
        display_name: format!("{id} (llama.cpp)"),
        context: ctx,
        tool_call: None,
        vision,
    }
}

fn ours(doc: &Json) -> &Json {
    doc.get("providers").unwrap().get("modelsteward").unwrap()
}

fn model(doc: &Json, i: usize) -> &Json {
    &ours(doc).get("models").unwrap().as_array().unwrap()[i]
}

/// A user's hand-configured ollama provider, which must survive our sync at
/// the value level.
const REAL_WORLD: &str = r#"{
  "providers": {
    "ollama": {
      "api": "openai-completions",
      "apiKey": "ollama",
      "baseUrl": "http://127.0.0.1:11434/v1",
      "models": [
        {
          "_launch": true,
          "contextWindow": 131072,
          "id": "gemma4",
          "input": [
            "text",
            "image"
          ],
          "reasoning": true
        }
      ]
    }
  }
}"#;

#[test]
fn syncs_beside_the_real_ollama_provider_untouched() {
    let want = [
        desired("qwen3.8-27b-ud-q4_k_xl", 113920, false),
        desired("gpt-oss-20b-f16", 131072, false),
    ];
    let (r, text) =
        sync_file(MODELS, true, Some(REAL_WORLD), "http://127.0.0.1:8080/v1", &want).unwrap();
    assert_eq!(r.added.len(), 2, "{r:?}");
    assert_eq!(backup_path(MODELS), "/home/u/.pi/agent/models.json.modelsteward.bak");
    let text = text.unwrap();
    let doc = json(&text);
    // The user's provider: value-identical.
    let orig = json(REAL_WORLD);
    assert_eq!(
        doc.get("providers").unwrap().get("ollama"),
        orig.get("providers").unwrap().get("ollama")
    );
    // Ours: measured ctx with the safety haircut, pi's field names.
    assert_eq!(ours(&doc).get("api").unwrap().as_str().unwrap(), "openai-completions");
    assert_eq!(ours(&doc).get("baseUrl").unwrap().as_str().unwrap(), "http://127.0.0.1:8080/v1");
    let m = model(&doc, 1); // sorted by id: gpt-oss first
    assert_eq!(m.get("id").unwrap().as_str().unwrap(), "qwen3.8-27b-ud-q4_k_xl");
    assert_eq!(m.get("contextWindow").unwrap().as_u64(), Some(safety_context(113920)));
    assert_eq!(m.get("maxTokens"), m.get("contextWindow"));
    assert_eq!(m.get("input"), Some(&json(r#"["text"]"#)));
    // Idempotent: a second sync reports nothing and rewrites nothing.
    let (r2, again) =
        sync_file(MODELS, true, Some(&text), "http://127.0.0.1:8080/v1", &want).unwrap();
    assert_eq!(r2, PiSyncReport::default(), "{r2:?}");
    assert_eq!(again, None);
}

#[test]
fn context_changes_update_and_lost_measurements_remove() {
    let v1 = [desired("a", 100_000, false), desired("b", 50_000, true)];
    let (_, text) = sync_file(MODELS, true, Some("{\"providers\":{}}"), "http://x/v1", &v1).unwrap();
    let text = text.unwrap();
    // b's vision made it in.
    assert_eq!(model(&json(&text), 1).get("input"), Some(&json(r#"["text", "image"]"#)));
    // a remeasured bigger, b gone entirely.
    let v2 = [desired("a", 120_000, false)];
    let (r, text) = sync_file(MODELS, true, Some(&text), "http://x/v1", &v2).unwrap();
    assert_eq!(r.updated, vec!["a".to_string()]);
    assert_eq!(r.removed, vec!["b".to_string()]);
    assert_eq!(configured_models(&text.unwrap()), vec![("a".into(), safety_context(120_000))]);
}

#[test]
fn missing_dir_skips_missing_file_creates() {
    let want = [desired("a", 1000, false)];
    let (r, text) = sync_file("/nope/models.json", false, None, "http://x/v1", &want).unwrap();
    assert!(r.skipped_missing && text.is_none());
    assert!(r.added.is_empty() && r.updated.is_empty() && r.removed.is_empty());
    assert!(r.kept_unmeasured.is_empty() && !r.created_file);
    let (r, text) = sync_file(MODELS, true, None, "http://x/v1", &want).unwrap();
    assert!(r.created_file && text.is_some());
}

#[test]
fn commented_files_are_refused_not_flattened() {
    let commented = "{\n  // my note\n  \"providers\": {}\n}";
    let e = sync_file(MODELS, true, Some(commented), "http://x/v1", &[desired("a", 1000, false)])
        .unwrap_err();
    assert!(e.message().contains("comments"), "{}", e.message());
}

#[test]
fn a_known_model_that_failed_today_is_kept() {
    let v1 = [desired("a", 100_000, false), desired("b", 50_000, false)];
    let (_, text) = sync_file(MODELS, true, None, "http://x/v1", &v1).unwrap();
    let text = text.unwrap();
    let mut known = TextMap::new();
    known.insert("b".to_string(), ());
    let v2 = [desired("a", 100_000, false)];
    let (r, kept) =
        sync_file_with_known(MODELS, true, Some(&text), "http://x/v1", &v2, &known).unwrap();
    assert!(r.removed.is_empty(), "{r:?}");
    assert_eq!(r.kept_unmeasured, vec!["b".to_string()]);
    assert!(configured_models(kept.as_deref().unwrap_or(&text)).iter().any(|(id, _)| id == "b"));
}

#[test]
fn documents_of_another_shape_are_refused() {
    let want = [desired("a", 1000, false)];
    assert!(matches!(
        sync_file(MODELS, true, Some("[]"), "http://x/v1", &want),
        Err(PiSyncError::RootNotObject)
    ));
    assert!(matches!(
        sync_file(MODELS, true, Some("{\"providers\": 3}"), "http://x/v1", &want),
        Err(PiSyncError::ProvidersNotObject)
    ));
    assert!(provider_json("http://x/v1", &want).get("models").unwrap().as_array().unwrap().len() == 1);
    assert!(!pi_present(MODELS, false));
}
