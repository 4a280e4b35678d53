//! The Hermes agent's context cache and provider registration.
use modelsteward::hermes::{
    backup_path, cache_key, cached_for, config_path, context_cache_path, hermes_present, partition_by_minimum,
    provider_slug, register_provider, register_provider_text, registered_provider, sync,
    sync_context_cache, HermesError, MINIMUM_CONTEXT, PROVIDER_NAME,
};
use modelsteward::opencode::{safety_context, DesiredModel};
use modelsteward::yaml::{parse, Yaml};

const CACHE: &str = "/home/u/.hermes/context_length_cache.yaml";
const ROUTER: &str = "http://127.0.0.1:8080/v1";

fn d(id: &str, ctx: u64) -> DesiredModel {
    DesiredModel {
        id: id.into(),
        display_name: format!("{id} (llama.cpp)"),
        context: ctx,
        tool_call: Some(true),
        vision: false,
    }
}

#[test]
fn a_damaged_cache_is_refused_not_silently_emptied() {
    // A parse failure must not become an empty map that is written back as
    // the WHOLE file.
    let broken = "context_lengths:\n  good@http://a: 131072\n\tbad_indent: 1\n";
    let e = sync_context_cache(CACHE, Some(broken), ROUTER, &[d("mine", 131_072)])
        .unwrap_err()
        .message();
    assert!(e.contains("refusing to rewrite"), "{e}");
}

#[test]
fn entries_we_do_not_model_survive_a_sync() {
    // Values that aren't plain unsigned ints, and unrelated top-level keys,
    // are kept.
    let text = "context_lengths:\n  good@http://a: 131072\n  floaty@http://a: 1.5\n  \
                quoted@http://a: '4096'\n  nulled@http://a: null\nother_top_level_key:\n  keep: me\n";
    let (_, after) = sync_context_cache(CACHE, Some(text), ROUTER, &[d("mine", 131_072)]).unwrap();
    let after = after.unwrap();
    for must in ["good@http://a", "floaty", "quoted", "nulled", "other_top_level_key", "keep"] {
        assert!(after.contains(must), "{must} was destroyed:\n{after}");
    }
    assert!(after.contains("mine@http://127.0.0.1:8080/v1"), "{after}");
}

#[test]
fn flow_style_custom_providers_is_refused_not_duplicated() {
    // Appending a second `custom_providers:` key makes the API-key-bearing
    // config unparseable. Refusing is the only safe answer.
    let flow = "model:\n  default: x\ncustom_providers: [{name: mine, base_url: \"http://127.0.0.1:11434/v1\"}]\n";
    assert!(
        register_provider_text(flow, ROUTER, "q").is_none(),
        "must refuse rather than duplicate the key"
    );
    // And the block-style path still works.
    assert!(register_provider_text(REAL_CONFIG, ROUTER, "q").is_some());
}

/// A live install's cache file.
const REAL_CACHE: &str = "context_lengths:\n  \
    gemma4:latest@http://127.0.0.1:11434/v1: 131072\n  \
    ornith:35b@http://127.0.0.1:11434/v1: 262144\n";

#[test]
fn cache_key_and_slug_match_hermes_source() {
    // Trailing slashes are stripped.
    assert_eq!(
        cache_key("qwen3.8", "http://127.0.0.1:8080/v1/"),
        "qwen3.8@http://127.0.0.1:8080/v1"
    );
    assert_eq!(provider_slug("Local (127.0.0.1:11434)"), "local-(127.0.0.1:11434)");
    assert_eq!(provider_slug(PROVIDER_NAME), "modelsteward");
}

#[test]
fn hermes_minimum_context_is_respected_and_reported() {
    // Hermes refuses to start a model below 64,000, so writing one would
    // hand the user a broken choice.
    let models = [d("big", 131_072), d("gemma-4-31B", 62_251)];
    let (ok, small) = partition_by_minimum(&models);
    assert_eq!(ok.len(), 1);
    assert_eq!(small[0].id, "gemma-4-31B");
    assert!(safety_context(62_251) < MINIMUM_CONTEXT);
}

fn context_of(doc: &Yaml, key: &str) -> Option<u64> {
    doc.get("context_lengths").unwrap().get(key).unwrap().as_u64()
}

#[test]
fn cache_sync_preserves_other_providers_entries() {
    let (written, after) =
        sync_context_cache(CACHE, Some(REAL_CACHE), ROUTER, &[d("qwen3.8", 113_920)]).unwrap();
    assert_eq!(written, vec!["qwen3.8".to_string()]);
    let text = after.unwrap();
    let after = parse(&text).unwrap();
    // The user's Ollama entries survive untouched.
    assert_eq!(context_of(&after, "gemma4:latest@http://127.0.0.1:11434/v1"), Some(131072));
    assert_eq!(context_of(&after, "ornith:35b@http://127.0.0.1:11434/v1"), Some(262144));
    // Ours landed with the safety haircut.
    assert_eq!(
        context_of(&after, "qwen3.8@http://127.0.0.1:8080/v1"),
        Some(safety_context(113_920))
    );
    // Idempotent: nothing written the second time.
    let (again, rewritten) =
        sync_context_cache(CACHE, Some(&text), ROUTER, &[d("qwen3.8", 113_920)]).unwrap();
    assert!(again.is_empty());
    assert_eq!(rewritten, None);
    assert_eq!(
        cached_for(&text, ROUTER),
        vec![("qwen3.8".to_string(), safety_context(113_920))]
    );
}

/// A populated custom_providers block followed by comment-only sections,
/// which is exactly where a naive reserialize would destroy the file.
const REAL_CONFIG: &str = "model:\n  \
    default: gemma4:latest\ncustom_providers:\n  \
    - name: Local (127.0.0.1:11434)\n    \
    base_url: http://127.0.0.1:11434/v1\n    \
    api_key: ollama\n    \
    model: ornith:35b\n\n\
    # ── Security ──\n\
    # security:\n\
    #   redact_secrets: true\n";

#[test]
fn provider_registration_appends_and_keeps_comments() {
    assert_eq!(
        registered_provider(REAL_CONFIG, "http://127.0.0.1:11434/v1/"),
        Some("Local (127.0.0.1:11434)".into()),
        "existing ollama provider is detected by base_url"
    );
    assert_eq!(registered_provider(REAL_CONFIG, ROUTER), None);
    let new = register_provider_text(REAL_CONFIG, ROUTER, "qwen3.8").unwrap();
    // The comment block survives verbatim.
    assert!(new.contains("# ── Security ──"), "{new}");
    assert!(new.contains("#   redact_secrets: true"), "{new}");
    // The user's provider survives, ours joins the same block.
    assert!(new.contains("- name: Local (127.0.0.1:11434)"));
    assert!(new.contains("- name: modelsteward"));
    // And it parses, with our entry now discoverable.
    assert_eq!(registered_provider(&new, ROUTER), Some(PROVIDER_NAME.into()));
    let doc = parse(&new).unwrap();
    match doc.get("custom_providers").unwrap() {
        Yaml::Sequence(v) => assert_eq!(v.len(), 2),
        _ => panic!("not a sequence"),
    }
}

#[test]
fn registration_without_an_existing_block_creates_one() {
    let text = "model:\n  default: x\n";
    let new = register_provider_text(text, ROUTER, "qwen3.8").unwrap();
    assert_eq!(registered_provider(&new, ROUTER), Some(PROVIDER_NAME.into()));
    assert!(new.starts_with("model:\n  default: x\n"), "{new}");
}

#[test]
fn absent_install_skips_and_unregistered_is_reported() {
    let (r, text) = sync("/nope", false, None, None, "http://x/v1", &[d("a", 131_072)]).unwrap();
    assert!(r.skipped_missing);
    assert_eq!(text, None);
    assert!(r.written.is_empty() && r.below_minimum.is_empty() && !r.provider_unregistered);
    // Present but no provider pointing at us: cache still written,
    // and the caller is told registration is missing.
    let (r, text) =
        sync("/home", true, Some("model:\n  default: x\n"), None, ROUTER, &[d("a", 131_072)])
            .unwrap();
    assert!(r.provider_unregistered);
    assert_eq!(r.written, vec!["a".to_string()]);
    assert!(text.unwrap().contains("a@http://127.0.0.1:8080/v1"));
}

#[test]
fn registering_twice_is_refused() {
    let once = register_provider("/c.yaml", "model:\n  default: x\n", ROUTER, "q").unwrap();
    assert!(matches!(
        register_provider("/c.yaml", &once, ROUTER, "q"),
        Err(HermesError::AlreadyRegistered(_))
    ));
    let flow = "custom_providers: []\n";
    assert!(matches!(
        register_provider("/c.yaml", flow, ROUTER, "q"),
        Err(HermesError::CannotExtend { .. })
    ));
}

#[test]
fn caches_of_another_shape_are_refused() {
    let list = sync_context_cache(CACHE, Some("- a\n- b\n"), ROUTER, &[d("m", 131_072)]);
    assert!(matches!(list, Err(HermesError::RootNotMapping { .. })));
    let inner = sync_context_cache(CACHE, Some("context_lengths: 3\n"), ROUTER, &[d("m", 131_072)]);
    assert!(matches!(inner, Err(HermesError::ContextsNotMapping { .. })));
}

#[test]
fn hermes_files_stand_in_its_home() {
    assert_eq!(context_cache_path("/h"), "/h/context_length_cache.yaml");
    assert_eq!(config_path("/h"), "/h/config.yaml");
    assert!(hermes_present(true));
    assert!(!hermes_present(false));
}

#[test]
fn the_backup_stands_beside_the_file() {
    assert_eq!(backup_path("/h/config.yaml"), "/h/config.yaml.modelsteward.bak");
    assert_eq!(
        backup_path(&context_cache_path("/h")),
        "/h/context_length_cache.yaml.modelsteward.bak"
    );
}
