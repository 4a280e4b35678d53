//! The Ollama peer.
use modelsteward::json::{parse, Json};
use modelsteward::ollama::{parse_ps, probe, tenant, OllamaStatus};

fn json(text: &str) -> Json {
    parse(text).unwrap()
}

#[test]
fn parses_ps_with_vram_sizes() {
    let body = json(
        r#"{"models": [
        {"name": "ornith:35b", "size": 22000000000, "size_vram": 21000000000},
        {"name": "tiny:latest", "size": 100, "details": {}}
    ]}"#,
    );
    let loaded = parse_ps(&body);
    assert_eq!(loaded.len(), 2);
    assert_eq!(loaded[0].name, "ornith:35b");
    assert_eq!(loaded[0].size_vram, 21_000_000_000);
    assert_eq!(loaded[1].size_vram, 0, "missing size_vram is 0, not skipped");
}

#[test]
fn empty_or_odd_body_is_no_models() {
    assert!(parse_ps(&json("{}")).is_empty());
    assert!(parse_ps(&json(r#"{"models": null}"#)).is_empty());
}

#[test]
fn a_peer_that_does_not_answer_is_unreachable() {
    assert!(!probe(None).reachable);
    assert!(!OllamaStatus::default().reachable);
    let up = probe(Some(&json(r#"{"models": [{"name": "a"}]}"#)));
    assert!(up.reachable);
    assert_eq!(up.loaded[0].name, "a");
}

#[test]
fn the_tenant_is_whoever_holds_vram() {
    let body = r#"{"models": [{"name": "cpu"}, {"name": "q:35b", "size_vram": 5}]}"#;
    assert_eq!(tenant(&probe(Some(&json(body)))).as_deref(), Some("Ollama (q:35b)"));
    assert_eq!(tenant(&probe(Some(&json(r#"{"models": [{"name": "cpu"}]}"#)))), None);
    assert_eq!(tenant(&OllamaStatus::default()), None);
}
