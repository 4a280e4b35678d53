//! The advisory layer: its prompts, its requests, its seat.
use modelsteward::aiadvisor::{
    advisory_template_kwargs, extract_answer, failure_prompt, fleet_prompt, log_tail_for,
    pick_advisor, triage_prompt, tuning_prompt, Advisor, RouterAdvisor, BRIEF_SYSTEM, SYSTEM,
};
use modelsteward::json::{parse, Json};
use modelsteward::measurements::{Measurement, Measurements};

fn json(text: &str) -> Json {
    parse(text).unwrap()
}

fn micro(x: f64) -> u64 {
    (x * 1e6).round() as u64
}

fn figure(x: f64) -> i64 {
    (x * 1e6).round() as i64
}

#[test]
fn advisory_kwargs_speak_both_reasoning_dialects() {
    // Both kwargs ship on every advisory; unknown kwargs are ignored by
    // templates.
    let k = advisory_template_kwargs();
    assert_eq!(k.get("enable_thinking").unwrap().as_bool(), Some(false));
    assert_eq!(k.get("reasoning_effort").unwrap().as_str().unwrap(), "low");
}

#[test]
fn empty_content_falls_back_to_the_reasoning_channel_labeled() {
    let body = json(
        r#"{"choices": [{"message": {
            "content": "", "reasoning_content": "The fastest quality model is gpt-oss."
        }}]}"#,
    );
    let a = extract_answer(&body).unwrap();
    assert!(a.contains("reasoning channel"), "{a}");
    assert!(a.contains("gpt-oss"), "{a}");
    // Real content wins outright, no label.
    let body = json(
        r#"{"choices": [{"message": {
            "content": "Use cpu-moe.", "reasoning_content": "hmm"
        }}]}"#,
    );
    assert_eq!(extract_answer(&body).unwrap(), "Use cpu-moe.");
    // Nothing at all is still an honest error.
    let body = json(r#"{"choices": [{"message": {"content": ""}}]}"#);
    assert!(extract_answer(&body).is_err());
}

fn meas(
    eval: Option<f64>,
    tools: Option<f64>,
    loops: Option<f64>,
    tg: Option<f64>,
) -> Measurement {
    Measurement {
        n_ctx: Some(50_000),
        eval_score: eval.map(micro),
        tool_reliability: tools.map(micro),
        loop_reliability: loops.map(micro),
        tg_tps: tg.map(figure),
        ..Default::default()
    }
}

#[test]
fn advisor_seat_rules() {
    // 1. A pinned advisor always wins (that's what pinning means).
    // 2. Otherwise: quality first — but within the top quality tier
    //    (ties), the FASTER model answers.
    // 3. Higher quality still beats higher speed across tiers.
    // 4. `exclude` (the failing model) is never chosen.
    // 5. Models with no quality data lose to any measured-quality
    //    model, but can win when nothing has quality data (fastest).
    let mut m = Measurements::new();
    m.insert("giant".to_string(), meas(Some(0.83), Some(1.0), Some(1.0), Some(18.0)));
    m.insert("fast".to_string(), meas(Some(0.83), Some(1.0), Some(1.0), Some(160.0)));
    m.insert("weak".to_string(), meas(Some(0.5), Some(0.8), None, Some(200.0)));
    m.insert("unknown".to_string(), meas(None, None, None, Some(300.0)));

    // Rule 2: equal quality -> faster answers.
    assert_eq!(pick_advisor(&m, None, None).as_deref(), Some("fast"));
    // Rule 3: speedy-but-weaker never outranks the quality tier.
    assert_ne!(pick_advisor(&m, None, None).as_deref(), Some("weak"));
    // Rule 1: pin wins.
    assert_eq!(pick_advisor(&m, Some("giant"), None).as_deref(), Some("giant"));
    // Rule 4: exclusion respected even for the best.
    assert_eq!(pick_advisor(&m, None, Some("fast")).as_deref(), Some("giant"));
    // Rule 5: nothing has quality data -> fastest measured wins.
    let mut bare = Measurements::new();
    bare.insert("a".to_string(), meas(None, None, None, Some(50.0)));
    bare.insert("b".to_string(), meas(None, None, None, Some(150.0)));
    assert_eq!(pick_advisor(&bare, None, None).as_deref(), Some("b"));
}

#[test]
fn nobody_measured_means_nobody_advises() {
    assert_eq!(pick_advisor(&Measurements::new(), None, None), None);
    assert_eq!(pick_advisor(&Measurements::new(), Some("gone"), None), None);
}

#[test]
fn tuning_prompt_grounds_on_corpus_and_the_machines_numbers() {
    let p = tuning_prompt(
        "should I use q4_0 KV cache?",
        "{\"measurements\":{\"m\":{\"n_ctx\":115456}}}",
    );
    assert!(p.contains("should I use q4_0 KV cache?"));
    assert!(p.contains("115456"), "the user's own numbers ride along");
    // The curated corpus travels with every question.
    for needle in ["cache-reuse", "fidelity", "MoE", "placement"] {
        assert!(p.contains(needle), "corpus missing {needle}");
    }
}

#[test]
fn failure_prompt_carries_the_evidence_and_only_the_evidence() {
    let p = failure_prompt(
        "ornith-1.5",
        "exit status 1",
        Some(10_630),
        "RTX 4090 (24564 MiB)",
        64_000,
        Some(micro(18.6)),
        "[40001] E ggml_cuda_init failed",
    );
    for needle in [
        "ornith-1.5",
        "exit status 1",
        "b10630",
        "RTX 4090 (24564 MiB)",
        "18.6 GiB",
        "ggml_cuda_init failed",
    ] {
        assert!(p.contains(needle), "missing {needle} in {p}");
    }
    // The guardrails live in the system prompt, and honesty is an
    // allowed answer.
    assert!(SYSTEM.contains("Never invent"));
    assert!(SYSTEM.contains("doesn't show the cause"));
}

#[test]
fn fleet_prompt_asks_the_three_questions_over_the_findings() {
    let p = fleet_prompt("{\"measurements\":{\"m\":{\"n_ctx\":115456}}}");
    assert!(p.contains("115456"), "findings ride along verbatim");
    for needle in ["daily driver", "single change", "worth measuring next"] {
        assert!(p.contains(needle), "missing {needle}");
    }
    assert!(BRIEF_SYSTEM.contains("Cite the numbers"));
}

#[test]
fn triage_prompt_grounds_on_commits_and_the_users_models() {
    let p = triage_prompt(
        "abc123 cuda: fix moe expert offload\ndef456 metal: shader cleanup",
        &["qwen3.8-27b (dense, vision)".into(), "qwen3-next-80b (MoE)".into()],
        10_630,
        10_701,
    );
    for needle in ["b10630", "b10701", "moe expert offload", "qwen3-next-80b"] {
        assert!(p.contains(needle), "missing {needle}");
    }
    assert!(p.contains("nothing relevant"), "honesty exit is offered");
}

#[test]
fn log_tail_filters_to_the_models_child_and_caps_length() {
    let log = "load: spawning server instance with name=a on port 40001\n\
               load: spawning server instance with name=b on port 40002\n\
               [40001] line1\n[40002] other\n[40001] line2\n[40001] line3\n";
    assert_eq!(log_tail_for(log, "a", 2), "[40001] line2\n[40001] line3");
    assert_eq!(log_tail_for(log, "b", 10), "[40002] other");
    assert_eq!(log_tail_for(log, "never-spawned", 10), "");
}

#[test]
fn the_router_advisor_asks_its_own_model() {
    let a = RouterAdvisor { port: 8080, model: "qwen".to_string() };
    assert_eq!(a.describe(), "qwen");
    let body = a.request("be honest", "why?");
    assert_eq!(body.get("model").unwrap().as_str().unwrap(), "qwen");
    assert_eq!(body.get("cache_prompt").unwrap().as_bool(), Some(false));
    let messages = body.get("messages").unwrap().as_array().unwrap();
    assert_eq!(messages.len(), 2);
    assert_eq!(messages[0].get("role").unwrap().as_str().unwrap(), "system");
    assert_eq!(messages[0].get("content").unwrap().as_str().unwrap(), "be honest");
    assert_eq!(messages[1].get("content").unwrap().as_str().unwrap(), "why?");
}
