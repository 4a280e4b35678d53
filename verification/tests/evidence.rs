//! What the router's log says of cache reuse and of activity.
use modelsteward::evidence::{
    activity_hint, cache_effectiveness, child_port, topology_advice, Activity,
};

#[test]
fn mines_reuse_from_real_grammar() {
    let log = "\
1.0 I srv load: spawning server instance with name=coder-q4 on port 40001\n\
1.1 I srv load: spawning server instance with name=vision-q4 on port 40002\n\
[40002] 0.03 W srv load_model: cache_reuse is not supported by multimodal, it will be disabled\n\
[40001] 0.05 I slot print_timing: id  0 | task 10 | prompt processing, n_tokens =   2000, progress = 0.40\n\
[40001] 0.06 I slot print_timing: id  0 | task 10 | prompt processing, n_tokens =   3000, progress = 1.00\n\
[40001] 0.09 I slot print_timing: id  0 | task 10 | n_gen =    500, tg =  40.00 t/s\n\
[40001] 0.10 I slot      release: id  0 | task 10 | stop processing: n_tokens = 10500, truncated = 0\n\
[40002] 0.05 I slot print_timing: id  0 | task 7 | prompt processing, n_tokens =   9000, progress = 1.00\n\
[40002] 0.09 I slot print_timing: id  0 | task 7 | n_gen =   1000, tg =  40.00 t/s\n\
[40002] 0.10 I slot      release: id  0 | task 7 | stop processing: n_tokens = 10000, truncated = 0\n";
    let stats = cache_effectiveness(log);
    assert_eq!(stats.len(), 2);
    let coder = stats.iter().find(|s| s.model == "coder-q4").unwrap();
    // total_prompt = 10500-500 = 10000; processed 3000 → reused 7000.
    assert_eq!(coder.turns, 1);
    assert_eq!(coder.prompt_tokens, 10_000);
    assert_eq!(coder.reused_tokens, 7_000);
    assert_eq!(coder.reuse_fraction(), 700_000);
    assert!(!coder.reuse_disabled);
    let vision = stats.iter().find(|s| s.model == "vision-q4").unwrap();
    // 10000-1000 = 9000 prompt, processed 9000 → zero reuse, flagged.
    assert_eq!(vision.reused_tokens, 0);
    assert!(vision.reuse_disabled);
}

#[test]
fn incomplete_tasks_and_unknown_ports_are_ignored() {
    let log = "\
1.0 I srv load: spawning server instance with name=m on port 5\n\
[5] x I slot print_timing: id 0 | task 1 | prompt processing, n_tokens = 100, progress = 1.00\n\
[9] x I slot release: id 0 | task 3 | stop processing: n_tokens = 50, truncated = 0\n";
    assert!(cache_effectiveness(log).is_empty());
}

#[test]
fn print_timing_dialect_parses_the_b10672_log_shape() {
    let log = "load: spawning server instance with name=m on port 49045\n\
[49045] 0.04.570.248 I slot print_timing: id  0 | task 0 | prompt eval time =     142.88 ms /   286 tokens (    0.50 ms per token,  2001.74 tokens per second)\n\
[49045] 0.04.570.251 I slot print_timing: id  0 | task 0 |        eval time =     430.57 ms /    70 tokens (    6.24 ms per token,   160.25 tokens per second)\n\
[49045] 0.04.570.287 I slot      release: id  0 | task 0 | stop processing: n_tokens = 355, truncated = 0\n";
    let stats = cache_effectiveness(log);
    assert_eq!(stats.len(), 1, "{stats:?}");
    let s = &stats[0];
    assert_eq!((s.turns, s.generated_tokens), (1, 70));
    assert_eq!(s.prompt_tokens, 285, "release 355 - generated 70");
    assert_eq!(s.reused_tokens, 285 - 286_u64.min(285), "processed 286 >= prompt: no reuse credit");
}

#[test]
fn activity_hint_reads_the_last_meaningful_line() {
    // The LAST activity-bearing line wins; noise is ignored; completions
    // beat the prefill progress that preceded them; an empty/quiet tail is
    // None.
    let prefill = "[41001] 0.35.083 I slot print_timing: id  0 | task 9 | prompt processing, n_tokens =    139, progress = 0.84, t = 18.04 s / 7.70 tokens per second";
    let started = "[41001] 0.36.000 I slot launch_slot_: id  0 | task 10 | processing task, is_child = 0";
    let finished = "[41001] 0.36.468 I slot print_timing: id  0 | task 9 |        eval time =     634.50 ms /    20 tokens (   33.39 ms per token,    29.94 tokens per second)";
    let noise = "[41001] 0.36.470 I slot      release: id  0 | task 9 | stop processing: n_tokens = 184, truncated = 0";

    assert_eq!(
        activity_hint(&format!("{started}\n{prefill}\n")),
        Some(Activity::Prefilling(84_000_000))
    );
    assert_eq!(
        activity_hint(&format!("{prefill}\n{started}\n")),
        Some(Activity::TurnStarted)
    );
    assert_eq!(
        activity_hint(&format!("{prefill}\n{finished}\n{noise}\n")),
        Some(Activity::TurnFinished { tps: 29_940_000 })
    );
    assert_eq!(activity_hint("just some unrelated lines\n"), None);
    assert_eq!(activity_hint(""), None);
}

#[test]
fn context_unsupported_is_distinguished_from_multimodal() {
    let log = "load: spawning server instance with name=swa-model on port 41001\n\
               load: spawning server instance with name=vis-model on port 41002\n\
               [41001] 0.02 W srv load_model: cache_reuse is not supported by this context, it will be disabled\n\
               [41002] 0.03 W srv load_model: cache_reuse is not supported by multimodal, it will be disabled\n";
    let stats = cache_effectiveness(log);
    let get = |m: &str| stats.iter().find(|s| s.model == m).unwrap();
    assert!(get("swa-model").reuse_disabled && get("swa-model").reuse_unsupported_context);
    assert!(get("vis-model").reuse_disabled && !get("vis-model").reuse_unsupported_context);
}

#[test]
fn topology_advice_needs_real_alternation_and_room() {
    let gib = 1024u64 * 1024 * 1024;
    let used = vec![
        ("small-a".to_string(), 12u32, 5 * gib),
        ("small-b".to_string(), 8u32, 6 * gib),
        ("rarely".to_string(), 1u32, 4 * gib),
    ];
    // 11 GiB pair in 24 GiB VRAM (under 70%) → advised.
    let line = topology_advice(&used, 24_564, 1).unwrap();
    assert!(line.contains("small-a") && line.contains("small-b"), "{line}");
    assert!(line.contains("smaller fitted context"), "{line}");
    // Already models_max=2 → quiet.
    assert!(topology_advice(&used, 24_564, 2).is_none());
    // Pair too big for the 70% budget → quiet.
    let big = vec![
        ("a".to_string(), 9u32, 12 * gib),
        ("b".to_string(), 9u32, 11 * gib),
    ];
    assert!(topology_advice(&big, 24_564, 1).is_none());
    // Only one model actually used → quiet.
    assert!(topology_advice(&used[..1], 24_564, 1).is_none());
}

#[test]
fn child_port_takes_the_last_spawn_for_the_model() {
    let log = "load: spawning server instance with name=alpha on port 40001\n\
               load: spawning server instance with name=beta on port 40002\n\
               load: spawning server instance with name=alpha on port 40007\n";
    assert_eq!(child_port(log, "alpha"), Some(40007));
    assert_eq!(child_port(log, "beta"), Some(40002));
    assert_eq!(child_port(log, "gamma"), None);
}
