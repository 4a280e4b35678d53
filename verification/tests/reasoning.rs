//! What a chat template says of reasoning.
use modelsteward::reasoning::{llama_cpp_levels, parse_support};

/// A live Qwen3.8-27B template.
const QWEN38: &str = "{%- if enable_thinking is undefined or enable_thinking is true %}\n\
    {%- set resolved_reasoning_effort = reasoning_effort|default('xhigh') %}\n\
    {%- if resolved_reasoning_effort == 'high' %}\n\
    {%- set resolved_reasoning_effort = 'xhigh' %}\n\
    {%- endif %}\n\
    {%- if resolved_reasoning_effort not in ('xhigh', 'medium', 'low') %}\n\
    {{- raise_exception('Unexpected reasoning effort ' ~ reasoning_effort ~ '. \
    Supported types are xhigh (default), medium, and low.') }}\n\
    {%- endif %}\n";

#[test]
fn qwen38_levels_come_from_its_own_template() {
    let s = parse_support(QWEN38).unwrap();
    // The default is the MOST expensive level, not a middle one.
    assert_eq!(s.default_level.as_deref(), Some("xhigh"));
    assert_eq!(s.levels, vec!["xhigh", "medium", "low"]);
    assert!(s.levels_confirmed, "read from the membership test, not guessed");
    // 'high' is silently rewritten to 'xhigh' by this template, so
    // it is deliberately NOT offered as a distinct choice.
    assert!(!s.levels.iter().any(|l| l == "high"));
    assert!(s.can_disable, "template branches on enable_thinking");
    assert!(s.is_supported());
}

#[test]
fn harmony_style_effort_without_a_stated_set_falls_back_labelled() {
    // gpt-oss's Harmony consumes reasoning_effort but states no
    // membership tuple, and never mentions enable_thinking.
    let t = "{%- set eff = reasoning_effort %}<|start|>system reasoning: {{ eff }}";
    let s = parse_support(t).unwrap();
    assert!(!s.levels_confirmed, "must be marked unconfirmed");
    assert_eq!(s.levels, llama_cpp_levels());
    assert!(!s.can_disable);
}

#[test]
fn thinking_toggle_without_effort_levels() {
    // Qwen3-era templates: on/off only, no effort ladder.
    let s = parse_support("{%- if enable_thinking %}<think>{% endif %}").unwrap();
    assert!(s.can_disable);
    assert!(s.levels.is_empty(), "no ladder to offer");
    assert!(s.is_supported());
}

#[test]
fn templates_without_reasoning_say_so() {
    assert!(parse_support("{{ messages[0].content }}").is_none());
    assert!(parse_support("").is_none());
}

#[test]
fn a_default_outside_the_stated_set_is_still_offered() {
    // Defensive: a template whose default isn't in its own tuple
    // still accepts that default, so hiding it would be wrong.
    let t = "{%- set e = reasoning_effort|default('turbo') %}\n\
             {%- if e not in ('low', 'medium') %}fail{% endif %}";
    let s = parse_support(t).unwrap();
    assert_eq!(s.levels, vec!["turbo", "low", "medium"]);
}
