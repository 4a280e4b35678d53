//! Edits of a commented configuration that keep what the user wrote.
use modelsteward::json::{parse, Json};
use modelsteward::jsonc::{
    add_model, comment_block, comment_out_model, count_models, ensure_models_container,
    indent_lines, merge_model, parse_source, parse_value, strictly_valid, EditError, Node,
};

fn json(text: &str) -> Json {
    parse(text).unwrap()
}

/// Strip `//` line comments the way a strict JSON consumer must, then parse.
/// OpenCode reads this file with a real JSON parser, and our own reader is
/// LENIENT about missing commas — so only a strict parse can tell us we
/// corrupted it.
fn strict_parse(src: &str) -> Result<Json, String> {
    let stripped: String = src
        .lines()
        .map(|l| match l.find("//") {
            // Naive but sufficient for these fixtures: no `//` appears
            // inside a string value in them.
            Some(i) => &l[..i],
            None => l,
        })
        .collect::<Vec<_>>()
        .join("\n");
    parse(&stripped)
}

fn models_of<'a>(doc: &'a Json, provider: &str) -> &'a Json {
    doc.get("provider").unwrap().get(provider).unwrap().get("models").unwrap()
}

fn models_node<'a>(root: &'a Node, provider: &str) -> &'a Node {
    root.get("provider").unwrap().get(provider).unwrap().get("models").unwrap()
}

fn names(node: &Node) -> Vec<String> {
    node.props.as_ref().unwrap().iter().map(|p| p.name.clone()).collect()
}

/// The live value of a parsed edit.
fn value(source: &str) -> Json {
    parse_value(source).unwrap().unwrap()
}

#[test]
fn inserting_after_a_trailing_comment_keeps_the_file_strictly_valid() {
    // The app CREATES this shape itself: commenting ghosts out leaves a
    // commented block as the last content of the models object, and the next
    // sync inserts after it. The separating comma must not land INSIDE the
    // comment, where a strict parser never sees it.
    let src = r#"{
  "provider": {
    "llamacpp": {
      "models": {
        "keeper": { "name": "Keeper" }
        // Commented out by modelsteward: not in the current router preset.
        // "ghost": { "name": "Ghost" }
      }
    }
  }
}"#;
    let out = add_model(src, "llamacpp", "newmodel", &json(r#"{ "name": "New" }"#)).unwrap();
    let parsed = strict_parse(&out).unwrap_or_else(|e| panic!("STRICT PARSE FAILED: {e}\n{out}"));
    let models = models_of(&parsed, "llamacpp");
    assert!(models.get("keeper").is_some(), "{out}");
    assert!(models.get("newmodel").is_some(), "{out}");
    // The comment itself must survive — that is the whole point of the JSONC
    // editor.
    assert!(out.contains("Commented out by modelsteward"), "{out}");
    assert!(out.contains("// \"ghost\""), "{out}");
}

#[test]
fn inserting_after_an_inline_comment_keeps_the_file_strictly_valid() {
    // A user's own shape: a trailing note after the last entry on the same
    // line.
    let src = r#"{
  "provider": {
    "llamacpp": {
      "models": {
        "keeper": { "name": "Keeper" } // my daily driver
      }
    }
  }
}"#;
    let out = add_model(src, "llamacpp", "newmodel", &json(r#"{ "name": "New" }"#)).unwrap();
    let parsed = strict_parse(&out).unwrap_or_else(|e| panic!("STRICT PARSE FAILED: {e}\n{out}"));
    assert!(models_of(&parsed, "llamacpp").get("newmodel").unwrap().as_object().is_some(), "{out}");
    assert!(out.contains("my daily driver"), "comment must survive: {out}");
}

const REAL: &str = r#"{
  "$schema": "https://opencode.ai/config.json",
  "provider": {
    "ollama": {
      "npm": "@ai-sdk/openai-compatible",
      "name": "Ollama (local)",
      "options": { "baseURL": "http://localhost:11434/v1" },
      "models": {
        "ornith:35b": {
          "name": "ornith:35b",
          "limit": { "context": 262144, "output": 8192 }
        },
        "gemma4:latest": { "name": "gemma4:latest" },
        "qwen3.6:27b": {
          "name": "qwen3.6:27b",
          "limit": { "context": 65536, "output": 8192 }
        }
      }
    },
    "llamacpp": {
      "npm": "@ai-sdk/openai-compatible",
      "name": "llama.cpp (local)",
      "options": { "baseURL": "http://127.0.0.1:8080/v1" },
      "models": {
        "local": { "name": "local", "limit": { "context": 32768, "output": 4096 } }
      }
    }
  }
}
"#;

const COMMENTED: &str = r#"{
  // Opencode configuration
  "provider": {
    /* this provider must remain untouched */
    "llamacpp": {
      "models": {
        "local": { "name": "local" }
      }
    },
    "ollama": {
      "models": {
        "ornith:35b": {
          "name": "My Ornith", // hand-tuned display name
          "limit": { "context": 32768, "output": 4096 }
        },
        // Pre-existing entry with minimal metadata
        "gemma4:latest": { "name": "gemma4:latest" },
      },
    },
  },
}
"#;

#[test]
fn parses_real_config_ok() {
    assert!(parse_source(REAL).is_ok(), "real config parses");
}

#[test]
fn parses_commented_config_ok() {
    assert!(parse_source(COMMENTED).is_ok(), "commented config parses");
}

#[test]
fn navigates_to_ollama_models() {
    let root = parse_source(REAL).unwrap();
    let models = models_node(&root, "ollama");
    assert_eq!(names(models).len(), 3);
}

#[test]
fn navigate_missing_provider_errors() {
    let root = parse_source(REAL).unwrap();
    assert!(root.get("provider").unwrap().get("vllm").is_none());
    let err = count_models(REAL, "vllm").unwrap_err();
    assert!(matches!(err, EditError::MissingContainer { .. }));
}

#[test]
fn adds_model_and_keeps_valid_jsonc() {
    let entry = json(r#"{ "name": "qwen3.6-coder:7b", "capabilities": { "tools": true, "input": ["text"], "output": ["text"] }, "limit": { "context": 65536, "output": 8192 } }"#);
    let out = add_model(REAL, "ollama", "qwen3.6-coder:7b", &entry).unwrap();
    // Re-parsing must succeed and the model must appear.
    let root = parse_source(&out).unwrap();
    let models = models_node(&root, "ollama");
    assert!(names(models).iter().any(|n| n == "qwen3.6-coder:7b"));
    assert_eq!(names(models).len(), 4, "3 existing + 1 new");
}

#[test]
fn add_model_preserves_comments() {
    let entry = json(r#"{"name": "new-model"}"#);
    let out = add_model(COMMENTED, "ollama", "new-model", &entry).unwrap();
    // All the original comments must still be there.
    assert!(out.contains("// Opencode configuration"));
    assert!(out.contains("must remain untouched"));
    assert!(out.contains("hand-tuned display name"));
    assert!(out.contains("Pre-existing entry with minimal metadata"));
}

#[test]
fn add_model_leaves_other_providers_untouched() {
    let entry = json(r#"{"name": "x"}"#);
    let out = add_model(REAL, "ollama", "x", &entry).unwrap();
    // The llamacpp block should be byte-identical to what it was.
    let llamacpp_orig = extract_provider_block(REAL, "llamacpp");
    let llamacpp_out = extract_provider_block(&out, "llamacpp");
    assert_eq!(
        llamacpp_orig, llamacpp_out,
        "llamacpp block must not change when editing ollama"
    );
}

/// A refresh must not replace the entry's entire value span, taking the
/// user's own keys and the comments between them with it.
#[test]
fn merge_preserves_hand_tuned_siblings_and_comments() {
    let src = r#"{
  "provider": {
    "ollama": {
      "models": {
        "m1": {
          // my own note
          "name": "m1",
          "temperature": 0.2,
          "hand_tuned": 42
        }
      }
    }
  }
}"#;
    let patch = json(r#"{ "limit": { "context": 8192 } }"#);
    let out = merge_model(src, "ollama", "m1", &patch).unwrap();

    assert!(out.contains("// my own note"), "comment lost:\n{out}");
    assert!(out.contains("\"temperature\""), "temperature lost:\n{out}");
    assert!(out.contains("\"hand_tuned\""), "hand_tuned lost:\n{out}");
    assert!(out.contains("8192"), "patch not applied:\n{out}");

    // And the result is still valid JSONC with the merged value in place.
    let doc = value(&out);
    let entry = models_of(&doc, "ollama").get("m1").unwrap();
    let limit = entry.get("limit").unwrap();
    assert_eq!(limit.get("context").unwrap().as_u64(), Some(8192));
}

/// Chosen semantics: a refresh overwrites keys the provider reports.
#[test]
fn merge_overwrites_an_existing_value() {
    let src = r#"{
  "provider": { "ollama": { "models": {
    "m1": { "name": "old", "limit": { "context": 32768, "output": 4096 } }
  } } }
}"#;
    let patch = json(r#"{ "limit": { "context": 262144 } }"#);
    let out = merge_model(src, "ollama", "m1", &patch).unwrap();

    let doc = value(&out);
    let entry = models_of(&doc, "ollama").get("m1").unwrap();
    let limit = entry.get("limit").unwrap();
    // context refreshed...
    assert_eq!(limit.get("context").unwrap().as_u64(), Some(262144));
    // ...while the sibling key inside the same nested object is untouched.
    assert_eq!(limit.get("output").unwrap().as_u64(), Some(4096));
    assert_eq!(entry.get("name").unwrap().as_str().unwrap(), "old");
}

#[test]
fn merge_inserts_keys_that_are_absent() {
    let src = r#"{
  "provider": { "ollama": { "models": {
    "m1": { "name": "m1" }
  } } }
}"#;
    let patch = json(r#"{ "limit": { "context": 8192 }, "capabilities": { "tools": true } }"#);
    let out = merge_model(src, "ollama", "m1", &patch).unwrap();

    let doc = value(&out);
    let entry = models_of(&doc, "ollama").get("m1").unwrap();
    assert_eq!(entry.get("name").unwrap().as_str().unwrap(), "m1");
    assert!(entry.get("limit").is_some());
    assert!(entry.get("capabilities").is_some());
}

#[test]
fn merge_into_nested_object_that_does_not_exist_yet() {
    let src = r#"{
  "provider": { "ollama": { "models": { "m1": { "name": "m1" } } } }
}"#;
    let patch = json(r#"{ "limit": { "context": 1024, "output": 512 } }"#);
    let out = merge_model(src, "ollama", "m1", &patch).unwrap();
    let doc = value(&out);
    let limit = models_of(&doc, "ollama").get("m1").unwrap().get("limit").unwrap();
    assert_eq!(limit.get("context").unwrap().as_u64(), Some(1024));
    assert_eq!(limit.get("output").unwrap().as_u64(), Some(512));
}

#[test]
fn merge_with_empty_patch_is_a_no_op() {
    let out = merge_model(REAL, "ollama", "ornith:35b", &json(r#"{}"#)).unwrap();
    assert_eq!(out, REAL, "an empty patch must not rewrite the file");
}

#[test]
fn merge_leaves_other_providers_untouched() {
    let patch = json(r#"{ "limit": { "context": 4096 } }"#);
    let out = merge_model(REAL, "ollama", "ornith:35b", &patch).unwrap();
    assert_eq!(
        extract_provider_block(REAL, "llamacpp"),
        extract_provider_block(&out, "llamacpp"),
        "llamacpp block must not change when merging into ollama"
    );
}

#[test]
fn merge_on_the_commented_fixture_keeps_every_comment() {
    let patch = json(r#"{ "limit": { "context": 4096 } }"#);
    let out = merge_model(COMMENTED, "ollama", "ornith:35b", &patch).unwrap();
    assert!(out.contains("// Opencode configuration"));
    assert!(out.contains("must remain untouched"));
    assert!(out.contains("hand-tuned display name"));
    assert!(out.contains("Pre-existing entry with minimal metadata"));
}

#[test]
fn merge_model_missing_errors() {
    let err = merge_model(REAL, "ollama", "does-not-exist", &json(r#"{"name": "x"}"#)).unwrap_err();
    assert!(matches!(err, EditError::ModelNotFound { .. }));
}

const NOTE: &str = "Removed: no longer reported by ollama.";

/// Helper: comment out a model, then assert the file still parses and the
/// model is gone from the parsed view.
fn comment_out_and_reparse(src: &str, model: &str) -> String {
    let out = comment_out_model(src, "ollama", model, NOTE).unwrap();
    let root = parse_source(&out)
        .unwrap_or_else(|e| panic!("result must parse: {}\n{out}", e.message()));
    let models = models_node(&root, "ollama");
    assert!(
        !names(models).iter().any(|n| n == model),
        "model should be gone from the parsed config:\n{out}"
    );
    out
}

#[test]
fn comment_out_a_middle_entry_keeps_the_file_parseable() {
    let src = r#"{
  "provider": {
    "ollama": {
      "models": {
        "a": { "name": "A" },
        "b": { "name": "B" },
        "c": { "name": "C" }
      }
    }
  }
}"#;
    let out = comment_out_and_reparse(src, "b");
    // Neighbours survive.
    let root = parse_source(&out).unwrap();
    let models = models_node(&root, "ollama");
    assert_eq!(names(models).len(), 2);
    // The original values are still readable in the file.
    assert!(out.contains(r#"// "b": { "name": "B" }"#), "{out}");
    assert!(out.contains(NOTE), "the note should explain why:\n{out}");
}

/// The comma case that breaks naive implementations: removing the last
/// property leaves the previous one with a dangling comma.
#[test]
fn comment_out_the_last_entry_drops_the_dangling_comma() {
    let src = r#"{
  "provider": {
    "ollama": {
      "models": {
        "a": { "name": "A" },
        "b": { "name": "B" }
      }
    }
  }
}"#;
    let out = comment_out_and_reparse(src, "b");
    let root = parse_source(&out).unwrap();
    let models = models_node(&root, "ollama");
    assert_eq!(names(models).len(), 1);
    assert_eq!(names(models)[0], "a");
}

#[test]
fn comment_out_the_first_entry() {
    let src = r#"{
  "provider": {
    "ollama": {
      "models": {
        "a": { "name": "A" },
        "b": { "name": "B" }
      }
    }
  }
}"#;
    let out = comment_out_and_reparse(src, "a");
    let root = parse_source(&out).unwrap();
    let models = models_node(&root, "ollama");
    assert_eq!(names(models).len(), 1);
    assert_eq!(names(models)[0], "b");
}

#[test]
fn comment_out_the_only_entry_leaves_an_empty_object() {
    let src = r#"{
  "provider": {
    "ollama": {
      "models": {
        "solo": { "name": "Solo" }
      }
    }
  }
}"#;
    let out = comment_out_and_reparse(src, "solo");
    let root = parse_source(&out).unwrap();
    assert_eq!(names(models_node(&root, "ollama")).len(), 0);
}

#[test]
fn comment_out_preserves_a_multiline_entry_verbatim() {
    let src = r#"{
  "provider": {
    "ollama": {
      "models": {
        "big": {
          "name": "Big",
          "temperature": 0.2,
          "limit": { "context": 4096, "output": 1024 }
        },
        "other": { "name": "Other" }
      }
    }
  }
}"#;
    let out = comment_out_and_reparse(src, "big");
    // Every value the user might want back is still legible.
    for needle in [
        "\"name\": \"Big\"",
        "\"temperature\": 0.2",
        "\"context\": 4096",
    ] {
        assert!(out.contains(needle), "lost {needle} from:\n{out}");
    }
    // And nothing survives as live JSON.
    let root = parse_source(&out).unwrap();
    let models = models_node(&root, "ollama");
    assert_eq!(names(models).len(), 1);
}

/// The separating comma is found past a comment between the entries: no
/// trailing comma may be left before the closing brace.
#[test]
fn comment_out_last_entry_drops_the_comma_even_across_a_user_comment() {
    let src = r#"{
  "provider": {
    "ollama": {
      "models": {
        "a": { "name": "A" },
        // I pulled this one for a project last spring
        "b": { "name": "B" }
      }
    }
  }
}"#;
    let out = comment_out_and_reparse(src, "b");
    // The user's own note stays.
    assert!(out.contains("project last spring"), "{out}");
    // And no live trailing comma is left before the closing brace.
    let live: String = out
        .lines()
        .filter(|l| !l.trim_start().starts_with("//"))
        .collect::<Vec<_>>()
        .join("\n");
    assert!(
        !live.contains("},\n      }") && !live.contains("},\n"),
        "trailing comma left in live JSON:\n{live}"
    );
    // Strict JSON (no trailing commas allowed) must accept the result.
    let stripped: String = out
        .lines()
        .filter(|l| !l.trim_start().starts_with("//"))
        .collect::<Vec<_>>()
        .join("\n");
    parse(&stripped)
        .unwrap_or_else(|e| panic!("result is not strict JSON: {e}\n{stripped}"));
}

#[test]
fn comment_out_middle_entry_across_a_user_comment_stays_strict_json() {
    let src = r#"{
  "provider": {
    "ollama": {
      "models": {
        "a": { "name": "A" },
        "b": { "name": "B" },
        // belongs to c
        "c": { "name": "C" }
      }
    }
  }
}"#;
    let out = comment_out_and_reparse(src, "b");
    assert!(out.contains("belongs to c"), "{out}");
    let stripped: String = out
        .lines()
        .filter(|l| !l.trim_start().starts_with("//"))
        .collect::<Vec<_>>()
        .join("\n");
    parse(&stripped)
        .unwrap_or_else(|e| panic!("result is not strict JSON: {e}\n{stripped}"));
}

#[test]
fn comment_out_leaves_other_providers_untouched() {
    let out = comment_out_model(REAL, "ollama", "ornith:35b", NOTE).unwrap();
    assert_eq!(
        extract_provider_block(REAL, "llamacpp"),
        extract_provider_block(&out, "llamacpp"),
        "llamacpp block must not change"
    );
}

#[test]
fn comment_out_keeps_surrounding_comments() {
    let out = comment_out_model(COMMENTED, "ollama", "ornith:35b", NOTE).unwrap();
    assert!(out.contains("// Opencode configuration"));
    assert!(out.contains("must remain untouched"));
    assert!(parse_source(&out).is_ok(), "still valid JSONC");
}

#[test]
fn comment_out_missing_model_errors() {
    let err = comment_out_model(REAL, "ollama", "nope", NOTE).unwrap_err();
    assert!(matches!(err, EditError::ModelNotFound { .. }));
}

/// The raw source of a provider's block.
fn extract_provider_block(source: &str, provider_id: &str) -> String {
    let root = parse_source(source).unwrap();
    let block = root.get("provider").unwrap().get(provider_id).unwrap();
    source[block.start..block.end].to_string()
}

#[test]
fn a_config_that_is_no_object_is_refused_by_name() {
    let entry = json(r#"{"name": "x"}"#);
    let err = add_model("[1, 2]", "ollama", "x", &entry).unwrap_err();
    assert!(matches!(err, EditError::RootNotObject));
    assert!(matches!(parse_source("{ \"a\": "), Err(EditError::Parse(_))));
    let src = r#"{ "provider": { "ollama": { "models": [] } } }"#;
    let err = add_model(src, "ollama", "x", &entry).unwrap_err();
    assert!(matches!(err, EditError::NotObject { .. }), "{}", err.message());
    assert!(add_model("{}", "ollama", "x", &entry).unwrap_err().message().contains("provider"));
}

#[test]
fn a_missing_container_is_scaffolded_once() {
    let scaffold = json(r#"{ "name": "llama.cpp", "models": {} }"#);
    let out = ensure_models_container("{\n  \"theme\": \"dark\"\n}\n", "llamacpp", &scaffold).unwrap();
    assert_eq!(count_models(&out, "llamacpp").unwrap(), 0);
    assert!(out.contains("\"theme\": \"dark\""), "{out}");
    assert_eq!(ensure_models_container(&out, "llamacpp", &scaffold).unwrap(), out);
    assert_eq!(ensure_models_container(REAL, "ollama", &scaffold).unwrap(), REAL);
}

#[test]
fn strictness_is_judged_without_the_comments() {
    assert!(strictly_valid("{ // note\n \"a\": 1 /* b */ }").is_ok());
    assert!(strictly_valid("{ \"a\": 1 \"b\": 2 }").is_err(), "a missing comma");
    assert!(strictly_valid(REAL).is_ok());
}

#[test]
fn text_blocks_are_indented_and_commented_line_by_line() {
    assert_eq!(indent_lines("a\nb", "  "), "a\n  b");
    let block = comment_block("\"a\": {\n  \"b\": 1\n}", "    ", "why");
    assert!(block.lines().all(|l| l.trim_start().starts_with("//")), "{block}");
    assert!(block.contains("why"), "{block}");
}
