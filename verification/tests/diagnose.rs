//! Failure texts in plain language.
use modelsteward::diagnose::{classify, diagnose, short_hint, Cause, Remedy};

#[test]
fn classifies_the_real_errors_from_this_machine() {
    assert_eq!(
        classify("key qwen35moe.rope.dimension_sections has wrong array length; expected 4, got 3"),
        Cause::NeedsNewerBuild
    );
    assert_eq!(
        classify("done_getting_tensors: wrong number of tensors; expected 2131, got 720"),
        Cause::BadBlob
    );
    assert_eq!(classify("ggml_backend_cuda: failed to allocate 2.3 GiB"), Cause::OutOfMemory);
    assert_eq!(classify("something exotic"), Cause::Unknown);
}

#[test]
fn current_build_reframes_format_errors_as_ollama_specific() {
    let d = diagnose(
        Some("key qwen35.rope.dimension_sections has wrong array length; expected 4, got 3"),
        false,
        false,
        Some(true),
    );
    assert_eq!(d.cause, Cause::NeedsNewerBuild);
    assert!(d.explanation.contains("another tool"), "{}", d.explanation);
    assert!(
        !d.remedies.contains(&Remedy::OpenBuildAdvisor),
        "no point advising a rebuild that provably won't help"
    );
}

#[test]
fn diagnosis_gives_novice_language_and_actions() {
    let d = diagnose(
        Some("did not load: failed(1) — error loading model hyperparameters: key x has wrong array length"),
        false,
        false,
        None,
    );
    assert_eq!(d.cause, Cause::NeedsNewerBuild);
    assert!(d.remedies.contains(&Remedy::OpenBuildAdvisor));
    assert!(d.evidence.unwrap().contains("wrong array length"), "evidence is the mined tail");
    assert!(!d.explanation.contains("cmake"), "no jargon in explanations");

    let d = diagnose(None, true, true, None);
    assert_eq!(d.cause, Cause::NotOffered);
    assert_eq!(d.remedies, vec![Remedy::ArchiveToShelf]);

    let d = diagnose(None, false, false, None);
    assert_eq!(d.cause, Cause::Unmeasured);
    assert_eq!(d.remedies, vec![Remedy::LoadAndMeasure]);
}

#[test]
fn the_classification_ignores_case() {
    assert_eq!(classify("CUDA error: Out Of Memory"), Cause::OutOfMemory);
    assert_eq!(
        short_hint("UNKNOWN MODEL ARCHITECTURE: 'x'"),
        short_hint("unknown model architecture: 'x'")
    );
    assert_ne!(short_hint("out of memory"), short_hint("bad magic"));
}
