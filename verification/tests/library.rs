//! The model library: shelves, Ollama's store, names.
use modelsteward::gguf::GgufMeta;
use modelsteward::library::{
    alias_suggestion, default_ollama_stores, is_embedding, is_gguf, ollama_model_from_manifest,
    quant_token_from_filename, scan, weights_in, ModelFile, Source,
};
use modelsteward::json::parse;

fn shelf_file(path: &str, meta: Option<GgufMeta>) -> (ModelFile, String) {
    let m = ModelFile {
        path: path.to_string(),
        file_size: 10,
        source: Source::Shelf,
        meta,
        mmproj: None,
    };
    (m, path.to_string())
}

fn meta(arch: &str, ctx: u64, quant: &str) -> Option<GgufMeta> {
    Some(GgufMeta {
        architecture: Some(arch.to_string()),
        context_length: Some(ctx),
        quantization: Some(quant.to_string()),
        ..Default::default()
    })
}

#[test]
fn finds_ggufs_in_nested_shelf_layout() {
    let paths = [
        "/shelf/Qwen3.6-27B/Qwen3.6-27B-UD-Q5_K_XL.gguf",
        "/shelf/Tiny/tiny.GGUF",
        "/shelf/notes/readme.txt",
    ];
    let found: Vec<(ModelFile, String)> = paths
        .iter()
        .filter(|p| is_gguf(p))
        .map(|p| {
            shelf_file(p, if p.contains("Qwen") { meta("qwen3", 262_144, "Q5_K_M") } else { meta("llama", 4096, "Q4_K_M") })
        })
        .collect();
    let models = scan(found);
    assert_eq!(models.len(), 2);
    assert!(models.iter().all(|m| matches!(m.source, Source::Shelf)));
    let qwen = models.iter().find(|m| m.display_name().starts_with("Qwen3.6")).unwrap();
    assert_eq!(qwen.meta.as_ref().unwrap().context_length, Some(262_144));
    assert_eq!(qwen.meta.as_ref().unwrap().quantization.as_deref(), Some("Q5_K_M"));
}

#[test]
fn broken_gguf_is_listed_without_meta() {
    let models = scan(vec![shelf_file("/shelf/Broken/broken.gguf", None)]);
    assert_eq!(models.len(), 1);
    assert!(models[0].meta.is_none(), "visible, but honestly meta-less");
}

#[test]
fn missing_scan_dir_contributes_nothing() {
    // A directory that is not there yields no file.
    let models = scan(vec![]);
    assert!(models.is_empty());
}

#[test]
fn duplicate_scan_dirs_collapse_to_one_entry() {
    let models = scan(vec![
        shelf_file("/shelf/Tiny/tiny.gguf", None),
        shelf_file("/shelf/Tiny/tiny.gguf", None),
    ]);
    assert_eq!(models.len(), 1);
}

#[test]
fn reads_the_ollama_store_layout() {
    let text = r#"{"layers":[
        {"mediaType":"application/vnd.ollama.image.template","digest":"sha256-zzz","size":10},
        {"mediaType":"application/vnd.ollama.image.model","digest":"sha256:abc123","size":100}
    ]}"#;
    let (blob, name) = ollama_model_from_manifest(
        "/store",
        "/store/manifests",
        "/store/manifests/registry.ollama.ai/library/gemma4/latest",
        text,
    )
    .unwrap();
    assert_eq!(name, "gemma4:latest");
    assert!(blob.ends_with("blobs/sha256-abc123"), "{blob}");
    let file = ModelFile {
        path: blob,
        file_size: 100,
        source: Source::Ollama { name },
        meta: meta("gemma3", 131_072, "Q4_K_M"),
        mmproj: None,
    };
    assert_eq!(file.display_name(), "gemma4:latest");
    assert_eq!(weights_in(&parse(text).unwrap()).as_deref(), Some("sha256:abc123"));
    // A manifest without weights is no model.
    assert_eq!(ollama_model_from_manifest("/s", "/s/m", "/s/m/r/library/x/latest", "{}"), None);
    assert_eq!(ollama_model_from_manifest("/s", "/s/m", "/s/m/r/library/x/latest", "junk"), None);
}

#[test]
fn alias_suggestions_are_shell_and_config_safe() {
    let models = scan(vec![shelf_file("/shelf/Qwen3.6-27B/Qwen3.6-27B-UD-Q5_K_XL.gguf", None)]);
    assert_eq!(alias_suggestion(&models[0]), "qwen3.6-27b-ud-q5_k_xl");

    let ollama = ModelFile {
        path: "/b".to_string(),
        file_size: 0,
        source: Source::Ollama { name: "rafw007/qwen36 coder:q4_K_M".into() },
        meta: None,
        mmproj: None,
    };
    assert_eq!(alias_suggestion(&ollama), "rafw007-qwen36-coder-q4_k_m");
}

#[test]
fn aliases_fold_letters_beyond_ascii() {
    let m = shelf_file("/shelf/ÉCLAIR-Q4.gguf", None).0;
    let a = alias_suggestion(&m);
    assert_eq!(a, a.to_lowercase());
    assert!(a.ends_with("q4"), "{a}");
}

#[test]
fn the_filename_names_its_quantization() {
    assert_eq!(quant_token_from_filename("/m/Qwen3-Q4_K_M.gguf").as_deref(), Some("Q4_K_M"));
    assert_eq!(quant_token_from_filename("/m/plain.gguf"), None);
}

#[test]
fn embedders_are_known_by_their_architecture() {
    assert!(is_embedding(&meta("nomic-bert", 2048, "F16")));
    assert!(!is_embedding(&meta("llama", 2048, "F16")));
    assert!(!is_embedding(&None));
}

#[test]
fn the_store_is_looked_for_where_it_is_told() {
    let stores = default_ollama_stores(Some("/data/ollama"), Some("/home/u"));
    assert_eq!(stores[0], "/data/ollama");
    assert!(stores.iter().any(|s| s == "/home/u/.ollama/models"), "{stores:?}");
}

#[test]
fn an_alias_is_in_lower_case_whatever_the_name() {
    for name in ["/m/QWEN-Ä.gguf", "/m/\u{130}STANBUL.gguf", "/m/\u{212a}ELVIN.gguf"] {
        let (m, _) = shelf_file(name, None);
        let alias = alias_suggestion(&m);
        assert!(!alias.chars().any(|c| c.is_ascii_uppercase()), "{alias}");
    }
    assert_eq!(alias_suggestion(&shelf_file("/m/QWEN 3_B.gguf", None).0), "qwen-3_b");
}
