//! The GGUF header reader.
use modelsteward::gguf::{read_meta, GgufError, T_ARRAY, T_STRING, T_U32};

/// Build a tiny synthetic GGUF header for tests.
fn synthetic_gguf(arch: &str, ctx: u64, file_type: u64) -> Vec<u8> {
    synthetic_gguf_with_tensors(arch, ctx, file_type, &[])
}

fn synthetic_gguf_with_tensors(
    arch: &str,
    ctx: u64,
    file_type: u64,
    tensor_names: &[&str],
) -> Vec<u8> {
    let mut b = Vec::new();
    b.extend(0x4655_4747u32.to_le_bytes()); // "GGUF"
    b.extend(3u32.to_le_bytes()); // version
    b.extend((tensor_names.len() as u64).to_le_bytes()); // tensor count
    b.extend(5u64.to_le_bytes()); // kv count

    let kv_str = |b: &mut Vec<u8>, k: &str, v: &str| {
        b.extend((k.len() as u64).to_le_bytes());
        b.extend(k.as_bytes());
        b.extend(T_STRING.to_le_bytes());
        b.extend((v.len() as u64).to_le_bytes());
        b.extend(v.as_bytes());
    };
    let kv_u32 = |b: &mut Vec<u8>, k: &str, v: u32| {
        b.extend((k.len() as u64).to_le_bytes());
        b.extend(k.as_bytes());
        b.extend(T_U32.to_le_bytes());
        b.extend(v.to_le_bytes());
    };

    kv_str(&mut b, "general.architecture", arch);
    kv_str(&mut b, "general.name", "Synthetic Test Model");
    // A string array to prove the skipper walks composite values.
    let key = "tokenizer.ggml.tokens";
    b.extend((key.len() as u64).to_le_bytes());
    b.extend(key.as_bytes());
    b.extend(T_ARRAY.to_le_bytes());
    b.extend(T_STRING.to_le_bytes());
    b.extend(3u64.to_le_bytes());
    for tok in ["<s>", "hello", "world"] {
        b.extend((tok.len() as u64).to_le_bytes());
        b.extend(tok.as_bytes());
    }
    kv_u32(&mut b, &format!("{arch}.context_length"), ctx as u32);
    kv_u32(&mut b, "general.file_type", file_type as u32);
    // Tensor infos: name, n_dims=1, dim, type, offset.
    for name in tensor_names {
        b.extend((name.len() as u64).to_le_bytes());
        b.extend(name.as_bytes());
        b.extend(1u32.to_le_bytes());
        b.extend(64u64.to_le_bytes());
        b.extend(0u32.to_le_bytes());
        b.extend(0u64.to_le_bytes());
    }
    b
}

#[test]
fn reads_the_fields_the_library_needs() {
    let meta = read_meta(&synthetic_gguf("qwen3", 262_144, 17)).unwrap();
    assert_eq!(meta.architecture.as_deref(), Some("qwen3"));
    assert_eq!(meta.name.as_deref(), Some("Synthetic Test Model"));
    assert_eq!(meta.context_length, Some(262_144));
    assert_eq!(meta.quantization.as_deref(), Some("Q5_K_M"));
}

#[test]
fn detects_mtp_tensors_by_name() {
    let with = synthetic_gguf_with_tensors(
        "qwen3",
        8192,
        17,
        &["blk.0.attn_q.weight", "blk.64.nextn.eh_proj.weight"],
    );
    assert!(read_meta(&with).unwrap().has_mtp);

    let without = synthetic_gguf_with_tensors("qwen3", 8192, 17, &["blk.0.attn_q.weight"]);
    assert!(!read_meta(&without).unwrap().has_mtp);
}

#[test]
fn rejects_non_gguf() {
    let err = read_meta(b"definitely not a gguf file").unwrap_err();
    assert!(err.message().contains("bad magic"));
}

#[test]
fn truncated_header_errors_cleanly() {
    let full = synthetic_gguf("llama", 8192, 15);
    assert!(read_meta(&full[..full.len() / 2]).is_err());
}

#[test]
fn unknown_file_type_is_reported_not_guessed() {
    let meta = read_meta(&synthetic_gguf("llama", 4096, 999)).unwrap();
    assert_eq!(meta.quantization.as_deref(), Some("type 999"));
}

fn opening(version: u32, kvs: u64) -> Vec<u8> {
    let mut b = Vec::new();
    b.extend(0x4655_4747u32.to_le_bytes());
    b.extend(version.to_le_bytes());
    b.extend(0u64.to_le_bytes());
    b.extend(kvs.to_le_bytes());
    b
}

#[test]
fn implausible_headers_are_refused_by_name() {
    assert!(matches!(read_meta(&opening(1, 0)), Err(GgufError::UnsupportedVersion(1))));
    assert!(matches!(read_meta(&opening(3, 1_000_000)), Err(GgufError::ImplausibleCount(1_000_000))));
    assert!(matches!(read_meta(&opening(3, 1)), Err(GgufError::Truncated)));
    let mut b = opening(3, 1);
    b.extend(u64::MAX.to_le_bytes());
    assert!(matches!(read_meta(&b), Err(GgufError::ImplausibleString(_))));
    let mut b = opening(3, 1);
    b.extend(1u64.to_le_bytes());
    b.extend(b"k");
    b.extend(77u32.to_le_bytes());
    assert!(matches!(read_meta(&b), Err(GgufError::UnknownType(77))));
    let mut b = opening(3, 1);
    b.extend(1u64.to_le_bytes());
    b.extend(b"k");
    b.extend(T_ARRAY.to_le_bytes());
    b.extend(T_ARRAY.to_le_bytes());
    b.extend(1u64.to_le_bytes());
    assert!(matches!(read_meta(&b), Err(GgufError::UnsupportedElement(_))));
}

#[test]
fn a_header_needs_no_more_than_its_own_bytes() {
    let mut full = synthetic_gguf("llama", 8192, 15);
    let alone = read_meta(&full).unwrap();
    full.extend([7u8; 64]);
    assert_eq!(read_meta(&full).unwrap(), alone);
}

#[test]
fn a_text_that_is_no_utf8_is_read_lossily() {
    let mut b = opening(3, 1);
    b.extend((("general.name").len() as u64).to_le_bytes());
    b.extend(b"general.name");
    b.extend(T_STRING.to_le_bytes());
    b.extend(3u64.to_le_bytes());
    b.extend([b'a', 0xff, b'b']);
    assert_eq!(read_meta(&b).unwrap().name.as_deref(), Some("a\u{fffd}b"));
}
