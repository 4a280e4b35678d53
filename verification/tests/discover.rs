//! Installs, banners and devices.
use modelsteward::discover::{
    advice_vram_mib, build_of, distinct_installs, install_candidates, nvidia_vram_mib,
    parse_device_list, physical_gpus, sibling_backends, Device,
};
use modelsteward::discover::parse_version_output as version_fields;

fn dev(id: &str, name: &str, mib: u64) -> Device {
    Device {
        id: id.into(),
        name: name.into(),
        total_mib: mib,
        free_mib: mib,
    }
}

#[test]
fn physical_gpus_dedupe_backend_views_and_flag_shared_memory() {
    // One 3090 Ti seen by CUDA and Vulkan (different figures), plus an
    // iGPU advertising ~48GB of borrowed system RAM.
    let devices = vec![
        dev("CUDA0", "NVIDIA GeForce RTX 3090 Ti", 24_111),
        dev("Vulkan0", "NVIDIA GeForce RTX 3090 Ti", 24_564),
        dev("Vulkan1", "Intel(R) UHD Graphics 770 (ADL-S GT1)", 48_012),
    ];
    let gpus = physical_gpus(&devices);
    assert_eq!(gpus.len(), 2, "three views, two physical devices");
    assert_eq!(gpus[0].vram_mib, 24_111, "conservative (min) figure wins");
    assert_eq!(gpus[0].ids, vec!["CUDA0", "Vulkan0"]);
    assert!(!gpus[0].shared_memory);
    assert!(gpus[1].shared_memory, "iGPU flagged");
    assert_eq!(advice_vram_mib(&devices), 24_111, "advice never sees the phantom heap");

    // Vulkan-only box: iGPU listed FIRST must still lose to the discrete
    // card.
    let vulkan_only = vec![
        dev("Vulkan0", "Intel(R) UHD Graphics 770", 48_012),
        dev("Vulkan1", "AMD Radeon RX 7900 XTX", 24_560),
    ];
    assert_eq!(advice_vram_mib(&vulkan_only), 24_560);
    // All-shared fallback: better a shared figure than zero.
    let igpu_only = vec![dev("Vulkan0", "Intel(R) UHD Graphics 770", 48_012)];
    assert_eq!(advice_vram_mib(&igpu_only), 48_012);
}

#[test]
fn parses_version_output() {
    let out = "version: 10216 (876a43211)\nbuilt with GNU 15.2.0 for Linux x86_64\n";
    let (build, commit, built_with) = version_fields(out);
    assert_eq!(build, Some(10216));
    assert_eq!(commit.as_deref(), Some("876a43211"));
    assert_eq!(built_with.as_deref(), Some("GNU 15.2.0 for Linux x86_64"));
    assert_eq!(build_of(out), Some(10216));
}

#[test]
fn parses_vendored_version_output() {
    let out = "version: 10360 (90e6a9131)\nbuilt with GNU 11.4.0 for Linux x86_64 (Compiled by the Unsloth team)\n";
    let (build, _, built_with) = version_fields(out);
    assert_eq!(build, Some(10360));
    assert!(built_with.unwrap().contains("Unsloth"));
}

#[test]
fn parses_the_new_version_dialect() {
    let out = "version: 0.1.0-dev (build 10454, commit 4df29be4f)\nbuilt with GNU 15.2.0 for Linux x86_64\n";
    let (build, commit, built_with) = version_fields(out);
    assert_eq!(build, Some(10454));
    assert_eq!(commit.as_deref(), Some("4df29be4f"));
    assert!(built_with.unwrap().contains("GNU 15.2.0"));
}

#[test]
fn version_garbage_yields_nones_not_panic() {
    let (build, commit, built_with) = version_fields("segfault lol");
    assert_eq!((build, commit, built_with), (None, None, None));
}

#[test]
fn parses_device_list_including_parenthesised_names() {
    let out = "\
Available devices:
  CUDA0: NVIDIA GeForce RTX 3090 Ti (24111 MiB, 23328 MiB free)
  Vulkan0: NVIDIA GeForce RTX 3090 Ti (24564 MiB, 23328 MiB free)
  Vulkan1: Intel(R) UHD Graphics 770 (ADL-S GT1) (48012 MiB, 43210 MiB free)
";
    let devices = parse_device_list(out);
    assert_eq!(devices.len(), 3);
    assert_eq!(devices[0].id, "CUDA0");
    assert_eq!(devices[0].total_mib, 24111);
    assert_eq!(devices[2].id, "Vulkan1");
    assert_eq!(devices[2].name, "Intel(R) UHD Graphics 770 (ADL-S GT1)");
    assert_eq!(devices[2].free_mib, 43210);
}

#[test]
fn device_prose_lines_are_ignored() {
    assert!(parse_device_list("Available devices:\nno devices found\n").is_empty());
}

#[test]
fn the_first_card_states_its_memory() {
    assert_eq!(nvidia_vram_mib("1236, 24564\n100, 8192\n"), Some((23328, 24564)));
    assert_eq!(nvidia_vram_mib("[N/A]\n"), None);
    assert_eq!(nvidia_vram_mib(""), None);
}

#[test]
fn candidates_come_in_a_fixed_order_and_are_offered_once() {
    let c = install_candidates(
        &["/opt/llama-server".to_string()],
        &["/usr/bin".to_string()],
        Some("/home/u"),
        "/data/llama.cpp/build/bin/llama-server",
        &["/data/builds/b1/llama-server".to_string()],
    );
    assert_eq!(c[0], "/opt/llama-server");
    assert_eq!(c[1], "/usr/bin/llama-server");
    assert_eq!(c[2], "/home/u/src/llama.cpp/build/bin/llama-server");
    assert_eq!(c[c.len() - 1], "/data/builds/b1/llama-server");
    let found = distinct_installs(&[
        (Some("/a".to_string()), true),
        (None, false),
        (Some("/a".to_string()), true),
        (Some("/b".to_string()), false),
        (Some("/c".to_string()), true),
    ]);
    assert_eq!(found, vec!["/a", "/c"]);
}

#[test]
fn backends_are_read_off_the_libraries() {
    let names: Vec<String> = ["libggml-cuda.so", "libggml-cpu.so", "libllama.so", "libggml-cuda.so.1"]
        .iter()
        .map(|s| s.to_string())
        .collect();
    let b = sibling_backends(&names);
    assert!(b.contains(&"cuda".to_string()), "{b:?}");
    assert!(b.contains(&"cpu".to_string()), "{b:?}");
    assert!(!b.iter().any(|x| x.contains("llama")), "{b:?}");
}
