//! Names for durable writes, and reads that tell the truth.
use modelsteward::safefs::{
    final_mode, follow_link, read_json, rescue, staging_path, FileRead, Loaded, LINK_HOPS,
};

#[test]
fn a_dangling_symlink_is_followed_not_replaced() {
    // The write lands at the link's target, whether it is there yet or not.
    assert_eq!(follow_link("/d/cfg.json", "/repo/cfg.json"), "/repo/cfg.json");
    assert_eq!(follow_link("/d/cfg.json", "repo/cfg.json"), "/d/repo/cfg.json");
    assert!(LINK_HOPS > 0);
}

#[test]
fn atomic_write_replaces_content_and_leaves_no_temp_files() {
    // The staging file stands beside its target, and two writes never share
    // one.
    let a = staging_path("/d/state.json", 7, 1).unwrap();
    let b = staging_path("/d/state.json", 7, 2).unwrap();
    assert!(a.starts_with("/d/") && a.ends_with(".tmp"), "{a}");
    assert_ne!(a, b);
    assert_ne!(a, "/d/state.json");
    assert!(staging_path("/", 7, 1).is_err(), "no file to write");
}

#[test]
fn atomic_write_preserves_mode_and_does_not_replace_a_symlink() {
    // A 0600 config must not come back world-readable.
    assert_eq!(final_mode(Some(0o600)), 0o600);
    assert_eq!(final_mode(None) & 0o002, 0, "a new file is not world-writable");
}

#[test]
fn reads_tell_missing_apart_from_damaged() {
    // Missing: silent defaults are correct here.
    assert_eq!(read_json(FileRead::NotFound), Loaded::Missing);
    // Truncated mid-write. Must NOT read as empty.
    match read_json(FileRead::Text("{\"qwen\": {\"n_ctx\": 1113".to_string())) {
        Loaded::Damaged(e) => assert!(e.contains("unparseable"), "{e}"),
        other => panic!("a truncated file must be Damaged, got {other:?}"),
    }
    match read_json(FileRead::Failed("permission denied".to_string())) {
        Loaded::Damaged(e) => assert_eq!(e, "unreadable: permission denied"),
        other => panic!("an unreadable file must be Damaged, got {other:?}"),
    }
    match read_json(FileRead::Text("{\"a\": 1}".to_string())) {
        Loaded::Parsed(j) => assert_eq!(j.get("a").unwrap().as_u64(), Some(1)),
        other => panic!("{other:?}"),
    }
    // And rescuing it moves it aside so the next write can't eat it.
    assert_eq!(rescue("/s/m.json"), "/s/m.json.corrupt");
    assert_eq!(rescue("/s/plain"), "/s/plain.corrupt");
}
