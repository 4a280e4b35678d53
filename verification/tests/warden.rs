//! The sibling's inventory: identities and roots.
use modelsteward::safefs::{read_json, FileRead, Loaded};
use modelsteward::settings::Env;
use modelsteward::textmap::TextMap;
use modelsteward::warden::{
    identities, inventory_path, is_content_id, load, servable_roots, Aliased, Entry, Inventory,
    Location, Root, Roots, SUPPORTED_SCHEMA,
};

const GEMMA: &str = "sha256:00b5a7c497f0c8934033088c10a7fa9a4c015e46ee6d89e9c6890650ba5d0e71";
const LOCAL: &str = "sha256:aa11bb22cc33dd44ee55ff6677889900aabbccddeeff00112233445566778899";

fn root(id: &str, kind: &str, path: &str) -> Root {
    Root { id: id.to_string(), path: path.to_string(), kind: Some(kind.to_string()) }
}

fn at(root_id: &str, rel: &str, accessible: bool, ids: Option<(u64, u64)>) -> Location {
    Location {
        root_id: root_id.to_string(),
        rel_path: rel.to_string(),
        accessible,
        dev: ids.map(|p| p.0),
        ino: ids.map(|p| p.1),
    }
}

fn entry(name: &str, size: u64, locations: Vec<Location>) -> Entry {
    Entry { display_name: Some(name.to_string()), locations, size }
}

/// One model present in two places, one not hashed yet, real root kinds.
fn fixture(extra_dev_ino: Option<(u64, u64, &str)>) -> Inventory {
    let (dev, ino, rel) = extra_dev_ino.unwrap_or((0, 0, "none.gguf"));
    let mut models = TextMap::new();
    models.insert(
        GEMMA.to_string(),
        entry(
            "unsloth/gemma-4-31B-it-qat-GGUF",
            17287670048,
            vec![
                at("hf-hub-79a0b45a", "models--unsloth--gemma-4/snap/g.gguf", true, Some((66306, 45351456))),
                at("ext-53b9be4e", "gemma-4-31B.gguf", false, None),
            ],
        ),
    );
    models.insert(
        "pending:66306:99999:123".to_string(),
        entry("not hashed yet", 123, vec![at("shelf-0079bf06", "unhashed.gguf", true, Some((dev, ino)))]),
    );
    models.insert(
        LOCAL.to_string(),
        entry("local/on-disk", 4096, vec![at("shelf-0079bf06", rel, true, Some((dev, ino)))]),
    );
    Inventory {
        schema_version: 1,
        roots: vec![
            root("hf-hub-79a0b45a", "hf_hub", "/home/buck/.cache/huggingface/hub"),
            root("shelf-0079bf06", "shelf", "/home/buck/models"),
            root("ext-53b9be4e", "removable", "/run/media/buck/disk/model_backup"),
        ],
        models,
    }
}

#[test]
fn resolves_identity_by_absolute_path() {
    let inv = fixture(None);
    let p = "/home/buck/.cache/huggingface/hub/models--unsloth--gemma-4/snap/g.gguf";
    assert_eq!(inv.content_id_for(p, None), Some(GEMMA));
}

/// A real file reached by a path warden never recorded still resolves,
/// because the inode matches.
#[test]
fn resolves_identity_by_inode_when_the_path_is_unknown() {
    // Warden recorded this inode under a DIFFERENT path.
    let inv = fixture(Some((66306, 777, "a-different-name.gguf")));
    assert_eq!(
        inv.content_id_for("/tmp/actually-here.gguf", Some((66306, 777))),
        Some(LOCAL),
        "inode must win where the path is not the one warden saw"
    );
}

/// `pending:` and `unknown:` keys are placeholders that change as the hash
/// worker catches up.
#[test]
fn placeholder_keys_are_never_offered_as_an_identity() {
    assert!(is_content_id(GEMMA));
    assert!(!is_content_id("pending:66306:99999:123"));
    assert!(!is_content_id("unknown:shelf-0079bf06:foo.gguf"));
    assert!(!is_content_id("sha256:"), "a bare prefix is not an identity");

    let inv = fixture(None);
    let p = "/home/buck/models/unhashed.gguf";
    assert_eq!(inv.content_id_for(p, None), None, "the pending entry must not match");
}

#[test]
fn a_model_warden_does_not_know_has_no_identity() {
    let inv = fixture(None);
    assert_eq!(inv.content_id_for("/home/buck/models/stranger.gguf", None), None);
}

/// One identity, many locations. Both paths must resolve to the one identity.
#[test]
fn one_identity_spans_its_locations() {
    let inv = fixture(None);
    assert_eq!(
        inv.content_id_for(
            "/home/buck/.cache/huggingface/hub/models--unsloth--gemma-4/snap/g.gguf",
            None
        ),
        Some(GEMMA)
    );
    assert_eq!(
        inv.content_id_for("/run/media/buck/disk/model_backup/gemma-4-31B.gguf", None),
        Some(GEMMA),
        "the offline backup copy is the same content"
    );
}

#[test]
fn a_location_whose_root_is_gone_resolves_to_nothing() {
    let inv = fixture(None);
    let orphan = at("root-that-warden-dropped", "x.gguf", true, None);
    assert_eq!(inv.absolute(&orphan), None);
}

#[test]
fn warden_not_installed_is_silent_not_an_error() {
    assert!(matches!(load(Loaded::Missing), Loaded::Missing));
}

/// A half-written inventory must be reported, never read as "warden knows
/// nothing".
#[test]
fn a_damaged_inventory_is_reported_not_read_as_empty() {
    let text = "{ \"schema_version\": 1, \"models\": {".to_string();
    let why = match read_json(FileRead::Text(text)) {
        Loaded::Damaged(why) => why,
        _ => panic!("expected Damaged"),
    };
    assert!(why.starts_with("unparseable: "), "{why}");
    match load(Loaded::Damaged(why.clone())) {
        Loaded::Damaged(told) => assert_eq!(told, why),
        _ => panic!("expected Damaged"),
    }
}

/// A file contract needs a version gate at BOTH ends.
#[test]
fn a_future_schema_is_refused_rather_than_misread() {
    let future = Inventory { schema_version: 2, roots: vec![], models: TextMap::new() };
    match load(Loaded::Parsed(future)) {
        Loaded::Damaged(why) => {
            assert!(why.contains("v2"), "name the version we found: {why}");
            assert!(why.contains("v1"), "and the one we read: {why}");
        }
        _ => panic!("expected a refusal"),
    }
    let now = Inventory { schema_version: SUPPORTED_SCHEMA, roots: vec![], models: TextMap::new() };
    assert!(matches!(load(Loaded::Parsed(now)), Loaded::Parsed(_)));
}

#[test]
fn inventory_path_follows_xdg_state_home() {
    let mut e = Env {
        home: Some("/home/u".to_string()),
        config_home: None,
        state_home: None,
        data_home: None,
    };
    let p = inventory_path(&e);
    assert!(
        p.ends_with("modelwarden/inventory.json"),
        "must read warden's published path, got {p}"
    );
    // A sibling's file does not live under our app dir.
    assert!(!p.contains("modelsteward"), "{p}");
    e.state_home = Some("/x/state".to_string());
    assert_eq!(inventory_path(&e), "/x/state/modelwarden/inventory.json");
}

fn named(alias: &str, path: &str) -> Aliased {
    Aliased { alias: alias.to_string(), path: path.to_string(), ids: None }
}

#[test]
fn maps_aliases_to_identities_and_omits_what_warden_does_not_know() {
    let inv = fixture(None);
    let known = "/home/buck/.cache/huggingface/hub/models--unsloth--gemma-4/snap/g.gguf";
    let stranger = "/home/buck/models/never-catalogued.gguf";
    let map = identities(&[named("gemma-4-31b", known), named("mystery", stranger)], &inv);
    assert_eq!(map.get("gemma-4-31b").map(String::as_str), Some(GEMMA));
    assert!(!map.contains_key("mystery"), "an uncatalogued model is absent, not an error");
}

/// Two aliases can legitimately point at one file; both carry the same
/// identity.
#[test]
fn two_aliases_on_one_file_share_the_identity() {
    let inv = fixture(None);
    let p = "/home/buck/.cache/huggingface/hub/models--unsloth--gemma-4/snap/g.gguf";
    let map = identities(&[named("a", p), named("b", p)], &inv);
    assert_eq!(map.get("a"), map.get("b"));
    assert_eq!(map.len(), 2);
}

fn roots_fixture(paths: &[(&str, &str, &str)]) -> Inventory {
    Inventory {
        schema_version: 1,
        roots: paths.iter().map(|(id, kind, path)| root(id, kind, path)).collect(),
        models: TextMap::new(),
    }
}

#[test]
fn classifies_warden_roots_for_our_scanner() {
    let (shelf, olla, drive, hub) = ("/t/shelf", "/t/ollama", "/t/drive", "/t/hub");
    let inv = roots_fixture(&[
        ("a", "shelf", shelf),
        ("b", "ollama", olla),
        ("c", "removable", drive),
        ("d", "hf_hub", hub),
    ]);
    let mounted: Vec<String> = [shelf, olla, drive, hub].iter().map(|s| s.to_string()).collect();
    let r = servable_roots(&inv, &mounted);
    assert!(r.shelves.contains(&shelf.to_string()), "a shelf is ours to walk");
    assert!(
        r.shelves.contains(&drive.to_string()),
        "a MOUNTED backup drive holds servable models: {r:?}"
    );
    assert_eq!(r.ollama, vec![olla]);
    assert!(
        !r.shelves.contains(&hub.to_string()),
        "the hub cache is found by us and served natively by the router: {r:?}"
    );
}

/// An unplugged backup drive is a normal state, not an error, and must never
/// be handed to the scanner as a directory.
#[test]
fn an_offline_root_is_skipped() {
    let inv = roots_fixture(&[("gone", "removable", "/run/media/buck/definitely-not-mounted-xyz")]);
    assert_eq!(servable_roots(&inv, &[]), Roots::default());
}

/// A root kind warden invents later must not silently become a directory we
/// walk.
#[test]
fn an_unknown_root_kind_is_left_alone() {
    let inv = roots_fixture(&[("x", "s3-bucket-of-the-future", "/t/x")]);
    assert_eq!(servable_roots(&inv, &["/t/x".to_string()]), Roots::default());
}

#[test]
fn no_inventory_means_no_extra_roots() {
    assert_eq!(servable_roots(&Inventory::default(), &[]), Roots::default());
}
