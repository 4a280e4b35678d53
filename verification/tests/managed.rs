//! Managed builds: steps, archives, retention.
use modelsteward::advisor::{BackendSelection, BuildCheck};
use modelsteward::managed::{
    archive_build, archive_dir, archive_from, archive_of, archived_line, build_tree, checkout_dir,
    checkout_present, checkout_release, clone_step, delete_archive, fetch_tags, list_archives,
    list_archives_in, managed_server_bin, parse_newest_tag, plan_release, prune_candidates,
    release_label, status, Archive, ManagedStatus, LABEL_DOT, LABEL_PLAIN,
};
use modelsteward::settings::Env;

fn env() -> Env {
    Env {
        home: Some("/home/u".to_string()),
        config_home: None,
        state_home: None,
        data_home: None,
    }
}

#[test]
fn prune_keeps_newest_serving_and_custom_labels() {
    let a = |label: &str, build: Option<u64>| Archive {
        label: label.into(),
        build,
        server: format!("/x/{label}/llama-server"),
    };
    // Newest-first numbered, then a custom label.
    let archives = vec![
        a("b10697", Some(10697)),
        a("b10687", Some(10687)),
        a("b10680", Some(10680)),
        a("b10679", Some(10679)),
        a("b10675", Some(10675)),
        a("fast-mmq", None),
    ];
    let serving = "/x/b10679/llama-server";
    // keep 2: b10680 and b10675 are past the line; b10679 survives
    // because it is serving; fast-mmq survives because it is custom.
    assert_eq!(
        prune_candidates(&archives, 2, Some(serving)),
        vec!["b10680".to_string(), "b10675".to_string()]
    );
    // keep 0 = unlimited: nothing is ever deleted.
    assert!(prune_candidates(&archives, 0, Some(serving)).is_empty());
    assert!(prune_candidates(&archives, 99, None).is_empty());
}

#[test]
fn newest_tag_parses_build_tags_only() {
    assert_eq!(parse_newest_tag("b10454\nb10630\nb9999\n"), Some(10_630));
    assert_eq!(parse_newest_tag("v1.0\nmaster\n"), None);
    assert_eq!(parse_newest_tag(""), None);
}

#[test]
fn archives_list_by_build_and_require_a_server_binary() {
    // Only directories with a server binary are named.
    let labels: Vec<String> = ["b10454", "b10630", "junk"].iter().map(|s| s.to_string()).collect();
    let got = list_archives_in("/x", &labels);
    let names: Vec<&str> = got.iter().map(|a| a.label.as_str()).collect();
    // Releases newest-first, then labels.
    assert_eq!(names, vec!["b10630", "b10454", "junk"]);
    assert_eq!(got[0].build, Some(10_630));
    assert!(got[0].server.ends_with("b10630/llama-server"));
    assert_eq!(got[2].build, None, "labeled variant carries no number");
}

#[test]
fn everything_managed_stands_in_the_data_dir() {
    let e = env();
    assert_eq!(checkout_dir(&e), "/home/u/.local/share/modelsteward/llama.cpp");
    assert!(checkout_present(&e).starts_with(&checkout_dir(&e)));
    assert_eq!(managed_server_bin(&e), format!("{}/build/bin/llama-server", checkout_dir(&e)));
    assert!(archive_dir(&e).starts_with("/home/u/.local/share/modelsteward/"));
    let listed = list_archives(&e, &["b7".to_string()]);
    assert_eq!(listed[0].server, format!("{}/b7/llama-server", archive_dir(&e)));
}

#[test]
fn the_steps_work_on_the_managed_checkout() {
    let e = env();
    let ((cmd, args), _) = clone_step(&e);
    assert_eq!(cmd, "git");
    assert!(args.contains(&"clone".to_string()) && args.contains(&checkout_dir(&e)));
    let (cmd, args) = fetch_tags(&e);
    assert_eq!(cmd, "git");
    assert!(args.contains(&"fetch".to_string()), "{args:?}");
    let ((_, args), said) = checkout_release(&e, 10_630);
    assert!(args.contains(&"b10630".to_string()), "{args:?}");
    assert!(said.contains("b10630"), "{said}");
    let sel = BackendSelection { cuda: true, vulkan: false, hip: false };
    let steps = build_tree(&e, &BuildCheck::default(), sel);
    assert!(steps.iter().all(|(c, _)| c != "git"), "the tree is tag-pinned");
}

#[test]
fn labels_are_filesystem_plain() {
    let e = env();
    assert_eq!(archive_from(&e, "/src", "a/b", false, true), Err(LABEL_PLAIN.to_string()));
    assert_eq!(archive_from(&e, "/src", "", false, true), Err(LABEL_PLAIN.to_string()));
    assert_eq!(archive_from(&e, "/src", ".b", false, true), Err(LABEL_DOT.to_string()));
    assert!(archive_from(&e, "/src", "b7", true, true).unwrap_err().contains("already exists"));
    assert!(archive_from(&e, "/src", "b7", false, false).is_err(), "nothing built");
    assert_eq!(
        archive_from(&e, "/src", "b7", false, true),
        Ok(format!("{}/b7", archive_dir(&e)))
    );
    assert_eq!(
        archive_build(&e, 7),
        (format!("{}/build/bin", checkout_dir(&e)), "b7".to_string())
    );
    assert_eq!(archived_line(3, "/x/b7"), "archived 3 files to /x/b7");
}

#[test]
fn deleting_never_leaves_the_archive_dir() {
    let e = env();
    assert!(delete_archive(&e, "../x", true).unwrap_err().contains("not a valid archive label"));
    assert!(delete_archive(&e, "b7", false).unwrap_err().contains("no archived build named \"b7\""));
    assert_eq!(delete_archive(&e, "b7", true), Ok(format!("{}/b7", archive_dir(&e))));
}

#[test]
fn a_release_is_built_once_per_backend_choice() {
    let cuda = BackendSelection { cuda: true, vulkan: false, hip: false };
    let backends = vec!["cpu".to_string(), "cuda".to_string()];
    let (build, said) = plan_release(10_630, Some(("b10630", &backends)), cuda);
    assert!(!build, "{said:?}");
    let vulkan = BackendSelection { cuda: false, vulkan: true, hip: false };
    let (build, said) = plan_release(10_630, Some(("b10630", &backends)), vulkan);
    assert!(build && said.len() == 2, "{said:?}");
    let (build, said) = plan_release(10_630, None, cuda);
    assert!(build && said.len() == 1, "{said:?}");
    assert_eq!(release_label(10_630, false, vulkan), "b10630");
    assert_eq!(release_label(10_630, true, vulkan), "b10630-vulkan");
    let none = BackendSelection { cuda: false, vulkan: false, hip: false };
    assert_eq!(release_label(10_630, true, none), "b10630-cpu");
    let listed = list_archives_in("/x", &["b7".to_string()]);
    assert_eq!(archive_of(&listed, 7).unwrap().label, "b7");
    assert!(archive_of(&listed, 8).is_none());
}

#[test]
fn the_status_reads_the_build_off_the_banner() {
    let s = status(true, Some("version: 10216 (876a43211)\n"), vec![]);
    assert!(s.present);
    assert_eq!(s.built, Some(10216));
    let none = ManagedStatus::default();
    assert!(!none.present && none.built.is_none() && none.archives.is_empty());
}
