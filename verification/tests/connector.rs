//! The agents' connectors and their fan-out.
use modelsteward::connector::{
    all, fan_out_lines, outcome_lines, secondary, sync_all, sync_each, Agent, Connector,
    OpenCodeConnector, Outcome, PiConnector, SyncContext,
};
use modelsteward::opencode::DesiredModel;
use modelsteward::preset::TextSet;
use modelsteward::settings::Env;
use modelsteward::textmap::TextMap;

struct Fake {
    id: &'static str,
    present: bool,
    result: fn() -> Result<Outcome, String>,
}

impl Connector for Fake {
    fn id(&self) -> &'static str {
        self.id
    }
    fn display_name(&self) -> &'static str {
        self.id
    }
    fn config_path(&self) -> String {
        "/nowhere".to_string()
    }
    fn present(&self) -> bool {
        self.present
    }
    fn sync(&self, _ctx: &SyncContext<'_>) -> Result<Outcome, String> {
        (self.result)()
    }
}

fn ctx_for<'a>(desired: &'a [DesiredModel], known: &'a TextSet) -> SyncContext<'a> {
    SyncContext { base_url: "http://127.0.0.1:8080/v1", desired, known }
}

fn ok_outcome() -> Result<Outcome, String> {
    Ok(Outcome {
        connector: "good",
        skipped_missing: false,
        summary: Some("good synced: 2 added".into()),
        notes: vec!["1 model skipped".into()],
        writes: vec![],
    })
}

fn absent_outcome() -> Result<Outcome, String> {
    Ok(Outcome::absent("gone"))
}

fn failing_outcome() -> Result<Outcome, String> {
    Err("its config is a directory".to_string())
}

fn env() -> Env {
    Env {
        home: Some("/home/u".to_string()),
        config_home: None,
        state_home: None,
        data_home: None,
    }
}

/// One agent blowing up must not cost the user the others.
#[test]
fn a_failing_connector_does_not_stop_the_rest() {
    let d: Vec<DesiredModel> = vec![];
    let k = TextMap::new();
    let cs: Vec<Box<dyn Connector>> = vec![
        Box::new(Fake { id: "broken", present: true, result: failing_outcome }),
        Box::new(Fake { id: "good", present: true, result: ok_outcome }),
    ];
    let lines = sync_all(&cs, &ctx_for(&d, &k));
    assert!(
        lines.iter().any(|l| l.contains("broken sync FAILED")),
        "the failure is reported: {lines:?}"
    );
    assert!(
        lines.iter().any(|l| l.contains("good synced")),
        "and the next connector still ran: {lines:?}"
    );
}

/// Each connector is asked once, in the given order, with the context as it
/// was handed in; what it answers is what is told.
struct Recording {
    id: &'static str,
    asked: std::rc::Rc<std::cell::RefCell<Vec<String>>>,
}

impl Connector for Recording {
    fn id(&self) -> &'static str {
        self.id
    }
    fn display_name(&self) -> &'static str {
        self.id
    }
    fn config_path(&self) -> String {
        "/nowhere".to_string()
    }
    fn present(&self) -> bool {
        true
    }
    fn sync(&self, ctx: &SyncContext<'_>) -> Result<Outcome, String> {
        let known = ctx.known.contains_key("kept");
        self.asked.borrow_mut().push(format!("{} {} {known}", self.id, ctx.base_url));
        Err(format!("{} said no", self.id))
    }
}

#[test]
fn every_connector_is_asked_once_with_the_same_context() {
    let asked = std::rc::Rc::new(std::cell::RefCell::new(vec![]));
    let mk = |id: &'static str| -> Box<dyn Connector> {
        Box::new(Recording { id, asked: asked.clone() })
    };
    let d: Vec<DesiredModel> = vec![];
    let mut k = TextMap::new();
    k.insert("kept".to_string(), ());
    let lines = sync_all(&[mk("one"), mk("two"), mk("three")], &ctx_for(&d, &k));
    assert_eq!(
        lines,
        vec![
            "one sync FAILED: one said no",
            "two sync FAILED: two said no",
            "three sync FAILED: three said no",
        ]
    );
    let want: Vec<String> = ["one", "two", "three"]
        .iter()
        .map(|id| format!("{id} http://127.0.0.1:8080/v1 true"))
        .collect();
    assert_eq!(*asked.borrow(), want);
    assert!(sync_all(&[], &ctx_for(&d, &k)).is_empty());
}

/// An agent that isn't installed produces NO line.
#[test]
fn an_absent_agent_is_silent() {
    let d: Vec<DesiredModel> = vec![];
    let k = TextMap::new();
    let cs: Vec<Box<dyn Connector>> =
        vec![Box::new(Fake { id: "gone", present: false, result: absent_outcome })];
    assert!(sync_all(&cs, &ctx_for(&d, &k)).is_empty());
}

#[test]
fn notes_are_rendered_under_their_summary() {
    let d: Vec<DesiredModel> = vec![];
    let k = TextMap::new();
    let cs: Vec<Box<dyn Connector>> =
        vec![Box::new(Fake { id: "good", present: true, result: ok_outcome })];
    let lines = sync_all(&cs, &ctx_for(&d, &k));
    assert_eq!(lines.len(), 2, "{lines:?}");
    assert_eq!(lines[0], "good synced: 2 added");
    assert!(lines[1].starts_with("  · "), "notes are indented: {:?}", lines[1]);
}

/// Ordering is the caller's: pi before Hermes, every run, so a log read
/// across days is comparable.
#[test]
fn the_fan_out_preserves_the_given_order() {
    let d: Vec<DesiredModel> = vec![];
    let k = TextMap::new();
    let mk = |id: &'static str| -> Box<dyn Connector> {
        Box::new(Fake { id, present: true, result: ok_outcome })
    };
    let lines = sync_all(&[mk("first"), mk("second")], &ctx_for(&d, &k));
    assert_eq!(lines.len(), 4, "two summaries, two notes: {lines:?}");
}

#[test]
fn every_connector_has_a_stable_id_and_a_human_name() {
    let ids: Vec<_> = all(&env()).iter().map(|c| c.id()).collect();
    assert_eq!(ids, vec!["opencode", "pi", "hermes"]);
    for c in all(&env()) {
        assert!(!c.display_name().is_empty(), "{} needs a name", c.id());
        assert!(
            c.display_name() != c.id() || c.id() == "pi",
            "the name is for people, the id is for logs"
        );
    }
}

/// The fan-out drives pi and Hermes; OpenCode is deliberately excluded.
#[test]
fn the_fan_out_covers_pi_and_hermes_only() {
    let ids: Vec<_> = secondary(&env()).iter().map(|c| c.id()).collect();
    assert_eq!(ids, vec!["pi", "hermes"]);
}

/// Every connector must answer `present()` on a machine where the agent is
/// absent.
#[test]
fn presence_is_answerable_for_all_of_them() {
    for c in all(&env()) {
        let _ = c.present();
        assert!(!c.config_path().is_empty(), "{} must name a config location", c.id());
    }
}

#[test]
fn a_failure_is_one_line() {
    assert_eq!(
        outcome_lines("pi agent", &Err("boom".to_string())),
        vec!["pi agent sync FAILED: boom".to_string()]
    );
    assert!(outcome_lines("pi agent", &Ok(Outcome::absent("pi"))).is_empty());
}

#[test]
fn opencode_is_synced_from_its_source() {
    let d = vec![DesiredModel {
        id: "qwen".to_string(),
        display_name: "Qwen".to_string(),
        context: 48_640,
        tool_call: None,
        vision: false,
    }];
    let k = TextMap::new();
    let ctx = ctx_for(&d, &k);
    let mut c = OpenCodeConnector::at("/home/u/.config/opencode/opencode.json".to_string());
    assert!(c.sync(&ctx).unwrap().skipped_missing, "nothing to sync into");
    c.source = Some("{\n  \"theme\": \"dark\"\n}\n".to_string());
    let out = Agent::OpenCode(c).sync(&ctx).unwrap();
    assert_eq!(out.writes.len(), 1);
    assert_eq!(out.writes[0].0, "/home/u/.config/opencode/opencode.json");
    assert!(out.writes[0].1.contains("\"qwen\""));
    assert!(out.writes[0].1.contains("\"theme\": \"dark\""));
}

#[test]
fn pi_without_its_directory_is_absent() {
    let d: Vec<DesiredModel> = vec![];
    let k = TextMap::new();
    let c = PiConnector::at("/home/u/.pi/agent/models.json".to_string());
    assert!(!c.present());
    assert!(c.sync(&ctx_for(&d, &k)).unwrap().skipped_missing);
}

#[test]
fn unread_agents_are_absent_and_silent() {
    let d: Vec<DesiredModel> = vec![];
    let k = TextMap::new();
    let results = sync_each(&secondary(&env()), &ctx_for(&d, &k));
    assert_eq!(results.len(), 2);
    assert_eq!((results[0].0, results[1].0), ("pi agent", "Hermes"));
    assert!(results.iter().all(|(_, r)| r.as_ref().unwrap().skipped_missing));
    assert!(fan_out_lines(&results).is_empty());
}
