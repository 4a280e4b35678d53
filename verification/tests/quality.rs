//! The fixed quality battery.
use modelsteward::json::{parse, Json};
use modelsteward::measurements::{Measurement, Measurements};
use modelsteward::quality::{
    eval_answer, eval_battery, eval_body, record_quality, score_line, score_response, scored, Ask,
    Check, QualityScore, Quiz, EVALS_TOTAL,
};

fn json(text: &str) -> Json {
    parse(text).unwrap()
}

#[test]
fn matchers_are_strict_but_tolerant_of_chatter() {
    let c = Check::LastLineEquals("7");
    assert!(score_response(&c, "Let me think.\nThe answer is computed.\n7"));
    assert!(score_response(&c, "reasoning...\n\n`7`\n"));
    assert!(!score_response(&c, "17"), "no substring credit");
    assert!(!score_response(&c, "7 is the answer"), "answer must be alone on the line");
    assert!(!score_response(&c, ""));

    let j = Check::JsonEquals(r#"{"name":"steward","count":3}"#);
    assert!(score_response(&j, "Here you go:\n{\"count\": 3, \"name\": \"steward\"}"));
    assert!(!score_response(&j, "{\"name\": \"steward\", \"count\": 4}"));
    assert!(!score_response(&j, "no json here"));
}

#[test]
fn battery_answers_are_self_consistent() {
    // Every item's own expected answer must pass its own check when
    // given as a bare last line.
    for item in eval_battery() {
        let fake = match &item.check {
            Check::LastLineEquals(w) => format!("reasoning\n{w}"),
            Check::JsonEquals(w) => (*w).to_string(),
        };
        assert!(score_response(&item.check, &fake), "{}", item.prompt);
    }
}

#[test]
fn a_check_that_is_no_json_scores_nothing() {
    assert_eq!(scored(&Check::JsonEquals("not json"), "{}"), None);
    assert_eq!(scored(&Check::JsonEquals("{}"), "{}"), Some(true));
    assert_eq!(scored(&Check::LastLineEquals("7"), "8"), Some(false));
}

#[test]
fn a_quiz_asks_every_item_and_every_shot_once() {
    let mut q = Quiz::begin(2);
    let mut asked = Vec::new();
    loop {
        match q.ask() {
            Ask::Eval(i) => {
                asked.push(format!("e{i}"));
                let _ = q.eval_done("m", i != 0);
            }
            Ask::Tool(n) => {
                asked.push(format!("t{n}"));
                let _ = q.tool_done("m", true);
            }
            Ask::Nothing => break,
        }
    }
    assert_eq!(asked.len(), EVALS_TOTAL as usize + 2, "{asked:?}");
    let s = q.finish();
    assert_eq!((s.evals_passed, s.evals_total), (5, 6));
    assert_eq!(s.eval_score, 833_333);
    assert_eq!(s.tool_reliability, 1_000_000);
    assert_eq!(score_line("m", &s), "quality m: evals 5/6 (83%), tool calls 2/2 (100%)");
    let mut all = Measurements::new();
    all.insert("m".into(), Measurement { n_ctx: Some(7), ..Default::default() });
    record_quality(&mut all, "m", &s);
    let m = all.get("m").unwrap();
    assert_eq!((m.n_ctx, m.eval_score), (Some(7), Some(833_333)));
}

#[test]
fn an_answer_is_the_message_content() {
    let items = eval_battery();
    let body = eval_body("m", &items[0]);
    assert_eq!(body.get("model").unwrap().as_str().unwrap(), "m");
    assert_eq!(eval_answer(&json(r#"{"choices":[{"message":{"content":"hi"}}]}"#)), "hi");
    assert_eq!(eval_answer(&json("{}")), "");
}

#[test]
fn half_a_shot_counts_as_one() {
    let s = QualityScore {
        eval_score: 500_000,
        evals_passed: 1,
        evals_total: 2,
        tool_reliability: 500_000,
        tool_shots: 5,
    };
    assert_eq!(score_line("m", &s), "quality m: evals 1/2 (50%), tool calls 3/5 (50%)");
}

#[test]
fn the_two_zeros_answer_alike() {
    let want = Check::JsonEquals(r#"{"x":0.0}"#);
    assert!(score_response(&want, r#"{"x": -0.0}"#));
    assert!(!score_response(&want, r#"{"x": 0.5}"#));
}
