use gene_core::eval::{
    failed_output, grade, grading, item_request, judge_grade, judge_request, messages,
    parse_verdict, report, verdict, EvalItem, EvalResult, EvalSet, Grader, Grading, Judge, Ratio,
};
use gene_core::llm::types::Float64;
use gene_core::provider::{Provider, ProviderKind};

fn item(reference: Option<&str>) -> EvalItem {
    EvalItem {
        id: "q".into(),
        prompt: "p".into(),
        reference: reference.map(String::from),
        grader: None,
    }
}

fn named(id: &str) -> EvalItem {
    EvalItem { id: id.into(), prompt: "p".into(), reference: None, grader: None }
}

fn result(id: &str, output: &str, passed: Option<bool>) -> EvalResult {
    EvalResult { item_id: id.into(), output: output.into(), passed }
}

#[test]
fn grading_exact_and_contains() {
    let it = item(Some("hello"));
    assert_eq!(grade(Grader::Exact, &it, " hello "), Some(true));
    assert_eq!(grade(Grader::Exact, &it, "hello world"), Some(false));
    assert_eq!(grade(Grader::Contains, &it, "well hello there"), Some(true));
    assert_eq!(grade(Grader::Capture, &it, "hello"), None);
    // no reference -> not gradable
    assert_eq!(grade(Grader::Exact, &item(None), "x"), None);
}

#[test]
fn judge_verdict_parsing() {
    assert!(parse_verdict("PASS"));
    assert!(parse_verdict("pass — the answer is correct"));
    assert!(!parse_verdict("FAIL"));
    assert!(!parse_verdict("This should FAIL because ..."));
    assert!(!parse_verdict("unclear")); // neither word -> not a pass
}

#[test]
fn fail_wins() {
    assert!(!parse_verdict("pass, no: fail"));
    assert!(!parse_verdict("Failed to pass"));
    assert!(verdict("A PASS"));
    assert!(!verdict("a pass"));
    assert!(!verdict("PASS FAIL"));
    assert_eq!(judge_grade(Some("Pass".to_string())), Some(true));
    assert_eq!(judge_grade(Some("no".to_string())), Some(false));
    assert_eq!(judge_grade(None), None);
}

#[test]
fn contains_trims_the_reference_only() {
    assert_eq!(grade(Grader::Contains, &item(Some(" 4 ")), "is 4."), Some(true));
    assert_eq!(grade(Grader::Contains, &item(Some("a b")), "a  b"), Some(false));
    assert_eq!(grade(Grader::Contains, &item(Some("  ")), "x"), Some(true));
    assert_eq!(grade(Grader::Judge, &item(Some("x")), "x"), None);
}

#[test]
fn grader_names() {
    for g in [Grader::Capture, Grader::Exact, Grader::Contains, Grader::Judge] {
        assert_eq!(Grader::parse(g.name()).unwrap(), g);
    }
    assert_eq!(Grader::parse("none").unwrap(), Grader::Capture);
    assert_eq!(Grader::default(), Grader::Capture);
    assert_eq!(
        Grader::parse("best").unwrap_err().message(),
        "unknown grader 'best' (none | exact | contains | judge)"
    );
}

#[test]
fn item_messages() {
    let m = messages(&Some("sys".to_string()), "ask");
    assert_eq!(m.len(), 2);
    assert_eq!((m[0].role.as_str(), m[0].content.as_str()), ("system", "sys"));
    assert_eq!((m[1].role.as_str(), m[1].content.as_str()), ("user", "ask"));
    assert_eq!(messages(&Some(" \n".to_string()), "ask").len(), 1);
    assert_eq!(messages(&None, "ask").len(), 1);
}

#[test]
fn item_requests_pin_the_temperature() {
    let set = EvalSet {
        name: "s".into(),
        system_prompt: None,
        temperature: Float64 { bits: (0.5f64).to_bits() },
        items: vec![],
    };
    let r = item_request(&set, "m", &item(None));
    assert_eq!(r.model, "m");
    assert!(r.stream);
    assert_eq!(r.sampling.temperature, Some(Float64 { bits: (0.5f64).to_bits() }));
    assert_eq!(r.sampling.max_tokens, None);
    assert!(r.sampling.stop.is_empty());
    assert_eq!(r.messages[0].content, "p");
}

#[test]
fn judge_is_told_the_criteria() {
    let r = judge_request("j", &item(Some("four")), "4");
    assert_eq!(r.model, "j");
    assert_eq!(r.sampling.temperature, Some(Float64 { bits: (0.0f64).to_bits() }));
    assert_eq!(r.messages.len(), 1);
    assert_eq!(r.messages[0].role, "user");
    assert_eq!(
        r.messages[0].content,
        "You are grading a model's answer. Reply with exactly one word: PASS or FAIL.\n\n\
         Question:\np\n\nExpected answer or criteria:\nfour\n\nCandidate answer:\n4\n\n\
         Does the candidate answer satisfy the criteria? Reply PASS or FAIL."
    );
    let open = judge_request("j", &item(None), "4");
    assert!(open.messages[0]
        .content
        .contains("criteria:\nanswer the question correctly and helpfully\n"));
}

#[test]
fn item_grader_wins() {
    let provider = Provider::new(ProviderKind::Ollama, "u".into(), "k".into());
    let judge = Judge { provider: &provider, model: "j".into() };
    let mut it = item(Some("x"));
    assert!(matches!(
        grading(&it, Grader::Exact, Some(&judge), "x"),
        Grading::Graded(Some(true))
    ));
    it.grader = Some(Grader::Judge);
    assert!(matches!(
        grading(&it, Grader::Exact, Some(&judge), "x"),
        Grading::AskJudge(r) if r.model == "j"
    ));
    assert!(matches!(grading(&it, Grader::Exact, None, "x"), Grading::Graded(None)));
    it.grader = Some(Grader::Capture);
    assert!(matches!(
        grading(&it, Grader::Judge, Some(&judge), "x"),
        Grading::Graded(None)
    ));
}

#[test]
fn failed_requests_are_outputs() {
    assert_eq!(failed_output("timeout"), "[error: timeout]");
}

#[test]
fn report_restores_the_order_of_the_set() {
    let set = EvalSet {
        name: "s".into(),
        system_prompt: None,
        temperature: Float64 { bits: 0 },
        items: vec![named("a"), named("b"), named("c"), named("b")],
    };
    let r = report(
        &set,
        "m",
        vec![
            result("c", "1", Some(true)),
            result("zzz", "2", None),
            result("b", "3", Some(false)),
            result("a", "4", None),
            result("b", "5", Some(true)),
        ],
    );
    let order: Vec<&str> = r.items.iter().map(|i| i.output.as_str()).collect();
    assert_eq!(order, vec!["4", "3", "5", "1", "2"]);
    assert_eq!((r.n, r.scored, r.passed), (5, 3, 2));
    assert_eq!(r.mean_score, Some(Ratio { part: 2, whole: 3 }));
    assert_eq!((r.set.as_str(), r.model.as_str()), ("s", "m"));
}

#[test]
fn nothing_graded_has_no_mean() {
    let set = EvalSet {
        name: "s".into(),
        system_prompt: None,
        temperature: Float64 { bits: 0 },
        items: vec![named("a")],
    };
    let r = report(&set, "m", vec![result("a", "x", None)]);
    assert_eq!((r.n, r.scored, r.passed), (1, 0, 0));
    assert_eq!(r.mean_score, None);
    assert_eq!(report(&set, "m", vec![]).n, 0);
}
