use gene_core::clock::Timestamp;
use gene_core::commands::{model_lines, run_details, run_line};
use gene_core::dataset::{ChatMsg, Meta, TrainingExample};
use gene_core::eval::{EvalReport, Ratio};
use gene_core::ids::Uuid;
use gene_core::llm::types::Float64;
use gene_core::name_map::NameMap;
use gene_core::runs::{
    run_id, series, DatasetRef, Metric, Number, Run, RunKind, RunStatus, RunStore,
};

fn at(secs: i64) -> Timestamp {
    Timestamp::from_parts(secs, 0).unwrap()
}

fn run(secs: i64, bits: u128) -> Run {
    Run::at(
        at(secs),
        Uuid { bits },
        RunKind::Train,
        "m".into(),
        "{}".into(),
        None,
        "0.2.0".into(),
    )
}

fn example(conversation: &str, edited: bool) -> TrainingExample {
    TrainingExample {
        messages: vec![ChatMsg { role: "user".into(), content: "hi".into() }],
        meta: Meta {
            conversation_id: conversation.into(),
            model: "m".into(),
            created_at: at(0),
            edited,
            source: "edit".into(),
            original_assistant: None,
        },
    }
}

#[test]
fn new_run_is_running() {
    let r = run(1_781_792_553, 0xa1b2_c3d4_0000_0000_0000_0000_0000_0000);
    assert_eq!(r.id, "20260618T142233-a1b2c3");
    assert_eq!((r.kind, r.status), (RunKind::Train, RunStatus::Running));
    assert!(r.finished_at.is_none() && r.error.is_none() && r.dataset.is_none());
    assert!(r.summary.is_empty());
    assert_eq!((r.base_model.as_str(), r.gene_version.as_str()), ("m", "0.2.0"));
    let store = RunStore::new("/runs".into());
    assert_eq!(store.root(), "/runs");
    let minted = store.create(RunKind::Eval, "b".into(), "{}".into(), None, "v".into());
    assert_eq!(minted.id.len(), 22);
    assert!(minted.id.starts_with(&minted.created_at.compact_text()));
    assert_eq!(run_id("s", "0123456789"), "s-012345");
}

#[test]
fn ids_of_later_runs_sort_later() {
    let early = run(1_781_792_553, u128::MAX);
    let late = run(1_781_792_554, 0);
    assert!(early.id < late.id);
}

#[test]
fn runs_are_listed_newest_first() {
    let store = RunStore::new("r".into());
    let found = vec![run(5, 1), run(9, 2), run(5, 3), run(7, 4)];
    let order: Vec<(i64, String)> = store
        .list(found)
        .into_iter()
        .map(|r| (r.created_at.secs(), r.id))
        .collect();
    assert_eq!(
        order.iter().map(|o| o.0).collect::<Vec<_>>(),
        vec![9, 7, 5, 5]
    );
    assert_eq!(order[2].1, run(5, 1).id);
    assert!(store.list(vec![]).is_empty());
}

#[test]
fn stale_runs_are_aborted() {
    let store = RunStore::new("r".into());
    let mut finished = run(1, 1);
    finished.status = RunStatus::Succeeded;
    let mut failing = run(2, 2);
    failing.error = Some("why".into());
    let mut runs = vec![finished, run(3, 3), failing];
    assert_eq!(store.reconcile(&mut runs, at(10)), vec![1, 2]);
    assert_eq!(runs[0].status, RunStatus::Succeeded);
    assert!(runs[0].error.is_none() && runs[0].finished_at.is_none());
    assert_eq!(runs[1].status, RunStatus::Aborted);
    assert_eq!(
        runs[1].error.as_deref(),
        Some("process exited before the run finished")
    );
    assert_eq!(runs[1].finished_at, Some(at(10)));
    assert_eq!(runs[2].error.as_deref(), Some("why"));
    assert!(store.reconcile(&mut runs, at(11)).is_empty());
}

#[test]
fn dataset_provenance() {
    let d = DatasetRef::of(
        "p",
        "text",
        &[example("c2", true), example("c1", false), example("c2", false)],
    );
    assert_eq!((d.n_examples, d.n_edited), (3, 1));
    assert_eq!(d.source_conversations, vec!["c1", "c2"]);
    assert_eq!(d.path, "p");
    assert_eq!(d.content_hash.len(), 16);
    let e = DatasetRef::from_dataset("q", "x\n\nskip\ny", |l: &String| {
        if l == "skip" { None } else { Some(example(l, true)) }
    });
    assert_eq!((e.n_examples, e.n_edited), (2, 2));
    assert_eq!(e.source_conversations, vec!["x", "y"]);
}

#[test]
fn eval_run_is_summed_up() {
    let report = EvalReport {
        set: "s".into(),
        model: "m".into(),
        n: 5,
        scored: 3,
        passed: 2,
        mean_score: Some(Ratio { part: 2, whole: 3 }),
        items: vec![],
    };
    let mut r = run(1, 1);
    r.finish_eval(&report, at(4));
    assert_eq!(r.status, RunStatus::Succeeded);
    assert_eq!(r.finished_at, Some(at(4)));
    assert_eq!(r.summary.name_list(), vec!["mean_score", "n", "passed"]);
    assert_eq!(r.summary.get("n"), Some(&Number::Count(5)));
    assert_eq!(r.summary.get("passed"), Some(&Number::Count(2)));
    assert_eq!(
        r.summary.get("mean_score"),
        Some(&Number::Ratio(Ratio { part: 2, whole: 3 }))
    );
    let ungraded = EvalReport { mean_score: None, ..report };
    r.finish_eval(&ungraded, at(5));
    assert_eq!(r.summary.name_list(), vec!["n", "passed"]);
}

#[test]
fn series_of_a_metric() {
    let point = |step: u64, name: &str, bits: u64| {
        let mut fields = NameMap::new();
        fields.insert(name.to_string(), Float64 { bits });
        Metric { step, at: at(0), fields }
    };
    let metrics = vec![point(10, "train_loss", 1), point(10, "val_loss", 2), point(20, "train_loss", 3)];
    assert_eq!(
        series(&metrics, "train_loss"),
        vec![(10, Float64 { bits: 1 }), (20, Float64 { bits: 3 })]
    );
    assert!(series(&metrics, "other").is_empty());
}

#[test]
fn run_lines() {
    let r = run(1_781_792_553, 0);
    assert_eq!(
        run_line(&r, "n=1"),
        "20260618T142233-000000  Train  Running  m  n=1"
    );
}

#[test]
fn run_is_shown() {
    let mut r = run(1_781_792_553, 0);
    assert_eq!(
        run_details(&r, "", 0),
        vec![
            "id:        20260618T142233-000000",
            "kind:      Train",
            "status:    Running",
            "base:      m",
            "created:   2026-06-18 14:22:33 UTC",
            "metrics:   0 points",
        ]
    );
    r.dataset = Some(DatasetRef::of("p", "", &[example("c", true), example("c", false)]));
    r.summary.insert("n".into(), Number::Count(5));
    r.abort_stale(at(1_781_792_554));
    assert_eq!(
        run_details(&r, "n=5.0000", 12),
        vec![
            "id:        20260618T142233-000000",
            "kind:      Train",
            "status:    Aborted",
            "base:      m",
            "created:   2026-06-18 14:22:33 UTC",
            "finished:  2026-06-18 14:22:34 UTC",
            "dataset:   2 examples (1 edited), hash cbf29ce484222325",
            "summary:   n=5.0000",
            "metrics:   12 points",
            "error:     process exited before the run finished",
        ]
    );
}

#[test]
fn models_are_printed() {
    assert_eq!(model_lines(vec!["a".into(), "b".into()], "e"), vec!["a", "b"]);
    assert_eq!(model_lines(vec![], "http://h"), vec!["no models found at http://h"]);
}

#[test]
fn training_run_is_settled() {
    let mut r = run(1, 1);
    r.finish_train(None, at(3));
    assert_eq!((r.status, r.finished_at), (RunStatus::Succeeded, Some(at(3))));
    assert!(r.error.is_none());
    let mut r = run(1, 1);
    r.finish_train(Some("out of memory".into()), at(4));
    assert_eq!(r.status, RunStatus::Failed);
    assert_eq!(r.error.as_deref(), Some("out of memory"));
}

fn decoded(line: &String) -> Option<TrainingExample> {
    let value: serde_json::Value = serde_json::from_str(line).ok()?;
    let meta = value.get("meta")?;
    let text = |v: &serde_json::Value, key: &str| Some(v.get(key)?.as_str()?.to_string());
    let at = chrono::DateTime::parse_from_rfc3339(&text(meta, "created_at")?).ok()?;
    let mut messages = Vec::new();
    for m in value.get("messages")?.as_array()? {
        messages.push(ChatMsg { role: text(m, "role")?, content: text(m, "content")? });
    }
    Some(TrainingExample {
        messages,
        meta: Meta {
            conversation_id: text(meta, "conversation_id")?,
            model: text(meta, "model")?,
            created_at: Timestamp::from_parts(at.timestamp(), at.timestamp_subsec_nanos())?,
            edited: meta.get("edited")?.as_bool()?,
            source: text(meta, "source")?,
            original_assistant: text(meta, "original_assistant"),
        },
    })
}

#[test]
fn dataset_ref_reads_provenance() {
    let lines = [
        r#"{"messages":[{"role":"user","content":"hi"}],"meta":{"conversation_id":"c1","model":"m","created_at":"2026-01-01T00:00:00Z","edited":true,"source":"edit"}}"#,
        "\n",
        r#"{"messages":[{"role":"user","content":"hey"}],"meta":{"conversation_id":"c2","model":"m","created_at":"2026-01-01T00:00:00Z","edited":false,"source":"accept"}}"#,
        "\n",
    ]
    .concat();
    let d = DatasetRef::from_dataset("dataset.jsonl", &lines, decoded);
    assert_eq!(d.n_examples, 2);
    assert_eq!(d.n_edited, 1);
    assert_eq!(
        d.source_conversations,
        vec!["c1".to_string(), "c2".to_string()]
    );
    assert!(!d.content_hash.is_empty());
}

#[test]
fn reconcile_aborts_only_stale_running() {
    let store = RunStore::new("runs".into());
    let stale = store.create(RunKind::Train, "m".into(), "{}".into(), None, "0.2.0".into());
    let mut finished = store.create(RunKind::Eval, "m".into(), "{}".into(), None, "0.2.0".into());
    finished.status = RunStatus::Succeeded;

    let mut runs = vec![stale, finished];
    assert_eq!(store.reconcile(&mut runs, at(9)).len(), 1);
    assert_eq!(runs[0].status, RunStatus::Aborted);
    assert!(runs[0].error.is_some());
    assert_eq!(runs[1].status, RunStatus::Succeeded);
}
