use gene_core::llm::types::{ChatChunk, Choice, Delta};
use gene_core::llm::StreamEvent;
use gene_core::provider::session::{request_failed, server_refused};
use gene_core::provider::{listed_models, ChatSession, Provider, ProviderKind};
use gene_core::json::Node;
use gene_core::tools::ToolCall;
use gene_core::transcript::{report_fields, shown_text, Field, Transcript};

fn chunk(content: Option<&str>, reasoning: Option<&str>) -> Option<ChatChunk> {
    Some(ChatChunk {
        choices: vec![Choice {
            delta: Delta {
                content: content.map(String::from),
                reasoning: reasoning.map(String::from),
            },
        }],
    })
}

#[test]
fn discovery_urls() {
    let url = "http://h:1/v1/chat/completions";
    let ollama = Provider::new(ProviderKind::Ollama, url.into(), "k".into());
    assert_eq!(ollama.discovery_url(), "http://h:1/api/tags");
    assert!(!ollama.discovery_needs_key());
    let open = Provider::new(ProviderKind::OpenAiCompat, url.into(), "k".into());
    assert_eq!(open.discovery_url(), "http://h:1/v1/models");
    assert!(open.discovery_needs_key());
    let odd = Provider::new(ProviderKind::Ollama, "http://h".into(), "k".into());
    assert_eq!(odd.discovery_url(), "http://h/api/tags");
    assert_eq!(odd.endpoint(), "http://h");
}

#[test]
fn listed_names() {
    let ollama = Provider::new(ProviderKind::Ollama, "u".into(), "k".into());
    assert_eq!(
        ollama.list_models(r#"{"models":[{"name":"a"},{"nom":"b"},{"name":3},{"name":"c\n"}]}"#),
        vec!["a", "c\n"]
    );
    assert!(ollama.list_models(r#"{"data":[{"id":"a"}]}"#).is_empty());
    assert!(ollama.list_models("no json").is_empty());
    assert!(ollama.list_models(r#"{"models":{}}"#).is_empty());
    let open = Provider::new(ProviderKind::OpenAiCompat, "u".into(), "k".into());
    assert_eq!(open.list_models(r#"{"data":[{"id":"gpt-x"}]}"#), vec!["gpt-x"]);
    let node = Node::Object(vec![("data".into(), "[{\"id\":\"z\"}]".into())]);
    assert_eq!(listed_models(ProviderKind::OpenAiCompat, &node), vec!["z"]);
    assert!(listed_models(ProviderKind::Ollama, &node).is_empty());
}

#[test]
fn frames_of_a_reply() {
    let s = ChatSession::new(true);
    let (ev, s) = s.on_frame("{..}", chunk(Some("a<thi"), Some("hm")));
    assert_eq!(
        ev,
        vec![
            StreamEvent::ThinkDelta("hm".into()),
            StreamEvent::AnswerDelta("a".into())
        ]
    );
    let (ev, s) = s.on_frame(": keep-alive", None);
    assert!(ev.is_empty() && s.is_open());
    let (ev, s) = s.on_frame("{}", Some(ChatChunk { choices: vec![] }));
    assert!(ev.is_empty() && s.is_open());
    let (ev, s) = s.on_frame("[DONE]", chunk(Some("never"), None));
    assert!(ev.is_empty() && !s.is_open());
    assert_eq!(
        s.finish(),
        vec![StreamEvent::AnswerDelta("<thi".into()), StreamEvent::Done]
    );
}

#[test]
fn broken_stream_is_told() {
    let s = ChatSession::new(false);
    let (ev, s) = s.on_error("reset");
    assert_eq!(ev, StreamEvent::Error("stream error: reset".into()));
    assert!(!s.is_open());
    assert_eq!(s.finish(), vec![StreamEvent::Done]);
    assert_eq!(
        request_failed("refused"),
        StreamEvent::Error("request failed: refused".into())
    );
    assert_eq!(
        server_refused("404"),
        StreamEvent::Error("server returned an error: 404".into())
    );
    assert!(Delta::default().content.is_none());
}

fn events() -> Vec<StreamEvent> {
    vec![
        StreamEvent::ThinkStart,
        StreamEvent::ThinkDelta("t".into()),
        StreamEvent::ThinkEnd,
        StreamEvent::AnswerDelta("a".into()),
        StreamEvent::ToolCall(ToolCall { command: "ls".into() }),
        StreamEvent::AnswerDelta("b".into()),
        StreamEvent::Done,
    ]
}

#[test]
fn transcript_gathers() {
    let t = Transcript::of(events());
    assert_eq!((t.answer.as_str(), t.thinking.as_str()), ("ab", "t"));
    assert_eq!(t.commands, vec!["ls"]);
    assert!(t.error.is_none());
    assert_eq!(t.completion(), Ok("ab".to_string()));
    let mut t = Transcript::of(events());
    t.add_event(StreamEvent::Error("e1".into()));
    t.add_event(StreamEvent::Error("e2".into()));
    assert_eq!(t.completion(), Err("e2".to_string()));
}

#[test]
fn transcript_reports_what_is_not_empty() {
    let full = report_fields("m".into(), Transcript::of(events()));
    let names: Vec<&str> = full
        .iter()
        .map(|f| match f {
            Field::Text(n, _) => *n,
            Field::List(n, _) => *n,
        })
        .collect();
    assert_eq!(names, vec!["model", "answer", "thinking", "commands"]);
    let bare = report_fields("m".into(), Transcript::new());
    assert_eq!(bare.len(), 2);
    assert!(matches!(&bare[0], Field::Text("model", m) if m == "m"));
    assert!(matches!(&bare[1], Field::Text("answer", a) if a.is_empty()));
    let failed = report_fields(
        "m".into(),
        Transcript::of(vec![StreamEvent::Error("e".into())]),
    );
    assert!(matches!(&failed[2], Field::Text("error", e) if e == "e"));
}

#[test]
fn events_are_shown_as_they_come() {
    let shown: String = events().iter().map(shown_text).collect();
    assert_eq!(shown, "a\n[suggested command]\nls\nb");
}
