use gene_core::chat::{build_wire, parse_mode, Mode};
use gene_core::clock::Timestamp;
use gene_core::config::Config;
use gene_core::ids::Uuid;
use gene_core::model::{Conversation, Message, Role, TrainingExample};

fn at(secs: i64) -> Timestamp {
    Timestamp::from_parts(secs, 0).unwrap()
}

fn said(role: Role, content: &str) -> Message {
    Message::at(Uuid { bits: 1 }, at(0), role, content.to_string())
}

fn conversation() -> Conversation {
    let mut c = Conversation::at(Uuid { bits: 0xab }, at(5), "m".into(), "sys".into());
    c.push_at(said(Role::User, "hi"), at(6));
    c.push_at(said(Role::System, "ignored"), at(6));
    let mut tool = said(Role::Tool, "out");
    tool.command = Some("ls".into());
    c.push_at(tool, at(6));
    c.push_at(said(Role::Tool, " "), at(6));
    c.push_at(said(Role::Assistant, " "), at(6));
    c.push_at(said(Role::Assistant, "yo"), at(7));
    c
}

#[test]
fn new_messages_are_plain() {
    let m = Message::new(Role::User, "x".to_string());
    assert_eq!((m.role, m.content.as_str(), m.edited), (Role::User, "x", false));
    assert!(m.original_content.is_none() && m.thinking.is_none() && m.command.is_none());
    assert!(m.exit_code.is_none() && !m.think_collapsed);
    assert_ne!(m.id, Message::new(Role::User, "x".to_string()).id);
    let t = Message::tool("ls".into(), "out".into(), Some(2));
    assert_eq!((t.role, t.content.as_str()), (Role::Tool, "out"));
    assert_eq!((t.command.as_deref(), t.exit_code), (Some("ls"), Some(2)));
}

#[test]
fn first_user_line_is_the_title() {
    let mut c = Conversation::new("m".into(), "s".into());
    assert_eq!(c.title, "new conversation");
    assert!(c.is_silent());
    c.push(said(Role::Assistant, "hello"));
    assert_eq!(c.title, "new conversation");
    assert!(!c.is_silent());
    let long = "é".repeat(70);
    assert_eq!(c.push(said(Role::User, &format!("{long}\r\nmore"))), 1);
    assert_eq!(c.title, "é".repeat(60));
    c.push(said(Role::User, "later"));
    assert_eq!(c.title, "é".repeat(60));
    assert_eq!(c.messages.len(), 3);
    let mut empty = Conversation::new("m".into(), "s".into());
    empty.push(said(Role::User, ""));
    assert_eq!(empty.title, "");
}

#[test]
fn examples_are_self_contained() {
    let c = conversation();
    let e = TrainingExample::at(&c, 5, at(9)).unwrap();
    let got: Vec<(&str, &str)> = e
        .messages
        .iter()
        .map(|m| (m.role.as_str(), m.content.as_str()))
        .collect();
    assert_eq!(
        got,
        vec![
            ("system", "sys"),
            ("user", "hi"),
            ("user", "[output of `ls`]\nout"),
            ("user", "[output of ``]\n "),
            ("assistant", "yo"),
        ]
    );
    assert_eq!(e.meta.conversation_id, "00000000-0000-0000-0000-0000000000ab");
    assert_eq!((e.meta.model.as_str(), e.meta.source.as_str()), ("m", "accept"));
    assert_eq!((e.meta.edited, e.meta.created_at.secs()), (false, 9));
    assert!(e.meta.original_assistant.is_none());
}

#[test]
fn only_replies_are_lessons() {
    let mut c = conversation();
    assert!(TrainingExample::from_conversation(&c, 0).is_none());
    assert!(TrainingExample::from_conversation(&c, 4).is_none());
    assert!(TrainingExample::from_conversation(&c, 6).is_none());
    c.messages[5].edited = true;
    c.messages[5].original_content = Some("raw".into());
    let e = TrainingExample::from_conversation(&c, 5).unwrap();
    assert_eq!((e.meta.source.as_str(), e.meta.edited), ("edit", true));
    assert_eq!(e.meta.original_assistant.as_deref(), Some("raw"));
}

#[test]
fn wire_skips_what_says_nothing() {
    let c = conversation();
    let wire = build_wire("prompt", &c.messages);
    let got: Vec<(&str, &str)> = wire
        .iter()
        .map(|m| (m.role.as_str(), m.content.as_str()))
        .collect();
    assert_eq!(
        got,
        vec![
            ("system", "prompt"),
            ("user", "hi"),
            ("user", "[output of `ls`]\nout"),
            ("assistant", "yo"),
        ]
    );
}

#[test]
fn personas() {
    let cfg = Config::default();
    assert_eq!(Mode::Assistant.label(), "assistant (runs commands)");
    assert_eq!(Mode::Tech.label(), "tech-guy (talks, no commands)");
    assert_eq!(Mode::Convo.label(), "convo (casual chat)");
    assert!(Mode::Assistant.detect_commands());
    assert!(!Mode::Tech.detect_commands() && !Mode::Convo.detect_commands());
    assert_eq!(Mode::Assistant.system_prompt(&cfg, "own"), "own");
    assert_eq!(Mode::Tech.system_prompt(&cfg, "own"), cfg.tech_system_prompt);
    assert_eq!(Mode::Convo.system_prompt(&cfg, "own"), cfg.convo_system_prompt);
    assert_eq!(parse_mode("assistant").unwrap(), Mode::Assistant);
    assert_eq!(parse_mode("tech").unwrap(), Mode::Tech);
    assert_eq!(parse_mode("convo").unwrap(), Mode::Convo);
    assert_eq!(
        parse_mode("x").unwrap_err().message(),
        "unknown mode 'x' (expected assistant | tech | convo)"
    );
}
