use gene_core::chat::Mode;
use gene_core::clock::Timestamp;
use gene_core::commands::{
    check_chat, ensure_provider_resolvable, one_shot_request, provider_names, ChatRefused, Overrides,
};
use gene_core::config::Config;
use gene_core::doctor::{cmd_version, report, Check, Printed, Probes};
use gene_core::ids::Uuid;
use gene_core::llm::types::Float64;
use gene_core::llm::StreamEvent;
use gene_core::model::{Conversation, Message, Role};
use gene_core::persist::{
    conversation_file, conversation_tmp_file, dataset_tmp_file, entry_label, list_conversations,
};
use gene_core::render::segments;
use gene_core::session::{Action, Busy, Session, Stamp, TRAIN_LOG_MAX};
use gene_core::tools::{ExecResult, ToolCall};
use gene_core::train::TrainMsg;

fn at(secs: i64) -> Timestamp {
    Timestamp::from_parts(secs, 0).unwrap()
}

fn stamp(n: u128) -> Stamp {
    Stamp { id: Uuid { bits: n }, at: at(n as i64) }
}

fn session() -> Session {
    let mut cfg = Config::default();
    cfg.system_prompt = "sys".into();
    cfg.agent.max_tool_rounds = 1;
    Session::new(cfg, stamp(1))
}

fn asked(text: &str) -> Session {
    let mut s = session();
    s.input = text.into();
    s.submit_input(stamp(2), stamp(3));
    s
}

fn tool(command: &str) -> StreamEvent {
    StreamEvent::ToolCall(ToolCall { command: command.into() })
}

#[test]
fn submitting_starts_a_turn() {
    let mut s = session();
    s.input = " hello \n".into();
    s.tool_rounds = 5;
    let actions = s.submit_input(stamp(2), stamp(3));
    assert_eq!(actions.len(), 1);
    match &actions[0] {
        Action::Stream { request, detect_commands } => {
            assert!(*detect_commands);
            let got: Vec<(&str, &str)> = request
                .messages
                .iter()
                .map(|m| (m.role.as_str(), m.content.as_str()))
                .collect();
            assert_eq!(got, vec![("system", "sys"), ("user", "hello")]);
        }
        other => panic!("{other:?}"),
    }
    assert_eq!((s.busy, s.streaming_index, s.tool_rounds), (Busy::Streaming, Some(1), 0));
    assert_eq!(s.input, "");
    assert_eq!(s.conv.title, "hello");
    assert_eq!(s.conv.messages[1].content, "");
    assert_eq!(s.conv.updated_at, at(3));
}

#[test]
fn blank_input_is_not_sent() {
    let mut s = session();
    s.input = " \n".into();
    assert!(s.submit_input(stamp(2), stamp(3)).is_empty());
    assert_eq!(s.input, " \n");
    assert!(s.conv.messages.is_empty());
    s.drop_entered_feed();
    assert_eq!(s.input, " ");
    s.drop_entered_feed();
    assert_eq!(s.input, " ");
}

#[test]
fn other_personas_do_not_look_for_commands() {
    let mut s = session();
    s.mode = Mode::Tech;
    s.input = "x".into();
    let actions = s.submit_input(stamp(2), stamp(3));
    assert!(matches!(
        &actions[0],
        Action::Stream { detect_commands: false, request } if request.messages[0].content == s.config.tech_system_prompt
    ));
}

#[test]
fn a_reply_streams_in() {
    let mut s = asked("q");
    assert!(s.on_stream(StreamEvent::ThinkStart).is_empty());
    assert_eq!(s.conv.messages[1].thinking.as_deref(), Some(""));
    s.on_stream(StreamEvent::ThinkDelta("hm".into()));
    s.on_stream(StreamEvent::ThinkEnd);
    s.on_stream(StreamEvent::AnswerDelta("an".into()));
    s.on_stream(StreamEvent::AnswerDelta("swer".into()));
    assert_eq!(s.conv.messages[1].content, "answer");
    assert_eq!(s.conv.messages[1].thinking.as_deref(), Some("hm"));
    let actions = s.on_stream(StreamEvent::Done);
    assert!(matches!(
        actions.as_slice(),
        [Action::AbortStream, Action::SaveConversation]
    ));
    assert_eq!((s.busy, s.status.as_str(), s.streaming_index), (Busy::Idle, "ready", None));
    assert_eq!(s.conv.messages.len(), 2);
}

#[test]
fn an_empty_reply_is_dropped() {
    let mut s = asked("q");
    s.on_stream(StreamEvent::AnswerDelta("  ".into()));
    s.on_stream(StreamEvent::Done);
    assert_eq!(s.conv.messages.len(), 1);
    let mut s = asked("q");
    s.on_stream(StreamEvent::ThinkStart);
    s.on_stream(StreamEvent::Done);
    assert_eq!(s.conv.messages.len(), 2);
    let mut s = asked("q");
    let actions = s.on_stream(StreamEvent::Error("boom".into()));
    assert!(matches!(actions.as_slice(), [Action::AbortStream]));
    assert_eq!((s.status.as_str(), s.busy), ("error: boom", Busy::Idle));
    assert_eq!(s.conv.messages.len(), 1);
    let mut s = asked("q");
    assert!(matches!(s.stop().as_slice(), [Action::AbortStream]));
    assert_eq!((s.status.as_str(), s.busy), ("stopped", Busy::Idle));
}

#[test]
fn commands_await_confirmation() {
    let mut s = asked("q");
    s.on_stream(StreamEvent::AnswerDelta("sure".into()));
    let actions = s.on_stream(tool("ls"));
    assert!(matches!(actions.as_slice(), [Action::AbortStream]));
    assert_eq!(s.conv.messages[1].content, "sure\n```run\nls\n```\n");
    assert_eq!(s.pending_command.as_deref(), Some("ls"));
    assert_eq!((s.busy, s.status.as_str()), (Busy::Idle, "command proposed — review and run"));
    let run = s.confirm_command();
    assert!(matches!(
        run.as_slice(),
        [Action::Run { command, timeout_secs: 30 }] if command == "ls"
    ));
    assert_eq!((s.busy, s.status.as_str()), (Busy::Executing, "running: ls"));
    assert!(s.pending_command.is_none());
    assert!(s.confirm_command().is_empty());
}

#[test]
fn auto_run_heeds_the_denylist() {
    let mut s = asked("q");
    s.auto_run = true;
    let actions = s.on_stream(tool("ls"));
    assert!(matches!(
        actions.as_slice(),
        [Action::AbortStream, Action::Run { command, .. }] if command == "ls"
    ));
    assert_eq!(s.conv.messages[1].content, "```run\nls\n```\n");
    let mut s = asked("q");
    s.auto_run = true;
    let actions = s.on_stream(tool("sudo ls"));
    assert!(matches!(actions.as_slice(), [Action::AbortStream]));
    assert_eq!(s.pending_command.as_deref(), Some("sudo ls"));
    assert_eq!(s.status, "command matches denylist — review carefully");
}

#[test]
fn outcomes_are_told_until_the_rounds_are_up() {
    let res = || ExecResult {
        command: "ls".into(),
        stdout: "out".into(),
        stderr: String::new(),
        exit_code: Some(0),
        timed_out: false,
    };
    let mut s = asked("q");
    s.on_stream(tool("ls"));
    s.confirm_command();
    let actions = s.on_exec(res(), stamp(4), stamp(5));
    assert!(matches!(actions.as_slice(), [Action::Stream { .. }]));
    assert_eq!(s.tool_rounds, 1);
    assert_eq!(s.conv.messages[2].content, "out\n");
    assert_eq!(s.conv.messages[2].command.as_deref(), Some("ls"));
    s.on_stream(tool("ls"));
    s.confirm_command();
    let actions = s.on_exec(res(), stamp(6), stamp(7));
    assert!(matches!(actions.as_slice(), [Action::SaveConversation]));
    assert_eq!((s.busy, s.status.as_str()), (Busy::Idle, "reached max tool rounds"));
}

#[test]
fn denial_is_told() {
    let mut s = asked("q");
    s.on_stream(tool("ls"));
    let actions = s.deny_command(stamp(4), stamp(5));
    assert!(matches!(actions.as_slice(), [Action::Stream { .. }]));
    assert_eq!(s.conv.messages[2].content, "[command denied by user]");
    assert_eq!(s.conv.messages[2].role, Role::Tool);
    assert!(s.pending_command.is_none());
}

#[test]
fn edits_become_lessons() {
    let mut s = asked("q");
    s.on_stream(StreamEvent::AnswerDelta("wrong".into()));
    s.on_stream(StreamEvent::Done);
    s.start_edit(1);
    assert_eq!((s.edit_original.as_str(), s.edit_buf.as_str()), ("wrong", ""));
    assert!(s.commit_edit(at(9)).is_empty());
    assert_eq!(s.status, "empty — edit discarded");
    s.start_edit(1);
    s.edit_buf = " right ".into();
    let actions = s.commit_edit(at(9));
    match actions.as_slice() {
        [Action::AppendExample(e), Action::SaveConversation] => {
            assert_eq!(e.messages.last().unwrap().content, "right");
            assert_eq!(e.meta.original_assistant.as_deref(), Some("wrong"));
            assert_eq!((e.meta.source.as_str(), e.meta.created_at), ("edit", at(9)));
        }
        other => panic!("{other:?}"),
    }
    assert_eq!((s.status.as_str(), s.editing), ("reply edited", None));
    s.on_recorded(false);
    assert_eq!(s.status, "reply edited");
    s.on_recorded(true);
    assert_eq!(s.status, "reply edited and added to training dataset");
    s.start_edit(1);
    s.edit_buf = "better".into();
    s.commit_edit(at(10));
    assert_eq!(s.conv.messages[1].content, "better");
    assert_eq!(s.conv.messages[1].original_content.as_deref(), Some("wrong"));
    assert!(s.commit_edit(at(11)).is_empty());
    // What the user said is corrected, but is no lesson.
    s.start_edit(0);
    s.edit_buf = "q2".into();
    assert!(matches!(s.commit_edit(at(12)).as_slice(), [Action::SaveConversation]));
}

#[test]
fn fine_tunes_are_reported() {
    let mut s = session();
    s.train_log = vec!["old".into()];
    assert!(matches!(s.start_training().as_slice(), [Action::Train]));
    assert!(s.train_log.is_empty());
    assert_eq!((s.busy, s.status.as_str()), (Busy::Training, "starting fine-tune…"));
    assert!(s.start_training().is_empty());
    for i in 0..TRAIN_LOG_MAX + 2 {
        s.on_train(TrainMsg::Log(format!("{i}")));
    }
    assert_eq!(s.train_log.len(), TRAIN_LOG_MAX);
    assert_eq!(s.train_log[0], "2");
    s.on_train(TrainMsg::Done {
        ok: false,
        message: "no".into(),
        new_base_url: Some("u".into()),
        new_model: Some("m".into()),
    });
    assert_eq!((s.busy, s.status.as_str()), (Busy::Idle, "no"));
    assert_ne!(s.config.model, "m");
    s.on_train(TrainMsg::Done {
        ok: true,
        message: "yes".into(),
        new_base_url: None,
        new_model: Some("m".into()),
    });
    assert_eq!((s.config.model.as_str(), s.conv.model.as_str()), ("m", "m"));
    assert_eq!(s.config.base_url, Config::default().base_url);
}

#[test]
fn conversations_come_and_go() {
    let mut s = asked("q");
    assert!(matches!(s.new_conversation(stamp(8)).as_slice(), [Action::AbortStream]));
    assert!(s.conv.messages.is_empty());
    assert_eq!((s.streaming_index, s.busy, s.status.as_str()), (None, Busy::Idle, "new conversation"));
    let other = Conversation::at(Uuid { bits: 9 }, at(9), "m".into(), "p".into());
    assert!(matches!(s.on_loaded(Ok(other)).as_slice(), [Action::AbortStream]));
    assert_eq!((s.conv.id, s.status.as_str()), (Uuid { bits: 9 }, "conversation loaded"));
    assert!(s.on_loaded(Err("gone".into())).is_empty());
    assert_eq!(s.status, "load failed: gone");
    s.on_save_failed("full");
    assert_eq!(s.status, "save failed: full");
    s.config.system_prompt = "new".into();
    s.apply_settings();
    assert_eq!(s.conv.system_prompt, "new");
    s.choose_model("z".into());
    assert_eq!((s.config.model.as_str(), s.conv.model.as_str(), s.status.as_str()), ("z", "z", "model → z"));
    s.on_models(vec![]);
    assert_eq!(s.status, "no models found (is Ollama running?)");
    s.on_models(vec!["a".into()]);
    assert_eq!(s.models, Some(vec!["a".to_string()]));
}

#[test]
fn fresh_stamps_differ() {
    assert_ne!(Stamp::fresh().id, Stamp::fresh().id);
}

#[test]
fn saved_conversations_are_listed_newest_first() {
    let conv = |id: u128, secs: i64, title: &str| {
        let mut c = Conversation::at(Uuid { bits: id }, at(secs), "m".into(), "s".into());
        c.title = title.into();
        c
    };
    let list = list_conversations(&vec![
        conv(1, 100, "a"),
        conv(2, 300, "b"),
        conv(3, 100, "c"),
        conv(4, 200, "d"),
    ]);
    let titles: Vec<&str> = list.iter().map(|e| e.1.as_str()).collect();
    assert_eq!(titles, vec!["b", "d", "a", "c"]);
    assert_eq!(list[0].0, "00000000-0000-0000-0000-000000000002");
    assert_eq!(list[0].2, "1970-01-01T00:05:00+00:00");
}

#[test]
fn file_names() {
    assert_eq!(conversation_file("x"), "x.json");
    assert_eq!(conversation_tmp_file("x"), ".x.json.tmp");
    assert_eq!(dataset_tmp_file("dataset.jsonl"), ".dataset.jsonl.tmp");
}

#[test]
fn entry_labels() {
    assert_eq!(entry_label("t", "2026-06-18T14:22:33+00:00"), "2026-06-18\nt");
    assert_eq!(entry_label("", "2026"), "2026\n(untitled)");
    assert_eq!(entry_label("t", "123456789é"), "123456789é\nt");
    assert_eq!(entry_label("t", "1234567890"), "1234567890\nt");
}

#[test]
fn code_is_told_from_prose() {
    let got: Vec<(bool, String)> = segments("a\nb\n\n  ```rust\nlet x;\n\n```\n\nc")
        .into_iter()
        .map(|s| (s.code, s.content))
        .collect();
    assert_eq!(
        got,
        vec![
            (false, "a\nb".to_string()),
            (true, "let x;".to_string()),
            (false, "\nc".to_string()),
        ]
    );
    assert!(segments("").is_empty());
    assert!(segments("```\n```").is_empty());
    let open: Vec<(bool, String)> = segments("```\nx")
        .into_iter()
        .map(|s| (s.code, s.content))
        .collect();
    assert_eq!(open, vec![(true, "x".to_string())]);
}

#[test]
fn versions() {
    let printed = |success: bool, stdout: &str, stderr: &str| {
        cmd_version(Some(Printed { success, stdout: stdout.into(), stderr: stderr.into() }))
    };
    assert_eq!(printed(true, " v1 \nmore", "x").as_deref(), Some("v1 "));
    assert_eq!(printed(true, " \n", " v2\n").as_deref(), Some("v2"));
    assert_eq!(printed(true, "", ""), None);
    assert_eq!(printed(false, "v1", ""), None);
    assert_eq!(cmd_version(None), None);
}

#[test]
fn doctor_report() {
    let cfg = Config::default();
    let sick = report(
        &cfg,
        Probes { arch: None, ollama: None, reachable: false, python: None, mlx: None },
        "/d".into(),
    );
    assert!(!sick.all_ok());
    let details: Vec<&str> = sick.checks.iter().map(|c| c.detail.as_str()).collect();
    assert_eq!(
        details,
        vec![
            "unknown",
            "not found — https://ollama.com",
            "not reachable: http://localhost:11434/v1/chat/completions",
            "not found",
            "not found — `pip install mlx-lm`",
        ]
    );
    let well = report(
        &cfg,
        Probes {
            arch: Some("arm64".into()),
            ollama: Some("o".into()),
            reachable: true,
            python: Some("p".into()),
            mlx: Some("x".into()),
        },
        "/d".into(),
    );
    assert!(well.all_ok());
    assert_eq!(well.chat_model, cfg.model);
    assert_eq!(well.chat_endpoint, cfg.base_url);
    assert_eq!(
        well.lines(),
        vec![
            "gene doctor — prerequisite check\n".to_string(),
            well.checks[0].line(),
            well.checks[1].line(),
            well.checks[2].line(),
            well.checks[3].line(),
            well.checks[4].line(),
            format!("\nchat model: {}", cfg.model),
            format!("endpoint:   {}", cfg.base_url),
            format!("mlx base:   {}", cfg.finetune.mlx_base),
            "dataset:    /d".to_string(),
        ]
    );
    assert_eq!((well.mlx_base.as_str(), well.dataset_path.as_str()), (cfg.finetune.mlx_base.as_str(), "/d"));
    assert_eq!(
        well.checks[1].line(),
        format!("[✓] {:<26} {}", "ollama (chat host)", "o")
    );
    let long = Check { name: "n".repeat(30), ok: false, detail: "d".into() };
    assert_eq!(long.line(), format!("[✗] {} d", "n".repeat(30)));
}

#[test]
fn chats_are_refused() {
    let mut cfg = Config::default();
    assert_eq!(check_chat(&cfg, "tech").unwrap(), Mode::Tech);
    assert!(matches!(check_chat(&cfg, "x"), Err(ChatRefused::Mode(_))));
    assert_eq!(
        check_chat(&cfg, "x").unwrap_err().message(),
        "unknown mode 'x' (expected assistant | tech | convo)"
    );
    assert!(ensure_provider_resolvable(&cfg).is_ok());
    cfg.roles.chat = Some("gone".into());
    let e = check_chat(&cfg, "x").unwrap_err();
    assert!(matches!(e, ChatRefused::DanglingProvider));
    assert_eq!(
        e.message(),
        "the chat provider profile was not found in [providers] — check --provider or \
         [roles].chat in the config"
    );
    let none = Overrides { temperature: None, max_tokens: None, seed: None };
    let e = one_shot_request(&cfg, Mode::Tech, " \n".into(), none, stamp(1)).unwrap_err();
    assert_eq!(e.message(), "empty prompt — pass --message or pipe text on stdin");
}

#[test]
fn one_shot_requests() {
    let cfg = Config::default();
    let none = Overrides { temperature: None, max_tokens: None, seed: None };
    let r = one_shot_request(&cfg, Mode::Convo, " hi ".into(), none, stamp(1)).unwrap();
    assert_eq!(r.messages.len(), 2);
    assert_eq!(r.messages[0].content, cfg.convo_system_prompt);
    assert_eq!(r.messages[1].content, " hi ");
    assert_eq!(r.sampling.max_tokens, Some(4096));
    assert_eq!(r.sampling.seed, None);
    let all = Overrides {
        temperature: Some(Float64 { bits: 1 }),
        max_tokens: Some(2),
        seed: Some(3),
    };
    let r = one_shot_request(&cfg, Mode::Assistant, "hi".into(), all, stamp(1)).unwrap();
    assert_eq!(r.messages[0].content, cfg.system_prompt);
    assert_eq!(r.sampling.temperature, Some(Float64 { bits: 1 }));
    assert_eq!((r.sampling.max_tokens, r.sampling.seed), (Some(2), Some(3)));
    let m = Message::new(Role::User, "x".to_string());
    assert_eq!(m.content, "x");
}

#[test]
fn status_bar() {
    let mut s = session();
    assert_eq!(s.status_line(), "ready");
    assert!(!s.shows_training());
    s.busy = Busy::Streaming;
    assert_eq!(s.status_line(), "streaming… ready");
    s.busy = Busy::Executing;
    assert_eq!(s.status_line(), "running… ready");
    s.busy = Busy::Training;
    assert_eq!(s.status_line(), "training… ready");
    assert!(s.shows_training());
    s.busy = Busy::Idle;
    s.train_log.push("x".into());
    assert!(s.shows_training());
}

#[test]
fn a_waiting_command_is_checked_as_it_stands() {
    let mut s = asked("q");
    assert!(!s.pending_is_denied());
    s.on_stream(tool("ls"));
    assert!(!s.pending_is_denied());
    s.pending_command = Some("sudo ls".into());
    assert!(s.pending_is_denied());
}

#[test]
fn providers_are_named_in_a_list() {
    assert_eq!(provider_names("local, remote,\tthird "), vec!["local", "remote", "third"]);
    assert_eq!(provider_names("one"), vec!["one"]);
    assert_eq!(provider_names(",b,, a b ,b,"), vec!["b", "a b", "b"]);
    assert_eq!(provider_names(" , "), Vec::<String>::new());
    assert_eq!(provider_names(""), Vec::<String>::new());
}
