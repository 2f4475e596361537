use gene_core::dataset::format::{
    export, import, messages_in, record_text, role_from_sharegpt, role_to_sharegpt, Format,
    ImportError,
};
use gene_core::dataset::{ChatMsg, Meta, TrainingExample};
use gene_core::json::Node;

fn no_native(_line: &String) -> Result<TrainingExample, String> {
    Err("not native".to_string())
}

fn no_encoder(_e: &TrainingExample) -> Result<String, String> {
    Err("cannot encode".to_string())
}

fn msg(role: &str, content: &str) -> ChatMsg {
    ChatMsg { role: role.into(), content: content.into() }
}

#[test]
fn sharegpt_round_trips_through_gene() {
    let sharegpt =
        r#"{"conversations":[{"from":"human","value":"hi"},{"from":"gpt","value":"yo"}]}"#;
    let examples = import(sharegpt, Format::ShareGpt, no_native).unwrap();
    assert_eq!(examples.len(), 1);
    assert_eq!(examples[0].messages[0].role, "user");
    assert_eq!(examples[0].messages[1].role, "assistant");
    assert_eq!(examples[0].meta.source, "import");

    // Export back to ShareGPT maps roles in reverse.
    let out = export(&examples, Format::ShareGpt, no_encoder).unwrap();
    assert!(out.contains("\"from\":\"human\""));
    assert!(out.contains("\"from\":\"gpt\""));
}

#[test]
fn openai_import_reads_messages() {
    let line = r#"{"messages":[{"role":"system","content":"s"},{"role":"user","content":"u"}]}"#;
    let examples = import(line, Format::OpenAi, no_native).unwrap();
    assert_eq!(examples[0].messages.len(), 2);
    assert_eq!(examples[0].messages[0].role, "system");
}

#[test]
fn mlx_export_emits_messages_only() {
    let examples = import(
        r#"{"messages":[{"role":"user","content":"hi"}]}"#,
        Format::Mlx,
        no_native,
    )
    .unwrap();
    let out = export(&examples, Format::Mlx, no_encoder).unwrap();
    assert!(out.contains("\"messages\""));
    assert!(!out.contains("\"meta\"")); // MLX form drops provenance
}

#[test]
fn record_text_is_compact_json() {
    let messages = vec![msg("user", "a \"b\"\n\\ é \u{1}"), msg("assistant", "")];
    assert_eq!(
        record_text(&messages, Format::OpenAi),
        r#"{"messages":[{"content":"a \"b\"\n\\ é \u0001","role":"user"},{"content":"","role":"assistant"}]}"#
    );
    assert_eq!(
        record_text(&messages, Format::ShareGpt),
        r#"{"conversations":[{"from":"human","value":"a \"b\"\n\\ é \u0001"},{"from":"gpt","value":""}]}"#
    );
    assert_eq!(record_text(&vec![], Format::Mlx), r#"{"messages":[]}"#);
}

#[test]
fn what_is_exported_is_imported() {
    let text = r#"{"messages":[{"role":"user","content":"a\nb"},{"role":"tool","content":"x\u0085"}]}"#;
    for format in [Format::Mlx, Format::OpenAi, Format::ShareGpt] {
        let examples = import(text, Format::OpenAi, no_native).unwrap();
        let out = export(&examples, format, no_encoder).unwrap();
        assert!(out.ends_with('\n'));
        assert_eq!(out.lines().count(), 1);
        let back = import(&out, format, no_native).unwrap();
        assert_eq!(back.len(), 1);
        assert_eq!(back[0].messages.len(), 2);
        assert_eq!(back[0].messages[0].role, "user");
        assert_eq!(back[0].messages[0].content, "a\nb");
        assert_eq!(back[0].messages[1].role, "tool");
        assert_eq!(back[0].messages[1].content, "x\u{85}");
    }
}

#[test]
fn missing_entries_say_nothing() {
    let text = r#"{"messages":[{"role":7},{"content":"c"},"odd",null]}"#;
    let examples = import(text, Format::OpenAi, no_native).unwrap();
    let got: Vec<(&str, &str)> = examples[0]
        .messages
        .iter()
        .map(|m| (m.role.as_str(), m.content.as_str()))
        .collect();
    assert_eq!(got, vec![("", ""), ("", "c"), ("", ""), ("", "")]);
}

#[test]
fn import_errors() {
    let no_json = import("{", Format::OpenAi, no_native).unwrap_err();
    assert!(matches!(no_json, ImportError::Unreadable(_)));
    assert_eq!(
        no_json.message(),
        serde_json::from_str::<serde_json::Value>("{").unwrap_err().to_string()
    );
    let e = import("{\"a\":1}", Format::Mlx, no_native).unwrap_err();
    assert!(matches!(e, ImportError::NoMessages));
    assert_eq!(e.message(), "record has no 'messages' array");
    let e = import("{\"conversations\":\"x\"}", Format::ShareGpt, no_native).unwrap_err();
    assert!(matches!(e, ImportError::NoConversations));
    assert_eq!(e.message(), "record has no 'conversations' array");
    // Not an object at all.
    assert!(matches!(
        import("[]", Format::OpenAi, no_native).unwrap_err(),
        ImportError::NoMessages
    ));
    // A native record is the decoder's business, once it is JSON.
    let e = import("{}", Format::Gene, no_native).unwrap_err();
    assert_eq!(e.message(), "not native");
    assert!(import("nonsense", Format::Gene, no_native).unwrap_err().message() != "not native");
    // The first record that fails counts; blank lines do not.
    let text = "{\"messages\":[]}\n\n{\"messages\":3}\n{";
    assert!(matches!(
        import(text, Format::OpenAi, no_native).unwrap_err(),
        ImportError::NoMessages
    ));
    assert_eq!(import("\n \n", Format::OpenAi, no_native).unwrap().len(), 0);
}

#[test]
fn imports_are_conversations_of_their_own() {
    let text = "{\"messages\":[]}\n{\"messages\":[]}\n";
    let examples = import(text, Format::OpenAi, no_native).unwrap();
    let a = &examples[0].meta;
    let b = &examples[1].meta;
    assert_ne!(a.conversation_id, b.conversation_id);
    assert!(a.conversation_id.starts_with("import-"));
    assert_eq!(a.conversation_id.len(), "import-".len() + 32);
    assert!(a.conversation_id[7..].chars().all(|c| c.is_ascii_hexdigit()));
    // A random identifier says so.
    assert_eq!(a.conversation_id.chars().nth(7 + 12), Some('4'));
    assert_eq!((a.model.as_str(), a.edited), ("", false));
    assert!(a.original_assistant.is_none());
}

#[test]
fn native_format_goes_through_the_codec() {
    let examples = import(
        "{}",
        Format::Gene,
        |_l: &String| Ok(import("{\"messages\":[]}", Format::Mlx, no_native).unwrap().remove(0)),
    )
    .unwrap();
    assert_eq!(examples.len(), 1);
    assert_eq!(
        export(&examples, Format::Gene, |_e: &TrainingExample| Ok("x".to_string())),
        Ok("x\n".to_string())
    );
    assert_eq!(
        export(&examples, Format::Gene, no_encoder),
        Err("cannot encode".to_string())
    );
    assert_eq!(export(&[], Format::Gene, no_encoder), Ok(String::new()));
}

#[test]
fn format_names() {
    assert_eq!(Format::parse("gene").unwrap(), Format::Gene);
    assert_eq!(Format::parse("mlx").unwrap(), Format::Mlx);
    assert_eq!(Format::parse("openai").unwrap(), Format::OpenAi);
    assert_eq!(Format::parse("sharegpt").unwrap(), Format::ShareGpt);
    assert_eq!(
        Format::parse("csv").unwrap_err().message(),
        "unknown format 'csv' (gene | mlx | openai | sharegpt)"
    );
}

#[test]
fn sharegpt_roles() {
    assert_eq!(role_to_sharegpt("user"), "human");
    assert_eq!(role_to_sharegpt("assistant"), "gpt");
    assert_eq!(role_to_sharegpt("system"), "system");
    assert_eq!(role_from_sharegpt("human".to_string()), "user");
    assert_eq!(role_from_sharegpt("gpt".to_string()), "assistant");
    assert_eq!(role_from_sharegpt("system".to_string()), "system");
}

#[test]
fn messages_of_a_given_node() {
    let node = Node::Object(vec![(
        "messages".to_string(),
        "[{\"role\":\"r\",\"content\":\"c\"}]".to_string(),
    )]);
    let got = messages_in(&node, Format::OpenAi).unwrap();
    assert_eq!(got.len(), 1);
    assert_eq!(got[0].role, "r");
    assert_eq!(got[0].content, "c");
    assert!(messages_in(&node, Format::ShareGpt).is_none());
    assert!(messages_in(&Node::Null, Format::OpenAi).is_none());
}

#[test]
fn native_records_come_back_whole() {
    let text = "{\"messages\":[{\"role\":\"human\",\"content\":\"a\\nb\"}]}\n{\"messages\":[]}\n";
    let examples = import(text, Format::OpenAi, no_native).unwrap();
    // A codec that writes the number of the example, and looks it up.
    let encode = |e: &TrainingExample| -> Result<String, String> {
        let at = examples.iter().position(|x| x.meta.conversation_id == e.meta.conversation_id);
        Ok(at.unwrap().to_string())
    };
    let decode = |line: &String| -> Result<TrainingExample, String> {
        let e = &examples[line.parse::<usize>().unwrap()];
        Ok(TrainingExample {
            messages: e.messages.iter().map(|m| msg(&m.role, &m.content)).collect(),
            meta: Meta {
                conversation_id: e.meta.conversation_id.clone(),
                model: e.meta.model.clone(),
                created_at: e.meta.created_at,
                edited: e.meta.edited,
                source: e.meta.source.clone(),
                original_assistant: e.meta.original_assistant.clone(),
            },
        })
    };
    let out = export(&examples, Format::Gene, encode).unwrap();
    assert_eq!(out, "0\n1\n");
    let back = import(&out, Format::Gene, decode).unwrap();
    assert_eq!(back.len(), 2);
    assert_eq!(back[0].messages[0].role, "human");
    assert_eq!(back[0].messages[0].content, "a\nb");
    assert_eq!(back[1].messages.len(), 0);
    for (b, e) in back.iter().zip(&examples) {
        assert_eq!(b.meta.conversation_id, e.meta.conversation_id);
        assert_eq!(b.meta.created_at, e.meta.created_at);
        assert_eq!(b.meta.source, "import");
    }
}

#[test]
fn exports_hold_messages_only() {
    let text = "{\"messages\":[{\"role\":\"user\",\"content\":\"meta\"}],\"meta\":{\"model\":\"m\"}}\n";
    let examples = import(text, Format::OpenAi, no_native).unwrap();
    for format in [Format::Mlx, Format::OpenAi, Format::ShareGpt] {
        let out = export(&examples, format, no_encoder).unwrap();
        let value = serde_json::from_str::<serde_json::Value>(out.trim_end()).unwrap();
        let entries = value.as_object().unwrap();
        assert_eq!(entries.len(), 1);
        assert!(entries.get("meta").is_none());
    }
}

#[test]
fn export_stops_at_the_first_example_that_fails() {
    let text = "{\"messages\":[]}\n{\"messages\":[]}\n{\"messages\":[]}\n";
    let examples = import(text, Format::OpenAi, no_native).unwrap();
    let second = examples[1].meta.conversation_id.clone();
    let first = examples[0].meta.conversation_id.clone();
    let encode = |e: &TrainingExample| -> Result<String, String> {
        if e.meta.conversation_id == first {
            Ok("{}".to_string())
        } else if e.meta.conversation_id == second {
            Err("second".to_string())
        } else {
            Err("third".to_string())
        }
    };
    assert_eq!(export(&examples, Format::Gene, encode), Err("second".to_string()));
}
