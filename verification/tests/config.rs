use gene_core::config::{
    key_source, Activity, Agent, Config, Finetune, Generation, KeySource, Location,
    ProviderProfile, Roles,
};
use gene_core::llm::types::Float64;
use gene_core::name_map::NameMap;
use gene_core::provider::ProviderKind;

fn profile(kind: ProviderKind, base_url: &str, api_key: &str, model: &str) -> ProviderProfile {
    ProviderProfile {
        kind,
        base_url: base_url.into(),
        api_key: api_key.into(),
        model: model.into(),
    }
}

#[test]
fn chat_request_uses_legacy_fields_when_no_providers() {
    let cfg = Config {
        model: "legacy-model".into(),
        ..Config::default()
    };
    let req = cfg.chat_request(vec![]);
    assert_eq!(req.model, "legacy-model");
    assert!(req.stream);
}

#[test]
fn chat_request_uses_named_profile_via_role() {
    let mut providers = NameMap::new();
    providers.insert(
        "remote".into(),
        profile(
            ProviderKind::OpenAiCompat,
            "https://api.example/v1/chat/completions",
            "k",
            "gpt-x",
        ),
    );
    let cfg = Config {
        providers,
        roles: Roles {
            chat: Some("remote".into()),
            ..Default::default()
        },
        ..Config::default()
    };
    assert_eq!(cfg.chat_request(vec![]).model, "gpt-x");
}

#[test]
fn unknown_role_falls_back_to_first_provider() {
    let mut providers = NameMap::new();
    providers.insert("only".into(), profile(ProviderKind::Ollama, "x", "", "m-only"));
    let cfg = Config {
        providers,
        roles: Roles {
            chat: Some("typo".into()),
            ..Default::default()
        },
        ..Config::default()
    };
    assert_eq!(cfg.chat_request(vec![]).model, "m-only");
}

#[test]
fn dangling_chat_role_detected() {
    let dangling = Config {
        roles: Roles {
            chat: Some("nope".into()),
            ..Default::default()
        },
        ..Config::default()
    };
    assert!(dangling.chat_role_is_dangling());
    assert!(!Config::default().chat_role_is_dangling());
}

#[test]
fn check_method_guards_hardcoded_template() {
    // full + a hardcoded --fine-tune-type template → refused
    let hardcoded = Finetune {
        method: "full".into(),
        train_command: "mlx_lm.lora --fine-tune-type lora --iters {iters}".into(),
        ..Default::default()
    };
    assert!(hardcoded.check_method().is_err());

    // full + a templated train_command → allowed
    let templated = Finetune {
        method: "full".into(),
        train_command: "mlx_lm.lora --fine-tune-type {fine_tune_type}".into(),
        ..Default::default()
    };
    assert!(templated.check_method().is_ok());

    // lora is always fine (matches any legacy template)
    assert!(Finetune::default().check_method().is_ok());
}

#[test]
fn refused_method_is_named() {
    let f = Finetune {
        method: "dora".into(),
        train_command: "t".into(),
        ..Default::default()
    };
    assert_eq!(
        f.check_method().unwrap_err().message(),
        "the configured train_command hardcodes --fine-tune-type and won't honor method 'dora' \
         — add the {fine_tune_type} placeholder (see the default config)"
    );
}

#[test]
fn only_a_full_fine_tune_skips_fuse() {
    for (method, fuse) in [("lora", true), ("dora", true), ("full", false)] {
        let f = Finetune { method: method.into(), ..Default::default() };
        assert_eq!(f.needs_fuse(), fuse);
    }
}

#[test]
fn built_in_defaults() {
    let c = Config::default();
    assert_eq!(c.model, "huihui_ai/llama3.1-abliterated:latest");
    assert_eq!(c.base_url, "http://localhost:11434/v1/chat/completions");
    assert_eq!(c.api_key, "ollama");
    assert!(c.system_prompt.contains("```run\n<the command>\n```"));
    assert!(c.tech_system_prompt.contains("NEVER emit a ```run block"));
    assert!(c.convo_system_prompt.ends_with("No moralizing, no refusing."));
    assert_eq!(f64::from_bits(c.generation.temperature.bits), 0.7);
    assert_eq!(c.generation.max_tokens, 4096);
    let a = Agent::default();
    assert_eq!((a.auto_run, a.native_tools), (false, false));
    assert_eq!((a.max_tool_rounds, a.exec_timeout_secs), (8, 30));
    assert_eq!(
        a.denylist,
        vec![
            "rm -rf", "sudo", "mkfs", "dd ", ":(){", "> /dev/", "shutdown", "diskutil erase",
            "mv /", "chmod -R 000"
        ]
    );
    assert!(c.ui.think_collapsed_default);
    let f = Finetune::default();
    assert_eq!(f64::from_bits(f.valid_fraction.bits), 0.1);
    assert_eq!((f.min_examples, f.mlx_server_port), (50, 8080));
    assert_eq!((f.iters, f.batch, f.layers), (600, 1, 16));
    assert_eq!(
        f.train_command,
        "python3 -m mlx_lm.lora --model {base} --train --data {data} --adapter-path {adapters} \
         --fine-tune-type {fine_tune_type} --num-layers {layers} --batch-size {batch} --iters \
         {iters} --learning-rate {lr} --mask-prompt --grad-checkpoint --steps-per-report 10 \
         --save-every 100 {extra_args}"
    );
    assert_eq!(ProviderKind::default(), ProviderKind::Ollama);
    assert_eq!(ProviderProfile::default().model, "");
}

#[test]
fn sampling_carries_every_knob() {
    let g = Generation {
        temperature: Float64 { bits: 1 },
        max_tokens: 2,
        top_p: Some(Float64 { bits: 3 }),
        top_k: Some(4),
        min_p: Some(Float64 { bits: 5 }),
        repetition_penalty: Some(Float64 { bits: 6 }),
        seed: Some(7),
        stop: vec!["</s>".to_string()],
    };
    let s = g.to_sampling();
    assert_eq!(s.temperature, Some(Float64 { bits: 1 }));
    assert_eq!(s.max_tokens, Some(2));
    assert_eq!(s.top_p, Some(Float64 { bits: 3 }));
    assert_eq!(s.top_k, Some(4));
    assert_eq!(s.min_p, Some(Float64 { bits: 5 }));
    assert_eq!(s.repetition_penalty, Some(Float64 { bits: 6 }));
    assert_eq!(s.seed, Some(7));
    assert_eq!(s.stop, vec!["</s>".to_string()]);
}

#[test]
fn roles_fall_back() {
    let mut c = Config::default();
    c.providers.insert("b".into(), profile(ProviderKind::Ollama, "ub", "kb", "mb"));
    c.providers.insert("a".into(), profile(ProviderKind::OpenAiCompat, "ua", "ka", "ma"));
    // Unset: the first by name.
    assert_eq!(c.profile_for(Activity::Judge).model, "ma");
    c.roles.chat = Some("b".into());
    assert_eq!(c.profile_for(Activity::Chat).model, "mb");
    assert_eq!(c.profile_for(Activity::Eval).model, "mb");
    c.roles.judge = Some("a".into());
    assert_eq!(c.profile_for(Activity::Judge).model, "ma");
    assert_eq!(c.profile_for(Activity::Eval).model, "mb");
    c.roles.eval = Some("gone".into());
    assert_eq!(c.profile_for(Activity::Eval).model, "mb");
    let p = c.chat_provider();
    assert_eq!((p.endpoint(), p.api_key.as_str(), p.kind), ("ub", "kb", ProviderKind::Ollama));
    assert_eq!(c.chat_model(), "mb");
    assert!(!c.roles.is_empty());
    assert!(Roles::default().is_empty());
}

#[test]
fn paths_resolve() {
    let mut c = Config::default();
    assert!(matches!(c.conversations_dir(), Location::InDataDir("conversations")));
    assert!(matches!(c.dataset_path(), Location::InDataDir("dataset.jsonl")));
    assert!(matches!(c.log_path(), Location::InDataDir("gene.log")));
    assert!(matches!(c.work_dir(), Location::InDataDir("finetune")));
    assert!(matches!(c.runs_dir(), Location::InDataDir("runs")));
    c.paths.runs_dir = "/elsewhere".into();
    assert!(matches!(c.runs_dir(), Location::At(p) if p == "/elsewhere"));
}

#[test]
fn keys_are_redacted() {
    let mut c = Config::default();
    c.api_key = "k0".into();
    c.providers.insert("b".into(), profile(ProviderKind::Ollama, "ub", "kb", "mb"));
    c.providers.insert("a".into(), profile(ProviderKind::OpenAiCompat, "ua", "env:X", "ma"));
    c.redact();
    assert_eq!(c.api_key, "<redacted>");
    assert_eq!(c.providers.len(), 2);
    for (name, url, model) in [("a", "ua", "ma"), ("b", "ub", "mb")] {
        let p = c.providers.get(name).unwrap();
        assert_eq!(p.api_key, "<redacted>");
        assert_eq!((p.base_url.as_str(), p.model.as_str()), (url, model));
    }
    assert_eq!(c.model, Config::default().model);
}

#[test]
fn keys_may_name_a_variable() {
    assert!(matches!(key_source("env:OPENAI_API_KEY"), KeySource::Env(v) if v == "OPENAI_API_KEY"));
    assert!(matches!(key_source("env:"), KeySource::Env(v) if v.is_empty()));
    assert!(matches!(key_source("ollama"), KeySource::Literal(k) if k == "ollama"));
    assert!(matches!(key_source(" env:X"), KeySource::Literal(k) if k == " env:X"));
}

#[test]
fn overrides_touch_what_they_name() {
    let mut c = Config::default();
    c.override_with(Some("m".into()), None, Some("p".into()));
    assert_eq!(c.model, "m");
    assert_eq!(c.base_url, Config::default().base_url);
    assert_eq!(c.roles.chat.as_deref(), Some("p"));
    c.finetune.override_with(None, Some(800), Some("2e-5".into()));
    assert_eq!(c.finetune.method, "lora");
    assert_eq!(c.finetune.iters, 800);
    assert_eq!(c.finetune.learning_rate, "2e-5");
}

#[test]
fn names_are_kept_in_order() {
    let mut m: NameMap<u32> = NameMap::new();
    assert!(m.is_empty());
    assert_eq!(m.first(), None);
    for (k, v) in [("b", 1), ("", 2), ("ba", 3), ("a", 4), ("é", 5), ("b", 6)] {
        m.insert(k.to_string(), v);
    }
    assert_eq!(m.name_list(), vec!["", "a", "b", "ba", "é"]);
    assert_eq!(m.first(), Some(&2));
    assert_eq!(m.get("b"), Some(&6));
    assert_eq!(m.get("c"), None);
    assert!(m.contains_key("é"));
    assert_eq!(m.entry(3), (&"ba".to_string(), &3));
}
