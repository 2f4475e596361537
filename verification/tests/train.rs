use gene_core::clock::Timestamp;
use gene_core::config::{Config, Finetune};
use gene_core::dataset::{ChatMsg, Meta, Share, TrainingExample};
use gene_core::train::{
    argv, check_start, deploy, fill, labelled, planned_commands, preparing_line, program_of,
    split_for_training, template_vars, training_jsonl, CommandError, DeployError, DeployPlan,
    Deployed, ErrorTail, TrainError, TrainMsg, WorkPaths,
};

fn paths() -> WorkPaths {
    WorkPaths {
        data: "/w/data".into(),
        adapters: "/w/adapters".into(),
        fused: "/w/fused".into(),
        modelfile: "/w/Modelfile".into(),
    }
}

fn example(conversation: &str, content: &str) -> TrainingExample {
    TrainingExample {
        messages: vec![ChatMsg { role: "user".into(), content: content.into() }],
        meta: Meta {
            conversation_id: conversation.into(),
            model: "m".into(),
            created_at: Timestamp::from_parts(0, 0).unwrap(),
            edited: false,
            source: "accept".into(),
            original_assistant: None,
        },
    }
}

#[test]
fn templates_are_filled_in_order() {
    let vars = vec![("a", "1{b}".to_string()), ("b", "2".to_string())];
    assert_eq!(fill("{a} {b} {c} {a}", &vars), "12 2 {c} 12");
    // What an earlier name brings in is not looked at again.
    let back = vec![("b", "{a}".to_string()), ("a", "x".to_string())];
    assert_eq!(fill("{b}{a}", &back), "xx");
    let seen = vec![("a", "x".to_string()), ("b", "{a}".to_string())];
    assert_eq!(fill("{b}{a}", &seen), "{a}x");
    assert_eq!(fill("make train", &seen), "make train");
}

#[test]
fn default_commands() {
    let cfg = Config::default();
    let got: Vec<(&str, String)> = planned_commands(&cfg, &paths())
        .unwrap()
        .into_iter()
        .map(|c| (c.label, c.command))
        .collect();
    assert_eq!(
        got,
        vec![
            (
                "train",
                "python3 -m mlx_lm.lora --model mlx-community/Meta-Llama-3.1-8B-Instruct-bf16 \
                 --train --data /w/data --adapter-path /w/adapters --fine-tune-type lora \
                 --num-layers 16 --batch-size 1 --iters 600 --learning-rate 1e-5 --mask-prompt \
                 --grad-checkpoint --steps-per-report 10 --save-every 100 "
                    .to_string()
            ),
            (
                "fuse",
                "python3 -m mlx_lm.fuse --model mlx-community/Meta-Llama-3.1-8B-Instruct-bf16 \
                 --adapter-path /w/adapters --save-path /w/fused"
                    .to_string()
            ),
            (
                "serve",
                "python3 -m mlx_lm.server --model /w/fused --port 8080".to_string()
            ),
        ]
    );
}

#[test]
fn full_fine_tune_deploys_the_adapters_dir() {
    let mut cfg = Config::default();
    cfg.finetune.method = "full".into();
    let labels: Vec<(&str, String)> = planned_commands(&cfg, &paths())
        .unwrap()
        .into_iter()
        .map(|c| (c.label, c.command))
        .collect();
    assert_eq!(labels.len(), 2);
    assert_eq!(labels[0].0, "train");
    assert!(labels[0].1.contains("--fine-tune-type full"));
    assert_eq!(
        labels[1],
        ("serve", "python3 -m mlx_lm.server --model /w/adapters --port 8080".to_string())
    );
    let vars = template_vars(&cfg.finetune, &paths());
    assert!(vars.contains(&("fused", "/w/adapters".to_string())));
}

#[test]
fn served_model() {
    let plan = deploy(&Config::default(), &paths()).unwrap();
    match plan {
        DeployPlan::Serve { command, base_url, model } => {
            assert_eq!(command, "python3 -m mlx_lm.server --model /w/fused --port 8080");
            assert_eq!(base_url, "http://localhost:8080/v1/chat/completions");
            assert_eq!(model, "/w/fused");
        }
        DeployPlan::Gguf { .. } => panic!("serves by default"),
    }
}

#[test]
fn ollama_deploy() {
    let mut cfg = Config::default();
    cfg.finetune.deploy_mode = "ollama_gguf".into();
    let e = deploy(&cfg, &paths()).unwrap_err();
    assert!(matches!(e, DeployError::NoLlamaCpp));
    assert_eq!(
        e.message(),
        "deploy_mode=ollama_gguf needs finetune.llama_cpp_dir set in config"
    );
    cfg.finetune.llama_cpp_dir = "/l".into();
    cfg.system_prompt = "be brief".into();
    match deploy(&cfg, &paths()).unwrap() {
        DeployPlan::Gguf { convert, modelfile, create, model } => {
            assert_eq!(
                convert,
                "python3 /l/convert_hf_to_gguf.py /w/fused --outfile /w/fused/model-f16.gguf \
                 --outtype f16"
            );
            assert_eq!(
                modelfile,
                "FROM /w/fused/model-f16.gguf\nSYSTEM \"\"\"be brief\"\"\"\n"
            );
            assert_eq!(create, "ollama create gene-assistant:latest -f /w/Modelfile");
            assert_eq!(model, "gene-assistant:latest");
        }
        DeployPlan::Serve { .. } => panic!("converts"),
    }
    let labels: Vec<&str> = planned_commands(&cfg, &paths())
        .unwrap()
        .iter()
        .map(|c| c.label)
        .collect();
    assert_eq!(labels, vec!["train", "fuse", "convert-gguf", "ollama-create"]);
}

#[test]
fn unknown_deploy_mode() {
    let mut cfg = Config::default();
    cfg.finetune.deploy_mode = "carrier pigeon".into();
    let e = planned_commands(&cfg, &paths()).unwrap_err();
    assert!(matches!(e, DeployError::UnknownMode(_)));
    assert_eq!(e.message(), "unknown deploy_mode: carrier pigeon");
}

#[test]
fn commands_are_split_as_a_shell_does() {
    assert_eq!(
        argv("python3 -m 'a b' \"c\\\"d\" e\\ f").unwrap(),
        vec!["python3", "-m", "a b", "c\"d", "e f"]
    );
    let e = argv("x 'open").unwrap_err();
    assert!(matches!(e, CommandError::Bad(_)));
    assert_eq!(e.message("train"), "bad train command: missing closing quote");
    assert_eq!(e.server_message(), "bad server command: missing closing quote");
    let e = argv(" \t\n").unwrap_err();
    assert!(matches!(e, CommandError::Empty));
    assert_eq!(e.message("fuse"), "empty fuse command");
    assert_eq!(e.server_message(), "empty mlx server command");
    assert!(matches!(program_of(vec![]), Err(CommandError::Empty)));
    assert_eq!(program_of(vec!["p".into()]).unwrap(), vec!["p"]);
}

#[test]
fn error_tail_keeps_the_last_lines() {
    let mut tail = ErrorTail::new();
    assert_eq!(tail.failure("train", "exit status: 1"), "train failed (exit status: 1):\n");
    for i in 0..45 {
        tail.push(format!("l{i}"));
    }
    let want: Vec<String> = (5..45).map(|i| format!("l{i}")).collect();
    assert_eq!(
        tail.failure("train", "exit status: 1"),
        format!("train failed (exit status: 1):\n{}", want.join("\n"))
    );
}

#[test]
fn training_needs_examples_and_a_method_that_works() {
    let mut f = Finetune::default();
    assert!(check_start(&f, 50).is_ok());
    let e = check_start(&f, 49).unwrap_err();
    assert!(matches!(e, TrainError::Examples(_)));
    assert_eq!(
        e.message(),
        "need at least 50 examples, have 49 — edit more replies first"
    );
    f.method = "full".into();
    f.train_command = "train".into();
    let e = check_start(&f, 49).unwrap_err();
    assert!(matches!(e, TrainError::Method(_)));
    assert!(e.message().contains("method 'full'"));
}

#[test]
fn training_split_keeps_conversations_whole() {
    let data = vec![
        example("a", "1"),
        example("a", "2"),
        example("b", "3"),
        example("b", "4"),
    ];
    let (train, valid) = split_for_training(&data, Share { rounded: 1, positive: true });
    assert_eq!(train.len(), 2);
    assert_eq!(valid.len(), 2);
    assert_eq!(
        data[valid[0]].meta.conversation_id,
        data[valid[1]].meta.conversation_id
    );
}

#[test]
fn one_conversation_is_split_at_the_end() {
    let data = vec![example("a", "1"), example("a", "2"), example("a", "3")];
    let (train, valid) = split_for_training(&data, Share { rounded: 0, positive: true });
    assert_eq!((train, valid), (vec![0, 1], vec![2]));
    let (train, valid) = split_for_training(&data, Share { rounded: 9, positive: true });
    assert_eq!((train, valid), (vec![0], vec![1, 2]));
    let (train, valid) = split_for_training(&data[..1], Share { rounded: 0, positive: false });
    assert_eq!((train.len(), valid), (0, vec![0]));
}

#[test]
fn training_files_hold_messages_only() {
    let data = vec![example("a", "x"), example("b", "y")];
    assert_eq!(
        training_jsonl(&data, &vec![1, 0]),
        "{\"messages\":[{\"content\":\"y\",\"role\":\"user\"}]}\n\
         {\"messages\":[{\"content\":\"x\",\"role\":\"user\"}]}\n"
    );
    assert_eq!(training_jsonl(&data, &vec![]), "");
}

#[test]
fn last_words_of_a_pipeline() {
    let ok = TrainMsg::done(Ok(Deployed { base_url: Some("u".into()), model: None }));
    assert!(matches!(
        ok,
        TrainMsg::Done { ok: true, message, new_base_url: Some(u), new_model: None }
            if message == "fine-tune complete" && u == "u"
    ));
    let failed = TrainMsg::done(Err("why".into()));
    assert!(matches!(
        failed,
        TrainMsg::Done { ok: false, message, new_base_url: None, new_model: None }
            if message == "fine-tune failed: why"
    ));
    assert_eq!(labelled("train", "Iter 1"), "train: Iter 1");
    assert_eq!(preparing_line(12), "preparing 12 examples");
}
