//! Configuration: a single `Config`, with built-in defaults.
//!
//! The training/fuse/deploy commands are stored as templates with `{placeholder}`
//! slots so the trainer is pluggable.

use crate::llm::types;
use crate::llm::types::{ChatRequest, Float64, RequestView, Sampling, SamplingView};
use crate::llm::WireMessage;
use crate::name_map::NameMap;
use crate::provider::{Provider, ProviderKind};
use crate::text;
use vstd::prelude::*;

verus! {

pub const DEFAULT_MODEL: &'static str = "huihui_ai/llama3.1-abliterated:latest";

pub const DEFAULT_BASE_URL: &'static str = "http://localhost:11434/v1/chat/completions";

pub const DEFAULT_API_KEY: &'static str = "ollama";

/// The prompt of the assistant: how to ask for a command to be run.
pub const SYSTEM_PROMPT: &'static str =
    "You are gene, a blunt, capable terminal assistant running on the user's Mac. You write \
     correct code and give direct answers without moralizing or refusing.\n\nWhen you need to \
     run a shell command on the user's machine, emit EXACTLY ONE fenced block of the \
     form:\n\n```run\n<the command>\n```\n\nEmit nothing after the run block in that turn — \
     stop and wait for the command output, which will be fed back to you as a new message, \
     then continue. Use one command per block. Prefer non-destructive commands. If you are \
     only showing example code the user should not execute, use a normal language fence \
     (```bash, ```python, …), never ```run.";

/// The prompt of the tech guy: advises, never executes.
pub const TECH_SYSTEM_PROMPT: &'static str =
    "You are gene, a sharp, friendly senior software engineer the user is just chatting with. \
     Explain clearly, share opinions, and write example code in normal fenced blocks \
     (```python, ```bash, …). You do NOT run anything on the user's machine and you NEVER \
     emit a ```run block — if a task needs shell commands, describe them and let the user run \
     them. Be concise and direct; no moralizing, no refusing.";

/// The prompt of casual conversation.
pub const CONVO_SYSTEM_PROMPT: &'static str =
    "You are gene, a warm, easygoing conversational companion. Chat naturally about anything \
     — ideas, life, whatever is on the user's mind. Be genuine, curious, and concise, with a \
     sense of humor. You are not acting as a coding tool or a terminal here and you never run \
     commands; you're just someone good to talk to. No moralizing, no refusing.";

pub const MLX_BASE: &'static str = "mlx-community/Meta-Llama-3.1-8B-Instruct-bf16";

pub const TRAIN_COMMAND: &'static str =
    "python3 -m mlx_lm.lora --model {base} --train --data {data} --adapter-path {adapters} \
     --fine-tune-type {fine_tune_type} --num-layers {layers} --batch-size {batch} --iters \
     {iters} --learning-rate {lr} --mask-prompt --grad-checkpoint --steps-per-report 10 \
     --save-every 100 {extra_args}";

pub const FUSE_COMMAND: &'static str =
    "python3 -m mlx_lm.fuse --model {base} --adapter-path {adapters} --save-path {fused}";

pub const MLX_SERVER_COMMAND: &'static str = "python3 -m mlx_lm.server --model {fused} --port {port}";

pub const GGUF_CONVERT_COMMAND: &'static str =
    "python3 {llama_cpp}/convert_hf_to_gguf.py {fused} --outfile {fused}/model-f16.gguf \
     --outtype f16";

pub const OLLAMA_CREATE_COMMAND: &'static str = "ollama create {tag} -f {modelfile}";

/// Parameters of generation.
#[derive(Debug)]
pub struct Generation {
    pub temperature: Float64,
    pub max_tokens: u32,
    pub top_p: Option<Float64>,
    pub top_k: Option<u32>,
    pub min_p: Option<Float64>,
    pub repetition_penalty: Option<Float64>,
    pub seed: Option<u64>,
    pub stop: Vec<String>,
}

/// The temperature of chat: 0.7, by its bits.
pub const CHAT_TEMPERATURE: u64 = 0x3FE6_6666_6666_6666;

/// The share of the examples held out for validation: 0.1, by its bits.
pub const VALID_FRACTION: u64 = 0x3FB9_9999_9999_999A;

/// The wire sampling parameters of `g`.
pub open spec fn sampling_of(g: Generation) -> SamplingView {
    SamplingView {
        temperature: Some(g.temperature),
        max_tokens: Some(g.max_tokens),
        top_p: g.top_p,
        top_k: g.top_k,
        min_p: g.min_p,
        repetition_penalty: g.repetition_penalty,
        seed: g.seed,
        stop: text::views(g.stop@),
    }
}

impl Default for Generation {
    fn default() -> (r: Generation)
        ensures
            sampling_of(r) == (SamplingView {
                temperature: Some(Float64 { bits: CHAT_TEMPERATURE }),
                max_tokens: Some(4096),
                ..types::unset_sampling()
            }),
    {
        let r = Generation {
            temperature: Float64 { bits: CHAT_TEMPERATURE },
            max_tokens: 4096,
            top_p: None,
            top_k: None,
            min_p: None,
            repetition_penalty: None,
            seed: None,
            stop: Vec::new(),
        };
        assert(text::views(r.stop@) =~= seq![]);
        r
    }
}

impl Generation {
    /// The wire sampling parameters for this configuration.
    pub fn to_sampling(&self) -> (r: Sampling)
        ensures
            r@ == sampling_of(*self),
    {
        Sampling {
            temperature: Some(self.temperature),
            max_tokens: Some(self.max_tokens),
            top_p: self.top_p,
            top_k: self.top_k,
            min_p: self.min_p,
            repetition_penalty: self.repetition_penalty,
            seed: self.seed,
            stop: text::clone_list(&self.stop),
        }
    }
}

/// Confirm-gated shell execution.
#[derive(Debug)]
pub struct Agent {
    /// Per-session default for auto-running approved commands.
    pub auto_run: bool,
    /// Use native OpenAI function-calling instead of the ```run convention.
    pub native_tools: bool,
    /// Cap on tool-call rounds within a single user turn.
    pub max_tool_rounds: usize,
    /// Per-command wall-clock timeout.
    pub exec_timeout_secs: u64,
    /// Commands matching any of these substrings always require manual confirm.
    pub denylist: Vec<String>,
}

/// What is denied unless configured otherwise.
pub open spec fn default_denylist() -> Seq<Seq<char>> {
    seq![
        "rm -rf"@,
        "sudo"@,
        "mkfs"@,
        "dd "@,
        ":(){"@,
        "> /dev/"@,
        "shutdown"@,
        "diskutil erase"@,
        "mv /"@,
        "chmod -R 000"@,
    ]
}

impl Default for Agent {
    fn default() -> (r: Agent)
        ensures
            !r.auto_run,
            !r.native_tools,
            r.max_tool_rounds == 8,
            r.exec_timeout_secs == 30,
            text::views(r.denylist@) == default_denylist(),
    {
        let mut denylist: Vec<String> = Vec::new();
        denylist.push("rm -rf".to_owned());
        denylist.push("sudo".to_owned());
        denylist.push("mkfs".to_owned());
        denylist.push("dd ".to_owned());
        denylist.push(":(){".to_owned());
        denylist.push("> /dev/".to_owned());
        denylist.push("shutdown".to_owned());
        denylist.push("diskutil erase".to_owned());
        denylist.push("mv /".to_owned());
        denylist.push("chmod -R 000".to_owned());
        assert(text::views(denylist@) =~= default_denylist());
        Agent {
            auto_run: false,
            native_tools: false,
            max_tool_rounds: 8,
            exec_timeout_secs: 30,
            denylist,
        }
    }
}

#[derive(Debug)]
pub struct Ui {
    /// Start the thinking section collapsed.
    pub think_collapsed_default: bool,
}

impl Default for Ui {
    fn default() -> (r: Ui)
        ensures
            r.think_collapsed_default,
    {
        Ui { think_collapsed_default: true }
    }
}

/// On-disk locations. An empty one stands for a name in the data directory.
#[derive(Debug)]
pub struct Paths {
    pub conversations_dir: String,
    pub dataset_path: String,
    pub log_path: String,
    /// Working dir for training artifacts.
    pub work_dir: String,
    /// Experiment-tracking run store.
    pub runs_dir: String,
}

impl Default for Paths {
    fn default() -> (r: Paths)
        ensures
            r.conversations_dir@.len() == 0,
            r.dataset_path@.len() == 0,
            r.log_path@.len() == 0,
            r.work_dir@.len() == 0,
            r.runs_dir@.len() == 0,
    {
        Paths {
            conversations_dir: String::new(),
            dataset_path: String::new(),
            log_path: String::new(),
            work_dir: String::new(),
            runs_dir: String::new(),
        }
    }
}

/// Where something is kept.
#[derive(Debug)]
pub enum Location {
    /// At the configured path.
    At(String),
    /// Under this name in the platform's data directory.
    InDataDir(&'static str),
}

/// `l` is the configured override if that is not empty, else the default name.
pub open spec fn is_resolved(l: Location, configured: Seq<char>, default_name: Seq<char>) -> bool {
    match l {
        Location::At(path) => configured.len() > 0 && path@ == configured,
        Location::InDataDir(name) => configured.len() == 0 && name@ == default_name,
    }
}

fn resolve_path(configured: &String, default_name: &'static str) -> (r: Location)
    ensures
        is_resolved(r, configured@, default_name@),
{
    if configured.as_str().is_empty() {
        Location::InDataDir(default_name)
    } else {
        Location::At(configured.clone())
    }
}

/// Fine-tuning pipeline: pluggable command templates + the model bridge between
/// the chat backend (Ollama) and the trainer (MLX).
#[derive(Debug)]
pub struct Finetune {
    /// HF repo id or local path to the MLX/safetensors base weights.
    pub mlx_base: String,
    /// Minimum dataset size before training will proceed.
    pub min_examples: usize,
    /// Fraction held out for validation.
    pub valid_fraction: Float64,
    /// "mlx_server" (serve fused model directly) or "ollama_gguf" (convert + ollama create).
    pub deploy_mode: String,
    /// Port for `mlx_lm.server` in deploy_mode = "mlx_server".
    pub mlx_server_port: u16,
    pub iters: u32,
    pub batch: u32,
    pub layers: u32,
    pub learning_rate: String,
    /// Fine-tune method: "lora" | "dora" | "full". Sets {fine_tune_type}; "full"
    /// trains all weights and skips the fuse step.
    pub method: String,
    /// Extra arguments appended to the train command (the {extra_args} slot).
    pub extra_args: String,
    /// Command templates. Placeholders: {base} {data} {adapters} {fused}
    /// {iters} {batch} {layers} {lr} {fine_tune_type} {extra_args} {port}
    /// {llama_cpp} {tag} {modelfile}
    pub train_command: String,
    pub fuse_command: String,
    pub mlx_server_command: String,
    pub gguf_convert_command: String,
    pub ollama_create_command: String,
    /// Path to a llama.cpp checkout (for the GGUF conversion script).
    pub llama_cpp_dir: String,
    /// Ollama tag to create when promoting a fine-tune (deploy_mode = "ollama_gguf").
    pub ollama_tag: String,
}

/// `f` is what fine-tuning is unless configured otherwise.
pub open spec fn is_default_finetune(f: Finetune) -> bool {
    &&& f.mlx_base@ == MLX_BASE@
    &&& f.min_examples == 50
    &&& f.valid_fraction.bits == VALID_FRACTION
    &&& f.deploy_mode@ == "mlx_server"@
    &&& f.mlx_server_port == 8080
    &&& f.iters == 600
    &&& f.batch == 1
    &&& f.layers == 16
    &&& f.learning_rate@ == "1e-5"@
    &&& f.method@ == "lora"@
    &&& f.extra_args@.len() == 0
    &&& f.train_command@ == TRAIN_COMMAND@
    &&& f.fuse_command@ == FUSE_COMMAND@
    &&& f.mlx_server_command@ == MLX_SERVER_COMMAND@
    &&& f.gguf_convert_command@ == GGUF_CONVERT_COMMAND@
    &&& f.ollama_create_command@ == OLLAMA_CREATE_COMMAND@
    &&& f.llama_cpp_dir@.len() == 0
    &&& f.ollama_tag@ == "gene-assistant:latest"@
}

impl Default for Finetune {
    fn default() -> (r: Finetune)
        ensures
            is_default_finetune(r),
    {
        Finetune {
            mlx_base: MLX_BASE.to_owned(),
            min_examples: 50,
            valid_fraction: Float64 { bits: VALID_FRACTION },
            deploy_mode: "mlx_server".to_owned(),
            mlx_server_port: 8080,
            iters: 600,
            batch: 1,
            layers: 16,
            learning_rate: "1e-5".to_owned(),
            method: "lora".to_owned(),
            extra_args: String::new(),
            train_command: TRAIN_COMMAND.to_owned(),
            fuse_command: FUSE_COMMAND.to_owned(),
            mlx_server_command: MLX_SERVER_COMMAND.to_owned(),
            gguf_convert_command: GGUF_CONVERT_COMMAND.to_owned(),
            ollama_create_command: OLLAMA_CREATE_COMMAND.to_owned(),
            llama_cpp_dir: String::new(),
            ollama_tag: "gene-assistant:latest".to_owned(),
        }
    }
}

/// A method that the train command cannot carry out.
#[derive(Debug)]
pub struct MethodIgnored {
    pub method: String,
}

impl MethodIgnored {
    pub fn message(&self) -> (r: String)
        ensures
            r@ == "the configured train_command hardcodes --fine-tune-type and won't honor method '"@
                + self.method@
                + "' — add the {fine_tune_type} placeholder (see the default config)"@,
    {
        let mut out = String::new();
        out.append("the configured train_command hardcodes --fine-tune-type and won't honor method '");
        out.append(self.method.as_str());
        out.append("' — add the {fine_tune_type} placeholder (see the default config)");
        out
    }
}

/// The method takes effect: it is the one that any template trains, or the template
/// has a slot for it.
pub open spec fn honors_method(method: Seq<char>, train_command: Seq<char>) -> bool {
    method == "lora"@ || text::contains(train_command, "{fine_tune_type}"@)
}

impl Finetune {
    /// Whether a fuse step is needed: LoRA/DoRA produce adapters to merge into
    /// the base; a full fine-tune already produces complete weights.
    pub fn needs_fuse(&self) -> (r: bool)
        ensures
            r == (self.method@ != "full"@),
    {
        !text::same_text(self.method.as_str(), "full")
    }

    /// Error if the method can't take effect: a `train_command` that hardcodes
    /// `--fine-tune-type` would skip fuse (for "full") yet still train LoRA.
    pub fn check_method(&self) -> (r: Result<(), MethodIgnored>)
        ensures
            match r {
                Ok(_) => honors_method(self.method@, self.train_command@),
                Err(e) => !honors_method(self.method@, self.train_command@) && e.method@
                    == self.method@,
            },
    {
        if !text::same_text(self.method.as_str(), "lora") && !text::contains_text(
            self.train_command.as_str(),
            "{fine_tune_type}",
        ) {
            Err(MethodIgnored { method: self.method.clone() })
        } else {
            Ok(())
        }
    }

    /// Take over what was asked for this run only.
    pub fn override_with(
        &mut self,
        method: Option<String>,
        iters: Option<u32>,
        learning_rate: Option<String>,
    )
        ensures
            *final(self) == (Finetune {
                method: match method {
                    Some(m) => m,
                    None => old(self).method,
                },
                iters: match iters {
                    Some(n) => n,
                    None => old(self).iters,
                },
                learning_rate: match learning_rate {
                    Some(lr) => lr,
                    None => old(self).learning_rate,
                },
                ..*old(self)
            }),
    {
        if let Some(m) = method {
            self.method = m;
        }
        if let Some(n) = iters {
            self.iters = n;
        }
        if let Some(lr) = learning_rate {
            self.learning_rate = lr;
        }
    }
}

/// A named inference endpoint: which backend, where, and the default model.
#[derive(Debug)]
pub struct ProviderProfile {
    pub kind: ProviderKind,
    pub base_url: String,
    pub api_key: String,
    pub model: String,
}

/// What an endpoint is.
pub struct ProfileView {
    pub kind: ProviderKind,
    pub base_url: Seq<char>,
    pub api_key: Seq<char>,
    pub model: Seq<char>,
}

impl View for ProviderProfile {
    type V = ProfileView;

    open spec fn view(&self) -> ProfileView {
        ProfileView {
            kind: self.kind,
            base_url: self.base_url@,
            api_key: self.api_key@,
            model: self.model@,
        }
    }
}

impl Clone for ProviderProfile {
    fn clone(&self) -> (r: ProviderProfile)
        ensures
            r@ == self@,
    {
        ProviderProfile {
            kind: self.kind,
            base_url: self.base_url.clone(),
            api_key: self.api_key.clone(),
            model: self.model.clone(),
        }
    }
}

impl Default for ProviderProfile {
    fn default() -> (r: ProviderProfile)
        ensures
            r@ == (ProfileView {
                kind: ProviderKind::Ollama,
                base_url: DEFAULT_BASE_URL@,
                api_key: DEFAULT_API_KEY@,
                model: seq![],
            }),
    {
        let r = ProviderProfile {
            kind: ProviderKind::Ollama,
            base_url: DEFAULT_BASE_URL.to_owned(),
            api_key: DEFAULT_API_KEY.to_owned(),
            model: String::new(),
        };
        assert(r@.model =~= seq![]);
        r
    }
}

/// Maps each activity to a named provider profile. Unset => fall back to chat,
/// then to the first configured provider, then to the top-level fields.
#[derive(Debug)]
pub struct Roles {
    pub chat: Option<String>,
    pub eval: Option<String>,
    pub judge: Option<String>,
}

impl Default for Roles {
    fn default() -> (r: Roles)
        ensures
            r.chat is None,
            r.eval is None,
            r.judge is None,
    {
        Roles { chat: None, eval: None, judge: None }
    }
}

impl Roles {
    pub fn is_empty(&self) -> (r: bool)
        ensures
            r == (self.chat is None && self.eval is None && self.judge is None),
    {
        self.chat.is_none() && self.eval.is_none() && self.judge.is_none()
    }
}

/// What an endpoint is asked for.
#[derive(Debug, Clone, Copy, PartialEq, Eq, Structural)]
pub enum Activity {
    Chat,
    Eval,
    Judge,
}

/// Where an API key comes from.
#[derive(Debug)]
pub enum KeySource {
    /// The key itself.
    Literal(String),
    /// The environment variable of this name.
    Env(String),
}

/// `k` is where the key configured as `api_key` comes from: `env:VAR` names a variable.
pub open spec fn is_key_source(k: KeySource, api_key: Seq<char>) -> bool {
    match k {
        KeySource::Env(var) => api_key == "env:"@ + var@,
        KeySource::Literal(key) => key@ == api_key && !text::starts_with(api_key, "env:"@),
    }
}

/// Where the key configured as `api_key` comes from.
pub fn key_source(api_key: &str) -> (r: KeySource)
    ensures
        is_key_source(r, api_key@),
{
    let key = text::chars_of(api_key);
    let mark = text::chars_of("env:");
    if text::occurs(&key, &mark, 0) {
        let n = mark.len();
        let var = text::slice_text(&key, n, key.len());
        assert(api_key@ =~= "env:"@ + var@) by {
            assert(api_key@ =~= api_key@.subrange(0, n as int) + api_key@.subrange(
                n as int,
                api_key@.len() as int,
            ));
        }
        KeySource::Env(var)
    } else {
        KeySource::Literal(api_key.to_owned())
    }
}

#[derive(Debug)]
pub struct Config {
    /// Model tag served by the chat endpoint (e.g. an Ollama tag).
    pub model: String,
    /// OpenAI-compatible chat-completions endpoint.
    pub base_url: String,
    /// API key. Ollama ignores it; any non-empty string is fine.
    pub api_key: String,
    /// System prompt for Assistant mode; instructs the model on the ```run convention.
    pub system_prompt: String,
    /// System prompt for Tech ("tech guy") mode; advises but never executes.
    pub tech_system_prompt: String,
    /// System prompt for Convo mode; casual, general conversation.
    pub convo_system_prompt: String,
    pub generation: Generation,
    pub agent: Agent,
    pub ui: Ui,
    pub paths: Paths,
    pub finetune: Finetune,
    /// Named inference endpoints. Empty => use the top-level model/base_url/api_key.
    pub providers: NameMap<ProviderProfile>,
    /// Which provider profile each activity (chat/eval/judge) uses.
    pub roles: Roles,
}

impl Default for Config {
    fn default() -> (r: Config)
        ensures
            r.model@ == DEFAULT_MODEL@,
            r.base_url@ == DEFAULT_BASE_URL@,
            r.api_key@ == DEFAULT_API_KEY@,
            r.system_prompt@ == SYSTEM_PROMPT@,
            r.tech_system_prompt@ == TECH_SYSTEM_PROMPT@,
            r.convo_system_prompt@ == CONVO_SYSTEM_PROMPT@,
            sampling_of(r.generation) == (SamplingView {
                temperature: Some(Float64 { bits: CHAT_TEMPERATURE }),
                max_tokens: Some(4096),
                ..types::unset_sampling()
            }),
            !r.agent.auto_run,
            !r.agent.native_tools,
            r.agent.max_tool_rounds == 8,
            r.agent.exec_timeout_secs == 30,
            text::views(r.agent.denylist@) == default_denylist(),
            r.ui.think_collapsed_default,
            r.paths.conversations_dir@.len() == 0,
            r.paths.dataset_path@.len() == 0,
            r.paths.log_path@.len() == 0,
            r.paths.work_dir@.len() == 0,
            r.paths.runs_dir@.len() == 0,
            is_default_finetune(r.finetune),
            r.providers.names().len() == 0,
            r.roles.chat is None,
            r.roles.eval is None,
            r.roles.judge is None,
    {
        Config {
            model: DEFAULT_MODEL.to_owned(),
            base_url: DEFAULT_BASE_URL.to_owned(),
            api_key: DEFAULT_API_KEY.to_owned(),
            system_prompt: SYSTEM_PROMPT.to_owned(),
            tech_system_prompt: TECH_SYSTEM_PROMPT.to_owned(),
            convo_system_prompt: CONVO_SYSTEM_PROMPT.to_owned(),
            generation: Generation::default(),
            agent: Agent::default(),
            ui: Ui::default(),
            paths: Paths::default(),
            finetune: Finetune::default(),
            providers: NameMap::new(),
            roles: Roles::default(),
        }
    }
}

/// The endpoint of the top-level fields.
pub open spec fn top_level_profile(c: Config) -> ProfileView {
    ProfileView {
        kind: ProviderKind::Ollama,
        base_url: c.base_url@,
        api_key: c.api_key@,
        model: c.model@,
    }
}

/// The endpoint named `name`, where there is one.
pub open spec fn named_profile(c: Config, name: Option<String>) -> Option<ProfileView> {
    match name {
        Some(n) => if c.providers.has(n@) {
            Some(c.providers.at(n@)@)
        } else {
            None
        },
        None => None,
    }
}

/// The endpoint used for chat: the one that the role names, else the first, else the
/// one of the top-level fields.
pub open spec fn chat_profile(c: Config) -> ProfileView {
    match named_profile(c, c.roles.chat) {
        Some(p) => p,
        None => if c.providers.names().len() > 0 {
            c.providers.values()[0]@
        } else {
            top_level_profile(c)
        },
    }
}

/// The endpoint used for an activity: the one that its role names, else that of chat.
pub open spec fn profile_for(c: Config, activity: Activity) -> ProfileView {
    let name = match activity {
        Activity::Chat => c.roles.chat,
        Activity::Eval => c.roles.eval,
        Activity::Judge => c.roles.judge,
    };
    match named_profile(c, name) {
        Some(p) => p,
        None => chat_profile(c),
    }
}

/// What stands in place of a key that is not to be shown.
pub const REDACTED: &'static str = "<redacted>";

/// An endpoint without its key.
pub open spec fn redacted_profile(p: ProfileView) -> ProfileView {
    ProfileView { api_key: REDACTED@, ..p }
}

impl Config {
    pub fn conversations_dir(&self) -> (r: Location)
        ensures
            is_resolved(r, self.paths.conversations_dir@, "conversations"@),
    {
        resolve_path(&self.paths.conversations_dir, "conversations")
    }

    pub fn dataset_path(&self) -> (r: Location)
        ensures
            is_resolved(r, self.paths.dataset_path@, "dataset.jsonl"@),
    {
        resolve_path(&self.paths.dataset_path, "dataset.jsonl")
    }

    pub fn log_path(&self) -> (r: Location)
        ensures
            is_resolved(r, self.paths.log_path@, "gene.log"@),
    {
        resolve_path(&self.paths.log_path, "gene.log")
    }

    pub fn work_dir(&self) -> (r: Location)
        ensures
            is_resolved(r, self.paths.work_dir@, "finetune"@),
    {
        resolve_path(&self.paths.work_dir, "finetune")
    }

    pub fn runs_dir(&self) -> (r: Location)
        ensures
            is_resolved(r, self.paths.runs_dir@, "runs"@),
    {
        resolve_path(&self.paths.runs_dir, "runs")
    }

    fn named(&self, name: &Option<String>) -> (r: Option<&ProviderProfile>)
        ensures
            match r {
                Some(p) => named_profile(*self, *name) == Some(p@),
                None => named_profile(*self, *name) is None,
            },
    {
        match name {
            Some(n) => self.providers.get(n.as_str()),
            None => None,
        }
    }

    /// The provider profile used for chat, falling back to the top-level
    /// model/base_url/api_key when no named providers are configured.
    pub fn chat_profile(&self) -> (r: ProviderProfile)
        ensures
            r@ == chat_profile(*self),
    {
        if let Some(p) = self.named(&self.roles.chat) {
            return p.clone();
        }
        match self.providers.first() {
            Some(p) => p.clone(),
            None => ProviderProfile {
                kind: ProviderKind::Ollama,
                base_url: self.base_url.clone(),
                api_key: self.api_key.clone(),
                model: self.model.clone(),
            },
        }
    }

    /// The provider profile used for `activity`. An unset role falls back to chat.
    pub fn profile_for(&self, activity: Activity) -> (r: ProviderProfile)
        ensures
            r@ == profile_for(*self, activity),
    {
        let name = match activity {
            Activity::Chat => &self.roles.chat,
            Activity::Eval => &self.roles.eval,
            Activity::Judge => &self.roles.judge,
        };
        match self.named(name) {
            Some(p) => p.clone(),
            None => self.chat_profile(),
        }
    }

    /// Build the chat [`Provider`] from the active profile.
    pub fn chat_provider(&self) -> (r: Provider)
        ensures
            r.kind == chat_profile(*self).kind,
            r.base_url@ == chat_profile(*self).base_url,
            r.api_key@ == chat_profile(*self).api_key,
    {
        let p = self.chat_profile();
        Provider::new(p.kind, p.base_url, p.api_key)
    }

    /// Build a streaming chat request for `messages` using the active profile's
    /// model and the configured sampling parameters.
    pub fn chat_request(&self, messages: Vec<WireMessage>) -> (r: ChatRequest)
        ensures
            r@ == (RequestView {
                model: chat_profile(*self).model,
                messages: types::turns(messages@),
                stream: true,
                sampling: sampling_of(self.generation),
            }),
    {
        ChatRequest {
            model: self.chat_profile().model,
            messages,
            stream: true,
            sampling: self.generation.to_sampling(),
        }
    }

    /// The model id of the active chat profile (for display/diagnostics).
    pub fn chat_model(&self) -> (r: String)
        ensures
            r@ == chat_profile(*self).model,
    {
        self.chat_profile().model
    }

    /// Whether `roles.chat` names a provider that doesn't exist. The CLI can
    /// surface this as an error instead of silently falling back.
    pub fn chat_role_is_dangling(&self) -> (r: bool)
        ensures
            r == (self.roles.chat is Some && !self.providers.has(self.roles.chat->0@)),
    {
        match &self.roles.chat {
            Some(name) => !self.providers.contains_key(name.as_str()),
            None => false,
        }
    }

    /// Take over what the command line asks for.
    pub fn override_with(
        &mut self,
        model: Option<String>,
        base_url: Option<String>,
        provider: Option<String>,
    )
        ensures
            *final(self) == (Config {
                model: match model {
                    Some(m) => m,
                    None => old(self).model,
                },
                base_url: match base_url {
                    Some(u) => u,
                    None => old(self).base_url,
                },
                roles: Roles {
                    chat: match provider {
                        Some(p) => Some(p),
                        None => old(self).roles.chat,
                    },
                    ..old(self).roles
                },
                ..*old(self)
            }),
    {
        if let Some(m) = model {
            self.model = m;
        }
        if let Some(u) = base_url {
            self.base_url = u;
        }
        if let Some(p) = provider {
            self.roles.chat = Some(p);
        }
    }

    /// Replace every API key, so that the configuration is safe to show.
    pub fn redact(&mut self)
        ensures
            final(self).api_key@ == REDACTED@,
            forall|k: Seq<char>| #[trigger]
                final(self).providers.has(k) <==> old(self).providers.has(k),
            forall|k: Seq<char>| #[trigger]
                final(self).providers.has(k) ==> final(self).providers.at(k)@ == redacted_profile(
                    old(self).providers.at(k)@,
                ),
            *final(self) == (Config {
                api_key: final(self).api_key,
                providers: final(self).providers,
                ..*old(self)
            }),
    {
        self.api_key = REDACTED.to_owned();
        self.providers = redact_profiles(&self.providers);
    }
}

fn redact_profiles(m: &NameMap<ProviderProfile>) -> (r: NameMap<ProviderProfile>)
    ensures
        forall|k: Seq<char>| #[trigger] r.has(k) <==> m.has(k),
        forall|k: Seq<char>| #[trigger] r.has(k) ==> r.at(k)@ == redacted_profile(m.at(k)@),
{
    let mut out: NameMap<ProviderProfile> = NameMap::new();
    let n = m.len();
    let ghost names = m.names();
    let mut i: usize = 0;
    while i < n
        invariant
            i <= n,
            n == names.len(),
            names == m.names(),
            m.ordered(),
            forall|k: Seq<char>| #[trigger]
                out.has(k) <==> exists|j: int| 0 <= j < i && #[trigger] names[j] == k,
            forall|k: Seq<char>| #[trigger]
                out.has(k) ==> out.at(k)@ == redacted_profile(m.at(k)@),
        decreases n - i,
    {
        let (name, profile) = m.entry(i);
        let ghost was = out;
        let hidden = ProviderProfile {
            kind: profile.kind,
            base_url: profile.base_url.clone(),
            api_key: REDACTED.to_owned(),
            model: profile.model.clone(),
        };
        out.insert(name.clone(), hidden);
        proof {
            crate::name_map::lemma_index_of(names, i as int);
            assert forall|k: Seq<char>| #[trigger] out.has(k) <==> exists|j: int|
                0 <= j < i + 1 && #[trigger] names[j] == k by {
                if out.has(k) {
                    if was.has(k) {
                        let j = choose|j: int| 0 <= j < i && #[trigger] names[j] == k;
                        assert(names[j] == k);
                    } else {
                        assert(names[i as int] == k);
                    }
                }
                if exists|j: int| 0 <= j < i + 1 && #[trigger] names[j] == k {
                    let j = choose|j: int| 0 <= j < i + 1 && #[trigger] names[j] == k;
                    if j < i {
                        assert(was.has(k));
                    }
                }
            }
            assert forall|k: Seq<char>| #[trigger] out.has(k) implies out.at(k)@
                == redacted_profile(m.at(k)@) by {
                if k != name@ {
                    assert(was.has(k));
                    assert(out.at(k) == was.at(k));
                }
            }
        }
        i += 1;
    }
    assert forall|k: Seq<char>| #[trigger] out.has(k) <==> m.has(k) by {
        if m.has(k) {
            let j = names.index_of(k);
            assert(names[j] == k);
        }
    }
    out
}

/// An unset role falls back to chat; an unset chat role, or one that names no
/// endpoint, to the first endpoint; and without endpoints to the top-level fields.
pub proof fn law_role_fallback(c: Config, activity: Activity)
    ensures
        activity == Activity::Eval && c.roles.eval is None ==> profile_for(c, activity)
            == chat_profile(c),
        activity == Activity::Judge && c.roles.judge is None ==> profile_for(c, activity)
            == chat_profile(c),
        profile_for(c, Activity::Chat) == chat_profile(c),
        c.roles.chat is Some && c.providers.has(c.roles.chat->0@) ==> chat_profile(c)
            == c.providers.at(c.roles.chat->0@)@,
        (c.roles.chat is None || !c.providers.has(c.roles.chat->0@)) && c.providers.names().len()
            > 0 ==> chat_profile(c) == c.providers.values()[0]@,
        c.providers.names().len() == 0 ==> profile_for(c, activity) == top_level_profile(c),
{
}

/// Of a method other than LoRA, the check lets through only what the train command has
/// a slot for: so a template without the slot trains LoRA and nothing else.
pub proof fn law_checked_method_takes_effect(f: Finetune)
    requires
        honors_method(f.method@, f.train_command@),
        !text::contains(f.train_command@, "{fine_tune_type}"@),
    ensures
        f.method@ == "lora"@,
        f.method@ != "full"@,
{
    reveal_strlit("lora");
    reveal_strlit("full");
    assert("lora"@[0] != "full"@[0]);
}

/// A role that names an endpoint gets that endpoint, whatever chat uses.
pub proof fn law_roles_are_heeded(c: Config)
    ensures
        c.roles.eval is Some && c.providers.has(c.roles.eval->0@) ==> profile_for(
            c,
            Activity::Eval,
        ) == c.providers.at(c.roles.eval->0@)@,
        c.roles.judge is Some && c.providers.has(c.roles.judge->0@) ==> profile_for(
            c,
            Activity::Judge,
        ) == c.providers.at(c.roles.judge->0@)@,
        c.roles.eval is Some && !c.providers.has(c.roles.eval->0@) ==> profile_for(
            c,
            Activity::Eval,
        ) == chat_profile(c),
        c.roles.judge is Some && !c.providers.has(c.roles.judge->0@) ==> profile_for(
            c,
            Activity::Judge,
        ) == chat_profile(c),
        c.providers.names().len() == 0 ==> chat_profile(c).model == c.model@ && chat_profile(
            c,
        ).base_url == c.base_url@ && chat_profile(c).api_key == c.api_key@,
{
}

/// What is configured is what is sent: every parameter that is set, as it is set, and no
/// other.
pub proof fn law_sampling_is_as_configured(g: Generation)
    ensures
        sampling_of(g).temperature == Some(g.temperature),
        sampling_of(g).max_tokens == Some(g.max_tokens),
        sampling_of(g).top_p == g.top_p,
        sampling_of(g).top_k == g.top_k,
        sampling_of(g).min_p == g.min_p,
        sampling_of(g).repetition_penalty == g.repetition_penalty,
        sampling_of(g).seed == g.seed,
        sampling_of(g).stop == text::views(g.stop@),
{
}

/// No key is left where keys are redacted, and nothing else of an endpoint changes.
pub proof fn law_redacted_shows_no_key(p: ProfileView)
    ensures
        redacted_profile(p).api_key == "<redacted>"@,
        redacted_profile(p).kind == p.kind,
        redacted_profile(p).base_url == p.base_url,
        redacted_profile(p).model == p.model,
{
}

/// LoRA may always be trained, and any method may with a train command that has a slot for
/// it; with another train command no other method may.
pub proof fn law_which_methods_may_be_trained(
    method: Seq<char>,
    before: Seq<char>,
    behind: Seq<char>,
)
    ensures
        honors_method("lora"@, before),
        honors_method(method, before + "{fine_tune_type}"@ + behind),
        method != "lora"@ && !text::contains(before, "{fine_tune_type}"@) ==> !honors_method(
            method,
            before,
        ),
{
    text::lemma_contains_parts(before + "{fine_tune_type}"@ + behind, "{fine_tune_type}"@);
}

/// A key that starts with `env:` is read from the variable named behind it, and any other
/// is taken as it is.
pub proof fn law_keys_from_the_environment(k: KeySource, var: Seq<char>, key: Seq<char>)
    ensures
        is_key_source(k, "env:"@ + var) ==> k is Env && k->Env_0@ == var,
        is_key_source(k, key) && !text::starts_with(key, "env:"@) ==> k is Literal
            && k->Literal_0@ == key,
{
    let mark = "env:"@;
    let whole = mark + var;
    assert(whole.subrange(0, mark.len() as int) =~= mark);
    if is_key_source(k, whole) {
        assert(k is Env);
        let named = k->Env_0@;
        assert(named =~= (mark + named).skip(mark.len() as int));
        assert(var =~= whole.skip(mark.len() as int));
    }
    if let KeySource::Env(named) = k {
        if key == mark + named@ {
            assert(key.subrange(0, mark.len() as int) =~= mark);
        }
    }
}

/// A path that is configured is the path; where none is, the default name is used, in the
/// data directory.
pub proof fn law_configured_path_wins(l: Location, configured: Seq<char>, default_name: Seq<char>)
    requires
        is_resolved(l, configured, default_name),
    ensures
        configured.len() > 0 ==> l is At && l->At_0@ == configured,
        configured.len() == 0 ==> l is InDataDir && l->InDataDir_0@ == default_name,
{
}

} // verus!
