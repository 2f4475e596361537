//! The fine-tune pipeline: split the dataset for `mlx_lm.lora`, resolve the commands
//! that train, fuse and deploy, and put what they print into words.
//!
//! Every command is a configurable template, so the trainer/backend is pluggable.

use crate::config;
use crate::config::{Config, Finetune, MethodIgnored};
use crate::dataset;
use crate::dataset::format::Format;
use crate::dataset::group;
use crate::dataset::records;
use crate::dataset::split::{Share, SplitSpec, SplitStrategy, SplitView};
use crate::json;
use crate::model::TrainingExample;
use crate::numerals;
use crate::runs::Metric;
use crate::text;
use vstd::prelude::*;

verus! {

/// Progress and completion messages from the fine-tune pipeline.
#[derive(Debug)]
pub enum TrainMsg {
    Log(String),
    Metric(Metric),
    Done {
        ok: bool,
        message: String,
        new_base_url: Option<String>,
        new_model: Option<String>,
    },
}

/// What a fine-tune serves when it is done: the endpoint, where that is a new one, and
/// the model.
#[derive(Debug)]
pub struct Deployed {
    pub base_url: Option<String>,
    pub model: Option<String>,
}

impl TrainMsg {
    /// The last message of a pipeline.
    pub fn done(result: Result<Deployed, String>) -> (r: TrainMsg)
        ensures
            match result {
                Ok(d) => r is Done && r->ok && r->message@ == "fine-tune complete"@
                    && r->new_base_url == d.base_url && r->new_model == d.model,
                Err(e) => r is Done && !r->ok && r->message@ == "fine-tune failed: "@ + e@
                    && r->new_base_url is None && r->new_model is None,
            },
    {
        match result {
            Ok(d) => TrainMsg::Done {
                ok: true,
                message: "fine-tune complete".to_owned(),
                new_base_url: d.base_url,
                new_model: d.model,
            },
            Err(e) => {
                let mut message = String::new();
                message.append("fine-tune failed: ");
                message.append(e.as_str());
                assert(message@ =~= "fine-tune failed: "@ + e@);
                TrainMsg::Done { ok: false, message, new_base_url: None, new_model: None }
            },
        }
    }
}

/// The template with each name in braces replaced by its value, name by name.
pub open spec fn filled(
    template: Seq<char>,
    vars: Seq<(Seq<char>, Seq<char>)>,
) -> Seq<char>
    decreases vars.len(),
{
    if vars.len() == 0 {
        template
    } else {
        let (name, value) = vars.last();
        text::replaced(filled(template, vars.drop_last()), slot(name), value)
    }
}

/// The slot of a name.
pub open spec fn slot(name: Seq<char>) -> Seq<char> {
    seq!['{'] + name + seq!['}']
}

/// Names and values.
pub open spec fn var_views(vars: Seq<(&'static str, String)>) -> Seq<(Seq<char>, Seq<char>)> {
    vars.map_values(|v: (&'static str, String)| (v.0@, v.1@))
}

/// The template with each name in braces replaced by its value.
pub fn fill(template: &str, vars: &Vec<(&'static str, String)>) -> (r: String)
    ensures
        r@ == filled(template@, var_views(vars@)),
{
    let ghost vs = var_views(vars@);
    let mut out = template.to_owned();
    let mut i: usize = 0;
    assert(vs.take(0) =~= seq![]);
    while i < vars.len()
        invariant
            i <= vars@.len(),
            vs == var_views(vars@),
            out@ == filled(template@, vs.take(i as int)),
        decreases vars@.len() - i,
    {
        let mut name = String::new();
        name.push('{');
        name.append(vars[i].0);
        name.push('}');
        assert(name@ =~= slot(vars@[i as int].0@));
        assert(vs.take(i + 1).drop_last() =~= vs.take(i as int));
        assert(vs.take(i + 1).last() == (vars@[i as int].0@, vars@[i as int].1@));
        out = text::replace_text(out.as_str(), name.as_str(), vars[i].1.as_str());
        i += 1;
    }
    assert(vs.take(i as int) =~= vs);
    out
}

/// A template without slots is run as it stands.
pub proof fn law_plain_template(template: Seq<char>, vars: Seq<(Seq<char>, Seq<char>)>)
    requires
        forall|i: int| 0 <= i < template.len() ==> #[trigger] template[i] != '{',
    ensures
        filled(template, vars) == template,
    decreases vars.len(),
{
    if vars.len() > 0 {
        law_plain_template(template, vars.drop_last());
        let name = slot(vars.last().0);
        if text::contains(template, name) {
            let p = choose|p: int| text::occurs_at(template, name, p);
            assert(template.subrange(p, p + name.len())[0] == name[0]);
            assert(template[p] == '{');
        }
    }
}

/// The directories and files of a fine-tune.
#[derive(Debug)]
pub struct WorkPaths {
    /// Where `train.jsonl` and `valid.jsonl` go.
    pub data: String,
    /// Where the trainer puts its output.
    pub adapters: String,
    /// Where the fused model goes.
    pub fused: String,
    /// The Modelfile of an Ollama deploy.
    pub modelfile: String,
}

/// Where the model to deploy is: a full fine-tune is complete as the trainer leaves it.
pub open spec fn model_dir(f: Finetune, w: WorkPaths) -> Seq<char> {
    if f.method@ == "full"@ {
        w.adapters@
    } else {
        w.fused@
    }
}

/// What the slots of the templates are filled with.
pub open spec fn vars_of(f: Finetune, w: WorkPaths) -> Seq<(Seq<char>, Seq<char>)> {
    seq![
        ("base"@, f.mlx_base@),
        ("data"@, w.data@),
        ("adapters"@, w.adapters@),
        ("fused"@, model_dir(f, w)),
        ("iters"@, numerals::decimal(f.iters as nat)),
        ("batch"@, numerals::decimal(f.batch as nat)),
        ("layers"@, numerals::decimal(f.layers as nat)),
        ("lr"@, f.learning_rate@),
        ("fine_tune_type"@, f.method@),
        ("extra_args"@, f.extra_args@),
        ("port"@, numerals::decimal(f.mlx_server_port as nat)),
        ("llama_cpp"@, f.llama_cpp_dir@),
        ("tag"@, f.ollama_tag@),
    ]
}

fn model_dir_text(f: &Finetune, w: &WorkPaths) -> (r: String)
    ensures
        r@ == model_dir(*f, *w),
{
    if f.needs_fuse() {
        w.fused.clone()
    } else {
        w.adapters.clone()
    }
}

/// What the slots of the templates are filled with.
pub fn template_vars(f: &Finetune, w: &WorkPaths) -> (r: Vec<(&'static str, String)>)
    ensures
        var_views(r@) == vars_of(*f, *w),
{
    let mut vars: Vec<(&'static str, String)> = Vec::new();
    vars.push(("base", f.mlx_base.clone()));
    vars.push(("data", w.data.clone()));
    vars.push(("adapters", w.adapters.clone()));
    vars.push(("fused", model_dir_text(f, w)));
    vars.push(("iters", numerals::decimal_text(f.iters as u64)));
    vars.push(("batch", numerals::decimal_text(f.batch as u64)));
    vars.push(("layers", numerals::decimal_text(f.layers as u64)));
    vars.push(("lr", f.learning_rate.clone()));
    vars.push(("fine_tune_type", f.method.clone()));
    vars.push(("extra_args", f.extra_args.clone()));
    vars.push(("port", numerals::decimal_text(f.mlx_server_port as u64)));
    vars.push(("llama_cpp", f.llama_cpp_dir.clone()));
    vars.push(("tag", f.ollama_tag.clone()));
    assert(var_views(vars@) =~= vars_of(*f, *w));
    vars
}

/// A command of the pipeline, and what it is called.
#[derive(Debug)]
pub struct PlannedCommand {
    pub label: &'static str,
    pub command: String,
}

/// What a command is called, and what it is.
pub open spec fn command_views(v: Seq<PlannedCommand>) -> Seq<(Seq<char>, Seq<char>)> {
    v.map_values(|c: PlannedCommand| (c.label@, c.command@))
}

/// Why a fine-tune cannot be deployed.
#[derive(Debug)]
pub enum DeployError {
    NoLlamaCpp,
    UnknownMode(String),
}

impl DeployError {
    pub fn message(&self) -> (r: String)
        ensures
            r@ == match *self {
                DeployError::NoLlamaCpp =>
                    "deploy_mode=ollama_gguf needs finetune.llama_cpp_dir set in config"@,
                DeployError::UnknownMode(mode) => "unknown deploy_mode: "@ + mode@,
            },
    {
        match self {
            DeployError::NoLlamaCpp =>
                "deploy_mode=ollama_gguf needs finetune.llama_cpp_dir set in config".to_owned(),
            DeployError::UnknownMode(mode) => {
                let mut out = String::new();
                out.append("unknown deploy_mode: ");
                out.append(mode.as_str());
                out
            },
        }
    }
}

/// How a fine-tune is deployed.
#[derive(Debug)]
pub enum DeployPlan {
    /// Run `command`, detached, and chat with `model` at `base_url`.
    Serve { command: String, base_url: String, model: String },
    /// Run `convert`, write `modelfile`, run `create`, and chat with `model`.
    Gguf { convert: String, modelfile: String, create: String, model: String },
}

/// The file that the model is converted to.
pub open spec fn gguf_file(f: Finetune, w: WorkPaths) -> Seq<char> {
    model_dir(f, w) + "/model-f16.gguf"@
}

/// What tells Ollama of the converted model.
pub open spec fn modelfile_of(gguf: Seq<char>, system_prompt: Seq<char>) -> Seq<char> {
    "FROM "@ + gguf + "\nSYSTEM \"\"\""@ + system_prompt + "\"\"\"\n"@
}

/// `p` is how a fine-tune is deployed.
pub open spec fn is_deploy_plan(
    p: DeployPlan,
    f: Finetune,
    system_prompt: Seq<char>,
    w: WorkPaths,
) -> bool {
    let vars = vars_of(f, w);
    match p {
        DeployPlan::Serve { command, base_url, model } => {
            &&& f.deploy_mode@ == "mlx_server"@
            &&& command@ == filled(f.mlx_server_command@, vars)
            &&& base_url@ == "http://localhost:"@ + numerals::decimal(f.mlx_server_port as nat)
                + "/v1/chat/completions"@
            &&& model@ == model_dir(f, w)
        },
        DeployPlan::Gguf { convert, modelfile, create, model } => {
            &&& f.deploy_mode@ == "ollama_gguf"@
            &&& f.llama_cpp_dir@.len() > 0
            &&& convert@ == filled(f.gguf_convert_command@, vars)
            &&& modelfile@ == modelfile_of(gguf_file(f, w), system_prompt)
            &&& create@ == filled(
                f.ollama_create_command@,
                vars.push(("modelfile"@, w.modelfile@)),
            )
            &&& model@ == f.ollama_tag@
        },
    }
}

/// `e` is why a fine-tune cannot be deployed.
pub open spec fn is_deploy_error(e: DeployError, f: Finetune) -> bool {
    match e {
        DeployError::NoLlamaCpp => f.deploy_mode@ == "ollama_gguf"@ && f.llama_cpp_dir@.len() == 0,
        DeployError::UnknownMode(mode) => f.deploy_mode@ != "mlx_server"@ && f.deploy_mode@
            != "ollama_gguf"@ && mode@ == f.deploy_mode@,
    }
}

/// How the fine-tune is deployed.
pub fn deploy(cfg: &Config, w: &WorkPaths) -> (r: Result<DeployPlan, DeployError>)
    ensures
        match r {
            Ok(p) => is_deploy_plan(p, cfg.finetune, cfg.system_prompt@, *w),
            Err(e) => is_deploy_error(e, cfg.finetune),
        },
{
    let f = &cfg.finetune;
    let mut vars = template_vars(f, w);
    proof {
        reveal_strlit("mlx_server");
        reveal_strlit("ollama_gguf");
        assert("mlx_server"@.len() != "ollama_gguf"@.len());
    }
    if text::same_text(f.deploy_mode.as_str(), "mlx_server") {
        let mut base_url = String::new();
        base_url.append("http://localhost:");
        let port = numerals::decimal_text(f.mlx_server_port as u64);
        base_url.append(port.as_str());
        base_url.append("/v1/chat/completions");
        Ok(
            DeployPlan::Serve {
                command: fill(f.mlx_server_command.as_str(), &vars),
                base_url,
                model: model_dir_text(f, w),
            },
        )
    } else if text::same_text(f.deploy_mode.as_str(), "ollama_gguf") {
        if f.llama_cpp_dir.as_str().is_empty() {
            return Err(DeployError::NoLlamaCpp);
        }
        let convert = fill(f.gguf_convert_command.as_str(), &vars);
        let dir = model_dir_text(f, w);
        let mut modelfile = String::new();
        modelfile.append("FROM ");
        modelfile.append(dir.as_str());
        modelfile.append("/model-f16.gguf");
        modelfile.append("\nSYSTEM \"\"\"");
        modelfile.append(cfg.system_prompt.as_str());
        modelfile.append("\"\"\"\n");
        assert(modelfile@ =~= modelfile_of(gguf_file(*f, *w), cfg.system_prompt@));
        let ghost before = vars@;
        vars.push(("modelfile", w.modelfile.clone()));
        assert(var_views(vars@) =~= var_views(before).push(("modelfile"@, w.modelfile@)));
        let create = fill(f.ollama_create_command.as_str(), &vars);
        Ok(DeployPlan::Gguf { convert, modelfile, create, model: f.ollama_tag.clone() })
    } else {
        Err(DeployError::UnknownMode(f.deploy_mode.clone()))
    }
}

/// The commands that make the model: train, and fuse unless the training is a full one.
pub open spec fn making_commands(f: Finetune, w: WorkPaths) -> Seq<(Seq<char>, Seq<char>)> {
    let train = seq![("train"@, filled(f.train_command@, vars_of(f, w)))];
    if f.method@ == "full"@ {
        train
    } else {
        train.push(("fuse"@, filled(f.fuse_command@, vars_of(f, w))))
    }
}

/// The commands that deploy the model.
pub open spec fn deploy_commands(p: DeployPlan) -> Seq<(Seq<char>, Seq<char>)> {
    match p {
        DeployPlan::Serve { command, .. } => seq![("serve"@, command@)],
        DeployPlan::Gguf { convert, create, .. } => seq![
            ("convert-gguf"@, convert@),
            ("ollama-create"@, create@),
        ],
    }
}

/// The commands that make the model.
pub fn make_commands(f: &Finetune, w: &WorkPaths) -> (r: Vec<PlannedCommand>)
    ensures
        command_views(r@) == making_commands(*f, *w),
{
    let vars = template_vars(f, w);
    let mut out: Vec<PlannedCommand> = Vec::new();
    out.push(PlannedCommand { label: "train", command: fill(f.train_command.as_str(), &vars) });
    if f.needs_fuse() {
        out.push(PlannedCommand { label: "fuse", command: fill(f.fuse_command.as_str(), &vars) });
    }
    assert(command_views(out@) =~= making_commands(*f, *w));
    out
}

/// All the commands of a fine-tune, in order.
pub fn planned_commands(cfg: &Config, w: &WorkPaths) -> (r: Result<
    Vec<PlannedCommand>,
    DeployError,
>)
    ensures
        match r {
            Ok(v) => exists|p: DeployPlan|
                {
                    &&& #[trigger] is_deploy_plan(p, cfg.finetune, cfg.system_prompt@, *w)
                    &&& command_views(v@) == making_commands(cfg.finetune, *w) + deploy_commands(p)
                },
            Err(e) => is_deploy_error(e, cfg.finetune),
        },
{
    let plan = deploy(cfg, w)?;
    let ghost p = plan;
    let mut out = make_commands(&cfg.finetune, w);
    match plan {
        DeployPlan::Serve { command, .. } => {
            out.push(PlannedCommand { label: "serve", command });
        },
        DeployPlan::Gguf { convert, create, .. } => {
            out.push(PlannedCommand { label: "convert-gguf", command: convert });
            out.push(PlannedCommand { label: "ollama-create", command: create });
        },
    }
    assert(command_views(out@) =~= making_commands(cfg.finetune, *w) + deploy_commands(p));
    Ok(out)
}

/// What a dry run prints is what a run runs: a fine-tune is deployed in one way.
pub proof fn law_dry_run_is_exact(
    f: Finetune,
    system_prompt: Seq<char>,
    w: WorkPaths,
    printed: DeployPlan,
    run: DeployPlan,
)
    requires
        is_deploy_plan(printed, f, system_prompt, w),
        is_deploy_plan(run, f, system_prompt, w),
    ensures
        deploy_commands(printed) == deploy_commands(run),
{
    reveal_strlit("mlx_server");
    reveal_strlit("ollama_gguf");
    assert("mlx_server"@.len() != "ollama_gguf"@.len());
}

/// A full fine-tune skips the fuse step, and what is deployed is what the trainer left;
/// any other is fused, and what is deployed is the fused model.
pub proof fn law_full_skips_fuse(f: Finetune, w: WorkPaths)
    ensures
        f.method@ == "full"@ ==> making_commands(f, w).len() == 1 && model_dir(f, w)
            == w.adapters@,
        f.method@ != "full"@ ==> making_commands(f, w).len() == 2 && making_commands(f, w)[1].0
            == "fuse"@ && model_dir(f, w) == w.fused@,
        making_commands(f, w)[0].0 == "train"@,
{
}

/// The error of `shell_words`.
#[verifier::external_type_specification]
#[verifier::external_body]
pub struct ExParseError(shell_words::ParseError);

/// The words that `shell_words::split` finds in a command; nothing where a quote is left
/// open.
pub uninterp spec fn shell_split(command: Seq<char>) -> Option<Seq<Seq<char>>>;

/// What `shell_words::ParseError` is displayed as. There is one thing that can be wrong.
#[verifier::external_body]
fn parse_error_text(e: shell_words::ParseError) -> (r: String)
    ensures
        r@ == "missing closing quote"@,
{
    e.to_string()
}

/// A character that only parts words.
pub open spec fn is_gap(c: char) -> bool {
    c == ' ' || c == '\t' || c == '\n'
}

/// There is no quote in `s`.
pub open spec fn unquoted(s: Seq<char>) -> bool {
    forall|i: int| 0 <= i < s.len() ==> #[trigger] s[i] != '\'' && s[i] != '"'
}

/// `shell_words::split` splits a command into words as a POSIX shell does. It depends on
/// the command alone. Where there is nothing but blanks, there are no words; and only a
/// quote that is left open is an error.
pub assume_specification[ shell_words::split ](s: &str) -> (r: Result<
    Vec<String>,
    shell_words::ParseError,
>)
    ensures
        match r {
            Ok(words) => shell_split(s@) == Some(text::views(words@)),
            Err(_) => shell_split(s@) is None,
        },
        (forall|i: int| 0 <= i < s@.len() ==> is_gap(#[trigger] s@[i])) ==> r is Ok && r->Ok_0@.len()
            == 0,
        unquoted(s@) ==> r is Ok,
;

/// Why a command cannot be run.
#[derive(Debug)]
pub enum CommandError {
    /// It cannot be split into words, for this reason.
    Bad(String),
    Empty,
}

impl CommandError {
    /// What is said of a command called `label`.
    pub fn message(&self, label: &str) -> (r: String)
        ensures
            r@ == match *self {
                CommandError::Bad(why) => "bad "@ + label@ + " command: "@ + why@,
                CommandError::Empty => "empty "@ + label@ + " command"@,
            },
    {
        let mut out = String::new();
        match self {
            CommandError::Bad(why) => {
                out.append("bad ");
                out.append(label);
                out.append(" command: ");
                out.append(why.as_str());
                assert(out@ =~= "bad "@ + label@ + " command: "@ + why@);
            },
            CommandError::Empty => {
                out.append("empty ");
                out.append(label);
                out.append(" command");
                assert(out@ =~= "empty "@ + label@ + " command"@);
            },
        }
        out
    }

    /// What is said of the command that starts the server.
    pub fn server_message(&self) -> (r: String)
        ensures
            r@ == match *self {
                CommandError::Bad(why) => "bad server command: "@ + why@,
                CommandError::Empty => "empty mlx server command"@,
            },
    {
        match self {
            CommandError::Bad(why) => {
                let mut out = String::new();
                out.append("bad server command: ");
                out.append(why.as_str());
                out
            },
            CommandError::Empty => "empty mlx server command".to_owned(),
        }
    }
}

/// A program and its arguments, where there is one among `words`.
pub fn program_of(words: Vec<String>) -> (r: Result<Vec<String>, CommandError>)
    ensures
        match r {
            Ok(v) => v == words && words@.len() > 0,
            Err(e) => e == CommandError::Empty && words@.len() == 0,
        },
{
    if words.len() == 0 {
        Err(CommandError::Empty)
    } else {
        Ok(words)
    }
}

/// The program and the arguments of a command.
pub fn argv(command: &str) -> (r: Result<Vec<String>, CommandError>)
    ensures
        match r {
            Ok(v) => v@.len() > 0 && shell_split(command@) == Some(text::views(v@)),
            Err(CommandError::Empty) => shell_split(command@) is Some && shell_split(
                command@,
            )->0.len() == 0,
            Err(CommandError::Bad(why)) => shell_split(command@) is None && why@
                == "missing closing quote"@,
        },
        unquoted(command@) ==> !(r is Err && r->Err_0 is Bad),
        (forall|i: int| 0 <= i < command@.len() ==> is_gap(#[trigger] command@[i])) ==> r is Err
            && r->Err_0 is Empty,
{
    match shell_words::split(command) {
        Ok(words) => program_of(words),
        Err(e) => Err(CommandError::Bad(parse_error_text(e))),
    }
}

/// Lines of stderr retained for the error message when a subprocess fails.
pub const ERR_TAIL_LINES: usize = 40;

/// The last lines that a subprocess printed.
#[derive(Debug)]
pub struct ErrorTail {
    lines: Vec<String>,
}

/// The last `ERR_TAIL_LINES` of `lines`.
pub open spec fn last_lines(lines: Seq<Seq<char>>) -> Seq<Seq<char>> {
    if lines.len() <= ERR_TAIL_LINES {
        lines
    } else {
        lines.skip(lines.len() - ERR_TAIL_LINES)
    }
}

impl View for ErrorTail {
    type V = Seq<Seq<char>>;

    closed spec fn view(&self) -> Seq<Seq<char>> {
        text::views(self.lines@)
    }
}

impl ErrorTail {
    pub fn new() -> (r: ErrorTail)
        ensures
            r@ == Seq::<Seq<char>>::empty(),
    {
        let r = ErrorTail { lines: Vec::new() };
        assert(r@ =~= Seq::<Seq<char>>::empty());
        r
    }

    #[verifier::type_invariant]
    closed spec fn is_short(&self) -> bool {
        self.lines@.len() <= ERR_TAIL_LINES
    }

    /// Take in a line. Of many, the last ones are kept.
    pub fn push(&mut self, line: String)
        ensures
            final(self)@ == last_lines(old(self)@.push(line@)),
    {
        proof {
            use_type_invariant(&*self);
        }
        let mut lines: Vec<String> = Vec::new();
        std::mem::swap(&mut lines, &mut self.lines);
        lines.push(line);
        let ghost grown = lines@;
        assert(text::views(grown) =~= old(self)@.push(line@));
        if lines.len() > ERR_TAIL_LINES {
            lines.remove(0);
            assert(text::views(lines@) =~= text::views(grown).skip(1));
        }
        self.lines = lines;
    }

    /// What is said of a command that failed with `status`.
    pub fn failure(&self, label: &str, status: &str) -> (r: String)
        ensures
            r@ == label@ + " failed ("@ + status@ + "):\n"@ + text::join(self@, "\n"@),
    {
        let mut out = String::new();
        out.append(label);
        out.append(" failed (");
        out.append(status);
        out.append("):\n");
        let tail = text::join_text(&self.lines, "\n");
        out.append(tail.as_str());
        assert(out@ =~= label@ + " failed ("@ + status@ + "):\n"@ + text::join(self@, "\n"@));
        out
    }
}

/// All that a subprocess printed, line by line, kept as the tail keeps it.
pub open spec fn tail_of(lines: Seq<Seq<char>>) -> Seq<Seq<char>>
    decreases lines.len(),
{
    if lines.len() == 0 {
        seq![]
    } else {
        last_lines(tail_of(lines.drop_last()).push(lines.last()))
    }
}

/// Taking in lines one at a time keeps the last of them all, in order.
pub proof fn law_tail_is_last_lines(lines: Seq<Seq<char>>)
    ensures
        tail_of(lines) == last_lines(lines),
    decreases lines.len(),
{
    if lines.len() > 0 {
        law_tail_is_last_lines(lines.drop_last());
        assert(tail_of(lines) =~= last_lines(lines));
    } else {
        assert(tail_of(lines) =~= last_lines(lines));
    }
}

/// Too few examples to train on.
#[derive(Debug)]
pub struct TooFewExamples {
    pub needed: usize,
    pub found: usize,
}

impl TooFewExamples {
    pub fn message(&self) -> (r: String)
        ensures
            r@ == "need at least "@ + numerals::decimal(self.needed as nat) + " examples, have "@
                + numerals::decimal(self.found as nat) + " — edit more replies first"@,
    {
        let mut out = String::new();
        out.append("need at least ");
        let needed = numerals::decimal_text(self.needed as u64);
        out.append(needed.as_str());
        out.append(" examples, have ");
        let found = numerals::decimal_text(self.found as u64);
        out.append(found.as_str());
        out.append(" — edit more replies first");
        out
    }
}

/// Why a fine-tune does not start.
#[derive(Debug)]
pub enum TrainError {
    Method(MethodIgnored),
    Examples(TooFewExamples),
}

impl TrainError {
    pub fn message(&self) -> (r: String)
        ensures
            r@ == match *self {
                TrainError::Method(e) =>
                    "the configured train_command hardcodes --fine-tune-type and won't honor method '"@
                    + e.method@
                    + "' — add the {fine_tune_type} placeholder (see the default config)"@,
                TrainError::Examples(e) => "need at least "@ + numerals::decimal(e.needed as nat)
                    + " examples, have "@ + numerals::decimal(e.found as nat)
                    + " — edit more replies first"@,
            },
    {
        match self {
            TrainError::Method(e) => e.message(),
            TrainError::Examples(e) => e.message(),
        }
    }
}

/// Whether a fine-tune on `found` examples may start.
pub fn check_start(f: &Finetune, found: usize) -> (r: Result<(), TrainError>)
    ensures
        match r {
            Ok(_) => config::honors_method(f.method@, f.train_command@) && found
                >= f.min_examples,
            Err(TrainError::Method(e)) => !config::honors_method(f.method@, f.train_command@)
                && e.method@ == f.method@,
            Err(TrainError::Examples(e)) => config::honors_method(f.method@, f.train_command@)
                && found < f.min_examples && e.needed == f.min_examples && e.found == found,
        },
{
    match f.check_method() {
        Ok(_) => {},
        Err(e) => {
            return Err(TrainError::Method(e));
        },
    }
    if found < f.min_examples {
        return Err(
            TrainError::Examples(TooFewExamples { needed: f.min_examples, found }),
        );
    }
    Ok(())
}

/// The split by conversation.
pub open spec fn conversation_split(ids: Seq<Seq<char>>, valid: Share) -> SplitView {
    dataset::split::split_of(
        ids,
        SplitSpec {
            strategy: SplitStrategy::ByConversation { seed: 0 },
            valid,
            test: Share { rounded: 0, positive: false },
        },
    )
}

/// How many examples at the end of the dataset are held out where conversations cannot
/// be: at least one, and not all, where there are two or more.
pub open spec fn held_out(n: nat, valid: Share) -> nat {
    let most = if n >= 2 {
        (n - 1) as nat
    } else {
        1
    };
    if valid.rounded < 1 {
        1
    } else if valid.rounded > most {
        most
    } else {
        valid.rounded as nat
    }
}

/// The examples to train on, and those to validate with. Conversations stay whole,
/// unless that would leave one side empty: the last examples are held out then.
pub open spec fn training_split(ids: Seq<Seq<char>>, valid: Share) -> (Seq<int>, Seq<int>) {
    let n = ids.len();
    let s = conversation_split(ids, valid);
    if s.train.len() > 0 && s.valid.len() > 0 {
        (s.train, s.valid)
    } else {
        let cut = n - held_out(n, valid);
        (dataset::split::positions(n).take(cut), dataset::split::positions(n).skip(cut))
    }
}

fn range_between(lo: usize, hi: usize) -> (r: Vec<usize>)
    requires
        lo <= hi,
    ensures
        group::ints(r@) == dataset::split::positions(hi as nat).subrange(lo as int, hi as int),
{
    let mut out: Vec<usize> = Vec::new();
    let mut i: usize = lo;
    while i < hi
        invariant
            lo <= i <= hi,
            out@.len() == i - lo,
            forall|k: int| 0 <= k < out@.len() ==> #[trigger] out@[k] == lo + k,
        decreases hi - i,
    {
        out.push(i);
        i += 1;
    }
    assert(group::ints(out@) =~= dataset::split::positions(hi as nat).subrange(lo as int, hi as int));
    out
}

/// The examples to train on, and those to validate with.
pub fn split_for_training(examples: &[TrainingExample], valid: Share) -> (r: (
    Vec<usize>,
    Vec<usize>,
))
    requires
        examples@.len() > 0,
    ensures
        (group::ints(r.0@), group::ints(r.1@)) == training_split(
            dataset::split::conversation_ids(examples@),
            valid,
        ),
        forall|k: int| 0 <= k < r.0@.len() ==> #[trigger] r.0@[k] < examples@.len(),
        forall|k: int| 0 <= k < r.1@.len() ==> #[trigger] r.1@[k] < examples@.len(),
{
    let ghost ids = dataset::split::conversation_ids(examples@);
    let n = examples.len();
    let spec = SplitSpec {
        strategy: SplitStrategy::ByConversation { seed: 0 },
        valid,
        test: Share { rounded: 0, positive: false },
    };
    let s = dataset::split::make_split(examples, &spec);
    proof {
        dataset::split::law_split_partitions(ids, spec);
        assert(s@.train.len() == s.train@.len() && s@.valid.len() == s.valid@.len());
        assert(dataset::split::is_partition(s@, n as nat));
    }
    if s.train.len() > 0 && s.valid.len() > 0 {
        proof {
            assert forall|k: int| 0 <= k < s.train@.len() implies #[trigger] s.train@[k]
                < examples@.len() by {
                assert(s@.train[k] == s.train@[k] as int);
                assert(s@.train.contains(s@.train[k]));
            }
            assert forall|k: int| 0 <= k < s.valid@.len() implies #[trigger] s.valid@[k]
                < examples@.len() by {
                assert(s@.valid[k] == s.valid@[k] as int);
                assert(s@.valid.contains(s@.valid[k]));
                dataset::split::lemma_side_in_range(s@, n as nat, s@.valid[k]);
            }
        }
        return (s.train, s.valid);
    }
    let most = if n >= 2 {
        n - 1
    } else {
        1
    };
    let held = if valid.rounded < 1 {
        1
    } else if valid.rounded > most {
        most
    } else {
        valid.rounded
    };
    let cut = n - held;
    let train = range_between(0, cut);
    let held_back = range_between(cut, n);
    proof {
        assert(group::ints(train@) =~= dataset::split::positions(n as nat).take(cut as int));
        assert(group::ints(held_back@) =~= dataset::split::positions(n as nat).skip(cut as int));
        assert(group::ints(held_back@).len() == held_back@.len());
        assert forall|k: int| 0 <= k < train@.len() implies #[trigger] train@[k]
            < examples@.len() by {
            assert(group::ints(train@)[k] == train@[k] as int);
        }
        assert forall|k: int| 0 <= k < held_back@.len() implies #[trigger] held_back@[k]
            < examples@.len() by {
            assert(group::ints(held_back@)[k] == held_back@[k] as int);
            assert(dataset::split::positions(n as nat).skip(cut as int)[k] == cut + k);
        }
    }
    (train, held_back)
}

/// Of two examples or more, some are trained on and some are held out; every example
/// is one or the other, and none is both.
pub proof fn law_training_split(ids: Seq<Seq<char>>, valid: Share)
    requires
        ids.len() >= 2,
    ensures
        ({
            let (train, held) = training_split(ids, valid);
            &&& train.len() > 0
            &&& held.len() > 0
            &&& forall|i: int|
                0 <= i < ids.len() <==> #[trigger] train.contains(i) || held.contains(i)
            &&& forall|i: int| !(#[trigger] train.contains(i) && held.contains(i))
        }),
{
    let n = ids.len();
    let s = conversation_split(ids, valid);
    let spec = SplitSpec {
        strategy: SplitStrategy::ByConversation { seed: 0 },
        valid,
        test: Share { rounded: 0, positive: false },
    };
    dataset::split::law_split_partitions(ids, spec);
    lemma_no_test_side(ids, valid);
    let (train, held) = training_split(ids, valid);
    if s.train.len() > 0 && s.valid.len() > 0 {
        assert forall|i: int| 0 <= i < n <==> #[trigger] train.contains(i) || held.contains(i) by {
            assert(!s.test.contains(i));
            assert(0 <= i < n <==> s.train.contains(i) || s.valid.contains(i) || s.test.contains(
                i,
            ));
        }
    } else {
        let cut = n - held_out(n, valid);
        let all = dataset::split::positions(n);
        assert forall|i: int| 0 <= i < n <==> #[trigger] train.contains(i) || held.contains(i) by {
            if 0 <= i < n {
                if i < cut {
                    assert(train[i] == i);
                } else {
                    assert(held[i - cut] == i);
                }
            }
            if train.contains(i) {
                let p = train.index_of(i);
                assert(all[p] == i);
            }
            if held.contains(i) {
                let p = held.index_of(i);
                assert(all[cut + p] == i);
            }
        }
        assert forall|i: int| !(#[trigger] train.contains(i) && held.contains(i)) by {
            if train.contains(i) && held.contains(i) {
                let p = train.index_of(i);
                let q = held.index_of(i);
                assert(all[p] == i);
                assert(all[cut + q] == i);
            }
        }
    }
}

/// Nothing is dealt to test where nothing is asked for it.
proof fn lemma_no_test_side(ids: Seq<Seq<char>>, valid: Share)
    ensures
        conversation_split(ids, valid).test.len() == 0,
{
    let n = ids.len();
    if n > 0 {
        let gs = group::groups(ids, n);
        lemma_none_dealt(
            gs,
            dataset::shuffle::shuffled(dataset::split::positions(gs.len()), 0),
            dataset::split::valid_target(n, valid),
        );
    }
}

proof fn lemma_none_dealt(groups: Seq<Seq<int>>, order: Seq<int>, vt: nat)
    ensures
        dataset::split::dealt(groups, order, vt, 0).test.len() == 0,
    decreases order.len(),
{
    if order.len() > 0 {
        lemma_none_dealt(groups, order.drop_last(), vt);
    }
}

/// No conversation is both trained on and held out, where conversations can be told
/// apart at all: where the split by conversation leaves neither side empty.
pub proof fn law_training_split_keeps_conversations(
    ids: Seq<Seq<char>>,
    valid: Share,
    i: int,
    j: int,
)
    requires
        conversation_split(ids, valid).train.len() > 0,
        conversation_split(ids, valid).valid.len() > 0,
        0 <= i < ids.len(),
        0 <= j < ids.len(),
        ids[i] == ids[j],
    ensures
        training_split(ids, valid).0.contains(i) ==> !training_split(ids, valid).1.contains(j),
{
    let spec = SplitSpec {
        strategy: SplitStrategy::ByConversation { seed: 0 },
        valid,
        test: Share { rounded: 0, positive: false },
    };
    dataset::split::law_no_leakage(ids, spec, i, j);
    dataset::split::law_split_partitions(ids, spec);
}

/// How many of `n` examples, two or more, are to be held out: the number asked for, but at
/// least one, and not all.
pub open spec fn wanted_back(n: nat, valid: Share) -> nat {
    if valid.rounded == 0 {
        1
    } else if valid.rounded < n {
        valid.rounded as nat
    } else {
        (n - 1) as nat
    }
}

/// The examples that are held out are the ones to validate with, in their number: as many
/// as are wanted, and less than one conversation more. All others are trained on. Where
/// every example is a conversation of its own, it is exactly as many.
pub proof fn law_held_out_is_what_is_asked(ids: Seq<Seq<char>>, valid: Share)
    requires
        ids.len() >= 2,
    ensures
        ({
            let n = ids.len();
            let (train, held) = training_split(ids, valid);
            let want = wanted_back(n, valid);
            &&& train.len() + held.len() == n
            &&& train.len() > 0
            &&& held.len() >= want
            &&& exists|i: int| #[trigger]
                held.contains(i) && 0 <= i < n && held.len() < want
                    + dataset::split::conversation_size(ids, ids[i])
            &&& ids.no_duplicates() ==> held.len() == want
        }),
{
    let n = ids.len();
    let (train, held) = training_split(ids, valid);
    let want = wanted_back(n, valid);
    let s = conversation_split(ids, valid);
    let spec = SplitSpec {
        strategy: SplitStrategy::ByConversation { seed: 0 },
        valid,
        test: Share { rounded: 0, positive: false },
    };
    dataset::split::law_sides_hold_what_is_asked(ids, spec);
    dataset::split::law_split_partitions(ids, spec);
    if s.train.len() > 0 && s.valid.len() > 0 {
        let v = dataset::split::asked(valid, n >= 2);
        let i = choose|i: int| #[trigger]
            s.valid.contains(i) && s.valid.len() < v + dataset::split::conversation_size(
                ids,
                ids[i],
            );
        dataset::split::lemma_side_in_range(s, n, i);
        assert(v == want);
        assert(held.contains(i));
        if ids.no_duplicates() {
            dataset::split::lemma_single(ids, i);
        }
    } else {
        let i = held[0];
        assert(held.contains(i));
        assert(i == n - want);
        dataset::split::lemma_some(ids, i);
    }
}

/// Conversations stay whole, or else the last examples are the ones that are held out, as
/// many as are wanted. Where some examples, not all, are asked for, and every conversation
/// leaves examples to train on beside them, they stay whole.
pub proof fn law_training_split_by_conversation(ids: Seq<Seq<char>>, valid: Share)
    requires
        ids.len() >= 2,
    ensures
        ({
            let n = ids.len();
            let (train, held) = training_split(ids, valid);
            let want = wanted_back(n, valid);
            let whole = forall|i: int, j: int|
                #![trigger train.contains(i), held.contains(j)]
                train.contains(i) && held.contains(j) ==> ids[i] != ids[j];
            &&& whole || forall|i: int| #[trigger] held.contains(i) <==> n - want <= i < n
            &&& (0 < valid.rounded < n || (valid.rounded == 0 && valid.positive)) && (forall|i: int|
                0 <= i < n ==> want + dataset::split::conversation_size(ids, #[trigger] ids[i])
                    <= n) ==> whole
        }),
{
    let n = ids.len();
    let (train, held) = training_split(ids, valid);
    let want = wanted_back(n, valid);
    let s = conversation_split(ids, valid);
    let spec = SplitSpec {
        strategy: SplitStrategy::ByConversation { seed: 0 },
        valid,
        test: Share { rounded: 0, positive: false },
    };
    dataset::split::law_sides_hold_what_is_asked(ids, spec);
    dataset::split::law_split_partitions(ids, spec);
    if s.train.len() > 0 && s.valid.len() > 0 {
        assert forall|i: int, j: int|
            #![trigger train.contains(i), held.contains(j)]
            train.contains(i) && held.contains(j) implies ids[i] != ids[j] by {
            dataset::split::lemma_side_in_range(s, n, i);
            dataset::split::lemma_side_in_range(s, n, j);
            if ids[i] == ids[j] {
                law_training_split_keeps_conversations(ids, valid, i, j);
            }
        }
    } else {
        let cut = n - want;
        assert forall|i: int| #[trigger] held.contains(i) <==> cut <= i < n by {
            if held.contains(i) {
                let p = held.index_of(i);
                assert(dataset::split::positions(n)[cut + p] == i);
            }
            if cut <= i < n {
                assert(held[i - cut] == i);
            }
        }
        if (0 < valid.rounded < n || (valid.rounded == 0 && valid.positive)) && (forall|i: int|
            0 <= i < n ==> want + dataset::split::conversation_size(ids, #[trigger] ids[i])
                <= n) {
            let v = dataset::split::asked(valid, n >= 2);
            assert(v >= 1);
            assert(s.valid.len() > 0);
            let i = choose|i: int| #[trigger]
                s.valid.contains(i) && s.valid.len() < v + dataset::split::conversation_size(
                    ids,
                    ids[i],
                );
            dataset::split::lemma_side_in_range(s, n, i);
            dataset::split::lemma_some(ids, i);
            assert(want + dataset::split::conversation_size(ids, ids[i]) <= n);
            assert(s.train.len() == 0 && s.valid.len() == n);
        }
    }
}

/// The record of each example at `positions`, as the trainer reads it.
pub open spec fn training_lines(
    examples: Seq<TrainingExample>,
    positions: Seq<int>,
) -> Seq<Seq<char>> {
    positions.map_values(
        |i: int|
            json::json_pairs(
                "messages"@,
                "role"@,
                "content"@,
                dataset::format::pairs_of(examples[i]@.messages, Format::Mlx),
            ),
    )
}

/// The trainer, reading `s` line by line, finds the messages of the examples at `positions`,
/// all of them in their order, and nothing else.
pub open spec fn trains_on(
    s: Seq<char>,
    examples: Seq<TrainingExample>,
    positions: Seq<int>,
) -> bool {
    let lines = text::lines(s);
    &&& lines.len() == positions.len()
    &&& forall|k: int|
        0 <= k < lines.len() ==> {
            let line = #[trigger] lines[k];
            &&& dataset::format::turns_in(json::json_node(line), Format::Mlx) == Some(
                examples[positions[k]]@.messages,
            )
            &&& json::has_one_entry(line, "messages"@)
        }
}

/// The examples at `positions` in MLX chat format (messages only), one per line.
pub fn training_jsonl(examples: &[TrainingExample], positions: &Vec<usize>) -> (r: String)
    requires
        forall|k: int| 0 <= k < positions@.len() ==> #[trigger] positions@[k] < examples@.len(),
    ensures
        r@ == records::jsonl(training_lines(examples@, group::ints(positions@))),
        trains_on(r@, examples@, group::ints(positions@)),
{
    let ghost want = training_lines(examples@, group::ints(positions@));
    let mut out = String::new();
    let mut k: usize = 0;
    assert(want.take(0) =~= seq![]);
    while k < positions.len()
        invariant
            k <= positions@.len(),
            forall|p: int|
                0 <= p < positions@.len() ==> #[trigger] positions@[p] < examples@.len(),
            want == training_lines(examples@, group::ints(positions@)),
            out@ == records::jsonl(want.take(k as int)),
            forall|p: int|
                0 <= p < k ==> records::is_record(#[trigger] want[p])
                    && dataset::format::turns_in(json::json_node(want[p]), Format::Mlx) == Some(
                    examples@[positions@[p] as int]@.messages,
                ) && json::has_one_entry(want[p], "messages"@),
        decreases positions@.len() - k,
    {
        let e = &examples[positions[k]];
        let line = dataset::format::record_text(&e.messages, Format::Mlx);
        assert(line@ == want[k as int]);
        proof {
            dataset::format::lemma_read_back(line@, e@.messages, Format::Mlx);
        }
        assert(want.take(k + 1).drop_last() =~= want.take(k as int));
        let ghost before = out@;
        out.append(line.as_str());
        out.push('\n');
        assert(out@ =~= before + line@ + seq!['\n']);
        k += 1;
    }
    assert(want.take(k as int) =~= want);
    proof {
        records::law_records_of_jsonl(want);
        assert forall|p: int| 0 <= p < want.len() implies dataset::format::turns_in(
            json::json_node(#[trigger] want[p]),
            Format::Mlx,
        ) == Some(examples@[group::ints(positions@)[p]]@.messages) by {
            assert(group::ints(positions@)[p] == positions@[p] as int);
        }
    }
    out
}

/// A line of progress: `label: line`.
pub fn labelled(label: &str, line: &str) -> (r: String)
    ensures
        r@ == label@ + ": "@ + line@,
{
    let mut out = String::new();
    out.append(label);
    out.append(": ");
    out.append(line);
    assert(out@ =~= label@ + ": "@ + line@);
    out
}

/// The line that tells how many examples are prepared.
pub fn preparing_line(n: usize) -> (r: String)
    ensures
        r@ == "preparing "@ + numerals::decimal(n as nat) + " examples"@,
{
    let mut out = String::new();
    out.append("preparing ");
    let count = numerals::decimal_text(n as u64);
    out.append(count.as_str());
    out.append(" examples");
    assert(out@ =~= "preparing "@ + numerals::decimal(n as nat) + " examples"@);
    out
}

/// There is no brace in `s`.
pub open spec fn unbraced(s: Seq<char>) -> bool {
    forall|i: int| 0 <= i < s.len() ==> #[trigger] s[i] != '{' && s[i] != '}'
}

/// A slot between texts without braces is where its name stands, and no other slot is.
proof fn lemma_only_slot(t0: Seq<char>, name: Seq<char>, t1: Seq<char>, other: Seq<char>)
    requires
        unbraced(t0),
        unbraced(t1),
        unbraced(name),
        unbraced(other),
        other != name,
    ensures
        !text::contains(t0 + slot(name) + t1, slot(other)),
{
    let s = t0 + slot(name) + t1;
    let n = t0.len() as int;
    if text::contains(s, slot(other)) {
        let p = choose|p: int| text::occurs_at(s, slot(other), p);
        let here = s.subrange(p, p + slot(other).len());
        assert(here[0] == s[p]);
        if p < n {
            assert(s[p] == t0[p]);
        } else if p > n && p < n + slot(name).len() {
            assert(s[p] == slot(name)[p - n]);
            if p - n - 1 < name.len() {
                assert(slot(name)[p - n] == name[p - n - 1]);
            }
        } else if p >= n + slot(name).len() {
            assert(s[p] == t1[p - n - slot(name).len()]);
        } else {
            let end = other.len() as int + 1;
            assert(here[end] == '}');
            assert(s[n + name.len() + 1] == '}');
            if end < name.len() + 1 {
                assert(s[p + end] == name[end - 1]);
            } else if name.len() + 1 < end {
                assert(here[name.len() as int + 1] == other[name.len() as int]);
            } else {
                assert forall|i: int| 0 <= i < name.len() implies other[i] == name[i] by {
                    assert(here[i + 1] == other[i]);
                    assert(s[n + i + 1] == name[i]);
                }
                assert(other =~= name);
            }
        }
    }
}

/// Text without braces has no slot.
proof fn lemma_no_slot(s: Seq<char>, name: Seq<char>)
    requires
        unbraced(s),
    ensures
        !text::contains(s, slot(name)),
{
    if text::contains(s, slot(name)) {
        let p = choose|p: int| text::occurs_at(s, slot(name), p);
        assert(s.subrange(p, p + slot(name).len())[0] == s[p]);
    }
}

/// Filling a template with one slot puts the value of its name there.
proof fn lemma_slot_filled(
    vars: Seq<(Seq<char>, Seq<char>)>,
    k: int,
    t0: Seq<char>,
    t1: Seq<char>,
    n: nat,
)
    requires
        0 <= k < vars.len(),
        n <= vars.len(),
        unbraced(t0),
        unbraced(t1),
        unbraced(vars[k].1),
        forall|i: int| 0 <= i < vars.len() ==> unbraced((#[trigger] vars[i]).0),
        forall|i: int| 0 <= i < vars.len() && i != k ==> (#[trigger] vars[i]).0 != vars[k].0,
    ensures
        filled(t0 + slot(vars[k].0) + t1, vars.take(n as int)) == if k < n {
            t0 + vars[k].1 + t1
        } else {
            t0 + slot(vars[k].0) + t1
        },
    decreases n,
{
    let template = t0 + slot(vars[k].0) + t1;
    if n > 0 {
        lemma_slot_filled(vars, k, t0, t1, (n - 1) as nat);
        let last = n - 1;
        assert(vars.take(n as int).drop_last() =~= vars.take(last));
        assert(vars.take(n as int).last() == vars[last]);
        let now = filled(template, vars.take(last));
        let (name, value) = vars[last];
        if last < k {
            lemma_only_slot(t0, vars[k].0, t1, name);
        } else if last > k {
            let all = t0 + vars[k].1 + t1;
            assert(unbraced(all));
            lemma_no_slot(all, name);
        } else {
            let short = (t0 + slot(name)).drop_last();
            assert(!text::contains(short, slot(name))) by {
                if text::contains(short, slot(name)) {
                    let p = choose|p: int| text::occurs_at(short, slot(name), p);
                    assert(short.subrange(p, p + slot(name).len())[0] == short[p]);
                    assert(p < t0.len());
                    assert(short[p] == t0[p]);
                }
            }
            lemma_no_slot(t1, name);
            text::law_replaced(t0, slot(name), t1, value);
            text::law_replaced(t1, slot(name), seq![], value);
        }
    } else {
        assert(vars.take(0) =~= seq![]);
    }
}

/// The slot of `name` in a template, between texts without braces, is filled with `value`,
/// where that has none either.
pub open spec fn fills(f: Finetune, w: WorkPaths, name: Seq<char>, value: Seq<char>) -> bool {
    forall|t0: Seq<char>, t1: Seq<char>|
        unbraced(t0) && unbraced(t1) && unbraced(value) ==> #[trigger] filled(
            t0 + slot(name) + t1,
            vars_of(f, w),
        ) == t0 + value + t1
}

proof fn lemma_fills(f: Finetune, w: WorkPaths, k: int)
    requires
        0 <= k < vars_of(f, w).len(),
    ensures
        fills(f, w, vars_of(f, w)[k].0, vars_of(f, w)[k].1),
{
    let vars = vars_of(f, w);
    lemma_names_apart(f, w);
    assert forall|t0: Seq<char>, t1: Seq<char>|
        unbraced(t0) && unbraced(t1) && unbraced(vars[k].1) implies #[trigger] filled(
        t0 + slot(vars[k].0) + t1,
        vars,
    ) == t0 + vars[k].1 + t1 by {
        lemma_slot_filled(vars, k, t0, t1, vars.len());
        assert(vars.take(vars.len() as int) =~= vars);
    }
}

/// The names of the slots have no braces, and no two are the same.
proof fn lemma_names_apart(f: Finetune, w: WorkPaths)
    ensures
        forall|i: int| 0 <= i < vars_of(f, w).len() ==> unbraced((#[trigger] vars_of(f, w)[i]).0),
        forall|i: int, j: int|
            0 <= i < vars_of(f, w).len() && 0 <= j < vars_of(f, w).len() && i != j ==> (
            #[trigger] vars_of(f, w)[i]).0 != (#[trigger] vars_of(f, w)[j]).0,
{
    reveal_strlit("base");
    reveal_strlit("data");
    reveal_strlit("adapters");
    reveal_strlit("fused");
    reveal_strlit("iters");
    reveal_strlit("batch");
    reveal_strlit("layers");
    reveal_strlit("lr");
    reveal_strlit("fine_tune_type");
    reveal_strlit("extra_args");
    reveal_strlit("port");
    reveal_strlit("llama_cpp");
    reveal_strlit("tag");
    let vars = vars_of(f, w);
    assert(vars[0].0.len() == 4 && vars[0].0[0] == 'b');
    assert(vars[1].0.len() == 4 && vars[1].0[0] == 'd');
    assert(vars[2].0.len() == 8 && vars[2].0[0] == 'a');
    assert(vars[3].0.len() == 5 && vars[3].0[0] == 'f');
    assert(vars[4].0.len() == 5 && vars[4].0[0] == 'i');
    assert(vars[5].0.len() == 5 && vars[5].0[0] == 'b');
    assert(vars[6].0.len() == 6 && vars[6].0[0] == 'l');
    assert(vars[7].0.len() == 2 && vars[7].0[0] == 'l');
    assert(vars[8].0.len() == 14 && vars[8].0[0] == 'f');
    assert(vars[9].0.len() == 10 && vars[9].0[0] == 'e');
    assert(vars[10].0.len() == 4 && vars[10].0[0] == 'p');
    assert(vars[11].0.len() == 9 && vars[11].0[0] == 'l');
    assert(vars[12].0.len() == 3 && vars[12].0[0] == 't');
    assert forall|i: int, j: int|
        0 <= i < vars.len() && 0 <= j < vars.len() && i != j implies (#[trigger] vars[i]).0 != (
    #[trigger] vars[j]).0 by {
        if vars[i].0 == vars[j].0 {
            assert(vars[i].0.len() == vars[j].0.len() && vars[i].0[0] == vars[j].0[0]);
        }
    }
}

/// Every slot of a template is filled with what it stands for: the base model, the
/// directories, the settings of the training, the port, and what deploys to Ollama.
pub proof fn law_slots_are_filled(f: Finetune, w: WorkPaths)
    ensures
        fills(f, w, "base"@, f.mlx_base@),
        fills(f, w, "data"@, w.data@),
        fills(f, w, "adapters"@, w.adapters@),
        f.method@ == "full"@ ==> fills(f, w, "fused"@, w.adapters@),
        f.method@ != "full"@ ==> fills(f, w, "fused"@, w.fused@),
        fills(f, w, "iters"@, numerals::decimal(f.iters as nat)),
        fills(f, w, "batch"@, numerals::decimal(f.batch as nat)),
        fills(f, w, "layers"@, numerals::decimal(f.layers as nat)),
        fills(f, w, "lr"@, f.learning_rate@),
        fills(f, w, "fine_tune_type"@, f.method@),
        fills(f, w, "extra_args"@, f.extra_args@),
        fills(f, w, "port"@, numerals::decimal(f.mlx_server_port as nat)),
        fills(f, w, "llama_cpp"@, f.llama_cpp_dir@),
        fills(f, w, "tag"@, f.ollama_tag@),
{
    lemma_fills(f, w, 0);
    lemma_fills(f, w, 1);
    lemma_fills(f, w, 2);
    lemma_fills(f, w, 3);
    lemma_fills(f, w, 4);
    lemma_fills(f, w, 5);
    lemma_fills(f, w, 6);
    lemma_fills(f, w, 7);
    lemma_fills(f, w, 8);
    lemma_fills(f, w, 9);
    lemma_fills(f, w, 10);
    lemma_fills(f, w, 11);
    lemma_fills(f, w, 12);
}

/// What is run is what is configured: a train or fuse command without slots is run as it
/// stands, and the training comes first.
pub proof fn law_configured_commands_are_run(f: Finetune, w: WorkPaths)
    ensures
        unbraced(f.train_command@) ==> making_commands(f, w)[0] == ("train"@, f.train_command@),
        unbraced(f.fuse_command@) && f.method@ != "full"@ ==> making_commands(f, w)[1] == (
            "fuse"@,
            f.fuse_command@,
        ),
{
    if unbraced(f.train_command@) {
        law_plain_template(f.train_command@, vars_of(f, w));
    }
    if unbraced(f.fuse_command@) {
        law_plain_template(f.fuse_command@, vars_of(f, w));
    }
}

/// A fine-tune is served or converted as configured: on its port, under its directory or
/// tag, by its commands, and, for Ollama, with its system prompt.
pub proof fn law_deployed_as_configured(
    p: DeployPlan,
    f: Finetune,
    system_prompt: Seq<char>,
    w: WorkPaths,
)
    requires
        is_deploy_plan(p, f, system_prompt, w),
    ensures
        p is Serve <==> f.deploy_mode@ == "mlx_server"@,
        p is Gguf <==> f.deploy_mode@ == "ollama_gguf"@,
        p is Serve ==> p->base_url@ == "http://localhost:"@ + numerals::decimal(
            f.mlx_server_port as nat,
        ) + "/v1/chat/completions"@,
        p is Serve && f.method@ == "full"@ ==> p->Serve_model@ == w.adapters@,
        p is Serve && f.method@ != "full"@ ==> p->Serve_model@ == w.fused@,
        p is Serve && unbraced(f.mlx_server_command@) ==> p->command@ == f.mlx_server_command@,
        p is Gguf ==> p->Gguf_model@ == f.ollama_tag@ && f.llama_cpp_dir@.len() > 0,
        p is Gguf && unbraced(f.gguf_convert_command@) ==> p->convert@ == f.gguf_convert_command@,
        p is Gguf && unbraced(f.ollama_create_command@) ==> p->create@
            == f.ollama_create_command@,
        p is Gguf && f.method@ == "full"@ ==> p->modelfile@ == "FROM "@ + (w.adapters@
            + "/model-f16.gguf"@) + "\nSYSTEM \"\"\""@ + system_prompt + "\"\"\"\n"@,
        p is Gguf && f.method@ != "full"@ ==> p->modelfile@ == "FROM "@ + (w.fused@
            + "/model-f16.gguf"@) + "\nSYSTEM \"\"\""@ + system_prompt + "\"\"\"\n"@,
{
    reveal_strlit("mlx_server");
    reveal_strlit("ollama_gguf");
    assert("mlx_server"@.len() != "ollama_gguf"@.len());
    let vars = vars_of(f, w);
    if unbraced(f.mlx_server_command@) {
        law_plain_template(f.mlx_server_command@, vars);
    }
    if unbraced(f.gguf_convert_command@) {
        law_plain_template(f.gguf_convert_command@, vars);
    }
    if unbraced(f.ollama_create_command@) {
        law_plain_template(f.ollama_create_command@, vars.push(("modelfile"@, w.modelfile@)));
    }
}

} // verus!
