//! What the headless commands decide, apart from reading and printing.

use crate::chat;
use crate::chat::{Mode, UnknownMode};
use crate::clock;
use crate::config;
use crate::config::Config;
use crate::llm::types::{ChatRequest, Float64, RequestView, SamplingView, Turn};
use crate::model::conversation;
use crate::model::{Message, Role, TrainingExample};
use crate::numerals;
use crate::runs::{DatasetRef, Run, RunKind, RunStatus};
use crate::session;
use crate::session::{SessionView, Stamp};
use crate::text;
use vstd::prelude::*;

verus! {

/// Why a chat does not start.
#[derive(Debug)]
pub enum ChatRefused {
    /// The chat role names a provider that is not configured.
    DanglingProvider,
    Mode(UnknownMode),
    EmptyPrompt,
}

impl ChatRefused {
    pub fn message(&self) -> (r: String)
        ensures
            r@ == match *self {
                ChatRefused::DanglingProvider =>
                    "the chat provider profile was not found in [providers] — check --provider or [roles].chat in the config"@,
                ChatRefused::Mode(e) => "unknown mode '"@ + e.name@
                    + "' (expected assistant | tech | convo)"@,
                ChatRefused::EmptyPrompt => "empty prompt — pass --message or pipe text on stdin"@,
            },
    {
        match self {
            ChatRefused::DanglingProvider =>
                "the chat provider profile was not found in [providers] — check --provider or [roles].chat in the config".to_owned(),
            ChatRefused::Mode(e) => e.message(),
            ChatRefused::EmptyPrompt => {
                "empty prompt — pass --message or pipe text on stdin".to_owned()
            },
        }
    }
}

/// The chat role names a provider that is not configured.
pub open spec fn is_dangling(c: Config) -> bool {
    c.roles.chat is Some && !c.providers.has(c.roles.chat->0@)
}

/// Refuse a chat role that names no provider, instead of silently falling back.
pub fn ensure_provider_resolvable(cfg: &Config) -> (r: Result<(), ChatRefused>)
    ensures
        match r {
            Ok(_) => !is_dangling(*cfg),
            Err(e) => is_dangling(*cfg) && e == ChatRefused::DanglingProvider,
        },
{
    if cfg.chat_role_is_dangling() {
        Err(ChatRefused::DanglingProvider)
    } else {
        Ok(())
    }
}

/// The persona of a chat, where it may start at all.
pub fn check_chat(cfg: &Config, mode: &str) -> (r: Result<Mode, ChatRefused>)
    ensures
        match r {
            Ok(m) => !is_dangling(*cfg) && chat::mode_named(mode@) == Some(m),
            Err(ChatRefused::DanglingProvider) => is_dangling(*cfg),
            Err(ChatRefused::Mode(e)) => !is_dangling(*cfg) && chat::mode_named(mode@) is None
                && e.name@ == mode@,
            Err(ChatRefused::EmptyPrompt) => false,
        },
{
    match ensure_provider_resolvable(cfg) {
        Ok(_) => {},
        Err(e) => {
            return Err(e);
        },
    }
    match chat::parse_mode(mode) {
        Ok(m) => Ok(m),
        Err(e) => Err(ChatRefused::Mode(e)),
    }
}

/// Sampling parameters asked for on the command line.
#[derive(Debug, Clone, Copy)]
pub struct Overrides {
    pub temperature: Option<Float64>,
    pub max_tokens: Option<u32>,
    pub seed: Option<u64>,
}

/// What is asked for, where it is asked for.
pub open spec fn either<T>(asked: Option<T>, configured: Option<T>) -> Option<T> {
    match asked {
        Some(t) => Some(t),
        None => configured,
    }
}

/// The configured sampling with what the command line asks for.
pub open spec fn overridden(s: SamplingView, o: Overrides) -> SamplingView {
    SamplingView {
        temperature: either(o.temperature, s.temperature),
        max_tokens: either(o.max_tokens, s.max_tokens),
        seed: either(o.seed, s.seed),
        ..s
    }
}

/// The request of a one-shot chat: the persona's prompt, and the user's.
pub open spec fn one_shot(c: Config, mode: Mode, prompt: Seq<char>, o: Overrides) -> RequestView {
    RequestView {
        model: config::chat_profile(c).model,
        messages: seq![
            Turn { role: "system"@, content: chat::prompt_of(mode, c, c.system_prompt@) },
            Turn { role: "user"@, content: prompt },
        ],
        stream: true,
        sampling: overridden(config::sampling_of(c.generation), o),
    }
}

/// The request of a one-shot chat, unless the prompt is blank.
pub fn one_shot_request(
    cfg: &Config,
    mode: Mode,
    prompt: String,
    overrides: Overrides,
    stamp: Stamp,
) -> (r: Result<ChatRequest, ChatRefused>)
    ensures
        match r {
            Ok(request) => !text::blank(prompt@) && request@ == one_shot(
                *cfg,
                mode,
                prompt@,
                overrides,
            ),
            Err(e) => text::blank(prompt@) && e == ChatRefused::EmptyPrompt,
        },
{
    if text::is_blank(prompt.as_str()) {
        return Err(ChatRefused::EmptyPrompt);
    }
    let system = mode.system_prompt(cfg, cfg.system_prompt.as_str());
    let mut messages: Vec<Message> = Vec::new();
    let ghost said = prompt@;
    messages.push(Message::at(stamp.id, stamp.at, Role::User, prompt));
    let wire = chat::build_wire(system.as_str(), messages.as_slice());
    proof {
        let ms = conversation::message_views(messages@);
        let m = conversation::plain_message(stamp.id, stamp.at@, Role::User, said);
        assert(ms =~= seq![m]);
        reveal(Seq::filter);
        assert(ms.drop_last() =~= seq![]);
        assert(chat::sent(ms.drop_last()) =~= seq![]);
        assert(chat::sent(ms) =~= seq![Turn { role: "user"@, content: said }]);
        assert(chat::wire(system@, ms) =~= one_shot(*cfg, mode, said, overrides).messages);
    }
    let mut request = cfg.chat_request(wire);
    if let Some(t) = overrides.temperature {
        request.sampling.temperature = Some(t);
    }
    if let Some(m) = overrides.max_tokens {
        request.sampling.max_tokens = Some(m);
    }
    if let Some(s) = overrides.seed {
        request.sampling.seed = Some(s);
    }
    Ok(request)
}

/// The command line and the window ask the same: a conversation that starts with what the
/// user typed is sent as a one-shot chat of it, in the same persona, would be.
pub proof fn law_frontends_agree(c: Config, s: SessionView, asked: Stamp)
    requires
        s.conv.messages.len() == 0,
        s.conv.system_prompt == c.system_prompt@,
        !text::blank(s.input),
    ensures
        session::turn_request(session::spoken_to(s, asked), c) == one_shot(
            c,
            s.mode,
            text::trim(s.input),
            Overrides { temperature: None, max_tokens: None, seed: None },
        ),
{
    let none = Overrides { temperature: None, max_tokens: None, seed: None };
    let said = text::trim(s.input);
    let ms = session::spoken_to(s, asked).conv.messages;
    let m = conversation::plain_message(asked.id, asked.at@, Role::User, said);
    text::lemma_blank_trim(s.input);
    text::lemma_trim_twice(s.input);
    text::lemma_blank_trim(said);
    assert(ms =~= seq![m]);
    reveal(Seq::filter);
    assert(ms.drop_last() =~= seq![]);
    assert(chat::sent(ms.drop_last()) =~= seq![]);
    assert(chat::sent(ms) =~= seq![Turn { role: "user"@, content: said }]);
    assert(chat::wire(chat::prompt_of(s.mode, c, c.system_prompt@), ms) =~= one_shot(
        c,
        s.mode,
        said,
        none,
    ).messages);
}

/// Replacing a dataset with nothing is refused.
#[derive(Debug)]
pub struct EmptyReplacement {}

/// What a dataset is after an import.
pub open spec fn after_import(
    existing: Seq<TrainingExample>,
    imported: Seq<TrainingExample>,
    replace: bool,
) -> Seq<TrainingExample> {
    if replace {
        imported
    } else {
        existing + imported
    }
}

/// What a dataset is after an import: more, or, if asked for, something else. It is not
/// replaced by nothing.
pub fn merge_import(
    existing: Vec<TrainingExample>,
    imported: Vec<TrainingExample>,
    replace: bool,
) -> (r: Result<Vec<TrainingExample>, EmptyReplacement>)
    ensures
        match r {
            Ok(v) => !(replace && imported@.len() == 0) && v@ == after_import(
                existing@,
                imported@,
                replace,
            ),
            Err(_) => replace && imported@.len() == 0,
        },
{
    if replace {
        if imported.len() == 0 {
            return Err(EmptyReplacement {  });
        }
        return Ok(imported);
    }
    let ghost old_ones = existing@;
    let ghost new_ones = imported@;
    let mut all = existing;
    assert(all@ =~= old_ones + new_ones.take(0));
    for e in it: imported
        invariant
            it.seq() == new_ones,
            all@ == old_ones + new_ones.take(it.index() as int),
    {
        let ghost i = it.index() as int;
        all.push(e);
        assert(all@ =~= old_ones + new_ones.take(i + 1));
    }
    assert(new_ones.take(new_ones.len() as int) =~= new_ones);
    Ok(all)
}

/// What a kind of run is called.
pub open spec fn kind_name(k: RunKind) -> Seq<char> {
    match k {
        RunKind::Train => "Train"@,
        RunKind::Eval => "Eval"@,
        RunKind::Sweep => "Sweep"@,
    }
}

/// What the status of a run is called.
pub open spec fn status_name(s: RunStatus) -> Seq<char> {
    match s {
        RunStatus::Running => "Running"@,
        RunStatus::Succeeded => "Succeeded"@,
        RunStatus::Failed => "Failed"@,
        RunStatus::Aborted => "Aborted"@,
    }
}

fn kind_text(k: RunKind) -> (r: &'static str)
    ensures
        r@ == kind_name(k),
{
    match k {
        RunKind::Train => "Train",
        RunKind::Eval => "Eval",
        RunKind::Sweep => "Sweep",
    }
}

fn status_text(s: RunStatus) -> (r: &'static str)
    ensures
        r@ == status_name(s),
{
    match s {
        RunStatus::Running => "Running",
        RunStatus::Succeeded => "Succeeded",
        RunStatus::Failed => "Failed",
        RunStatus::Aborted => "Aborted",
    }
}

/// The line of a run in the list of runs: id, kind, status, base model and summary.
pub fn run_line(run: &Run, summary: &str) -> (r: String)
    ensures
        r@ == run.id@ + "  "@ + kind_name(run.kind) + "  "@ + status_name(run.status) + "  "@
            + run.base_model@ + "  "@ + summary@,
{
    let mut out = run.id.clone();
    out.append("  ");
    out.append(kind_text(run.kind));
    out.append("  ");
    out.append(status_text(run.status));
    out.append("  ");
    out.append(run.base_model.as_str());
    out.append("  ");
    out.append(summary);
    out
}

/// The line of a dataset that a run was made on.
pub open spec fn dataset_line(d: DatasetRef) -> Seq<char> {
    "dataset:   "@ + numerals::decimal(d.n_examples as nat) + " examples ("@ + numerals::decimal(
        d.n_edited as nat,
    ) + " edited), hash "@ + d.content_hash@
}

/// The lines that show a run: what it is, and of the rest what there is. `points` is the
/// number of its metric points.
pub open spec fn details(run: Run, summary: Seq<char>, points: nat) -> Seq<Seq<char>> {
    let head = seq![
        "id:        "@ + run.id@,
        "kind:      "@ + kind_name(run.kind),
        "status:    "@ + status_name(run.status),
        "base:      "@ + run.base_model@,
        "created:   "@ + clock::displayed(run.created_at@.0, run.created_at@.1),
    ];
    let finished = match run.finished_at {
        Some(t) => seq!["finished:  "@ + clock::displayed(t@.0, t@.1)],
        None => seq![],
    };
    let dataset = match run.dataset {
        Some(d) => seq![dataset_line(d)],
        None => seq![],
    };
    let summed = if run.summary.names().len() > 0 {
        seq!["summary:   "@ + summary]
    } else {
        seq![]
    };
    let metrics = seq!["metrics:   "@ + numerals::decimal(points) + " points"@];
    let error = match run.error {
        Some(e) => seq!["error:     "@ + e@],
        None => seq![],
    };
    head + finished + dataset + summed + metrics + error
}

fn dataset_entry(d: &DatasetRef) -> (r: String)
    ensures
        r@ == dataset_line(*d),
{
    let all = numerals::decimal_text(d.n_examples as u64);
    let edited = numerals::decimal_text(d.n_edited as u64);
    let mut out = text::concat_text("dataset:   ", all.as_str());
    out.append(" examples (");
    out.append(edited.as_str());
    out.append(" edited), hash ");
    out.append(d.content_hash.as_str());
    out
}

/// The lines that show a run. `summary` is its summary in words, and `points` the number
/// of its metric points.
pub fn run_details(run: &Run, summary: &str, points: usize) -> (r: Vec<String>)
    ensures
        text::views(r@) == details(*run, summary@, points as nat),
{
    let mut out: Vec<String> = Vec::new();
    out.push(text::concat_text("id:        ", run.id.as_str()));
    out.push(text::concat_text("kind:      ", kind_text(run.kind)));
    out.push(text::concat_text("status:    ", status_text(run.status)));
    out.push(text::concat_text("base:      ", run.base_model.as_str()));
    let created = run.created_at.display_text();
    out.push(text::concat_text("created:   ", created.as_str()));
    if let Some(t) = &run.finished_at {
        let finished = t.display_text();
        out.push(text::concat_text("finished:  ", finished.as_str()));
    }
    if let Some(d) = &run.dataset {
        out.push(dataset_entry(d));
    }
    if !run.summary.is_empty() {
        out.push(text::concat_text("summary:   ", summary));
    }
    let number = numerals::decimal_text(points as u64);
    let mut metrics = text::concat_text("metrics:   ", number.as_str());
    metrics.append(" points");
    out.push(metrics);
    if let Some(e) = &run.error {
        out.push(text::concat_text("error:     ", e.as_str()));
    }
    assert(text::views(out@) =~= details(*run, summary@, points as nat));
    out
}

/// What is printed of the models that an endpoint lists: one per line, or that there are
/// none.
pub open spec fn listing(models: Seq<Seq<char>>, endpoint: Seq<char>) -> Seq<Seq<char>> {
    if models.len() == 0 {
        seq!["no models found at "@ + endpoint]
    } else {
        models
    }
}

/// What is printed of the models that the endpoint lists.
pub fn model_lines(models: Vec<String>, endpoint: &str) -> (r: Vec<String>)
    ensures
        text::views(r@) == listing(text::views(models@), endpoint@),
{
    assert(text::views(models@).len() == models@.len());
    if models.len() > 0 {
        return models;
    }
    let mut out: Vec<String> = Vec::new();
    out.push(text::concat_text("no models found at ", endpoint));
    assert(text::views(out@) =~= listing(text::views(models@), endpoint@));
    out
}

/// The names in a list with commas between them: trimmed, in their order, and without the
/// empty ones.
pub open spec fn names_in(list: Seq<char>) -> Seq<Seq<char>> {
    text::split_at(list, ',').map_values(|piece: Seq<char>| text::trim(piece)).filter(
        |name: Seq<char>| name.len() > 0,
    )
}

/// The providers that a list names, with commas between them.
pub fn provider_names(list: &str) -> (r: Vec<String>)
    ensures
        text::views(r@) == names_in(list@),
{
    let pieces = text::split_at_text(list, ',');
    let ghost trimmed = text::split_at(list@, ',').map_values(|piece: Seq<char>| text::trim(piece));
    let ghost named = |name: Seq<char>| name.len() > 0;
    let mut out: Vec<String> = Vec::new();
    let mut i: usize = 0;
    proof {
        reveal(Seq::filter);
        assert(trimmed.take(0) =~= seq![]);
        assert(text::views(out@) =~= trimmed.take(0).filter(named));
    }
    while i < pieces.len()
        invariant
            i <= pieces@.len(),
            text::views(pieces@) == text::split_at(list@, ','),
            trimmed == text::views(pieces@).map_values(|piece: Seq<char>| text::trim(piece)),
            named == (|name: Seq<char>| name.len() > 0),
            text::views(out@) == trimmed.take(i as int).filter(named),
        decreases pieces@.len() - i,
    {
        let name = text::trim_text(pieces[i].as_str());
        let ghost before = out@;
        assert(text::views(pieces@)[i as int] == pieces@[i as int]@);
        assert(trimmed[i as int] == name@);
        assert(trimmed.take(i + 1).drop_last() =~= trimmed.take(i as int));
        proof {
            reveal(Seq::filter);
        }
        if !name.as_str().is_empty() {
            out.push(name);
            assert(text::views(out@) =~= text::views(before).push(name@));
        }
        i += 1;
    }
    assert(trimmed.take(i as int) =~= trimmed);
    out
}

/// What the command line asks for wins, and what it leaves open is as configured; nothing
/// else of the sampling changes.
pub proof fn law_overrides_win(s: SamplingView, o: Overrides)
    ensures
        o.temperature is Some ==> overridden(s, o).temperature == o.temperature,
        o.temperature is None ==> overridden(s, o).temperature == s.temperature,
        o.max_tokens is Some ==> overridden(s, o).max_tokens == o.max_tokens,
        o.max_tokens is None ==> overridden(s, o).max_tokens == s.max_tokens,
        o.seed is Some ==> overridden(s, o).seed == o.seed,
        o.seed is None ==> overridden(s, o).seed == s.seed,
        overridden(s, o).top_p == s.top_p,
        overridden(s, o).top_k == s.top_k,
        overridden(s, o).min_p == s.min_p,
        overridden(s, o).repetition_penalty == s.repetition_penalty,
        overridden(s, o).stop == s.stop,
{
}

/// A one-shot chat sends the persona's prompt and what the user said, word for word, to the
/// chat endpoint's model.
pub proof fn law_one_shot_asks(c: Config, mode: Mode, prompt: Seq<char>, o: Overrides)
    ensures
        ({
            let r = one_shot(c, mode, prompt, o);
            &&& r.model == config::chat_profile(c).model
            &&& r.stream
            &&& r.messages.len() == 2
            &&& r.messages[0].role == "system"@
            &&& mode == Mode::Assistant ==> r.messages[0].content == c.system_prompt@
            &&& mode == Mode::Tech ==> r.messages[0].content == c.tech_system_prompt@
            &&& mode == Mode::Convo ==> r.messages[0].content == c.convo_system_prompt@
            &&& r.messages[1].role == "user"@
            &&& r.messages[1].content == prompt
        }),
{
}

/// An import loses nothing: unless the dataset is replaced, all that was in it is still
/// there, in front, and all that was imported is behind it.
pub proof fn law_import_loses_nothing(
    existing: Seq<TrainingExample>,
    imported: Seq<TrainingExample>,
    replace: bool,
)
    ensures
        ({
            let after = after_import(existing, imported, replace);
            &&& !replace ==> after.len() == existing.len() + imported.len()
            &&& !replace ==> after.take(existing.len() as int) == existing
            &&& !replace ==> after.skip(existing.len() as int) == imported
            &&& replace ==> after == imported
        }),
{
    if !replace {
        let after = existing + imported;
        assert(after.take(existing.len() as int) =~= existing);
        assert(after.skip(existing.len() as int) =~= imported);
    }
}

/// The names of a list stand in it one by one: the first piece, without the white space at
/// its ends, unless nothing is left of it, and then the names of what follows the comma.
pub proof fn law_names_in_list(piece: Seq<char>, rest: Seq<char>, core: Seq<char>)
    requires
        forall|i: int| 0 <= i < piece.len() ==> #[trigger] piece[i] != ',',
        text::is_core(core, piece),
    ensures
        core.len() > 0 ==> names_in(piece + seq![','] + rest) == seq![core] + names_in(rest),
        core.len() == 0 ==> names_in(piece + seq![','] + rest) == names_in(rest),
        core.len() > 0 ==> names_in(piece) == seq![core],
        core.len() == 0 ==> names_in(piece).len() == 0,
{
    text::law_split_at(piece, ',', rest);
    text::law_trim(piece);
    text::lemma_one_core(core, text::trim(piece), piece);
    let trim = |p: Seq<char>| text::trim(p);
    let named = |name: Seq<char>| name.len() > 0;
    let tail = text::split_at(rest, ',').map_values(trim);
    assert((seq![piece] + text::split_at(rest, ',')).map_values(trim) =~= seq![core] + tail);
    assert(seq![piece].map_values(trim) =~= seq![core]);
    reveal(Seq::filter);
    Seq::filter_distributes_over_add(seq![core], tail, named);
    assert(seq![core].drop_last() =~= Seq::<Seq<char>>::empty());
    assert(Seq::<Seq<char>>::empty().filter(named) =~= Seq::<Seq<char>>::empty());
    if core.len() > 0 {
        assert(seq![core].filter(named) =~= seq![core]);
    } else {
        assert(seq![core].filter(named) =~= Seq::<Seq<char>>::empty());
        assert(Seq::<Seq<char>>::empty() + tail.filter(named) =~= tail.filter(named));
    }
}

} // verus!
