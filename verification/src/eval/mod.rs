//! Evaluation harness: what to ask a model for each item of a fixed prompt set, how to
//! grade what it answers, and how to summarize.

pub mod ranking;

use crate::llm::types;
use crate::llm::types::{ChatRequest, Float64, RequestView, Sampling, Turn};
use crate::llm::WireMessage;
use crate::provider::Provider;
use crate::text;
use vstd::prelude::*;

verus! {

/// How to score an output against an item's `reference`.
#[derive(Debug, Clone, Copy, PartialEq, Eq, Structural)]
pub enum Grader {
    /// Capture outputs only (no score).
    Capture,
    /// Output must equal the reference (both trimmed).
    Exact,
    /// Output must contain the reference (trimmed).
    Contains,
    /// An LLM judge scores the answer PASS/FAIL (uses a judge provider). Works
    /// for open-ended items with no exact reference.
    Judge,
}

impl Default for Grader {
    fn default() -> (r: Grader)
        ensures
            r == Grader::Capture,
    {
        Grader::Capture
    }
}

/// A name that no grader has.
#[derive(Debug)]
pub struct UnknownGrader {
    pub name: String,
}

impl UnknownGrader {
    pub fn message(&self) -> (r: String)
        ensures
            r@ == "unknown grader '"@ + self.name@ + "' (none | exact | contains | judge)"@,
    {
        let mut out = String::new();
        out.append("unknown grader '");
        out.append(self.name.as_str());
        out.append("' (none | exact | contains | judge)");
        out
    }
}

/// What a grader is called.
pub open spec fn grader_name(g: Grader) -> Seq<char> {
    match g {
        Grader::Capture => "none"@,
        Grader::Exact => "exact"@,
        Grader::Contains => "contains"@,
        Grader::Judge => "judge"@,
    }
}

impl Grader {
    pub fn parse(s: &str) -> (r: Result<Grader, UnknownGrader>)
        ensures
            match r {
                Ok(g) => grader_name(g) == s@,
                Err(e) => e.name@ == s@ && forall|g: Grader| #[trigger] grader_name(g) != s@,
            },
    {
        if text::same_text(s, "none") {
            Ok(Grader::Capture)
        } else if text::same_text(s, "exact") {
            Ok(Grader::Exact)
        } else if text::same_text(s, "contains") {
            Ok(Grader::Contains)
        } else if text::same_text(s, "judge") {
            Ok(Grader::Judge)
        } else {
            Err(UnknownGrader { name: s.to_owned() })
        }
    }

    pub fn name(self) -> (r: &'static str)
        ensures
            r@ == grader_name(self),
    {
        match self {
            Grader::Capture => "none",
            Grader::Exact => "exact",
            Grader::Contains => "contains",
            Grader::Judge => "judge",
        }
    }
}

/// A grader is told by its name: what is written is read as the same grader.
pub proof fn law_grader_names_differ(a: Grader, b: Grader)
    requires
        grader_name(a) == grader_name(b),
    ensures
        a == b,
{
    reveal_strlit("none");
    reveal_strlit("exact");
    reveal_strlit("contains");
    reveal_strlit("judge");
    assert("none"@.len() == 4 && "exact"@.len() == 5 && "contains"@.len() == 8 && "judge"@.len()
        == 5);
    assert("exact"@[0] != "judge"@[0]);
}

/// A configured LLM judge: the provider and model used to score answers.
#[derive(Debug)]
pub struct Judge<'a> {
    pub provider: &'a Provider,
    pub model: String,
}

#[derive(Debug)]
pub struct EvalItem {
    pub id: String,
    pub prompt: String,
    pub reference: Option<String>,
    /// Per-item grader override; falls back to the run-level grader.
    pub grader: Option<Grader>,
}

#[derive(Debug)]
pub struct EvalSet {
    pub name: String,
    pub system_prompt: Option<String>,
    /// Pinned for comparability across runs (default 0.0 = greedy).
    pub temperature: Float64,
    pub items: Vec<EvalItem>,
}

#[derive(Debug)]
pub struct EvalResult {
    pub item_id: String,
    pub output: String,
    pub passed: Option<bool>,
}

/// A part of a whole.
#[derive(Debug, Clone, Copy, PartialEq, Eq, Structural)]
pub struct Ratio {
    pub part: usize,
    pub whole: usize,
}

#[derive(Debug)]
pub struct EvalReport {
    pub set: String,
    pub model: String,
    pub n: usize,
    /// How many items had a gradable reference.
    pub scored: usize,
    pub passed: usize,
    /// Pass rate over scored items (None if nothing was graded).
    pub mean_score: Option<Ratio>,
    pub items: Vec<EvalResult>,
}

/// The grade of an output by rule. Nothing is graded without a reference.
pub open spec fn grade_of(
    grader: Grader,
    reference: Option<Seq<char>>,
    output: Seq<char>,
) -> Option<bool> {
    match reference {
        None => None,
        Some(wanted) => match grader {
            Grader::Capture => None,
            Grader::Exact => Some(text::trim(output) == text::trim(wanted)),
            Grader::Contains => Some(text::contains(output, text::trim(wanted))),
            Grader::Judge => None,
        },
    }
}

/// The grade of `output` by rule. (A judge's grade is asked for elsewhere.)
pub fn grade(grader: Grader, item: &EvalItem, output: &str) -> (r: Option<bool>)
    ensures
        r == grade_of(grader, text::opt_view(item.reference), output@),
{
    match &item.reference {
        None => None,
        Some(reference) => {
            let wanted = text::trim_text(reference.as_str());
            match grader {
                Grader::Capture => None,
                Grader::Exact => {
                    let got = text::trim_text(output);
                    Some(text::same_text(got.as_str(), wanted.as_str()))
                },
                Grader::Contains => Some(text::contains_text(output, wanted.as_str())),
                Grader::Judge => None,
            }
        },
    }
}

/// The system prompt, unless it is blank, and the prompt.
pub open spec fn prompt_turns(system: Option<Seq<char>>, prompt: Seq<char>) -> Seq<Turn> {
    let asked = seq![Turn { role: "user"@, content: prompt }];
    match system {
        Some(s) => if text::blank(s) {
            asked
        } else {
            seq![Turn { role: "system"@, content: s }] + asked
        },
        None => asked,
    }
}

/// The messages of an item.
pub fn messages(system: &Option<String>, prompt: &str) -> (r: Vec<WireMessage>)
    ensures
        types::turns(r@) == prompt_turns(text::opt_view(*system), prompt@),
{
    let mut out: Vec<WireMessage> = Vec::new();
    if let Some(s) = system {
        if !text::is_blank(s.as_str()) {
            out.push(WireMessage::new("system", s.as_str()));
        }
    }
    out.push(WireMessage::new("user", prompt));
    assert(types::turns(out@) =~= prompt_turns(text::opt_view(*system), prompt@));
    out
}

/// What `model` is asked for an item of a set.
pub open spec fn item_request_of(
    model: Seq<char>,
    system: Option<Seq<char>>,
    temperature: Float64,
    prompt: Seq<char>,
) -> RequestView {
    RequestView {
        model,
        messages: prompt_turns(system, prompt),
        stream: true,
        sampling: types::pinned_sampling(temperature),
    }
}

/// What `model` is asked for `item`.
pub fn item_request(set: &EvalSet, model: &str, item: &EvalItem) -> (r: ChatRequest)
    ensures
        r@ == item_request_of(
            model@,
            text::opt_view(set.system_prompt),
            set.temperature,
            item.prompt@,
        ),
{
    ChatRequest {
        model: model.to_owned(),
        messages: messages(&set.system_prompt, item.prompt.as_str()),
        stream: true,
        sampling: Sampling::pinned(set.temperature),
    }
}

/// What is taken for the output where the model could not be asked.
pub fn failed_output(error: &str) -> (r: String)
    ensures
        r@ == "[error: "@ + error@ + "]"@,
{
    let mut out = String::new();
    out.append("[error: ");
    out.append(error);
    out.append("]");
    out
}

/// What a judge is told.
pub open spec fn judge_prompt_of(
    prompt: Seq<char>,
    reference: Option<Seq<char>>,
    output: Seq<char>,
) -> Seq<char> {
    let criteria = match reference {
        Some(wanted) => wanted,
        None => "answer the question correctly and helpfully"@,
    };
    "You are grading a model's answer. Reply with exactly one word: PASS or FAIL.\n\nQuestion:\n"@
        + prompt + "\n\nExpected answer or criteria:\n"@ + criteria + "\n\nCandidate answer:\n"@
        + output
        + "\n\nDoes the candidate answer satisfy the criteria? Reply PASS or FAIL."@
}

/// What a judge is told: the item's `reference` as criteria when present, else a
/// request for a general correctness judgement (so open-ended items with no exact
/// reference are still gradable).
pub fn judge_prompt(item: &EvalItem, output: &str) -> (r: String)
    ensures
        r@ == judge_prompt_of(item.prompt@, text::opt_view(item.reference), output@),
{
    let mut out = String::new();
    out.append(
        "You are grading a model's answer. Reply with exactly one word: PASS or FAIL.\n\nQuestion:\n",
    );
    out.append(item.prompt.as_str());
    out.append("\n\nExpected answer or criteria:\n");
    match &item.reference {
        Some(reference) => out.append(reference.as_str()),
        None => out.append("answer the question correctly and helpfully"),
    }
    out.append("\n\nCandidate answer:\n");
    out.append(output);
    out.append("\n\nDoes the candidate answer satisfy the criteria? Reply PASS or FAIL.");
    out
}

/// What a judge is asked.
pub open spec fn judge_request_of(
    model: Seq<char>,
    prompt: Seq<char>,
    reference: Option<Seq<char>>,
    output: Seq<char>,
) -> RequestView {
    RequestView {
        model,
        messages: seq![
            Turn { role: "user"@, content: judge_prompt_of(prompt, reference, output) },
        ],
        stream: true,
        sampling: types::pinned_sampling(Float64 { bits: 0 }),
    }
}

/// What the judge is asked of `output`, greedily.
pub fn judge_request(judge_model: &str, item: &EvalItem, output: &str) -> (r: ChatRequest)
    ensures
        r@ == judge_request_of(
            judge_model@,
            item.prompt@,
            text::opt_view(item.reference),
            output@,
        ),
{
    let prompt = judge_prompt(item, output);
    let mut asked: Vec<WireMessage> = Vec::new();
    asked.push(WireMessage::new("user", prompt.as_str()));
    let r = ChatRequest {
        model: judge_model.to_owned(),
        messages: asked,
        stream: true,
        sampling: Sampling::pinned(Float64 { bits: 0 }),
    };
    assert(r@.messages =~= seq![Turn { role: "user"@, content: prompt@ }]);
    r
}

/// What `str::to_uppercase` makes of a text.
pub uninterp spec fn uppercase(s: Seq<char>) -> Seq<char>;

/// The upper-case letter of an ASCII letter, and any other character itself.
pub open spec fn ascii_upper(c: char) -> char {
    if 97 <= c as int <= 122 {
        (c as int - 32) as char
    } else {
        c
    }
}

/// `str::to_uppercase` gives the upper-case equivalent of a text. Of ASCII text that
/// is every letter's upper-case letter, and nothing else changes.
pub assume_specification[ str::to_uppercase ](s: &str) -> (r: String)
    ensures
        r@ == uppercase(s@),
        vstd::utf8::is_ascii_chars(s@) ==> r@ == s@.map_values(|c: char| ascii_upper(c)),
;

/// Whether a reply in upper case is a pass: FAIL wins if both words appear.
pub open spec fn is_pass(upper: Seq<char>) -> bool {
    !text::contains(upper, "FAIL"@) && text::contains(upper, "PASS"@)
}

/// Whether a reply in upper case is a pass.
pub fn verdict(upper: &str) -> (r: bool)
    ensures
        r == is_pass(upper@),
{
    if text::contains_text(upper, "FAIL") {
        false
    } else {
        text::contains_text(upper, "PASS")
    }
}

/// Whether a judge's reply is a PASS. The judge is asked for one word; FAIL wins
/// if both somehow appear.
pub fn parse_verdict(reply: &str) -> (r: bool)
    ensures
        r == is_pass(uppercase(reply@)),
        vstd::utf8::is_ascii_chars(reply@) ==> r == is_pass(
            reply@.map_values(|c: char| ascii_upper(c)),
        ),
{
    let upper = reply.to_uppercase();
    verdict(upper.as_str())
}

/// The grader of an item: its own, else that of the run.
pub open spec fn effective_grader(item: Option<Grader>, run: Grader) -> Grader {
    match item {
        Some(g) => g,
        None => run,
    }
}

/// What is left to do for an item once its output is known.
#[derive(Debug)]
pub enum Grading {
    /// Nothing: this is its grade.
    Graded(Option<bool>),
    /// Ask the judge this.
    AskJudge(ChatRequest),
}

/// What is left to do for an item, where `judge` is the judge's model.
pub open spec fn is_grading(
    g: Grading,
    item: EvalItem,
    run: Grader,
    judge: Option<Seq<char>>,
    output: Seq<char>,
) -> bool {
    let effective = effective_grader(item.grader, run);
    match (effective, judge) {
        (Grader::Judge, Some(model)) => match g {
            Grading::AskJudge(r) => r@ == judge_request_of(
                model,
                item.prompt@,
                text::opt_view(item.reference),
                output,
            ),
            Grading::Graded(_) => false,
        },
        (Grader::Judge, None) => g == Grading::Graded(None),
        (_, _) => g == Grading::Graded(
            grade_of(effective, text::opt_view(item.reference), output),
        ),
    }
}

/// What is left to do for `item` once its output is known. An item's own grader wins;
/// without a judge, what only a judge could grade is not graded.
pub fn grading(item: &EvalItem, grader: Grader, judge: Option<&Judge>, output: &str) -> (r: Grading)
    ensures
        is_grading(
            r,
            *item,
            grader,
            match judge {
                Some(j) => Some(j.model@),
                None => None,
            },
            output@,
        ),
{
    let effective = match item.grader {
        Some(g) => g,
        None => grader,
    };
    match effective {
        Grader::Judge => match judge {
            Some(j) => Grading::AskJudge(judge_request(j.model.as_str(), item, output)),
            None => Grading::Graded(None),
        },
        other => Grading::Graded(grade(other, item, output)),
    }
}

/// The grade that a judge's reply gives; none where the judge could not be asked.
pub fn judge_grade(reply: Option<String>) -> (r: Option<bool>)
    ensures
        match reply {
            Some(text) => r == Some(is_pass(uppercase(text@))),
            None => r is None,
        },
{
    match reply {
        Some(text) => Some(parse_verdict(text.as_str())),
        None => None,
    }
}

/// How many results were graded.
pub open spec fn scored_count(results: Seq<EvalResult>) -> nat
    decreases results.len(),
{
    if results.len() == 0 {
        0
    } else {
        scored_count(results.drop_last()) + if results.last().passed is Some {
            1nat
        } else {
            0
        }
    }
}

/// How many results passed.
pub open spec fn passed_count(results: Seq<EvalResult>) -> nat
    decreases results.len(),
{
    if results.len() == 0 {
        0
    } else {
        passed_count(results.drop_last()) + if results.last().passed == Some(true) {
            1nat
        } else {
            0
        }
    }
}

/// The ids of the items of a set.
pub open spec fn item_ids(items: Seq<EvalItem>) -> Seq<Seq<char>> {
    items.map_values(|i: EvalItem| i.id@)
}

/// Summarize the results of a set, in whatever order they came: they are put in the
/// order of the set, and counted.
pub fn report(set: &EvalSet, model: &str, results: Vec<EvalResult>) -> (r: EvalReport)
    ensures
        r.set@ == set.name@,
        r.model@ == model@,
        r.items@ == ranking::in_set_order(item_ids(set.items@), results@),
        r.n == r.items@.len(),
        r.scored == scored_count(r.items@),
        r.passed == passed_count(r.items@),
        r.mean_score == if r.scored > 0 {
            Some(Ratio { part: r.passed, whole: r.scored })
        } else {
            None
        },
{
    let items = ranking::restore_order(&set.items, results);
    let mut scored: usize = 0;
    let mut passed: usize = 0;
    let mut i: usize = 0;
    while i < items.len()
        invariant
            i <= items@.len(),
            scored == scored_count(items@.take(i as int)),
            passed == passed_count(items@.take(i as int)),
            scored <= i,
            passed <= i,
        decreases items@.len() - i,
    {
        assert(items@.take(i + 1).drop_last() =~= items@.take(i as int));
        if let Some(ok) = items[i].passed {
            scored += 1;
            if ok {
                passed += 1;
            }
        }
        i += 1;
    }
    assert(items@.take(i as int) =~= items@);
    let mean_score = if scored > 0 {
        Some(Ratio { part: passed, whole: scored })
    } else {
        None
    };
    EvalReport {
        set: set.name.clone(),
        model: model.to_owned(),
        n: items.len(),
        scored,
        passed,
        mean_score,
        items,
    }
}

/// The pass rate is a rate: no more results pass than are graded, and no more are
/// graded than there are.
pub proof fn law_counts_nest(results: Seq<EvalResult>)
    ensures
        passed_count(results) <= scored_count(results) <= results.len(),
    decreases results.len(),
{
    if results.len() > 0 {
        law_counts_nest(results.drop_last());
    }
}

/// The exact grader passes an output if and only if it is the reference, character for
/// character, white space at the ends of both aside. Every output is graded.
pub proof fn law_exact_is_the_same_text(wanted: Seq<char>, output: Seq<char>)
    ensures
        grade_of(Grader::Exact, Some(wanted), output) is Some,
        grade_of(Grader::Exact, Some(wanted), output) == Some(true) <==> exists|core: Seq<char>|
            text::is_core(core, output) && text::is_core(core, wanted),
{
    text::law_trim(output);
    text::law_trim(wanted);
    if exists|core: Seq<char>| text::is_core(core, output) && text::is_core(core, wanted) {
        let core = choose|core: Seq<char>|
            text::is_core(core, output) && text::is_core(core, wanted);
        text::lemma_one_core(core, text::trim(output), output);
        text::lemma_one_core(core, text::trim(wanted), wanted);
    }
}

/// The containing grader passes an output if and only if the reference, without the white
/// space at its ends, stands in it with something or nothing before and behind it. Every
/// output is graded.
pub proof fn law_contains_holds_the_text(wanted: Seq<char>, output: Seq<char>)
    ensures
        grade_of(Grader::Contains, Some(wanted), output) is Some,
        grade_of(Grader::Contains, Some(wanted), output) == Some(true) <==> exists|
            core: Seq<char>,
            before: Seq<char>,
            behind: Seq<char>,
        |
            text::is_core(core, wanted) && output == #[trigger] (before + core + behind),
{
    text::law_trim(wanted);
    let own = text::trim(wanted);
    text::lemma_contains_parts(output, own);
    if exists|core: Seq<char>, before: Seq<char>, behind: Seq<char>|
        text::is_core(core, wanted) && output == #[trigger] (before + core + behind) {
        let (core, before, behind) = choose|
            core: Seq<char>,
            before: Seq<char>,
            behind: Seq<char>,
        |
            text::is_core(core, wanted) && output == #[trigger] (before + core + behind);
        text::lemma_one_core(core, own, wanted);
        assert(output == before + own + behind);
    }
    if text::contains(output, own) {
        let (before, behind) = choose|a: Seq<char>, b: Seq<char>|
            output == #[trigger] (a + own + b);
        assert(output == before + own + behind);
    }
}

/// What is not to be graded by rule has no grade: an item without a reference, an output
/// that is only captured, and one that a judge is to grade.
pub proof fn law_ungraded(grader: Grader, reference: Option<Seq<char>>, output: Seq<char>)
    ensures
        grade_of(grader, reference, output) is None <==> reference is None || grader
            == Grader::Capture || grader == Grader::Judge,
{
}

/// A reply passes if and only if PASS stands in it and FAIL stands nowhere in it.
pub proof fn law_fail_wins(upper: Seq<char>)
    ensures
        is_pass(upper) <==> (exists|a: Seq<char>, b: Seq<char>|
            upper == #[trigger] (a + "PASS"@ + b)) && !(exists|a: Seq<char>, b: Seq<char>|
            upper == #[trigger] (a + "FAIL"@ + b)),
{
    text::lemma_contains_parts(upper, "PASS"@);
    text::lemma_contains_parts(upper, "FAIL"@);
}

/// The counts of a report are those of its results: the graded ones, and the passed ones.
pub proof fn law_counts_are_counts(results: Seq<EvalResult>)
    ensures
        scored_count(results) == results.filter(|r: EvalResult| r.passed is Some).len(),
        passed_count(results) == results.filter(|r: EvalResult| r.passed == Some(true)).len(),
    decreases results.len(),
{
    reveal(Seq::filter);
    if results.len() > 0 {
        law_counts_are_counts(results.drop_last());
    }
}

/// A model is asked the prompt of an item, word for word and last, with the system prompt of
/// the set before it unless that is blank, at the temperature of the set.
pub proof fn law_item_is_asked(
    model: Seq<char>,
    system: Option<Seq<char>>,
    temperature: Float64,
    prompt: Seq<char>,
)
    ensures
        ({
            let r = item_request_of(model, system, temperature, prompt);
            &&& r.model == model
            &&& r.sampling.temperature == Some(temperature)
            &&& r.sampling.seed is None && r.sampling.max_tokens is None
            &&& r.messages.last() == (Turn { role: "user"@, content: prompt })
            &&& system is Some && !text::blank(system->0) ==> r.messages.len() == 2
                && r.messages[0] == (Turn { role: "system"@, content: system->0 })
            &&& system is None || text::blank(system->0) ==> r.messages.len() == 1
        }),
{
}

/// `x`, `y` and `z` stand in `s`, one behind the other.
pub open spec fn stand_in_order(s: Seq<char>, x: Seq<char>, y: Seq<char>, z: Seq<char>) -> bool {
    exists|a: Seq<char>, b: Seq<char>, c: Seq<char>, d: Seq<char>|
        s == #[trigger] (a + x + b + y + c + z + d)
}

/// A judge is shown the question, what is wanted, and the answer, each in full and in this
/// order, and asked greedily.
pub proof fn law_judge_sees_all(
    model: Seq<char>,
    prompt: Seq<char>,
    reference: Option<Seq<char>>,
    output: Seq<char>,
)
    ensures
        ({
            let r = judge_request_of(model, prompt, reference, output);
            let wanted = match reference {
                Some(w) => w,
                None => "answer the question correctly and helpfully"@,
            };
            &&& r.model == model
            &&& r.sampling.temperature == Some(Float64 { bits: 0 })
            &&& r.messages.len() == 1
            &&& r.messages[0].role == "user"@
            &&& stand_in_order(r.messages[0].content, prompt, wanted, output)
        }),
{
    let wanted = match reference {
        Some(w) => w,
        None => "answer the question correctly and helpfully"@,
    };
    let a =
        "You are grading a model's answer. Reply with exactly one word: PASS or FAIL.\n\nQuestion:\n"@;
    let b = "\n\nExpected answer or criteria:\n"@;
    let c = "\n\nCandidate answer:\n"@;
    let d = "\n\nDoes the candidate answer satisfy the criteria? Reply PASS or FAIL."@;
    assert(judge_prompt_of(prompt, reference, output) == a + prompt + b + wanted + c + output + d);
}

/// The grader of an item is its own, where it has one, whatever the run's is; and where it
/// has none, the run's. Only a judge's grade is asked of a judge, and only where there is
/// one; all else is graded by rule.
pub proof fn law_item_grader_wins(
    g: Grading,
    item: EvalItem,
    run: Grader,
    other: Grader,
    judge: Option<Seq<char>>,
    output: Seq<char>,
)
    ensures
        item.grader is Some ==> is_grading(g, item, run, judge, output) == is_grading(
            g,
            item,
            other,
            judge,
            output,
        ),
        is_grading(g, item, run, judge, output) ==> {
            let by = if item.grader is Some {
                item.grader->0
            } else {
                run
            };
            &&& g is AskJudge <==> by == Grader::Judge && judge is Some
            &&& g is AskJudge ==> g->AskJudge_0@.model == judge->0
            &&& by == Grader::Exact || by == Grader::Contains ==> g == Grading::Graded(
                grade_of(by, text::opt_view(item.reference), output),
            )
            &&& by == Grader::Capture || (by == Grader::Judge && judge is None) ==> g
                == Grading::Graded(None)
        },
{
}

} // verus!
