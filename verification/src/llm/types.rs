//! OpenAI-compatible chat-completions wire types.

use crate::text;
use vstd::prelude::*;

verus! {

/// Who says what.
pub struct Turn {
    pub role: Seq<char>,
    pub content: Seq<char>,
}

#[derive(Debug)]
pub struct WireMessage {
    pub role: String,
    pub content: String,
}

impl View for WireMessage {
    type V = Turn;

    open spec fn view(&self) -> Turn {
        Turn { role: self.role@, content: self.content@ }
    }
}

/// What a list of wire messages says.
pub open spec fn turns(v: Seq<WireMessage>) -> Seq<Turn> {
    v.map_values(|m: WireMessage| m@)
}

impl WireMessage {
    pub fn new(role: &str, content: &str) -> (r: WireMessage)
        ensures
            r@ == (Turn { role: role@, content: content@ }),
    {
        WireMessage { role: role.to_owned(), content: content.to_owned() }
    }
}

/// A double-precision number, held by its bits. It is carried from the configuration
/// to the request as it is.
#[derive(Debug, Clone, Copy, PartialEq, Eq, Structural)]
pub struct Float64 {
    pub bits: u64,
}

/// Sampling parameters for a chat request. Every field is optional: a `None`
/// value (or an empty `stop` list) is omitted from the JSON body, so a backend
/// never sees, and never rejects, a knob the caller didn't set.
#[derive(Debug)]
pub struct Sampling {
    pub temperature: Option<Float64>,
    pub top_p: Option<Float64>,
    pub top_k: Option<u32>,
    pub min_p: Option<Float64>,
    pub repetition_penalty: Option<Float64>,
    pub max_tokens: Option<u32>,
    pub stop: Vec<String>,
    pub seed: Option<u64>,
}

/// What sampling parameters ask for.
pub struct SamplingView {
    pub temperature: Option<Float64>,
    pub top_p: Option<Float64>,
    pub top_k: Option<u32>,
    pub min_p: Option<Float64>,
    pub repetition_penalty: Option<Float64>,
    pub max_tokens: Option<u32>,
    pub stop: Seq<Seq<char>>,
    pub seed: Option<u64>,
}

impl View for Sampling {
    type V = SamplingView;

    open spec fn view(&self) -> SamplingView {
        SamplingView {
            temperature: self.temperature,
            top_p: self.top_p,
            top_k: self.top_k,
            min_p: self.min_p,
            repetition_penalty: self.repetition_penalty,
            max_tokens: self.max_tokens,
            stop: text::views(self.stop@),
            seed: self.seed,
        }
    }
}

/// Sampling with nothing set.
pub open spec fn unset_sampling() -> SamplingView {
    SamplingView {
        temperature: None,
        top_p: None,
        top_k: None,
        min_p: None,
        repetition_penalty: None,
        max_tokens: None,
        stop: seq![],
        seed: None,
    }
}

/// Sampling that pins the temperature and sets nothing else.
pub open spec fn pinned_sampling(temperature: Float64) -> SamplingView {
    SamplingView { temperature: Some(temperature), ..unset_sampling() }
}

impl Default for Sampling {
    fn default() -> (r: Sampling)
        ensures
            r@ == unset_sampling(),
    {
        let r = Sampling {
            temperature: None,
            top_p: None,
            top_k: None,
            min_p: None,
            repetition_penalty: None,
            max_tokens: None,
            stop: Vec::new(),
            seed: None,
        };
        assert(r@.stop =~= seq![]);
        r
    }
}

impl Sampling {
    /// Sampling at a fixed temperature.
    pub fn pinned(temperature: Float64) -> (r: Sampling)
        ensures
            r@ == pinned_sampling(temperature),
    {
        let mut r = Sampling::default();
        r.temperature = Some(temperature);
        r
    }
}

#[derive(Debug)]
pub struct ChatRequest {
    pub model: String,
    pub messages: Vec<WireMessage>,
    pub stream: bool,
    pub sampling: Sampling,
}

/// What a chat request asks for.
pub struct RequestView {
    pub model: Seq<char>,
    pub messages: Seq<Turn>,
    pub stream: bool,
    pub sampling: SamplingView,
}

impl View for ChatRequest {
    type V = RequestView;

    open spec fn view(&self) -> RequestView {
        RequestView {
            model: self.model@,
            messages: turns(self.messages@),
            stream: self.stream,
            sampling: self.sampling@,
        }
    }
}

/// One frame of a streamed reply.
#[derive(Debug)]
pub struct ChatChunk {
    pub choices: Vec<Choice>,
}

#[derive(Debug)]
pub struct Choice {
    pub delta: Delta,
}

#[derive(Debug)]
pub struct Delta {
    pub content: Option<String>,
    /// Reasoning models expose chain-of-thought in a separate field.
    pub reasoning: Option<String>,
}

impl Default for Delta {
    fn default() -> (r: Delta)
        ensures
            r.content is None,
            r.reasoning is None,
    {
        Delta { content: None, reasoning: None }
    }
}

} // verus!
