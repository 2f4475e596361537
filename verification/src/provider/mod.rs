//! Inference providers: a thin layer over OpenAI-compatible chat endpoints
//! (Ollama, vLLM, llama.cpp `server`, LM Studio, hosted OpenAI-compatible APIs).
//! The chat path is identical across them; only model discovery differs by
//! [`ProviderKind`].

pub mod session;

pub use session::ChatSession;

use crate::json;
use crate::json::{Node, NodeView};
use crate::text;
use vstd::prelude::*;

verus! {

/// Which backend a provider talks to. Determines model discovery; the chat path
/// is OpenAI-compatible for every kind.
#[derive(Debug, Clone, Copy, PartialEq, Eq, Structural)]
pub enum ProviderKind {
    /// A local Ollama server (discovers models via `/api/tags`).
    Ollama,
    /// A generic OpenAI-compatible server (discovers models via `/v1/models`):
    /// vLLM, llama.cpp `server`, LM Studio, or a hosted API.
    OpenAiCompat,
}

impl Default for ProviderKind {
    fn default() -> (r: ProviderKind)
        ensures
            r == ProviderKind::Ollama,
    {
        ProviderKind::Ollama
    }
}

/// A configured inference endpoint.
#[derive(Debug)]
pub struct Provider {
    pub kind: ProviderKind,
    pub base_url: String,
    pub api_key: String,
}

/// What stands before the first `/v1/` of an endpoint, or all of it.
pub open spec fn root_of(base_url: Seq<char>) -> Seq<char> {
    match text::find(base_url, "/v1/"@) {
        Some(p) => base_url.take(p),
        None => base_url,
    }
}

/// Where a provider lists its models.
pub open spec fn discovery(kind: ProviderKind, base_url: Seq<char>) -> Seq<char> {
    match kind {
        ProviderKind::Ollama => root_of(base_url) + "/api/tags"@,
        ProviderKind::OpenAiCompat => root_of(base_url) + "/v1/models"@,
    }
}

/// The array in which a provider lists its models, and the entry that names one.
pub open spec fn listing_keys(kind: ProviderKind) -> (Seq<char>, Seq<char>) {
    match kind {
        ProviderKind::Ollama => ("models"@, "name"@),
        ProviderKind::OpenAiCompat => ("data"@, "id"@),
    }
}

/// The names that the objects `elements` have under `key`, where they have one.
pub open spec fn names_under(elements: Seq<Seq<char>>, key: Seq<char>) -> Seq<Seq<char>>
    decreases elements.len(),
{
    if elements.len() == 0 {
        seq![]
    } else {
        let before = names_under(elements.drop_last(), key);
        match json::string_member(elements.last(), key) {
            Some(name) => before.push(name),
            None => before,
        }
    }
}

/// The models that a provider's reply lists.
pub open spec fn listed(kind: ProviderKind, reply: Option<NodeView>) -> Seq<Seq<char>> {
    match json::list_member(reply, listing_keys(kind).0) {
        Some(es) => names_under(es, listing_keys(kind).1),
        None => seq![],
    }
}

fn root_text(base_url: &str) -> (r: String)
    ensures
        r@ == root_of(base_url@),
{
    let url = text::chars_of(base_url);
    let mark = text::chars_of("/v1/");
    let n = match text::find_chars(&url, &mark) {
        Some(p) => p,
        None => url.len(),
    };
    assert(url@.subrange(0, n as int) =~= url@.take(n as int));
    assert(url@.take(url@.len() as int) =~= url@);
    text::slice_text(&url, 0, n)
}

/// The names that `elements` have under `key`.
pub fn collect_names(elements: &Vec<String>, key: &str) -> (r: Vec<String>)
    ensures
        text::views(r@) == names_under(text::views(elements@), key@),
{
    let ghost es = text::views(elements@);
    let mut out: Vec<String> = Vec::new();
    let mut i: usize = 0;
    assert(text::views(out@) =~= names_under(es.take(0), key@));
    while i < elements.len()
        invariant
            i <= elements@.len(),
            es == text::views(elements@),
            text::views(out@) == names_under(es.take(i as int), key@),
        decreases elements@.len() - i,
    {
        let ghost before = out@;
        assert(es.take(i + 1).drop_last() =~= es.take(i as int));
        assert(es.take(i + 1).last() == elements@[i as int]@);
        if let Some(name) = json::string_member_text(elements[i].as_str(), key) {
            out.push(name);
            assert(text::views(out@) =~= text::views(before).push(name@));
        }
        i += 1;
    }
    assert(es.take(i as int) =~= es);
    out
}

/// The models that a provider's reply, read as `reply`, lists.
pub fn listed_models(kind: ProviderKind, reply: &Node) -> (r: Vec<String>)
    ensures
        text::views(r@) == listed(kind, Some(reply@)),
{
    let (list, name) = match kind {
        ProviderKind::Ollama => ("models", "name"),
        ProviderKind::OpenAiCompat => ("data", "id"),
    };
    match json::list_member_texts(reply, list) {
        Some(es) => collect_names(&es, name),
        None => {
            let none: Vec<String> = Vec::new();
            assert(text::views(none@) =~= seq![]);
            none
        },
    }
}

impl Provider {
    pub fn new(kind: ProviderKind, base_url: String, api_key: String) -> (r: Provider)
        ensures
            r.kind == kind,
            r.base_url == base_url,
            r.api_key == api_key,
    {
        Provider { kind, base_url, api_key }
    }

    /// The chat-completions endpoint.
    pub fn endpoint(&self) -> (r: &str)
        ensures
            r@ == self.base_url@,
    {
        self.base_url.as_str()
    }

    /// Where this provider lists its models.
    pub fn discovery_url(&self) -> (r: String)
        ensures
            r@ == discovery(self.kind, self.base_url@),
    {
        let mut url = root_text(self.base_url.as_str());
        match self.kind {
            ProviderKind::Ollama => url.append("/api/tags"),
            ProviderKind::OpenAiCompat => url.append("/v1/models"),
        }
        url
    }

    /// Whether discovery asks for the key. Ollama's does not.
    pub fn discovery_needs_key(&self) -> (r: bool)
        ensures
            r == (self.kind == ProviderKind::OpenAiCompat),
    {
        self.kind == ProviderKind::OpenAiCompat
    }

    /// The model ids that the reply of the discovery endpoint lists (best-effort; none
    /// where it is no JSON, or not of the expected shape).
    pub fn list_models(&self, reply: &str) -> (r: Vec<String>)
        ensures
            text::views(r@) == listed(self.kind, json::json_node(reply@)),
    {
        match json::read_node(reply) {
            Ok(node) => listed_models(self.kind, &node),
            Err(_) => {
                let none: Vec<String> = Vec::new();
                assert(text::views(none@) =~= seq![]);
                none
            },
        }
    }
}

/// The models are listed at the server's root, which is what stands before the first `/v1/`
/// of the endpoint: Ollama under `/api/tags`, any other server under `/v1/models`.
pub proof fn law_models_are_listed_at_the_root(root: Seq<char>, rest: Seq<char>)
    requires
        !text::contains((root + "/v1/"@).drop_last(), "/v1/"@),
    ensures
        discovery(ProviderKind::Ollama, root + "/v1/"@ + rest) == root + "/api/tags"@,
        discovery(ProviderKind::OpenAiCompat, root + "/v1/"@ + rest) == root + "/v1/models"@,
{
    let mark = "/v1/"@;
    assert(mark.len() == 4) by {
        reveal_strlit("/v1/");
    }
    let url = root + mark + rest;
    let short = (root + mark).drop_last();
    let n = root.len() as int;
    text::lemma_find(url, mark);
    assert(url.subrange(n, n + 4) =~= mark);
    assert forall|q: int| q < n implies !text::occurs_at(url, mark, q) by {
        if text::occurs_at(url, mark, q) {
            assert(short.subrange(q, q + 4) =~= url.subrange(q, q + 4));
            assert(text::occurs_at(short, mark, q));
        }
    }
    assert(text::is_first(url, mark, n));
    assert(url.take(n) =~= root);
}

/// An endpoint without a `/v1/` is the root itself.
pub proof fn law_endpoint_may_be_the_root(url: Seq<char>)
    requires
        !text::contains(url, "/v1/"@),
    ensures
        discovery(ProviderKind::Ollama, url) == url + "/api/tags"@,
        discovery(ProviderKind::OpenAiCompat, url) == url + "/v1/models"@,
{
}

/// Every model that has a name is listed, in order: the list of two lists is the one and
/// then the other, and an element is listed by its name, or not at all where it has none.
pub proof fn law_every_name_is_listed(
    a: Seq<Seq<char>>,
    b: Seq<Seq<char>>,
    element: Seq<char>,
    key: Seq<char>,
)
    ensures
        names_under(a + b, key) == names_under(a, key) + names_under(b, key),
        match json::string_member(element, key) {
            Some(name) => names_under(seq![element], key) == seq![name],
            None => names_under(seq![element], key).len() == 0,
        },
    decreases b.len(),
{
    reveal_with_fuel(names_under, 2);
    assert(seq![element].drop_last() =~= seq![]);
    if let Some(name) = json::string_member(element, key) {
        assert(names_under(seq![element], key) =~= seq![name]);
    }
    if b.len() == 0 {
        assert(a + b =~= a);
    } else {
        law_every_name_is_listed(a, b.drop_last(), element, key);
        assert((a + b).drop_last() =~= a + b.drop_last());
    }
    assert(names_under(a + b, key) =~= names_under(a, key) + names_under(b, key));
}

/// Where a server's models stand in its reply: Ollama's under `models` by `name`, any other
/// server's under `data` by `id`.
pub proof fn law_where_models_stand(reply: Option<NodeView>)
    ensures
        match json::list_member(reply, "models"@) {
            Some(es) => listed(ProviderKind::Ollama, reply) == names_under(es, "name"@),
            None => listed(ProviderKind::Ollama, reply).len() == 0,
        },
        match json::list_member(reply, "data"@) {
            Some(es) => listed(ProviderKind::OpenAiCompat, reply) == names_under(es, "id"@),
            None => listed(ProviderKind::OpenAiCompat, reply).len() == 0,
        },
{
}

} // verus!
