//! Reading and writing JSON text, one level at a time.

use crate::text;
use serde_json::Value;
use vstd::prelude::*;

verus! {

/// A JSON value, seen from the top: what stands inside it is JSON text again.
#[derive(Debug)]
pub enum Node {
    Null,
    Bool(bool),
    /// A number, as it is written.
    Number(String),
    Str(String),
    Array(Vec<String>),
    /// Names and the texts of their values.
    Object(Vec<(String, String)>),
}

/// What a JSON value holds at the top.
pub enum NodeView {
    Null,
    Bool(bool),
    Number(Seq<char>),
    Str(Seq<char>),
    Array(Seq<Seq<char>>),
    Object(Seq<(Seq<char>, Seq<char>)>),
}

/// What a list of pairs of strings says.
pub open spec fn pair_views(v: Seq<(String, String)>) -> Seq<(Seq<char>, Seq<char>)> {
    v.map_values(|p: (String, String)| (p.0@, p.1@))
}

impl View for Node {
    type V = NodeView;

    open spec fn view(&self) -> NodeView {
        match *self {
            Node::Null => NodeView::Null,
            Node::Bool(b) => NodeView::Bool(b),
            Node::Number(n) => NodeView::Number(n@),
            Node::Str(s) => NodeView::Str(s@),
            Node::Array(a) => NodeView::Array(text::views(a@)),
            Node::Object(o) => NodeView::Object(pair_views(o@)),
        }
    }
}

/// What `serde_json` reads in a text: a value, seen from the top, or what its error says
/// where the text is no JSON.
pub uninterp spec fn json_read(text: Seq<char>) -> Result<NodeView, Seq<char>>;

/// The value that a text holds, seen from the top; nothing where the text is no JSON.
pub open spec fn json_node(text: Seq<char>) -> Option<NodeView> {
    match json_read(text) {
        Ok(n) => Some(n),
        Err(_) => None,
    }
}

/// The text that `serde_json` writes for an object whose one entry, `list_key`, lists
/// objects with the two entries `a_key` and `b_key`.
pub uninterp spec fn json_pairs(
    list_key: Seq<char>,
    a_key: Seq<char>,
    b_key: Seq<char>,
    pairs: Seq<(Seq<char>, Seq<char>)>,
) -> Seq<char>;

/// The value under `key` in a list of entries.
pub open spec fn lookup(fields: Seq<(Seq<char>, Seq<char>)>, key: Seq<char>) -> Option<Seq<char>>
    decreases fields.len(),
{
    if fields.len() == 0 {
        None
    } else if fields[0].0 == key {
        Some(fields[0].1)
    } else {
        lookup(fields.drop_first(), key)
    }
}

/// The text of the entry `key` of an object.
pub open spec fn node_member(node: Option<NodeView>, key: Seq<char>) -> Option<Seq<char>> {
    match node {
        Some(NodeView::Object(fields)) => lookup(fields, key),
        _ => None,
    }
}

/// The texts of the elements of an array.
pub open spec fn node_elements(node: Option<NodeView>) -> Option<Seq<Seq<char>>> {
    match node {
        Some(NodeView::Array(a)) => Some(a),
        _ => None,
    }
}

/// What a string says.
pub open spec fn node_string(node: Option<NodeView>) -> Option<Seq<char>> {
    match node {
        Some(NodeView::Str(s)) => Some(s),
        _ => None,
    }
}

/// What the entry `key` of the object that `text` holds says, where it is a string.
pub open spec fn string_member(text: Seq<char>, key: Seq<char>) -> Option<Seq<char>> {
    match node_member(json_node(text), key) {
        Some(t) => node_string(json_node(t)),
        None => None,
    }
}

/// The same, and nothing where there is no such string.
pub open spec fn str_field(text: Seq<char>, key: Seq<char>) -> Seq<char> {
    match string_member(text, key) {
        Some(s) => s,
        None => seq![],
    }
}

/// The texts of the elements of the array under `key` of the object that `node` is.
pub open spec fn list_member(node: Option<NodeView>, key: Seq<char>) -> Option<Seq<Seq<char>>> {
    match node_member(node, key) {
        Some(t) => node_elements(json_node(t)),
        None => None,
    }
}

/// The array under `list_key` in `text` holds objects whose entries `a_key` and `b_key`
/// say `pairs`.
pub open spec fn reads_back(
    text: Seq<char>,
    list_key: Seq<char>,
    a_key: Seq<char>,
    b_key: Seq<char>,
    pairs: Seq<(Seq<char>, Seq<char>)>,
) -> bool {
    match list_member(json_node(text), list_key) {
        Some(es) => {
            &&& es.len() == pairs.len()
            &&& forall|i: int|
                0 <= i < es.len() ==> string_member(#[trigger] es[i], a_key) == Some(pairs[i].0)
                    && string_member(es[i], b_key) == Some(pairs[i].1)
        },
        None => false,
    }
}

/// `text` holds an object whose one entry is `key`.
pub open spec fn has_one_entry(text: Seq<char>, key: Seq<char>) -> bool {
    match json_node(text) {
        Some(NodeView::Object(fields)) => fields.len() == 1 && fields[0].0 == key,
        _ => false,
    }
}

/// `text` stands on one line, between braces.
pub open spec fn on_one_line(text: Seq<char>) -> bool {
    &&& text.len() >= 2
    &&& text[0] == '{'
    &&& text.last() == '}'
    &&& forall|i: int| 0 <= i < text.len() ==> #[trigger] text[i] != '\n'
}

/// What `serde_json::from_str` reads in `text` as a `serde_json::Value`, seen from the
/// top; the values inside it are written out again as `Value` displays them. Where the
/// text is no JSON there is an error, and this is what it is displayed as. All of it
/// depends on the text alone.
#[verifier::external_body]
pub(crate) fn read_node(text: &str) -> (r: Result<Node, String>)
    ensures
        match r {
            Ok(n) => json_read(text@) == Ok::<NodeView, Seq<char>>(n@),
            Err(why) => json_read(text@) == Err::<NodeView, Seq<char>>(why@),
        },
{
    match serde_json::from_str::<Value>(text) {
        Ok(Value::Null) => Ok(Node::Null),
        Ok(Value::Bool(b)) => Ok(Node::Bool(b)),
        Ok(Value::Number(n)) => Ok(Node::Number(n.to_string())),
        Ok(Value::String(s)) => Ok(Node::Str(s)),
        Ok(Value::Array(a)) => Ok(Node::Array(a.iter().map(|v| v.to_string()).collect())),
        Ok(Value::Object(o)) => {
            Ok(Node::Object(o.iter().map(|(k, v)| (k.clone(), v.to_string())).collect()))
        },
        Err(e) => Err(e.to_string()),
    }
}

/// What `serde_json::Value` displays, compactly, for an object whose one entry lists
/// objects with two string entries each. It is one line (line feeds in strings are
/// escaped), and `serde_json` reads back from it what went in: an object with that one
/// entry, and the pairs under it.
#[verifier::external_body]
pub(crate) fn write_pairs(
    list_key: &str,
    a_key: &str,
    b_key: &str,
    pairs: &Vec<(String, String)>,
) -> (r: String)
    requires
        a_key@ != b_key@,
    ensures
        r@ == json_pairs(list_key@, a_key@, b_key@, pair_views(pairs@)),
        on_one_line(r@),
        has_one_entry(r@, list_key@),
        reads_back(r@, list_key@, a_key@, b_key@, pair_views(pairs@)),
{
    let mut list: Vec<Value> = Vec::new();
    for (a, b) in pairs {
        let mut object = serde_json::Map::new();
        object.insert(a_key.to_owned(), Value::String(a.clone()));
        object.insert(b_key.to_owned(), Value::String(b.clone()));
        list.push(Value::Object(object));
    }
    let mut root = serde_json::Map::new();
    root.insert(list_key.to_owned(), Value::Array(list));
    Value::Object(root).to_string()
}

fn lookup_text<'a>(fields: &'a Vec<(String, String)>, key: &str) -> (r: Option<&'a String>)
    ensures
        match r {
            Some(s) => lookup(pair_views(fields@), key@) == Some(s@),
            None => lookup(pair_views(fields@), key@) is None,
        },
{
    let ghost fs = pair_views(fields@);
    let mut i: usize = 0;
    assert(fs.skip(0) =~= fs);
    while i < fields.len()
        invariant
            i <= fields@.len(),
            fs == pair_views(fields@),
            lookup(fs.skip(i as int), key@) == lookup(fs, key@),
        decreases fields@.len() - i,
    {
        let ghost rest = fs.skip(i as int);
        assert(rest[0] == (fields@[i as int].0@, fields@[i as int].1@));
        if text::same_text(fields[i].0.as_str(), key) {
            return Some(&fields[i].1);
        }
        assert(rest.drop_first() =~= fs.skip(i + 1));
        i += 1;
    }
    None
}

impl Node {
    /// The text of the entry `key`, where this is an object that has one.
    pub fn get(&self, key: &str) -> (r: Option<&String>)
        ensures
            match r {
                Some(s) => node_member(Some(self@), key@) == Some(s@),
                None => node_member(Some(self@), key@) is None,
            },
    {
        match self {
            Node::Object(fields) => lookup_text(fields, key),
            _ => None,
        }
    }

    /// What this says, where it is a string.
    pub fn as_str(&self) -> (r: Option<&String>)
        ensures
            match r {
                Some(s) => node_string(Some(self@)) == Some(s@),
                None => node_string(Some(self@)) is None,
            },
    {
        match self {
            Node::Str(s) => Some(s),
            _ => None,
        }
    }
}

/// What the entry `key` of the object that `s` holds says, where it is a string.
pub fn string_member_text(s: &str, key: &str) -> (r: Option<String>)
    ensures
        text::opt_view(r) == string_member(s@, key@),
{
    match read_node(s) {
        Ok(node) => match node.get(key) {
            Some(inner) => match read_node(inner.as_str()) {
                Ok(value) => match value.as_str() {
                    Some(said) => Some(said.clone()),
                    None => None,
                },
                Err(_) => None,
            },
            None => None,
        },
        Err(_) => None,
    }
}

/// The same, and nothing where there is no such string.
pub fn str_field_text(s: &str, key: &str) -> (r: String)
    ensures
        r@ == str_field(s@, key@),
{
    match string_member_text(s, key) {
        Some(said) => said,
        None => String::new(),
    }
}

/// The texts of the elements of the array under `key`.
pub fn list_member_texts(node: &Node, key: &str) -> (r: Option<Vec<String>>)
    ensures
        match r {
            Some(a) => list_member(Some(node@), key@) == Some(text::views(a@)),
            None => list_member(Some(node@), key@) is None,
        },
{
    match node.get(key) {
        Some(inner) => match read_node(inner.as_str()) {
            Ok(Node::Array(a)) => Some(a),
            Ok(_) => None,
            Err(_) => None,
        },
        None => None,
    }
}

/// An entry is found by its name, the first of that name: entries of other names before it
/// make no difference, nor does anything behind it.
pub proof fn law_first_entry_counts(
    before: Seq<(Seq<char>, Seq<char>)>,
    key: Seq<char>,
    value: Seq<char>,
    behind: Seq<(Seq<char>, Seq<char>)>,
)
    requires
        forall|i: int| 0 <= i < before.len() ==> (#[trigger] before[i]).0 != key,
    ensures
        lookup(before + seq![(key, value)] + behind, key) == Some(value),
        lookup(before, key) is None,
    decreases before.len(),
{
    let all = before + seq![(key, value)] + behind;
    if before.len() > 0 {
        let rest = before.drop_first();
        assert(before[0].0 != key);
        assert forall|i: int| 0 <= i < rest.len() implies (#[trigger] rest[i]).0 != key by {
            assert(rest[i] == before[i + 1]);
        }
        law_first_entry_counts(rest, key, value, behind);
        assert(all.drop_first() =~= rest + seq![(key, value)] + behind);
    }
}

} // verus!
