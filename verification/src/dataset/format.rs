//! Convert between gene's native dataset and common chat-dataset file formats.
//!
//! - **gene**: the native [`TrainingExample`] JSONL (messages + provenance meta)
//! - **mlx / openai**: `{"messages": [{"role","content"}, …]}` per line
//! - **sharegpt**: `{"conversations": [{"from","value"}, …]}` per line

use super::records;
use crate::clock::Timestamp;
use crate::ids;
use crate::ids::Uuid;
use crate::json;
use crate::json::{Node, NodeView};
use crate::llm::types::Turn;
use crate::model::dataset;
use crate::model::dataset::{ChatMsg, Meta, MetaView, TrainingExample};
use crate::text;
use vstd::prelude::*;

verus! {

#[derive(Debug, Clone, Copy, PartialEq, Eq, Structural)]
pub enum Format {
    Gene,
    Mlx,
    OpenAi,
    ShareGpt,
}

/// A name that no format has.
#[derive(Debug)]
pub struct UnknownFormat {
    pub name: String,
}

impl UnknownFormat {
    pub fn message(&self) -> (r: String)
        ensures
            r@ == "unknown format '"@ + self.name@ + "' (gene | mlx | openai | sharegpt)"@,
    {
        let mut out = String::new();
        out.append("unknown format '");
        out.append(self.name.as_str());
        out.append("' (gene | mlx | openai | sharegpt)");
        out
    }
}

/// The format that `name` names.
pub open spec fn format_named(name: Seq<char>) -> Option<Format> {
    if name == "gene"@ {
        Some(Format::Gene)
    } else if name == "mlx"@ {
        Some(Format::Mlx)
    } else if name == "openai"@ {
        Some(Format::OpenAi)
    } else if name == "sharegpt"@ {
        Some(Format::ShareGpt)
    } else {
        None
    }
}

impl Format {
    pub fn parse(s: &str) -> (r: Result<Format, UnknownFormat>)
        ensures
            match r {
                Ok(f) => format_named(s@) == Some(f),
                Err(e) => format_named(s@) is None && e.name@ == s@,
            },
    {
        if text::same_text(s, "gene") {
            Ok(Format::Gene)
        } else if text::same_text(s, "mlx") {
            Ok(Format::Mlx)
        } else if text::same_text(s, "openai") {
            Ok(Format::OpenAi)
        } else if text::same_text(s, "sharegpt") {
            Ok(Format::ShareGpt)
        } else {
            Err(UnknownFormat { name: s.to_owned() })
        }
    }
}

/// Why a record could not be imported.
#[derive(Debug)]
pub enum ImportError {
    /// It is no JSON, or no example; what the decoder says of it.
    Unreadable(String),
    NoMessages,
    NoConversations,
}

impl ImportError {
    pub fn message(&self) -> (r: String)
        ensures
            r@ == match *self {
                ImportError::Unreadable(why) => why@,
                ImportError::NoMessages => "record has no 'messages' array"@,
                ImportError::NoConversations => "record has no 'conversations' array"@,
            },
    {
        match self {
            ImportError::Unreadable(why) => why.clone(),
            ImportError::NoMessages => "record has no 'messages' array".to_owned(),
            ImportError::NoConversations => "record has no 'conversations' array".to_owned(),
        }
    }
}

/// ShareGPT's name for a role.
pub open spec fn to_sharegpt(role: Seq<char>) -> Seq<char> {
    if role == "user"@ {
        "human"@
    } else if role == "assistant"@ {
        "gpt"@
    } else {
        role
    }
}

/// The role that ShareGPT's name stands for.
pub open spec fn from_sharegpt(from: Seq<char>) -> Seq<char> {
    if from == "human"@ {
        "user"@
    } else if from == "gpt"@ {
        "assistant"@
    } else {
        from
    }
}

/// The array that a format keeps its messages under, and the entries of a message that
/// say who speaks and what.
pub open spec fn keys_of(format: Format) -> (Seq<char>, Seq<char>, Seq<char>) {
    if format == Format::ShareGpt {
        ("conversations"@, "from"@, "value"@)
    } else {
        ("messages"@, "role"@, "content"@)
    }
}

/// The turn that a message of a record is, its text being `t`.
pub open spec fn turn_in(t: Seq<char>, format: Format) -> Turn {
    let (_, who, what) = keys_of(format);
    let name = json::str_field(t, who);
    Turn {
        role: if format == Format::ShareGpt {
            from_sharegpt(name)
        } else {
            name
        },
        content: json::str_field(t, what),
    }
}

/// The turns of a record, where it has the array that the format asks for.
pub open spec fn turns_in(record: Option<NodeView>, format: Format) -> Option<Seq<Turn>> {
    match json::list_member(record, keys_of(format).0) {
        Some(es) => Some(es.map_values(|t: Seq<char>| turn_in(t, format))),
        None => None,
    }
}

/// What is recorded of an example that was imported as number `id` at `at`.
pub open spec fn import_meta(id: nat, at: (int, int)) -> MetaView {
    MetaView {
        conversation_id: "import-"@ + ids::simple(id),
        model: seq![],
        created_at: at,
        edited: false,
        source: "import"@,
        original_assistant: None,
    }
}

/// `meta` is that of an import: each is its own conversation, under a random id.
pub open spec fn is_import_meta(meta: MetaView) -> bool {
    exists|id: nat| ids::is_random(id as int) && meta == #[trigger] import_meta(id, meta.created_at)
}

/// The role that ShareGPT's name stands for.
pub fn role_from_sharegpt(from: String) -> (r: String)
    ensures
        r@ == from_sharegpt(from@),
{
    if text::same_text(from.as_str(), "human") {
        "user".to_owned()
    } else if text::same_text(from.as_str(), "gpt") {
        "assistant".to_owned()
    } else {
        from
    }
}

/// ShareGPT's name for a role.
pub fn role_to_sharegpt(role: &str) -> (r: String)
    ensures
        r@ == to_sharegpt(role@),
{
    if text::same_text(role, "user") {
        "human".to_owned()
    } else if text::same_text(role, "assistant") {
        "gpt".to_owned()
    } else {
        role.to_owned()
    }
}

fn list_key(format: Format) -> (r: &'static str)
    ensures
        r@ == keys_of(format).0,
{
    match format {
        Format::ShareGpt => "conversations",
        _ => "messages",
    }
}

fn message_in(t: &str, format: Format) -> (r: ChatMsg)
    ensures
        r@ == turn_in(t@, format),
{
    match format {
        Format::ShareGpt => ChatMsg {
            role: role_from_sharegpt(json::str_field_text(t, "from")),
            content: json::str_field_text(t, "value"),
        },
        _ => ChatMsg {
            role: json::str_field_text(t, "role"),
            content: json::str_field_text(t, "content"),
        },
    }
}

/// The messages of a record, where it has the array that the format asks for. A
/// message missing an entry, or holding something other than a string there, says
/// nothing in that place.
pub fn messages_in(record: &Node, format: Format) -> (r: Option<Vec<ChatMsg>>)
    ensures
        match r {
            Some(v) => turns_in(Some(record@), format) == Some(dataset::chat_turns(v@)),
            None => turns_in(Some(record@), format) is None,
        },
{
    match json::list_member_texts(record, list_key(format)) {
        Some(es) => {
            let ghost want = text::views(es@).map_values(|t: Seq<char>| turn_in(t, format));
            let mut out: Vec<ChatMsg> = Vec::new();
            let mut i: usize = 0;
            while i < es.len()
                invariant
                    i <= es@.len(),
                    want == text::views(es@).map_values(|t: Seq<char>| turn_in(t, format)),
                    dataset::chat_turns(out@) == want.take(i as int),
                decreases es@.len() - i,
            {
                let ghost before = out@;
                out.push(message_in(es[i].as_str(), format));
                assert(dataset::chat_turns(out@) =~= dataset::chat_turns(before).push(
                    want[i as int],
                ));
                i += 1;
                assert(dataset::chat_turns(out@) =~= want.take(i as int));
            }
            assert(want.take(i as int) =~= want);
            Some(out)
        },
        None => None,
    }
}

/// The example that `messages`, imported as number `id` at `at`, make.
pub fn imported_at(messages: Vec<ChatMsg>, id: Uuid, at: Timestamp) -> (r: TrainingExample)
    ensures
        r.messages@ == messages@,
        r.meta@ == import_meta(id.bits as nat, at@),
{
    let mut conversation_id = String::new();
    conversation_id.append("import-");
    let digits = id.simple_text();
    conversation_id.append(digits.as_str());
    let r = TrainingExample {
        messages,
        meta: Meta {
            conversation_id,
            model: String::new(),
            created_at: at,
            edited: false,
            source: "import".to_owned(),
            original_assistant: None,
        },
    };
    assert(r.meta@.model =~= seq![]);
    r
}

/// The example that a record of this format, read as `node`, makes.
fn example_in(node: &Node, format: Format) -> (r: Result<TrainingExample, ImportError>)
    ensures
        match r {
            Ok(e) => turns_in(Some(node@), format) == Some(e@.messages) && is_import_meta(e@.meta),
            Err(e) => turns_in(Some(node@), format) is None && e == missing_array(format),
        },
{
    match messages_in(node, format) {
        Some(messages) => {
            let id = Uuid::new_v4();
            let e = imported_at(messages, id, Timestamp::now());
            assert(e@.meta == import_meta(id.bits as nat, e@.meta.created_at));
            Ok(e)
        },
        None => match format {
            Format::ShareGpt => Err(ImportError::NoConversations),
            _ => Err(ImportError::NoMessages),
        },
    }
}

/// What is said of a record without the array that the format asks for.
pub open spec fn missing_array(format: Format) -> ImportError {
    if format == Format::ShareGpt {
        ImportError::NoConversations
    } else {
        ImportError::NoMessages
    }
}

/// `e` is what a record of this format makes. A native record makes what `decode` says.
pub open spec fn makes<F: Fn(&String) -> Result<TrainingExample, String>>(
    record: String,
    format: Format,
    decode: F,
    e: TrainingExample,
) -> bool {
    &&& json::json_node(record@) is Some
    &&& if format == Format::Gene {
        call_ensures(decode, (&record,), Ok(e))
    } else {
        turns_in(json::json_node(record@), format) == Some(e@.messages) && is_import_meta(e@.meta)
    }
}

/// A record of this format cannot be imported, for the reason `why`.
pub open spec fn fails<F: Fn(&String) -> Result<TrainingExample, String>>(
    record: String,
    format: Format,
    decode: F,
    why: ImportError,
) -> bool {
    if json::json_node(record@) is None {
        why is Unreadable && json::json_read(record@) == Err::<NodeView, Seq<char>>(
            why->Unreadable_0@,
        )
    } else if format == Format::Gene {
        why is Unreadable && call_ensures(decode, (&record,), Err(why->Unreadable_0))
    } else {
        turns_in(json::json_node(record@), format) is None && why == missing_array(format)
    }
}

/// What an import of `s` comes to: an example of every record, in order, or the reason
/// why the first record that fails does.
pub open spec fn imports<F: Fn(&String) -> Result<TrainingExample, String>>(
    s: Seq<char>,
    format: Format,
    decode: F,
    r: Result<Vec<TrainingExample>, ImportError>,
) -> bool {
    exists|lines: Seq<String>, made: Seq<TrainingExample>|
        {
            &&& #[trigger] text::views(lines) == records::records(s)
            &&& #[trigger] made.len() <= lines.len()
            &&& forall|i: int|
                0 <= i < made.len() ==> makes(lines[i], format, decode, #[trigger] made[i])
            &&& match r {
                Ok(v) => made.len() == lines.len() && v@ == made,
                Err(why) => made.len() < lines.len() && fails(
                    lines[made.len() as int],
                    format,
                    decode,
                    why,
                ),
            }
        }
}

fn import_record<F: Fn(&String) -> Result<TrainingExample, String>>(
    line: &String,
    format: Format,
    decode: &F,
) -> (r: Result<TrainingExample, ImportError>)
    requires
        call_requires(*decode, (line,)),
    ensures
        match r {
            Ok(e) => makes(*line, format, *decode, e),
            Err(why) => fails(*line, format, *decode, why),
        },
{
    let node = match json::read_node(line.as_str()) {
        Ok(node) => node,
        Err(why) => return Err(ImportError::Unreadable(why)),
    };
    match format {
        Format::Gene => match decode(line) {
            Ok(e) => Ok(e),
            Err(why) => Err(ImportError::Unreadable(why)),
        },
        _ => example_in(&node, format),
    }
}

/// Import JSONL text in `format` into examples. Errors on the first record
/// that isn't valid JSON or lacks the expected array; a message missing
/// `role`/`content` (ShareGPT: `from`/`value`) defaults that field to empty
/// rather than failing. `mlx` is treated as the OpenAI chat-messages shape.
/// `decode` reads a native record.
pub fn import<F: Fn(&String) -> Result<TrainingExample, String>>(
    s: &str,
    format: Format,
    decode: F,
) -> (r: Result<Vec<TrainingExample>, ImportError>)
    requires
        forall|line: &String| call_requires(decode, (line,)),
    ensures
        imports(s@, format, decode, r),
{
    let lines = records::record_list(s);
    let mut out: Vec<TrainingExample> = Vec::new();
    let mut i: usize = 0;
    while i < lines.len()
        invariant
            i <= lines@.len(),
            text::views(lines@) == records::records(s@),
            out@.len() == i,
            forall|line: &String| call_requires(decode, (line,)),
            forall|k: int| 0 <= k < i ==> makes(lines@[k], format, decode, #[trigger] out@[k]),
        decreases lines@.len() - i,
    {
        match import_record(&lines[i], format, &decode) {
            Ok(e) => {
                out.push(e);
            },
            Err(why) => {
                assert(text::views(lines@) == records::records(s@) && out@.len() <= lines@.len());
                return Err(why);
            },
        }
        i += 1;
    }
    assert(text::views(lines@) == records::records(s@) && out@.len() <= lines@.len());
    Ok(out)
}

/// The names and words of an example's messages, as this format has them.
pub open spec fn pairs_of(turns: Seq<Turn>, format: Format) -> Seq<(Seq<char>, Seq<char>)> {
    turns.map_values(
        |t: Turn|
            (
                if format == Format::ShareGpt {
                    to_sharegpt(t.role)
                } else {
                    t.role
                },
                t.content,
            ),
    )
}

/// The record that an example is in this format. A native record is what `encode` says.
pub open spec fn is_record_of<F: Fn(&TrainingExample) -> Result<String, String>>(
    e: TrainingExample,
    format: Format,
    encode: F,
    line: Seq<char>,
) -> bool {
    if format == Format::Gene {
        exists|s: String| s@ == line && #[trigger] call_ensures(encode, (&e,), Ok(s))
    } else {
        let (list, who, what) = keys_of(format);
        line == json::json_pairs(list, who, what, pairs_of(e@.messages, format))
    }
}

/// `s` is `examples` in this format: a line for each, in order, that ends in a line feed.
pub open spec fn is_export<F: Fn(&TrainingExample) -> Result<String, String>>(
    examples: Seq<TrainingExample>,
    format: Format,
    encode: F,
    s: Seq<char>,
) -> bool {
    exists|lines: Seq<Seq<char>>|
        {
            &&& lines.len() == examples.len()
            &&& forall|i: int|
                0 <= i < lines.len() ==> is_record_of(
                    examples[i],
                    format,
                    encode,
                    #[trigger] lines[i],
                )
            &&& s == #[trigger] records::jsonl(lines)
        }
}

/// The records of `s`, which are all of its lines, hold nothing but the array that the
/// format keeps its messages under.
pub open spec fn holds_messages_only(s: Seq<char>, format: Format) -> bool {
    let found = records::records(s);
    &&& text::lines(s) == found
    &&& forall|i: int|
        0 <= i < found.len() ==> json::has_one_entry(#[trigger] found[i], keys_of(format).0)
}

/// A role that this format gives back as it is. ShareGPT has names of its own for a
/// user and an assistant, and reads them as such.
pub open spec fn role_kept(role: Seq<char>, format: Format) -> bool {
    format == Format::ShareGpt ==> role != "human"@ && role != "gpt"@
}

/// An import of `s` finds the messages of `examples` in it.
pub open spec fn gives_back(s: Seq<char>, format: Format, examples: Seq<TrainingExample>) -> bool {
    let found = records::records(s);
    &&& found.len() == examples.len()
    &&& forall|i: int|
        #![trigger found[i]]
        0 <= i < found.len() && (forall|k: int|
            0 <= k < examples[i]@.messages.len() ==> role_kept(
                (#[trigger] examples[i]@.messages[k]).role,
                format,
            )) ==> turns_in(json::json_node(found[i]), format) == Some(examples[i]@.messages)
}

/// A record with these pairs is read back as the turns that they came from.
pub proof fn lemma_read_back(line: Seq<char>, turns: Seq<Turn>, format: Format)
    requires
        ({
            let (list, who, what) = keys_of(format);
            json::reads_back(line, list, who, what, pairs_of(turns, format))
        }),
        forall|k: int| 0 <= k < turns.len() ==> role_kept((#[trigger] turns[k]).role, format),
    ensures
        turns_in(json::json_node(line), format) == Some(turns),
{
    let es = json::list_member(json::json_node(line), keys_of(format).0)->0;
    let got = es.map_values(|t: Seq<char>| turn_in(t, format));
    assert forall|i: int| 0 <= i < turns.len() implies got[i] == turns[i] by {
        assert(json::string_member(es[i], keys_of(format).1) == Some(
            pairs_of(turns, format)[i].0,
        ));
        assert(role_kept(turns[i].role, format));
        reveal_strlit("user");
        reveal_strlit("assistant");
        reveal_strlit("human");
        reveal_strlit("gpt");
        assert("user"@.len() != "assistant"@.len());
        assert("human"@.len() != "gpt"@.len());
    }
    assert(got =~= turns);
}

fn pair_list(messages: &Vec<ChatMsg>, format: Format) -> (r: Vec<(String, String)>)
    ensures
        json::pair_views(r@) == pairs_of(dataset::chat_turns(messages@), format),
{
    let ghost want = pairs_of(dataset::chat_turns(messages@), format);
    let mut out: Vec<(String, String)> = Vec::new();
    let mut i: usize = 0;
    while i < messages.len()
        invariant
            i <= messages@.len(),
            want == pairs_of(dataset::chat_turns(messages@), format),
            json::pair_views(out@) == want.take(i as int),
        decreases messages@.len() - i,
    {
        let m = &messages[i];
        let ghost before = out@;
        let name = match format {
            Format::ShareGpt => role_to_sharegpt(m.role.as_str()),
            _ => m.role.clone(),
        };
        out.push((name, m.content.clone()));
        assert(json::pair_views(out@) =~= json::pair_views(before).push(want[i as int]));
        i += 1;
        assert(json::pair_views(out@) =~= want.take(i as int));
    }
    assert(want.take(i as int) =~= want);
    out
}

/// The record of an example with these messages, in another format than the native one.
pub fn record_text(messages: &Vec<ChatMsg>, format: Format) -> (r: String)
    ensures
        ({
            let (list, who, what) = keys_of(format);
            let pairs = pairs_of(dataset::chat_turns(messages@), format);
            &&& r@ == json::json_pairs(list, who, what, pairs)
            &&& json::reads_back(r@, list, who, what, pairs)
            &&& json::has_one_entry(r@, list)
            &&& records::is_record(r@)
        }),
{
    let pairs = pair_list(messages, format);
    proof {
        reveal_strlit("role");
        reveal_strlit("content");
        reveal_strlit("from");
        reveal_strlit("value");
        assert("role"@.len() != "content"@.len());
        assert("from"@.len() != "value"@.len());
    }
    let r = match format {
        Format::ShareGpt => json::write_pairs("conversations", "from", "value", &pairs),
        _ => json::write_pairs("messages", "role", "content", &pairs),
    };
    assert(!text::is_white(r@[0]));
    r
}

/// Export examples to JSONL text in `format`. `encode` writes a native record; where it
/// fails, the export fails with what it says of the first example that it cannot write.
/// What is exported in another format can be imported again: the import finds the same
/// messages. It holds nothing else, provenance least of all.
pub fn export<F: Fn(&TrainingExample) -> Result<String, String>>(
    examples: &[TrainingExample],
    format: Format,
    encode: F,
) -> (r: Result<String, String>)
    requires
        forall|e: &TrainingExample| call_requires(encode, (e,)),
    ensures
        match r {
            Ok(s) => {
                &&& is_export(examples@, format, encode, s@)
                &&& format != Format::Gene ==> gives_back(s@, format, examples@)
                    && holds_messages_only(s@, format)
            },
            Err(why) => format == Format::Gene && exists|i: int|
                0 <= i < examples@.len() && #[trigger] call_ensures(
                    encode,
                    (&examples@[i],),
                    Err(why),
                ) && exists|before: Seq<char>|
                    is_export(examples@.take(i), format, encode, before),
        },
{
    let mut out = String::new();
    let ghost mut lines: Seq<Seq<char>> = seq![];
    let mut i: usize = 0;
    while i < examples.len()
        invariant
            i <= examples@.len(),
            lines.len() == i,
            out@ == records::jsonl(lines),
            forall|e: &TrainingExample| call_requires(encode, (e,)),
            forall|k: int|
                0 <= k < i ==> is_record_of(examples@[k], format, encode, #[trigger] lines[k]),
            format != Format::Gene ==> forall|k: int|
                0 <= k < i ==> records::is_record(#[trigger] lines[k]) && ({
                    let (list, who, what) = keys_of(format);
                    json::has_one_entry(lines[k], list) && json::reads_back(
                        lines[k],
                        list,
                        who,
                        what,
                        pairs_of(examples@[k]@.messages, format),
                    )
                }),
        decreases examples@.len() - i,
    {
        let e = &examples[i];
        let line = match format {
            Format::Gene => match encode(e) {
                Ok(line) => line,
                Err(why) => {
                    assert(records::jsonl(lines) == out@);
                    assert(is_export(examples@.take(i as int), format, encode, out@));
                    return Err(why);
                },
            },
            _ => record_text(&e.messages, format),
        };
        let ghost before = out@;
        out.append(line.as_str());
        out.push('\n');
        proof {
            let grown = lines.push(line@);
            assert(grown.drop_last() =~= lines);
            assert(out@ =~= before + line@ + seq!['\n']);
            assert(is_record_of(*e, format, encode, line@));
            lines = grown;
        }
        i += 1;
    }
    proof {
        if format != Format::Gene {
            records::law_records_of_jsonl(lines);
            assert forall|k: int|
                #![trigger lines[k]]
                0 <= k < lines.len() && (forall|m: int|
                    0 <= m < examples@[k]@.messages.len() ==> role_kept(
                        (#[trigger] examples@[k]@.messages[m]).role,
                        format,
                    )) implies turns_in(json::json_node(lines[k]), format) == Some(
                examples@[k]@.messages,
            ) by {
                lemma_read_back(lines[k], examples@[k]@.messages, format);
            }
        }
    }
    Ok(out)
}

/// What was exported comes back: an import of the text that an export gave succeeds,
/// and finds the messages of every example. (ShareGPT's own names, `human` and `gpt`,
/// come back as the roles that they stand for.)
pub proof fn law_export_import<F: Fn(&String) -> Result<TrainingExample, String>>(
    s: Seq<char>,
    format: Format,
    examples: Seq<TrainingExample>,
    decode: F,
    r: Result<Vec<TrainingExample>, ImportError>,
)
    requires
        format != Format::Gene,
        gives_back(s, format, examples),
        imports(s, format, decode, r),
        forall|i: int, k: int|
            0 <= i < examples.len() && 0 <= k < examples[i]@.messages.len() ==> role_kept(
                (#[trigger] examples[i]@.messages[k]).role,
                format,
            ),
    ensures
        r is Ok,
        r->Ok_0@.len() == examples.len(),
        forall|i: int|
            0 <= i < examples.len() ==> (#[trigger] r->Ok_0@[i])@.messages
                == examples[i]@.messages,
{
    let (lines, made) = choose|lines: Seq<String>, made: Seq<TrainingExample>|
        {
            &&& #[trigger] text::views(lines) == records::records(s)
            &&& #[trigger] made.len() <= lines.len()
            &&& forall|i: int|
                0 <= i < made.len() ==> makes(lines[i], format, decode, #[trigger] made[i])
            &&& match r {
                Ok(v) => made.len() == lines.len() && v@ == made,
                Err(why) => made.len() < lines.len() && fails(
                    lines[made.len() as int],
                    format,
                    decode,
                    why,
                ),
            }
        };
    let found = records::records(s);
    assert forall|i: int| 0 <= i < lines.len() implies lines[i]@ == found[i] && turns_in(
        json::json_node(#[trigger] found[i]),
        format,
    ) == Some(examples[i]@.messages) by {
        assert(text::views(lines)[i] == lines[i]@);
    }
    if r is Err {
        assert(turns_in(json::json_node(found[made.len() as int]), format) is Some);
    } else {
        assert forall|i: int| 0 <= i < examples.len() implies (#[trigger] r->Ok_0@[i])@.messages
            == examples[i]@.messages by {
            assert(makes(lines[i], format, decode, made[i]));
            assert(turns_in(json::json_node(found[i]), format) is Some);
        }
    }
}

/// An export in another format than the native one drops where the examples come from: no
/// line of it has an entry `meta`.
pub proof fn law_export_drops_meta(s: Seq<char>, format: Format)
    requires
        holds_messages_only(s, format),
    ensures
        forall|i: int|
            0 <= i < text::lines(s).len() ==> json::node_member(
                json::json_node(#[trigger] text::lines(s)[i]),
                "meta"@,
            ) is None,
{
    assert forall|i: int| 0 <= i < text::lines(s).len() implies json::node_member(
        json::json_node(#[trigger] text::lines(s)[i]),
        "meta"@,
    ) is None by {
        let found = records::records(s);
        assert(json::has_one_entry(found[i], keys_of(format).0));
        let fields = json::json_node(found[i])->0->Object_0;
        reveal_strlit("meta");
        reveal_strlit("messages");
        reveal_strlit("conversations");
        assert(fields[0].0.len() != "meta"@.len());
        assert(json::lookup(fields.drop_first(), "meta"@) is None);
    }
}

/// What `encode` writes of an example is a record on one line, and JSON.
pub open spec fn writes_records<F: Fn(&TrainingExample) -> Result<String, String>>(
    encode: F,
) -> bool {
    forall|e: TrainingExample, line: String| #[trigger]
        call_ensures(encode, (&e,), Ok(line)) ==> records::is_record(line@) && json::json_node(
            line@,
        ) is Some
}

/// What `encode` wrote of an example, `decode` reads as that example.
pub open spec fn undoes<
    D: Fn(&String) -> Result<TrainingExample, String>,
    E: Fn(&TrainingExample) -> Result<String, String>,
>(decode: D, encode: E) -> bool {
    forall|
        e: TrainingExample,
        line: String,
        read: String,
        r: Result<TrainingExample, String>,
    |
        #[trigger] call_ensures(encode, (&e,), Ok(line)) && #[trigger] call_ensures(
            decode,
            (&read,),
            r,
        ) && read@ == line@ ==> r is Ok && r->Ok_0@ == e@
}

/// Native records come back whole: where `decode` reads what `encode` writes, an import of
/// the text that a native export gave succeeds, and finds the messages of every example
/// and where it comes from.
pub proof fn law_native_export_import<
    D: Fn(&String) -> Result<TrainingExample, String>,
    E: Fn(&TrainingExample) -> Result<String, String>,
>(
    s: Seq<char>,
    examples: Seq<TrainingExample>,
    encode: E,
    decode: D,
    r: Result<Vec<TrainingExample>, ImportError>,
)
    requires
        writes_records(encode),
        undoes(decode, encode),
        is_export(examples, Format::Gene, encode, s),
        imports(s, Format::Gene, decode, r),
    ensures
        text::lines(s).len() == examples.len(),
        r is Ok,
        r->Ok_0@.len() == examples.len(),
        forall|i: int|
            0 <= i < examples.len() ==> (#[trigger] r->Ok_0@[i])@.messages == examples[i]@.messages
                && r->Ok_0@[i]@.meta == examples[i]@.meta,
{
    let written = choose|lines: Seq<Seq<char>>|
        {
            &&& lines.len() == examples.len()
            &&& forall|i: int|
                0 <= i < lines.len() ==> is_record_of(
                    examples[i],
                    Format::Gene,
                    encode,
                    #[trigger] lines[i],
                )
            &&& s == #[trigger] records::jsonl(lines)
        };
    assert forall|i: int| 0 <= i < written.len() implies records::is_record(
        #[trigger] written[i],
    ) && json::json_node(written[i]) is Some by {
        assert(is_record_of(examples[i], Format::Gene, encode, written[i]));
        let line = choose|line: String|
            line@ == written[i] && #[trigger] call_ensures(encode, (&examples[i],), Ok(line));
    }
    records::law_records_of_jsonl(written);
    let (lines, made) = choose|lines: Seq<String>, made: Seq<TrainingExample>|
        {
            &&& #[trigger] text::views(lines) == records::records(s)
            &&& #[trigger] made.len() <= lines.len()
            &&& forall|i: int|
                0 <= i < made.len() ==> makes(lines[i], Format::Gene, decode, #[trigger] made[i])
            &&& match r {
                Ok(v) => made.len() == lines.len() && v@ == made,
                Err(why) => made.len() < lines.len() && fails(
                    lines[made.len() as int],
                    Format::Gene,
                    decode,
                    why,
                ),
            }
        };
    assert forall|i: int, outcome: Result<TrainingExample, String>|
        0 <= i < lines.len() && #[trigger] call_ensures(
            decode,
            (&lines[i],),
            outcome,
        ) implies outcome is Ok && outcome->Ok_0@ == examples[i]@ by {
        assert(text::views(lines)[i] == lines[i]@);
        assert(is_record_of(examples[i], Format::Gene, encode, written[i]));
        let line = choose|line: String|
            line@ == written[i] && #[trigger] call_ensures(encode, (&examples[i],), Ok(line));
        assert(call_ensures(encode, (&examples[i],), Ok(line)));
    }
    assert(text::views(lines).len() == lines.len());
    if let Err(why) = r {
        let at = made.len() as int;
        assert(text::views(lines)[at] == lines[at]@);
        assert(json::json_node(written[at]) is Some);
        assert(fails(lines[at], Format::Gene, decode, why));
        assert(call_ensures(
            decode,
            (&lines[at],),
            Err::<TrainingExample, String>(why->Unreadable_0),
        ));
    } else {
        assert forall|i: int| 0 <= i < examples.len() implies (#[trigger] r->Ok_0@[i])@
            == examples[i]@ by {
            assert(makes(lines[i], Format::Gene, decode, made[i]));
            assert(call_ensures(decode, (&lines[i],), Ok::<TrainingExample, String>(made[i])));
        }
    }
}

/// ShareGPT calls a user `human` and an assistant `gpt`, and every other role what it is
/// called here; and it is understood so.
pub proof fn law_sharegpt_names(role: Seq<char>)
    ensures
        to_sharegpt("user"@) == "human"@,
        to_sharegpt("assistant"@) == "gpt"@,
        role != "user"@ && role != "assistant"@ ==> to_sharegpt(role) == role,
        from_sharegpt("human"@) == "user"@,
        from_sharegpt("gpt"@) == "assistant"@,
        role != "human"@ && role != "gpt"@ ==> from_sharegpt(role) == role,
{
    reveal_strlit("user");
    reveal_strlit("assistant");
    reveal_strlit("human");
    reveal_strlit("gpt");
    assert("user"@.len() != "assistant"@.len());
    assert("human"@.len() != "gpt"@.len());
}

/// Every message of a record is read, in order: who speaks and what is said, where they are
/// given as strings, and nothing in the place of one that is not.
pub proof fn law_messages_are_read(record: NodeView, elements: Seq<Seq<char>>, i: int)
    requires
        0 <= i < elements.len(),
        json::list_member(Some(record), "messages"@) == Some(elements),
    ensures
        ({
            let turns = turns_in(Some(record), Format::OpenAi);
            let mlx = turns_in(Some(record), Format::Mlx);
            let (who, what) = (
                json::string_member(elements[i], "role"@),
                json::string_member(elements[i], "content"@),
            );
            &&& turns is Some
            &&& mlx == turns
            &&& turns->0.len() == elements.len()
            &&& who is Some ==> turns->0[i].role == who->0
            &&& who is None ==> turns->0[i].role.len() == 0
            &&& what is Some ==> turns->0[i].content == what->0
            &&& what is None ==> turns->0[i].content.len() == 0
        }),
{
    let mlx = turns_in(Some(record), Format::Mlx)->0;
    let open_ai = turns_in(Some(record), Format::OpenAi)->0;
    assert forall|k: int| 0 <= k < elements.len() implies turn_in(
        #[trigger] elements[k],
        Format::Mlx,
    ) == turn_in(elements[k], Format::OpenAi) by {}
    assert(mlx =~= open_ai) by {
        assert forall|k: int| 0 <= k < elements.len() implies mlx[k] == open_ai[k] by {
            assert(turn_in(elements[k], Format::Mlx) == turn_in(elements[k], Format::OpenAi));
        }
    }
}

/// So is every message of a ShareGPT record, under the names that it has for them.
pub proof fn law_sharegpt_messages_are_read(
    record: NodeView,
    elements: Seq<Seq<char>>,
    i: int,
)
    requires
        0 <= i < elements.len(),
        json::list_member(Some(record), "conversations"@) == Some(elements),
    ensures
        ({
            let turns = turns_in(Some(record), Format::ShareGpt);
            let (who, what) = (
                json::string_member(elements[i], "from"@),
                json::string_member(elements[i], "value"@),
            );
            &&& turns is Some
            &&& turns->0.len() == elements.len()
            &&& who == Some("human"@) ==> turns->0[i].role == "user"@
            &&& who == Some("gpt"@) ==> turns->0[i].role == "assistant"@
            &&& who is Some && who->0 != "human"@ && who->0 != "gpt"@ ==> turns->0[i].role
                == who->0
            &&& what is Some ==> turns->0[i].content == what->0
            &&& what is None ==> turns->0[i].content.len() == 0
        }),
{
    law_sharegpt_names("human"@);
}

/// An imported example tells that it was imported, is edited by nobody, and is a
/// conversation of its own: two with different ids are never taken for one.
pub proof fn law_imports_stand_apart(a: nat, b: nat, at: (int, int))
    ensures
        import_meta(a, at).source == "import"@,
        !import_meta(a, at).edited,
        import_meta(a, at).original_assistant is None,
        import_meta(a, at).created_at == at,
        ids::simple(a) != ids::simple(b) ==> import_meta(a, at).conversation_id != import_meta(
            b,
            at,
        ).conversation_id,
{
    let head = "import-"@;
    let (x, y) = (head + ids::simple(a), head + ids::simple(b));
    if x == y {
        assert(ids::simple(a) =~= x.skip(head.len() as int));
        assert(ids::simple(b) =~= y.skip(head.len() as int));
    }
}

} // verus!
