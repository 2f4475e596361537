//! The durable conversation model. An assistant message keeps both its edited
//! `content` and the model's `original_content`, which is what makes editing a
//! reply usable as a training signal.

use crate::clock::Timestamp;
use crate::ids;
use crate::ids::Uuid;
use crate::llm::types::Turn;
use crate::text;
use vstd::prelude::*;

verus! {

#[derive(Debug, Clone, Copy, PartialEq, Eq, Structural)]
pub enum Role {
    System,
    User,
    Assistant,
    Tool,
}

#[derive(Debug)]
pub struct Message {
    pub id: Uuid,
    pub role: Role,
    /// Canonical, visible content (the edited text for an edited assistant turn).
    pub content: String,
    /// Set once, when an assistant reply is first edited: the model's raw output.
    pub original_content: Option<String>,
    pub edited: bool,
    /// Captured `<think>` / reasoning text (assistant turns only). Not sent back upstream.
    pub thinking: Option<String>,
    pub think_collapsed: bool,
    /// For tool messages: the command whose output this message carries.
    pub command: Option<String>,
    pub exit_code: Option<i32>,
    pub created_at: Timestamp,
}

/// What a message holds.
pub struct MessageView {
    pub id: Uuid,
    pub role: Role,
    pub content: Seq<char>,
    pub original_content: Option<Seq<char>>,
    pub edited: bool,
    pub thinking: Option<Seq<char>>,
    pub think_collapsed: bool,
    pub command: Option<Seq<char>>,
    pub exit_code: Option<i32>,
    pub created_at: (int, int),
}

impl View for Message {
    type V = MessageView;

    open spec fn view(&self) -> MessageView {
        MessageView {
            id: self.id,
            role: self.role,
            content: self.content@,
            original_content: text::opt_view(self.original_content),
            edited: self.edited,
            thinking: text::opt_view(self.thinking),
            think_collapsed: self.think_collapsed,
            command: text::opt_view(self.command),
            exit_code: self.exit_code,
            created_at: self.created_at@,
        }
    }
}

/// What a list of messages holds.
pub open spec fn message_views(v: Seq<Message>) -> Seq<MessageView> {
    v.map_values(|m: Message| m@)
}

/// A message that says `content` and nothing else.
pub open spec fn plain_message(
    id: Uuid,
    created_at: (int, int),
    role: Role,
    content: Seq<char>,
) -> MessageView {
    MessageView {
        id,
        role,
        content,
        original_content: None,
        edited: false,
        thinking: None,
        think_collapsed: false,
        command: None,
        exit_code: None,
        created_at,
    }
}

/// A message that carries the output of `command`.
pub open spec fn tool_message(
    id: Uuid,
    created_at: (int, int),
    command: Seq<char>,
    content: Seq<char>,
    exit_code: Option<i32>,
) -> MessageView {
    MessageView {
        command: Some(command),
        exit_code,
        ..plain_message(id, created_at, Role::Tool, content)
    }
}

impl Message {
    /// The message `id`, made at `created_at`, in which `role` says `content`.
    pub fn at(id: Uuid, created_at: Timestamp, role: Role, content: String) -> (r: Message)
        ensures
            r@ == plain_message(id, created_at@, role, content@),
    {
        Message {
            id,
            role,
            content,
            original_content: None,
            edited: false,
            thinking: None,
            think_collapsed: false,
            command: None,
            exit_code: None,
            created_at,
        }
    }

    /// A new message, made now, in which `role` says `content`.
    pub fn new(role: Role, content: String) -> (r: Message)
        ensures
            r@ == plain_message(r.id, r.created_at@, role, content@),
            ids::is_random(r.id.bits as int),
    {
        Message::at(Uuid::new_v4(), Timestamp::now(), role, content)
    }

    /// A new message, made now, with the output of `command`.
    pub fn tool(command: String, content: String, exit_code: Option<i32>) -> (r: Message)
        ensures
            r@ == tool_message(r.id, r.created_at@, command@, content@, exit_code),
            ids::is_random(r.id.bits as int),
    {
        let mut m = Message::new(Role::Tool, content);
        m.command = Some(command);
        m.exit_code = exit_code;
        m
    }
}

/// Whose turn a message is to a model. A system message is none: the system prompt is
/// given apart. Tool output becomes a user turn so any base model template accepts it.
pub open spec fn speaker(role: Role) -> Option<Seq<char>> {
    match role {
        Role::System => None,
        Role::User => Some("user"@),
        Role::Assistant => Some("assistant"@),
        Role::Tool => Some("user"@),
    }
}

/// What a message says to a model: its content, and for tool output the command too.
pub open spec fn spoken(m: MessageView) -> Seq<char> {
    if m.role == Role::Tool {
        let command = match m.command {
            Some(c) => c,
            None => seq![],
        };
        "[output of `"@ + command + "`]\n"@ + m.content
    } else {
        m.content
    }
}

/// The turn that a message is to a model.
pub open spec fn spoken_turn(m: MessageView) -> Turn {
    Turn {
        role: match speaker(m.role) {
            Some(r) => r,
            None => seq![],
        },
        content: spoken(m),
    }
}

impl Message {
    /// Whose turn this is to a model.
    pub fn speaker_text(&self) -> (r: Option<&'static str>)
        ensures
            match r {
                Some(s) => speaker(self.role) == Some(s@),
                None => speaker(self.role) is None,
            },
    {
        match self.role {
            Role::System => None,
            Role::User => Some("user"),
            Role::Assistant => Some("assistant"),
            Role::Tool => Some("user"),
        }
    }

    /// What this says to a model.
    pub fn spoken_text(&self) -> (r: String)
        ensures
            r@ == spoken(self@),
    {
        if self.role == Role::Tool {
            let mut out = String::new();
            out.append("[output of `");
            if let Some(command) = &self.command {
                out.append(command.as_str());
            }
            out.append("`]\n");
            out.append(self.content.as_str());
            assert(out@ =~= spoken(self@));
            out
        } else {
            self.content.clone()
        }
    }
}

#[derive(Debug)]
pub struct Conversation {
    pub id: Uuid,
    pub title: String,
    pub model: String,
    pub system_prompt: String,
    pub messages: Vec<Message>,
    pub created_at: Timestamp,
    pub updated_at: Timestamp,
}

/// What a conversation holds.
pub struct ConversationView {
    pub id: Uuid,
    pub title: Seq<char>,
    pub model: Seq<char>,
    pub system_prompt: Seq<char>,
    pub messages: Seq<MessageView>,
    pub created_at: (int, int),
    pub updated_at: (int, int),
}

impl View for Conversation {
    type V = ConversationView;

    open spec fn view(&self) -> ConversationView {
        ConversationView {
            id: self.id,
            title: self.title@,
            model: self.model@,
            system_prompt: self.system_prompt@,
            messages: message_views(self.messages@),
            created_at: self.created_at@,
            updated_at: self.updated_at@,
        }
    }
}

/// The title of a conversation before its first user message.
pub open spec fn untitled() -> Seq<char> {
    "new conversation"@
}

/// How many characters of its first line a message lends to a title.
pub const TITLE_CHARS: usize = 60;

/// A conversation in which nothing has been said.
pub open spec fn empty_conversation(
    id: Uuid,
    at: (int, int),
    model: Seq<char>,
    system_prompt: Seq<char>,
) -> ConversationView {
    ConversationView {
        id,
        title: untitled(),
        model,
        system_prompt,
        messages: seq![],
        created_at: at,
        updated_at: at,
    }
}

/// The title that `content` gives: its first line, cut to `TITLE_CHARS`.
pub open spec fn title_of(content: Seq<char>) -> Seq<char> {
    let lines = text::lines(content);
    if lines.len() == 0 {
        seq![]
    } else if lines[0].len() <= TITLE_CHARS {
        lines[0]
    } else {
        lines[0].take(TITLE_CHARS as int)
    }
}

/// The conversation `c` with `msg` said at `at`. The first thing the user says gives
/// the title.
pub open spec fn pushed(c: ConversationView, msg: MessageView, at: (int, int)) -> ConversationView {
    ConversationView {
        title: if msg.role == Role::User && c.title == untitled() {
            title_of(msg.content)
        } else {
            c.title
        },
        messages: c.messages.push(msg),
        updated_at: at,
        ..c
    }
}

fn title_text(content: &str) -> (r: String)
    ensures
        r@ == title_of(content@),
{
    let lines = text::lines_text(content);
    if lines.len() == 0 {
        assert(text::views(lines@).len() == 0);
        return String::new();
    }
    assert(text::views(lines@)[0] == lines@[0]@);
    let first = text::chars_of(lines[0].as_str());
    let n = if first.len() <= TITLE_CHARS {
        first.len()
    } else {
        TITLE_CHARS
    };
    assert(first@.subrange(0, n as int) =~= first@.take(n as int));
    assert(first@.len() <= TITLE_CHARS ==> first@.take(n as int) =~= first@);
    text::slice_text(&first, 0, n)
}

impl Conversation {
    /// The empty conversation `id`, opened at `at`.
    pub fn at(id: Uuid, at: Timestamp, model: String, system_prompt: String) -> (r: Conversation)
        ensures
            r@ == empty_conversation(id, at@, model@, system_prompt@),
    {
        let r = Conversation {
            id,
            title: "new conversation".to_owned(),
            model,
            system_prompt,
            messages: Vec::new(),
            created_at: at,
            updated_at: at,
        };
        assert(r@.messages =~= seq![]);
        r
    }

    /// A new conversation, opened now.
    pub fn new(model: String, system_prompt: String) -> (r: Conversation)
        ensures
            r@ == empty_conversation(r.id, r.created_at@, model@, system_prompt@),
            ids::is_random(r.id.bits as int),
    {
        let now = Timestamp::now();
        Conversation::at(Uuid::new_v4(), now, model, system_prompt)
    }

    /// Add `msg`, said at `at`; returns its index.
    pub fn push_at(&mut self, msg: Message, at: Timestamp) -> (r: usize)
        ensures
            final(self)@ == pushed(old(self)@, msg@, at@),
            r == old(self).messages@.len(),
            final(self).messages@ == old(self).messages@.push(msg),
    {
        if msg.role == Role::User && text::same_text(self.title.as_str(), "new conversation") {
            self.title = title_text(msg.content.as_str());
        }
        self.messages.push(msg);
        self.updated_at = at;
        assert(message_views(self.messages@) =~= message_views(old(self).messages@).push(msg@));
        self.messages.len() - 1
    }

    /// Add `msg`, said now; returns its index.
    pub fn push(&mut self, msg: Message) -> (r: usize)
        ensures
            final(self)@ == pushed(old(self)@, msg@, final(self).updated_at@),
            r == old(self).messages@.len(),
            final(self).messages@ == old(self).messages@.push(msg),
    {
        self.push_at(msg, Timestamp::now())
    }
}

impl Conversation {
    /// Whether nobody has said anything yet.
    pub fn is_silent(&self) -> (r: bool)
        ensures
            r == (forall|i: int|
                0 <= i < self.messages@.len() ==> (#[trigger] self.messages@[i]).role
                    == Role::System),
    {
        let mut i: usize = 0;
        while i < self.messages.len()
            invariant
                i <= self.messages@.len(),
                forall|k: int|
                    0 <= k < i ==> (#[trigger] self.messages@[k]).role == Role::System,
            decreases self.messages@.len() - i,
        {
            if self.messages[i].role != Role::System {
                return false;
            }
            i += 1;
        }
        true
    }
}

/// A conversation is titled by the first thing its user says, and what is said later
/// leaves the title alone. Only a first line that reads like the placeholder itself
/// counts as no title.
pub proof fn law_title_is_kept(
    c: ConversationView,
    first: MessageView,
    later: MessageView,
    t0: (int, int),
    t1: (int, int),
)
    requires
        c.title == untitled(),
        first.role == Role::User,
        title_of(first.content) != untitled(),
    ensures
        pushed(c, first, t0).title == title_of(first.content),
        pushed(pushed(c, first, t0), later, t1).title == title_of(first.content),
{
}

/// `t` tells a model what `m` says: a user's and an assistant's words as they are, and the
/// output of a command as words of the user, under the command.
pub open spec fn tells(t: Turn, m: MessageView) -> bool {
    match m.role {
        Role::System => false,
        Role::User => t.role == "user"@ && t.content == m.content,
        Role::Assistant => t.role == "assistant"@ && t.content == m.content,
        Role::Tool => t.role == "user"@ && t.content == match m.command {
            Some(c) => "[output of `"@ + c + "`]\n"@ + m.content,
            None => "[output of `"@ + "`]\n"@ + m.content,
        },
    }
}

/// The turn of a message tells what it says.
pub proof fn lemma_turn_tells(m: MessageView)
    requires
        m.role != Role::System,
    ensures
        tells(spoken_turn(m), m),
        speaker(m.role) is Some,
{
    if m.role == Role::Tool && m.command is None {
        assert("[output of `"@ + Seq::<char>::empty() =~= "[output of `"@);
    }
}

/// `at` are the positions, in order, of the messages that `keep` keeps.
pub open spec fn are_places(
    ms: Seq<MessageView>,
    keep: spec_fn(MessageView) -> bool,
    at: Seq<int>,
) -> bool {
    &&& forall|i: int| #[trigger] at.contains(i) <==> 0 <= i < ms.len() && keep(ms[i])
    &&& forall|p: int, q: int| 0 <= p < q < at.len() ==> #[trigger] at[p] < #[trigger] at[q]
    &&& forall|p: int| 0 <= p < at.len() ==> 0 <= #[trigger] at[p] < ms.len()
}

/// What a filter keeps stands at the positions that it keeps.
pub proof fn lemma_places(ms: Seq<MessageView>, keep: spec_fn(MessageView) -> bool) -> (at: Seq<
    int,
>)
    ensures
        are_places(ms, keep, at),
        ms.filter(keep).len() == at.len(),
        forall|k: int| 0 <= k < at.len() ==> #[trigger] ms.filter(keep)[k] == ms[at[k]],
    decreases ms.len(),
{
    reveal(Seq::filter);
    if ms.len() == 0 {
        let at: Seq<int> = seq![];
        at
    } else {
        let rest = ms.drop_last();
        let before = lemma_places(rest, keep);
        let last = ms.len() - 1;
        let at = if keep(ms[last]) {
            before.push(last)
        } else {
            before
        };
        assert forall|i: int| #[trigger] at.contains(i) <==> 0 <= i < ms.len() && keep(ms[i]) by {
            if at.contains(i) {
                let p = at.index_of(i);
                if p < before.len() {
                    assert(before[p] == i);
                    assert(before.contains(i));
                    assert(rest[i] == ms[i]);
                }
            }
            if 0 <= i < ms.len() && keep(ms[i]) {
                if i < last {
                    assert(rest[i] == ms[i]);
                    assert(before.contains(i));
                    let p = before.index_of(i);
                    assert(at[p] == i);
                } else {
                    assert(at[before.len() as int] == i);
                }
            }
        }
        assert forall|k: int| 0 <= k < at.len() implies #[trigger] ms.filter(keep)[k]
            == ms[at[k]] by {
            if k < before.len() {
                assert(rest.filter(keep)[k] == rest[before[k]]);
            }
        }
        at
    }
}

/// A conversation takes in what is said: the message stands at the end, all before it is as
/// it was, and nothing but the title and the time of the last word changes.
pub proof fn law_nothing_is_unsaid(c: ConversationView, msg: MessageView, at: (int, int))
    ensures
        pushed(c, msg, at).messages.len() == c.messages.len() + 1,
        pushed(c, msg, at).messages.last() == msg,
        forall|i: int|
            0 <= i < c.messages.len() ==> #[trigger] pushed(c, msg, at).messages[i]
                == c.messages[i],
        pushed(c, msg, at).id == c.id,
        pushed(c, msg, at).model == c.model,
        pushed(c, msg, at).system_prompt == c.system_prompt,
        pushed(c, msg, at).created_at == c.created_at,
        pushed(c, msg, at).updated_at == at,
        msg.role != Role::User ==> pushed(c, msg, at).title == c.title,
{
}

/// A title is the start of the first line of what the user says, the whole line where it
/// is short enough, and never more than a line.
pub proof fn law_title_is_first_line(line: Seq<char>, rest: Seq<char>)
    requires
        forall|i: int| 0 <= i < line.len() ==> #[trigger] line[i] != '\n',
        !text::ends_with_char(line, '\r'),
    ensures
        line.len() <= 60 ==> title_of(line + seq!['\n'] + rest) == line,
        line.len() > 60 ==> title_of(line + seq!['\n'] + rest) == line.take(60),
        0 < line.len() <= 60 ==> title_of(line) == line,
        line.len() > 60 ==> title_of(line) == line.take(60),
{
    text::lemma_lines_one(line);
    text::lemma_lines_append(line + seq!['\n'], rest);
    text::lemma_line_feed(line);
    assert(text::lines(line + seq!['\n'] + rest)[0] == line);
}

} // verus!
