//! The training-dataset record. The last entry in `messages` is the *ideal* assistant
//! reply (the kept or edited text).

use super::conversation;
use super::conversation::{Conversation, ConversationView, Message, MessageView, Role};
use crate::clock::Timestamp;
use crate::ids;
use crate::llm::types::Turn;
use crate::text;
use vstd::prelude::*;

verus! {

#[derive(Debug)]
pub struct ChatMsg {
    pub role: String,
    pub content: String,
}

impl View for ChatMsg {
    type V = Turn;

    open spec fn view(&self) -> Turn {
        Turn { role: self.role@, content: self.content@ }
    }
}

/// What a list of chat messages says.
pub open spec fn chat_turns(v: Seq<ChatMsg>) -> Seq<Turn> {
    v.map_values(|m: ChatMsg| m@)
}

#[derive(Debug)]
pub struct Meta {
    pub conversation_id: String,
    pub model: String,
    pub created_at: Timestamp,
    pub edited: bool,
    /// "edit", "accept" or "import"
    pub source: String,
    pub original_assistant: Option<String>,
}

/// What is known of where an example comes from.
pub struct MetaView {
    pub conversation_id: Seq<char>,
    pub model: Seq<char>,
    pub created_at: (int, int),
    pub edited: bool,
    pub source: Seq<char>,
    pub original_assistant: Option<Seq<char>>,
}

impl View for Meta {
    type V = MetaView;

    open spec fn view(&self) -> MetaView {
        MetaView {
            conversation_id: self.conversation_id@,
            model: self.model@,
            created_at: self.created_at@,
            edited: self.edited,
            source: self.source@,
            original_assistant: text::opt_view(self.original_assistant),
        }
    }
}

#[derive(Debug)]
pub struct TrainingExample {
    pub messages: Vec<ChatMsg>,
    pub meta: Meta,
}

/// What a training example holds.
pub struct ExampleView {
    pub messages: Seq<Turn>,
    pub meta: MetaView,
}

impl View for TrainingExample {
    type V = ExampleView;

    open spec fn view(&self) -> ExampleView {
        ExampleView { messages: chat_turns(self.messages@), meta: self.meta@ }
    }
}

/// A message that an example takes in: a turn that says something.
pub open spec fn is_lesson(m: MessageView) -> bool {
    conversation::speaker(m.role) is Some && !text::blank(conversation::spoken(m))
}

/// The turns of the messages `ms` that an example takes in.
pub open spec fn lessons(ms: Seq<MessageView>) -> Seq<Turn> {
    ms.filter(|m: MessageView| is_lesson(m)).map_values(
        |m: MessageView| conversation::spoken_turn(m),
    )
}

/// The message at `idx` can be learned from: it is a reply that says something.
pub open spec fn is_target(c: ConversationView, idx: int) -> bool {
    &&& 0 <= idx < c.messages.len()
    &&& c.messages[idx].role == Role::Assistant
    &&& !text::blank(c.messages[idx].content)
}

/// The example that ends with the reply at `idx`.
pub open spec fn example_of(c: ConversationView, idx: int, at: (int, int)) -> ExampleView {
    let target = c.messages[idx];
    ExampleView {
        messages: seq![Turn { role: "system"@, content: c.system_prompt }] + lessons(
            c.messages.take(idx + 1),
        ),
        meta: MetaView {
            conversation_id: ids::hyphenated(c.id.bits as nat),
            model: c.model,
            created_at: at,
            edited: target.edited,
            source: if target.edited {
                "edit"@
            } else {
                "accept"@
            },
            original_assistant: target.original_content,
        },
    }
}

fn clone_opt(s: &Option<String>) -> (r: Option<String>)
    ensures
        text::opt_view(r) == text::opt_view(*s),
{
    match s {
        Some(s) => Some(s.clone()),
        None => None,
    }
}

/// The lessons of one more message.
proof fn lemma_lessons_step(ms: Seq<MessageView>, i: int)
    requires
        0 <= i < ms.len(),
    ensures
        lessons(ms.take(i + 1)) == if is_lesson(ms[i]) {
            lessons(ms.take(i)).push(conversation::spoken_turn(ms[i]))
        } else {
            lessons(ms.take(i))
        },
{
    reveal(Seq::filter);
    let upto = ms.take(i + 1);
    assert(upto.drop_last() =~= ms.take(i));
    assert(upto.last() == ms[i]);
    if is_lesson(ms[i]) {
        assert(lessons(upto) =~= lessons(ms.take(i)).push(conversation::spoken_turn(ms[i])));
    }
}

fn lesson_messages(system_prompt: &str, messages: &Vec<Message>, n: usize) -> (r: Vec<ChatMsg>)
    requires
        n <= messages@.len(),
    ensures
        chat_turns(r@) == seq![Turn { role: "system"@, content: system_prompt@ }] + lessons(
            conversation::message_views(messages@).take(n as int),
        ),
{
    let ghost ms = conversation::message_views(messages@);
    let ghost head = seq![Turn { role: "system"@, content: system_prompt@ }];
    let first = ChatMsg { role: "system".to_owned(), content: system_prompt.to_owned() };
    let mut out: Vec<ChatMsg> = Vec::new();
    out.push(first);
    let mut i: usize = 0;
    proof {
        reveal(Seq::filter);
        assert(ms.take(0) =~= seq![]);
        assert(chat_turns(out@) =~= head + lessons(ms.take(0)));
    }
    while i < n
        invariant
            i <= n <= messages@.len(),
            ms == conversation::message_views(messages@),
            chat_turns(out@) == head + lessons(ms.take(i as int)),
        decreases n - i,
    {
        let m = &messages[i];
        let ghost before = out@;
        proof {
            lemma_lessons_step(ms, i as int);
            assert(ms[i as int] == m@);
        }
        if let Some(role) = m.speaker_text() {
            let content = m.spoken_text();
            if !text::is_blank(content.as_str()) {
                out.push(ChatMsg { role: role.to_owned(), content });
                assert(chat_turns(out@) =~= chat_turns(before).push(
                    conversation::spoken_turn(ms[i as int]),
                ));
                assert(chat_turns(out@) =~= head + lessons(ms.take(i + 1)));
            }
        }
        i += 1;
    }
    out
}

impl TrainingExample {
    /// The example that ends with the reply at `assistant_idx`, made at `at`.
    pub fn at(conv: &Conversation, assistant_idx: usize, at: Timestamp) -> (r: Option<
        TrainingExample,
    >)
        ensures
            match r {
                Some(e) => is_target(conv@, assistant_idx as int) && e@ == example_of(
                    conv@,
                    assistant_idx as int,
                    at@,
                ),
                None => !is_target(conv@, assistant_idx as int),
            },
    {
        if assistant_idx >= conv.messages.len() {
            return None;
        }
        let target = &conv.messages[assistant_idx];
        assert(conv@.messages[assistant_idx as int] == target@);
        if target.role != Role::Assistant || text::is_blank(target.content.as_str()) {
            return None;
        }
        let messages = lesson_messages(
            conv.system_prompt.as_str(),
            &conv.messages,
            assistant_idx + 1,
        );
        Some(
            TrainingExample {
                messages,
                meta: Meta {
                    conversation_id: conv.id.hyphenated_text(),
                    model: conv.model.clone(),
                    created_at: at,
                    edited: target.edited,
                    source: if target.edited {
                        "edit".to_owned()
                    } else {
                        "accept".to_owned()
                    },
                    original_assistant: clone_opt(&target.original_content),
                },
            },
        )
    }

    /// Build an example from the conversation up to and including the assistant
    /// message at `assistant_idx`. Tool outputs are folded in as user turns so
    /// each example is self-contained.
    pub fn from_conversation(conv: &Conversation, assistant_idx: usize) -> (r: Option<
        TrainingExample,
    >)
        ensures
            match r {
                Some(e) => is_target(conv@, assistant_idx as int) && e@ == example_of(
                    conv@,
                    assistant_idx as int,
                    e.meta.created_at@,
                ),
                None => !is_target(conv@, assistant_idx as int),
            },
    {
        TrainingExample::at(conv, assistant_idx, Timestamp::now())
    }
}

/// The last message of an example is the reply that it was made from, word for word,
/// and the first is the system prompt.
pub proof fn law_example_ends_with_reply(c: ConversationView, idx: int, at: (int, int))
    requires
        is_target(c, idx),
    ensures
        example_of(c, idx, at).messages.last() == (Turn {
            role: "assistant"@,
            content: c.messages[idx].content,
        }),
        example_of(c, idx, at).messages[0] == (Turn { role: "system"@, content: c.system_prompt }),
{
    lemma_lessons_step(c.messages, idx);
}

/// A message that an example has something to learn from: what a user or an assistant said,
/// unless it is blank, and what a command gave.
pub open spec fn is_shown(m: MessageView) -> bool {
    match m.role {
        Role::System => false,
        Role::User => !text::blank(m.content),
        Role::Assistant => !text::blank(m.content),
        Role::Tool => true,
    }
}

/// `at` are the positions, in order, of the messages that are shown.
pub open spec fn are_shown(ms: Seq<MessageView>, at: Seq<int>) -> bool {
    conversation::are_places(ms, |m: MessageView| is_shown(m), at)
}

/// An example leaves out nothing that was said up to the reply, and holds nothing else:
/// behind the system prompt stands, for every message that is shown and in their order,
/// the turn that tells what it says. What is said after the reply is not in it.
pub proof fn law_example_is_complete(c: ConversationView, idx: int, at: (int, int))
    requires
        is_target(c, idx),
    ensures
        ({
            let turns = example_of(c, idx, at).messages;
            let upto = c.messages.take(idx + 1);
            &&& turns[0] == (Turn { role: "system"@, content: c.system_prompt })
            &&& exists|places: Seq<int>|
                {
                    &&& #[trigger] are_shown(upto, places)
                    &&& turns.len() == 1 + places.len()
                    &&& forall|k: int|
                        0 <= k < places.len() ==> conversation::tells(
                            #[trigger] turns[1 + k],
                            c.messages[places[k]],
                        )
                }
        }),
{
    let shown = |m: MessageView| is_shown(m);
    let own = |m: MessageView| is_lesson(m);
    assert forall|m: MessageView| #[trigger] shown(m) == own(m) by {
        if m.role == Role::Tool {
            reveal_strlit("[output of `");
            assert(conversation::spoken(m)[0] == '[');
            assert(!text::is_white(conversation::spoken(m)[0]));
        }
    }
    assert(shown =~= own);
    let upto = c.messages.take(idx + 1);
    let places = conversation::lemma_places(upto, shown);
    let turns = example_of(c, idx, at).messages;
    assert(upto.filter(shown) == upto.filter(|m: MessageView| is_lesson(m)));
    assert forall|k: int| 0 <= k < places.len() implies conversation::tells(
        #[trigger] turns[1 + k],
        c.messages[places[k]],
    ) by {
        assert(turns[1 + k] == lessons(upto)[k]);
        assert(upto.filter(shown)[k] == upto[places[k]]);
        assert(places.contains(places[k]));
        conversation::lemma_turn_tells(upto[places[k]]);
    }
    assert(are_shown(upto, places));
}

/// An example tells where it comes from: its conversation and model, whether the reply was
/// edited, and what the model had said.
pub proof fn law_example_tells_its_source(c: ConversationView, idx: int, at: (int, int))
    requires
        is_target(c, idx),
    ensures
        ({
            let meta = example_of(c, idx, at).meta;
            let reply = c.messages[idx];
            &&& meta.conversation_id == ids::hyphenated(c.id.bits as nat)
            &&& meta.model == c.model
            &&& meta.created_at == at
            &&& meta.edited == reply.edited
            &&& reply.edited ==> meta.source == "edit"@
            &&& !reply.edited ==> meta.source == "accept"@
            &&& meta.original_assistant == reply.original_content
        }),
{
}

} // verus!
