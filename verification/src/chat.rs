//! Shared chat plumbing used by every frontend: the conversation persona
//! ([`Mode`]) and the conversation → OpenAI wire-message conversion. Keeping
//! this in the core means the CLI and GUI build identical requests.

use crate::config::Config;
use crate::llm::types;
use crate::llm::types::Turn;
use crate::llm::WireMessage;
use crate::model::conversation;
use crate::model::conversation::MessageView;
use crate::model::Message;
use crate::text;
use vstd::prelude::*;

verus! {

/// Conversation persona: selects the system prompt and whether ```run blocks
/// are parsed as executable commands.
#[derive(Debug, Clone, Copy, PartialEq, Eq, Structural)]
pub enum Mode {
    /// Can run shell commands (parses ```run blocks).
    Assistant,
    /// Advises but never executes.
    Tech,
    /// Casual conversation.
    Convo,
}

/// What a persona is called.
pub open spec fn label_of(mode: Mode) -> Seq<char> {
    match mode {
        Mode::Assistant => "assistant (runs commands)"@,
        Mode::Tech => "tech-guy (talks, no commands)"@,
        Mode::Convo => "convo (casual chat)"@,
    }
}

/// The system prompt of a persona.
pub open spec fn prompt_of(
    mode: Mode,
    config: Config,
    conv_system_prompt: Seq<char>,
) -> Seq<char> {
    match mode {
        Mode::Assistant => conv_system_prompt,
        Mode::Tech => config.tech_system_prompt@,
        Mode::Convo => config.convo_system_prompt@,
    }
}

/// A name that no persona has.
#[derive(Debug)]
pub struct UnknownMode {
    pub name: String,
}

impl UnknownMode {
    pub fn message(&self) -> (r: String)
        ensures
            r@ == "unknown mode '"@ + self.name@ + "' (expected assistant | tech | convo)"@,
    {
        let mut out = String::new();
        out.append("unknown mode '");
        out.append(self.name.as_str());
        out.append("' (expected assistant | tech | convo)");
        out
    }
}

/// The persona that `name` names.
pub open spec fn mode_named(name: Seq<char>) -> Option<Mode> {
    if name == "assistant"@ {
        Some(Mode::Assistant)
    } else if name == "tech"@ {
        Some(Mode::Tech)
    } else if name == "convo"@ {
        Some(Mode::Convo)
    } else {
        None
    }
}

/// The persona that `s` names.
pub fn parse_mode(s: &str) -> (r: Result<Mode, UnknownMode>)
    ensures
        match r {
            Ok(m) => mode_named(s@) == Some(m),
            Err(e) => mode_named(s@) is None && e.name@ == s@,
        },
{
    if text::same_text(s, "assistant") {
        Ok(Mode::Assistant)
    } else if text::same_text(s, "tech") {
        Ok(Mode::Tech)
    } else if text::same_text(s, "convo") {
        Ok(Mode::Convo)
    } else {
        Err(UnknownMode { name: s.to_owned() })
    }
}

impl Mode {
    pub fn label(self) -> (r: &'static str)
        ensures
            r@ == label_of(self),
    {
        match self {
            Mode::Assistant => "assistant (runs commands)",
            Mode::Tech => "tech-guy (talks, no commands)",
            Mode::Convo => "convo (casual chat)",
        }
    }

    /// Whether this mode parses ```run command blocks out of the stream.
    pub fn detect_commands(self) -> (r: bool)
        ensures
            r == (self == Mode::Assistant),
    {
        match self {
            Mode::Assistant => true,
            Mode::Tech => false,
            Mode::Convo => false,
        }
    }

    /// The system prompt for this mode. `conv_system_prompt` is the
    /// conversation's own (assistant) prompt; Tech/Convo use the config's.
    pub fn system_prompt(self, config: &Config, conv_system_prompt: &str) -> (r: String)
        ensures
            r@ == prompt_of(self, *config, conv_system_prompt@),
    {
        match self {
            Mode::Assistant => conv_system_prompt.to_owned(),
            Mode::Tech => config.tech_system_prompt.clone(),
            Mode::Convo => config.convo_system_prompt.clone(),
        }
    }
}

/// A message that is sent upstream: one with content that is somebody's turn.
pub open spec fn is_sent(m: MessageView) -> bool {
    conversation::speaker(m.role) is Some && !text::blank(m.content)
}

/// The turns of the messages that are sent upstream.
pub open spec fn sent(ms: Seq<MessageView>) -> Seq<Turn> {
    ms.filter(|m: MessageView| is_sent(m)).map_values(
        |m: MessageView| conversation::spoken_turn(m),
    )
}

/// The system prompt, and then what has been said.
pub open spec fn wire(system_prompt: Seq<char>, ms: Seq<MessageView>) -> Seq<Turn> {
    seq![Turn { role: "system"@, content: system_prompt }] + sent(ms)
}

/// How the turns grow by a message.
proof fn lemma_sent_step(ms: Seq<MessageView>, i: int)
    requires
        0 <= i < ms.len(),
    ensures
        sent(ms.take(i + 1)) == if is_sent(ms[i]) {
            sent(ms.take(i)).push(conversation::spoken_turn(ms[i]))
        } else {
            sent(ms.take(i))
        },
{
    reveal(Seq::filter);
    let upto = ms.take(i + 1);
    assert(upto.drop_last() =~= ms.take(i));
    assert(upto.last() == ms[i]);
    if is_sent(ms[i]) {
        assert(sent(upto) =~= sent(ms.take(i)).push(conversation::spoken_turn(ms[i])));
    }
}

/// Build the OpenAI wire messages: the system prompt first, then the
/// conversation. Empty messages are skipped, tool outputs folded into user turns.
pub fn build_wire(system_prompt: &str, messages: &[Message]) -> (r: Vec<WireMessage>)
    ensures
        types::turns(r@) == wire(system_prompt@, conversation::message_views(messages@)),
{
    let ghost ms = conversation::message_views(messages@);
    let ghost head = seq![Turn { role: "system"@, content: system_prompt@ }];
    let mut out: Vec<WireMessage> = Vec::new();
    out.push(WireMessage::new("system", system_prompt));
    let mut i: usize = 0;
    proof {
        reveal(Seq::filter);
        assert(ms.take(0) =~= seq![]);
        assert(types::turns(out@) =~= head + sent(ms.take(0)));
    }
    while i < messages.len()
        invariant
            i <= messages@.len(),
            ms == conversation::message_views(messages@),
            types::turns(out@) == head + sent(ms.take(i as int)),
        decreases messages@.len() - i,
    {
        let m = &messages[i];
        let ghost before = out@;
        proof {
            lemma_sent_step(ms, i as int);
            assert(ms[i as int] == m@);
        }
        if !text::is_blank(m.content.as_str()) {
            if let Some(role) = m.speaker_text() {
                let content = m.spoken_text();
                out.push(WireMessage::new(role, content.as_str()));
                assert(types::turns(out@) =~= types::turns(before).push(
                    conversation::spoken_turn(ms[i as int]),
                ));
                assert(types::turns(out@) =~= head + sent(ms.take(i + 1)));
            }
        }
        i += 1;
    }
    assert(ms.take(i as int) =~= ms);
    out
}

/// What a model sees starts with the system prompt, holds no blank turn behind it, and
/// names no role but the three that every template knows.
pub proof fn law_wire_is_plain(system_prompt: Seq<char>, ms: Seq<MessageView>, k: int)
    requires
        0 < k < wire(system_prompt, ms).len(),
    ensures
        wire(system_prompt, ms)[0] == (Turn { role: "system"@, content: system_prompt }),
        !text::blank(wire(system_prompt, ms)[k].content),
        wire(system_prompt, ms)[k].role == "user"@ || wire(system_prompt, ms)[k].role
            == "assistant"@,
{
    let kept = ms.filter(|m: MessageView| is_sent(m));
    let m = kept[k - 1];
    assert(wire(system_prompt, ms)[k] == conversation::spoken_turn(m));
    ms.lemma_filter_pred(|m: MessageView| is_sent(m), k - 1);
    assert(is_sent(m));
    if m.role == crate::model::Role::Tool {
        reveal_strlit("[output of `");
        assert(conversation::spoken(m)[0] == '[');
    }
}

/// A message that somebody said: of a user, an assistant or a tool, and not blank.
pub open spec fn is_said(m: MessageView) -> bool {
    m.role != crate::model::Role::System && !text::blank(m.content)
}

/// `at` are the positions, in order, of the messages that somebody said.
pub open spec fn are_said(ms: Seq<MessageView>, at: Seq<int>) -> bool {
    conversation::are_places(ms, |m: MessageView| is_said(m), at)
}

/// Nothing that was said is left out of what a model is sent, whatever else is known of
/// it, and nothing else is sent: behind the system prompt stands, for every message of a
/// user, an assistant or a tool that is not blank, and in their order, the turn that tells
/// what it says.
pub proof fn law_all_that_was_said_is_sent(system_prompt: Seq<char>, ms: Seq<MessageView>)
    ensures
        wire(system_prompt, ms).len() == 1 + ms.filter(|m: MessageView| is_said(m)).len(),
        wire(system_prompt, ms)[0] == (Turn { role: "system"@, content: system_prompt }),
        exists|at: Seq<int>|
            {
                &&& #[trigger] are_said(ms, at)
                &&& wire(system_prompt, ms).len() == 1 + at.len()
                &&& forall|k: int|
                    0 <= k < at.len() ==> conversation::tells(
                        #[trigger] wire(system_prompt, ms)[1 + k],
                        ms[at[k]],
                    )
            },
{
    let said = |m: MessageView| is_said(m);
    let own = |m: MessageView| is_sent(m);
    assert forall|m: MessageView| #[trigger] said(m) == own(m) by {}
    assert(said =~= own);
    let at = conversation::lemma_places(ms, said);
    let w = wire(system_prompt, ms);
    assert(ms.filter(said) == ms.filter(|m: MessageView| is_sent(m)));
    assert(sent(ms).len() == at.len());
    assert forall|k: int| 0 <= k < at.len() implies conversation::tells(
        #[trigger] w[1 + k],
        ms[at[k]],
    ) by {
        assert(w[1 + k] == sent(ms)[k]);
        assert(ms.filter(said)[k] == ms[at[k]]);
        assert(at.contains(at[k]));
        conversation::lemma_turn_tells(ms[at[k]]);
    }
    assert(are_said(ms, at));
}

/// A persona is told by its name, and a name that none has names none.
pub proof fn law_personas_are_named(name: Seq<char>)
    ensures
        mode_named("assistant"@) == Some(Mode::Assistant),
        mode_named("tech"@) == Some(Mode::Tech),
        mode_named("convo"@) == Some(Mode::Convo),
        name != "assistant"@ && name != "tech"@ && name != "convo"@ ==> mode_named(name) is None,
{
    reveal_strlit("assistant");
    reveal_strlit("tech");
    reveal_strlit("convo");
    assert("assistant"@.len() == 9 && "tech"@.len() == 4 && "convo"@.len() == 5);
}

} // verus!
