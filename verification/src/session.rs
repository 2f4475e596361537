//! The desktop session: what the user and the background tasks do to it, and what it
//! asks to be done. It knows nothing of windows and widgets.

use crate::chat;
use crate::chat::Mode;
use crate::clock::Timestamp;
use crate::config;
use crate::config::Config;
use crate::ids;
use crate::ids::Uuid;
use crate::llm::stream::{EventView, StreamEvent};
use crate::llm::types::{ChatRequest, RequestView};
use crate::model::conversation;
use crate::model::conversation::{Conversation, ConversationView, Message, MessageView, Role};
use crate::model::dataset;
use crate::model::dataset::{ExampleView, TrainingExample};
use crate::runs::Metric;
use crate::text;
use crate::tools;
use crate::tools::exec;
use crate::tools::ExecResult;
use crate::train::TrainMsg;
use vstd::prelude::*;

verus! {

/// What is going on in the background.
#[derive(Debug, Clone, Copy, PartialEq, Eq, Structural)]
pub enum Busy {
    Idle,
    Streaming,
    Executing,
    Training,
}

/// Cap on retained fine-tune log lines.
pub const TRAIN_LOG_MAX: usize = 200;

/// The identity and the time of something new.
#[derive(Debug, Clone, Copy)]
pub struct Stamp {
    pub id: Uuid,
    pub at: Timestamp,
}

impl Stamp {
    /// A random id, and now.
    pub fn fresh() -> (r: Stamp)
        ensures
            ids::is_random(r.id.bits as int),
    {
        Stamp { id: Uuid::new_v4(), at: Timestamp::now() }
    }
}

/// What a session asks to be done.
#[derive(Debug)]
pub enum Action {
    /// Send the request, and hand back what streams in. Look out for commands if told to.
    Stream { request: ChatRequest, detect_commands: bool },
    /// Stop the stream.
    AbortStream,
    /// Run the command, for so many seconds at most, and hand back the outcome.
    Run { command: String, timeout_secs: u64 },
    /// Write the conversation to disk.
    SaveConversation,
    /// Append the example to the dataset, and hand back whether that went well.
    AppendExample(TrainingExample),
    /// Start a fine-tune, and hand back what it reports.
    Train,
}

/// What is asked for.
pub enum ActionView {
    Stream(RequestView, bool),
    AbortStream,
    Run(Seq<char>, u64),
    SaveConversation,
    AppendExample(ExampleView),
    Train,
}

impl View for Action {
    type V = ActionView;

    open spec fn view(&self) -> ActionView {
        match *self {
            Action::Stream { request, detect_commands } => ActionView::Stream(
                request@,
                detect_commands,
            ),
            Action::AbortStream => ActionView::AbortStream,
            Action::Run { command, timeout_secs } => ActionView::Run(command@, timeout_secs),
            Action::SaveConversation => ActionView::SaveConversation,
            Action::AppendExample(e) => ActionView::AppendExample(e@),
            Action::Train => ActionView::Train,
        }
    }
}

/// What a list of actions asks for.
pub open spec fn action_views(v: Seq<Action>) -> Seq<ActionView> {
    v.map_values(|a: Action| a@)
}

#[derive(Debug)]
pub struct Session {
    pub config: Config,
    pub conv: Conversation,
    pub mode: Mode,
    pub busy: Busy,
    /// The message that a stream fills.
    pub streaming_index: Option<usize>,
    /// Tool-call rounds since the user last spoke.
    pub tool_rounds: usize,
    pub auto_run: bool,
    pub input: String,
    /// When `Some`, a command is awaiting confirmation; the string is editable.
    pub pending_command: Option<String>,
    /// When `Some(idx)`, editing assistant message `idx`; `edit_buf` is the field.
    pub editing: Option<usize>,
    pub edit_buf: String,
    pub edit_original: String,
    pub models: Option<Vec<String>>,
    pub train_log: Vec<String>,
    pub train_metrics: Vec<Metric>,
    pub status: String,
}

/// What a session holds, its configuration aside.
pub struct SessionView {
    pub conv: ConversationView,
    pub mode: Mode,
    pub busy: Busy,
    pub streaming_index: Option<usize>,
    pub tool_rounds: usize,
    pub auto_run: bool,
    pub input: Seq<char>,
    pub pending_command: Option<Seq<char>>,
    pub editing: Option<usize>,
    pub edit_buf: Seq<char>,
    pub edit_original: Seq<char>,
    pub models: Option<Seq<Seq<char>>>,
    pub train_log: Seq<Seq<char>>,
    pub train_metrics: Seq<Metric>,
    pub status: Seq<char>,
}

impl View for Session {
    type V = SessionView;

    open spec fn view(&self) -> SessionView {
        SessionView {
            conv: self.conv@,
            mode: self.mode,
            busy: self.busy,
            streaming_index: self.streaming_index,
            tool_rounds: self.tool_rounds,
            auto_run: self.auto_run,
            input: self.input@,
            pending_command: text::opt_view(self.pending_command),
            editing: self.editing,
            edit_buf: self.edit_buf@,
            edit_original: self.edit_original@,
            models: match self.models {
                Some(m) => Some(text::views(m@)),
                None => None,
            },
            train_log: text::views(self.train_log@),
            train_metrics: self.train_metrics@,
            status: self.status@,
        }
    }
}

/// A stream fills a message that is there.
pub open spec fn well_formed(s: SessionView) -> bool {
    match s.streaming_index {
        Some(i) => i < s.conv.messages.len(),
        None => true,
    }
}

/// The request of a turn: the system prompt of the persona, and what has been said.
pub open spec fn turn_request(s: SessionView, c: Config) -> RequestView {
    RequestView {
        model: config::chat_profile(c).model,
        messages: chat::wire(
            chat::prompt_of(s.mode, c, s.conv.system_prompt),
            s.conv.messages,
        ),
        stream: true,
        sampling: config::sampling_of(c.generation),
    }
}

/// The session with a turn under way: an empty reply stands at the end, to be filled.
pub open spec fn turn_started(s: SessionView, stamp: Stamp) -> SessionView {
    SessionView {
        conv: conversation::pushed(
            s.conv,
            conversation::plain_message(stamp.id, stamp.at@, Role::Assistant, seq![]),
            stamp.at@,
        ),
        streaming_index: Some(s.conv.messages.len() as usize),
        busy: Busy::Streaming,
        ..s
    }
}

/// What a turn asks for.
pub open spec fn turn_actions(s: SessionView, c: Config) -> Seq<ActionView> {
    seq![ActionView::Stream(turn_request(s, c), s.mode == Mode::Assistant)]
}

/// The session after the user has sent what they typed.
pub open spec fn submitted(s: SessionView, asked: Stamp, answer: Stamp) -> SessionView {
    turn_started(spoken_to(s, asked), answer)
}

/// The session with what the user typed said.
pub open spec fn spoken_to(s: SessionView, asked: Stamp) -> SessionView {
    SessionView {
        input: seq![],
        conv: conversation::pushed(
            s.conv,
            conversation::plain_message(asked.id, asked.at@, Role::User, text::trim(s.input)),
            asked.at@,
        ),
        tool_rounds: 0,
        ..s
    }
}

/// The session with the message that a stream was filling dropped, if it was left empty.
pub open spec fn finalized(s: SessionView) -> SessionView {
    let conv = match s.streaming_index {
        Some(i) => if text::blank(s.conv.messages[i as int].content)
            && s.conv.messages[i as int].thinking is None {
            ConversationView { messages: s.conv.messages.remove(i as int), ..s.conv }
        } else {
            s.conv
        },
        None => s.conv,
    };
    SessionView { conv, streaming_index: None, ..s }
}

/// The session in which a command runs.
pub open spec fn running(s: SessionView, command: Seq<char>) -> SessionView {
    SessionView {
        busy: Busy::Executing,
        pending_command: None,
        status: "running: "@ + command,
        ..s
    }
}

/// `content` with the block that asks for `command` behind it, on a line of its own.
pub open spec fn with_run_block(content: Seq<char>, command: Seq<char>) -> Seq<char> {
    let start = if content.len() > 0 && !text::ends_with_char(content, '\n') {
        content.push('\n')
    } else {
        content
    };
    start + "```run\n"@ + command + "\n```\n"@
}

/// The conversation with the message at `i` replaced.
pub open spec fn with_message(c: ConversationView, i: int, m: MessageView) -> ConversationView {
    ConversationView { messages: c.messages.update(i, m), ..c }
}

/// The session with a proposed command written into the reply that proposes it.
pub open spec fn proposed(s: SessionView, command: Seq<char>) -> SessionView {
    SessionView {
        conv: match s.streaming_index {
            Some(i) => {
                let m = s.conv.messages[i as int];
                with_message(
                    s.conv,
                    i as int,
                    MessageView { content: with_run_block(m.content, command), ..m },
                )
            },
            None => s.conv,
        },
        streaming_index: None,
        ..s
    }
}

/// What becomes of a session whose model proposes a command. It runs at once only if
/// auto-run is on and the denylist does not stop it.
pub open spec fn tool_called(s: SessionView, c: Config, command: Seq<char>) -> (
    SessionView,
    Seq<ActionView>,
) {
    let p = proposed(s, command);
    let denied = tools::denied(command, text::views(c.agent.denylist@));
    if s.auto_run && !denied {
        (
            running(p, command),
            seq![
                ActionView::AbortStream,
                ActionView::Run(command, c.agent.exec_timeout_secs),
            ],
        )
    } else {
        (
            SessionView {
                pending_command: Some(command),
                busy: Busy::Idle,
                status: if denied {
                    "command matches denylist — review carefully"@
                } else {
                    "command proposed — review and run"@
                },
                ..p
            },
            seq![ActionView::AbortStream],
        )
    }
}

/// The session goes on with another turn, unless it has had its rounds.
pub open spec fn continued(s: SessionView, c: Config, stamp: Stamp) -> (
    SessionView,
    Seq<ActionView>,
) {
    if s.tool_rounds <= c.agent.max_tool_rounds {
        (turn_started(s, stamp), turn_actions(s, c))
    } else {
        (
            SessionView { busy: Busy::Idle, status: "reached max tool rounds"@, ..s },
            seq![ActionView::SaveConversation],
        )
    }
}

/// The session with the outcome of a command told to the model.
pub open spec fn told(
    s: SessionView,
    stamp: Stamp,
    command: Seq<char>,
    content: Seq<char>,
    exit_code: Option<i32>,
) -> SessionView {
    SessionView {
        conv: conversation::pushed(
            s.conv,
            conversation::tool_message(stamp.id, stamp.at@, command, content, exit_code),
            stamp.at@,
        ),
        ..s
    }
}

/// One more round of tool calls.
pub open spec fn one_more_round(s: SessionView) -> SessionView {
    SessionView { tool_rounds: (s.tool_rounds + 1) as usize, ..s }
}

/// What becomes of a session whose user denies the command that awaits them.
pub open spec fn denied(s: SessionView, c: Config, note: Stamp, answer: Stamp) -> (
    SessionView,
    Seq<ActionView>,
) {
    let after = match s.pending_command {
        Some(command) => told(
            SessionView { pending_command: None, ..s },
            note,
            command,
            "[command denied by user]"@,
            None,
        ),
        None => s,
    };
    continued(one_more_round(after), c, answer)
}

/// The session with `more` in the message that a stream fills.
pub open spec fn answered(s: SessionView, more: Seq<char>) -> SessionView {
    match s.streaming_index {
        Some(i) => {
            let m = s.conv.messages[i as int];
            SessionView {
                conv: with_message(
                    s.conv,
                    i as int,
                    MessageView { content: m.content + more, ..m },
                ),
                ..s
            }
        },
        None => s,
    }
}

/// The session with `more` in the thinking of the message that a stream fills.
pub open spec fn thought(s: SessionView, more: Seq<char>) -> SessionView {
    match s.streaming_index {
        Some(i) => {
            let m = s.conv.messages[i as int];
            let before = match m.thinking {
                Some(t) => t,
                None => seq![],
            };
            SessionView {
                conv: with_message(
                    s.conv,
                    i as int,
                    MessageView { thinking: Some(before + more), ..m },
                ),
                ..s
            }
        },
        None => s,
    }
}

/// What becomes of a session when an event of the stream arrives.
pub open spec fn streamed(s: SessionView, c: Config, e: EventView) -> (
    SessionView,
    Seq<ActionView>,
) {
    match e {
        EventView::AnswerDelta(more) => (answered(s, more), seq![]),
        EventView::ThinkStart => (thought(s, seq![]), seq![]),
        EventView::ThinkDelta(more) => (thought(s, more), seq![]),
        EventView::ThinkEnd => (s, seq![]),
        EventView::ToolCall(command) => tool_called(s, c, command),
        EventView::Done => {
            let f = finalized(s);
            (
                if s.busy == Busy::Streaming {
                    SessionView { busy: Busy::Idle, status: "ready"@, ..f }
                } else {
                    f
                },
                seq![ActionView::AbortStream, ActionView::SaveConversation],
            )
        },
        EventView::Error(why) => (
            SessionView { busy: Busy::Idle, status: "error: "@ + why, ..finalized(s) },
            seq![ActionView::AbortStream],
        ),
    }
}

/// The last `TRAIN_LOG_MAX` lines, where there is one too many.
pub open spec fn logged(log: Seq<Seq<char>>, line: Seq<char>) -> Seq<Seq<char>> {
    let all = log.push(line);
    if all.len() > TRAIN_LOG_MAX {
        all.skip(1)
    } else {
        all
    }
}

/// `m` with its content corrected. What the model said is kept, once.
pub open spec fn corrected(m: MessageView, content: Seq<char>) -> MessageView {
    MessageView {
        original_content: match m.original_content {
            Some(o) => Some(o),
            None => Some(m.content),
        },
        content,
        edited: true,
        ..m
    }
}

/// What becomes of a session whose user saves an edit.
pub open spec fn edited(s: SessionView, at: (int, int)) -> (SessionView, Seq<ActionView>) {
    match s.editing {
        None => (s, seq![]),
        Some(idx) => {
            let correction = text::trim(s.edit_buf);
            if correction.len() == 0 {
                (SessionView { editing: None, status: "empty — edit discarded"@, ..s }, seq![])
            } else {
                let conv = if idx < s.conv.messages.len() {
                    with_message(
                        s.conv,
                        idx as int,
                        corrected(s.conv.messages[idx as int], correction),
                    )
                } else {
                    s.conv
                };
                let after = SessionView { conv, editing: None, status: "reply edited"@, ..s };
                if dataset::is_target(conv, idx as int) {
                    (
                        after,
                        seq![
                            ActionView::AppendExample(dataset::example_of(conv, idx as int, at)),
                            ActionView::SaveConversation,
                        ],
                    )
                } else {
                    (after, seq![ActionView::SaveConversation])
                }
            }
        },
    }
}

/// A replaced message shows in the list of messages.
proof fn lemma_views_update(ms: Seq<Message>, i: int, m: Message)
    requires
        0 <= i < ms.len(),
    ensures
        conversation::message_views(ms.update(i, m)) == conversation::message_views(ms).update(
            i,
            m@,
        ),
{
    assert(conversation::message_views(ms.update(i, m)) =~= conversation::message_views(ms).update(
        i,
        m@,
    ));
}

fn no_actions() -> (r: Vec<Action>)
    ensures
        action_views(r@) == Seq::<ActionView>::empty(),
{
    let r: Vec<Action> = Vec::new();
    assert(action_views(r@) =~= Seq::<ActionView>::empty());
    r
}

fn one_action(a: Action) -> (r: Vec<Action>)
    ensures
        action_views(r@) == seq![a@],
{
    let mut r: Vec<Action> = Vec::new();
    r.push(a);
    assert(action_views(r@) =~= seq![a@]);
    r
}

fn two_actions(a: Action, b: Action) -> (r: Vec<Action>)
    ensures
        action_views(r@) == seq![a@, b@],
{
    let mut r: Vec<Action> = Vec::new();
    r.push(a);
    r.push(b);
    assert(action_views(r@) =~= seq![a@, b@]);
    r
}

impl Session {
    /// A session at rest, in the assistant's persona, with an empty conversation.
    pub fn new(config: Config, stamp: Stamp) -> (r: Session)
        ensures
            r.config == config,
            well_formed(r@),
            r@ == (SessionView {
                conv: conversation::empty_conversation(
                    stamp.id,
                    stamp.at@,
                    config.model@,
                    config.system_prompt@,
                ),
                mode: Mode::Assistant,
                busy: Busy::Idle,
                streaming_index: None,
                tool_rounds: 0,
                auto_run: config.agent.auto_run,
                input: seq![],
                pending_command: None,
                editing: None,
                edit_buf: seq![],
                edit_original: seq![],
                models: None,
                train_log: seq![],
                train_metrics: seq![],
                status: "ready"@,
            }),
    {
        let conv = Conversation::at(
            stamp.id,
            stamp.at,
            config.model.clone(),
            config.system_prompt.clone(),
        );
        let auto_run = config.agent.auto_run;
        let r = Session {
            config,
            conv,
            mode: Mode::Assistant,
            busy: Busy::Idle,
            streaming_index: None,
            tool_rounds: 0,
            auto_run,
            input: String::new(),
            pending_command: None,
            editing: None,
            edit_buf: String::new(),
            edit_original: String::new(),
            models: None,
            train_log: Vec::new(),
            train_metrics: Vec::new(),
            status: "ready".to_owned(),
        };
        assert(r@.input =~= seq![] && r@.edit_buf =~= seq![] && r@.edit_original =~= seq![]);
        assert(r@.train_log =~= seq![] && r@.train_metrics =~= seq![]);
        r
    }

    /// Start a turn of the model.
    pub fn spawn_turn(&mut self, stamp: Stamp) -> (r: Vec<Action>)
        ensures
            final(self)@ == turn_started(old(self)@, stamp),
            action_views(r@) == turn_actions(old(self)@, old(self).config),
            final(self).config == old(self).config,
            well_formed(final(self)@),
    {
        let system = self.mode.system_prompt(&self.config, self.conv.system_prompt.as_str());
        let wire = chat::build_wire(system.as_str(), self.conv.messages.as_slice());
        let request = self.config.chat_request(wire);
        let detect_commands = self.mode.detect_commands();
        let reply = Message::at(stamp.id, stamp.at, Role::Assistant, String::new());
        assert(reply.content@ =~= seq![]);
        let idx = self.conv.push_at(reply, stamp.at);
        self.streaming_index = Some(idx);
        self.busy = Busy::Streaming;
        one_action(Action::Stream { request, detect_commands })
    }

    /// Drop the line feed that the Enter key left at the end of what the user typed.
    pub fn drop_entered_feed(&mut self)
        ensures
            final(self)@ == (SessionView {
                input: if text::ends_with_char(old(self)@.input, '\n') {
                    old(self)@.input.drop_last()
                } else {
                    old(self)@.input
                },
                ..old(self)@
            }),
            final(self).config == old(self).config,
    {
        let v = text::chars_of(self.input.as_str());
        if v.len() > 0 && v[v.len() - 1] == '\n' {
            self.input = text::slice_text(&v, 0, v.len() - 1);
            assert(v@.subrange(0, v@.len() - 1) =~= v@.drop_last());
        }
    }

    /// Send what the user typed, unless it is blank.
    pub fn submit_input(&mut self, asked: Stamp, answer: Stamp) -> (r: Vec<Action>)
        ensures
            text::blank(old(self)@.input) ==> final(self)@ == old(self)@ && r@.len() == 0,
            !text::blank(old(self)@.input) ==> final(self)@ == submitted(
                old(self)@,
                asked,
                answer,
            ) && action_views(r@) == turn_actions(
                spoken_to(old(self)@, asked),
                old(self).config,
            ),
            final(self).config == old(self).config,
            well_formed(old(self)@) ==> well_formed(final(self)@),
    {
        if text::is_blank(self.input.as_str()) {
            return Vec::new();
        }
        let said = text::trim_text(self.input.as_str());
        self.input = String::new();
        let msg = Message::at(asked.id, asked.at, Role::User, said);
        self.conv.push_at(msg, asked.at);
        self.tool_rounds = 0;
        assert(self@.input =~= seq![]);
        assert(self@ == spoken_to(old(self)@, asked));
        self.spawn_turn(answer)
    }

    /// Forget the stream, and the message that it was filling if that was left empty.
    pub fn finalize_streaming(&mut self)
        requires
            well_formed(old(self)@),
        ensures
            final(self)@ == finalized(old(self)@),
            final(self).config == old(self).config,
            well_formed(final(self)@),
    {
        if let Some(i) = self.streaming_index {
            let empty = {
                let m = &self.conv.messages[i];
                assert(self@.conv.messages[i as int] == m@);
                text::is_blank(m.content.as_str()) && m.thinking.is_none()
            };
            if empty {
                let ghost before = self.conv.messages@;
                self.conv.messages.remove(i);
                assert(conversation::message_views(self.conv.messages@)
                    =~= conversation::message_views(before).remove(i as int));
            }
        }
        self.streaming_index = None;
    }

    /// Stop the stream at the user's wish.
    pub fn stop(&mut self) -> (r: Vec<Action>)
        requires
            well_formed(old(self)@),
        ensures
            final(self)@ == (SessionView {
                busy: Busy::Idle,
                status: "stopped"@,
                ..finalized(old(self)@)
            }),
            action_views(r@) == seq![ActionView::AbortStream],
            final(self).config == old(self).config,
            well_formed(final(self)@),
    {
        self.finalize_streaming();
        self.busy = Busy::Idle;
        self.status = "stopped".to_owned();
        one_action(Action::AbortStream)
    }

    /// Run a command.
    pub fn exec_command(&mut self, command: String) -> (r: Action)
        ensures
            final(self)@ == running(old(self)@, command@),
            r@ == ActionView::Run(command@, old(self).config.agent.exec_timeout_secs),
            final(self).config == old(self).config,
    {
        self.busy = Busy::Executing;
        self.pending_command = None;
        let mut status = String::new();
        status.append("running: ");
        status.append(command.as_str());
        assert(status@ =~= "running: "@ + command@);
        self.status = status;
        Action::Run { command, timeout_secs: self.config.agent.exec_timeout_secs }
    }

    /// Run the command that awaits confirmation.
    pub fn confirm_command(&mut self) -> (r: Vec<Action>)
        ensures
            match old(self)@.pending_command {
                Some(command) => final(self)@ == running(old(self)@, command) && action_views(r@)
                    == seq![ActionView::Run(command, old(self).config.agent.exec_timeout_secs)],
                None => final(self)@ == old(self)@ && r@.len() == 0,
            },
            final(self).config == old(self).config,
    {
        match self.pending_command.take() {
            Some(command) => one_action(self.exec_command(command)),
            None => Vec::new(),
        }
    }

    fn propose(&mut self, command: &str)
        requires
            well_formed(old(self)@),
        ensures
            final(self)@ == proposed(old(self)@, command@),
            final(self).config == old(self).config,
            well_formed(final(self)@),
    {
        if let Some(i) = self.streaming_index {
            let ghost before = self.conv.messages@;
            assert(self@.conv.messages[i as int] == before[i as int]@);
            let mut content = self.conv.messages[i].content.clone();
            let v = text::chars_of(content.as_str());
            if v.len() > 0 && v[v.len() - 1] != '\n' {
                content.push('\n');
            }
            content.append("```run\n");
            content.append(command);
            content.append("\n```\n");
            assert(content@ =~= with_run_block(before[i as int].content@, command@));
            self.conv.messages[i].content = content;
            proof {
                lemma_views_update(before, i as int, self.conv.messages@[i as int]);
                assert(self.conv.messages@ =~= before.update(i as int, self.conv.messages@[i as int]));
            }
        }
        self.streaming_index = None;
    }

    /// Take in that the model proposes a command.
    pub fn on_tool_call(&mut self, command: String) -> (r: Vec<Action>)
        requires
            well_formed(old(self)@),
        ensures
            (final(self)@, action_views(r@)) == tool_called(
                old(self)@,
                old(self).config,
                command@,
            ),
            final(self).config == old(self).config,
            well_formed(final(self)@),
    {
        self.propose(command.as_str());
        let denied = tools::is_denied(command.as_str(), self.config.agent.denylist.as_slice());
        if self.auto_run && !denied {
            let run = self.exec_command(command);
            two_actions(Action::AbortStream, run)
        } else {
            self.pending_command = Some(command);
            self.busy = Busy::Idle;
            self.status = if denied {
                "command matches denylist — review carefully".to_owned()
            } else {
                "command proposed — review and run".to_owned()
            };
            one_action(Action::AbortStream)
        }
    }

    /// Go on with another turn, unless the session has had its rounds.
    pub fn continue_or_idle(&mut self, stamp: Stamp) -> (r: Vec<Action>)
        requires
            well_formed(old(self)@),
        ensures
            (final(self)@, action_views(r@)) == continued(old(self)@, old(self).config, stamp),
            final(self).config == old(self).config,
            well_formed(final(self)@),
    {
        if self.tool_rounds <= self.config.agent.max_tool_rounds {
            self.spawn_turn(stamp)
        } else {
            self.busy = Busy::Idle;
            self.status = "reached max tool rounds".to_owned();
            one_action(Action::SaveConversation)
        }
    }

    fn tell(
        &mut self,
        stamp: Stamp,
        command: String,
        content: String,
        exit_code: Option<i32>,
    )
        requires
            well_formed(old(self)@),
        ensures
            final(self)@ == told(old(self)@, stamp, command@, content@, exit_code),
            final(self).config == old(self).config,
            well_formed(final(self)@),
    {
        let mut m = Message::at(stamp.id, stamp.at, Role::Tool, content);
        m.command = Some(command);
        m.exit_code = exit_code;
        self.conv.push_at(m, stamp.at);
    }

    /// Deny the command that awaits confirmation: the model is told, and goes on.
    pub fn deny_command(&mut self, note: Stamp, answer: Stamp) -> (r: Vec<Action>)
        requires
            well_formed(old(self)@),
            old(self).tool_rounds < usize::MAX,
        ensures
            (final(self)@, action_views(r@)) == denied(
                old(self)@,
                old(self).config,
                note,
                answer,
            ),
            final(self).config == old(self).config,
            well_formed(final(self)@),
    {
        if let Some(command) = self.pending_command.take() {
            self.tell(note, command, "[command denied by user]".to_owned(), None);
        }
        self.tool_rounds = self.tool_rounds + 1;
        self.continue_or_idle(answer)
    }

    /// Take in the outcome of a command: the model is told, and goes on.
    pub fn on_exec(&mut self, res: ExecResult, note: Stamp, answer: Stamp) -> (r: Vec<Action>)
        requires
            well_formed(old(self)@),
            old(self).tool_rounds < usize::MAX,
        ensures
            (final(self)@, action_views(r@)) == continued(
                one_more_round(
                    told(
                        old(self)@,
                        note,
                        res.command@,
                        exec::feedback(
                            res.timed_out,
                            res.stdout@,
                            res.stderr@,
                            match res.exit_code {
                                Some(code) => Some(code as int),
                                None => None,
                            },
                        ),
                        res.exit_code,
                    ),
                ),
                old(self).config,
                answer,
            ),
            final(self).config == old(self).config,
            well_formed(final(self)@),
    {
        let feedback = res.as_feedback();
        self.tell(note, res.command, feedback, res.exit_code);
        self.tool_rounds = self.tool_rounds + 1;
        self.continue_or_idle(answer)
    }

    fn add_answer(&mut self, more: &str)
        requires
            well_formed(old(self)@),
        ensures
            final(self)@ == answered(old(self)@, more@),
            final(self).config == old(self).config,
            well_formed(final(self)@),
    {
        if let Some(i) = self.streaming_index {
            let ghost before = self.conv.messages@;
            assert(self@.conv.messages[i as int] == before[i as int]@);
            let mut content = self.conv.messages[i].content.clone();
            content.append(more);
            self.conv.messages[i].content = content;
            proof {
                lemma_views_update(before, i as int, self.conv.messages@[i as int]);
                assert(self.conv.messages@ =~= before.update(i as int, self.conv.messages@[i as int]));
            }
        }
    }

    fn add_thinking(&mut self, more: &str)
        requires
            well_formed(old(self)@),
        ensures
            final(self)@ == thought(old(self)@, more@),
            final(self).config == old(self).config,
            well_formed(final(self)@),
    {
        if let Some(i) = self.streaming_index {
            let ghost before = self.conv.messages@;
            assert(self@.conv.messages[i as int] == before[i as int]@);
            let mut thinking = match &self.conv.messages[i].thinking {
                Some(t) => t.clone(),
                None => String::new(),
            };
            thinking.append(more);
            assert(before[i as int].thinking is None ==> thinking@ =~= seq![] + more@);
            self.conv.messages[i].thinking = Some(thinking);
            proof {
                lemma_views_update(before, i as int, self.conv.messages@[i as int]);
                assert(self.conv.messages@ =~= before.update(i as int, self.conv.messages@[i as int]));
            }
        }
    }

    /// Take in an event of the stream.
    pub fn on_stream(&mut self, event: StreamEvent) -> (r: Vec<Action>)
        requires
            well_formed(old(self)@),
        ensures
            (final(self)@, action_views(r@)) == streamed(old(self)@, old(self).config, event@),
            final(self).config == old(self).config,
            well_formed(final(self)@),
    {
        match event {
            StreamEvent::AnswerDelta(more) => {
                self.add_answer(more.as_str());
                no_actions()
            },
            StreamEvent::ThinkStart => {
                proof {
                    reveal_strlit("");
                    assert(""@ =~= seq![]);
                }
                self.add_thinking("");
                no_actions()
            },
            StreamEvent::ThinkDelta(more) => {
                self.add_thinking(more.as_str());
                no_actions()
            },
            StreamEvent::ThinkEnd => no_actions(),
            StreamEvent::ToolCall(call) => self.on_tool_call(call.command),
            StreamEvent::Done => {
                self.finalize_streaming();
                if self.busy == Busy::Streaming {
                    self.busy = Busy::Idle;
                    self.status = "ready".to_owned();
                }
                two_actions(Action::AbortStream, Action::SaveConversation)
            },
            StreamEvent::Error(why) => {
                self.finalize_streaming();
                self.busy = Busy::Idle;
                let mut status = String::new();
                status.append("error: ");
                status.append(why.as_str());
                assert(status@ =~= "error: "@ + why@);
                self.status = status;
                one_action(Action::AbortStream)
            },
        }
    }

    /// Take in the models that the provider lists.
    pub fn on_models(&mut self, models: Vec<String>)
        ensures
            final(self)@ == (SessionView {
                models: Some(text::views(models@)),
                status: if models@.len() == 0 {
                    "no models found (is Ollama running?)"@
                } else {
                    old(self)@.status
                },
                ..old(self)@
            }),
            final(self).config == old(self).config,
    {
        if models.len() == 0 {
            self.status = "no models found (is Ollama running?)".to_owned();
        }
        self.models = Some(models);
    }

    /// Chat with another model.
    pub fn choose_model(&mut self, model: String)
        ensures
            final(self)@ == (SessionView {
                conv: ConversationView { model: model@, ..old(self)@.conv },
                status: "model → "@ + model@,
                ..old(self)@
            }),
            final(self).config.model@ == model@,
            final(self).config == (Config {
                model: final(self).config.model,
                ..old(self).config
            }),
    {
        let mut status = String::new();
        status.append("model → ");
        status.append(model.as_str());
        assert(status@ =~= "model → "@ + model@);
        self.config.model = model.clone();
        self.conv.model = model;
        self.status = status;
    }

    /// Start a fine-tune, unless one is under way.
    pub fn start_training(&mut self) -> (r: Vec<Action>)
        ensures
            old(self)@.busy == Busy::Training ==> final(self)@ == old(self)@ && r@.len() == 0,
            old(self)@.busy != Busy::Training ==> final(self)@ == (SessionView {
                busy: Busy::Training,
                train_log: seq![],
                train_metrics: seq![],
                status: "starting fine-tune…"@,
                ..old(self)@
            }) && action_views(r@) == seq![ActionView::Train],
            final(self).config == old(self).config,
    {
        if self.busy == Busy::Training {
            return Vec::new();
        }
        self.busy = Busy::Training;
        self.train_log = Vec::new();
        self.train_metrics = Vec::new();
        self.status = "starting fine-tune…".to_owned();
        assert(self@.train_log =~= seq![] && self@.train_metrics =~= seq![]);
        one_action(Action::Train)
    }

    /// Take in a line of the fine-tune's log. The last ones are kept.
    pub fn on_train_log(&mut self, line: String)
        ensures
            final(self)@ == (SessionView {
                train_log: logged(old(self)@.train_log, line@),
                ..old(self)@
            }),
            final(self).config == old(self).config,
    {
        self.train_log.push(line);
        let ghost all = self.train_log@;
        assert(text::views(all) =~= old(self)@.train_log.push(line@));
        if self.train_log.len() > TRAIN_LOG_MAX {
            self.train_log.remove(0);
            assert(text::views(self.train_log@) =~= text::views(all).skip(1));
        }
    }

    /// Take in what the fine-tune reports. One that went well is chatted with from now
    /// on: its endpoint, where that is a new one, and its model.
    pub fn on_train(&mut self, msg: TrainMsg)
        ensures
            match msg {
                TrainMsg::Log(line) => {
                    &&& final(self)@ == (SessionView {
                        train_log: logged(old(self)@.train_log, line@),
                        ..old(self)@
                    })
                    &&& final(self).config == old(self).config
                },
                TrainMsg::Metric(m) => {
                    &&& final(self)@ == (SessionView {
                        train_metrics: old(self)@.train_metrics.push(m),
                        ..old(self)@
                    })
                    &&& final(self).config == old(self).config
                },
                TrainMsg::Done { ok, message, new_base_url, new_model } => {
                    &&& final(self)@ == (SessionView {
                        busy: Busy::Idle,
                        status: message@,
                        conv: match new_model {
                            Some(m) => if ok {
                                ConversationView { model: m@, ..old(self)@.conv }
                            } else {
                                old(self)@.conv
                            },
                            None => old(self)@.conv,
                        },
                        ..old(self)@
                    })
                    &&& final(self).config.base_url@ == match new_base_url {
                        Some(url) => if ok {
                            url@
                        } else {
                            old(self).config.base_url@
                        },
                        None => old(self).config.base_url@,
                    }
                    &&& final(self).config.model@ == match new_model {
                        Some(m) => if ok {
                            m@
                        } else {
                            old(self).config.model@
                        },
                        None => old(self).config.model@,
                    }
                    &&& final(self).config == (Config {
                        base_url: final(self).config.base_url,
                        model: final(self).config.model,
                        ..old(self).config
                    })
                },
            },
    {
        match msg {
            TrainMsg::Log(line) => {
                self.on_train_log(line);
            },
            TrainMsg::Metric(m) => {
                self.train_metrics.push(m);
            },
            TrainMsg::Done { ok, message, new_base_url, new_model } => {
                self.busy = Busy::Idle;
                self.status = message;
                if ok {
                    if let Some(url) = new_base_url {
                        self.config.base_url = url;
                    }
                    if let Some(model) = new_model {
                        self.config.model = model.clone();
                        self.conv.model = model;
                    }
                }
            },
        }
    }

    /// Start to edit the message at `idx`.
    pub fn start_edit(&mut self, idx: usize)
        requires
            idx < old(self)@.conv.messages.len(),
        ensures
            final(self)@ == (SessionView {
                edit_original: old(self)@.conv.messages[idx as int].content,
                edit_buf: seq![],
                editing: Some(idx),
                ..old(self)@
            }),
            final(self).config == old(self).config,
    {
        assert(self@.conv.messages[idx as int] == self.conv.messages@[idx as int]@);
        self.edit_original = self.conv.messages[idx].content.clone();
        self.edit_buf = String::new();
        self.editing = Some(idx);
        assert(self@.edit_buf =~= seq![]);
    }

    /// Save the edit: the correction takes the place of the reply, and is a lesson from
    /// now on. (Whether the lesson could be recorded is told by [`Session::on_recorded`].)
    pub fn commit_edit(&mut self, now: Timestamp) -> (r: Vec<Action>)
        requires
            well_formed(old(self)@),
        ensures
            (final(self)@, action_views(r@)) == edited(old(self)@, now@),
            final(self).config == old(self).config,
            well_formed(final(self)@),
    {
        let idx = match self.editing {
            Some(idx) => idx,
            None => {
                return no_actions();
            },
        };
        let correction = text::trim_text(self.edit_buf.as_str());
        if correction.as_str().is_empty() {
            self.editing = None;
            self.status = "empty — edit discarded".to_owned();
            return no_actions();
        }
        if idx < self.conv.messages.len() {
            let ghost before = self.conv.messages@;
            assert(self@.conv.messages[idx as int] == before[idx as int]@);
            let said = self.conv.messages[idx].content.clone();
            if self.conv.messages[idx].original_content.is_none() {
                self.conv.messages[idx].original_content = Some(said);
            }
            self.conv.messages[idx].content = correction;
            self.conv.messages[idx].edited = true;
            proof {
                lemma_views_update(before, idx as int, self.conv.messages@[idx as int]);
                assert(self.conv.messages@ =~= before.update(
                    idx as int,
                    self.conv.messages@[idx as int],
                ));
            }
        }
        self.editing = None;
        self.status = "reply edited".to_owned();
        match TrainingExample::at(&self.conv, idx, now) {
            Some(e) => two_actions(Action::AppendExample(e), Action::SaveConversation),
            None => one_action(Action::SaveConversation),
        }
    }

    /// Take in whether a lesson could be recorded.
    pub fn on_recorded(&mut self, ok: bool)
        ensures
            final(self)@ == (SessionView {
                status: if ok {
                    "reply edited and added to training dataset"@
                } else {
                    old(self)@.status
                },
                ..old(self)@
            }),
            final(self).config == old(self).config,
    {
        if ok {
            self.status = "reply edited and added to training dataset".to_owned();
        }
    }

    /// Take the settings over into the conversation: the assistant's prompt also drives
    /// the current one.
    pub fn apply_settings(&mut self)
        ensures
            final(self)@ == (SessionView {
                conv: ConversationView {
                    system_prompt: old(self).config.system_prompt@,
                    ..old(self)@.conv
                },
                ..old(self)@
            }),
            final(self).config == old(self).config,
    {
        self.conv.system_prompt = self.config.system_prompt.clone();
    }

    /// Open a new conversation. (The old one is to be saved before.)
    pub fn new_conversation(&mut self, stamp: Stamp) -> (r: Vec<Action>)
        ensures
            final(self)@ == (SessionView {
                conv: conversation::empty_conversation(
                    stamp.id,
                    stamp.at@,
                    old(self).config.model@,
                    old(self).config.system_prompt@,
                ),
                streaming_index: None,
                busy: Busy::Idle,
                pending_command: None,
                status: "new conversation"@,
                ..old(self)@
            }),
            action_views(r@) == seq![ActionView::AbortStream],
            final(self).config == old(self).config,
            well_formed(final(self)@),
    {
        self.conv = Conversation::at(
            stamp.id,
            stamp.at,
            self.config.model.clone(),
            self.config.system_prompt.clone(),
        );
        self.streaming_index = None;
        self.busy = Busy::Idle;
        self.pending_command = None;
        self.status = "new conversation".to_owned();
        one_action(Action::AbortStream)
    }

    /// Take up a conversation that was read from disk, or say why it could not be.
    pub fn on_loaded(&mut self, loaded: Result<Conversation, String>) -> (r: Vec<Action>)
        ensures
            match loaded {
                Ok(conv) => {
                    &&& final(self)@ == (SessionView {
                        conv: conv@,
                        streaming_index: None,
                        busy: Busy::Idle,
                        status: "conversation loaded"@,
                        ..old(self)@
                    })
                    &&& action_views(r@) == seq![ActionView::AbortStream]
                },
                Err(why) => {
                    &&& final(self)@ == (SessionView {
                        status: "load failed: "@ + why@,
                        ..old(self)@
                    })
                    &&& r@.len() == 0
                },
            },
            final(self).config == old(self).config,
            well_formed(old(self)@) ==> well_formed(final(self)@),
    {
        match loaded {
            Ok(conv) => {
                self.streaming_index = None;
                self.busy = Busy::Idle;
                self.conv = conv;
                self.status = "conversation loaded".to_owned();
                one_action(Action::AbortStream)
            },
            Err(why) => {
                let mut status = String::new();
                status.append("load failed: ");
                status.append(why.as_str());
                assert(status@ =~= "load failed: "@ + why@);
                self.status = status;
                Vec::new()
            },
        }
    }

    /// Say why the conversation could not be saved.
    pub fn on_save_failed(&mut self, why: &str)
        ensures
            final(self)@ == (SessionView { status: "save failed: "@ + why@, ..old(self)@ }),
            final(self).config == old(self).config,
    {
        let mut status = String::new();
        status.append("save failed: ");
        status.append(why);
        assert(status@ =~= "save failed: "@ + why@);
        self.status = status;
    }
}

/// What is said of the background work.
pub open spec fn busy_word(busy: Busy) -> Seq<char> {
    match busy {
        Busy::Idle => seq![],
        Busy::Streaming => "streaming… "@,
        Busy::Executing => "running… "@,
        Busy::Training => "training… "@,
    }
}

impl Session {
    /// What the status bar says: what goes on in the background, and the status.
    pub fn status_line(&self) -> (r: String)
        ensures
            r@ == busy_word(self.busy) + self.status@,
    {
        let mut out = String::new();
        match self.busy {
            Busy::Idle => {},
            Busy::Streaming => out.append("streaming… "),
            Busy::Executing => out.append("running… "),
            Busy::Training => out.append("training… "),
        }
        out.append(self.status.as_str());
        assert(out@ =~= busy_word(self.busy) + self.status@);
        out
    }

    /// Whether there is a fine-tune to show: one under way, or the log of the last.
    pub fn shows_training(&self) -> (r: bool)
        ensures
            r == (self.busy == Busy::Training || self@.train_log.len() > 0),
    {
        self.busy == Busy::Training || self.train_log.len() > 0
    }

    /// Whether the command that awaits confirmation is on the denylist.
    pub fn pending_is_denied(&self) -> (r: bool)
        ensures
            r == match self@.pending_command {
                Some(command) => tools::denied(
                    command,
                    text::views(self.config.agent.denylist@),
                ),
                None => false,
            },
    {
        match &self.pending_command {
            Some(command) => tools::is_denied(
                command.as_str(),
                self.config.agent.denylist.as_slice(),
            ),
            None => false,
        }
    }
}

/// A command on the denylist never runs unasked: whatever auto-run says, it awaits the
/// user, and nothing is asked to run it.
pub proof fn law_denied_commands_wait(s: SessionView, c: Config, command: Seq<char>)
    requires
        tools::denied(command, text::views(c.agent.denylist@)),
    ensures
        tool_called(s, c, command).0.pending_command == Some(command),
        forall|i: int|
            0 <= i < tool_called(s, c, command).1.len() ==> !((#[trigger] tool_called(
                s,
                c,
                command,
            ).1[i]) is Run),
{
}

/// Nothing runs unasked where auto-run is off.
pub proof fn law_commands_are_confirmed(s: SessionView, c: Config, command: Seq<char>)
    requires
        !s.auto_run,
    ensures
        tool_called(s, c, command).0.pending_command == Some(command),
        forall|i: int|
            0 <= i < tool_called(s, c, command).1.len() ==> !((#[trigger] tool_called(
                s,
                c,
                command,
            ).1[i]) is Run),
{
}

/// Whatever streams in, a command runs unasked only if the model proposed it, auto-run is
/// on and the denylist does not stop it; and going on after a command never runs one.
pub proof fn law_nothing_else_runs(
    s: SessionView,
    c: Config,
    e: EventView,
    note: Stamp,
    answer: Stamp,
    i: int,
)
    ensures
        0 <= i < streamed(s, c, e).1.len() && streamed(s, c, e).1[i] is Run ==> {
            let command = streamed(s, c, e).1[i]->Run_0;
            &&& e == EventView::ToolCall(command)
            &&& s.auto_run
            &&& !tools::denied(command, text::views(c.agent.denylist@))
        },
        0 <= i < denied(s, c, note, answer).1.len() ==> !(denied(s, c, note, answer).1[i] is Run),
        0 <= i < continued(s, c, answer).1.len() ==> !(continued(s, c, answer).1[i] is Run),
{
}

/// What the model first said survives any number of edits.
pub proof fn law_original_is_kept(m: MessageView, first: Seq<char>, second: Seq<char>)
    requires
        m.original_content is None,
    ensures
        corrected(m, first).original_content == Some(m.content),
        corrected(corrected(m, first), second).original_content == Some(m.content),
        corrected(corrected(m, first), second).content == second,
{
}

/// An edit of a reply that says something is a lesson whose last word is the correction
/// and which keeps what the model said.
pub proof fn law_edit_teaches(s: SessionView, at: (int, int))
    requires
        s.editing is Some,
        s.editing->0 < s.conv.messages.len(),
        s.conv.messages[s.editing->0 as int].role == Role::Assistant,
        !text::blank(s.edit_buf),
    ensures
        edited(s, at).1.len() == 2,
        edited(s, at).1[0] is AppendExample,
        edited(s, at).1[0]->AppendExample_0.messages.last().content == text::trim(s.edit_buf),
        edited(s, at).1[0]->AppendExample_0.meta.edited,
        edited(s, at).1[0]->AppendExample_0.meta.source == "edit"@,
        s.conv.messages[s.editing->0 as int].original_content is None
            ==> edited(s, at).1[0]->AppendExample_0.meta.original_assistant == Some(
            s.conv.messages[s.editing->0 as int].content,
        ),
{
    let idx = s.editing->0 as int;
    let correction = text::trim(s.edit_buf);
    text::lemma_blank_trim(s.edit_buf);
    text::lemma_trim_twice(s.edit_buf);
    text::lemma_blank_trim(correction);
    let conv = with_message(s.conv, idx, corrected(s.conv.messages[idx], correction));
    assert(dataset::is_target(conv, idx));
    dataset::law_example_ends_with_reply(conv, idx, at);
}

/// The rounds of tool calls of one user turn are bounded: once past the cap, the session
/// comes to rest instead of asking the model again.
pub proof fn law_rounds_are_bounded(s: SessionView, c: Config, stamp: Stamp)
    ensures
        s.tool_rounds > c.agent.max_tool_rounds ==> continued(s, c, stamp).0.busy == Busy::Idle
            && continued(s, c, stamp).1 == seq![ActionView::SaveConversation],
        s.tool_rounds <= c.agent.max_tool_rounds ==> continued(s, c, stamp).1 == turn_actions(
            s,
            c,
        ),
{
}

/// Nothing of a conversation changes but the message at `i`.
pub open spec fn only_touches(a: ConversationView, b: ConversationView, i: int) -> bool {
    &&& a.messages.len() == b.messages.len()
    &&& forall|j: int|
        0 <= j < a.messages.len() && j != i ==> #[trigger] b.messages[j] == a.messages[j]
    &&& b == (ConversationView { messages: b.messages, ..a })
}

/// What streams in stands in the reply, behind what was there: an answer in its content,
/// reasoning in its thinking, each in full. Nothing else of it changes, nor of the
/// session, and nothing is asked to be done.
pub proof fn law_reply_is_filled(s: SessionView, c: Config, more: Seq<char>, i: usize)
    requires
        s.streaming_index == Some(i),
        i < s.conv.messages.len(),
    ensures
        ({
            let old_one = s.conv.messages[i as int];
            let (a, asked) = streamed(s, c, EventView::AnswerDelta(more));
            let (t, also) = streamed(s, c, EventView::ThinkDelta(more));
            let (new_a, new_t) = (a.conv.messages[i as int], t.conv.messages[i as int]);
            &&& new_a.content == old_one.content + more
            &&& new_a == (MessageView { content: new_a.content, ..old_one })
            &&& only_touches(s.conv, a.conv, i as int)
            &&& a == (SessionView { conv: a.conv, ..s })
            &&& asked.len() == 0
            &&& old_one.thinking is None ==> new_t.thinking == Some(more)
            &&& old_one.thinking is Some ==> new_t.thinking == Some(old_one.thinking->0 + more)
            &&& new_t == (MessageView { thinking: new_t.thinking, ..old_one })
            &&& only_touches(s.conv, t.conv, i as int)
            &&& t == (SessionView { conv: t.conv, ..s })
            &&& also.len() == 0
        }),
{
    assert(Seq::<char>::empty() + more =~= more);
}

/// A reply that is done is kept if it says or thinks anything, and dropped if not; all
/// other messages stay. The conversation is saved, and the session rests.
pub proof fn law_done_keeps_the_reply(s: SessionView, c: Config, i: usize)
    requires
        s.streaming_index == Some(i),
        i < s.conv.messages.len(),
        s.busy == Busy::Streaming,
    ensures
        ({
            let (r, asked) = streamed(s, c, EventView::Done);
            let reply = s.conv.messages[i as int];
            let empty = text::blank(reply.content) && reply.thinking is None;
            &&& r.busy == Busy::Idle
            &&& r.streaming_index is None
            &&& asked.contains(ActionView::SaveConversation)
            &&& !empty ==> r.conv == s.conv
            &&& empty ==> r.conv.messages.len() == s.conv.messages.len() - 1 && forall|j: int|
                0 <= j < r.conv.messages.len() ==> #[trigger] r.conv.messages[j]
                    == s.conv.messages[if j < i {
                    j
                } else {
                    j + 1
                }]
        }),
{
    let asked = streamed(s, c, EventView::Done).1;
    assert(asked[1] == ActionView::SaveConversation);
}

/// A stream that breaks is told, and what it had said is kept as if it were done.
pub proof fn law_error_is_told(s: SessionView, c: Config, why: Seq<char>)
    ensures
        ({
            let (r, asked) = streamed(s, c, EventView::Error(why));
            &&& r.busy == Busy::Idle
            &&& r.streaming_index is None
            &&& r.status == "error: "@ + why
            &&& r.conv == streamed(s, c, EventView::Done).0.conv
        }),
{
}

/// A proposed command is written into the reply, in a block of its own behind what the
/// reply says, so that it is read again as it was proposed.
pub proof fn law_proposal_is_written(s: SessionView, c: Config, command: Seq<char>, i: usize)
    requires
        s.streaming_index == Some(i),
        i < s.conv.messages.len(),
    ensures
        ({
            let said = s.conv.messages[i as int].content;
            let r = streamed(s, c, EventView::ToolCall(command)).0;
            let now = r.conv.messages[i as int].content;
            let block = "```run\n"@ + command + "\n```\n"@;
            &&& now == said + block || now == said + seq!['\n'] + block
            &&& now == said + block ==> said.len() == 0 || said.last() == '\n'
            &&& only_touches(s.conv, r.conv, i as int)
            &&& r.streaming_index is None
        }),
{
    let said = s.conv.messages[i as int].content;
    let block = "```run\n"@ + command + "\n```\n"@;
    let now = with_run_block(said, command);
    if said.len() > 0 && !text::ends_with_char(said, '\n') {
        assert(now =~= said + seq!['\n'] + block);
        assert(now.len() != (said + block).len());
    } else {
        assert(now =~= said + block);
    }
}

/// Where auto-run is on and the denylist does not stop it, a proposed command runs at once,
/// as it was proposed and for as long as configured, and nothing awaits the user.
pub proof fn law_auto_run_runs(s: SessionView, c: Config, command: Seq<char>)
    requires
        s.auto_run,
        !tools::denied(command, text::views(c.agent.denylist@)),
    ensures
        ({
            let (r, asked) = streamed(s, c, EventView::ToolCall(command));
            &&& r.busy == Busy::Executing
            &&& r.pending_command is None
            &&& asked == seq![
                ActionView::AbortStream,
                ActionView::Run(command, c.agent.exec_timeout_secs),
            ]
        }),
{
}

/// What the user types is said, white space at its ends aside: it is the last thing in the
/// conversation before the reply to it, and the field is empty again. The rounds count
/// from there.
pub proof fn law_input_is_said(s: SessionView, asked: Stamp, answer: Stamp)
    ensures
        ({
            let r = submitted(s, asked, answer);
            let n = s.conv.messages.len() as int;
            &&& r.conv.messages.len() == n + 2
            &&& r.conv.messages.take(n) == s.conv.messages
            &&& r.conv.messages[n].role == Role::User
            &&& text::is_core(r.conv.messages[n].content, s.input)
            &&& r.conv.messages[n + 1].role == Role::Assistant
            &&& r.conv.messages[n + 1].content.len() == 0
            &&& r.streaming_index == Some((n + 1) as usize)
            &&& r.busy == Busy::Streaming
            &&& r.input.len() == 0
            &&& r.tool_rounds == 0
        }),
{
    text::law_trim(s.input);
    let r = submitted(s, asked, answer);
    assert(r.conv.messages.take(s.conv.messages.len() as int) =~= s.conv.messages);
}

/// A command that the user denies is not run; the model is told that it was denied, once,
/// and nothing awaits the user any more.
pub proof fn law_denial_is_told(s: SessionView, c: Config, note: Stamp, answer: Stamp)
    requires
        s.pending_command is Some,
        s.tool_rounds < usize::MAX,
    ensures
        ({
            let (r, asked) = denied(s, c, note, answer);
            let n = s.conv.messages.len() as int;
            &&& r.pending_command is None
            &&& r.tool_rounds == s.tool_rounds + 1
            &&& r.conv.messages.len() > n
            &&& r.conv.messages.take(n) == s.conv.messages
            &&& r.conv.messages[n].role == Role::Tool
            &&& r.conv.messages[n].command == s.pending_command
            &&& r.conv.messages[n].content == "[command denied by user]"@
            &&& r.conv.messages[n].exit_code is None
        }),
{
    let r = denied(s, c, note, answer).0;
    assert(r.conv.messages.take(s.conv.messages.len() as int) =~= s.conv.messages);
}

/// What a command gave is told to the model under the command, in full, and the session
/// goes on from there, as long as it has rounds left.
pub proof fn law_outcome_is_told(
    s: SessionView,
    c: Config,
    note: Stamp,
    answer: Stamp,
    command: Seq<char>,
    content: Seq<char>,
    exit_code: Option<i32>,
)
    requires
        s.tool_rounds < usize::MAX,
    ensures
        ({
            let (r, asked) = continued(
                one_more_round(told(s, note, command, content, exit_code)),
                c,
                answer,
            );
            let n = s.conv.messages.len() as int;
            &&& r.conv.messages.take(n) == s.conv.messages
            &&& r.conv.messages[n].role == Role::Tool
            &&& r.conv.messages[n].command == Some(command)
            &&& r.conv.messages[n].content == content
            &&& r.conv.messages[n].exit_code == exit_code
            &&& s.tool_rounds < c.agent.max_tool_rounds ==> r.busy == Busy::Streaming
                && r.conv.messages.len() == n + 2 && asked.len() == 1 && asked[0] is Stream
            &&& s.tool_rounds >= c.agent.max_tool_rounds ==> r.busy == Busy::Idle
                && r.conv.messages.len() == n + 1 && asked == seq![ActionView::SaveConversation]
        }),
{
    let r = continued(one_more_round(told(s, note, command, content, exit_code)), c, answer).0;
    assert(r.conv.messages.take(s.conv.messages.len() as int) =~= s.conv.messages);
}

/// A turn asks the model of the chat endpoint, with the persona's prompt first and then all
/// that was said. Commands are looked out for in the assistant's persona only.
pub proof fn law_turn_asks(s: SessionView, c: Config)
    ensures
        turn_actions(s, c).len() == 1,
        turn_actions(s, c)[0] is Stream,
        ({
            let asked = turn_actions(s, c)[0]->Stream_0;
            &&& asked.model == config::chat_profile(c).model
            &&& asked.stream
            &&& asked.messages[0].role == "system"@
            &&& s.mode == Mode::Assistant ==> asked.messages[0].content == s.conv.system_prompt
            &&& s.mode == Mode::Tech ==> asked.messages[0].content == c.tech_system_prompt@
            &&& s.mode == Mode::Convo ==> asked.messages[0].content == c.convo_system_prompt@
            &&& asked.messages.len() == 1 + s.conv.messages.filter(
                |m: MessageView| chat::is_said(m),
            ).len()
        }),
        turn_actions(s, c)[0]->Stream_1 <==> s.mode == Mode::Assistant,
{
    chat::law_all_that_was_said_is_sent(
        chat::prompt_of(s.mode, c, s.conv.system_prompt),
        s.conv.messages,
    );
}

/// The log of a fine-tune ends with the last line, loses no line before it is full, and
/// then only the oldest one.
pub proof fn law_log_keeps_the_last(log: Seq<Seq<char>>, line: Seq<char>)
    ensures
        logged(log, line).last() == line,
        log.len() < 200 ==> logged(log, line) == log.push(line),
        log.len() == 200 ==> logged(log, line).len() == 200 && logged(log, line).drop_last()
            == log.drop_first(),
{
    if log.len() == 200 {
        assert(logged(log, line).drop_last() =~= log.drop_first());
    }
}

/// An edit touches the reply that is edited and nothing else said. A blank one changes
/// nothing that was said.
pub proof fn law_edit_touches_one_reply(s: SessionView, at: (int, int))
    requires
        s.editing is Some,
    ensures
        ({
            let r = edited(s, at).0;
            let idx = s.editing->0 as int;
            &&& r.editing is None
            &&& text::blank(s.edit_buf) ==> r.conv == s.conv && edited(s, at).1.len() == 0
            &&& !text::blank(s.edit_buf) ==> only_touches(s.conv, r.conv, idx)
                && edited(s, at).1.contains(ActionView::SaveConversation)
            &&& !text::blank(s.edit_buf) && idx < s.conv.messages.len() ==> text::is_core(
                r.conv.messages[idx].content,
                s.edit_buf,
            ) && r.conv.messages[idx].edited
        }),
{
    text::lemma_blank_trim(s.edit_buf);
    text::law_trim(s.edit_buf);
    let asked = edited(s, at).1;
    if !text::blank(s.edit_buf) {
        assert(asked[asked.len() - 1] == ActionView::SaveConversation);
    }
}

} // verus!
