//! What a one-shot chat comes to: the events of a reply, gathered for a report or shown
//! as they come.

use crate::llm::stream;
use crate::llm::stream::{EventView, StreamEvent};
use crate::text;
use vstd::prelude::*;

verus! {

/// A reply, gathered.
#[derive(Debug)]
pub struct Transcript {
    pub answer: String,
    pub thinking: String,
    pub commands: Vec<String>,
    /// The last error, where there was one.
    pub error: Option<String>,
}

/// What a gathered reply holds.
pub struct TranscriptView {
    pub answer: Seq<char>,
    pub thinking: Seq<char>,
    pub commands: Seq<Seq<char>>,
    pub error: Option<Seq<char>>,
}

impl View for Transcript {
    type V = TranscriptView;

    open spec fn view(&self) -> TranscriptView {
        TranscriptView {
            answer: self.answer@,
            thinking: self.thinking@,
            commands: text::views(self.commands@),
            error: text::opt_view(self.error),
        }
    }
}

/// Nothing gathered.
pub open spec fn blank_transcript() -> TranscriptView {
    TranscriptView { answer: seq![], thinking: seq![], commands: seq![], error: None }
}

/// `t` with one more event.
pub open spec fn gathered(t: TranscriptView, e: EventView) -> TranscriptView {
    match e {
        EventView::AnswerDelta(s) => TranscriptView { answer: t.answer + s, ..t },
        EventView::ThinkDelta(s) => TranscriptView { thinking: t.thinking + s, ..t },
        EventView::ToolCall(c) => TranscriptView { commands: t.commands.push(c), ..t },
        EventView::Error(s) => TranscriptView { error: Some(s), ..t },
        EventView::ThinkStart => t,
        EventView::ThinkEnd => t,
        EventView::Done => t,
    }
}

/// All that a list of events comes to.
pub open spec fn gathered_all(events: Seq<EventView>) -> TranscriptView
    decreases events.len(),
{
    if events.len() == 0 {
        blank_transcript()
    } else {
        gathered(gathered_all(events.drop_last()), events.last())
    }
}

/// What is printed of an event as it comes.
pub open spec fn shown(e: EventView) -> Seq<char> {
    match e {
        EventView::AnswerDelta(s) => s,
        EventView::ToolCall(c) => "\n[suggested command]\n"@ + c + "\n"@,
        _ => seq![],
    }
}

impl Transcript {
    pub fn new() -> (r: Transcript)
        ensures
            r@ == blank_transcript(),
    {
        let r = Transcript {
            answer: String::new(),
            thinking: String::new(),
            commands: Vec::new(),
            error: None,
        };
        assert(r@.answer =~= seq![] && r@.thinking =~= seq![] && r@.commands =~= seq![]);
        r
    }

    /// Add an event.
    pub fn add_event(&mut self, event: StreamEvent)
        ensures
            final(self)@ == gathered(old(self)@, event@),
    {
        match event {
            StreamEvent::AnswerDelta(s) => {
                self.answer.append(s.as_str());
            },
            StreamEvent::ThinkDelta(s) => {
                self.thinking.append(s.as_str());
            },
            StreamEvent::ToolCall(call) => {
                let ghost before = self.commands@;
                self.commands.push(call.command);
                assert(text::views(self.commands@) =~= text::views(before).push(call.command@));
            },
            StreamEvent::Error(e) => {
                self.error = Some(e);
            },
            StreamEvent::ThinkStart => {},
            StreamEvent::ThinkEnd => {},
            StreamEvent::Done => {},
        }
    }

    /// All that `events` come to.
    pub fn of(events: Vec<StreamEvent>) -> (r: Transcript)
        ensures
            r@ == gathered_all(stream::event_views(events@)),
    {
        let ghost all = events@;
        let ghost es = stream::event_views(all);
        let mut t = Transcript::new();
        assert(es.take(0) =~= seq![]);
        for e in it: events
            invariant
                it.seq() == all,
                es == stream::event_views(all),
                t@ == gathered_all(es.take(it.index() as int)),
        {
            let ghost i = it.index() as int;
            assert(es.take(i + 1).drop_last() =~= es.take(i));
            assert(es.take(i + 1).last() == e@);
            t.add_event(e);
        }
        assert(es.take(es.len() as int) =~= es);
        t
    }

    /// The answer, or the error that kept it from being one.
    pub fn completion(self) -> (r: Result<String, String>)
        ensures
            match r {
                Ok(answer) => self@.error is None && answer@ == self@.answer,
                Err(e) => self@.error == Some(e@),
            },
    {
        match self.error {
            Some(e) => Err(e),
            None => Ok(self.answer),
        }
    }
}

/// What is printed of an event as it comes.
pub fn shown_text(event: &StreamEvent) -> (r: String)
    ensures
        r@ == shown(event@),
{
    let mut out = String::new();
    match event {
        StreamEvent::AnswerDelta(s) => {
            out.append(s.as_str());
            assert(out@ =~= s@);
        },
        StreamEvent::ToolCall(call) => {
            out.append("\n[suggested command]\n");
            out.append(call.command.as_str());
            out.append("\n");
            assert(out@ =~= "\n[suggested command]\n"@ + call.command@ + "\n"@);
        },
        _ => {
            assert(out@ =~= seq![]);
        },
    }
    out
}

/// One entry of the report of a chat.
#[derive(Debug)]
pub enum Field {
    Text(&'static str, String),
    List(&'static str, Vec<String>),
}

/// What an entry of a report says.
pub enum FieldView {
    Text(Seq<char>, Seq<char>),
    List(Seq<char>, Seq<Seq<char>>),
}

impl View for Field {
    type V = FieldView;

    open spec fn view(&self) -> FieldView {
        match *self {
            Field::Text(name, s) => FieldView::Text(name@, s@),
            Field::List(name, v) => FieldView::List(name@, text::views(v@)),
        }
    }
}

/// The report of a chat: the model and the answer, and of the rest what is not empty.
pub open spec fn fields(model: Seq<char>, t: TranscriptView) -> Seq<FieldView> {
    let head = seq![FieldView::Text("model"@, model), FieldView::Text("answer"@, t.answer)];
    let thinking = if t.thinking.len() > 0 {
        seq![FieldView::Text("thinking"@, t.thinking)]
    } else {
        seq![]
    };
    let commands = if t.commands.len() > 0 {
        seq![FieldView::List("commands"@, t.commands)]
    } else {
        seq![]
    };
    let error = match t.error {
        Some(e) => seq![FieldView::Text("error"@, e)],
        None => seq![],
    };
    head + thinking + commands + error
}

/// The report of a chat with `model`.
pub fn report_fields(model: String, t: Transcript) -> (r: Vec<Field>)
    ensures
        r@.map_values(|f: Field| f@) == fields(model@, t@),
{
    let mut out: Vec<Field> = Vec::new();
    out.push(Field::Text("model", model));
    out.push(Field::Text("answer", t.answer));
    if !t.thinking.as_str().is_empty() {
        out.push(Field::Text("thinking", t.thinking));
    }
    if t.commands.len() > 0 {
        out.push(Field::List("commands", t.commands));
    }
    if let Some(e) = t.error {
        out.push(Field::Text("error", e));
    }
    assert(out@.map_values(|f: Field| f@) =~= fields(model@, t@));
    out
}

/// A reply is gathered in full and in order: what two stretches of events come to is the
/// answer of both, the reasoning of both and the commands of both, the one behind the
/// other, and the last error of either.
pub proof fn law_stretches_add_up(a: Seq<EventView>, b: Seq<EventView>)
    ensures
        ({
            let (x, y, all) = (gathered_all(a), gathered_all(b), gathered_all(a + b));
            &&& all.answer == x.answer + y.answer
            &&& all.thinking == x.thinking + y.thinking
            &&& all.commands == x.commands + y.commands
            &&& y.error is Some ==> all.error == y.error
            &&& y.error is None ==> all.error == x.error
        }),
    decreases b.len(),
{
    let x = gathered_all(a);
    if b.len() == 0 {
        assert(a + b =~= a);
        assert(x.answer + seq![] =~= x.answer && x.thinking + seq![] =~= x.thinking);
        assert(x.commands + seq![] =~= x.commands);
    } else {
        law_stretches_add_up(a, b.drop_last());
        assert((a + b).drop_last() =~= a + b.drop_last());
        let y = gathered_all(b.drop_last());
        match b.last() {
            EventView::AnswerDelta(s) => {
                assert((x.answer + y.answer) + s =~= x.answer + (y.answer + s));
            },
            EventView::ThinkDelta(s) => {
                assert((x.thinking + y.thinking) + s =~= x.thinking + (y.thinking + s));
            },
            EventView::ToolCall(c) => {
                assert((x.commands + y.commands).push(c) =~= x.commands + y.commands.push(c));
            },
            _ => {},
        }
    }
}

/// What a single event comes to.
pub proof fn law_single_event(s: Seq<char>)
    ensures
        gathered_all(seq![EventView::AnswerDelta(s)]) == (TranscriptView {
            answer: s,
            ..blank_transcript()
        }),
        gathered_all(seq![EventView::ThinkDelta(s)]) == (TranscriptView {
            thinking: s,
            ..blank_transcript()
        }),
        gathered_all(seq![EventView::ToolCall(s)]) == (TranscriptView {
            commands: seq![s],
            ..blank_transcript()
        }),
        gathered_all(seq![EventView::Error(s)]) == (TranscriptView {
            error: Some(s),
            ..blank_transcript()
        }),
        gathered_all(seq![EventView::Done]) == blank_transcript(),
{
    lemma_one_event(EventView::AnswerDelta(s));
    lemma_one_event(EventView::ThinkDelta(s));
    lemma_one_event(EventView::ToolCall(s));
    lemma_one_event(EventView::Error(s));
    lemma_one_event(EventView::Done);
    assert(blank_transcript().answer + s =~= s);
    assert(blank_transcript().commands.push(s) =~= seq![s]);
}

proof fn lemma_one_event(e: EventView)
    ensures
        gathered_all(seq![e]) == gathered(blank_transcript(), e),
{
    reveal_with_fuel(gathered_all, 2);
    assert(seq![e].drop_last() =~= seq![]);
}

/// The report of a chat tells the model and the answer, even an empty one, and of the
/// reasoning, the commands and the error all that there is, and only where there is any.
pub proof fn law_report_tells_all(model: Seq<char>, t: TranscriptView)
    ensures
        ({
            let told = fields(model, t);
            &&& told[0] == FieldView::Text("model"@, model)
            &&& told[1] == FieldView::Text("answer"@, t.answer)
            &&& t.thinking.len() > 0 ==> told.contains(FieldView::Text("thinking"@, t.thinking))
            &&& t.commands.len() > 0 ==> told.contains(FieldView::List("commands"@, t.commands))
            &&& t.error is Some ==> told.contains(FieldView::Text("error"@, t.error->0))
            &&& told.len() == 2 + (if t.thinking.len() > 0 {
                1int
            } else {
                0
            }) + (if t.commands.len() > 0 {
                1int
            } else {
                0
            }) + (if t.error is Some {
                1int
            } else {
                0
            })
        }),
{
    let told = fields(model, t);
    let a = if t.thinking.len() > 0 {
        1int
    } else {
        0
    };
    let b = if t.commands.len() > 0 {
        1int
    } else {
        0
    };
    if t.thinking.len() > 0 {
        assert(told[2] == FieldView::Text("thinking"@, t.thinking));
    }
    if t.commands.len() > 0 {
        assert(told[2 + a] == FieldView::List("commands"@, t.commands));
    }
    if t.error is Some {
        assert(told[2 + a + b] == FieldView::Text("error"@, t.error->0));
    }
}

/// An answer is printed as it comes, a command as a suggestion, and nothing else.
pub proof fn law_answer_is_printed_as_it_comes(s: Seq<char>)
    ensures
        shown(EventView::AnswerDelta(s)) == s,
        text::contains(shown(EventView::ToolCall(s)), s),
        shown(EventView::ThinkDelta(s)).len() == 0,
        shown(EventView::ThinkStart).len() == 0,
        shown(EventView::ThinkEnd).len() == 0,
        shown(EventView::Done).len() == 0,
{
    text::lemma_contains_parts(shown(EventView::ToolCall(s)), s);
    assert(shown(EventView::ToolCall(s)) == "\n[suggested command]\n"@ + s + "\n"@);
}

} // verus!
