//! One streamed reply, frame by frame: which frames end it, what each says, and what
//! is told when it breaks.

use crate::llm::chunking;
use crate::llm::stream;
use crate::llm::stream::{EventView, ScanState, StreamEvent, StreamParser};
use crate::llm::types::{ChatChunk, Choice};
use crate::text;
use vstd::prelude::*;

verus! {

/// What one choice of a frame says.
pub struct DeltaView {
    pub reasoning: Option<Seq<char>>,
    pub content: Option<Seq<char>>,
}

impl View for Choice {
    type V = DeltaView;

    open spec fn view(&self) -> DeltaView {
        DeltaView {
            reasoning: text::opt_view(self.delta.reasoning),
            content: text::opt_view(self.delta.content),
        }
    }
}

/// What a frame says.
pub open spec fn deltas(choices: Seq<Choice>) -> Seq<DeltaView> {
    choices.map_values(|c: Choice| c@)
}

/// The events of one choice: its reasoning, and then its content.
pub open spec fn delta_events(st: ScanState, d: DeltaView) -> (Seq<EventView>, ScanState) {
    let thought = match d.reasoning {
        Some(r) => stream::think_delta(r),
        None => seq![],
    };
    match d.content {
        Some(c) => {
            let (said, end) = stream::scan(stream::arrived(st, c));
            (thought + said, end)
        },
        None => (thought, st),
    }
}

/// The events of a list of choices, and the state behind them.
pub open spec fn all_events(st: ScanState, ds: Seq<DeltaView>) -> (Seq<EventView>, ScanState)
    decreases ds.len(),
{
    if ds.len() == 0 {
        (seq![], st)
    } else {
        let (before, mid) = all_events(st, ds.drop_last());
        let (more, end) = delta_events(mid, ds.last());
        (before + more, end)
    }
}

/// The frame that ends a reply.
pub open spec fn end_mark() -> Seq<char> {
    "[DONE]"@
}

/// A reply in progress.
#[derive(Debug)]
pub struct ChatSession {
    parser: StreamParser,
    open: bool,
}

impl ChatSession {
    /// The state of the parser.
    pub closed spec fn state(&self) -> ScanState {
        self.parser@
    }

    /// More frames are wanted.
    pub closed spec fn wants_more(&self) -> bool {
        self.open
    }

    #[verifier::type_invariant]
    closed spec fn between_frames(&self) -> bool {
        stream::settled(self.parser@)
    }

    /// A reply of which nothing has arrived.
    pub fn new(detect_commands: bool) -> (r: ChatSession)
        ensures
            r.state() == stream::fresh(detect_commands),
            r.wants_more(),
    {
        ChatSession { parser: StreamParser::new(detect_commands), open: true }
    }

    /// Whether more frames are wanted.
    pub fn is_open(&self) -> (r: bool)
        ensures
            r == self.wants_more(),
    {
        self.open
    }

    /// Take a frame: `data` as it arrived, and `chunk` as it was decoded, where it could
    /// be. `[DONE]` ends the reply; keep-alives and other frames that say nothing are
    /// passed over.
    pub fn on_frame(self, data: &str, chunk: Option<ChatChunk>) -> (r: (
        Vec<StreamEvent>,
        ChatSession,
    ))
        requires
            self.wants_more(),
        ensures
            data@ == end_mark() ==> r.0@.len() == 0 && !r.1.wants_more() && r.1.state()
                == self.state(),
            data@ != end_mark() ==> r.1.wants_more() && match chunk {
                Some(c) => (stream::event_views(r.0@), r.1.state()) == all_events(
                    self.state(),
                    deltas(c.choices@),
                ),
                None => r.0@.len() == 0 && r.1.state() == self.state(),
            },
    {
        proof {
            use_type_invariant(&self);
        }
        let mut parser = self.parser;
        let mut out: Vec<StreamEvent> = Vec::new();
        if text::same_text(data, "[DONE]") {
            return (out, ChatSession { parser, open: false });
        }
        if let Some(c) = chunk {
            let ghost ds = deltas(c.choices@);
            let ghost start = parser@;
            let mut i: usize = 0;
            assert(ds.take(0) =~= seq![]);
            assert(stream::event_views(out@) =~= all_events(start, ds.take(0)).0);
            while i < c.choices.len()
                invariant
                    i <= c.choices@.len(),
                    ds == deltas(c.choices@),
                    stream::settled(parser@),
                    (stream::event_views(out@), parser@) == all_events(start, ds.take(i as int)),
                decreases c.choices@.len() - i,
            {
                assert(ds.take(i + 1).drop_last() =~= ds.take(i as int));
                assert(ds.take(i + 1).last() == c.choices@[i as int]@);
                take_choice(&mut parser, &c.choices[i], &mut out);
                i += 1;
            }
            assert(ds.take(i as int) =~= ds);
        }
        (out, ChatSession { parser, open: true })
    }

    /// Take note that the connection broke: this is told, and no more frames are wanted.
    pub fn on_error(self, error: &str) -> (r: (StreamEvent, ChatSession))
        requires
            self.wants_more(),
        ensures
            r.0@ == EventView::Error("stream error: "@ + error@),
            !r.1.wants_more(),
            r.1.state() == self.state(),
    {
        proof {
            use_type_invariant(&self);
        }
        let parser = self.parser;
        (error_event("stream error: ", error), ChatSession { parser, open: false })
    }

    /// The end of the reply: what was held back, and that it is done.
    pub fn finish(self) -> (r: Vec<StreamEvent>)
        ensures
            stream::event_views(r@) == stream::flushed(self.state()) + seq![EventView::Done],
    {
        proof {
            use_type_invariant(&self);
        }
        let mut parser = self.parser;
        let mut out = parser.flush();
        let ghost before = out@;
        out.push(StreamEvent::Done);
        assert(stream::event_views(out@) =~= stream::event_views(before) + seq![EventView::Done]);
        out
    }
}

fn append_events(out: &mut Vec<StreamEvent>, more: Vec<StreamEvent>)
    ensures
        stream::event_views(final(out)@) == stream::event_views(old(out)@) + stream::event_views(
            more@,
        ),
{
    let ghost all = more@;
    assert(stream::event_views(out@) =~= stream::event_views(old(out)@) + stream::event_views(
        all.take(0),
    ));
    for e in it: more
        invariant
            it.seq() == all,
            stream::event_views(out@) == stream::event_views(old(out)@) + stream::event_views(
                all.take(it.index() as int),
            ),
    {
        let ghost before = out@;
        let ghost i = it.index() as int;
        out.push(e);
        assert(stream::event_views(all.take(i + 1)) =~= stream::event_views(all.take(i)).push(e@));
        assert(stream::event_views(out@) =~= stream::event_views(before).push(e@));
        assert(stream::event_views(out@) =~= stream::event_views(old(out)@) + stream::event_views(
            all.take(i + 1),
        ));
    }
    assert(all.take(all.len() as int) =~= all);
}

fn take_choice(parser: &mut StreamParser, choice: &Choice, out: &mut Vec<StreamEvent>)
    requires
        stream::settled(old(parser)@),
    ensures
        stream::settled(final(parser)@),
        stream::event_views(final(out)@) == stream::event_views(old(out)@) + delta_events(
            old(parser)@,
            choice@,
        ).0,
        final(parser)@ == delta_events(old(parser)@, choice@).1,
{
    if let Some(reasoning) = &choice.delta.reasoning {
        let thought = parser.push_reasoning(reasoning.as_str());
        append_events(out, thought);
    }
    if let Some(content) = &choice.delta.content {
        let said = parser.push(content.as_str());
        append_events(out, said);
    }
    assert(stream::event_views(out@) =~= stream::event_views(old(out)@) + delta_events(
        old(parser)@,
        choice@,
    ).0);
}

fn error_event(what: &str, error: &str) -> (r: StreamEvent)
    ensures
        r@ == EventView::Error(what@ + error@),
{
    let mut message = String::new();
    message.append(what);
    message.append(error);
    assert(message@ =~= what@ + error@);
    StreamEvent::Error(message)
}

/// What is told where the request could not be sent.
pub fn request_failed(error: &str) -> (r: StreamEvent)
    ensures
        r@ == EventView::Error("request failed: "@ + error@),
{
    error_event("request failed: ", error)
}

/// What is told where the server refused the request.
pub fn server_refused(error: &str) -> (r: StreamEvent)
    ensures
        r@ == EventView::Error("server returned an error: "@ + error@),
{
    error_event("server returned an error: ", error)
}

/// What the choices say besides reasoning.
pub open spec fn contents(ds: Seq<DeltaView>) -> Seq<Seq<char>>
    decreases ds.len(),
{
    if ds.len() == 0 {
        seq![]
    } else {
        match ds.last().content {
            Some(c) => contents(ds.drop_last()).push(c),
            None => contents(ds.drop_last()),
        }
    }
}

/// Frames whose choices carry no reasoning give the events of their contents, taken
/// one after the other; so how the contents are cut into frames makes no difference
/// beyond what it makes to the parser.
pub proof fn law_frames_are_chunks(st: ScanState, ds: Seq<DeltaView>)
    requires
        forall|i: int| 0 <= i < ds.len() ==> (#[trigger] ds[i]).reasoning is None,
    ensures
        all_events(st, ds) == chunking::feed_all(st, contents(ds)),
    decreases ds.len(),
{
    if ds.len() > 0 {
        let rest = ds.drop_last();
        assert forall|i: int| 0 <= i < rest.len() implies (#[trigger] rest[i]).reasoning is None by {
            assert(rest[i] == ds[i]);
        }
        law_frames_are_chunks(st, rest);
        assert(ds[ds.len() - 1].reasoning is None);
        let (before, mid) = all_events(st, rest);
        match ds.last().content {
            Some(c) => {
                let cs = contents(rest).push(c);
                assert(cs.drop_last() =~= contents(rest));
                assert(all_events(st, ds).0 =~= chunking::feed_all(st, cs).0);
            },
            None => {
                assert(all_events(st, ds).0 =~= before);
            },
        }
    }
}

/// Frames are taken one after the other, and nothing of them is lost: two stretches give
/// what the one gives and then what the other gives from where it left off.
pub proof fn law_frames_add_up(st: ScanState, a: Seq<DeltaView>, b: Seq<DeltaView>)
    ensures
        ({
            let (first, mid) = all_events(st, a);
            let (second, end) = all_events(mid, b);
            all_events(st, a + b) == (first + second, end)
        }),
    decreases b.len(),
{
    let (first, mid) = all_events(st, a);
    if b.len() == 0 {
        assert(a + b =~= a);
        assert(first + seq![] =~= first);
    } else {
        law_frames_add_up(st, a, b.drop_last());
        assert((a + b).drop_last() =~= a + b.drop_last());
        let (sofar, at) = all_events(mid, b.drop_last());
        let (more, end) = delta_events(at, b.last());
        assert((first + sofar) + more =~= first + (sofar + more));
    }
}

/// Reasoning that a server sends apart is reasoning, whatever it holds, comes before the
/// content it is sent with, and leaves the reading of the content alone.
pub proof fn law_reasoning_sent_apart(st: ScanState, thought: Seq<char>, content: Option<Seq<char>>)
    ensures
        ({
            let alone = delta_events(st, DeltaView { reasoning: None, content });
            let both = delta_events(st, DeltaView { reasoning: Some(thought), content });
            both == (chunking::as_reasoning(thought) + alone.0, alone.1)
        }),
        delta_events(st, DeltaView { reasoning: None, content: None }) == (
            Seq::<EventView>::empty(),
            st,
        ),
{
    let alone = delta_events(st, DeltaView { reasoning: None, content });
    let both = delta_events(st, DeltaView { reasoning: Some(thought), content });
    if let Some(c) = content {
        let said = stream::scan(stream::arrived(st, c)).0;
        assert(Seq::<EventView>::empty() + said =~= said);
    }
    assert(both.0 =~= chunking::as_reasoning(thought) + alone.0);
}

} // verus!
