//! Incremental parser that splits a model's token stream into answer text,
//! `<think>` reasoning and ```` ```run ```` shell commands.
//!
//! Markers arrive split across arbitrary chunk boundaries (`<th` | `ink>`), so
//! the parser holds back the longest tail that could be the start of a marker and
//! emits only text that cannot be part of one.

use crate::text;
use crate::tools::ToolCall;
use vstd::prelude::*;

verus! {

#[derive(Debug, PartialEq, Eq)]
pub enum StreamEvent {
    AnswerDelta(String),
    ThinkDelta(String),
    ThinkStart,
    ThinkEnd,
    ToolCall(ToolCall),
    Done,
    Error(String),
}

/// What a [`StreamEvent`] says.
pub enum EventView {
    AnswerDelta(Seq<char>),
    ThinkDelta(Seq<char>),
    ThinkStart,
    ThinkEnd,
    ToolCall(Seq<char>),
    Done,
    Error(Seq<char>),
}

impl View for StreamEvent {
    type V = EventView;

    open spec fn view(&self) -> EventView {
        match self {
            StreamEvent::AnswerDelta(s) => EventView::AnswerDelta(s@),
            StreamEvent::ThinkDelta(s) => EventView::ThinkDelta(s@),
            StreamEvent::ThinkStart => EventView::ThinkStart,
            StreamEvent::ThinkEnd => EventView::ThinkEnd,
            StreamEvent::ToolCall(t) => EventView::ToolCall(t.command@),
            StreamEvent::Done => EventView::Done,
            StreamEvent::Error(s) => EventView::Error(s@),
        }
    }
}

impl Clone for StreamEvent {
    fn clone(&self) -> (r: StreamEvent)
        ensures
            r@ == self@,
    {
        match self {
            StreamEvent::AnswerDelta(s) => StreamEvent::AnswerDelta(s.clone()),
            StreamEvent::ThinkDelta(s) => StreamEvent::ThinkDelta(s.clone()),
            StreamEvent::ThinkStart => StreamEvent::ThinkStart,
            StreamEvent::ThinkEnd => StreamEvent::ThinkEnd,
            StreamEvent::ToolCall(t) => StreamEvent::ToolCall(t.clone()),
            StreamEvent::Done => StreamEvent::Done,
            StreamEvent::Error(s) => StreamEvent::Error(s.clone()),
        }
    }
}

/// What a list of events says.
pub open spec fn event_views(events: Seq<StreamEvent>) -> Seq<EventView> {
    events.map_values(|e: StreamEvent| e@)
}

/// Where in a reply the parser stands.
#[derive(Debug, Clone, Copy, PartialEq, Eq, Structural)]
pub enum Section {
    Answer,
    Think,
    Run,
}

/// The state of a parser.
pub struct ScanState {
    pub section: Section,
    /// Text that is not emitted yet: it may be the start of a marker.
    pub carry: Seq<char>,
    /// The body so far of an open run block.
    pub fence: Seq<char>,
    /// Whether run blocks are commands (or ordinary text).
    pub detect: bool,
}

pub open spec fn think_open() -> Seq<char> {
    seq!['<', 't', 'h', 'i', 'n', 'k', '>']
}

pub open spec fn think_close() -> Seq<char> {
    seq!['<', '/', 't', 'h', 'i', 'n', 'k', '>']
}

pub open spec fn run_open() -> Seq<char> {
    seq!['`', '`', '`', 'r', 'u', 'n']
}

pub open spec fn fence_close() -> Seq<char> {
    seq!['`', '`', '`']
}

/// The markers that end a section.
pub open spec fn markers(section: Section, detect: bool) -> Seq<Seq<char>> {
    match section {
        Section::Answer => if detect {
            seq![think_open(), run_open()]
        } else {
            seq![think_open()]
        },
        Section::Think => seq![think_close()],
        Section::Run => seq![fence_close()],
    }
}

/// Marker `k` stands at `p` in `buf`, and no marker stands earlier; of two that
/// stand at one place the first listed counts.
pub open spec fn is_next(buf: Seq<char>, ms: Seq<Seq<char>>, p: int, k: int) -> bool {
    &&& 0 <= k < ms.len()
    &&& text::occurs_at(buf, ms[k], p)
    &&& forall|q: int, j: int|
        0 <= j < ms.len() && #[trigger] text::occurs_at(buf, ms[j], q) ==> p < q || (p == q && k <= j)
}

/// Some marker stands in `buf`.
pub open spec fn has_marker(buf: Seq<char>, ms: Seq<Seq<char>>) -> bool {
    exists|p: int, k: int| 0 <= k < ms.len() && #[trigger] text::occurs_at(buf, ms[k], p)
}

/// The earliest marker in `buf`: its position and its index in `ms`.
pub open spec fn next_marker(buf: Seq<char>, ms: Seq<Seq<char>>) -> Option<(int, int)> {
    if has_marker(buf, ms) {
        Some(choose|pk: (int, int)| is_next(buf, ms, pk.0, pk.1))
    } else {
        None
    }
}

/// The last `n` characters of `buf` are the start, but not the whole, of a marker.
pub open spec fn is_partial(buf: Seq<char>, ms: Seq<Seq<char>>, n: int) -> bool {
    0 <= n <= buf.len() && exists|k: int|
        0 <= k < ms.len() && n < ms[k].len() && #[trigger] ms[k].take(n) == buf.skip(buf.len() - n)
}

/// `n` is the length of the longest tail of `buf` that could grow into a marker.
pub open spec fn is_held(buf: Seq<char>, ms: Seq<Seq<char>>, n: int) -> bool {
    &&& n == 0 || is_partial(buf, ms, n)
    &&& 0 <= n
    &&& forall|m: int| m > n ==> !is_partial(buf, ms, m)
}

/// The length of the longest tail of `buf` that could grow into a marker.
pub open spec fn held(buf: Seq<char>, ms: Seq<Seq<char>>) -> int {
    choose|n: int| is_held(buf, ms, n)
}

/// What is left of `s` once the line break at its start, if any, is dropped.
pub open spec fn drop_line_break(s: Seq<char>) -> Seq<char> {
    if s.len() >= 1 && s[0] == '\n' {
        s.skip(1)
    } else if s.len() >= 2 && s[0] == '\r' && s[1] == '\n' {
        s.skip(2)
    } else {
        s
    }
}

/// The event that carries answer text: none where there is no text.
pub open spec fn answer_delta(s: Seq<char>) -> Seq<EventView> {
    if s.len() > 0 {
        seq![EventView::AnswerDelta(s)]
    } else {
        seq![]
    }
}

/// The event that carries reasoning: none where there is no text.
pub open spec fn think_delta(s: Seq<char>) -> Seq<EventView> {
    if s.len() > 0 {
        seq![EventView::ThinkDelta(s)]
    } else {
        seq![]
    }
}

/// The event that carries a command: none where the block holds only white space.
pub open spec fn tool_call(body: Seq<char>) -> Seq<EventView> {
    if text::trim(body).len() > 0 {
        seq![EventView::ToolCall(text::trim(body))]
    } else {
        seq![]
    }
}

/// One step over the marker at `p` (the `k`th of its section): the events it
/// gives and the state behind it.
pub open spec fn over_marker(st: ScanState, p: int, k: int) -> (Seq<EventView>, ScanState) {
    let before = st.carry.take(p);
    let after = st.carry.skip(p + markers(st.section, st.detect)[k].len());
    match st.section {
        Section::Answer => if k == 0 {
            (
                answer_delta(before) + seq![EventView::ThinkStart],
                ScanState { section: Section::Think, carry: after, ..st },
            )
        } else {
            (
                answer_delta(before),
                ScanState { section: Section::Run, carry: drop_line_break(after), ..st },
            )
        },
        Section::Think => (
            think_delta(before) + seq![EventView::ThinkEnd],
            ScanState { section: Section::Answer, carry: after, ..st },
        ),
        Section::Run => (
            tool_call(st.fence + before),
            ScanState { section: Section::Answer, carry: after, fence: seq![], ..st },
        ),
    }
}

/// Where no marker stands in the carry: everything but a possible start of one is
/// emitted.
pub open spec fn settle(st: ScanState) -> (Seq<EventView>, ScanState) {
    let cut = st.carry.len() - held(st.carry, markers(st.section, st.detect));
    let out = st.carry.take(cut);
    let rest = st.carry.skip(cut);
    match st.section {
        Section::Answer => (answer_delta(out), ScanState { carry: rest, ..st }),
        Section::Think => (think_delta(out), ScanState { carry: rest, ..st }),
        Section::Run => (seq![], ScanState { carry: rest, fence: st.fence + out, ..st }),
    }
}

/// All the events that the carry gives, and the state behind them.
pub open spec fn scan(st: ScanState) -> (Seq<EventView>, ScanState)
    decreases st.carry.len(),
{
    match next_marker(st.carry, markers(st.section, st.detect)) {
        Some((p, k)) => {
            let (evs, next) = over_marker(st, p, k);
            proof {
                lemma_over_marker_shortens(st);
            }
            let (more, end) = scan(next);
            (evs + more, end)
        },
        None => settle(st),
    }
}

/// `st` with `text` arrived.
pub open spec fn arrived(st: ScanState, text: Seq<char>) -> ScanState {
    ScanState { carry: st.carry + text, ..st }
}

/// What the end of the stream gives: the text held back, as what it would have
/// been in its section; an unfinished run block as answer text.
pub open spec fn flushed(st: ScanState) -> Seq<EventView> {
    match st.section {
        Section::Answer => answer_delta(st.carry),
        Section::Think => think_delta(st.carry) + seq![EventView::ThinkEnd],
        Section::Run => answer_delta(st.fence + st.carry),
    }
}

/// The body of a run block is kept in the run block only, and a run block is open only
/// where run blocks are commands. No closing fence stands in the body, and none can start
/// at its end.
pub open spec fn sound_body(st: ScanState) -> bool {
    if st.section == Section::Run {
        &&& st.detect
        &&& !text::contains(st.fence, fence_close())
        &&& !text::ends_with_char(st.fence, '`')
    } else {
        st.fence.len() == 0
    }
}

/// A state between two calls: nothing is held back but a possible start of a
/// marker, and the body of a run block is sound.
pub open spec fn settled(st: ScanState) -> bool {
    let ms = markers(st.section, st.detect);
    &&& !has_marker(st.carry, ms)
    &&& is_held(st.carry, ms, st.carry.len() as int)
    &&& sound_body(st)
}

/// Of several occurrences of markers one is earliest.
proof fn lemma_next_exists(buf: Seq<char>, ms: Seq<Seq<char>>, p: int, k: int)
    requires
        0 <= k < ms.len(),
        text::occurs_at(buf, ms[k], p),
    ensures
        exists|pk: (int, int)| is_next(buf, ms, pk.0, pk.1),
    decreases p, k,
{
    if is_next(buf, ms, p, k) {
        assert(is_next(buf, ms, (p, k).0, (p, k).1));
    } else {
        let (q, j) = choose|q: int, j: int|
            0 <= j < ms.len() && #[trigger] text::occurs_at(buf, ms[j], q) && !(p < q || (p == q
                && k <= j));
        lemma_next_exists(buf, ms, q, j);
    }
}

/// What `next_marker` returns is pinned down by being earliest.
pub proof fn lemma_next(buf: Seq<char>, ms: Seq<Seq<char>>)
    ensures
        match next_marker(buf, ms) {
            Some((p, k)) => is_next(buf, ms, p, k),
            None => !has_marker(buf, ms),
        },
        forall|p: int, k: int| is_next(buf, ms, p, k) ==> next_marker(buf, ms) == Some((p, k)),
{
    if has_marker(buf, ms) {
        let (p, k) = choose|p: int, k: int|
            0 <= k < ms.len() && #[trigger] text::occurs_at(buf, ms[k], p);
        lemma_next_exists(buf, ms, p, k);
    }
    assert forall|p: int, k: int| is_next(buf, ms, p, k) implies next_marker(buf, ms) == Some(
        (p, k),
    ) by {
        lemma_next_exists(buf, ms, p, k);
        let (q, j) = choose|pk: (int, int)| is_next(buf, ms, pk.0, pk.1);
        assert(is_next(buf, ms, q, j));
        assert(text::occurs_at(buf, ms[j], q));
        assert(text::occurs_at(buf, ms[k], p));
    }
}

/// Going over a marker leaves less text.
pub proof fn lemma_over_marker_shortens(st: ScanState)
    ensures
        match next_marker(st.carry, markers(st.section, st.detect)) {
            Some((p, k)) => over_marker(st, p, k).1.carry.len() < st.carry.len(),
            None => true,
        },
{
    lemma_next(st.carry, markers(st.section, st.detect));
}

proof fn lemma_held_exists(buf: Seq<char>, ms: Seq<Seq<char>>, bound: int)
    requires
        0 <= bound,
        forall|m: int| m > bound ==> !is_partial(buf, ms, m),
    ensures
        exists|n: int| n <= bound && is_held(buf, ms, n),
    decreases bound,
{
    if bound == 0 || is_partial(buf, ms, bound) {
        assert(is_held(buf, ms, bound));
    } else {
        lemma_held_exists(buf, ms, bound - 1);
    }
}

/// What `held` returns is pinned down by being longest.
pub proof fn lemma_held(buf: Seq<char>, ms: Seq<Seq<char>>)
    ensures
        is_held(buf, ms, held(buf, ms)),
        0 <= held(buf, ms) <= buf.len(),
        forall|n: int| is_held(buf, ms, n) ==> n == held(buf, ms),
{
    lemma_held_exists(buf, ms, buf.len() as int);
}

/// What a list of markers says.
pub open spec fn marker_views(ms: Seq<Vec<char>>) -> Seq<Seq<char>> {
    ms.map_values(|m: Vec<char>| m@)
}

/// The markers that end a section.
fn marker_list(section: Section, detect: bool) -> (r: Vec<Vec<char>>)
    ensures
        marker_views(r@) == markers(section, detect),
{
    let mut out: Vec<Vec<char>> = Vec::new();
    match section {
        Section::Answer => {
            out.push(vec!['<', 't', 'h', 'i', 'n', 'k', '>']);
            if detect {
                out.push(vec!['`', '`', '`', 'r', 'u', 'n']);
            }
        },
        Section::Think => {
            out.push(vec!['<', '/', 't', 'h', 'i', 'n', 'k', '>']);
        },
        Section::Run => {
            out.push(vec!['`', '`', '`']);
        },
    }
    assert forall|i: int| 0 <= i < out@.len() implies #[trigger] marker_views(out@)[i] == markers(
        section,
        detect,
    )[i] by {
        assert(out@[i]@ =~= markers(section, detect)[i]);
    }
    assert(marker_views(out@) =~= markers(section, detect));
    out
}

/// The earliest complete marker in `buf`: its position and its index in `markers`.
fn earliest_marker(buf: &Vec<char>, markers: &Vec<Vec<char>>) -> (r: Option<(usize, usize)>)
    ensures
        match r {
            Some((p, k)) => is_next(buf@, marker_views(markers@), p as int, k as int)
                && next_marker(buf@, marker_views(markers@)) == Some((p as int, k as int)),
            None => next_marker(buf@, marker_views(markers@)) is None,
        },
{
    let ghost ms = marker_views(markers@);
    let mut best: Option<(usize, usize)> = None;
    let mut i: usize = 0;
    while i < markers.len()
        invariant
            ms == marker_views(markers@),
            i <= markers@.len(),
            match best {
                Some((p, k)) => {
                    &&& k < i
                    &&& text::occurs_at(buf@, ms[k as int], p as int)
                    &&& forall|q: int, j: int|
                        0 <= j < i && #[trigger] text::occurs_at(buf@, ms[j], q) ==> p < q || (p
                            == q && k <= j)
                },
                None => forall|q: int, j: int|
                    0 <= j < i ==> !#[trigger] text::occurs_at(buf@, ms[j], q),
            },
        decreases markers@.len() - i,
    {
        assert(ms[i as int] == markers@[i as int]@);
        if let Some(p) = text::find_chars(buf, &markers[i]) {
            match best {
                Some((bp, _)) => {
                    if p < bp {
                        best = Some((p, i));
                    }
                },
                None => {
                    best = Some((p, i));
                },
            }
        }
        i += 1;
    }
    proof {
        lemma_next(buf@, ms);
        match best {
            Some((p, k)) => {
                assert(is_next(buf@, ms, p as int, k as int));
            },
            None => {},
        }
    }
    best
}

/// Whether the last `n` characters of `buf` are the start of one of the markers.
fn partial_of(buf: &Vec<char>, markers: &Vec<Vec<char>>, n: usize) -> (r: bool)
    requires
        n <= buf@.len(),
    ensures
        r == is_partial(buf@, marker_views(markers@), n as int),
{
    let ghost ms = marker_views(markers@);
    let ghost tail = buf@.skip(buf@.len() - n);
    let at = buf.len() - n;
    let suffix = text::tail_chars(buf, at);
    let mut i: usize = 0;
    while i < markers.len()
        invariant
            ms == marker_views(markers@),
            n <= buf@.len(),
            tail == buf@.skip(buf@.len() - n),
            suffix@ == tail,
            i <= markers@.len(),
            forall|k: int|
                0 <= k < i ==> !(n < ms[k].len() && #[trigger] ms[k].take(n as int) == tail),
        decreases markers@.len() - i,
    {
        assert(ms[i as int] == markers@[i as int]@);
        if markers[i].len() > n && text::occurs(&markers[i], &suffix, 0) {
            assert(ms[i as int].take(n as int) =~= ms[i as int].subrange(0, n as int));
            return true;
        }
        assert(n < ms[i as int].len() ==> ms[i as int].take(n as int) =~= ms[i as int].subrange(
            0,
            n as int,
        ));
        i += 1;
    }
    false
}

/// Append `src[..hi]` to `dst`.
fn append_chars(dst: &mut Vec<char>, src: &Vec<char>, hi: usize)
    requires
        hi <= src@.len(),
    ensures
        final(dst)@ == old(dst)@ + src@.take(hi as int),
{
    let mut i: usize = 0;
    while i < hi
        invariant
            i <= hi <= src@.len(),
            dst@ == old(dst)@ + src@.take(i as int),
        decreases hi - i,
    {
        dst.push(src[i]);
        i += 1;
        assert(src@.take(i as int) =~= src@.take(i - 1).push(src@[i - 1]));
        assert(dst@ =~= old(dst)@ + src@.take(i as int));
    }
    assert(dst@ =~= old(dst)@ + src@.take(hi as int));
}

/// The length of the longest tail of `buf` that is the start, but not the whole,
/// of some marker, so that the next chunk might complete it.
fn partial_suffix_len(buf: &Vec<char>, markers: &Vec<Vec<char>>) -> (r: usize)
    ensures
        r == held(buf@, marker_views(markers@)),
        r <= buf@.len(),
{
    let ghost ms = marker_views(markers@);
    let mut max: usize = 0;
    let mut i: usize = 0;
    while i < markers.len()
        invariant
            ms == marker_views(markers@),
            i <= markers@.len(),
            forall|k: int| 0 <= k < i ==> (#[trigger] ms[k]).len() <= max,
        decreases markers@.len() - i,
    {
        assert(ms[i as int] == markers@[i as int]@);
        if markers[i].len() > max {
            max = markers[i].len();
        }
        i += 1;
    }
    let mut n: usize = if max == 0 {
        0
    } else {
        max - 1
    };
    if n > buf.len() {
        n = buf.len();
    }
    assert forall|m: int| m > n implies !is_partial(buf@, ms, m) by {
        if is_partial(buf@, ms, m) {
            let k = choose|k: int|
                0 <= k < ms.len() && m < ms[k].len() && #[trigger] ms[k].take(m) == buf@.skip(
                    buf@.len() - m,
                );
            assert(ms[k].len() <= max);
        }
    }
    while n > 0
        invariant
            ms == marker_views(markers@),
            n <= buf@.len(),
            forall|m: int| m > n ==> !is_partial(buf@, ms, m),
        decreases n,
    {
        if partial_of(buf, markers, n) {
            proof {
                lemma_held(buf@, ms);
                assert(is_held(buf@, ms, n as int));
            }
            return n;
        }
        n -= 1;
    }
    proof {
        lemma_held(buf@, ms);
        assert(is_held(buf@, ms, 0));
    }
    0
}

/// The parser. It is fed chunks of a reply and gives events.
#[derive(Debug)]
struct Scanner {
    section: Section,
    carry: Vec<char>,
    fence_buf: Vec<char>,
    detect_commands: bool,
}

impl View for Scanner {
    type V = ScanState;

    closed spec fn view(&self) -> ScanState {
        ScanState {
            section: self.section,
            carry: self.carry@,
            fence: self.fence_buf@,
            detect: self.detect_commands,
        }
    }
}

/// The state of a parser that has been fed nothing.
pub open spec fn fresh(detect: bool) -> ScanState {
    ScanState { section: Section::Answer, carry: seq![], fence: seq![], detect }
}

/// Nothing is held back of nothing.
pub proof fn lemma_fresh_settled(detect: bool)
    ensures
        settled(fresh(detect)),
{
}

impl Scanner {
    fn new(detect_commands: bool) -> (r: Self)
        ensures
            r@ == fresh(detect_commands),
            settled(r@),
    {
        let r = Scanner {
            section: Section::Answer,
            carry: Vec::new(),
            fence_buf: Vec::new(),
            detect_commands,
        };
        assert(r@.carry =~= seq![]);
        assert(r@.fence =~= seq![]);
        proof {
            lemma_fresh_settled(detect_commands);
        }
        r
    }

    /// Emit the first `p` characters of the carry as text of the section, or put
    /// them into the body of the open run block.
    fn emit(&mut self, p: usize, out: &mut Vec<StreamEvent>)
        requires
            p <= old(self)@.carry.len(),
        ensures
            final(self)@ == (ScanState {
                fence: if old(self)@.section == Section::Run {
                    old(self)@.fence + old(self)@.carry.take(p as int)
                } else {
                    old(self)@.fence
                },
                ..old(self)@
            }),
            event_views(final(out)@) == event_views(old(out)@) + match old(self)@.section {
                Section::Answer => answer_delta(old(self)@.carry.take(p as int)),
                Section::Think => think_delta(old(self)@.carry.take(p as int)),
                Section::Run => seq![],
            },
    {
        assert(self.carry@.subrange(0, p as int) =~= self.carry@.take(p as int));
        match self.section {
            Section::Answer => {
                if p > 0 {
                    out.push(StreamEvent::AnswerDelta(text::slice_text(&self.carry, 0, p)));
                }
            },
            Section::Think => {
                if p > 0 {
                    out.push(StreamEvent::ThinkDelta(text::slice_text(&self.carry, 0, p)));
                }
            },
            Section::Run => {
                append_chars(&mut self.fence_buf, &self.carry, p);
            },
        }
        assert(event_views(out@) =~= event_views(old(out)@) + match old(self)@.section {
            Section::Answer => answer_delta(old(self)@.carry.take(p as int)),
            Section::Think => think_delta(old(self)@.carry.take(p as int)),
            Section::Run => seq![],
        });
    }

    /// Drop one line break at the start of the carry, if there is one.
    fn skip_line_break(&mut self)
        ensures
            final(self)@ == (ScanState { carry: drop_line_break(old(self)@.carry), ..old(self)@ }),
    {
        if self.carry.len() >= 1 && self.carry[0] == '\n' {
            self.carry = text::tail_chars(&self.carry, 1);
        } else if self.carry.len() >= 2 && self.carry[0] == '\r' && self.carry[1] == '\n' {
            self.carry = text::tail_chars(&self.carry, 2);
        }
    }

    /// Go over the marker at `p`, the `k`th of the section and `len` characters
    /// long.
    fn cross(&mut self, p: usize, k: usize, len: usize, out: &mut Vec<StreamEvent>)
        requires
            0 <= k < markers(old(self)@.section, old(self)@.detect).len(),
            len == markers(old(self)@.section, old(self)@.detect)[k as int].len(),
            p + len <= old(self)@.carry.len(),
        ensures
            final(self)@ == over_marker(old(self)@, p as int, k as int).1,
            event_views(final(out)@) == event_views(old(out)@) + over_marker(
                old(self)@,
                p as int,
                k as int,
            ).0,
    {
        let ghost before = event_views(out@);
        self.emit(p, out);
        let ghost mid = event_views(out@);
        let total = self.carry.len();
        assert(p + len <= total);
        self.carry = text::tail_chars(&self.carry, p + len);
        match self.section {
            Section::Answer => {
                if k == 0 {
                    self.section = Section::Think;
                    out.push(StreamEvent::ThinkStart);
                    assert(event_views(out@) =~= mid.push(EventView::ThinkStart));
                } else {
                    self.skip_line_break();
                    self.section = Section::Run;
                }
            },
            Section::Think => {
                self.section = Section::Answer;
                out.push(StreamEvent::ThinkEnd);
                assert(event_views(out@) =~= mid.push(EventView::ThinkEnd));
            },
            Section::Run => {
                let (lo, hi) = text::trim_bounds(&self.fence_buf);
                if lo < hi {
                    let command = text::slice_text(&self.fence_buf, lo, hi);
                    out.push(StreamEvent::ToolCall(ToolCall { command }));
                    assert(event_views(out@) =~= mid.push(
                        EventView::ToolCall(text::trim(self@.fence)),
                    ));
                }
                self.fence_buf = Vec::new();
                self.section = Section::Answer;
                assert(self@.fence =~= seq![]);
            },
        }
        assert(event_views(out@) =~= before + over_marker(old(self)@, p as int, k as int).0);
    }

    /// Feed a chunk of the reply. Returns the events it completes.
    fn push(&mut self, text: &str) -> (r: Vec<StreamEvent>)
        requires
            settled(old(self)@),
        ensures
            (event_views(r@), final(self)@) == scan(arrived(old(self)@, text@)),
            settled(final(self)@),
    {
        let ghost start = arrived(self@, text@);
        let incoming = text::chars_of(text);
        append_chars(&mut self.carry, &incoming, incoming.len());
        assert(incoming@.take(incoming@.len() as int) =~= incoming@);
        let mut out: Vec<StreamEvent> = Vec::new();
        proof {
            assert(self@ == start);
            assert(event_views(out@) + scan(self@).0 =~= scan(start).0);
            lemma_scan_settled(start);
        }
        loop
            invariant_except_break
                event_views(out@) + scan(self@).0 == scan(start).0,
                scan(self@).1 == scan(start).1,
            ensures
                event_views(out@) == scan(start).0,
                self@ == scan(start).1,
            decreases self@.carry.len(),
        {
            let list = marker_list(self.section, self.detect_commands);
            match earliest_marker(&self.carry, &list) {
                Some((p, k)) => {
                    let ghost before = self@;
                    let ghost sofar = event_views(out@);
                    proof {
                        lemma_over_marker_shortens(self@);
                        assert(marker_views(list@)[k as int] == list@[k as int]@);
                    }
                    let len = list[k].len();
                    self.cross(p, k, len, &mut out);
                    assert(sofar + scan(before).0 =~= event_views(out@) + scan(self@).0);
                },
                None => {
                    let keep = partial_suffix_len(&self.carry, &list);
                    let emit_to = self.carry.len() - keep;
                    let ghost sofar = event_views(out@);
                    let ghost before = self@;
                    self.emit(emit_to, &mut out);
                    self.carry = text::tail_chars(&self.carry, emit_to);
                    assert(scan(before) == settle(before));
                    assert(event_views(out@) =~= sofar + settle(before).0);
                    break;
                },
            }
        }
        out
    }

    /// Drain the text held back at the end of the stream (this handles
    /// unterminated tags).
    fn flush(&mut self) -> (r: Vec<StreamEvent>)
        requires
            settled(old(self)@),
        ensures
            event_views(r@) == flushed(old(self)@),
            final(self)@ == fresh(old(self)@.detect),
            settled(final(self)@),
    {
        let mut out: Vec<StreamEvent> = Vec::new();
        let n = self.carry.len();
        match self.section {
            Section::Answer => {
                self.emit(n, &mut out);
            },
            Section::Think => {
                self.emit(n, &mut out);
                out.push(StreamEvent::ThinkEnd);
            },
            Section::Run => {
                append_chars(&mut self.fence_buf, &self.carry, n);
                assert(self@.fence =~= old(self)@.fence + old(self)@.carry);
                let m = self.fence_buf.len();
                if m > 0 {
                    out.push(StreamEvent::AnswerDelta(text::slice_text(&self.fence_buf, 0, m)));
                    assert(self@.fence.subrange(0, m as int) =~= self@.fence);
                }
            },
        }
        assert(old(self)@.carry.take(n as int) =~= old(self)@.carry);
        assert(event_views(out@) =~= flushed(old(self)@));
        self.carry = Vec::new();
        self.fence_buf = Vec::new();
        self.section = Section::Answer;
        assert(self@.carry =~= seq![]);
        assert(self@.fence =~= seq![]);
        proof {
            lemma_fresh_settled(self.detect_commands);
        }
        out
    }
}

/// The incremental parser. Between two calls it holds back nothing but what could be
/// the start of a marker.
#[derive(Debug)]
pub struct StreamParser {
    scanner: Scanner,
}

impl View for StreamParser {
    type V = ScanState;

    closed spec fn view(&self) -> ScanState {
        self.scanner@
    }
}

impl Default for StreamParser {
    fn default() -> (r: Self)
        ensures
            r@ == fresh(true),
            settled(r@),
    {
        StreamParser::new(true)
    }
}

impl StreamParser {
    #[verifier::type_invariant]
    closed spec fn between_calls(&self) -> bool {
        settled(self.scanner@)
    }

    pub fn new(detect_commands: bool) -> (r: Self)
        ensures
            r@ == fresh(detect_commands),
            settled(r@),
    {
        StreamParser { scanner: Scanner::new(detect_commands) }
    }

    /// Feed text from a separate reasoning field: always reasoning, no inline
    /// markers.
    pub fn push_reasoning(&self, text: &str) -> (r: Vec<StreamEvent>)
        ensures
            event_views(r@) == think_delta(text@),
    {
        let mut out: Vec<StreamEvent> = Vec::new();
        if !text.is_empty() {
            out.push(StreamEvent::ThinkDelta(text.to_owned()));
        }
        assert(event_views(out@) =~= think_delta(text@));
        out
    }

    /// Feed a chunk of the reply. Returns the events it completes.
    pub fn push(&mut self, text: &str) -> (r: Vec<StreamEvent>)
        ensures
            (event_views(r@), final(self)@) == scan(arrived(old(self)@, text@)),
            settled(final(self)@),
    {
        proof {
            use_type_invariant(&*self);
        }
        let mut scanner = Scanner::new(true);
        std::mem::swap(&mut scanner, &mut self.scanner);
        let out = scanner.push(text);
        self.scanner = scanner;
        out
    }

    /// Drain the text held back at the end of the stream (this handles
    /// unterminated tags).
    pub fn flush(&mut self) -> (r: Vec<StreamEvent>)
        ensures
            event_views(r@) == flushed(old(self)@),
            final(self)@ == fresh(old(self)@.detect),
            settled(final(self)@),
    {
        proof {
            use_type_invariant(&*self);
        }
        let mut scanner = Scanner::new(true);
        std::mem::swap(&mut scanner, &mut self.scanner);
        let out = scanner.flush();
        self.scanner = scanner;
        out
    }
}

/// A body stays free of closing fences as text without one is appended.
pub proof fn lemma_body_joined(body: Seq<char>, more: Seq<char>)
    requires
        !text::contains(body, fence_close()),
        !text::ends_with_char(body, '`'),
        !text::contains(more, fence_close()),
    ensures
        !text::contains(body + more, fence_close()),
{
    let all = body + more;
    let n = body.len() as int;
    assert forall|q: int| !text::occurs_at(all, fence_close(), q) by {
        if text::occurs_at(all, fence_close(), q) {
            let here = all.subrange(q, q + 3);
            if q + 3 <= n {
                assert(body.subrange(q, q + 3) =~= here);
                assert(text::occurs_at(body, fence_close(), q));
            } else if n <= q {
                assert(more.subrange(q - n, q - n + 3) =~= here);
                assert(text::occurs_at(more, fence_close(), q - n));
            } else {
                assert(here[n - 1 - q] == all[n - 1]);
                assert(body.last() == '`');
            }
        }
    }
}

/// Where no closing fence stands in a text, what is not held back of it does not end with
/// the start of one.
proof fn lemma_settled_body(carry: Seq<char>, detect: bool)
    requires
        !has_marker(carry, markers(Section::Run, detect)),
    ensures
        ({
            let out = carry.take(carry.len() - held(carry, markers(Section::Run, detect)));
            &&& !text::contains(out, fence_close())
            &&& !text::ends_with_char(out, '`')
        }),
{
    let ms = markers(Section::Run, detect);
    let close = fence_close();
    assert(ms[0] == close);
    lemma_held(carry, ms);
    let h = held(carry, ms);
    let cut = carry.len() - h;
    let out = carry.take(cut);
    assert forall|q: int| !text::occurs_at(out, close, q) by {
        if text::occurs_at(out, close, q) {
            assert(carry.subrange(q, q + 3) =~= out.subrange(q, q + 3));
            assert(text::occurs_at(carry, ms[0], q));
        }
    }
    if text::ends_with_char(out, '`') {
        let tail = carry.skip(cut - 1);
        if h > 0 {
            let k = choose|k: int|
                0 <= k < ms.len() && h < ms[k].len() && #[trigger] ms[k].take(h) == carry.skip(
                    carry.len() - h,
                );
            assert(close.take(h) == carry.skip(cut));
        }
        assert forall|i: int| 0 <= i < h + 1 implies tail[i] == '`' by {
            if i > 0 {
                assert(carry.skip(cut)[i - 1] == close.take(h)[i - 1]);
            } else {
                assert(out.last() == carry[cut - 1]);
            }
        }
        assert(h < 3);
        if h == 2 {
            assert(carry.subrange(cut - 1, cut - 1 + 3) =~= close);
            assert(text::occurs_at(carry, ms[0], cut - 1));
        } else {
            assert(ms[0].take(h + 1) =~= carry.skip(carry.len() - (h + 1)));
            assert(is_partial(carry, ms, h + 1));
        }
    }
}

/// What is left after a scan is settled.
pub proof fn lemma_scan_settled(st: ScanState)
    requires
        sound_body(st),
    ensures
        settled(scan(st).1),
        scan(st).1.detect == st.detect,
    decreases st.carry.len(),
{
    let ms = markers(st.section, st.detect);
    lemma_next(st.carry, ms);
    match next_marker(st.carry, ms) {
        Some((p, k)) => {
            lemma_over_marker_shortens(st);
            assert(st.fence.len() == 0 ==> !text::contains(st.fence, fence_close()));
            lemma_scan_settled(over_marker(st, p, k).1);
        },
        None => {
            lemma_held(st.carry, ms);
            let h = held(st.carry, ms);
            let cut = st.carry.len() - h;
            let rest = st.carry.skip(cut);
            assert forall|q: int, j: int| 0 <= j < ms.len() implies !#[trigger] text::occurs_at(
                rest,
                ms[j],
                q,
            ) by {
                if text::occurs_at(rest, ms[j], q) {
                    assert(st.carry.subrange(q + cut, q + cut + ms[j].len()) =~= rest.subrange(
                        q,
                        q + ms[j].len(),
                    ));
                    assert(text::occurs_at(st.carry, ms[j], q + cut));
                }
            }
            if h > 0 {
                let k = choose|k: int|
                    0 <= k < ms.len() && h < ms[k].len() && #[trigger] ms[k].take(h)
                        == st.carry.skip(st.carry.len() - h);
                assert(rest.skip(rest.len() - h) =~= rest);
                assert(ms[k].take(h) == rest.skip(rest.len() - h));
                assert(is_partial(rest, ms, h));
            }
            assert(is_held(rest, ms, rest.len() as int));
            if st.section == Section::Run {
                lemma_settled_body(st.carry, st.detect);
                let out = st.carry.take(cut);
                lemma_body_joined(st.fence, out);
                if out.len() == 0 {
                    assert(st.fence + out =~= st.fence);
                } else {
                    assert((st.fence + out).last() == out.last());
                }
            }
        },
    }
}

} // verus!
