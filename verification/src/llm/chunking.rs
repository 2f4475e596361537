//! What the stream parser promises of whole replies: how a reply is cut into
//! chunks makes no difference, no marker is taken for text, no text is lost, and
//! reasoning stands between its start and its end.

use crate::llm::stream;
use crate::llm::stream::{EventView, ScanState, Section};
use crate::text;
use vstd::prelude::*;

verus! {

/// One character of text, by its code point, or one event that carries no text.
pub enum Token {
    Answer(int),
    Think(int),
    ThinkStart,
    ThinkEnd,
    ToolCall(Seq<char>),
    Done,
    Error(Seq<char>),
}

pub open spec fn answer_tokens(s: Seq<char>) -> Seq<Token>
    decreases s.len(),
{
    if s.len() == 0 {
        seq![]
    } else {
        answer_tokens(s.drop_last()).push(Token::Answer(s.last() as int))
    }
}

pub open spec fn think_tokens(s: Seq<char>) -> Seq<Token>
    decreases s.len(),
{
    if s.len() == 0 {
        seq![]
    } else {
        think_tokens(s.drop_last()).push(Token::Think(s.last() as int))
    }
}

pub open spec fn tokens_of(e: EventView) -> Seq<Token> {
    match e {
        EventView::AnswerDelta(s) => answer_tokens(s),
        EventView::ThinkDelta(s) => think_tokens(s),
        EventView::ThinkStart => seq![Token::ThinkStart],
        EventView::ThinkEnd => seq![Token::ThinkEnd],
        EventView::ToolCall(c) => seq![Token::ToolCall(c)],
        EventView::Done => seq![Token::Done],
        EventView::Error(s) => seq![Token::Error(s)],
    }
}

/// What a list of events says, whatever pieces its text is cut into.
pub open spec fn tokens(evs: Seq<EventView>) -> Seq<Token>
    decreases evs.len(),
{
    if evs.len() == 0 {
        seq![]
    } else {
        tokens(evs.drop_last()) + tokens_of(evs.last())
    }
}

/// Two states that no later text tells apart: they differ at most in the white
/// space at the start of a run block.
pub open spec fn alike(a: ScanState, b: ScanState) -> bool {
    &&& a.section == b.section
    &&& a.carry == b.carry
    &&& a.detect == b.detect
    &&& text::trim_start(a.fence) == text::trim_start(b.fence)
}

/// Outside run blocks there is no body of one.
pub open spec fn tidy(st: ScanState) -> bool {
    st.section != Section::Run ==> st.fence.len() == 0
}

/// The events of a list of chunks, and the state behind them.
pub open spec fn feed_all(st: ScanState, chunks: Seq<Seq<char>>) -> (Seq<EventView>, ScanState)
    decreases chunks.len(),
{
    if chunks.len() == 0 {
        (seq![], st)
    } else {
        let (before, mid) = feed_all(st, chunks.drop_last());
        let (evs, end) = stream::scan(stream::arrived(mid, chunks.last()));
        (before + evs, end)
    }
}

/// The chunks put together.
pub open spec fn joined(chunks: Seq<Seq<char>>) -> Seq<char>
    decreases chunks.len(),
{
    if chunks.len() == 0 {
        seq![]
    } else {
        joined(chunks.drop_last()) + chunks.last()
    }
}

proof fn lemma_tokens_add(a: Seq<EventView>, b: Seq<EventView>)
    ensures
        tokens(a + b) == tokens(a) + tokens(b),
    decreases b.len(),
{
    if b.len() == 0 {
        assert(a + b =~= a);
    } else {
        lemma_tokens_add(a, b.drop_last());
        assert((a + b).drop_last() =~= a + b.drop_last());
    }
    assert(tokens(a + b) =~= tokens(a) + tokens(b));
}

proof fn lemma_tokens_one(e: EventView)
    ensures
        tokens(seq![e]) == tokens_of(e),
{
    reveal_with_fuel(tokens, 2);
    assert(seq![e].drop_last() =~= seq![]);
    assert(tokens(seq![e]) =~= tokens_of(e));
}

proof fn lemma_tokens_text(s: Seq<char>)
    ensures
        tokens(stream::answer_delta(s)) == answer_tokens(s),
        tokens(stream::think_delta(s)) == think_tokens(s),
{
    lemma_tokens_one(EventView::AnswerDelta(s));
    lemma_tokens_one(EventView::ThinkDelta(s));
    assert(tokens(stream::answer_delta(s)) =~= answer_tokens(s));
    assert(tokens(stream::think_delta(s)) =~= think_tokens(s));
}

proof fn lemma_text_tokens_add(a: Seq<char>, b: Seq<char>)
    ensures
        answer_tokens(a + b) == answer_tokens(a) + answer_tokens(b),
        think_tokens(a + b) == think_tokens(a) + think_tokens(b),
    decreases b.len(),
{
    if b.len() == 0 {
        assert(a + b =~= a);
    } else {
        lemma_text_tokens_add(a, b.drop_last());
        assert((a + b).drop_last() =~= a + b.drop_last());
    }
    assert(answer_tokens(a + b) =~= answer_tokens(a) + answer_tokens(b));
    assert(think_tokens(a + b) =~= think_tokens(a) + think_tokens(b));
}

/// Text cut in two says the same as the text.
proof fn lemma_tokens_cut(a: Seq<char>, b: Seq<char>, tail: Seq<EventView>)
    ensures
        tokens(stream::answer_delta(a + b) + tail) == tokens(stream::answer_delta(a)) + tokens(
            stream::answer_delta(b) + tail,
        ),
        tokens(stream::think_delta(a + b) + tail) == tokens(stream::think_delta(a)) + tokens(
            stream::think_delta(b) + tail,
        ),
{
    lemma_tokens_text(a);
    lemma_tokens_text(b);
    lemma_tokens_text(a + b);
    lemma_tokens_add(stream::answer_delta(a + b), tail);
    lemma_tokens_add(stream::answer_delta(b), tail);
    lemma_tokens_add(stream::think_delta(a + b), tail);
    lemma_tokens_add(stream::think_delta(b), tail);
    lemma_text_tokens_add(a, b);
    assert(tokens(stream::answer_delta(a + b) + tail) =~= tokens(stream::answer_delta(a)) + tokens(
        stream::answer_delta(b) + tail,
    ));
    assert(tokens(stream::think_delta(a + b) + tail) =~= tokens(stream::think_delta(a)) + tokens(
        stream::think_delta(b) + tail,
    ));
}

/// Trimming the start looks no further than the first character that stays.
proof fn lemma_trim_start_add(f: Seq<char>, x: Seq<char>)
    ensures
        text::trim_start(f + x) == if text::blank(f) {
            text::trim_start(x)
        } else {
            text::trim_start(f) + x
        },
    decreases f.len(),
{
    if f.len() == 0 {
        assert(f + x =~= x);
    } else if text::is_white(f[0]) {
        lemma_trim_start_add(f.drop_first(), x);
        assert((f + x).drop_first() =~= f.drop_first() + x);
        assert(text::blank(f) <==> text::blank(f.drop_first())) by {
            assert(forall|i: int| 0 <= i < f.drop_first().len() ==> f.drop_first()[i] == f[i + 1]);
            if text::blank(f.drop_first()) {
                assert forall|i: int| 0 <= i < f.len() implies text::is_white(#[trigger] f[i]) by {
                    if i > 0 {
                        assert(text::is_white(f.drop_first()[i - 1]));
                    }
                }
            }
        }
    } else {
        assert((f + x)[0] == f[0]);
        assert(!text::blank(f));
    }
}

/// Bodies that are alike stay alike as text is appended, and give one command.
proof fn lemma_alike_bodies(f: Seq<char>, g: Seq<char>, x: Seq<char>)
    requires
        text::trim_start(f) == text::trim_start(g),
    ensures
        text::trim_start(f + x) == text::trim_start(g + x),
        text::trim(f + x) == text::trim(g + x),
{
    lemma_trim_start_add(f, x);
    lemma_trim_start_add(g, x);
    text::lemma_blank_trim(f);
    text::lemma_blank_trim(g);
}

/// States that are alike give the same events and states that are alike.
proof fn lemma_alike(a: ScanState, b: ScanState)
    requires
        alike(a, b),
    ensures
        stream::scan(a).0 == stream::scan(b).0,
        alike(stream::scan(a).1, stream::scan(b).1),
    decreases a.carry.len(),
{
    let ms = stream::markers(a.section, a.detect);
    match stream::next_marker(a.carry, ms) {
        Some((p, k)) => {
            stream::lemma_over_marker_shortens(a);
            lemma_alike_bodies(a.fence, b.fence, a.carry.take(p));
            lemma_alike(stream::over_marker(a, p, k).1, stream::over_marker(b, p, k).1);
        },
        None => {
            let cut = a.carry.len() - stream::held(a.carry, ms);
            lemma_alike_bodies(a.fence, b.fence, a.carry.take(cut));
        },
    }
}

/// A marker found stays the next one when text is appended.
proof fn lemma_next_stays(section: Section, detect: bool, c: Seq<char>, b: Seq<char>, p: int, k: int)
    requires
        stream::is_next(c, stream::markers(section, detect), p, k),
    ensures
        stream::is_next(c + b, stream::markers(section, detect), p, k),
{
    let ms = stream::markers(section, detect);
    let e = c + b;
    assert(e.subrange(p, p + ms[k].len()) =~= c.subrange(p, p + ms[k].len()));
    assert forall|q: int, j: int|
        0 <= j < ms.len() && #[trigger] text::occurs_at(e, ms[j], q) implies p < q || (p == q && k
        <= j) by {
        if q + ms[j].len() <= c.len() {
            assert(c.subrange(q, q + ms[j].len()) =~= e.subrange(q, q + ms[j].len()));
            assert(text::occurs_at(c, ms[j], q));
        } else {
            assert(c.subrange(p, p + ms[k].len())[0] == ms[k][0]);
            assert(e.subrange(q, q + ms[j].len())[0] == ms[j][0]);
        }
    }
}

/// Where no marker stands in `c`, every marker of `c` with text appended starts in
/// the tail that is held back.
proof fn lemma_occurs_in_tail(ms: Seq<Seq<char>>, c: Seq<char>, b: Seq<char>, q: int, j: int)
    requires
        !stream::has_marker(c, ms),
        0 <= j < ms.len(),
        text::occurs_at(c + b, ms[j], q),
    ensures
        ({
            let cut = c.len() - stream::held(c, ms);
            q >= cut && text::occurs_at(c.skip(cut) + b, ms[j], q - cut)
        }),
{
    stream::lemma_held(c, ms);
    let cut = c.len() - stream::held(c, ms);
    let e = c + b;
    let d = c.skip(cut) + b;
    if q < cut {
        if q + ms[j].len() <= c.len() {
            assert(c.subrange(q, q + ms[j].len()) =~= e.subrange(q, q + ms[j].len()));
            assert(text::occurs_at(c, ms[j], q));
        } else {
            let n = c.len() - q;
            assert(c.skip(c.len() - n) =~= e.subrange(q, q + ms[j].len()).take(n));
            assert(ms[j].take(n) == c.skip(c.len() - n));
            assert(stream::is_partial(c, ms, n));
        }
    } else {
        assert(d.subrange(q - cut, q - cut + ms[j].len()) =~= e.subrange(q, q + ms[j].len()));
    }
}

/// And so does every start of a marker at the end.
proof fn lemma_partial_in_tail(ms: Seq<Seq<char>>, c: Seq<char>, b: Seq<char>, n: int)
    ensures
        ({
            let d = c.skip(c.len() - stream::held(c, ms)) + b;
            stream::is_partial(d, ms, n) == stream::is_partial(c + b, ms, n)
        }),
{
    stream::lemma_held(c, ms);
    let e = c + b;
    let d = c.skip(c.len() - stream::held(c, ms)) + b;
    if 0 <= n <= d.len() {
        assert(e.skip(e.len() - n) =~= d.skip(d.len() - n));
    } else if d.len() < n <= e.len() && stream::is_partial(e, ms, n) {
        let k = choose|k: int|
            0 <= k < ms.len() && n < ms[k].len() && #[trigger] ms[k].take(n) == e.skip(e.len() - n);
        let q = e.len() - n;
        let m = c.len() - q;
        assert(c.skip(c.len() - m) =~= e.skip(q).take(m));
        assert(ms[k].take(m) =~= ms[k].take(n).take(m));
        assert(ms[k].take(m) == c.skip(c.len() - m));
        assert(stream::is_partial(c, ms, m));
    }
}

/// Where no marker stands in `c`, the tail that is held back decides about the text
/// to come.
proof fn lemma_tail_suffices(ms: Seq<Seq<char>>, c: Seq<char>, b: Seq<char>)
    requires
        !stream::has_marker(c, ms),
    ensures
        ({
            let cut = c.len() - stream::held(c, ms);
            let e = c + b;
            let d = c.skip(cut) + b;
            &&& 0 <= cut <= c.len()
            &&& e == c.take(cut) + d
            &&& match stream::next_marker(d, ms) {
                Some((p, k)) => stream::next_marker(e, ms) == Some((p + cut, k)),
                None => stream::next_marker(e, ms) is None && stream::held(e, ms) == stream::held(
                    d,
                    ms,
                ),
            }
        }),
{
    stream::lemma_held(c, ms);
    let cut = c.len() - stream::held(c, ms);
    let e = c + b;
    let d = c.skip(cut) + b;
    assert(e =~= c.take(cut) + d);
    stream::lemma_next(e, ms);
    stream::lemma_next(d, ms);
    match stream::next_marker(d, ms) {
        Some((p, k)) => {
            assert(e.subrange(p + cut, p + cut + ms[k].len()) =~= d.subrange(p, p + ms[k].len()));
            assert(text::occurs_at(e, ms[k], p + cut));
            assert forall|q: int, j: int|
                0 <= j < ms.len() && #[trigger] text::occurs_at(e, ms[j], q) implies p + cut < q
                || (p + cut == q && k <= j) by {
                lemma_occurs_in_tail(ms, c, b, q, j);
            }
            assert(stream::is_next(e, ms, p + cut, k));
        },
        None => {
            if stream::has_marker(e, ms) {
                let (q, j) = choose|q: int, j: int|
                    0 <= j < ms.len() && #[trigger] text::occurs_at(e, ms[j], q);
                lemma_occurs_in_tail(ms, c, b, q, j);
            }
            assert forall|n: int| stream::is_partial(d, ms, n) == stream::is_partial(e, ms, n) by {
                lemma_partial_in_tail(ms, c, b, n);
            }
            stream::lemma_held(e, ms);
            stream::lemma_held(d, ms);
            assert(stream::is_held(d, ms, stream::held(e, ms)));
        },
    }
}

/// In a run block, text without a backtick can be taken for part of the body.
proof fn lemma_body_grows(st: ScanState, w: Seq<char>, c: Seq<char>)
    requires
        st.section == Section::Run,
        forall|i: int| 0 <= i < w.len() ==> #[trigger] w[i] != '`',
    ensures
        stream::scan(ScanState { carry: w + c, ..st }) == stream::scan(
            ScanState { carry: c, fence: st.fence + w, ..st },
        ),
{
    let ms = stream::markers(Section::Run, st.detect);
    let n = w.len() as int;
    let e = w + c;
    stream::lemma_next(e, ms);
    stream::lemma_next(c, ms);
    assert(ms[0] == stream::fence_close());
    assert forall|q: int| #[trigger] text::occurs_at(e, ms[0], q) implies q >= n && text::occurs_at(
        c,
        ms[0],
        q - n,
    ) by {
        assert(e.subrange(q, q + 3)[0] == e[q]);
        if q < n {
            assert(w[q] == e[q]);
        } else {
            assert(c.subrange(q - n, q - n + 3) =~= e.subrange(q, q + 3));
        }
    }
    match stream::next_marker(c, ms) {
        Some((p, k)) => {
            assert(k == 0);
            assert(e.subrange(p + n, p + n + 3) =~= c.subrange(p, p + 3));
            assert(text::occurs_at(e, ms[0], p + n));
            assert forall|q: int, j: int|
                0 <= j < ms.len() && #[trigger] text::occurs_at(e, ms[j], q) implies p + n < q || (p
                + n == q && 0 <= j) by {
                assert(j == 0);
                assert(text::occurs_at(c, ms[0], q - n));
            }
            assert(stream::is_next(e, ms, p + n, 0));
            assert(st.fence + e.take(p + n) =~= (st.fence + w) + c.take(p));
            assert(e.skip(p + n + 3) =~= c.skip(p + 3));
        },
        None => {
            if stream::has_marker(e, ms) {
                let (q, j) = choose|q: int, j: int|
                    0 <= j < ms.len() && #[trigger] text::occurs_at(e, ms[j], q);
                assert(j == 0);
                assert(text::occurs_at(c, ms[0], q - n));
            }
            assert forall|m: int| stream::is_partial(e, ms, m) == stream::is_partial(c, ms, m) by {
                if 0 <= m <= c.len() {
                    assert(e.skip(e.len() - m) =~= c.skip(c.len() - m));
                } else if c.len() < m <= e.len() && stream::is_partial(e, ms, m) {
                    let k = choose|k: int|
                        0 <= k < ms.len() && m < ms[k].len() && #[trigger] ms[k].take(m) == e.skip(
                            e.len() - m,
                        );
                    assert(e.skip(e.len() - m)[0] == e[e.len() - m]);
                    assert(ms[k].take(m)[0] == '`');
                    assert(w[e.len() - m] == e[e.len() - m]);
                }
            }
            stream::lemma_held(e, ms);
            stream::lemma_held(c, ms);
            let h = stream::held(c, ms);
            assert(stream::is_held(e, ms, h));
            assert(st.fence + e.take(e.len() - h) =~= (st.fence + w) + c.take(c.len() - h));
            assert(e.skip(e.len() - h) =~= c.skip(c.len() - h));
        },
    }
}

/// The line break behind the start of a run block: it is the same to the block
/// whether it comes in one chunk with the marker or later.
proof fn lemma_line_break_later(st: ScanState, rest: Seq<char>, b: Seq<char>)
    requires
        st.section == Section::Run,
        st.fence.len() == 0,
        stream::drop_line_break(rest + b) != stream::drop_line_break(rest) + b,
    ensures
        ({
            let whole = stream::scan(
                ScanState { carry: stream::drop_line_break(rest + b), ..st },
            );
            let first = stream::scan(ScanState { carry: stream::drop_line_break(rest), ..st });
            let second = stream::scan(stream::arrived(first.1, b));
            &&& first.0.len() == 0
            &&& whole.0 == second.0
            &&& alike(whole.1, second.1)
        }),
{
    let all = rest + b;
    let c = stream::drop_line_break(all);
    if rest.len() >= 1 {
        assert(all[0] == rest[0]);
    }
    if rest.len() >= 2 {
        assert(all[1] == rest[1]);
    }
    if rest.len() >= 1 && rest[0] == '\n' {
        assert(all.skip(1) =~= rest.skip(1) + b);
    } else if rest.len() >= 2 && rest[0] == '\r' && rest[1] == '\n' {
        assert(all.skip(2) =~= rest.skip(2) + b);
    } else if c == all {
        assert(false);
    }
    // What is left: `rest` is empty or a lone carriage return.
    let nl = all.take(all.len() - c.len());
    assert(all =~= nl + c);
    assert(nl.len() == 1 || nl.len() == 2);
    assert(forall|i: int| 0 <= i < nl.len() ==> text::is_white(#[trigger] nl[i]) && nl[i] != '`');
    assert(rest.len() < nl.len());
    let before = ScanState { carry: rest, ..st };
    let none: Seq<char> = seq![];
    assert(rest + none =~= rest);
    assert(rest =~= nl.take(rest.len() as int));
    assert forall|i: int| 0 <= i < rest.len() implies #[trigger] rest[i] != '`' by {
        assert(rest[i] == nl[i]);
    }
    lemma_body_grows(st, rest, none);
    let start = ScanState { carry: none, fence: st.fence + rest, ..st };
    lemma_settled_scan(start);
    let w = nl.skip(rest.len() as int);
    assert(b =~= w + c) by {
        assert(b =~= all.skip(rest.len() as int));
    }
    assert forall|i: int| 0 <= i < w.len() implies #[trigger] w[i] != '`' by {
        assert(w[i] == nl[i + rest.len()]);
    }
    assert(start.carry + b =~= b);
    lemma_body_grows(start, w, c);
    assert((st.fence + rest) + w =~= nl);
    assert(text::blank(nl));
    text::lemma_blank_trim(nl);
    text::lemma_blank_trim(st.fence);
    assert(text::trim_start(nl) =~= text::trim_start(st.fence));
    lemma_alike(
        ScanState { carry: c, ..st },
        ScanState { carry: c, fence: (st.fence + rest) + w, ..st },
    );
}

/// A settled state gives nothing and stays as it is.
proof fn lemma_settled_scan(st: ScanState)
    requires
        st.section == Section::Run && st.carry.len() == 0 || stream::settled(st),
    ensures
        stream::scan(st).0.len() == 0,
        stream::scan(st).1 == st,
{
    let ms = stream::markers(st.section, st.detect);
    stream::lemma_next(st.carry, ms);
    stream::lemma_held(st.carry, ms);
    assert(stream::is_held(st.carry, ms, st.carry.len() as int));
    assert(st.carry.skip(0) =~= st.carry);
    assert(st.fence + st.carry.take(0) =~= st.fence);
}

/// Text that arrives in two pieces gives what it gives in one.
proof fn lemma_split(st: ScanState, b: Seq<char>)
    requires
        tidy(st),
    ensures
        ({
            let first = stream::scan(st);
            let second = stream::scan(stream::arrived(first.1, b));
            let whole = stream::scan(stream::arrived(st, b));
            &&& tokens(whole.0) == tokens(first.0) + tokens(second.0)
            &&& alike(whole.1, second.1)
        }),
    decreases st.carry.len(),
{
    let ms = stream::markers(st.section, st.detect);
    let c = st.carry;
    let all = stream::arrived(st, b);
    stream::lemma_next(c, ms);
    match stream::next_marker(c, ms) {
        Some((p, k)) => {
            stream::lemma_over_marker_shortens(st);
            lemma_next_stays(st.section, st.detect, c, b, p, k);
            stream::lemma_next(c + b, ms);
            let len = ms[k].len();
            assert((c + b).take(p) =~= c.take(p));
            assert((c + b).skip(p + len) =~= c.skip(p + len) + b);
            let (evs, next) = stream::over_marker(st, p, k);
            let (evs2, next2) = stream::over_marker(all, p, k);
            assert(evs == evs2);
            let first = stream::scan(next);
            let second = stream::scan(stream::arrived(first.1, b));
            lemma_tokens_add(evs, first.0);
            lemma_tokens_add(evs, stream::scan(next2).0);
            if next2 == stream::arrived(next, b) {
                lemma_split(next, b);
            } else {
                assert(st.section == Section::Answer && k != 0);
                lemma_line_break_later(
                    ScanState { section: Section::Run, ..st },
                    c.skip(p + len),
                    b,
                );
                assert(tokens(first.0) =~= seq![]);
            }
            assert(tokens(evs + stream::scan(next2).0) =~= tokens(evs + first.0) + tokens(second.0));
        },
        None => {
            lemma_tail_suffices(ms, c, b);
            lemma_split_settle(st, b);
        },
    }
}

/// The part of the above where the first piece completes no marker.
proof fn lemma_split_settle(st: ScanState, b: Seq<char>)
    requires
        stream::next_marker(st.carry, stream::markers(st.section, st.detect)) is None,
    ensures
        ({
            let first = stream::scan(st);
            let second = stream::scan(stream::arrived(first.1, b));
            let whole = stream::scan(stream::arrived(st, b));
            &&& tokens(whole.0) == tokens(first.0) + tokens(second.0)
            &&& whole.1 == second.1
        }),
{
    let ms = stream::markers(st.section, st.detect);
    let c = st.carry;
    stream::lemma_next(c, ms);
    lemma_tail_suffices(ms, c, b);
    let cut = c.len() - stream::held(c, ms);
    let e = c + b;
    let d = c.skip(cut) + b;
    let mid = stream::arrived(stream::settle(st).1, b);
    let all = stream::arrived(st, b);
    assert(mid.carry == d);
    stream::lemma_next(d, ms);
    match stream::next_marker(d, ms) {
        Some((p, k)) => {
            let len = ms[k].len();
            assert(e.take(p + cut) =~= c.take(cut) + d.take(p));
            assert(e.skip(p + cut + len) =~= d.skip(p + len));
            assert(st.fence + e.take(p + cut) =~= (st.fence + c.take(cut)) + d.take(p));
            let (evs, next) = stream::over_marker(mid, p, k);
            let (evs2, next2) = stream::over_marker(all, p + cut, k);
            assert(next == next2);
            let more = stream::scan(next).0;
            match st.section {
                Section::Answer => {
                    let tail = if k == 0 {
                        seq![EventView::ThinkStart] + more
                    } else {
                        more
                    };
                    lemma_tokens_cut(c.take(cut), d.take(p), tail);
                    assert(evs + more =~= stream::answer_delta(d.take(p)) + tail);
                    assert(evs2 + more =~= stream::answer_delta(c.take(cut) + d.take(p)) + tail);
                },
                Section::Think => {
                    let tail = seq![EventView::ThinkEnd] + more;
                    lemma_tokens_cut(c.take(cut), d.take(p), tail);
                    assert(evs + more =~= stream::think_delta(d.take(p)) + tail);
                    assert(evs2 + more =~= stream::think_delta(c.take(cut) + d.take(p)) + tail);
                },
                Section::Run => {
                    assert(evs == evs2);
                    assert(tokens(stream::settle(st).0) + tokens(evs + more) =~= tokens(
                        evs + more,
                    ));
                },
            }
        },
        None => {
            stream::lemma_held(d, ms);
            let h = stream::held(d, ms);
            let none: Seq<EventView> = seq![];
            assert(e.take(e.len() - h) =~= c.take(cut) + d.take(d.len() - h));
            assert(e.skip(e.len() - h) =~= d.skip(d.len() - h));
            assert(st.fence + e.take(e.len() - h) =~= (st.fence + c.take(cut)) + d.take(
                d.len() - h,
            ));
            lemma_tokens_cut(c.take(cut), d.take(d.len() - h), none);
            assert forall|x: Seq<EventView>| #[trigger] (x + none) =~= x by {}
            let x = d.take(d.len() - h);
            assert(stream::answer_delta(x) + none =~= stream::answer_delta(x));
            assert(stream::think_delta(x) + none =~= stream::think_delta(x));
            let y = c.take(cut) + x;
            assert(stream::answer_delta(y) + none =~= stream::answer_delta(y));
            assert(stream::think_delta(y) + none =~= stream::think_delta(y));
            assert(tokens(none) + tokens(none) =~= tokens(none));
        },
    }
}

/// Any chunks give what their text gives in one piece.
proof fn lemma_feed_all(st: ScanState, chunks: Seq<Seq<char>>)
    requires
        stream::settled(st),
    ensures
        ({
            let whole = stream::scan(stream::arrived(st, joined(chunks)));
            let fed = feed_all(st, chunks);
            &&& tokens(fed.0) == tokens(whole.0)
            &&& alike(fed.1, whole.1)
            &&& stream::settled(fed.1)
            &&& tidy(whole.1)
        }),
    decreases chunks.len(),
{
    if chunks.len() == 0 {
        assert(st.carry + joined(chunks) =~= st.carry);
        lemma_settled_scan(st);
    } else {
        let head = chunks.drop_last();
        let last = chunks.last();
        lemma_feed_all(st, head);
        let (before, mid) = feed_all(st, head);
        let sofar = stream::arrived(st, joined(head));
        let whole = stream::scan(sofar);
        lemma_alike(stream::arrived(mid, last), stream::arrived(whole.1, last));
        lemma_split(sofar, last);
        assert((st.carry + joined(head)) + last =~= st.carry + joined(chunks));
        lemma_tokens_add(before, stream::scan(stream::arrived(mid, last)).0);
        stream::lemma_scan_settled(stream::arrived(mid, last));
        stream::lemma_scan_settled(stream::arrived(st, joined(chunks)));
    }
}

/// How a text is cut into chunks makes no difference: any two ways give the same
/// answer text, the same reasoning and the same commands, in the same order, and
/// leave states that no later text tells apart.
pub proof fn law_chunking(st: ScanState, xs: Seq<Seq<char>>, ys: Seq<Seq<char>>)
    requires
        stream::settled(st),
        joined(xs) == joined(ys),
    ensures
        tokens(feed_all(st, xs).0) == tokens(feed_all(st, ys).0),
        alike(feed_all(st, xs).1, feed_all(st, ys).1),
{
    lemma_feed_all(st, xs);
    lemma_feed_all(st, ys);
}

/// Nor does it for a whole reply, the end of the stream counted in: unless the
/// reply ends inside a run block, any two ways of cutting it give the same. (The
/// body of an unfinished run block may keep or lose the line break it starts with.)
pub proof fn law_whole_reply(detect: bool, xs: Seq<Seq<char>>, ys: Seq<Seq<char>>)
    requires
        joined(xs) == joined(ys),
    ensures
        ({
            let (before_x, end_x) = feed_all(stream::fresh(detect), xs);
            let (before_y, end_y) = feed_all(stream::fresh(detect), ys);
            &&& end_x.section == end_y.section
            &&& end_x.section != Section::Run ==> tokens(before_x + stream::flushed(end_x))
                == tokens(before_y + stream::flushed(end_y))
            &&& end_x.section == Section::Run ==> text::trim_start(end_x.fence + end_x.carry)
                == text::trim_start(end_y.fence + end_y.carry)
        }),
{
    let st = stream::fresh(detect);
    stream::lemma_fresh_settled(detect);
    law_chunking(st, xs, ys);
    lemma_feed_all(st, xs);
    lemma_feed_all(st, ys);
    let (before_x, end_x) = feed_all(st, xs);
    let (before_y, end_y) = feed_all(st, ys);
    lemma_tokens_add(before_x, stream::flushed(end_x));
    lemma_tokens_add(before_y, stream::flushed(end_y));
    lemma_alike_bodies(end_x.fence, end_y.fence, end_x.carry);
}

/// An event in its proper form: text is never empty, a command is never empty and
/// carries no white space at its ends.
pub open spec fn proper(e: EventView) -> bool {
    match e {
        EventView::AnswerDelta(s) => s.len() > 0,
        EventView::ThinkDelta(s) => s.len() > 0,
        EventView::ToolCall(c) => c.len() > 0 && text::trim(c) == c,
        _ => true,
    }
}

/// The parser gives events in their proper form only.
pub proof fn law_proper_events(st: ScanState)
    ensures
        forall|i: int| 0 <= i < stream::scan(st).0.len() ==> proper(#[trigger] stream::scan(st).0[i]),
        forall|i: int| 0 <= i < stream::flushed(st).len() ==> proper(#[trigger] stream::flushed(st)[i]),
    decreases st.carry.len(),
{
    let ms = stream::markers(st.section, st.detect);
    match stream::next_marker(st.carry, ms) {
        Some((p, k)) => {
            stream::lemma_over_marker_shortens(st);
            text::lemma_trim_twice(st.fence + st.carry.take(p));
            let (evs, next) = stream::over_marker(st, p, k);
            law_proper_events(next);
            let more = stream::scan(next).0;
            assert forall|i: int| 0 <= i < (evs + more).len() implies proper(
                #[trigger] (evs + more)[i],
            ) by {
                if i < evs.len() {
                    assert((evs + more)[i] == evs[i]);
                } else {
                    assert((evs + more)[i] == more[i - evs.len()]);
                }
            }
        },
        None => {},
    }
}

/// An event that takes no marker for text: no answer text holds the start of reasoning or
/// (where run blocks are commands) of a run block, no reasoning holds its end, and a
/// command, which there is only where run blocks are commands, holds no closing fence.
/// It is none that speaks of the connection.
pub open spec fn clean(e: EventView, detect: bool) -> bool {
    match e {
        EventView::AnswerDelta(s) => {
            &&& !text::contains(s, stream::think_open())
            &&& detect ==> !text::contains(s, stream::run_open())
        },
        EventView::ThinkDelta(s) => !text::contains(s, stream::think_close()),
        EventView::ThinkStart => true,
        EventView::ThinkEnd => true,
        EventView::ToolCall(c) => detect && !text::contains(c, stream::fence_close()),
        EventView::Done => false,
        EventView::Error(_) => false,
    }
}

/// What stands in the first `n` characters stands in the whole.
proof fn lemma_contains_take(s: Seq<char>, n: int, pat: Seq<char>, p: int)
    requires
        0 <= n <= s.len(),
        text::occurs_at(s.take(n), pat, p),
    ensures
        text::occurs_at(s, pat, p),
{
    assert(s.subrange(p, p + pat.len()) =~= s.take(n).subrange(p, p + pat.len()));
}

/// The text before the next marker, or all of it where there is none, holds no marker.
proof fn lemma_no_marker_before(s: Seq<char>, ms: Seq<Seq<char>>, n: int)
    requires
        0 <= n <= s.len(),
        match stream::next_marker(s, ms) {
            Some((p, _)) => n == p,
            None => true,
        },
        forall|j: int| 0 <= j < ms.len() ==> (#[trigger] ms[j]).len() > 0,
    ensures
        forall|j: int| 0 <= j < ms.len() ==> !text::contains(s.take(n), #[trigger] ms[j]),
{
    stream::lemma_next(s, ms);
    assert forall|j: int| 0 <= j < ms.len() implies !text::contains(
        s.take(n),
        #[trigger] ms[j],
    ) by {
        if text::contains(s.take(n), ms[j]) {
            let q = choose|q: int| text::occurs_at(s.take(n), ms[j], q);
            lemma_contains_take(s, n, ms[j], q);
            assert(text::occurs_at(s, ms[j], q));
        }
    }
}

/// What stands in trimmed text stands in the text.
pub proof fn lemma_contains_trimmed(s: Seq<char>, pat: Seq<char>)
    ensures
        text::contains(text::trim_start(s), pat) ==> text::contains(s, pat),
        text::contains(text::trim_end(s), pat) ==> text::contains(s, pat),
    decreases s.len(),
{
    if s.len() > 0 && text::is_white(s[0]) {
        let rest = s.drop_first();
        lemma_contains_trimmed(rest, pat);
        if text::contains(rest, pat) {
            let p = choose|p: int| text::occurs_at(rest, pat, p);
            assert(s.subrange(p + 1, p + 1 + pat.len()) =~= rest.subrange(p, p + pat.len()));
            assert(text::occurs_at(s, pat, p + 1));
        }
    }
    if s.len() > 0 && text::is_white(s.last()) {
        let rest = s.drop_last();
        lemma_contains_trimmed(rest, pat);
        if text::contains(rest, pat) {
            let p = choose|p: int| text::occurs_at(rest, pat, p);
            assert(s.subrange(p, p + pat.len()) =~= rest.subrange(p, p + pat.len()));
            assert(text::occurs_at(s, pat, p));
        }
    }
}

/// The events of a scan take no marker for text.
proof fn lemma_clean_scan(st: ScanState)
    requires
        stream::sound_body(st),
    ensures
        forall|i: int|
            0 <= i < stream::scan(st).0.len() ==> clean(#[trigger] stream::scan(st).0[i], st.detect),
    decreases st.carry.len(),
{
    let ms = stream::markers(st.section, st.detect);
    let c = st.carry;
    stream::lemma_next(c, ms);
    match stream::next_marker(c, ms) {
        Some((p, k)) => {
            stream::lemma_over_marker_shortens(st);
            lemma_no_marker_before(c, ms, p);
            let (evs, next) = stream::over_marker(st, p, k);
            assert(ms[0].len() > 0 && !text::contains(c.take(p), ms[0]));
            if st.section == Section::Answer && st.detect {
                assert(!text::contains(c.take(p), ms[1]));
            }
            if st.section == Section::Run {
                let body = st.fence + c.take(p);
                stream::lemma_body_joined(st.fence, c.take(p));
                lemma_contains_trimmed(body, stream::fence_close());
                lemma_contains_trimmed(text::trim_start(body), stream::fence_close());
            }
            assert(st.fence.len() == 0 ==> !text::contains(st.fence, stream::fence_close()));
            lemma_clean_scan(next);
            let more = stream::scan(next).0;
            assert forall|i: int| 0 <= i < (evs + more).len() implies clean(
                #[trigger] (evs + more)[i],
                st.detect,
            ) by {
                if i < evs.len() {
                    assert((evs + more)[i] == evs[i]);
                } else {
                    assert((evs + more)[i] == more[i - evs.len()]);
                }
            }
        },
        None => {
            stream::lemma_held(c, ms);
            let cut = c.len() - stream::held(c, ms);
            lemma_no_marker_before(c, ms, cut);
            assert(!text::contains(c.take(cut), ms[0]));
            if st.section == Section::Answer && st.detect {
                assert(!text::contains(c.take(cut), ms[1]));
            }
        },
    }
}

/// Between two calls the parser stands where every push, whatever text arrives, gives only
/// events in their proper form that take no marker for text, and leaves it standing so.
pub proof fn law_clean_events(st: ScanState, arriving: Seq<char>)
    requires
        stream::settled(st),
    ensures
        ({
            let (evs, end) = stream::scan(stream::arrived(st, arriving));
            &&& forall|i: int|
                0 <= i < evs.len() ==> proper(#[trigger] evs[i]) && clean(evs[i], st.detect)
            &&& stream::settled(end)
            &&& end.detect == st.detect
        }),
{
    let all = stream::arrived(st, arriving);
    law_proper_events(all);
    lemma_clean_scan(all);
    stream::lemma_scan_settled(all);
}

/// The end of the stream takes no marker for text either, but in a run block that is not
/// finished: its body is answer text as it stands. It too holds no closing fence.
pub proof fn law_clean_flush(st: ScanState)
    requires
        stream::settled(st),
    ensures
        st.section != Section::Run ==> forall|i: int|
            0 <= i < stream::flushed(st).len() ==> clean(
                #[trigger] stream::flushed(st)[i],
                st.detect,
            ),
        st.section == Section::Run ==> !text::contains(
            st.fence + st.carry,
            stream::fence_close(),
        ),
{
    let ms = stream::markers(st.section, st.detect);
    assert forall|j: int| 0 <= j < ms.len() implies !text::contains(
        st.carry,
        #[trigger] ms[j],
    ) by {
        if text::contains(st.carry, ms[j]) {
            let q = choose|q: int| text::occurs_at(st.carry, ms[j], q);
            assert(text::occurs_at(st.carry, ms[j], q));
        }
    }
    assert(!text::contains(st.carry, ms[0]));
    if st.section == Section::Answer && st.detect {
        assert(!text::contains(st.carry, ms[1]));
    }
    if st.section == Section::Run {
        stream::lemma_body_joined(st.fence, st.carry);
    }
}

/// Where run blocks are ordinary text, no event is a command.
pub proof fn law_no_commands(st: ScanState)
    requires
        !st.detect,
        st.section != Section::Run,
    ensures
        forall|i: int|
            0 <= i < stream::scan(st).0.len() ==> !((#[trigger] stream::scan(st).0[i]) is ToolCall),
        stream::scan(st).1.section != Section::Run,
        !stream::scan(st).1.detect,
    decreases st.carry.len(),
{
    let ms = stream::markers(st.section, st.detect);
    stream::lemma_next(st.carry, ms);
    match stream::next_marker(st.carry, ms) {
        Some((p, k)) => {
            stream::lemma_over_marker_shortens(st);
            let (evs, next) = stream::over_marker(st, p, k);
            law_no_commands(next);
            let more = stream::scan(next).0;
            assert forall|i: int| 0 <= i < (evs + more).len() implies !((#[trigger] (evs + more)[i])
                is ToolCall) by {
                if i < evs.len() {
                    assert((evs + more)[i] == evs[i]);
                } else {
                    assert((evs + more)[i] == more[i - evs.len()]);
                }
            }
        },
        None => {},
    }
}

/// The text that events without a command stand for.
pub open spec fn source(evs: Seq<EventView>) -> Seq<char>
    decreases evs.len(),
{
    if evs.len() == 0 {
        seq![]
    } else {
        source(evs.drop_last()) + match evs.last() {
            EventView::AnswerDelta(s) => s,
            EventView::ThinkDelta(s) => s,
            EventView::ThinkStart => stream::think_open(),
            EventView::ThinkEnd => stream::think_close(),
            _ => seq![],
        }
    }
}

proof fn lemma_source_add(a: Seq<EventView>, b: Seq<EventView>)
    ensures
        source(a + b) == source(a) + source(b),
    decreases b.len(),
{
    if b.len() == 0 {
        assert(a + b =~= a);
    } else {
        lemma_source_add(a, b.drop_last());
        assert((a + b).drop_last() =~= a + b.drop_last());
    }
    assert(source(a + b) =~= source(a) + source(b));
}

proof fn lemma_source_one(e: EventView)
    ensures
        source(seq![e]) == match e {
            EventView::AnswerDelta(s) => s,
            EventView::ThinkDelta(s) => s,
            EventView::ThinkStart => stream::think_open(),
            EventView::ThinkEnd => stream::think_close(),
            _ => seq![],
        },
{
    reveal_with_fuel(source, 2);
    assert(seq![e].drop_last() =~= seq![]);
    assert(source(seq![e]) =~= match e {
        EventView::AnswerDelta(s) => s,
        EventView::ThinkDelta(s) => s,
        EventView::ThinkStart => stream::think_open(),
        EventView::ThinkEnd => stream::think_close(),
        _ => seq![],
    });
}

/// Where run blocks are ordinary text, nothing is lost and nothing is added: the
/// events and what is held back stand for the text that arrived.
pub proof fn law_nothing_lost(st: ScanState)
    requires
        !st.detect,
        st.section != Section::Run,
    ensures
        source(stream::scan(st).0) + stream::scan(st).1.carry == st.carry,
    decreases st.carry.len(),
{
    let ms = stream::markers(st.section, st.detect);
    stream::lemma_next(st.carry, ms);
    let c = st.carry;
    match stream::next_marker(c, ms) {
        Some((p, k)) => {
            stream::lemma_over_marker_shortens(st);
            let (evs, next) = stream::over_marker(st, p, k);
            let len = ms[k].len();
            law_nothing_lost(next);
            let (more, end) = stream::scan(next);
            lemma_source_add(evs, more);
            lemma_source_marker(st, p, k);
            assert(source(evs) == c.take(p + len));
            assert(next.carry == c.skip(p + len));
            assert(c.take(p + len) + (source(more) + end.carry) =~= (c.take(p + len) + source(more))
                + end.carry);
            assert(c =~= c.take(p + len) + c.skip(p + len));
        },
        None => {
            stream::lemma_held(c, ms);
            let cut = c.len() - stream::held(c, ms);
            lemma_source_text(c.take(cut));
            assert(c.take(cut) + c.skip(cut) =~= c);
        },
    }
}

/// Going over a marker keeps the text up to it and the marker.
proof fn lemma_source_marker(st: ScanState, p: int, k: int)
    requires
        !st.detect,
        st.section != Section::Run,
        stream::is_next(st.carry, stream::markers(st.section, st.detect), p, k),
    ensures
        source(stream::over_marker(st, p, k).0) == st.carry.take(
            p + stream::markers(st.section, st.detect)[k].len(),
        ),
{
    let ms = stream::markers(st.section, st.detect);
    let len = ms[k].len();
    let before = st.carry.take(p);
    assert(k == 0);
    lemma_source_text(before);
    lemma_source_one(EventView::ThinkStart);
    lemma_source_one(EventView::ThinkEnd);
    lemma_source_add(stream::answer_delta(before), seq![EventView::ThinkStart]);
    lemma_source_add(stream::think_delta(before), seq![EventView::ThinkEnd]);
    assert(st.carry.take(p + len) =~= before + st.carry.subrange(p, p + len));
}

proof fn lemma_source_text(s: Seq<char>)
    ensures
        source(stream::answer_delta(s)) == s,
        source(stream::think_delta(s)) == s,
{
    lemma_source_one(EventView::AnswerDelta(s));
    lemma_source_one(EventView::ThinkDelta(s));
    if s.len() == 0 {
        assert(s =~= seq![]);
    }
}

/// Where run blocks are ordinary text, a whole reply is kept: the events of all its chunks
/// and of the end of the stream stand for its text, and for nothing else but the end of
/// reasoning that the reply leaves open.
pub proof fn law_reply_is_kept(chunks: Seq<Seq<char>>)
    ensures
        ({
            let (evs, end) = feed_all(stream::fresh(false), chunks);
            source(evs + stream::flushed(end)) == joined(chunks) + if end.section
                == Section::Think {
                stream::think_close()
            } else {
                seq![]
            }
        }),
{
    let (evs, end) = feed_all(stream::fresh(false), chunks);
    lemma_chunks_kept(chunks);
    lemma_source_add(evs, stream::flushed(end));
    lemma_source_text(end.carry);
    lemma_source_one(EventView::ThinkEnd);
    lemma_source_add(stream::think_delta(end.carry), seq![EventView::ThinkEnd]);
    assert(source(evs) + (end.carry + stream::think_close()) =~= joined(chunks)
        + stream::think_close());
    assert(joined(chunks) + seq![] =~= joined(chunks));
}

/// The events of the chunks and what is held back stand for the text of the chunks.
proof fn lemma_chunks_kept(chunks: Seq<Seq<char>>)
    ensures
        ({
            let (evs, end) = feed_all(stream::fresh(false), chunks);
            &&& source(evs) + end.carry == joined(chunks)
            &&& end.section != Section::Run
            &&& !end.detect
        }),
    decreases chunks.len(),
{
    if chunks.len() == 0 {
        assert(source(seq![]) + stream::fresh(false).carry =~= joined(chunks));
    } else {
        lemma_chunks_kept(chunks.drop_last());
        let (before, mid) = feed_all(stream::fresh(false), chunks.drop_last());
        let all = stream::arrived(mid, chunks.last());
        let (evs, end) = stream::scan(all);
        law_no_commands(all);
        law_nothing_lost(all);
        lemma_source_add(before, evs);
        assert((source(before) + source(evs)) + end.carry =~= source(before) + (source(evs)
            + end.carry));
        assert(source(before) + (mid.carry + chunks.last()) =~= (source(before) + mid.carry)
            + chunks.last());
    }
}

/// Whether reasoning is open behind `e`, if it was (or was not) before it; nothing where
/// `e` is out of place: reasoning opens only where it is closed and closes only where it
/// is open, it stands where it is open, and everything else where it is closed.
pub open spec fn open_behind(open: bool, e: EventView) -> Option<bool> {
    match e {
        EventView::ThinkStart => if open {
            None
        } else {
            Some(true)
        },
        EventView::ThinkEnd => if open {
            Some(false)
        } else {
            None
        },
        EventView::ThinkDelta(_) => if open {
            Some(true)
        } else {
            None
        },
        _ => if open {
            None
        } else {
            Some(false)
        },
    }
}

/// Whether reasoning is open behind a list of events; nothing where one is out of place.
pub open spec fn open_after(open: bool, evs: Seq<EventView>) -> Option<bool>
    decreases evs.len(),
{
    if evs.len() == 0 {
        Some(open)
    } else {
        match open_after(open, evs.drop_last()) {
            Some(o) => open_behind(o, evs.last()),
            None => None,
        }
    }
}

proof fn lemma_open_add(open: bool, a: Seq<EventView>, b: Seq<EventView>)
    ensures
        open_after(open, a + b) == match open_after(open, a) {
            Some(o) => open_after(o, b),
            None => None,
        },
    decreases b.len(),
{
    if b.len() == 0 {
        assert(a + b =~= a);
    } else {
        lemma_open_add(open, a, b.drop_last());
        assert((a + b).drop_last() =~= a + b.drop_last());
    }
}

proof fn lemma_open_one(open: bool, e: EventView)
    ensures
        open_after(open, seq![e]) == open_behind(open, e),
{
    reveal_with_fuel(open_after, 2);
    assert(seq![e].drop_last() =~= seq![]);
}

/// Text stands where it belongs.
proof fn lemma_open_text(s: Seq<char>)
    ensures
        open_after(false, stream::answer_delta(s)) == Some(false),
        open_after(true, stream::think_delta(s)) == Some(true),
        open_after(false, stream::tool_call(s)) == Some(false),
{
    lemma_open_one(false, EventView::AnswerDelta(s));
    lemma_open_one(true, EventView::ThinkDelta(s));
    lemma_open_one(false, EventView::ToolCall(text::trim(s)));
}

/// The events of a scan stand in their places.
proof fn lemma_open_scan(st: ScanState)
    ensures
        open_after(st.section == Section::Think, stream::scan(st).0) == Some(
            stream::scan(st).1.section == Section::Think,
        ),
    decreases st.carry.len(),
{
    let ms = stream::markers(st.section, st.detect);
    let open = st.section == Section::Think;
    match stream::next_marker(st.carry, ms) {
        Some((p, k)) => {
            stream::lemma_over_marker_shortens(st);
            let (evs, next) = stream::over_marker(st, p, k);
            let before = st.carry.take(p);
            lemma_open_text(before);
            lemma_open_text(st.fence + before);
            lemma_open_one(false, EventView::ThinkStart);
            lemma_open_one(true, EventView::ThinkEnd);
            lemma_open_add(false, stream::answer_delta(before), seq![EventView::ThinkStart]);
            lemma_open_add(true, stream::think_delta(before), seq![EventView::ThinkEnd]);
            lemma_open_scan(next);
            lemma_open_add(open, evs, stream::scan(next).0);
        },
        None => {
            let cut = st.carry.len() - stream::held(st.carry, ms);
            lemma_open_text(st.carry.take(cut));
        },
    }
}

proof fn lemma_open_chunks(st: ScanState, chunks: Seq<Seq<char>>)
    ensures
        open_after(st.section == Section::Think, feed_all(st, chunks).0) == Some(
            feed_all(st, chunks).1.section == Section::Think,
        ),
    decreases chunks.len(),
{
    if chunks.len() > 0 {
        lemma_open_chunks(st, chunks.drop_last());
        let (before, mid) = feed_all(st, chunks.drop_last());
        let all = stream::arrived(mid, chunks.last());
        lemma_open_scan(all);
        lemma_open_add(st.section == Section::Think, before, stream::scan(all).0);
    }
}

/// In a whole reply the start and the end of reasoning alternate, reasoning stands between
/// them and all else outside, and the end of the stream leaves none open.
pub proof fn law_reasoning_is_bracketed(detect: bool, chunks: Seq<Seq<char>>)
    ensures
        ({
            let (evs, end) = feed_all(stream::fresh(detect), chunks);
            &&& open_after(false, evs) == Some(end.section == Section::Think)
            &&& open_after(false, evs + stream::flushed(end)) == Some(false)
        }),
{
    let (evs, end) = feed_all(stream::fresh(detect), chunks);
    lemma_open_chunks(stream::fresh(detect), chunks);
    lemma_open_add(false, evs, stream::flushed(end));
    lemma_open_text(end.carry);
    lemma_open_text(end.fence + end.carry);
    lemma_open_one(true, EventView::ThinkEnd);
    lemma_open_add(true, stream::think_delta(end.carry), seq![EventView::ThinkEnd]);
}

/// `text` as answer text: one event, or none where there is no text.
pub open spec fn as_answer(text: Seq<char>) -> Seq<EventView> {
    if text.len() == 0 {
        seq![]
    } else {
        seq![EventView::AnswerDelta(text)]
    }
}

/// `text` as reasoning: one event, or none where there is no text.
pub open spec fn as_reasoning(text: Seq<char>) -> Seq<EventView> {
    if text.len() == 0 {
        seq![]
    } else {
        seq![EventView::ThinkDelta(text)]
    }
}

/// Nothing in `text` starts reasoning or (where run blocks are commands) a run block.
pub open spec fn is_plain(text: Seq<char>, detect: bool) -> bool {
    &&& !text::contains(text, "<think>"@)
    &&& detect ==> !text::contains(text, "```run"@)
}

/// The parser's answer to `text` in one piece: the events, and the state behind them.
pub open spec fn reply_to(detect: bool, text: Seq<char>) -> (Seq<EventView>, ScanState) {
    stream::scan(stream::arrived(stream::fresh(detect), text))
}

/// The markers, as they are written.
proof fn lemma_markers_written()
    ensures
        "<think>"@ == stream::think_open(),
        "</think>"@ == stream::think_close(),
        "```run"@ == stream::run_open(),
        "```"@ == stream::fence_close(),
        "```run\n"@ == stream::run_open() + seq!['\n'],
        "\n```"@ == seq!['\n'] + stream::fence_close(),
{
    reveal_strlit("<think>");
    reveal_strlit("</think>");
    reveal_strlit("```run");
    reveal_strlit("```");
    reveal_strlit("```run\n");
    reveal_strlit("\n```");
    assert("<think>"@ =~= stream::think_open());
    assert("</think>"@ =~= stream::think_close());
    assert("```run"@ =~= stream::run_open());
    assert("```"@ =~= stream::fence_close());
    assert("```run\n"@ =~= stream::run_open() + seq!['\n']);
    assert("\n```"@ =~= seq!['\n'] + stream::fence_close());
}

/// The first marker of a section stands behind text that holds none. (Behind the body of a
/// run block, which must not end with the start of a closing fence.)
proof fn lemma_first_marker(
    section: Section,
    detect: bool,
    before: Seq<char>,
    k: int,
    behind: Seq<char>,
)
    requires
        0 <= k < stream::markers(section, detect).len(),
        forall|j: int|
            0 <= j < stream::markers(section, detect).len() ==> !text::contains(
                before,
                #[trigger] stream::markers(section, detect)[j],
            ),
        section == Section::Run ==> !text::ends_with_char(before, '`'),
    ensures
        stream::next_marker(
            before + stream::markers(section, detect)[k] + behind,
            stream::markers(section, detect),
        ) == Some((before.len() as int, k)),
{
    let ms = stream::markers(section, detect);
    let all = before + ms[k] + behind;
    let b = before.len() as int;
    assert(all.subrange(b, b + ms[k].len()) =~= ms[k]);
    assert(text::occurs_at(all, ms[k], b));
    assert forall|q: int, j: int|
        0 <= j < ms.len() && #[trigger] text::occurs_at(all, ms[j], q) implies b < q || (b == q && k
        <= j) by {
        let here = all.subrange(q, q + ms[j].len());
        if q < b {
            if q + ms[j].len() <= b {
                assert(before.subrange(q, q + ms[j].len()) =~= here);
                assert(text::occurs_at(before, ms[j], q));
                assert(text::contains(before, ms[j]));
            } else {
                let d = b - q;
                assert(here[d] == ms[k][0]);
                assert(ms[j][d] == ms[k][0]);
                if section == Section::Run {
                    assert(here[d - 1] == before[b - 1]);
                    assert(ms[j][d - 1] == '`');
                    assert(before.last() == '`');
                } else if section == Section::Answer && d < 3 {
                    assert(j == 1 && k == 1);
                    assert(here[3] == all[q + 3]);
                    assert(all[q + 3] == ms[k][3 - d]);
                }
            }
        } else if q == b && j < k {
            assert(here[0] == all[b]);
            assert(all[b] == ms[k][0]);
        }
    }
    assert(stream::is_next(all, ms, b, k));
    stream::lemma_next(all, ms);
}

/// The core of a body is that of the body with a line feed behind it.
proof fn lemma_core_of_body(body: Seq<char>)
    requires
        !text::blank(body),
    ensures
        text::is_core(text::trim(body + seq!['\n']), body),
        text::trim(body + seq!['\n']).len() > 0,
{
    let whole = body + seq!['\n'];
    let core = text::trim(whole);
    text::law_trim(whole);
    text::lemma_blank_trim(whole);
    if text::blank(whole) {
        assert forall|i: int| 0 <= i < body.len() implies text::is_white(#[trigger] body[i]) by {
            assert(whole[i] == body[i]);
        }
    }
    let (before, behind) = choose|before: Seq<char>, behind: Seq<char>|
        text::blank(before) && text::blank(behind) && whole == #[trigger] (before + core + behind);
    if behind.len() == 0 {
        assert(whole.last() == core.last());
        assert(text::is_white('\n'));
    }
    let rest = behind.drop_last();
    assert(body =~= whole.drop_last());
    assert(body =~= before + core + rest);
    assert forall|i: int| 0 <= i < rest.len() implies text::is_white(#[trigger] rest[i]) by {
        assert(rest[i] == behind[i]);
    }
}

/// A state inside a run block or reasoning, with `text` to come.
spec fn inside(section: Section, detect: bool, text: Seq<char>) -> ScanState {
    ScanState { section, carry: text, fence: seq![], detect }
}

/// Over the mark that opens a run block.
proof fn lemma_into_block(before: Seq<char>, tail: Seq<char>)
    requires
        is_plain(before, true),
    ensures
        ({
            let reply = reply_to(true, before + stream::run_open() + tail);
            let next = inside(Section::Run, true, stream::drop_line_break(tail));
            &&& reply.0 == as_answer(before) + stream::scan(next).0
            &&& reply.1 == stream::scan(next).1
        }),
{
    lemma_markers_written();
    let st = stream::arrived(stream::fresh(true), before + stream::run_open() + tail);
    let ms = stream::markers(Section::Answer, true);
    assert(ms[0] == stream::think_open() && ms[1] == stream::run_open());
    assert(st.carry =~= before + ms[1] + tail);
    lemma_first_marker(Section::Answer, true, before, 1, tail);
    let b = before.len() as int;
    assert(st.carry.skip(b + ms[1].len()) =~= tail);
    assert(st.carry.take(b) =~= before);
    let (evs, next) = stream::over_marker(st, b, 1);
    assert(evs == as_answer(before));
    assert(next == inside(Section::Run, true, stream::drop_line_break(tail)));
}

/// Over the start of a run block.
proof fn lemma_into_run(before: Seq<char>, inner: Seq<char>)
    requires
        is_plain(before, true),
    ensures
        reply_to(true, before + "```run\n"@ + inner).0 == as_answer(before) + stream::scan(
            inside(Section::Run, true, inner),
        ).0,
        reply_to(true, before + "```run\n"@ + inner).1 == stream::scan(
            inside(Section::Run, true, inner),
        ).1,
{
    lemma_markers_written();
    let tail = seq!['\n'] + inner;
    assert(before + "```run\n"@ + inner =~= before + stream::run_open() + tail);
    lemma_into_block(before, tail);
    assert(tail.skip(1) =~= inner);
}

/// Over the end of a run block.
proof fn lemma_out_of_run(body: Seq<char>, behind: Seq<char>)
    requires
        !text::contains(body, stream::fence_close()),
        !text::ends_with_char(body, '`'),
    ensures
        ({
            let st = inside(Section::Run, true, body + stream::fence_close() + behind);
            let again = stream::arrived(stream::fresh(true), behind);
            &&& stream::scan(st).0 == stream::tool_call(body) + stream::scan(again).0
            &&& stream::scan(st).1 == stream::scan(again).1
        }),
{
    let st = inside(Section::Run, true, body + stream::fence_close() + behind);
    let again = stream::arrived(stream::fresh(true), behind);
    let ms = stream::markers(Section::Run, true);
    assert(ms[0] == stream::fence_close());
    lemma_first_marker(Section::Run, true, body, 0, behind);
    let b = body.len() as int;
    assert(st.carry.take(b) =~= body);
    assert(st.carry.skip(b + ms[0].len()) =~= behind);
    assert(st.fence + body =~= body);
    assert(again.carry =~= behind);
    let (evs, next) = stream::over_marker(st, b, 0);
    assert(evs == stream::tool_call(body));
    assert(next == again);
}

/// Over the start of reasoning.
proof fn lemma_into_think(detect: bool, before: Seq<char>, inner: Seq<char>)
    requires
        is_plain(before, detect),
    ensures
        reply_to(detect, before + "<think>"@ + inner).0 == as_answer(before) + seq![
            EventView::ThinkStart,
        ] + stream::scan(inside(Section::Think, detect, inner)).0,
        reply_to(detect, before + "<think>"@ + inner).1 == stream::scan(
            inside(Section::Think, detect, inner),
        ).1,
{
    lemma_markers_written();
    let st = stream::arrived(stream::fresh(detect), before + "<think>"@ + inner);
    let ms = stream::markers(Section::Answer, detect);
    assert(ms[0] == stream::think_open());
    assert(st.carry =~= before + ms[0] + inner);
    lemma_first_marker(Section::Answer, detect, before, 0, inner);
    let b = before.len() as int;
    assert(st.carry.skip(b + ms[0].len()) =~= inner);
    assert(st.carry.take(b) =~= before);
    let (evs, next) = stream::over_marker(st, b, 0);
    assert(evs == as_answer(before) + seq![EventView::ThinkStart]);
    assert(next == inside(Section::Think, detect, inner));
}

/// Over the end of reasoning.
proof fn lemma_out_of_think(detect: bool, thought: Seq<char>, behind: Seq<char>)
    requires
        !text::contains(thought, stream::think_close()),
    ensures
        ({
            let st = inside(Section::Think, detect, thought + stream::think_close() + behind);
            let again = stream::arrived(stream::fresh(detect), behind);
            &&& stream::scan(st).0 == as_reasoning(thought) + seq![EventView::ThinkEnd]
                + stream::scan(again).0
            &&& stream::scan(st).1 == stream::scan(again).1
        }),
{
    let st = inside(Section::Think, detect, thought + stream::think_close() + behind);
    let again = stream::arrived(stream::fresh(detect), behind);
    let ms = stream::markers(Section::Think, detect);
    assert(ms[0] == stream::think_close());
    lemma_first_marker(Section::Think, detect, thought, 0, behind);
    let b = thought.len() as int;
    assert(st.carry.take(b) =~= thought);
    assert(st.carry.skip(b + ms[0].len()) =~= behind);
    assert(again.carry =~= behind);
    let (evs, next) = stream::over_marker(st, b, 0);
    assert(evs == as_reasoning(thought) + seq![EventView::ThinkEnd]);
    assert(next == again);
}

/// A body without a closing fence stays so with a line feed behind it.
proof fn lemma_body_and_line_feed(body: Seq<char>)
    requires
        !text::contains(body, stream::fence_close()),
    ensures
        !text::contains(body + seq!['\n'], stream::fence_close()),
        text::blank(body + seq!['\n']) <==> text::blank(body),
{
    let full = body + seq!['\n'];
    if text::contains(full, stream::fence_close()) {
        let q = choose|q: int| text::occurs_at(full, stream::fence_close(), q);
        let here = full.subrange(q, q + 3);
        if q + 3 <= body.len() {
            assert(body.subrange(q, q + 3) =~= here);
            assert(text::occurs_at(body, stream::fence_close(), q));
        } else {
            assert(here[2] == full[q + 2]);
        }
    }
    if text::blank(full) {
        assert forall|i: int| 0 <= i < body.len() implies text::is_white(#[trigger] body[i]) by {
            assert(full[i] == body[i]);
        }
    }
    if text::blank(body) {
        assert forall|i: int| 0 <= i < full.len() implies text::is_white(#[trigger] full[i]) by {
            if i < body.len() {
                assert(full[i] == body[i]);
            }
        }
    }
}

/// No run block is lost. A run block whose body is more than white space gives one command,
/// the body without the white space at its ends, however many lines it has. The text
/// before it is answer text, and what follows is taken as if nothing had been before it. A
/// block of white space gives nothing.
#[verifier::rlimit(40)]
pub proof fn law_run_block_is_one_command(
    before: Seq<char>,
    body: Seq<char>,
    behind: Seq<char>,
)
    requires
        is_plain(before, true),
        !text::contains(body, "```"@),
    ensures
        ({
            let (evs, end) = reply_to(true, before + "```run\n"@ + body + "\n```"@ + behind);
            let (more, rest) = reply_to(true, behind);
            &&& end == rest
            &&& !text::blank(body) ==> exists|command: Seq<char>| #[trigger]
                text::is_core(command, body) && evs == as_answer(before) + seq![
                    EventView::ToolCall(command),
                ] + more
            &&& text::blank(body) ==> evs == as_answer(before) + more
        }),
{
    lemma_markers_written();
    let full = body + seq!['\n'];
    let inner = full + stream::fence_close() + behind;
    assert(before + "```run\n"@ + body + "\n```"@ + behind =~= before + "```run\n"@ + inner);
    lemma_body_and_line_feed(body);
    lemma_into_run(before, inner);
    lemma_out_of_run(full, behind);
    let more = reply_to(true, behind).0;
    let call = stream::tool_call(full);
    assert(as_answer(before) + (call + more) =~= as_answer(before) + call + more);
    text::lemma_blank_trim(full);
    if text::blank(body) {
        assert(as_answer(before) + call + more =~= as_answer(before) + more);
    } else {
        lemma_core_of_body(body);
        assert(text::is_core(text::trim(full), body));
    }
}

/// Dropping the line break at its start leaves the core of a text alone.
proof fn lemma_core_without_break(s: Seq<char>)
    ensures
        text::trim(stream::drop_line_break(s)) == text::trim(s),
{
    if s.len() >= 1 && s[0] == '\n' {
        assert(s.skip(1) =~= s.drop_first());
    } else if s.len() >= 2 && s[0] == '\r' && s[1] == '\n' {
        let rest = s.drop_first();
        assert(rest[0] == '\n');
        assert(s.skip(2) =~= rest.drop_first());
        assert(text::trim_start(s) == text::trim_start(rest));
        assert(text::trim_start(rest) == text::trim_start(rest.drop_first()));
    }
}

/// So it is however the block is written: whatever stands between the mark that opens a run
/// block and the fence that closes it, on as many lines as it may, is one command, without
/// the white space at its ends, and none where it is nothing but white space.
#[verifier::rlimit(40)]
pub proof fn law_run_block_as_written(before: Seq<char>, inner: Seq<char>, behind: Seq<char>)
    requires
        is_plain(before, true),
        !text::contains(inner, "```"@),
        !text::ends_with_char(inner, '`'),
    ensures
        ({
            let (evs, end) = reply_to(true, before + "```run"@ + inner + "```"@ + behind);
            let (more, rest) = reply_to(true, behind);
            &&& end == rest
            &&& !text::blank(inner) ==> exists|command: Seq<char>| #[trigger]
                text::is_core(command, inner) && evs == as_answer(before) + seq![
                    EventView::ToolCall(command),
                ] + more
            &&& text::blank(inner) ==> evs == as_answer(before) + more
        }),
{
    lemma_markers_written();
    let tail = inner + stream::fence_close() + behind;
    let body = stream::drop_line_break(inner);
    assert(before + "```run"@ + inner + "```"@ + behind =~= before + stream::run_open() + tail);
    lemma_into_block(before, tail);
    lemma_break_within(inner, behind);
    lemma_out_of_run(body, behind);
    let more = reply_to(true, behind).0;
    let call = stream::tool_call(body);
    assert(as_answer(before) + (call + more) =~= as_answer(before) + call + more);
    lemma_core_without_break(inner);
    text::lemma_blank_trim(inner);
    text::law_trim(inner);
    if text::blank(inner) {
        assert(as_answer(before) + call + more =~= as_answer(before) + more);
    } else {
        assert(text::is_core(text::trim(inner), inner));
    }
}

/// The line break at the start of a block is dropped from its body.
proof fn lemma_break_within(inner: Seq<char>, behind: Seq<char>)
    requires
        !text::contains(inner, stream::fence_close()),
        !text::ends_with_char(inner, '`'),
    ensures
        ({
            let body = stream::drop_line_break(inner);
            &&& stream::drop_line_break(inner + stream::fence_close() + behind) == body
                + stream::fence_close() + behind
            &&& !text::contains(body, stream::fence_close())
            &&& !text::ends_with_char(body, '`')
        }),
{
    let body = stream::drop_line_break(inner);
    let tail = inner + stream::fence_close() + behind;
    let n = inner.len() - body.len();
    assert(body =~= inner.skip(n));
    if inner.len() >= 1 {
        assert(tail[0] == inner[0]);
    }
    if inner.len() >= 2 {
        assert(tail[1] == inner[1]);
    }
    if inner.len() == 1 {
        assert(tail[1] == '`');
    }
    if inner.len() == 0 {
        assert(tail[0] == '`');
    }
    assert(tail.skip(n) =~= body + stream::fence_close() + behind);
    if n == 0 {
        assert(stream::drop_line_break(tail) == tail);
    }
    if text::contains(body, stream::fence_close()) {
        let q = choose|q: int| text::occurs_at(body, stream::fence_close(), q);
        assert(inner.subrange(q + n, q + n + 3) =~= body.subrange(q, q + 3));
        assert(text::occurs_at(inner, stream::fence_close(), q + n));
    }
    if body.len() > 0 {
        assert(body.last() == inner.last());
    }
}

/// Reasoning is told apart. What stands between its start and its end is reasoning, the
/// text before it is answer text, and what follows is taken as if nothing had been before
/// it.
#[verifier::rlimit(40)]
pub proof fn law_reasoning_is_told_apart(
    detect: bool,
    before: Seq<char>,
    thought: Seq<char>,
    behind: Seq<char>,
)
    requires
        is_plain(before, detect),
        !text::contains(thought, "</think>"@),
    ensures
        ({
            let (evs, end) = reply_to(
                detect,
                before + "<think>"@ + thought + "</think>"@ + behind,
            );
            let (more, rest) = reply_to(detect, behind);
            &&& end == rest
            &&& evs == as_answer(before) + seq![EventView::ThinkStart] + as_reasoning(thought)
                + seq![EventView::ThinkEnd] + more
        }),
{
    lemma_markers_written();
    let inner = thought + stream::think_close() + behind;
    assert(before + "<think>"@ + thought + "</think>"@ + behind =~= before + "<think>"@ + inner);
    lemma_into_think(detect, before, inner);
    lemma_out_of_think(detect, thought, behind);
    let more = reply_to(detect, behind).0;
    let opening = as_answer(before) + seq![EventView::ThinkStart];
    let closing = seq![EventView::ThinkEnd];
    assert(opening + (as_reasoning(thought) + closing + more) =~= opening + as_reasoning(thought)
        + closing + more);
}

/// Where no marker of its section stands in the carry, what a scan and the end of the
/// stream give of it together is the carry.
proof fn lemma_rest_is_told(st: ScanState)
    requires
        forall|j: int|
            0 <= j < stream::markers(st.section, st.detect).len() ==> !text::contains(
                st.carry,
                #[trigger] stream::markers(st.section, st.detect)[j],
            ),
        st.fence.len() == 0,
    ensures
        ({
            let (evs, end) = stream::scan(st);
            tokens(evs + stream::flushed(end)) == match st.section {
                Section::Answer => answer_tokens(st.carry),
                Section::Think => think_tokens(st.carry).push(Token::ThinkEnd),
                Section::Run => answer_tokens(st.carry),
            }
        }),
{
    let ms = stream::markers(st.section, st.detect);
    stream::lemma_next(st.carry, ms);
    if stream::has_marker(st.carry, ms) {
        let (q, j) = choose|q: int, j: int|
            0 <= j < ms.len() && #[trigger] text::occurs_at(st.carry, ms[j], q);
        assert(text::contains(st.carry, ms[j]));
    }
    let (evs, end) = stream::scan(st);
    stream::lemma_held(st.carry, ms);
    let cut = st.carry.len() - stream::held(st.carry, ms);
    let (out, rest) = (st.carry.take(cut), st.carry.skip(cut));
    assert(out + rest =~= st.carry);
    lemma_tokens_add(evs, stream::flushed(end));
    lemma_tokens_text(out);
    lemma_tokens_text(rest);
    lemma_tokens_text(st.carry);
    lemma_text_tokens_add(out, rest);
    match st.section {
        Section::Answer => {},
        Section::Think => {
            lemma_tokens_add(stream::think_delta(rest), seq![EventView::ThinkEnd]);
            lemma_tokens_one(EventView::ThinkEnd);
            assert(think_tokens(out) + (think_tokens(rest) + seq![Token::ThinkEnd])
                =~= think_tokens(st.carry).push(Token::ThinkEnd));
        },
        Section::Run => {
            assert(st.fence + out + rest =~= st.carry);
            assert(tokens(evs) =~= seq![]);
            assert(tokens(evs) + answer_tokens(st.carry) =~= answer_tokens(st.carry));
        },
    }
}

/// A reply without markers is answer text, all of it.
pub proof fn law_plain_reply_is_answer(detect: bool, reply: Seq<char>)
    requires
        is_plain(reply, detect),
    ensures
        ({
            let (evs, end) = reply_to(detect, reply);
            tokens(evs + stream::flushed(end)) == answer_tokens(reply)
        }),
{
    lemma_markers_written();
    let st = stream::arrived(stream::fresh(detect), reply);
    assert(st.carry =~= reply);
    lemma_rest_is_told(st);
}

/// Reasoning that a reply leaves open is reasoning to the end, where it is closed.
pub proof fn law_open_reasoning_is_closed(detect: bool, before: Seq<char>, thought: Seq<char>)
    requires
        is_plain(before, detect),
        !text::contains(thought, "</think>"@),
    ensures
        ({
            let (evs, end) = reply_to(detect, before + "<think>"@ + thought);
            tokens(evs + stream::flushed(end)) == answer_tokens(before).push(Token::ThinkStart)
                + think_tokens(thought).push(Token::ThinkEnd)
        }),
{
    lemma_markers_written();
    lemma_into_think(detect, before, thought);
    let mid = inside(Section::Think, detect, thought);
    assert(stream::markers(Section::Think, detect)[0] == stream::think_close());
    lemma_rest_is_told(mid);
    let first = as_answer(before) + seq![EventView::ThinkStart];
    let (more, end) = stream::scan(mid);
    lemma_tokens_add(first, more + stream::flushed(end));
    assert((first + more) + stream::flushed(end) =~= first + (more + stream::flushed(end)));
    lemma_tokens_text(before);
    lemma_tokens_add(stream::answer_delta(before), seq![EventView::ThinkStart]);
    lemma_tokens_one(EventView::ThinkStart);
    assert(stream::answer_delta(before) == as_answer(before));
    assert(tokens(first) =~= answer_tokens(before).push(Token::ThinkStart));
}

/// A run block that a reply leaves open is no command: its body is answer text.
pub proof fn law_open_block_is_answer(before: Seq<char>, body: Seq<char>)
    requires
        is_plain(before, true),
        !text::contains(body, "```"@),
    ensures
        ({
            let (evs, end) = reply_to(true, before + "```run\n"@ + body);
            tokens(evs + stream::flushed(end)) == answer_tokens(before) + answer_tokens(body)
        }),
{
    lemma_markers_written();
    lemma_into_run(before, body);
    let mid = inside(Section::Run, true, body);
    assert(stream::markers(Section::Run, true)[0] == stream::fence_close());
    lemma_rest_is_told(mid);
    let first = as_answer(before);
    let (more, end) = stream::scan(mid);
    lemma_tokens_add(first, more + stream::flushed(end));
    assert((first + more) + stream::flushed(end) =~= first + (more + stream::flushed(end)));
    lemma_tokens_text(before);
    assert(stream::answer_delta(before) == as_answer(before));
}

/// All of this holds however a reply arrives: chunks give what their text gives in one
/// piece.
pub proof fn law_chunks_are_one_reply(detect: bool, chunks: Seq<Seq<char>>)
    ensures
        tokens(feed_all(stream::fresh(detect), chunks).0) == tokens(
            reply_to(detect, joined(chunks)).0,
        ),
        feed_all(stream::fresh(detect), chunks).1.section == reply_to(
            detect,
            joined(chunks),
        ).1.section,
        feed_all(stream::fresh(detect), chunks).1.carry == reply_to(
            detect,
            joined(chunks),
        ).1.carry,
{
    stream::lemma_fresh_settled(detect);
    lemma_feed_all(stream::fresh(detect), chunks);
}

} // verus!
