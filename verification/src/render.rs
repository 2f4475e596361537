//! Message text, split into prose and fenced code blocks.

use crate::text;
use vstd::prelude::*;

verus! {

/// A stretch of message text.
#[derive(Debug)]
pub struct Segment {
    pub code: bool,
    pub content: String,
}

/// What a stretch of message text is.
pub struct SegmentView {
    pub code: bool,
    pub content: Seq<char>,
}

impl View for Segment {
    type V = SegmentView;

    open spec fn view(&self) -> SegmentView {
        SegmentView { code: self.code, content: self.content@ }
    }
}

/// What a list of stretches is.
pub open spec fn segment_views(v: Seq<Segment>) -> Seq<SegmentView> {
    v.map_values(|s: Segment| s@)
}

/// A line that opens or closes a code block.
pub open spec fn is_fence(line: Seq<char>) -> bool {
    text::starts_with(text::trim_start(line), "```"@)
}

/// `s` without line feeds at its end.
pub open spec fn trim_feeds(s: Seq<char>) -> Seq<char>
    decreases s.len(),
{
    if text::ends_with_char(s, '\n') {
        trim_feeds(s.drop_last())
    } else {
        s
    }
}

/// The stretch that `buf` makes, if any.
pub open spec fn closed_segment(buf: Seq<char>, code: bool) -> Seq<SegmentView> {
    if trim_feeds(buf).len() == 0 {
        seq![]
    } else {
        seq![SegmentView { code, content: trim_feeds(buf) }]
    }
}

/// Where a walk over the lines of a message stands.
pub struct Walk {
    pub done: Seq<SegmentView>,
    pub buf: Seq<char>,
    pub in_code: bool,
}

/// A walk over `lines`.
pub open spec fn walked(lines: Seq<Seq<char>>) -> Walk
    decreases lines.len(),
{
    if lines.len() == 0 {
        Walk { done: seq![], buf: seq![], in_code: false }
    } else {
        let w = walked(lines.drop_last());
        if is_fence(lines.last()) {
            Walk {
                done: w.done + closed_segment(w.buf, w.in_code),
                buf: seq![],
                in_code: !w.in_code,
            }
        } else {
            Walk { buf: w.buf + lines.last() + seq!['\n'], ..w }
        }
    }
}

/// The stretches of a message.
pub open spec fn segments_of(content: Seq<char>) -> Seq<SegmentView> {
    let w = walked(text::split_lines(content));
    w.done + closed_segment(w.buf, w.in_code)
}

fn is_fence_line(line: &str) -> (r: bool)
    ensures
        r == is_fence(line@),
{
    let v = text::chars_of(line);
    let lo = text::trim_start_bound(&v);
    let mark = text::chars_of("```");
    let r = text::occurs(&v, &mark, lo);
    proof {
        let rest = v@.skip(lo as int);
        if lo + mark@.len() <= v@.len() {
            assert(rest.subrange(0, mark@.len() as int) =~= v@.subrange(
                lo as int,
                lo + mark@.len(),
            ));
        }
    }
    r
}

fn flush_segment(out: &mut Vec<Segment>, buf: &str, code: bool)
    ensures
        segment_views(final(out)@) == segment_views(old(out)@) + closed_segment(buf@, code),
{
    let v = text::chars_of(buf);
    let mut n: usize = v.len();
    assert(v@.take(n as int) =~= v@);
    while n > 0 && v[n - 1] == '\n'
        invariant
            n <= v@.len(),
            trim_feeds(v@.take(n as int)) == trim_feeds(v@),
        decreases n,
    {
        assert(v@.take(n as int).drop_last() =~= v@.take(n - 1));
        n -= 1;
    }
    assert(trim_feeds(v@) == v@.take(n as int));
    if n > 0 {
        let content = text::slice_text(&v, 0, n);
        assert(v@.subrange(0, n as int) =~= v@.take(n as int));
        out.push(Segment { code, content });
    }
    assert(segment_views(out@) =~= segment_views(old(out)@) + closed_segment(buf@, code));
}

/// The stretches of a message: prose, and what stands between two fences.
pub fn segments(content: &str) -> (r: Vec<Segment>)
    ensures
        segment_views(r@) == segments_of(content@),
{
    let lines = text::split_lines_text(content);
    let ghost ls = text::views(lines@);
    let mut out: Vec<Segment> = Vec::new();
    let mut buf = String::new();
    let mut in_code = false;
    let mut i: usize = 0;
    assert(ls.take(0) =~= seq![]);
    assert(segment_views(out@) =~= seq![]);
    assert(buf@ =~= seq![]);
    while i < lines.len()
        invariant
            i <= lines@.len(),
            ls == text::views(lines@),
            (Walk { done: segment_views(out@), buf: buf@, in_code }) == walked(ls.take(i as int)),
        decreases lines@.len() - i,
    {
        let line = lines[i].as_str();
        assert(ls.take(i + 1).drop_last() =~= ls.take(i as int));
        assert(ls.take(i + 1).last() == line@);
        if is_fence_line(line) {
            flush_segment(&mut out, buf.as_str(), in_code);
            buf = String::new();
            assert(buf@ =~= seq![]);
            in_code = !in_code;
        } else {
            let ghost before = buf@;
            buf.append(line);
            buf.push('\n');
            assert(buf@ =~= before + line@ + seq!['\n']);
        }
        i += 1;
    }
    assert(ls.take(i as int) =~= ls);
    flush_segment(&mut out, buf.as_str(), in_code);
    out
}

/// No stretch is empty, and none ends with a line feed.
pub proof fn law_segments_are_solid(content: Seq<char>)
    ensures
        forall|i: int|
            0 <= i < segments_of(content).len() ==> (#[trigger] segments_of(
                content,
            )[i]).content.len() > 0 && segments_of(content)[i].content.last() != '\n',
{
    let lines = text::split_lines(content);
    lemma_walk_solid(lines);
    let w = walked(lines);
    lemma_trimmed(w.buf);
}

proof fn lemma_trimmed(s: Seq<char>)
    ensures
        trim_feeds(s).len() > 0 ==> trim_feeds(s).last() != '\n',
    decreases s.len(),
{
    if text::ends_with_char(s, '\n') {
        lemma_trimmed(s.drop_last());
    }
}

proof fn lemma_walk_solid(lines: Seq<Seq<char>>)
    ensures
        forall|i: int|
            0 <= i < walked(lines).done.len() ==> (#[trigger] walked(lines).done[i]).content.len()
                > 0 && walked(lines).done[i].content.last() != '\n',
    decreases lines.len(),
{
    if lines.len() > 0 {
        lemma_walk_solid(lines.drop_last());
        lemma_trimmed(walked(lines.drop_last()).buf);
    }
}

/// The lines, each with a line feed behind it.
spec fn fed(lines: Seq<Seq<char>>) -> Seq<char>
    decreases lines.len(),
{
    if lines.len() == 0 {
        seq![]
    } else {
        fed(lines.drop_last()) + lines.last() + seq!['\n']
    }
}

proof fn lemma_fed_first(lines: Seq<Seq<char>>)
    requires
        lines.len() > 0,
    ensures
        fed(lines) == lines[0] + seq!['\n'] + fed(lines.drop_first()),
    decreases lines.len(),
{
    if lines.len() == 1 {
        assert(lines.drop_last() =~= seq![]);
        assert(lines.drop_first() =~= seq![]);
    } else {
        lemma_fed_first(lines.drop_last());
        assert(lines.drop_last().drop_first() =~= lines.drop_first().drop_last());
    }
    assert(fed(lines) =~= lines[0] + seq!['\n'] + fed(lines.drop_first()));
}

/// The lines of a text, put together again.
proof fn lemma_fed_lines(s: Seq<char>)
    ensures
        fed(text::split_lines(s)) == s + seq!['\n'],
    decreases s.len(),
{
    text::lemma_find(s, seq!['\n']);
    let ls = text::split_lines(s);
    lemma_fed_first(ls);
    match text::find(s, seq!['\n']) {
        Some(i) => {
            let rest = s.skip(i + 1);
            lemma_fed_lines(rest);
            assert(ls.drop_first() =~= text::split_lines(rest));
            assert(s.subrange(i, i + 1)[0] == s[i]);
            assert(s =~= s.take(i) + seq!['\n'] + rest);
        },
        None => {
            assert(ls.drop_first() =~= seq![]);
        },
    }
    assert(fed(ls) =~= s + seq!['\n']);
}

/// A walk over lines that are no fences only takes them in.
proof fn lemma_walk_plain(before: Seq<Seq<char>>, lines: Seq<Seq<char>>)
    requires
        forall|i: int| 0 <= i < lines.len() ==> !is_fence(#[trigger] lines[i]),
    ensures
        walked(before + lines) == (Walk {
            buf: walked(before).buf + fed(lines),
            ..walked(before)
        }),
    decreases lines.len(),
{
    if lines.len() == 0 {
        assert(before + lines =~= before);
        assert(walked(before).buf + fed(lines) =~= walked(before).buf);
    } else {
        let rest = lines.drop_last();
        assert forall|i: int| 0 <= i < rest.len() implies !is_fence(#[trigger] rest[i]) by {
            assert(rest[i] == lines[i]);
        }
        lemma_walk_plain(before, rest);
        assert((before + lines).drop_last() =~= before + rest);
        assert(!is_fence(lines[lines.len() - 1]));
        assert(walked(before).buf + fed(rest) + lines.last() + seq!['\n'] =~= walked(before).buf
            + fed(lines));
    }
}

/// A walk that has closed a block goes on as if it started there.
proof fn lemma_walk_anew(before: Seq<Seq<char>>, lines: Seq<Seq<char>>)
    requires
        walked(before).buf.len() == 0,
        !walked(before).in_code,
    ensures
        walked(before + lines) == (Walk {
            done: walked(before).done + walked(lines).done,
            ..walked(lines)
        }),
    decreases lines.len(),
{
    if lines.len() == 0 {
        assert(before + lines =~= before);
        assert(walked(before).done + walked(lines).done =~= walked(before).done);
        assert(walked(before).buf =~= walked(lines).buf);
    } else {
        let rest = lines.drop_last();
        lemma_walk_anew(before, rest);
        assert((before + lines).drop_last() =~= before + rest);
        let w = walked(rest);
        let shut = closed_segment(w.buf, w.in_code);
        assert((walked(before).done + w.done) + shut =~= walked(before).done + (w.done + shut));
    }
}

/// A text without a fence mark has no fence among its lines.
proof fn lemma_no_fence(s: Seq<char>)
    requires
        !text::contains(s, "```"@),
    ensures
        forall|i: int|
            0 <= i < text::split_lines(s).len() ==> !is_fence(#[trigger] text::split_lines(s)[i]),
{
    let ls = text::split_lines(s);
    assert forall|i: int| 0 <= i < ls.len() implies !is_fence(#[trigger] ls[i]) by {
        if is_fence(ls[i]) {
            assert(text::contains(text::trim_start(ls[i]), "```"@));
            crate::llm::chunking::lemma_contains_trimmed(ls[i], "```"@);
            text::lemma_piece_within(s, '\n', i, "```"@);
        }
    }
}

/// `core` is `s` without the line feeds at its end.
pub open spec fn is_solid_part(core: Seq<char>, s: Seq<char>) -> bool {
    &&& core.len() > 0 ==> core.last() != '\n'
    &&& exists|n: nat| s == core + #[trigger] feeds(n)
}

/// `n` line feeds.
pub open spec fn feeds(n: nat) -> Seq<char> {
    Seq::new(n, |i: int| '\n')
}

proof fn lemma_trim_feeds(s: Seq<char>)
    ensures
        is_solid_part(trim_feeds(s), s),
    decreases s.len(),
{
    if text::ends_with_char(s, '\n') {
        let rest = s.drop_last();
        lemma_trim_feeds(rest);
        let n = choose|n: nat| rest == trim_feeds(rest) + #[trigger] feeds(n);
        assert(s =~= rest.push('\n'));
        assert((trim_feeds(rest) + feeds(n)).push('\n') =~= trim_feeds(rest) + feeds(n + 1));
    } else {
        assert(s =~= s + feeds(0));
        if s.len() > 0 {
            assert(s.last() != '\n');
        }
    }
}

/// The stretch that a text is: the text without line feeds at its end, or none where there
/// is nothing else.
pub open spec fn is_stretch(v: Seq<SegmentView>, s: Seq<char>, code: bool) -> bool {
    exists|core: Seq<char>| #[trigger]
        is_solid_part(core, s) && if core.len() == 0 {
            v.len() == 0
        } else {
            v == seq![SegmentView { code, content: core }]
        }
}

proof fn lemma_stretch(s: Seq<char>, code: bool)
    ensures
        is_stretch(closed_segment(s + seq!['\n'], code), s, code),
{
    let full = s + seq!['\n'];
    assert(full.drop_last() =~= s);
    lemma_trim_feeds(s);
    assert(is_solid_part(trim_feeds(full), s));
}

/// Text without a fence mark is prose, all of it.
pub proof fn law_prose_is_kept(content: Seq<char>)
    requires
        !text::contains(content, "```"@),
    ensures
        is_stretch(segments_of(content), content, false),
{
    let ls = text::split_lines(content);
    let none: Seq<Seq<char>> = seq![];
    lemma_no_fence(content);
    lemma_walk_plain(none, ls);
    lemma_fed_lines(content);
    assert(none + ls =~= ls);
    assert(walked(none).buf + fed(ls) =~= content + seq!['\n']);
    lemma_stretch(content, false);
    assert(segments_of(content) =~= closed_segment(content + seq!['\n'], false));
}

/// A walk over prose, a fence, code, a fence, and more.
proof fn lemma_walk_block(
    prose: Seq<Seq<char>>,
    f1: Seq<char>,
    code: Seq<Seq<char>>,
    f2: Seq<char>,
    more: Seq<Seq<char>>,
)
    requires
        forall|i: int| 0 <= i < prose.len() ==> !is_fence(#[trigger] prose[i]),
        forall|i: int| 0 <= i < code.len() ==> !is_fence(#[trigger] code[i]),
        is_fence(f1),
        is_fence(f2),
    ensures
        walked((prose.push(f1) + code).push(f2) + more) == (Walk {
            done: closed_segment(fed(prose), false) + closed_segment(fed(code), true) + walked(
                more,
            ).done,
            ..walked(more)
        }),
{
    let none: Seq<Seq<char>> = seq![];
    let upto = (prose.push(f1) + code).push(f2);
    let first = closed_segment(fed(prose), false);
    let second = closed_segment(fed(code), true);
    lemma_walk_plain(none, prose);
    assert(none + prose =~= prose);
    assert(walked(none).buf + fed(prose) =~= fed(prose));
    assert(prose.push(f1).drop_last() =~= prose);
    assert(walked(prose.push(f1)).done =~= first);
    lemma_walk_plain(prose.push(f1), code);
    assert(walked(prose.push(f1)).buf + fed(code) =~= fed(code));
    assert(upto.drop_last() =~= prose.push(f1) + code);
    assert(walked(upto).done == first + second);
    lemma_walk_anew(upto, more);
}

/// There is no line feed in `s`.
pub open spec fn one_line(s: Seq<char>) -> bool {
    forall|i: int| 0 <= i < s.len() ==> #[trigger] s[i] != '\n'
}

/// The lines of prose, a fence, code, a fence, and more.
proof fn lemma_block_lines(
    before: Seq<char>,
    f1: Seq<char>,
    code: Seq<char>,
    f2: Seq<char>,
    behind: Seq<char>,
)
    requires
        one_line(f1),
        one_line(f2),
    ensures
        text::split_lines(fenced(before, f1, code, f2, behind)) == (text::split_lines(before).push(
            f1,
        ) + text::split_lines(code)).push(f2) + text::split_lines(behind),
{
    let nl = seq!['\n'];
    let tail2 = f2 + nl + behind;
    let tail1 = code + nl + tail2;
    let tail0 = f1 + nl + tail1;
    assert(fenced(before, f1, code, f2, behind) =~= before + nl + tail0);
    text::lemma_split_joined(before, '\n', tail0);
    text::law_split_at(f1, '\n', tail1);
    text::lemma_split_joined(code, '\n', tail2);
    text::law_split_at(f2, '\n', behind);
    let (lb, lc, lq) = (
        text::split_lines(before),
        text::split_lines(code),
        text::split_lines(behind),
    );
    assert(lb + (seq![f1] + (lc + (seq![f2] + lq))) =~= (lb.push(f1) + lc).push(f2) + lq);
}

/// `before`, a line `f1`, `code`, a line `f2`, and `behind`, each on lines of its own.
pub open spec fn fenced(
    before: Seq<char>,
    f1: Seq<char>,
    code: Seq<char>,
    f2: Seq<char>,
    behind: Seq<char>,
) -> Seq<char> {
    before + seq!['\n'] + f1 + seq!['\n'] + code + seq!['\n'] + f2 + seq!['\n'] + behind
}

/// What stands between two fences is code, all of it, and what stands before them is prose;
/// what follows is told apart in turn. A fence is a line that starts, white space aside,
/// with three backticks.
pub proof fn law_code_is_told_apart(
    before: Seq<char>,
    indents: (Seq<char>, Seq<char>),
    infos: (Seq<char>, Seq<char>),
    code: Seq<char>,
    behind: Seq<char>,
) -> (parts: (Seq<SegmentView>, Seq<SegmentView>))
    requires
        !text::contains(before, "```"@),
        !text::contains(code, "```"@),
        text::blank(indents.0),
        text::blank(indents.1),
        one_line(indents.0 + "```"@ + infos.0),
        one_line(indents.1 + "```"@ + infos.1),
    ensures
        is_stretch(parts.0, before, false),
        is_stretch(parts.1, code, true),
        segments_of(
            fenced(
                before,
                indents.0 + "```"@ + infos.0,
                code,
                indents.1 + "```"@ + infos.1,
                behind,
            ),
        ) == parts.0 + parts.1 + segments_of(behind),
{
    let f1 = indents.0 + "```"@ + infos.0;
    let f2 = indents.1 + "```"@ + infos.1;
    lemma_is_fence(indents.0, infos.0);
    lemma_is_fence(indents.1, infos.1);
    lemma_no_fence(before);
    lemma_no_fence(code);
    lemma_block_lines(before, f1, code, f2, behind);
    let (lb, lc, lq) = (
        text::split_lines(before),
        text::split_lines(code),
        text::split_lines(behind),
    );
    lemma_walk_block(lb, f1, lc, f2, lq);
    lemma_fed_lines(before);
    lemma_fed_lines(code);
    lemma_stretch(before, false);
    lemma_stretch(code, true);
    let first = closed_segment(before + seq!['\n'], false);
    let second = closed_segment(code + seq!['\n'], true);
    let w = walked(lq);
    let last = closed_segment(w.buf, w.in_code);
    assert((first + second + w.done) + last =~= first + second + (w.done + last));
    (first, second)
}

/// White space and three backticks start a fence.
proof fn lemma_is_fence(indent: Seq<char>, info: Seq<char>)
    requires
        text::blank(indent),
    ensures
        is_fence(indent + "```"@ + info),
    decreases indent.len(),
{
    reveal_strlit("```");
    let line = indent + "```"@ + info;
    if indent.len() == 0 {
        assert(line[0] == '`');
        assert(!text::is_white(line[0]));
        assert(line.subrange(0, 3) =~= "```"@);
    } else {
        assert(line[0] == indent[0]);
        lemma_is_fence(indent.drop_first(), info);
        assert(line.drop_first() =~= indent.drop_first() + "```"@ + info);
    }
}

} // verus!
