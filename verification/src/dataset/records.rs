//! JSONL: one record per line.

use crate::text;
use vstd::prelude::*;

verus! {

/// The lines of `s` that are not blank.
pub open spec fn records(s: Seq<char>) -> Seq<Seq<char>> {
    text::lines(s).filter(|l: Seq<char>| !text::blank(l))
}

/// The entries of `outcomes` that are there.
pub open spec fn present<T>(outcomes: Seq<Option<T>>) -> Seq<T>
    decreases outcomes.len(),
{
    if outcomes.len() == 0 {
        seq![]
    } else {
        match outcomes.last() {
            Some(t) => present(outcomes.drop_last()).push(t),
            None => present(outcomes.drop_last()),
        }
    }
}

/// `lines`, each with a line feed behind it.
pub open spec fn jsonl(lines: Seq<Seq<char>>) -> Seq<char>
    decreases lines.len(),
{
    if lines.len() == 0 {
        seq![]
    } else {
        jsonl(lines.drop_last()) + lines.last() + seq!['\n']
    }
}

/// `l` can stand as a record on a line of its own.
pub open spec fn is_record(l: Seq<char>) -> bool {
    &&& !text::blank(l)
    &&& !text::ends_with_char(l, '\r')
    &&& forall|i: int| 0 <= i < l.len() ==> #[trigger] l[i] != '\n'
}

/// How JSONL text grows by a line.
proof fn lemma_jsonl_step(rest: Seq<Seq<char>>, last: Seq<char>)
    requires
        text::lines(jsonl(rest)) == rest,
        rest.len() > 0 ==> jsonl(rest).last() == '\n',
        is_record(last),
    ensures
        text::lines(jsonl(rest.push(last))) == rest.push(last),
        jsonl(rest.push(last)).last() == '\n',
{
    let lines = rest.push(last);
    let a = jsonl(rest);
    let tail = last + seq!['\n'];
    assert(lines.drop_last() =~= rest);
    assert(jsonl(lines) == a + last + seq!['\n']);
    assert(a + last + seq!['\n'] =~= a + tail);
    assert(rest.len() == 0 ==> a.len() == 0);
    text::lemma_lines_append(a, tail);
    text::lemma_lines_one(last);
    assert(rest + seq![last] =~= lines);
}

/// The records of a JSONL text are the ones that were written to it, and they are all of
/// its lines.
pub proof fn law_records_of_jsonl(lines: Seq<Seq<char>>)
    requires
        forall|i: int| 0 <= i < lines.len() ==> is_record(#[trigger] lines[i]),
    ensures
        records(jsonl(lines)) == lines,
        text::lines(jsonl(lines)) == lines,
{
    lemma_jsonl_lines(lines);
    lemma_none_blank(lines);
}

proof fn lemma_jsonl_lines(lines: Seq<Seq<char>>)
    requires
        forall|i: int| 0 <= i < lines.len() ==> is_record(#[trigger] lines[i]),
    ensures
        text::lines(jsonl(lines)) == lines,
        lines.len() > 0 ==> jsonl(lines).last() == '\n',
    decreases lines.len(),
{
    if lines.len() == 0 {
        text::lemma_line_feed(jsonl(lines));
        assert(text::lines(jsonl(lines)) =~= lines);
    } else {
        let rest = lines.drop_last();
        assert(is_record(lines[lines.len() - 1]));
        assert forall|i: int| 0 <= i < rest.len() implies is_record(#[trigger] rest[i]) by {
            assert(rest[i] == lines[i]);
        }
        lemma_jsonl_lines(rest);
        lemma_jsonl_step(rest, lines.last());
        assert(rest.push(lines.last()) =~= lines);
    }
}

/// Where no line is blank, none is left out.
proof fn lemma_none_blank(lines: Seq<Seq<char>>)
    requires
        forall|i: int| 0 <= i < lines.len() ==> is_record(#[trigger] lines[i]),
    ensures
        lines.filter(|l: Seq<char>| !text::blank(l)) == lines,
    decreases lines.len(),
{
    reveal(Seq::filter);
    if lines.len() > 0 {
        let rest = lines.drop_last();
        assert(is_record(lines[lines.len() - 1]));
        assert forall|i: int| 0 <= i < rest.len() implies is_record(#[trigger] rest[i]) by {
            assert(rest[i] == lines[i]);
        }
        lemma_none_blank(rest);
        assert(rest.push(lines.last()) =~= lines);
    }
}

/// The lines of `s` that are not blank.
pub fn record_list(s: &str) -> (r: Vec<String>)
    ensures
        text::views(r@) == records(s@),
{
    let lines = text::lines_text(s);
    let ghost ls = text::views(lines@);
    let mut out: Vec<String> = Vec::new();
    let mut i: usize = 0;
    proof {
        reveal(Seq::filter);
        assert(ls.take(0) =~= seq![]);
        assert(text::views(out@) =~= ls.take(0).filter(|l: Seq<char>| !text::blank(l)));
    }
    while i < lines.len()
        invariant
            i <= lines@.len(),
            ls == text::views(lines@),
            text::views(out@) == ls.take(i as int).filter(|l: Seq<char>| !text::blank(l)),
        decreases lines@.len() - i,
    {
        let ghost before = out@;
        let ghost upto = ls.take(i + 1);
        assert(upto.drop_last() =~= ls.take(i as int));
        assert(ls[i as int] == lines@[i as int]@);
        proof {
            reveal(Seq::filter);
        }
        if !text::is_blank(lines[i].as_str()) {
            out.push(lines[i].clone());
            assert(text::views(out@) =~= text::views(before).push(ls[i as int]));
        }
        i += 1;
    }
    assert(ls.take(i as int) =~= ls);
    out
}

/// `out` is what `decode` makes of the records of `s`, one after the other, less those
/// that it makes nothing of.
pub open spec fn decoded<T, F: Fn(&String) -> Option<T>>(
    s: Seq<char>,
    decode: F,
    out: Seq<T>,
) -> bool {
    exists|lines: Seq<String>, outcomes: Seq<Option<T>>|
        {
            &&& #[trigger] text::views(lines) == records(s)
            &&& outcomes.len() == lines.len()
            &&& forall|i: int|
                0 <= i < lines.len() ==> call_ensures(decode, (&lines[i],), #[trigger] outcomes[i])
            &&& out == #[trigger] present(outcomes)
        }
}

/// Parse JSONL text (blank/unparseable lines skipped). What a line holds is for
/// `decode` to say.
pub fn parse<T, F: Fn(&String) -> Option<T>>(s: &str, decode: F) -> (r: Vec<T>)
    requires
        forall|line: &String| call_requires(decode, (line,)),
    ensures
        decoded(s@, decode, r@),
{
    let lines = record_list(s);
    let mut out: Vec<T> = Vec::new();
    let ghost mut outcomes: Seq<Option<T>> = seq![];
    let mut i: usize = 0;
    while i < lines.len()
        invariant
            i <= lines@.len(),
            outcomes.len() == i,
            forall|line: &String| call_requires(decode, (line,)),
            forall|k: int|
                0 <= k < i ==> call_ensures(decode, (&lines@[k],), #[trigger] outcomes[k]),
            out@ == present(outcomes),
        decreases lines@.len() - i,
    {
        let outcome = decode(&lines[i]);
        proof {
            let grown = outcomes.push(outcome);
            assert(grown.drop_last() =~= outcomes);
            outcomes = grown;
        }
        if let Some(t) = outcome {
            out.push(t);
        }
        i += 1;
    }
    assert(text::views(lines@) == records(s@) && out@ == present(outcomes));
    out
}

/// Of a list of outcomes, those that are there are kept, in their order, and no other.
pub proof fn law_present_are_kept<T>(a: Seq<Option<T>>, b: Seq<Option<T>>, t: T)
    ensures
        present(a + b) == present(a) + present(b),
        present(seq![Some(t)]) == seq![t],
        present(seq![None::<T>]).len() == 0,
    decreases b.len(),
{
    reveal_with_fuel(present, 2);
    assert(seq![Some(t)].drop_last() =~= seq![]);
    assert(seq![None::<T>].drop_last() =~= seq![]);
    assert(present(seq![Some(t)]) =~= seq![t]);
    if b.len() == 0 {
        assert(a + b =~= a);
    } else {
        law_present_are_kept(a, b.drop_last(), t);
        assert((a + b).drop_last() =~= a + b.drop_last());
    }
    assert(present(a + b) =~= present(a) + present(b));
}

} // verus!
