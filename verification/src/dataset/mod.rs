//! Dataset management: inspect and transform the training dataset, and (in
//! [`format`]) convert to/from common chat-dataset file formats.

pub mod format;
pub mod group;
pub mod records;
pub mod shuffle;
pub mod split;

pub use crate::model::dataset::{ChatMsg, Meta, TrainingExample};
pub use records::parse;
pub use split::{make_split, Share, Split, SplitSpec, SplitStrategy};

use crate::llm::types::Turn;
use crate::model::dataset;
use crate::name_map::NameMap;
use crate::text;
use vstd::prelude::*;

verus! {

/// Summary counts for a dataset.
#[derive(Debug)]
pub struct Stats {
    pub total: usize,
    pub edited: usize,
    pub conversations: usize,
    pub by_source: NameMap<usize>,
}

/// Where each example comes from.
pub open spec fn sources(examples: Seq<TrainingExample>) -> Seq<Seq<char>> {
    examples.map_values(|e: TrainingExample| e.meta.source@)
}

/// How many of the examples were edited.
pub open spec fn edited_count(examples: Seq<TrainingExample>) -> nat
    decreases examples.len(),
{
    if examples.len() == 0 {
        0
    } else {
        edited_count(examples.drop_last()) + if examples.last().meta.edited {
            1nat
        } else {
            0
        }
    }
}

/// How many distinct keys there are.
pub open spec fn distinct_count(keys: Seq<Seq<char>>) -> nat {
    group::leaders(keys, keys.len()).len()
}

/// `m` counts, for every key among the first `n`, how often it stands there.
pub open spec fn counts(m: NameMap<usize>, keys: Seq<Seq<char>>, n: nat) -> bool {
    &&& forall|k: Seq<char>| #[trigger]
        m.has(k) <==> exists|j: int| 0 <= j < n && #[trigger] keys[j] == k
    &&& forall|k: Seq<char>| #[trigger] m.has(k) ==> m.at(k) == group::members(keys, k, n).len()
}

proof fn lemma_count_step(m0: NameMap<usize>, m1: NameMap<usize>, keys: Seq<Seq<char>>, n: nat)
    requires
        counts(m0, keys, n),
        n < keys.len(),
        forall|k: Seq<char>| #[trigger] m1.has(k) <==> m0.has(k) || k == keys[n as int],
        forall|k: Seq<char>|
            k != keys[n as int] && m0.has(k) ==> #[trigger] m1.at(k) == m0.at(k),
        m0.has(keys[n as int]) ==> m1.at(keys[n as int]) == m0.at(keys[n as int]) + 1,
        !m0.has(keys[n as int]) ==> m1.at(keys[n as int]) == 1,
    ensures
        counts(m1, keys, n + 1),
{
    let key = keys[n as int];
    assert forall|k: Seq<char>| #[trigger] m1.has(k) <==> exists|j: int|
        0 <= j < n + 1 && #[trigger] keys[j] == k by {
        if m1.has(k) {
            if k == key {
                assert(keys[n as int] == k);
            } else {
                let j = choose|j: int| 0 <= j < n && #[trigger] keys[j] == k;
                assert(keys[j] == k);
            }
        }
        if exists|j: int| 0 <= j < n + 1 && #[trigger] keys[j] == k {
            let j = choose|j: int| 0 <= j < n + 1 && #[trigger] keys[j] == k;
            if j < n {
                assert(m0.has(k));
            }
        }
    }
    assert forall|k: Seq<char>| #[trigger] m1.has(k) implies m1.at(k) == group::members(
        keys,
        k,
        n + 1,
    ).len() by {
        if k == key && !m0.has(k) {
            group::lemma_members(keys, k, n);
            let before = group::members(keys, k, n);
            if before.len() > 0 {
                assert(before.contains(before[0]));
                assert(keys[before[0]] == k);
                assert(m0.has(k));
            }
        }
    }
}

/// How many entries `m` holds where it counts the keys.
proof fn lemma_count_len(m: NameMap<usize>, keys: Seq<Seq<char>>, n: nat)
    requires
        counts(m, keys, n),
        m.ordered(),
        n <= keys.len(),
    ensures
        m.names().len() == group::leaders(keys, n).len(),
{
    let ls = group::leaders(keys, n);
    let firsts = ls.map_values(|l: int| keys[l]);
    group::lemma_leaders(keys, n);
    assert(firsts.no_duplicates()) by {
        assert forall|p: int, q: int| 0 <= p < q < firsts.len() implies firsts[p] != firsts[q] by {
            if firsts[p] == firsts[q] {
                group::lemma_leaders_differ(keys, n, p, q);
            }
        }
    }
    let names = m.names();
    assert(names.no_duplicates()) by {
        assert forall|p: int, q: int| 0 <= p < q < names.len() implies names[p] != names[q] by {
            crate::order::lemma_not_before_itself(names[p]);
        }
    }
    assert(names.to_set() =~= firsts.to_set()) by {
        assert forall|k: Seq<char>| names.contains(k) <==> firsts.contains(k) by {
            if names.contains(k) {
                assert(m.has(k));
                let j = choose|j: int| 0 <= j < n && #[trigger] keys[j] == k;
                let g = group::lemma_leader_of(keys, n, j);
                assert(firsts[g] == k);
            }
            if firsts.contains(k) {
                let g = firsts.index_of(k);
                assert(keys[ls[g]] == k);
                assert(m.has(k));
            }
        }
    }
    names.unique_seq_to_set();
    firsts.unique_seq_to_set();
}

fn count_key(m: &mut NameMap<usize>, key: &String, Ghost(keys): Ghost<Seq<Seq<char>>>, n: usize)
    requires
        counts(*old(m), keys, n as nat),
        n < keys.len(),
        keys[n as int] == key@,
        n < usize::MAX,
    ensures
        counts(*final(m), keys, (n + 1) as nat),
        final(m).ordered(),
{
    let ghost was = *m;
    let seen: usize = match m.get(key.as_str()) {
        Some(c) => *c,
        None => 0,
    };
    proof {
        group::lemma_members(keys, key@, n as nat);
    }
    m.insert(key.clone(), seen + 1);
    proof {
        lemma_count_step(was, *m, keys, n as nat);
    }
}

/// Count the examples: all, the edited ones, the conversations, and each source.
pub fn stats(examples: &[TrainingExample]) -> (r: Stats)
    ensures
        r.total == examples@.len(),
        r.edited == edited_count(examples@),
        r.conversations == distinct_count(split::conversation_ids(examples@)),
        counts(r.by_source, sources(examples@), examples@.len()),
{
    let ghost ids = split::conversation_ids(examples@);
    let ghost from = sources(examples@);
    let mut by_source: NameMap<usize> = NameMap::new();
    let mut conversations: NameMap<usize> = NameMap::new();
    let mut edited: usize = 0;
    let mut i: usize = 0;
    while i < examples.len()
        invariant
            i <= examples@.len(),
            ids == split::conversation_ids(examples@),
            from == sources(examples@),
            edited <= i,
            edited == edited_count(examples@.take(i as int)),
            counts(by_source, from, i as nat),
            counts(conversations, ids, i as nat),
            conversations.ordered(),
        decreases examples@.len() - i,
    {
        let ex = &examples[i];
        assert(examples@.take(i + 1).drop_last() =~= examples@.take(i as int));
        if ex.meta.edited {
            edited += 1;
        }
        count_key(&mut by_source, &ex.meta.source, Ghost(from), i);
        count_key(&mut conversations, &ex.meta.conversation_id, Ghost(ids), i);
        i += 1;
    }
    assert(examples@.take(i as int) =~= examples@);
    proof {
        lemma_count_len(conversations, ids, i as nat);
    }
    Stats { total: examples.len(), edited, conversations: conversations.len(), by_source }
}

/// What is said, white space at the ends of each message aside.
pub open spec fn normalized(turns: Seq<Turn>) -> Seq<Turn> {
    turns.map_values(|t: Turn| Turn { role: t.role, content: text::trim(t.content) })
}

/// What an example says, white space at the ends of each message aside.
pub open spec fn said_in(e: TrainingExample) -> Seq<Turn> {
    normalized(dataset::chat_turns(e.messages@))
}

/// What each example says.
pub open spec fn contents(examples: Seq<TrainingExample>) -> Seq<Seq<Turn>> {
    examples.map_values(|e: TrainingExample| said_in(e))
}

/// An example before the one at `i` says the same as that one.
pub open spec fn repeats(examples: Seq<TrainingExample>, i: int) -> bool {
    exists|j: int| 0 <= j < i && #[trigger] said_in(examples[j]) == said_in(examples[i])
}

/// The examples whose content stands nowhere before them, in order.
pub open spec fn deduped(examples: Seq<TrainingExample>) -> Seq<TrainingExample>
    decreases examples.len(),
{
    if examples.len() == 0 {
        seq![]
    } else {
        let before = deduped(examples.drop_last());
        if repeats(examples, examples.len() - 1) {
            before
        } else {
            before.push(examples.last())
        }
    }
}

/// How a character stands in a content key. The two marks that the key sets behind roles
/// and contents, and the character that escapes them, are written as that character and
/// a digit.
pub open spec fn escape(c: char) -> Seq<char> {
    if c == '\u{0}' {
        seq!['\u{0}', '0']
    } else if c == '\u{1}' {
        seq!['\u{0}', '1']
    } else if c == '\u{2}' {
        seq!['\u{0}', '2']
    } else {
        seq![c]
    }
}

/// `s`, character by character, as it stands in a content key.
pub open spec fn escaped(s: Seq<char>) -> Seq<char>
    decreases s.len(),
{
    if s.len() == 0 {
        seq![]
    } else {
        escape(s[0]) + escaped(s.drop_first())
    }
}

/// A normalized content key: role-tagged, whitespace-trimmed message text. Case
/// is preserved (code is case-sensitive). It is the full text (not a hash), in which no
/// message can be taken for a mark, so dedup is collision-free.
pub open spec fn content_key(turns: Seq<Turn>) -> Seq<char>
    decreases turns.len(),
{
    if turns.len() == 0 {
        seq![]
    } else {
        content_key(turns.drop_last()) + escaped(turns.last().role) + seq!['\u{1}'] + escaped(
            text::trim(turns.last().content),
        ) + seq!['\u{2}']
    }
}

/// The content key of each example.
pub open spec fn content_keys(examples: Seq<TrainingExample>) -> Seq<Seq<char>> {
    examples.map_values(|e: TrainingExample| content_key(dataset::chat_turns(e.messages@)))
}

/// `s` does not hold `c`.
spec fn free_of(s: Seq<char>, c: char) -> bool {
    forall|i: int| 0 <= i < s.len() ==> #[trigger] s[i] != c
}

/// No mark is left in escaped text.
proof fn lemma_escaped_free(s: Seq<char>)
    ensures
        free_of(escaped(s), '\u{1}'),
        free_of(escaped(s), '\u{2}'),
    decreases s.len(),
{
    if s.len() > 0 {
        lemma_escaped_free(s.drop_first());
        let first = escape(s[0]);
        let rest = escaped(s.drop_first());
        assert forall|i: int| 0 <= i < escaped(s).len() implies #[trigger] escaped(s)[i] != '\u{1}'
            && escaped(s)[i] != '\u{2}' by {
            if i >= first.len() {
                assert(escaped(s)[i] == rest[i - first.len()]);
            }
        }
    }
}

/// Escaped text tells what it stands for.
proof fn lemma_escaped_injective(a: Seq<char>, b: Seq<char>)
    requires
        escaped(a) == escaped(b),
    ensures
        a == b,
    decreases a.len(),
{
    if a.len() > 0 && b.len() > 0 {
        let (ra, rb) = (escaped(a.drop_first()), escaped(b.drop_first()));
        let (ea, eb) = (escape(a[0]), escape(b[0]));
        assert(escaped(a)[0] == ea[0] && escaped(b)[0] == eb[0]);
        if ea.len() == 2 && eb.len() == 2 {
            assert(escaped(a)[1] == ea[1] && escaped(b)[1] == eb[1]);
        }
        assert(a[0] == b[0]);
        assert(ra =~= escaped(a).skip(ea.len() as int));
        assert(rb =~= escaped(b).skip(eb.len() as int));
        lemma_escaped_injective(a.drop_first(), b.drop_first());
        assert(a =~= seq![a[0]] + a.drop_first());
        assert(b =~= seq![b[0]] + b.drop_first());
    } else {
        assert(a.len() > 0 ==> escaped(a).len() > 0);
        assert(b.len() > 0 ==> escaped(b).len() > 0);
        assert(a =~= b);
    }
}

/// What stands before a mark that it does not hold can be told from the whole.
proof fn lemma_before_mark(x: Seq<char>, p: Seq<char>, y: Seq<char>, q: Seq<char>, mark: char)
    requires
        free_of(x, mark),
        free_of(y, mark),
        x + seq![mark] + p == y + seq![mark] + q,
    ensures
        x == y,
        p == q,
{
    let all = x + seq![mark] + p;
    if x.len() < y.len() {
        assert(all[x.len() as int] == mark);
        assert((y + seq![mark] + q)[x.len() as int] == y[x.len() as int]);
    }
    if y.len() < x.len() {
        assert((y + seq![mark] + q)[y.len() as int] == mark);
        assert(all[y.len() as int] == x[y.len() as int]);
    }
    assert(x =~= all.take(x.len() as int));
    assert(y =~= (y + seq![mark] + q).take(y.len() as int));
    assert(p =~= all.skip(x.len() as int + 1));
    assert(q =~= (y + seq![mark] + q).skip(y.len() as int + 1));
}

/// The key of the first message, and then that of the rest.
proof fn lemma_key_first(turns: Seq<Turn>)
    requires
        turns.len() > 0,
    ensures
        content_key(turns) == escaped(turns[0].role) + seq!['\u{1}'] + (escaped(
            text::trim(turns[0].content),
        ) + seq!['\u{2}'] + content_key(turns.drop_first())),
    decreases turns.len(),
{
    let rest = turns.drop_first();
    if turns.len() == 1 {
        assert(turns.drop_last() =~= seq![]);
        assert(rest =~= seq![]);
        assert(content_key(seq![]) =~= seq![]);
    } else {
        lemma_key_first(turns.drop_last());
        assert(turns.drop_last().drop_first() =~= rest.drop_last());
        assert(rest.last() == turns.last());
    }
    assert(content_key(turns) =~= escaped(turns[0].role) + seq!['\u{1}'] + (escaped(
        text::trim(turns[0].content),
    ) + seq!['\u{2}'] + content_key(rest)));
}

/// The content key tells contents apart: two lists of messages have one key exactly where
/// they say the same, white space at the ends of each message aside.
pub proof fn law_content_key_is_exact(a: Seq<Turn>, b: Seq<Turn>)
    ensures
        content_key(a) == content_key(b) <==> normalized(a) == normalized(b),
    decreases a.len(),
{
    if a.len() > 0 {
        lemma_key_first(a);
    }
    if b.len() > 0 {
        lemma_key_first(b);
    }
    if a.len() > 0 && b.len() > 0 {
        let (ra, rb) = (a.drop_first(), b.drop_first());
        let (ca, cb) = (text::trim(a[0].content), text::trim(b[0].content));
        lemma_escaped_free(a[0].role);
        lemma_escaped_free(b[0].role);
        lemma_escaped_free(ca);
        lemma_escaped_free(cb);
        law_content_key_is_exact(ra, rb);
        let (na, nb) = (normalized(a), normalized(b));
        assert(na.drop_first() =~= normalized(ra));
        assert(nb.drop_first() =~= normalized(rb));
        if content_key(a) == content_key(b) {
            lemma_before_mark(
                escaped(a[0].role),
                escaped(ca) + seq!['\u{2}'] + content_key(ra),
                escaped(b[0].role),
                escaped(cb) + seq!['\u{2}'] + content_key(rb),
                '\u{1}',
            );
            lemma_before_mark(
                escaped(ca),
                content_key(ra),
                escaped(cb),
                content_key(rb),
                '\u{2}',
            );
            lemma_escaped_injective(a[0].role, b[0].role);
            lemma_escaped_injective(ca, cb);
            assert(na[0] == nb[0]);
            assert forall|i: int| 0 <= i < na.len() implies na[i] == nb[i] by {
                if i > 0 {
                    assert(na.drop_first()[i - 1] == nb.drop_first()[i - 1]);
                }
            }
            assert(na.len() == na.drop_first().len() + 1 && nb.len() == nb.drop_first().len() + 1);
            assert(na =~= nb);
        }
        if na == nb {
            assert(na[0] == nb[0]);
        }
    } else {
        assert(normalized(a).len() == a.len() && normalized(b).len() == b.len());
        if a.len() == 0 && b.len() == 0 {
            assert(normalized(a) =~= normalized(b));
        }
    }
}

/// A key stands for the first time where an example repeats none before it.
proof fn lemma_first_key(examples: Seq<TrainingExample>, i: int)
    requires
        0 <= i < examples.len(),
    ensures
        group::is_first_at(content_keys(examples), i) <==> !repeats(examples, i),
{
    let keys = content_keys(examples);
    assert forall|j: int| 0 <= j < i implies (#[trigger] keys[j] == keys[i] <==> said_in(
        examples[j],
    ) == said_in(examples[i])) by {
        law_content_key_is_exact(
            dataset::chat_turns(examples[j].messages@),
            dataset::chat_turns(examples[i].messages@),
        );
    }
    if group::is_first_at(keys, i) && repeats(examples, i) {
        let j = choose|j: int|
            0 <= j < i && #[trigger] said_in(examples[j]) == said_in(examples[i]);
        assert(keys[j] != keys[i]);
    }
    if !group::is_first_at(keys, i) {
        let j = choose|j: int| 0 <= j < i && #[trigger] keys[j] == keys[i];
        assert(said_in(examples[j]) == said_in(examples[i]));
    }
}

/// The examples at the places where a key first stands are those that repeat nothing.
proof fn lemma_deduped(examples: Seq<TrainingExample>, n: nat)
    requires
        n <= examples.len(),
    ensures
        deduped(examples.take(n as int)) == group::leaders(content_keys(examples), n).map_values(
            |i: int| examples[i],
        ),
    decreases n,
{
    let first = examples.take(n as int);
    if n > 0 {
        lemma_deduped(examples, (n - 1) as nat);
        lemma_first_key(examples, n - 1);
        assert(first.drop_last() =~= examples.take(n - 1));
        assert forall|j: int| 0 <= j < n implies #[trigger] first[j] == examples[j] by {}
        assert(repeats(first, n - 1) <==> repeats(examples, n - 1)) by {
            if repeats(first, n - 1) {
                let j = choose|j: int|
                    0 <= j < n - 1 && #[trigger] said_in(first[j]) == said_in(first[n - 1]);
                assert(said_in(examples[j]) == said_in(examples[n - 1]));
            }
            if repeats(examples, n - 1) {
                let j = choose|j: int|
                    0 <= j < n - 1 && #[trigger] said_in(examples[j]) == said_in(examples[n - 1]);
                assert(said_in(first[j]) == said_in(first[n - 1]));
            }
        }
    }
    assert(deduped(first) =~= group::leaders(content_keys(examples), n).map_values(
        |i: int| examples[i],
    ));
}

fn push_escaped(out: &mut String, s: &str)
    ensures
        final(out)@ == old(out)@ + escaped(s@),
{
    let chars = text::chars_of(s);
    let ghost before = out@;
    let mut i: usize = 0;
    assert(s@.skip(0) =~= s@);
    assert(before + escaped(s@) == out@ + escaped(s@.skip(0)));
    while i < chars.len()
        invariant
            i <= chars@.len(),
            chars@ == s@,
            before + escaped(s@) == out@ + escaped(s@.skip(i as int)),
        decreases chars@.len() - i,
    {
        let c = chars[i];
        let ghost was = out@;
        if c == '\u{0}' {
            out.push('\u{0}');
            out.push('0');
        } else if c == '\u{1}' {
            out.push('\u{0}');
            out.push('1');
        } else if c == '\u{2}' {
            out.push('\u{0}');
            out.push('2');
        } else {
            out.push(c);
        }
        assert(out@ =~= was + escape(c));
        assert(s@.skip(i as int).drop_first() =~= s@.skip(i + 1));
        assert(out@ + escaped(s@.skip(i + 1)) =~= was + escaped(s@.skip(i as int)));
        i += 1;
    }
    assert(out@ =~= out@ + escaped(s@.skip(i as int)));
}

fn content_key_text(messages: &Vec<ChatMsg>) -> (r: String)
    ensures
        r@ == content_key(dataset::chat_turns(messages@)),
{
    let ghost turns = dataset::chat_turns(messages@);
    let mut out = String::new();
    let mut i: usize = 0;
    while i < messages.len()
        invariant
            i <= messages@.len(),
            turns == dataset::chat_turns(messages@),
            out@ == content_key(turns.take(i as int)),
        decreases messages@.len() - i,
    {
        let m = &messages[i];
        assert(turns.take(i + 1).drop_last() =~= turns.take(i as int));
        let content = text::trim_text(m.content.as_str());
        let ghost before = out@;
        push_escaped(&mut out, m.role.as_str());
        out.push('\u{1}');
        push_escaped(&mut out, content.as_str());
        out.push('\u{2}');
        assert(out@ =~= before + escaped(m.role@) + seq!['\u{1}'] + escaped(content@) + seq![
            '\u{2}',
        ]);
        i += 1;
    }
    assert(turns.take(i as int) =~= turns);
    out
}

/// Remove examples whose normalized message content duplicates an earlier one.
/// Keeps the first occurrence; returns the number removed.
pub fn dedup(examples: &mut Vec<TrainingExample>) -> (r: usize)
    ensures
        final(examples)@ == deduped(old(examples)@),
        r == old(examples)@.len() - final(examples)@.len(),
{
    let ghost all = old(examples)@;
    let ghost keys = content_keys(all);
    let mut before: Vec<TrainingExample> = Vec::new();
    std::mem::swap(&mut before, examples);
    let total = before.len();
    let mut seen: NameMap<usize> = NameMap::new();
    let mut i: usize = 0;
    proof {
        group::lemma_leaders(keys, all.len());
    }
    for ex in it: before
        invariant
            it.seq() == all,
            keys == content_keys(all),
            i == it.index(),
            total == all.len(),
            i <= total,
            counts(seen, keys, i as nat),
            examples@ == group::leaders(keys, i as nat).map_values(|k: int| all[k]),
    {
        let key = content_key_text(&ex.messages);
        let ghost so_far = examples@;
        assert(ex == all[i as int]);
        assert(keys[i as int] == key@);
        let known = seen.contains_key(key.as_str());
        proof {
            if known {
                let j = choose|j: int| 0 <= j < i && #[trigger] keys[j] == key@;
                assert(keys[j] == key@);
                assert(!group::is_first_at(keys, i as int));
            } else {
                assert forall|j: int| 0 <= j < i implies #[trigger] keys[j] != keys[i as int] by {
                    if keys[j] == key@ {
                        assert(seen.has(key@));
                    }
                }
                assert(group::is_first_at(keys, i as int));
            }
        }
        count_key(&mut seen, &key, Ghost(keys), i);
        if !known {
            examples.push(ex);
            assert(examples@ =~= group::leaders(keys, (i + 1) as nat).map_values(
                |k: int| all[k],
            ));
        }
        i += 1;
    }
    proof {
        assert(all.take(i as int) =~= all);
        lemma_deduped(all, all.len());
    }
    total - examples.len()
}

/// `kept` are the positions, in order, of the examples that repeat none before them.
pub open spec fn are_firsts(examples: Seq<TrainingExample>, kept: Seq<int>) -> bool {
    &&& forall|i: int| #[trigger]
        kept.contains(i) <==> 0 <= i < examples.len() && !repeats(examples, i)
    &&& forall|p: int, q: int| 0 <= p < q < kept.len() ==> #[trigger] kept[p] < #[trigger] kept[q]
}

/// An example goes exactly where an earlier one says the same; the others stay, in order.
pub proof fn law_only_repetitions_go(examples: Seq<TrainingExample>)
    ensures
        exists|kept: Seq<int>| #[trigger]
            are_firsts(examples, kept) && deduped(examples) == kept.map_values(
                |i: int| examples[i],
            ),
{
    let n = examples.len();
    let keys = content_keys(examples);
    let kept = group::leaders(keys, n);
    group::lemma_leaders(keys, n);
    lemma_deduped(examples, n);
    assert(examples.take(n as int) =~= examples);
    assert forall|i: int| #[trigger] kept.contains(i) <==> 0 <= i < n && !repeats(
        examples,
        i,
    ) by {
        if 0 <= i < n {
            lemma_first_key(examples, i);
        }
    }
    assert(are_firsts(examples, kept));
}

/// What is left after removing duplicates has no duplicates, and nothing that was said
/// is lost: the content of every example is still there.
pub proof fn law_dedup(examples: Seq<TrainingExample>)
    ensures
        contents(deduped(examples)).no_duplicates(),
        forall|c: Seq<Turn>| #[trigger]
            contents(deduped(examples)).contains(c) <==> contents(examples).contains(c),
        deduped(examples).len() <= examples.len(),
        forall|p: int|
            0 <= p < deduped(examples).len() ==> examples.contains(#[trigger] deduped(examples)[p]),
{
    let n = examples.len();
    let keys = content_keys(examples);
    let ls = group::leaders(keys, n);
    let said = contents(examples);
    let kept = contents(deduped(examples));
    group::lemma_leaders(keys, n);
    lemma_deduped(examples, n);
    assert(examples.take(n as int) =~= examples);
    assert forall|p: int| 0 <= p < kept.len() implies #[trigger] kept[p] == said[ls[p]] by {}
    assert forall|p: int, q: int| 0 <= p < q < kept.len() implies kept[p] != kept[q] by {
        lemma_first_key(examples, ls[q]);
        assert(said_in(examples[ls[p]]) == kept[p]);
        assert(said_in(examples[ls[q]]) == kept[q]);
    }
    assert forall|c: Seq<Turn>| #[trigger] kept.contains(c) <==> said.contains(c) by {
        if kept.contains(c) {
            let p = kept.index_of(c);
            assert(said[ls[p]] == c);
        }
        if said.contains(c) {
            let j = said.index_of(c);
            let g = group::lemma_leader_of(keys, n, j);
            law_content_key_is_exact(
                dataset::chat_turns(examples[ls[g]].messages@),
                dataset::chat_turns(examples[j].messages@),
            );
            assert(kept[g] == c);
        }
    }
    assert forall|p: int| 0 <= p < deduped(examples).len() implies examples.contains(
        #[trigger] deduped(examples)[p],
    ) by {
        assert(examples[ls[p]] == deduped(examples)[p]);
    }
}

/// Where no two examples say the same, all of them stay.
proof fn lemma_all_stay(examples: Seq<TrainingExample>)
    requires
        contents(examples).no_duplicates(),
    ensures
        deduped(examples) == examples,
    decreases examples.len(),
{
    if examples.len() > 0 {
        let (rest, last) = (examples.drop_last(), examples.len() - 1);
        let said = contents(examples);
        assert(contents(rest) =~= said.drop_last());
        lemma_all_stay(rest);
        assert forall|j: int| 0 <= j < last implies #[trigger] said_in(examples[j]) != said_in(
            examples[last],
        ) by {
            assert(said[j] != said[last]);
        }
        assert(rest.push(examples.last()) =~= examples);
    } else {
        assert(deduped(examples) =~= examples);
    }
}

/// Removing duplicates a second time removes nothing.
pub proof fn law_dedup_twice(examples: Seq<TrainingExample>)
    ensures
        deduped(deduped(examples)) == deduped(examples),
{
    law_dedup(examples);
    lemma_all_stay(deduped(examples));
}

/// Two examples say the same if and only if they have as many messages, and each message of
/// the one has the role of its counterpart and its text, character for character, white
/// space at the ends aside.
pub proof fn law_same_content(a: TrainingExample, b: TrainingExample)
    ensures
        said_in(a) == said_in(b) <==> a@.messages.len() == b@.messages.len() && forall|i: int|
            #![trigger a@.messages[i]]
            0 <= i < a@.messages.len() ==> a@.messages[i].role == b@.messages[i].role && exists|
                core: Seq<char>,
            |
                text::is_core(core, a@.messages[i].content) && text::is_core(
                    core,
                    b@.messages[i].content,
                ),
{
    let (ta, tb) = (a@.messages, b@.messages);
    let (na, nb) = (said_in(a), said_in(b));
    assert forall|i: int| 0 <= i < ta.len() && 0 <= i < tb.len() implies (#[trigger] na[i] == nb[i]
        <==> ta[i].role == tb[i].role && exists|core: Seq<char>|
        text::is_core(core, ta[i].content) && text::is_core(core, tb[i].content)) by {
        let (ca, cb) = (ta[i].content, tb[i].content);
        text::law_trim(ca);
        text::law_trim(cb);
        if exists|core: Seq<char>| text::is_core(core, ca) && text::is_core(core, cb) {
            let core = choose|core: Seq<char>| text::is_core(core, ca) && text::is_core(core, cb);
            text::lemma_one_core(core, text::trim(ca), ca);
            text::lemma_one_core(core, text::trim(cb), cb);
        }
    }
    assert(na.len() == ta.len() && nb.len() == tb.len());
    if na == nb {
        assert forall|i: int|
            #![trigger ta[i]]
            0 <= i < ta.len() implies ta[i].role == tb[i].role && exists|core: Seq<char>|
            text::is_core(core, ta[i].content) && text::is_core(core, tb[i].content) by {
            assert(na[i] == nb[i]);
        }
    }
    if ta.len() == tb.len() && forall|i: int|
        #![trigger ta[i]]
        0 <= i < ta.len() ==> ta[i].role == tb[i].role && exists|core: Seq<char>|
            text::is_core(core, ta[i].content) && text::is_core(core, tb[i].content) {
        assert forall|i: int| 0 <= i < na.len() implies na[i] == nb[i] by {
            assert(ta[i].role == tb[i].role);
        }
        assert(na =~= nb);
    }
}

/// The statistics count: the edited examples, the conversations, and of each source its
/// examples.
pub proof fn law_stats_count(examples: Seq<TrainingExample>)
    ensures
        edited_count(examples) == examples.filter(|e: TrainingExample| e.meta.edited).len(),
        distinct_count(split::conversation_ids(examples)) == split::conversation_ids(
            examples,
        ).to_set().len(),
{
    lemma_edited_is_filter(examples);
    let ids = split::conversation_ids(examples);
    let n = ids.len();
    let ls = group::leaders(ids, n);
    group::lemma_leaders(ids, n);
    let firsts = ls.map_values(|l: int| ids[l]);
    assert(firsts.no_duplicates()) by {
        assert forall|p: int, q: int| 0 <= p < q < firsts.len() implies firsts[p] != firsts[q] by {
            if firsts[p] == firsts[q] {
                group::lemma_leaders_differ(ids, n, p, q);
            }
        }
    }
    assert(firsts.to_set() =~= ids.to_set()) by {
        assert forall|k: Seq<char>| firsts.contains(k) <==> ids.contains(k) by {
            if firsts.contains(k) {
                let g = firsts.index_of(k);
                assert(ids[ls[g]] == k);
            }
            if ids.contains(k) {
                let j = ids.index_of(k);
                let g = group::lemma_leader_of(ids, n, j);
                assert(firsts[g] == k);
            }
        }
    }
    firsts.unique_seq_to_set();
}

proof fn lemma_edited_is_filter(examples: Seq<TrainingExample>)
    ensures
        edited_count(examples) == examples.filter(|e: TrainingExample| e.meta.edited).len(),
    decreases examples.len(),
{
    reveal(Seq::filter);
    if examples.len() > 0 {
        lemma_edited_is_filter(examples.drop_last());
    }
}

/// What is counted under a source is how many examples have it.
pub proof fn law_sources_are_counted(
    by_source: NameMap<usize>,
    examples: Seq<TrainingExample>,
    source: Seq<char>,
)
    requires
        counts(by_source, sources(examples), examples.len()),
    ensures
        by_source.has(source) <==> sources(examples).contains(source),
        by_source.has(source) ==> by_source.at(source) == split::conversation_size(
            sources(examples),
            source,
        ),
{
    let from = sources(examples);
    if by_source.has(source) {
        let j = choose|j: int| 0 <= j < examples.len() && #[trigger] from[j] == source;
        assert(from.contains(from[j]));
        split::lemma_members_len(from, source, from.len());
        assert(from.take(from.len() as int) =~= from);
    }
    if from.contains(source) {
        let j = from.index_of(source);
        assert(from[j] == source);
    }
}

} // verus!
