//! How conversations are kept on disk, and how they are listed.

use crate::clock;
use crate::ids;
use crate::model::Conversation;
use crate::order;
use crate::sorting;
use crate::sorting::Ranked;
use crate::text;
use vstd::prelude::*;

verus! {

/// A saved-conversation list entry: (id, title, updated_at).
pub type ConvEntry = (String, String, String);

/// The file of the conversation written as `id`.
pub fn conversation_file(id: &str) -> (r: String)
    ensures
        r@ == id@ + ".json"@,
{
    let mut name = id.to_owned();
    name.append(".json");
    name
}

/// What a conversation is written to before it is put in place.
pub fn conversation_tmp_file(id: &str) -> (r: String)
    ensures
        r@ == "."@ + id@ + ".json.tmp"@,
{
    let mut name = String::new();
    name.append(".");
    name.append(id);
    name.append(".json.tmp");
    assert(name@ =~= "."@ + id@ + ".json.tmp"@);
    name
}

/// What a dataset named `name` is written to before it is put in place.
pub fn dataset_tmp_file(name: &str) -> (r: String)
    ensures
        r@ == "."@ + name@ + ".tmp"@,
{
    let mut out = String::new();
    out.append(".");
    out.append(name);
    out.append(".tmp");
    assert(out@ =~= "."@ + name@ + ".tmp"@);
    out
}

/// `e` is the list entry of `c`.
pub open spec fn is_entry(e: ConvEntry, c: Conversation) -> bool {
    &&& e.0@ == ids::hyphenated(c.id.bits as nat)
    &&& e.1@ == c.title@
    &&& e.2@ == clock::rfc3339(c.updated_at@.0, c.updated_at@.1)
}

/// When each entry was updated, as it is written.
pub open spec fn update_texts(entries: Seq<ConvEntry>) -> Seq<String> {
    entries.map_values(|e: ConvEntry| e.2)
}

/// The entry of `c`.
pub fn entry_of(c: &Conversation) -> (r: ConvEntry)
    ensures
        is_entry(r, *c),
        clock::valid_time(c.updated_at@.0, c.updated_at@.1),
        forall|s: int, n: int|
            clock::valid_time(s, n) && clock::four_digit_year(s) && clock::four_digit_year(
                c.updated_at@.0,
            ) && clock::earlier((s, n), c.updated_at@) ==> order::before(
                #[trigger] clock::rfc3339(s, n),
                r.2@,
            ),
{
    (c.id.hyphenated_text(), c.title.clone(), c.updated_at.rfc3339_text())
}

/// The conversations are listed from the one updated last to the one updated first.
pub open spec fn newest_first(order: Seq<usize>, found: Seq<Conversation>) -> bool {
    forall|p: int, q: int|
        0 <= p < q < order.len() && clock::four_digit_year(
            found[order[p] as int].updated_at@.0,
        ) && clock::four_digit_year(found[order[q] as int].updated_at@.0) ==> !clock::earlier(
            found[#[trigger] order[p] as int].updated_at@,
            found[#[trigger] order[q] as int].updated_at@,
        )
}

/// One of the entries is that of `c`.
pub open spec fn is_listed(entries: Seq<ConvEntry>, c: Conversation) -> bool {
    exists|p: int| 0 <= p < entries.len() && is_entry(#[trigger] entries[p], c)
}

/// List saved conversations as (id, title, updated_at) newest-first.
pub fn list_conversations(found: &Vec<Conversation>) -> (r: Vec<ConvEntry>)
    ensures
        exists|entries: Seq<ConvEntry>, order: Seq<usize>|
            {
                &&& entries.len() == found@.len()
                &&& forall|i: int|
                    0 <= i < entries.len() ==> is_entry(#[trigger] entries[i], found@[i])
                &&& #[trigger] sorting::is_arrangement(order, entries.len())
                &&& sorting::is_descending(order, update_texts(entries))
                &&& r@ == #[trigger] sorting::arranged(entries, order)
                &&& newest_first(order, found@)
            },
        r@.len() == found@.len(),
        forall|i: int|
            0 <= i < found@.len() ==> is_listed(r@, #[trigger] found@[i]),
        forall|p: int, q: int|
            0 <= p < q < r@.len() ==> !order::before((#[trigger] r@[p]).2@, (#[trigger] r@[q]).2@),
{
    let mut entries: Vec<ConvEntry> = Vec::new();
    let mut keys: Vec<String> = Vec::new();
    let mut i: usize = 0;
    while i < found.len()
        invariant
            i <= found@.len(),
            entries@.len() == i,
            keys@.len() == i,
            forall|k: int| 0 <= k < i ==> is_entry(#[trigger] entries@[k], found@[k]),
            forall|k: int| 0 <= k < i ==> #[trigger] keys@[k] == entries@[k].2,
            forall|k: int, s: int, n: int|
                0 <= k < i && clock::valid_time(s, n) && clock::four_digit_year(s)
                    && clock::four_digit_year(found@[k].updated_at@.0) && clock::earlier(
                    (s, n),
                    found@[k].updated_at@,
                ) ==> order::before(#[trigger] clock::rfc3339(s, n), (#[trigger] entries@[k]).2@),
            forall|k: int|
                0 <= k < i ==> clock::valid_time(
                    (#[trigger] found@[k]).updated_at@.0,
                    found@[k].updated_at@.1,
                ),
        decreases found@.len() - i,
    {
        let e = entry_of(&found[i]);
        keys.push(e.2.clone());
        entries.push(e);
        i += 1;
    }
    let order = sorting::descending(&keys);
    let ghost es = entries@;
    assert(keys@ =~= update_texts(es));
    proof {
        assert forall|p: int, q: int|
            0 <= p < q < order@.len() && clock::four_digit_year(
                found@[order@[p] as int].updated_at@.0,
            ) && clock::four_digit_year(
                found@[order@[q] as int].updated_at@.0,
            ) implies !clock::earlier(
            found@[#[trigger] order@[p] as int].updated_at@,
            found@[#[trigger] order@[q] as int].updated_at@,
        ) by {
            let a = order@[p] as int;
            let b = order@[q] as int;
            let ta = found@[a].updated_at@;
            if clock::earlier(ta, found@[b].updated_at@) {
                assert(order::before(clock::rfc3339(ta.0, ta.1), es[b].2@));
                assert(is_entry(es[a], found@[a]));
                assert(keys@[a].below(keys@[b]));
            }
        }
        assert(newest_first(order@, found@));
    }
    let r = sorting::arrange(entries, &order);
    assert(sorting::is_arrangement(order@, es.len()) && r@ == sorting::arranged(es, order@));
    proof {
        assert forall|i: int| 0 <= i < found@.len() implies is_listed(
            r@,
            #[trigger] found@[i],
        ) by {
            let p = sorting::lemma_arrangement_place(order@, es.len(), i);
            assert(r@[p] == es[i]);
            assert(is_entry(es[i], found@[i]));
        }
        assert forall|p: int, q: int| 0 <= p < q < r@.len() implies !order::before(
            (#[trigger] r@[p]).2@,
            (#[trigger] r@[q]).2@,
        ) by {
            let (a, b) = (order@[p] as int, order@[q] as int);
            assert(!keys@[a].below(keys@[b]));
        }
    }
    r
}

/// What a list entry is shown under: the day, and the title.
pub open spec fn label_of(title: Seq<char>, updated: Seq<char>) -> Seq<char> {
    let shown = if title.len() == 0 {
        "(untitled)"@
    } else {
        title
    };
    day_of(updated) + "\n"@ + shown
}

/// How many bytes of a written time name the day.
pub const DAY_BYTES: usize = 10;

/// The day of a written time: its first ten bytes, where there are that many and they end
/// with a character, and else all of it.
pub open spec fn day_of(updated: Seq<char>) -> Seq<char> {
    if exists|k: int| 0 <= k <= updated.len() && text::byte_len(#[trigger] updated.take(k)) == DAY_BYTES {
        updated.take(
            choose|k: int|
                0 <= k <= updated.len() && text::byte_len(#[trigger] updated.take(k)) == DAY_BYTES,
        )
    } else {
        updated
    }
}

/// Two prefixes of as many bytes are the same.
proof fn lemma_prefix_unique(s: Seq<char>, j: int, k: int)
    requires
        0 <= j <= k <= s.len(),
        text::byte_len(s.take(j)) == text::byte_len(s.take(k)),
    ensures
        j == k,
{
    let p = s.take(k);
    text::lemma_byte_len_split(p, j);
    assert(p.take(j) =~= s.take(j));
    if j < k {
        text::lemma_byte_len_first(p.skip(j));
    }
}

/// What a list entry is shown under.
pub fn entry_label(title: &str, updated: &str) -> (r: String)
    ensures
        r@ == label_of(title@, updated@),
{
    let v = text::chars_of(updated);
    let k = text::fitting_chars(&v, DAY_BYTES);
    let day = text::slice_text(&v, 0, k);
    assert(v@.subrange(0, k as int) =~= updated@.take(k as int));
    let whole = day.as_str().as_bytes().len() == DAY_BYTES;
    proof {
        if whole {
            let j = choose|j: int|
                0 <= j <= updated@.len() && text::byte_len(#[trigger] updated@.take(j)) == DAY_BYTES;
            if j <= k {
                lemma_prefix_unique(updated@, j, k as int);
            } else {
                lemma_prefix_unique(updated@, k as int, j);
            }
        } else {
            assert forall|j: int| 0 <= j <= updated@.len() implies text::byte_len(
                #[trigger] updated@.take(j),
            ) != DAY_BYTES by {
                crate::tools::exec::law_cut_is_longest(updated@, DAY_BYTES as nat, k as int, j);
                if text::byte_len(updated@.take(j)) == DAY_BYTES {
                    let p = updated@.take(k as int);
                    text::lemma_byte_len_split(p, j);
                    assert(p.take(j) =~= updated@.take(j));
                }
            }
        }
    }
    let mut out = if whole {
        day
    } else {
        updated.to_owned()
    };
    out.append("\n");
    if title.is_empty() {
        out.append("(untitled)");
    } else {
        out.append(title);
    }
    out
}

/// A conversation is shown under the day it was last touched on, the first ten characters
/// of the time, and under its title, or as untitled where it has none.
pub proof fn law_label_is_day_and_title(day: Seq<char>, rest: Seq<char>, title: Seq<char>)
    requires
        text::byte_len(day) == 10,
    ensures
        title.len() > 0 ==> label_of(title, day + rest) == day + "\n"@ + title,
        title.len() == 0 ==> label_of(title, day + rest) == day + "\n"@ + "(untitled)"@,
{
    let whole = day + rest;
    let n = day.len() as int;
    assert(whole.take(n) =~= day);
    let k = choose|k: int|
        0 <= k <= whole.len() && text::byte_len(#[trigger] whole.take(k)) == DAY_BYTES;
    if n <= k {
        lemma_prefix_unique(whole, n, k);
    } else {
        lemma_prefix_unique(whole, k, n);
    }
}

} // verus!
