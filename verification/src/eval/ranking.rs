//! Putting results back in the order of their set.

use super::{EvalItem, EvalResult};
use crate::text;
use vstd::prelude::*;

verus! {

/// Where `id` first stands among `ids`, and how many there are where it does not.
pub open spec fn position(ids: Seq<Seq<char>>, id: Seq<char>) -> int
    decreases ids.len(),
{
    if ids.len() == 0 {
        0
    } else if ids[0] == id {
        0
    } else {
        1 + position(ids.drop_first(), id)
    }
}

/// The results, in order, of the item at `p` (of no item, where `p` is their number).
pub open spec fn results_at(ids: Seq<Seq<char>>, results: Seq<EvalResult>, p: int) -> Seq<
    EvalResult,
> {
    results.filter(|r: EvalResult| position(ids, r.item_id@) == p)
}

/// The results of the first `n` items, item by item.
pub open spec fn results_below(ids: Seq<Seq<char>>, results: Seq<EvalResult>, n: nat) -> Seq<
    EvalResult,
>
    decreases n,
{
    if n == 0 {
        seq![]
    } else {
        results_below(ids, results, (n - 1) as nat) + results_at(ids, results, n - 1)
    }
}

/// The results item by item, in the order of the set; those of no item come last, and
/// those of one item stay as they are.
pub open spec fn in_set_order(ids: Seq<Seq<char>>, results: Seq<EvalResult>) -> Seq<EvalResult> {
    results_below(ids, results, ids.len() + 1)
}

fn position_of(items: &Vec<EvalItem>, id: &str) -> (r: usize)
    ensures
        r == position(super::item_ids(items@), id@),
        r <= items@.len(),
{
    let ghost ids = super::item_ids(items@);
    let mut i: usize = 0;
    assert(ids.skip(0) =~= ids);
    while i < items.len()
        invariant
            i <= items@.len(),
            ids == super::item_ids(items@),
            position(ids, id@) == i + position(ids.skip(i as int), id@),
        decreases items@.len() - i,
    {
        let ghost rest = ids.skip(i as int);
        assert(rest[0] == items@[i as int].id@);
        if text::same_text(items[i].id.as_str(), id) {
            return i;
        }
        assert(rest.drop_first() =~= ids.skip(i + 1));
        i += 1;
    }
    i
}

/// The slots of the results at `p` and later are still filled.
spec fn filled_from(
    slots: Seq<Option<EvalResult>>,
    results: Seq<EvalResult>,
    keys: Seq<usize>,
    p: int,
) -> bool {
    &&& slots.len() == results.len()
    &&& forall|i: int|
        0 <= i < slots.len() && keys[i] >= p ==> #[trigger] slots[i] == Some(results[i])
}

/// `keys` holds the position of every result.
spec fn are_positions(keys: Seq<usize>, ids: Seq<Seq<char>>, results: Seq<EvalResult>) -> bool {
    &&& keys.len() == results.len()
    &&& forall|i: int|
        0 <= i < keys.len() ==> #[trigger] keys[i] == position(ids, results[i].item_id@)
}

/// One more result of the filtered list.
proof fn lemma_results_at_step(
    ids: Seq<Seq<char>>,
    results: Seq<EvalResult>,
    p: int,
    i: int,
)
    requires
        0 <= i < results.len(),
    ensures
        results_at(ids, results.take(i + 1), p) == if position(ids, results[i].item_id@) == p {
            results_at(ids, results.take(i), p).push(results[i])
        } else {
            results_at(ids, results.take(i), p)
        },
{
    reveal(Seq::filter);
    assert(results.take(i + 1).drop_last() =~= results.take(i));
}

/// Move the results at `p` from their slots to the end of `out`.
fn move_at(
    keys: &Vec<usize>,
    slots: &mut Vec<Option<EvalResult>>,
    out: &mut Vec<EvalResult>,
    p: usize,
    Ghost(ids): Ghost<Seq<Seq<char>>>,
    Ghost(all): Ghost<Seq<EvalResult>>,
)
    requires
        are_positions(keys@, ids, all),
        filled_from(old(slots)@, all, keys@, p as int),
    ensures
        filled_from(final(slots)@, all, keys@, p + 1),
        final(out)@ == old(out)@ + results_at(ids, all, p as int),
{
    let n = keys.len();
    let mut i: usize = 0;
    proof {
        reveal(Seq::filter);
        assert(all.take(0) =~= seq![]);
        assert(out@ =~= old(out)@ + results_at(ids, all.take(0), p as int));
    }
    while i < n
        invariant
            i <= n,
            n == all.len(),
            are_positions(keys@, ids, all),
            filled_from(slots@, all, keys@, p + 1),
            forall|j: int|
                i <= j < n && keys@[j] >= p ==> #[trigger] slots@[j] == Some(all[j]),
            out@ == old(out)@ + results_at(ids, all.take(i as int), p as int),
        decreases n - i,
    {
        proof {
            lemma_results_at_step(ids, all, p as int, i as int);
        }
        if keys[i] == p {
            let taken = slots[i].take();
            if let Some(r) = taken {
                out.push(r);
                assert(out@ =~= old(out)@ + results_at(ids, all.take(i + 1), p as int));
            }
        }
        i += 1;
    }
    assert(all.take(n as int) =~= all);
}

/// Put `results` in the order of the set.
pub fn restore_order(items: &Vec<EvalItem>, results: Vec<EvalResult>) -> (r: Vec<EvalResult>)
    ensures
        r@ == in_set_order(super::item_ids(items@), results@),
{
    let ghost ids = super::item_ids(items@);
    let ghost all = results@;
    let mut keys: Vec<usize> = Vec::new();
    let mut slots: Vec<Option<EvalResult>> = Vec::new();
    for r in it: results
        invariant
            it.seq() == all,
            ids == super::item_ids(items@),
            keys@.len() == it.index(),
            slots@.len() == it.index(),
            forall|i: int|
                0 <= i < keys@.len() ==> #[trigger] keys@[i] == position(ids, all[i].item_id@),
            forall|i: int| 0 <= i < slots@.len() ==> #[trigger] slots@[i] == Some(all[i]),
    {
        keys.push(position_of(items, r.item_id.as_str()));
        slots.push(Some(r));
    }
    let mut out: Vec<EvalResult> = Vec::new();
    let mut p: usize = 0;
    while p < items.len()
        invariant
            p <= items@.len(),
            items@.len() == ids.len(),
            are_positions(keys@, ids, all),
            filled_from(slots@, all, keys@, p as int),
            out@ == results_below(ids, all, p as nat),
        decreases items@.len() - p,
    {
        move_at(&keys, &mut slots, &mut out, p, Ghost(ids), Ghost(all));
        p += 1;
    }
    move_at(&keys, &mut slots, &mut out, p, Ghost(ids), Ghost(all));
    out
}

/// Every result keeps its place in the report, once: nothing is lost or made up.
pub proof fn law_order_keeps_results(ids: Seq<Seq<char>>, results: Seq<EvalResult>)
    ensures
        in_set_order(ids, results).to_multiset() == results.to_multiset(),
        in_set_order(ids, results).len() == results.len(),
{
    broadcast use vstd::seq_lib::group_to_multiset_ensures;

    lemma_below_counts(ids, results, ids.len() + 1);
    let sorted = in_set_order(ids, results);
    assert forall|r: EvalResult| sorted.to_multiset().count(r) == results.to_multiset().count(
        r,
    ) by {
        lemma_position_bound(ids, r.item_id@);
    }
    assert(sorted.to_multiset() =~= results.to_multiset());
    vstd::seq_lib::to_multiset_len(sorted);
    vstd::seq_lib::to_multiset_len(results);
}

proof fn lemma_position_bound(ids: Seq<Seq<char>>, id: Seq<char>)
    ensures
        0 <= position(ids, id) <= ids.len(),
        position(ids, id) < ids.len() ==> ids[position(ids, id)] == id,
        forall|j: int| 0 <= j < position(ids, id) ==> #[trigger] ids[j] != id,
    decreases ids.len(),
{
    if ids.len() > 0 && ids[0] != id {
        lemma_position_bound(ids.drop_first(), id);
        assert forall|j: int| 0 <= j < position(ids, id) implies #[trigger] ids[j] != id by {
            if j > 0 {
                assert(ids.drop_first()[j - 1] == ids[j]);
            }
        }
    }
}

/// How often a result stands in a filtered list.
proof fn lemma_at_counts(ids: Seq<Seq<char>>, results: Seq<EvalResult>, p: int, r: EvalResult)
    ensures
        results_at(ids, results, p).to_multiset().count(r) == if position(ids, r.item_id@) == p {
            results.to_multiset().count(r)
        } else {
            0
        },
    decreases results.len(),
{
    broadcast use vstd::seq_lib::group_to_multiset_ensures;
    broadcast use vstd::multiset::group_multiset_axioms;

    reveal(Seq::filter);
    if results.len() > 0 {
        let rest = results.drop_last();
        lemma_at_counts(ids, rest, p, r);
        vstd::seq_lib::to_multiset_build(rest, results.last());
        assert(rest.push(results.last()) =~= results);
        vstd::seq_lib::to_multiset_build(results_at(ids, rest, p), results.last());
    }
}

proof fn lemma_below_counts(ids: Seq<Seq<char>>, results: Seq<EvalResult>, n: nat)
    ensures
        forall|r: EvalResult| #[trigger]
            results_below(ids, results, n).to_multiset().count(r) == if position(ids, r.item_id@)
                < n {
                results.to_multiset().count(r)
            } else {
                0
            },
    decreases n,
{
    broadcast use vstd::seq_lib::group_to_multiset_ensures;
    broadcast use vstd::multiset::group_multiset_axioms;

    assert forall|r: EvalResult| 0 <= position(ids, r.item_id@) by {
        lemma_position_bound(ids, r.item_id@);
    }
    if n > 0 {
        lemma_below_counts(ids, results, (n - 1) as nat);
        let before = results_below(ids, results, (n - 1) as nat);
        let more = results_at(ids, results, n - 1);
        vstd::seq_lib::lemma_multiset_commutative(before, more);
        assert forall|r: EvalResult| #[trigger]
            results_below(ids, results, n).to_multiset().count(r) == if position(ids, r.item_id@)
                < n {
                results.to_multiset().count(r)
            } else {
                0
            } by {
            lemma_at_counts(ids, results, n - 1, r);
            lemma_position_bound(ids, r.item_id@);
        }
    }
}

/// Where each item of a set of distinct ids has one result, the report lists them as
/// the set lists the items.
pub proof fn law_one_result_each(ids: Seq<Seq<char>>, results: Seq<EvalResult>)
    requires
        forall|p: int|
            0 <= p < ids.len() ==> (#[trigger] results_at(ids, results, p)).len() == 1,
        results_at(ids, results, ids.len() as int).len() == 0,
    ensures
        in_set_order(ids, results).len() == ids.len(),
        forall|p: int|
            0 <= p < ids.len() ==> (#[trigger] in_set_order(ids, results)[p]).item_id@ == ids[p],
{
    lemma_one_each(ids, results, ids.len());
    assert(in_set_order(ids, results) =~= results_below(ids, results, ids.len()));
}

proof fn lemma_one_each(ids: Seq<Seq<char>>, results: Seq<EvalResult>, n: nat)
    requires
        n <= ids.len(),
        forall|p: int|
            0 <= p < ids.len() ==> (#[trigger] results_at(ids, results, p)).len() == 1,
    ensures
        results_below(ids, results, n).len() == n,
        forall|p: int|
            0 <= p < n ==> (#[trigger] results_below(ids, results, n)[p]).item_id@ == ids[p],
    decreases n,
{
    if n > 0 {
        lemma_one_each(ids, results, (n - 1) as nat);
        let before = results_below(ids, results, (n - 1) as nat);
        let now = results_below(ids, results, n);
        let own = results_at(ids, results, n - 1);
        results.lemma_filter_pred(|r: EvalResult| position(ids, r.item_id@) == n - 1, 0);
        assert(position(ids, own[0].item_id@) == n - 1);
        lemma_position_bound(ids, own[0].item_id@);
        assert forall|p: int| 0 <= p < n implies (#[trigger] now[p]).item_id@ == ids[p] by {
            if p < n - 1 {
                assert(now[p] == before[p]);
            } else {
                assert(now[p] == own[0]);
            }
        }
    }
}

/// The report lists results as the set lists its items, and results of no item last.
pub proof fn law_report_follows_the_set(
    ids: Seq<Seq<char>>,
    results: Seq<EvalResult>,
    p: int,
    q: int,
)
    requires
        ids.no_duplicates(),
        0 <= p < q < in_set_order(ids, results).len(),
    ensures
        ({
            let listed = in_set_order(ids, results);
            let (a, b) = (listed[p].item_id@, listed[q].item_id@);
            &&& ids.contains(b) ==> ids.contains(a)
            &&& forall|i: int, j: int|
                #![trigger ids[i], ids[j]]
                0 <= i < ids.len() && 0 <= j < ids.len() && ids[i] == a && ids[j] == b ==> i <= j
        }),
{
    let listed = in_set_order(ids, results);
    lemma_below_ordered(ids, results, ids.len() + 1);
    let (a, b) = (listed[p].item_id@, listed[q].item_id@);
    lemma_position_bound(ids, a);
    lemma_position_bound(ids, b);
    assert(position(ids, a) <= position(ids, b));
    if ids.contains(b) {
        let j = ids.index_of(b);
        assert(ids[j] == b);
        assert(position(ids, b) < ids.len());
        assert(ids[position(ids, a)] == a);
    }
}

proof fn lemma_below_ordered(ids: Seq<Seq<char>>, results: Seq<EvalResult>, n: nat)
    ensures
        forall|p: int|
            0 <= p < results_below(ids, results, n).len() ==> position(
                ids,
                (#[trigger] results_below(ids, results, n)[p]).item_id@,
            ) < n,
        forall|p: int, q: int|
            0 <= p < q < results_below(ids, results, n).len() ==> position(
                ids,
                (#[trigger] results_below(ids, results, n)[p]).item_id@,
            ) <= position(ids, (#[trigger] results_below(ids, results, n)[q]).item_id@),
    decreases n,
{
    if n > 0 {
        lemma_below_ordered(ids, results, (n - 1) as nat);
        let before = results_below(ids, results, (n - 1) as nat);
        let more = results_at(ids, results, n - 1);
        let now = results_below(ids, results, n);
        assert forall|p: int| 0 <= p < more.len() implies position(
            ids,
            (#[trigger] more[p]).item_id@,
        ) == n - 1 by {
            results.lemma_filter_pred(|r: EvalResult| position(ids, r.item_id@) == n - 1, p);
        }
        assert forall|p: int| 0 <= p < now.len() implies position(
            ids,
            (#[trigger] now[p]).item_id@,
        ) < n by {
            if p < before.len() {
                assert(now[p] == before[p]);
            } else {
                assert(now[p] == more[p - before.len()]);
            }
        }
        assert forall|p: int, q: int| 0 <= p < q < now.len() implies position(
            ids,
            (#[trigger] now[p]).item_id@,
        ) <= position(ids, (#[trigger] now[q]).item_id@) by {
            if q < before.len() {
                assert(now[p] == before[p] && now[q] == before[q]);
            } else {
                assert(now[q] == more[q - before.len()]);
            }
        }
    }
}

} // verus!
