//! Partitioning a dataset into train, validation and test.

use super::group;
use super::shuffle;
use crate::model::TrainingExample;
use crate::text;
use vstd::prelude::*;

verus! {

/// How to partition a dataset into train / validation / test.
#[derive(Debug, Clone, Copy, PartialEq, Eq, Structural)]
pub enum SplitStrategy {
    /// Shuffle examples (seeded), then slice by fraction.
    Random { seed: u64 },
    /// Assign whole conversations to one side (no example from a conversation
    /// leaks across the split), shuffling conversations (seeded).
    ByConversation { seed: u64 },
}

/// The fraction of a dataset that one side is to hold.
#[derive(Debug, Clone, Copy, PartialEq, Eq, Structural)]
pub struct Share {
    /// The fraction of the dataset's size, rounded to a whole number of examples.
    pub rounded: usize,
    /// Whether the fraction is above zero.
    pub positive: bool,
}

#[derive(Debug, Clone, Copy)]
pub struct SplitSpec {
    pub strategy: SplitStrategy,
    pub valid: Share,
    pub test: Share,
}

/// Index partition produced by [`make_split`].
#[derive(Debug)]
pub struct Split {
    pub train: Vec<usize>,
    pub valid: Vec<usize>,
    pub test: Vec<usize>,
}

/// Which examples stand on which side, in order.
pub struct SplitView {
    pub train: Seq<int>,
    pub valid: Seq<int>,
    pub test: Seq<int>,
}

impl View for Split {
    type V = SplitView;

    open spec fn view(&self) -> SplitView {
        SplitView {
            train: group::ints(self.train@),
            valid: group::ints(self.valid@),
            test: group::ints(self.test@),
        }
    }
}

impl Default for Split {
    fn default() -> (r: Split)
        ensures
            r@ == empty_split(),
            r.train@.len() == 0,
            r.valid@.len() == 0,
            r.test@.len() == 0,
    {
        let r = Split { train: Vec::new(), valid: Vec::new(), test: Vec::new() };
        assert(r@.train =~= seq![] && r@.valid =~= seq![] && r@.test =~= seq![]);
        r
    }
}

pub open spec fn empty_split() -> SplitView {
    SplitView { train: seq![], valid: seq![], test: seq![] }
}

/// How many of `n` examples the validation side is to hold. A positive fraction does
/// not round away to an empty side when there is data to spare.
pub open spec fn valid_target(n: nat, valid: Share) -> nat {
    if valid.positive && valid.rounded == 0 && n >= 2 {
        1
    } else {
        valid.rounded as nat
    }
}

/// How many of `n` examples the test side is to hold.
pub open spec fn test_target(n: nat, valid: Share, test: Share) -> nat {
    if test.positive && test.rounded == 0 && n > valid_target(n, valid) {
        1
    } else {
        test.rounded as nat
    }
}

/// The positions below `n`, in order.
pub open spec fn positions(n: nat) -> Seq<int> {
    Seq::new(n, |i: int| i)
}

/// `order` cut into a validation, a test and a training part.
pub open spec fn sliced(order: Seq<int>, valid_target: nat, test_target: nat) -> SplitView {
    let n = order.len();
    let v = if valid_target < n {
        valid_target
    } else {
        n
    };
    let t = if test_target < n - v {
        test_target as int
    } else {
        n - v
    };
    SplitView {
        valid: order.take(v as int),
        test: order.subrange(v as int, v + t),
        train: order.skip(v + t),
    }
}

/// The groups in the order `order`, each dealt whole: to validation until that has its
/// number, then to test until that has its number, then to training.
pub open spec fn dealt(
    groups: Seq<Seq<int>>,
    order: Seq<int>,
    valid_target: nat,
    test_target: nat,
) -> SplitView
    decreases order.len(),
{
    if order.len() == 0 {
        empty_split()
    } else {
        let s = dealt(groups, order.drop_last(), valid_target, test_target);
        let members = groups[order.last()];
        if s.valid.len() < valid_target {
            SplitView { valid: s.valid + members, ..s }
        } else if s.test.len() < test_target {
            SplitView { test: s.test + members, ..s }
        } else {
            SplitView { train: s.train + members, ..s }
        }
    }
}

/// The conversation that each example belongs to.
pub open spec fn conversation_ids(examples: Seq<TrainingExample>) -> Seq<Seq<char>> {
    examples.map_values(|e: TrainingExample| e.meta.conversation_id@)
}

/// The split of examples that belong to the conversations `ids`.
pub open spec fn split_of(ids: Seq<Seq<char>>, spec: SplitSpec) -> SplitView {
    let n = ids.len();
    let vt = valid_target(n, spec.valid);
    let tt = test_target(n, spec.valid, spec.test);
    if n == 0 {
        empty_split()
    } else {
        match spec.strategy {
            SplitStrategy::Random { seed } => sliced(
                shuffle::shuffled(positions(n), seed),
                vt,
                tt,
            ),
            SplitStrategy::ByConversation { seed } => {
                let groups = group::groups(ids, n);
                dealt(groups, shuffle::shuffled(positions(groups.len()), seed), vt, tt)
            },
        }
    }
}

fn range_list(n: usize) -> (r: Vec<usize>)
    ensures
        group::ints(r@) == positions(n as nat),
        r@.len() == n,
{
    let mut out: Vec<usize> = Vec::new();
    let mut i: usize = 0;
    while i < n
        invariant
            i <= n,
            out@.len() == i,
            forall|k: int| 0 <= k < i ==> out@[k] == k,
        decreases n - i,
    {
        out.push(i);
        i += 1;
    }
    assert(group::ints(out@) =~= positions(n as nat));
    out
}

/// Shuffling positions and reading them as numbers are interchangeable.
proof fn lemma_shuffled_ints(s: Seq<usize>, state: u64, i: int)
    requires
        i < s.len(),
    ensures
        group::ints(shuffle::drawn(s, state, i)) == shuffle::drawn(group::ints(s), state, i),
    decreases i,
{
    if i >= 1 {
        let next = shuffle::advanced(state);
        let j = shuffle::mixed(next) as int % (i + 1);
        assert(0 <= j < i + 1);
        let t = shuffle::exchanged(s, i, j);
        assert(group::ints(t) =~= shuffle::exchanged(group::ints(s), i, j));
        lemma_shuffled_ints(t, next, i - 1);
    }
}

fn shuffled_range(n: usize, seed: u64) -> (r: Vec<usize>)
    ensures
        group::ints(r@) == shuffle::shuffled(positions(n as nat), seed),
        r@.len() == n,
{
    let mut order = range_list(n);
    proof {
        lemma_shuffled_ints(order@, seed, n - 1);
        shuffle::law_shuffle_keeps_entries(order@, seed);
    }
    shuffle::shuffle(&mut order, seed);
    order
}

fn append_all(out: &mut Vec<usize>, more: &Vec<usize>, lo: usize, hi: usize)
    requires
        lo <= hi <= more@.len(),
    ensures
        group::ints(final(out)@) == group::ints(old(out)@) + group::ints(more@).subrange(
            lo as int,
            hi as int,
        ),
        final(out)@.len() == old(out)@.len() + (hi - lo),
{
    let mut i: usize = lo;
    assert(group::ints(out@) =~= group::ints(old(out)@) + group::ints(more@).subrange(
        lo as int,
        lo as int,
    ));
    while i < hi
        invariant
            lo <= i <= hi <= more@.len(),
            group::ints(out@) == group::ints(old(out)@) + group::ints(more@).subrange(
                lo as int,
                i as int,
            ),
            out@.len() == old(out)@.len() + (i - lo),
        decreases hi - i,
    {
        let ghost before = out@;
        out.push(more[i]);
        i += 1;
        assert(group::ints(out@) =~= group::ints(before).push(group::ints(more@)[i - 1]));
        assert(group::ints(out@) =~= group::ints(old(out)@) + group::ints(more@).subrange(
            lo as int,
            i as int,
        ));
    }
}

fn slice_order(order: &Vec<usize>, valid_target: usize, test_target: usize) -> (r: Split)
    ensures
        r@ == sliced(group::ints(order@), valid_target as nat, test_target as nat),
{
    let n = order.len();
    let v = if valid_target < n {
        valid_target
    } else {
        n
    };
    let t = if test_target < n - v {
        test_target
    } else {
        n - v
    };
    let mut split = Split::default();
    append_all(&mut split.valid, order, 0, v);
    append_all(&mut split.test, order, v, v + t);
    append_all(&mut split.train, order, v + t, n);
    let ghost want = sliced(group::ints(order@), valid_target as nat, test_target as nat);
    assert(split@.valid =~= want.valid);
    assert(split@.test =~= want.test);
    assert(split@.train =~= want.train);
    split
}

fn deal_groups(
    groups: &Vec<Vec<usize>>,
    order: &Vec<usize>,
    valid_target: usize,
    test_target: usize,
    Ghost(gs): Ghost<Seq<Seq<int>>>,
) -> (r: Split)
    requires
        gs.len() == groups@.len(),
        forall|g: int| 0 <= g < gs.len() ==> group::ints(#[trigger] groups@[g]@) == gs[g],
        forall|p: int| 0 <= p < order@.len() ==> #[trigger] order@[p] < groups@.len(),
    ensures
        r@ == dealt(gs, group::ints(order@), valid_target as nat, test_target as nat),
{
    let ghost os = group::ints(order@);
    let mut split = Split::default();
    let mut p: usize = 0;
    assert(os.take(0) =~= seq![]);
    while p < order.len()
        invariant
            p <= order@.len(),
            os == group::ints(order@),
            gs.len() == groups@.len(),
            forall|g: int| 0 <= g < gs.len() ==> group::ints(#[trigger] groups@[g]@) == gs[g],
            forall|q: int| 0 <= q < order@.len() ==> #[trigger] order@[q] < groups@.len(),
            split@ == dealt(gs, os.take(p as int), valid_target as nat, test_target as nat),
            split@.valid.len() == split.valid@.len(),
            split@.test.len() == split.test@.len(),
        decreases order@.len() - p,
    {
        let g = order[p];
        let members = &groups[g];
        let ghost was = split@;
        assert(os.take(p + 1).drop_last() =~= os.take(p as int));
        assert(os.take(p + 1).last() == g as int);
        assert(group::ints(members@).subrange(0, members@.len() as int) =~= gs[g as int]);
        if split.valid.len() < valid_target {
            append_all(&mut split.valid, members, 0, members.len());
        } else if split.test.len() < test_target {
            append_all(&mut split.test, members, 0, members.len());
        } else {
            append_all(&mut split.train, members, 0, members.len());
        }
        p += 1;
    }
    assert(os.take(p as int) =~= os);
    split
}

/// The conversation that each example belongs to.
pub fn conversation_id_list(examples: &[TrainingExample]) -> (r: Vec<String>)
    ensures
        text::views(r@) == conversation_ids(examples@),
        r@.len() == examples@.len(),
{
    let ghost ids = conversation_ids(examples@);
    let mut out: Vec<String> = Vec::new();
    let mut i: usize = 0;
    while i < examples.len()
        invariant
            i <= examples@.len(),
            ids == conversation_ids(examples@),
            text::views(out@) == ids.take(i as int),
            out@.len() == i,
        decreases examples@.len() - i,
    {
        let ghost before = out@;
        out.push(examples[i].meta.conversation_id.clone());
        assert(text::views(out@) =~= text::views(before).push(ids[i as int]));
        i += 1;
        assert(text::views(out@) =~= ids.take(i as int));
    }
    assert(ids.take(i as int) =~= ids);
    out
}

/// Every entry of a shuffled range is in it.
proof fn lemma_shuffled_positions(n: nat, seed: u64)
    ensures
        shuffle::shuffled(positions(n), seed).len() == n,
        shuffle::shuffled(positions(n), seed).no_duplicates(),
        forall|x: int|
            #![trigger shuffle::shuffled(positions(n), seed).contains(x)]
            shuffle::shuffled(positions(n), seed).contains(x) <==> 0 <= x < n,
        forall|p: int|
            0 <= p < n ==> 0 <= #[trigger] shuffle::shuffled(positions(n), seed)[p] < n,
{
    let s = positions(n);
    let o = shuffle::shuffled(s, seed);
    shuffle::law_shuffle_keeps_entries(s, seed);
    broadcast use vstd::seq_lib::group_to_multiset_ensures;

    assert(s.no_duplicates());
    s.lemma_multiset_has_no_duplicates();
    o.lemma_multiset_has_no_duplicates_conv();
    assert forall|x: int| o.contains(x) <==> 0 <= x < n by {
        assert(o.contains(x) <==> o.to_multiset().count(x) > 0);
        assert(s.contains(x) <==> s.to_multiset().count(x) > 0);
        if 0 <= x < n {
            assert(s[x] == x);
        }
    }
    assert forall|p: int| 0 <= p < n implies 0 <= #[trigger] o[p] < n by {
        assert(o.contains(o[p]));
    }
}

/// Partition example indices into train/valid/test per `spec`. Deterministic
/// given the seed.
pub fn make_split(examples: &[TrainingExample], spec: &SplitSpec) -> (r: Split)
    ensures
        r@ == split_of(conversation_ids(examples@), *spec),
{
    let n = examples.len();
    if n == 0 {
        return Split::default();
    }
    let mut valid_target: usize = spec.valid.rounded;
    let mut test_target: usize = spec.test.rounded;
    if spec.valid.positive && valid_target == 0 && n >= 2 {
        valid_target = 1;
    }
    if spec.test.positive && test_target == 0 && n > valid_target {
        test_target = 1;
    }
    match spec.strategy {
        SplitStrategy::Random { seed } => {
            let order = shuffled_range(n, seed);
            slice_order(&order, valid_target, test_target)
        },
        SplitStrategy::ByConversation { seed } => {
            let ids = conversation_id_list(examples);
            let groups = group::group_by_key(&ids);
            let order = shuffled_range(groups.len(), seed);
            let ghost gs = group::groups(conversation_ids(examples@), n as nat);
            proof {
                lemma_shuffled_positions(groups@.len(), seed);
                assert forall|p: int| 0 <= p < order@.len() implies #[trigger] order@[p]
                    < groups@.len() by {
                    assert(group::ints(order@)[p] == order@[p] as int);
                }
            }
            deal_groups(&groups, &order, valid_target, test_target, Ghost(gs))
        },
    }
}

/// Every example below `n` stands on exactly one side, and stands there once.
pub open spec fn is_partition(s: SplitView, n: nat) -> bool {
    &&& s.train.no_duplicates() && s.valid.no_duplicates() && s.test.no_duplicates()
    &&& forall|i: int|
        0 <= i < n <==> #[trigger] s.train.contains(i) || s.valid.contains(i) || s.test.contains(i)
    &&& forall|i: int| !(#[trigger] s.train.contains(i) && s.valid.contains(i))
    &&& forall|i: int| !(#[trigger] s.train.contains(i) && s.test.contains(i))
    &&& forall|i: int| !(#[trigger] s.valid.contains(i) && s.test.contains(i))
}

/// What stands on a side is one of the examples.
pub proof fn lemma_side_in_range(s: SplitView, n: nat, i: int)
    requires
        is_partition(s, n),
        s.train.contains(i) || s.valid.contains(i) || s.test.contains(i),
    ensures
        0 <= i < n,
{
    if s.train.contains(i) {
    } else {
    }
}

/// A cut of positions without repetition puts each on one side.
proof fn lemma_sliced(order: Seq<int>, n: nat, vt: nat, tt: nat)
    requires
        order.no_duplicates(),
        order.len() == n,
        forall|x: int| #[trigger] order.contains(x) <==> 0 <= x < n,
    ensures
        is_partition(sliced(order, vt, tt), n),
{
    let s = sliced(order, vt, tt);
    let v = s.valid.len() as int;
    let t = s.test.len() as int;
    assert forall|i: int| s.valid.contains(i) implies exists|p: int|
        0 <= p < v && #[trigger] order[p] == i by {
        let p = s.valid.index_of(i);
        assert(order[p] == i);
    }
    assert forall|i: int| s.test.contains(i) implies exists|p: int|
        v <= p < v + t && #[trigger] order[p] == i by {
        let p = s.test.index_of(i);
        assert(order[v + p] == i);
    }
    assert forall|i: int| s.train.contains(i) implies exists|p: int|
        v + t <= p < n && #[trigger] order[p] == i by {
        let p = s.train.index_of(i);
        assert(order[v + t + p] == i);
    }
    assert forall|i: int|
        0 <= i < n <==> #[trigger] s.train.contains(i) || s.valid.contains(i) || s.test.contains(
            i,
        ) by {
        if 0 <= i < n {
            assert(order.contains(i));
            let p = order.index_of(i);
            if p < v {
                assert(s.valid[p] == i);
            } else if p < v + t {
                assert(s.test[p - v] == i);
            } else {
                assert(s.train[p - v - t] == i);
            }
        }
        if s.train.contains(i) || s.valid.contains(i) || s.test.contains(i) {
            let p = choose|p: int| 0 <= p < n && #[trigger] order[p] == i;
            assert(order.contains(i));
        }
    }
}

/// The groups `order[0..]` name hold `x`.
spec fn dealt_out(groups: Seq<Seq<int>>, order: Seq<int>, x: int) -> bool {
    exists|p: int| 0 <= p < order.len() && #[trigger] groups[order[p]].contains(x)
}

/// `a` is all on one side of `s`.
spec fn together(s: SplitView, a: Seq<int>) -> bool {
    ||| forall|x: int| a.contains(x) ==> #[trigger] s.train.contains(x)
    ||| forall|x: int| a.contains(x) ==> #[trigger] s.valid.contains(x)
    ||| forall|x: int| a.contains(x) ==> #[trigger] s.test.contains(x)
}

/// `out` is `before` and `more` behind it: what it holds, and that nothing repeats.
proof fn lemma_joined(before: Seq<int>, more: Seq<int>, out: Seq<int>)
    requires
        out == before + more,
    ensures
        forall|x: int| #[trigger] out.contains(x) <==> before.contains(x) || more.contains(x),
        before.no_duplicates() && more.no_duplicates() && (forall|x: int|
            !(#[trigger] before.contains(x) && more.contains(x))) ==> out.no_duplicates(),
{
    assert forall|x: int| #[trigger] out.contains(x) <==> before.contains(x) || more.contains(x) by {
        if out.contains(x) {
            let p = out.index_of(x);
            if p < before.len() {
                assert(before[p] == x);
            } else {
                assert(more[p - before.len()] == x);
            }
        }
        if before.contains(x) {
            let p = before.index_of(x);
            assert(out[p] == x);
        }
        if more.contains(x) {
            let p = more.index_of(x);
            assert(out[before.len() + p] == x);
        }
    }
    if before.no_duplicates() && more.no_duplicates() && (forall|x: int|
        !(#[trigger] before.contains(x) && more.contains(x))) {
        assert forall|p: int, q: int| 0 <= p < q < out.len() implies out[p] != out[q] by {
            if p < before.len() && q >= before.len() {
                assert(before.contains(out[p]));
                assert(more[q - before.len()] == out[q]);
            }
        }
    }
}

/// Dealing disjoint groups, each once: what is dealt stands on one side, once, and
/// with the rest of its group.
proof fn lemma_dealt(groups: Seq<Seq<int>>, order: Seq<int>, vt: nat, tt: nat)
    requires
        order.no_duplicates(),
        forall|p: int| 0 <= p < order.len() ==> 0 <= #[trigger] order[p] < groups.len(),
        forall|g: int| 0 <= g < groups.len() ==> (#[trigger] groups[g]).no_duplicates(),
        forall|g: int, h: int, x: int|
            0 <= g < groups.len() && 0 <= h < groups.len() && #[trigger] groups[g].contains(x)
                && #[trigger] groups[h].contains(x) ==> g == h,
    ensures
        ({
            let s = dealt(groups, order, vt, tt);
            &&& s.train.no_duplicates() && s.valid.no_duplicates() && s.test.no_duplicates()
            &&& forall|x: int| #[trigger]
                dealt_out(groups, order, x) <==> s.train.contains(x) || s.valid.contains(x)
                    || s.test.contains(x)
            &&& forall|x: int| !(#[trigger] s.train.contains(x) && s.valid.contains(x))
            &&& forall|x: int| !(#[trigger] s.train.contains(x) && s.test.contains(x))
            &&& forall|x: int| !(#[trigger] s.valid.contains(x) && s.test.contains(x))
            &&& forall|p: int| 0 <= p < order.len() ==> together(s, #[trigger] groups[order[p]])
        }),
    decreases order.len(),
{
    if order.len() > 0 {
        let rest = order.drop_last();
        let was = dealt(groups, rest, vt, tt);
        let s = dealt(groups, order, vt, tt);
        let more = groups[order.last()];
        assert forall|p: int| 0 <= p < rest.len() implies 0 <= #[trigger] rest[p]
            < groups.len() by {
            assert(rest[p] == order[p]);
        }
        lemma_dealt(groups, rest, vt, tt);
        let last = order.len() - 1;
        assert(0 <= order[last] < groups.len());
        assert forall|x: int| more.contains(x) implies !dealt_out(groups, rest, x) by {
            if dealt_out(groups, rest, x) {
                let p = choose|p: int|
                    0 <= p < rest.len() && #[trigger] groups[rest[p]].contains(x);
                assert(rest[p] == order[p]);
                assert(groups[order[p]].contains(x) && groups[order[last]].contains(x));
                assert(order[p] == order[last]);
            }
        }
        assert forall|x: int| #[trigger] dealt_out(groups, order, x) <==> dealt_out(
            groups,
            rest,
            x,
        ) || more.contains(x) by {
            if dealt_out(groups, order, x) {
                let p = choose|p: int|
                    0 <= p < order.len() && #[trigger] groups[order[p]].contains(x);
                if p < last {
                    assert(groups[rest[p]].contains(x));
                }
            }
            if dealt_out(groups, rest, x) {
                let p = choose|p: int|
                    0 <= p < rest.len() && #[trigger] groups[rest[p]].contains(x);
                assert(groups[order[p]].contains(x));
            }
            if more.contains(x) {
                assert(groups[order[last]].contains(x));
            }
        }
        if was.valid.len() < vt {
            lemma_joined(was.valid, more, s.valid);
        } else if was.test.len() < tt {
            lemma_joined(was.test, more, s.test);
        } else {
            lemma_joined(was.train, more, s.train);
        }
        assert forall|p: int| 0 <= p < order.len() implies together(
            s,
            #[trigger] groups[order[p]],
        ) by {
            if p < last {
                assert(together(was, groups[rest[p]]));
            }
        }
    }
}

/// What the groups of `ids` are like.
proof fn lemma_groups_apart(ids: Seq<Seq<char>>)
    ensures
        ({
            let gs = group::groups(ids, ids.len());
            &&& forall|g: int| 0 <= g < gs.len() ==> (#[trigger] gs[g]).no_duplicates()
            &&& forall|g: int, h: int, x: int|
                0 <= g < gs.len() && 0 <= h < gs.len() && #[trigger] gs[g].contains(x)
                    && #[trigger] gs[h].contains(x) ==> g == h
            &&& forall|g: int, x: int|
                0 <= g < gs.len() && #[trigger] gs[g].contains(x) ==> 0 <= x < ids.len()
        }),
{
    let n = ids.len();
    let gs = group::groups(ids, n);
    let ls = group::leaders(ids, n);
    assert forall|g: int| 0 <= g < gs.len() implies (#[trigger] gs[g]).no_duplicates() by {
        group::lemma_members(ids, ids[ls[g]], n);
    }
    assert forall|g: int, h: int, x: int|
        0 <= g < gs.len() && 0 <= h < gs.len() && #[trigger] gs[g].contains(x)
            && #[trigger] gs[h].contains(x) implies g == h by {
        group::lemma_members(ids, ids[ls[g]], n);
        group::lemma_members(ids, ids[ls[h]], n);
        group::lemma_leaders_differ(ids, n, g, h);
    }
    assert forall|g: int, x: int| 0 <= g < gs.len() && #[trigger] gs[g].contains(x) implies 0 <= x
        < ids.len() by {
        group::lemma_members(ids, ids[ls[g]], n);
    }
}

/// The group of the example `i`, and where the order deals it.
proof fn lemma_place_of(ids: Seq<Seq<char>>, order: Seq<int>, i: int) -> (p: int)
    requires
        0 <= i < ids.len(),
        forall|x: int| #[trigger]
            order.contains(x) <==> 0 <= x < group::groups(ids, ids.len()).len(),
    ensures
        0 <= p < order.len(),
        0 <= order[p] < group::groups(ids, ids.len()).len(),
        forall|j: int|
            0 <= j < ids.len() && ids[j] == ids[i] ==> #[trigger] group::groups(
                ids,
                ids.len(),
            )[order[p]].contains(j),
{
    let n = ids.len();
    let gs = group::groups(ids, n);
    let g = group::lemma_leader_of(ids, n, i);
    group::lemma_members(ids, ids[i], n);
    assert(gs[g] == group::members(ids, ids[i], n));
    assert(order.contains(g));
    order.index_of(g)
}

/// A split takes every example to exactly one side.
pub proof fn law_split_partitions(ids: Seq<Seq<char>>, spec: SplitSpec)
    ensures
        is_partition(split_of(ids, spec), ids.len()),
{
    let n = ids.len();
    let vt = valid_target(n, spec.valid);
    let tt = test_target(n, spec.valid, spec.test);
    if n > 0 {
        match spec.strategy {
            SplitStrategy::Random { seed } => {
                lemma_shuffled_positions(n, seed);
                lemma_sliced(shuffle::shuffled(positions(n), seed), n, vt, tt);
            },
            SplitStrategy::ByConversation { seed } => {
                let gs = group::groups(ids, n);
                let order = shuffle::shuffled(positions(gs.len()), seed);
                lemma_shuffled_positions(gs.len(), seed);
                lemma_groups_apart(ids);
                lemma_dealt(gs, order, vt, tt);
                let s = split_of(ids, spec);
                assert forall|i: int|
                    0 <= i < n <==> #[trigger] s.train.contains(i) || s.valid.contains(i)
                        || s.test.contains(i) by {
                    if 0 <= i < n {
                        let p = lemma_place_of(ids, order, i);
                        assert(gs[order[p]].contains(i));
                        assert(dealt_out(gs, order, i));
                    }
                    if s.train.contains(i) || s.valid.contains(i) || s.test.contains(i) {
                        assert(dealt_out(gs, order, i));
                    }
                }
            },
        }
    }
}

/// No conversation leaks across a split by conversation: two examples of one
/// conversation stand on the same side.
pub proof fn law_no_leakage(ids: Seq<Seq<char>>, spec: SplitSpec, i: int, j: int)
    requires
        spec.strategy is ByConversation,
        0 <= i < ids.len(),
        0 <= j < ids.len(),
        ids[i] == ids[j],
    ensures
        split_of(ids, spec).train.contains(i) <==> split_of(ids, spec).train.contains(j),
        split_of(ids, spec).valid.contains(i) <==> split_of(ids, spec).valid.contains(j),
        split_of(ids, spec).test.contains(i) <==> split_of(ids, spec).test.contains(j),
{
    let n = ids.len();
    let seed = spec.strategy->ByConversation_seed;
    let gs = group::groups(ids, n);
    let order = shuffle::shuffled(positions(gs.len()), seed);
    lemma_shuffled_positions(gs.len(), seed);
    lemma_groups_apart(ids);
    lemma_dealt(
        gs,
        order,
        valid_target(n, spec.valid),
        test_target(n, spec.valid, spec.test),
    );
    let p = lemma_place_of(ids, order, i);
    let s = split_of(ids, spec);
    assert(gs[order[p]].contains(i) && gs[order[p]].contains(j));
    assert(together(s, gs[order[p]]));
    law_split_partitions(ids, spec);
}

/// What is dealt to test or training is dealt after validation has its number, and
/// what is dealt to training after test has its number.
proof fn lemma_dealt_in_turn(groups: Seq<Seq<int>>, order: Seq<int>, vt: nat, tt: nat)
    ensures
        ({
            let s = dealt(groups, order, vt, tt);
            &&& s.valid.len() < vt ==> s.test.len() == 0 && s.train.len() == 0
            &&& s.test.len() < tt ==> s.train.len() == 0
        }),
    decreases order.len(),
{
    if order.len() > 0 {
        lemma_dealt_in_turn(groups, order.drop_last(), vt, tt);
    }
}

/// The sides of a partition hold as many examples as there are.
proof fn lemma_partition_len(s: SplitView, n: nat)
    requires
        is_partition(s, n),
    ensures
        s.train.len() + s.valid.len() + s.test.len() == n,
{
    let a = s.valid + s.test;
    let b = a + s.train;
    lemma_joined(s.valid, s.test, a);
    lemma_joined(a, s.train, b);
    let p = positions(n);
    assert(b.to_set() =~= p.to_set()) by {
        assert forall|i: int| b.to_set().contains(i) <==> p.to_set().contains(i) by {
            assert(b.contains(i) <==> 0 <= i < n) by {
                assert(s.train.contains(i) || s.valid.contains(i) || s.test.contains(i)
                    <==> 0 <= i < n);
            }
            if 0 <= i < n {
                assert(p[i] == i);
            }
        }
    }
    assert(p.no_duplicates());
    b.unique_seq_to_set();
    p.unique_seq_to_set();
}

/// The validation side gets its number of examples where there are that many, and the
/// test side its number of what is left. A random split takes exactly that many; a
/// split by conversation may take more, to keep its last conversation whole.
pub proof fn law_sides_filled(ids: Seq<Seq<char>>, spec: SplitSpec)
    ensures
        ({
            let n = ids.len();
            let s = split_of(ids, spec);
            let vt = valid_target(n, spec.valid);
            let tt = test_target(n, spec.valid, spec.test);
            &&& s.train.len() + s.valid.len() + s.test.len() == n
            &&& s.valid.len() >= if vt < n { vt } else { n }
            &&& s.test.len() >= if tt < n - s.valid.len() { tt as int } else { n - s.valid.len() }
            &&& spec.strategy is Random ==> s.valid.len() == if vt < n { vt } else { n }
            &&& spec.strategy is Random ==> s.test.len() == if tt < n - s.valid.len() {
                tt as int
            } else {
                n - s.valid.len()
            }
        }),
{
    let n = ids.len();
    let vt = valid_target(n, spec.valid);
    let tt = test_target(n, spec.valid, spec.test);
    law_split_partitions(ids, spec);
    lemma_partition_len(split_of(ids, spec), n);
    if n > 0 {
        match spec.strategy {
            SplitStrategy::Random { seed } => {
                lemma_shuffled_positions(n, seed);
            },
            SplitStrategy::ByConversation { seed } => {
                let gs = group::groups(ids, n);
                lemma_dealt_in_turn(gs, shuffle::shuffled(positions(gs.len()), seed), vt, tt);
            },
        }
    }
}

/// A positive validation fraction holds out at least one example of two or more.
pub proof fn law_positive_fraction_holds_out(ids: Seq<Seq<char>>, spec: SplitSpec)
    requires
        spec.valid.positive,
        ids.len() >= 2,
    ensures
        split_of(ids, spec).valid.len() >= 1,
{
    law_sides_filled(ids, spec);
}

/// How many examples the conversation `id` has.
pub open spec fn conversation_size(ids: Seq<Seq<char>>, id: Seq<char>) -> nat {
    ids.filter(|k: Seq<char>| k == id).len()
}

/// A conversation has as many examples as its group has members.
pub proof fn lemma_members_len(ids: Seq<Seq<char>>, id: Seq<char>, n: nat)
    requires
        n <= ids.len(),
    ensures
        group::members(ids, id, n).len() == conversation_size(ids.take(n as int), id),
    decreases n,
{
    reveal(Seq::filter);
    if n > 0 {
        lemma_members_len(ids, id, (n - 1) as nat);
        assert(ids.take(n as int).drop_last() =~= ids.take(n - 1));
    }
}

/// Where no two examples are of one conversation, each conversation has one.
pub proof fn lemma_single(ids: Seq<Seq<char>>, i: int)
    requires
        ids.no_duplicates(),
        0 <= i < ids.len(),
    ensures
        conversation_size(ids, ids[i]) == 1,
{
    let n = ids.len();
    let own = group::members(ids, ids[i], n);
    group::lemma_members(ids, ids[i], n);
    lemma_members_len(ids, ids[i], n);
    assert(ids.take(n as int) =~= ids);
    assert(own.contains(i));
    if own.len() >= 2 {
        assert(own.contains(own[0]) && own.contains(own[1]));
        assert(ids[own[0]] == ids[own[1]]);
    }
}

/// A conversation that an example belongs to has an example.
pub proof fn lemma_some(ids: Seq<Seq<char>>, i: int)
    requires
        0 <= i < ids.len(),
    ensures
        conversation_size(ids, ids[i]) >= 1,
{
    let n = ids.len();
    lemma_members_len(ids, ids[i], n);
    group::lemma_members(ids, ids[i], n);
    assert(ids.take(n as int) =~= ids);
    assert(group::members(ids, ids[i], n).contains(i));
}

/// How many examples a share asks for: its number, and one where a fraction above zero
/// rounds to none though there is room.
pub open spec fn asked(share: Share, room: bool) -> nat {
    if share.rounded > 0 {
        share.rounded as nat
    } else if share.positive && room {
        1
    } else {
        0
    }
}

/// `side` holds the examples that were asked for, as far as there are `room`, and exceeds
/// their number by less than one of its conversations.
pub open spec fn holds_about(ids: Seq<Seq<char>>, side: Seq<int>, want: nat, room: nat) -> bool {
    &&& side.len() >= if want < room { want } else { room }
    &&& want == 0 ==> side.len() == 0
    &&& side.len() > 0 ==> exists|i: int| #[trigger]
        side.contains(i) && side.len() < want + conversation_size(ids, ids[i])
}

/// Dealing whole groups exceeds what a side is to hold by less than the last group.
proof fn lemma_dealt_bound(groups: Seq<Seq<int>>, order: Seq<int>, vt: nat, tt: nat)
    requires
        forall|p: int| 0 <= p < order.len() ==> 0 <= #[trigger] order[p] < groups.len(),
        forall|g: int| 0 <= g < groups.len() ==> (#[trigger] groups[g]).len() > 0,
    ensures
        ({
            let s = dealt(groups, order, vt, tt);
            &&& vt == 0 ==> s.valid.len() == 0
            &&& tt == 0 ==> s.test.len() == 0
            &&& s.valid.len() > 0 ==> exists|g: int|
                0 <= g < groups.len() && s.valid.contains(#[trigger] groups[g][0])
                    && s.valid.len() < vt + groups[g].len()
            &&& s.test.len() > 0 ==> exists|g: int|
                0 <= g < groups.len() && s.test.contains(#[trigger] groups[g][0]) && s.test.len()
                    < tt + groups[g].len()
        }),
    decreases order.len(),
{
    if order.len() > 0 {
        let rest = order.drop_last();
        assert forall|p: int| 0 <= p < rest.len() implies 0 <= #[trigger] rest[p]
            < groups.len() by {
            assert(rest[p] == order[p]);
        }
        lemma_dealt_bound(groups, rest, vt, tt);
        let was = dealt(groups, rest, vt, tt);
        let s = dealt(groups, order, vt, tt);
        let g = order[order.len() - 1];
        assert(0 <= g < groups.len());
        if was.valid.len() < vt {
            assert(s.valid[was.valid.len() as int] == groups[g][0]);
            assert(s.valid.contains(groups[g][0]) && s.valid.len() < vt + groups[g].len());
        } else if was.test.len() < tt {
            assert(s.test[was.test.len() as int] == groups[g][0]);
            assert(s.test.contains(groups[g][0]) && s.test.len() < tt + groups[g].len());
        }
    }
}

/// The groups of `ids` are not empty, and are as large as their conversations.
proof fn lemma_group_sizes(ids: Seq<Seq<char>>)
    ensures
        ({
            let gs = group::groups(ids, ids.len());
            forall|g: int|
                0 <= g < gs.len() ==> (#[trigger] gs[g]).len() > 0 && gs[g].len()
                    == conversation_size(ids, ids[gs[g][0]])
        }),
{
    let n = ids.len();
    let gs = group::groups(ids, n);
    let ls = group::leaders(ids, n);
    group::lemma_leaders(ids, n);
    assert forall|g: int| 0 <= g < gs.len() implies (#[trigger] gs[g]).len() > 0 && gs[g].len()
        == conversation_size(ids, ids[gs[g][0]]) by {
        let key = ids[ls[g]];
        group::lemma_members(ids, key, n);
        assert(gs[g].contains(ls[g]));
        assert(gs[g].contains(gs[g][0]));
        lemma_members_len(ids, key, n);
        assert(ids.take(n as int) =~= ids);
    }
}

/// Each side holds what was asked for it, as far as there are examples, the validation
/// side first. A random split holds exactly that. A split by conversation may hold more,
/// but less than one conversation more: without the last conversation a side would have
/// too few. Nothing stands on a side that nothing is asked for.
pub proof fn law_sides_hold_what_is_asked(ids: Seq<Seq<char>>, spec: SplitSpec)
    ensures
        ({
            let n = ids.len();
            let s = split_of(ids, spec);
            let v = asked(spec.valid, n >= 2);
            let t = asked(spec.test, n > v);
            let left = (n - s.valid.len()) as nat;
            &&& s.valid.len() <= n
            &&& s.train.len() + s.valid.len() + s.test.len() == n
            &&& holds_about(ids, s.valid, v, n)
            &&& holds_about(ids, s.test, t, left)
            &&& spec.strategy is Random ==> s.valid.len() == if v < n { v } else { n }
            &&& spec.strategy is Random ==> s.test.len() == if t < left { t } else { left }
        }),
{
    let n = ids.len();
    let s = split_of(ids, spec);
    let v = asked(spec.valid, n >= 2);
    let t = asked(spec.test, n > v);
    let left = (n - s.valid.len()) as nat;
    law_sides_filled(ids, spec);
    law_split_partitions(ids, spec);
    lemma_group_sizes(ids);
    if n > 0 {
        assert(v == valid_target(n, spec.valid));
        assert(t == test_target(n, spec.valid, spec.test));
        match spec.strategy {
            SplitStrategy::Random { seed } => {
                lemma_shuffled_positions(n, seed);
                lemma_own_size(ids, s, n, s.valid);
                lemma_own_size(ids, s, n, s.test);
            },
            SplitStrategy::ByConversation { seed } => {
                let gs = group::groups(ids, n);
                let order = shuffle::shuffled(positions(gs.len()), seed);
                lemma_shuffled_positions(gs.len(), seed);
                lemma_dealt_bound(gs, order, v, t);
                if s.valid.len() > 0 {
                    let g = choose|g: int|
                        0 <= g < gs.len() && s.valid.contains(#[trigger] gs[g][0])
                            && s.valid.len() < v + gs[g].len();
                    assert(gs[g].len() == conversation_size(ids, ids[gs[g][0]]));
                    assert(s.valid.contains(gs[g][0]));
                }
                if s.test.len() > 0 {
                    let g = choose|g: int|
                        0 <= g < gs.len() && s.test.contains(#[trigger] gs[g][0]) && s.test.len()
                            < t + gs[g].len();
                    assert(gs[g].len() == conversation_size(ids, ids[gs[g][0]]));
                    assert(s.test.contains(gs[g][0]));
                }
            },
        }
    }
}

/// The first example of a side that is not empty has a conversation of some size.
proof fn lemma_own_size(ids: Seq<Seq<char>>, s: SplitView, n: nat, side: Seq<int>)
    requires
        n == ids.len(),
        is_partition(s, n),
        side == s.valid || side == s.test,
    ensures
        side.len() > 0 ==> side.contains(side[0]) && conversation_size(ids, ids[side[0]]) >= 1,
{
    if side.len() > 0 {
        let i = side[0];
        assert(side.contains(i));
        lemma_side_in_range(s, n, i);
        lemma_some(ids, i);
    }
}

/// Where every example is a conversation of its own, a side holds exactly what was asked
/// for it, as far as there are examples, whichever way they are split.
pub proof fn law_single_examples_fill_exactly(ids: Seq<Seq<char>>, spec: SplitSpec)
    requires
        ids.no_duplicates(),
    ensures
        ({
            let n = ids.len();
            let s = split_of(ids, spec);
            let v = asked(spec.valid, n >= 2);
            let t = asked(spec.test, n > v);
            let left = (n - s.valid.len()) as nat;
            &&& s.valid.len() == if v < n { v } else { n }
            &&& s.test.len() == if t < left { t } else { left }
        }),
{
    let n = ids.len();
    let s = split_of(ids, spec);
    law_sides_hold_what_is_asked(ids, spec);
    law_split_partitions(ids, spec);
    if s.valid.len() > 0 {
        let v = asked(spec.valid, n >= 2);
        let i = choose|i: int| #[trigger]
            s.valid.contains(i) && s.valid.len() < v + conversation_size(ids, ids[i]);
        lemma_side_in_range(s, n, i);
        lemma_single(ids, i);
    }
    if s.test.len() > 0 {
        let t = asked(spec.test, n > asked(spec.valid, n >= 2));
        let i = choose|i: int| #[trigger]
            s.test.contains(i) && s.test.len() < t + conversation_size(ids, ids[i]);
        lemma_side_in_range(s, n, i);
        lemma_single(ids, i);
    }
}

/// The groups in the order `order`, one behind the other.
pub open spec fn in_turn(groups: Seq<Seq<int>>, order: Seq<int>) -> Seq<int>
    decreases order.len(),
{
    if order.len() == 0 {
        seq![]
    } else {
        in_turn(groups, order.drop_last()) + groups[order.last()]
    }
}

proof fn lemma_dealt_in_order(groups: Seq<Seq<int>>, order: Seq<int>, vt: nat, tt: nat)
    ensures
        ({
            let s = dealt(groups, order, vt, tt);
            s.valid + s.test + s.train == in_turn(groups, order)
        }),
    decreases order.len(),
{
    let s = dealt(groups, order, vt, tt);
    if order.len() > 0 {
        let rest = order.drop_last();
        lemma_dealt_in_order(groups, rest, vt, tt);
        lemma_dealt_in_turn(groups, rest, vt, tt);
        let was = dealt(groups, rest, vt, tt);
        let more = groups[order.last()];
        assert(s.valid + s.test + s.train =~= was.valid + was.test + was.train + more);
    } else {
        assert(s.valid + s.test + s.train =~= seq![]);
    }
}

/// The sides follow the shuffled order: validation first, then test, then training. A
/// random split shuffles the examples, and a split by conversation the conversations, the
/// examples of one standing together.
pub proof fn law_sides_follow_the_shuffle(ids: Seq<Seq<char>>, spec: SplitSpec)
    requires
        ids.len() > 0,
    ensures
        ({
            let n = ids.len();
            let s = split_of(ids, spec);
            let all = s.valid + s.test + s.train;
            match spec.strategy {
                SplitStrategy::Random { seed } => all == shuffle::shuffled(positions(n), seed),
                SplitStrategy::ByConversation { seed } => {
                    let gs = group::groups(ids, n);
                    all == in_turn(gs, shuffle::shuffled(positions(gs.len()), seed))
                },
            }
        }),
{
    let n = ids.len();
    let s = split_of(ids, spec);
    match spec.strategy {
        SplitStrategy::Random { seed } => {
            lemma_shuffled_positions(n, seed);
            assert(s.valid + s.test + s.train =~= shuffle::shuffled(positions(n), seed));
        },
        SplitStrategy::ByConversation { seed } => {
            let gs = group::groups(ids, n);
            lemma_dealt_in_order(
                gs,
                shuffle::shuffled(positions(gs.len()), seed),
                valid_target(n, spec.valid),
                test_target(n, spec.valid, spec.test),
            );
        },
    }
}

/// The conversations are grouped whole and in the order in which they first appear, and the
/// examples of each stand in their order.
pub proof fn law_groups_are_conversations(ids: Seq<Seq<char>>, g: int, h: int, p: int, q: int)
    requires
        0 <= g < group::groups(ids, ids.len()).len(),
        0 <= h < group::groups(ids, ids.len()).len(),
        0 <= p < group::groups(ids, ids.len())[g].len(),
        0 <= q < group::groups(ids, ids.len())[h].len(),
    ensures
        ({
            let gs = group::groups(ids, ids.len());
            &&& 0 <= gs[g][p] < ids.len()
            &&& g == h <==> ids[gs[g][p]] == ids[gs[h][q]]
            &&& g == h && p < q ==> gs[g][p] < gs[h][q]
            &&& gs[g].len() == conversation_size(ids, ids[gs[g][p]])
            &&& g < h ==> gs[g][0] < gs[h][0]
        }),
{
    let n = ids.len();
    let gs = group::groups(ids, n);
    let ls = group::leaders(ids, n);
    group::lemma_leaders(ids, n);
    lemma_group_sizes(ids);
    group::lemma_members(ids, ids[ls[g]], n);
    group::lemma_members(ids, ids[ls[h]], n);
    assert(gs[g].contains(gs[g][p]));
    assert(gs[h].contains(gs[h][q]));
    assert(gs[g].contains(gs[g][0]));
    assert(gs[h].contains(gs[h][0]));
    if ids[gs[g][p]] == ids[gs[h][q]] {
        group::lemma_leaders_differ(ids, n, g, h);
    }
    group::lemma_members_ordered(ids, ids[ls[g]], n);
    group::lemma_members_ordered(ids, ids[ls[h]], n);
    lemma_leader_leads(ids, g);
    lemma_leader_leads(ids, h);
}

/// The first member of a group is where its conversation first appears.
proof fn lemma_leader_leads(ids: Seq<Seq<char>>, g: int)
    requires
        0 <= g < group::groups(ids, ids.len()).len(),
    ensures
        group::groups(ids, ids.len())[g].len() > 0,
        group::groups(ids, ids.len())[g][0] == group::leaders(ids, ids.len())[g],
{
    let n = ids.len();
    let own = group::groups(ids, n)[g];
    let l = group::leaders(ids, n)[g];
    group::lemma_leaders(ids, n);
    group::lemma_members(ids, ids[l], n);
    group::lemma_members_ordered(ids, ids[l], n);
    assert(own.contains(l));
    let k = own.index_of(l);
    assert(own.contains(own[0]));
    if k > 0 {
        assert(own[0] < own[k]);
        assert(ids[own[0]] != ids[l]);
    }
}

} // verus!
