//! Grouping positions by a key: where each key first stands, and where it stands again.

use crate::name_map::NameMap;
use crate::text;
use vstd::prelude::*;

verus! {

/// The key at `i` stands nowhere before it.
pub open spec fn is_first_at(keys: Seq<Seq<char>>, i: int) -> bool {
    forall|j: int| 0 <= j < i ==> #[trigger] keys[j] != keys[i]
}

/// The positions below `n`, in order, where a key stands for the first time.
pub open spec fn leaders(keys: Seq<Seq<char>>, n: nat) -> Seq<int>
    decreases n,
{
    if n == 0 {
        seq![]
    } else {
        let before = leaders(keys, (n - 1) as nat);
        if is_first_at(keys, n - 1) {
            before.push(n - 1)
        } else {
            before
        }
    }
}

/// The positions below `n`, in order, where `key` stands.
pub open spec fn members(keys: Seq<Seq<char>>, key: Seq<char>, n: nat) -> Seq<int>
    decreases n,
{
    if n == 0 {
        seq![]
    } else {
        let before = members(keys, key, (n - 1) as nat);
        if keys[n - 1] == key {
            before.push(n - 1)
        } else {
            before
        }
    }
}

/// The positions below `n` in groups of one key each, the groups in the order in
/// which their keys first stand.
pub open spec fn groups(keys: Seq<Seq<char>>, n: nat) -> Seq<Seq<int>> {
    leaders(keys, n).map_values(|l: int| members(keys, keys[l], n))
}

/// A list of positions, as numbers.
pub open spec fn ints(v: Seq<usize>) -> Seq<int> {
    v.map_values(|i: usize| i as int)
}

/// The members of a group are the positions of its key, each once.
pub proof fn lemma_members(keys: Seq<Seq<char>>, key: Seq<char>, n: nat)
    ensures
        forall|i: int|
            #![trigger members(keys, key, n).contains(i)]
            members(keys, key, n).contains(i) <==> 0 <= i < n && keys[i] == key,
        members(keys, key, n).no_duplicates(),
        members(keys, key, n).len() <= n,
    decreases n,
{
    if n > 0 {
        lemma_members(keys, key, (n - 1) as nat);
        let before = members(keys, key, (n - 1) as nat);
        let now = members(keys, key, n);
        assert forall|i: int| now.contains(i) <==> 0 <= i < n && keys[i] == key by {
            if keys[n - 1] == key {
                if now.contains(i) {
                    let p = now.index_of(i);
                    if p < before.len() {
                        assert(before[p] == i);
                        assert(before.contains(i));
                    }
                }
                if before.contains(i) {
                    let p = before.index_of(i);
                    assert(now[p] == i);
                }
                if i == n - 1 {
                    assert(now[before.len() as int] == i);
                }
            }
        }
        if keys[n - 1] == key {
            assert forall|p: int, q: int| 0 <= p < q < now.len() implies now[p] != now[q] by {
                assert(before.contains(now[p]));
                if q < before.len() {
                    assert(before[p] != before[q]);
                }
            }
        }
    }
}

/// The leaders are the positions where a key first stands, each once and in order.
pub proof fn lemma_leaders(keys: Seq<Seq<char>>, n: nat)
    ensures
        forall|i: int|
            #![trigger leaders(keys, n).contains(i)]
            leaders(keys, n).contains(i) <==> 0 <= i < n && is_first_at(keys, i),
        forall|p: int, q: int|
            0 <= p < q < leaders(keys, n).len() ==> #[trigger] leaders(keys, n)[p]
                < #[trigger] leaders(keys, n)[q],
        forall|p: int|
            0 <= p < leaders(keys, n).len() ==> 0 <= #[trigger] leaders(keys, n)[p] < n
                && is_first_at(keys, leaders(keys, n)[p]),
        leaders(keys, n).len() <= n,
    decreases n,
{
    if n > 0 {
        lemma_leaders(keys, (n - 1) as nat);
        let before = leaders(keys, (n - 1) as nat);
        let now = leaders(keys, n);
        assert forall|i: int| now.contains(i) <==> 0 <= i < n && is_first_at(keys, i) by {
            if is_first_at(keys, n - 1) {
                if now.contains(i) {
                    let p = now.index_of(i);
                    if p < before.len() {
                        assert(before[p] == i);
                        assert(before.contains(i));
                    }
                }
                if before.contains(i) {
                    let p = before.index_of(i);
                    assert(now[p] == i);
                }
                if i == n - 1 {
                    assert(now[before.len() as int] == i);
                }
            }
        }
    }
}

/// Every position has a leader with its key.
pub proof fn lemma_leader_of(keys: Seq<Seq<char>>, n: nat, i: int) -> (g: int)
    requires
        0 <= i < n,
    ensures
        0 <= g < leaders(keys, n).len(),
        keys[leaders(keys, n)[g]] == keys[i],
        leaders(keys, n)[g] <= i,
    decreases i,
{
    lemma_leaders(keys, n);
    if is_first_at(keys, i) {
        assert(leaders(keys, n).contains(i));
        leaders(keys, n).index_of(i)
    } else {
        let j = choose|j: int| 0 <= j < i && #[trigger] keys[j] == keys[i];
        lemma_leader_of(keys, n, j)
    }
}

/// No two leaders have one key.
pub proof fn lemma_leaders_differ(keys: Seq<Seq<char>>, n: nat, g: int, h: int)
    requires
        0 <= g < leaders(keys, n).len(),
        0 <= h < leaders(keys, n).len(),
        keys[leaders(keys, n)[g]] == keys[leaders(keys, n)[h]],
    ensures
        g == h,
{
    lemma_leaders(keys, n);
    let ls = leaders(keys, n);
    if g < h {
        assert(ls[g] < ls[h]);
        assert(is_first_at(keys, ls[h]));
        assert(keys[ls[g]] != keys[ls[h]]);
    }
    if h < g {
        assert(ls[h] < ls[g]);
        assert(is_first_at(keys, ls[g]));
        assert(keys[ls[h]] != keys[ls[g]]);
    }
}

/// How the groups grow by one position.
proof fn lemma_groups_step(keys: Seq<Seq<char>>, i: nat)
    ensures
        is_first_at(keys, i as int) ==> groups(keys, i + 1) == groups(keys, i).push(seq![i as int]),
        forall|g: int|
            #![trigger groups(keys, i)[g]]
            !is_first_at(keys, i as int) && 0 <= g < groups(keys, i).len() ==> groups(
                keys,
                i + 1,
            )[g] == if keys[leaders(keys, i)[g]] == keys[i as int] {
                groups(keys, i)[g].push(i as int)
            } else {
                groups(keys, i)[g]
            },
        !is_first_at(keys, i as int) ==> groups(keys, i + 1).len() == groups(keys, i).len(),
{
    let before = groups(keys, i);
    let now = groups(keys, i + 1);
    lemma_leaders(keys, i);
    if is_first_at(keys, i as int) {
        assert forall|g: int| 0 <= g < before.len() implies now[g] == before[g] by {
            let l = leaders(keys, i)[g];
            assert(0 <= l < i);
            assert(keys[l] != keys[i as int]);
        }
        lemma_members(keys, keys[i as int], i);
        let own = members(keys, keys[i as int], i);
        if own.len() > 0 {
            assert(own.contains(own[0]));
            assert(keys[own[0]] != keys[i as int]);
        }
        assert(members(keys, keys[i as int], i + 1) =~= seq![i as int]);
        assert(now =~= before.push(seq![i as int]));
    }
}

/// Group positions by key, preserving first-seen order.
pub fn group_by_key(keys: &Vec<String>) -> (r: Vec<Vec<usize>>)
    ensures
        r@.len() == groups(text::views(keys@), keys@.len()).len(),
        forall|g: int|
            0 <= g < r@.len() ==> ints(#[trigger] r@[g]@) == groups(
                text::views(keys@),
                keys@.len(),
            )[g],
{
    let ghost ks = text::views(keys@);
    let mut groups_out: Vec<Vec<usize>> = Vec::new();
    let mut pos: NameMap<usize> = NameMap::new();
    let mut i: usize = 0;
    while i < keys.len()
        invariant
            i <= keys@.len(),
            ks == text::views(keys@),
            groups_out@.len() == groups(ks, i as nat).len(),
            forall|g: int|
                0 <= g < groups_out@.len() ==> ints(#[trigger] groups_out@[g]@) == groups(
                    ks,
                    i as nat,
                )[g],
            forall|k: Seq<char>| #[trigger]
                pos.has(k) <==> exists|j: int| 0 <= j < i && #[trigger] ks[j] == k,
            forall|k: Seq<char>| #[trigger]
                pos.has(k) ==> pos.at(k) < groups_out@.len() && ks[leaders(
                    ks,
                    i as nat,
                )[pos.at(k) as int]] == k,
        decreases keys@.len() - i,
    {
        let key = keys[i].as_str();
        assert(ks[i as int] == key@);
        let ghost before = groups_out@;
        let ghost was = pos;
        proof {
            lemma_groups_step(ks, i as nat);
            lemma_leaders(ks, i as nat);
        }
        let known = match pos.get(key) {
            Some(g) => Some(*g),
            None => None,
        };
        match known {
            Some(g) => {
                let ghost grown = groups_out@[g as int]@;
                assert(!is_first_at(ks, i as int));
                groups_out[g].push(i);
                proof {
                    assert(ints(grown.push(i)) =~= ints(grown).push(i as int));
                    assert forall|h: int| 0 <= h < groups_out@.len() implies ints(
                        #[trigger] groups_out@[h]@,
                    ) == groups(ks, (i + 1) as nat)[h] by {
                        assert(groups(ks, i as nat)[h] == ints(before[h]@));
                        if h != g && ks[leaders(ks, i as nat)[h]] == ks[i as int] {
                            lemma_leaders_differ(ks, i as nat, g as int, h);
                        }
                    }
                    assert forall|k: Seq<char>| #[trigger] pos.has(k) <==> exists|j: int|
                        0 <= j < i + 1 && #[trigger] ks[j] == k by {
                        if pos.has(k) {
                            let j = choose|j: int| 0 <= j < i && #[trigger] ks[j] == k;
                            assert(ks[j] == k);
                        }
                    }
                }
            },
            None => {
                let mut group: Vec<usize> = Vec::new();
                group.push(i);
                pos.insert(keys[i].clone(), groups_out.len());
                groups_out.push(group);
                proof {
                    assert(is_first_at(ks, i as int)) by {
                        assert forall|j: int| 0 <= j < i implies #[trigger] ks[j] != ks[i as int] by {
                            if ks[j] == ks[i as int] {
                                assert(was.has(ks[i as int]));
                            }
                        }
                    }
                    assert(ints(group@) =~= seq![i as int]);
                    assert forall|h: int| 0 <= h < groups_out@.len() implies ints(
                        #[trigger] groups_out@[h]@,
                    ) == groups(ks, (i + 1) as nat)[h] by {
                        if h < before.len() {
                            assert(groups_out@[h] == before[h]);
                        }
                    }
                    assert forall|k: Seq<char>| #[trigger] pos.has(k) <==> exists|j: int|
                        0 <= j < i + 1 && #[trigger] ks[j] == k by {
                        if pos.has(k) {
                            if was.has(k) {
                                let j = choose|j: int| 0 <= j < i && #[trigger] ks[j] == k;
                                assert(ks[j] == k);
                            } else {
                                assert(ks[i as int] == k);
                            }
                        }
                        if exists|j: int| 0 <= j < i + 1 && #[trigger] ks[j] == k {
                            let j = choose|j: int| 0 <= j < i + 1 && #[trigger] ks[j] == k;
                            if j < i {
                                assert(was.has(k));
                            }
                        }
                    }
                    assert forall|k: Seq<char>| #[trigger] pos.has(k) implies pos.at(k)
                        < groups_out@.len() && ks[leaders(ks, (i + 1) as nat)[pos.at(k) as int]]
                        == k by {
                        if k != ks[i as int] {
                            assert(was.has(k));
                            assert(pos.at(k) == was.at(k));
                        }
                    }
                }
            },
        }
        i += 1;
    }
    groups_out
}

/// The members of a group stand in order.
pub proof fn lemma_members_ordered(keys: Seq<Seq<char>>, key: Seq<char>, n: nat)
    ensures
        forall|p: int, q: int|
            0 <= p < q < members(keys, key, n).len() ==> #[trigger] members(keys, key, n)[p]
                < #[trigger] members(keys, key, n)[q],
    decreases n,
{
    if n > 0 {
        lemma_members_ordered(keys, key, (n - 1) as nat);
        lemma_members(keys, key, (n - 1) as nat);
        let before = members(keys, key, (n - 1) as nat);
        let now = members(keys, key, n);
        assert forall|p: int, q: int| 0 <= p < q < now.len() implies #[trigger] now[p]
            < #[trigger] now[q] by {
            assert(before.contains(before[p]));
        }
    }
}

} // verus!
