//! Sorting from the highest rank down, keeping the order of equals.

use crate::clock;
use crate::clock::Timestamp;
use crate::order;
use vstd::prelude::*;

verus! {

/// Values that are ranked, some perhaps equally.
pub trait Ranked: Sized {
    spec fn below(self, other: Self) -> bool;

    proof fn below_not_both(a: Self, b: Self)
        ensures
            !(a.below(b) && b.below(a)),
    ;

    proof fn below_carries(a: Self, b: Self, c: Self)
        requires
            !a.below(b),
            !b.below(c),
        ensures
            !a.below(c),
    ;

    fn is_below(&self, other: &Self) -> (r: bool)
        ensures
            r == self.below(*other),
    ;
}

/// Later is higher.
impl Ranked for Timestamp {
    open spec fn below(self, other: Self) -> bool {
        clock::earlier(self@, other@)
    }

    proof fn below_not_both(a: Self, b: Self) {
    }

    proof fn below_carries(a: Self, b: Self, c: Self) {
    }

    fn is_below(&self, other: &Self) -> (r: bool) {
        self.is_before(other)
    }
}

/// Text ranks by its characters.
impl Ranked for String {
    open spec fn below(self, other: Self) -> bool {
        order::before(self@, other@)
    }

    proof fn below_not_both(a: Self, b: Self) {
        order::lemma_before_total(a@, b@);
    }

    proof fn below_carries(a: Self, b: Self, c: Self) {
        order::lemma_before_total(a@, b@);
        order::lemma_before_total(b@, c@);
        if order::before(a@, c@) {
            if order::before(b@, a@) {
                order::lemma_before_transitive(b@, a@, c@);
            }
        }
    }

    fn is_below(&self, other: &Self) -> (r: bool) {
        order::text_before(self.as_str(), other.as_str())
    }
}

/// `order` lists the positions below `n`, each once.
pub open spec fn is_arrangement(order: Seq<usize>, n: nat) -> bool {
    &&& order.len() == n
    &&& order.no_duplicates()
    &&& forall|p: int| 0 <= p < order.len() ==> #[trigger] order[p] < n
}

/// `order` goes from the highest key down, and lists equal keys as they stand.
pub open spec fn is_descending<K: Ranked>(order: Seq<usize>, keys: Seq<K>) -> bool {
    forall|p: int, q: int|
        0 <= p < q < order.len() ==> {
            let a = keys[#[trigger] order[p] as int];
            let b = keys[#[trigger] order[q] as int];
            !a.below(b) && (!b.below(a) ==> order[p] < order[q])
        }
}

/// The entries of `s` in the order `order`.
pub open spec fn arranged<T>(s: Seq<T>, order: Seq<usize>) -> Seq<T> {
    order.map_values(|i: usize| s[i as int])
}

/// `r` is `s` sorted by `keys`, from the highest down, with the order of equals kept.
pub open spec fn is_sorted_copy<T, K: Ranked>(r: Seq<T>, s: Seq<T>, keys: Seq<K>) -> bool {
    exists|order: Seq<usize>|
        {
            &&& #[trigger] is_arrangement(order, s.len())
            &&& is_descending(order, keys)
            &&& r == arranged(s, order)
        }
}

/// The positions of `keys`, from the highest key down.
pub fn descending<K: Ranked>(keys: &Vec<K>) -> (r: Vec<usize>)
    ensures
        is_arrangement(r@, keys@.len()),
        is_descending(r@, keys@),
{
    let mut out: Vec<usize> = Vec::new();
    let mut i: usize = 0;
    while i < keys.len()
        invariant
            i <= keys@.len(),
            is_arrangement(out@, i as nat),
            is_descending(out@, keys@),
        decreases keys@.len() - i,
    {
        let mut p: usize = 0;
        while p < out.len() && !keys[out[p]].is_below(&keys[i])
            invariant
                p <= out@.len(),
                i < keys@.len(),
                is_arrangement(out@, i as nat),
                forall|q: int|
                    0 <= q < p ==> !keys@[#[trigger] out@[q] as int].below(keys@[i as int]),
            decreases out@.len() - p,
        {
            p += 1;
        }
        let ghost was = out@;
        out.insert(p, i);
        proof {
            let key = keys@[i as int];
            assert(out@ =~= was.insert(p as int, i));
            assert forall|q: int| p <= q < was.len() implies keys@[#[trigger] was[q] as int].below(
                key,
            ) by {
                if q > p {
                    let a = keys@[was[p as int] as int];
                    let b = keys@[was[q] as int];
                    assert(!a.below(b));
                    if !b.below(key) {
                        K::below_carries(a, b, key);
                    }
                }
            }
            assert forall|x: int, y: int| 0 <= x < y < out@.len() implies {
                let a = keys@[#[trigger] out@[x] as int];
                let b = keys@[#[trigger] out@[y] as int];
                !a.below(b) && (!b.below(a) ==> out@[x] < out@[y])
            } by {
                let u = if x < p {
                    x
                } else {
                    x - 1
                };
                let v = if y < p {
                    y
                } else {
                    y - 1
                };
                if x != p {
                    assert(out@[x] == was[u]);
                }
                if y != p {
                    assert(out@[y] == was[v]);
                }
                if x == p {
                    K::below_not_both(keys@[was[v] as int], key);
                }
            }
            assert(is_arrangement(out@, (i + 1) as nat)) by {
                assert forall|x: int| 0 <= x < out@.len() implies #[trigger] out@[x] < i + 1 by {
                    if x < p {
                        assert(out@[x] == was[x]);
                    } else if x > p {
                        assert(out@[x] == was[x - 1]);
                    }
                }
                assert forall|x: int, y: int| 0 <= x < y < out@.len() implies out@[x] != out@[y] by {
                    let u = if x < p {
                        x
                    } else {
                        x - 1
                    };
                    let v = if y < p {
                        y
                    } else {
                        y - 1
                    };
                    if x != p {
                        assert(out@[x] == was[u]);
                    }
                    if y != p {
                        assert(out@[y] == was[v]);
                    }
                }
            }
        }
        i += 1;
    }
    out
}

/// The entries of `items` in the order `order`.
pub fn arrange<T>(items: Vec<T>, order: &Vec<usize>) -> (r: Vec<T>)
    requires
        is_arrangement(order@, items@.len()),
    ensures
        r@ == arranged(items@, order@),
{
    let ghost all = items@;
    let mut slots: Vec<Option<T>> = Vec::new();
    for t in it: items
        invariant
            it.seq() == all,
            slots@.len() == it.index(),
            forall|i: int| 0 <= i < slots@.len() ==> #[trigger] slots@[i] == Some(all[i]),
    {
        slots.push(Some(t));
    }
    let mut out: Vec<T> = Vec::new();
    let mut p: usize = 0;
    while p < order.len()
        invariant
            p <= order@.len(),
            is_arrangement(order@, all.len()),
            slots@.len() == all.len(),
            forall|q: int|
                p <= q < order@.len() ==> slots@[#[trigger] order@[q] as int] == Some(
                    all[order@[q] as int],
                ),
            out@ == arranged(all, order@.take(p as int)),
        decreases order@.len() - p,
    {
        let taken = slots[order[p]].take();
        if let Some(t) = taken {
            let ghost before = out@;
            out.push(t);
            assert(arranged(all, order@.take(p + 1)) =~= arranged(all, order@.take(p as int)).push(
                all[order@[p as int] as int],
            ));
        }
        p += 1;
    }
    assert(order@.take(p as int) =~= order@);
    out
}

/// Two sorted copies of one list are the same: the order is fully decided.
pub proof fn law_sorted_copy_unique<T, K: Ranked>(
    a: Seq<T>,
    b: Seq<T>,
    s: Seq<T>,
    keys: Seq<K>,
)
    requires
        is_sorted_copy(a, s, keys),
        is_sorted_copy(b, s, keys),
    ensures
        a == b,
{
    let n = s.len();
    let x = choose|order: Seq<usize>|
        {
            &&& #[trigger] is_arrangement(order, n)
            &&& is_descending(order, keys)
            &&& a == arranged(s, order)
        };
    let y = choose|order: Seq<usize>|
        {
            &&& #[trigger] is_arrangement(order, n)
            &&& is_descending(order, keys)
            &&& b == arranged(s, order)
        };
    lemma_same_order(x, y, keys, n);
}

/// Every position stands somewhere in an arrangement.
proof fn lemma_arrangement_complete(order: Seq<usize>, n: nat, i: usize)
    requires
        is_arrangement(order, n),
        i < n,
    ensures
        order.contains(i),
{
    let all = Set::<int>::new(|k: int| 0 <= k < n);
    let seen = order.map_values(|k: usize| k as int);
    vstd::set_lib::lemma_int_range(0, n as int);
    assert(all =~= vstd::set_lib::set_int_range(0, n as int));
    assert(seen.no_duplicates());
    seen.unique_seq_to_set();
    assert(seen.to_set().subset_of(all)) by {
        assert forall|k: int| seen.to_set().contains(k) implies all.contains(k) by {
            let p = seen.index_of(k);
            assert(order[p] < n);
        }
    }
    vstd::set_lib::lemma_subset_equality(seen.to_set(), all);
    assert(seen.to_set().contains(i as int));
    let p = seen.index_of(i as int);
    assert(order[p] == i);
}

/// The rank of `i` before `j` is decided by the keys and positions alone.
spec fn goes_first<K: Ranked>(keys: Seq<K>, i: usize, j: usize) -> bool {
    keys[j as int].below(keys[i as int]) || (!keys[i as int].below(keys[j as int]) && i < j)
}

proof fn lemma_same_order<K: Ranked>(x: Seq<usize>, y: Seq<usize>, keys: Seq<K>, n: nat)
    requires
        is_arrangement(x, n),
        is_arrangement(y, n),
        is_descending(x, keys),
        is_descending(y, keys),
    ensures
        x == y,
{
    assert forall|p: int| 0 <= p < n implies x[p] == y[p] by {
        lemma_same_at(x, y, keys, n, p);
    }
    assert(x =~= y);
}

proof fn lemma_same_at<K: Ranked>(x: Seq<usize>, y: Seq<usize>, keys: Seq<K>, n: nat, p: int)
    requires
        is_arrangement(x, n),
        is_arrangement(y, n),
        is_descending(x, keys),
        is_descending(y, keys),
        0 <= p < n,
    ensures
        forall|q: int| 0 <= q <= p ==> #[trigger] x[q] == y[q],
    decreases p,
{
    if p > 0 {
        lemma_same_at(x, y, keys, n, p - 1);
    }
    if x[p] != y[p] {
        assert(x[p] < n && y[p] < n);
        lemma_arrangement_complete(y, n, x[p]);
        lemma_arrangement_complete(x, n, y[p]);
        let q = y.index_of(x[p]);
        let r = x.index_of(y[p]);
        assert(y[q] == x[p] && x[r] == y[p]);
        if q < p {
            assert(x[q] == y[q]);
            assert(x[q] == x[p]);
        }
        if r < p {
            assert(x[r] == y[r]);
            assert(y[r] == y[p]);
        }
        assert(p < q && p < r);
        let a = keys[x[p] as int];
        let b = keys[y[p] as int];
        assert(goes_first(keys, x[p], x[r]));
        assert(goes_first(keys, y[p], y[q]));
        K::below_not_both(a, b);
    }
}

/// Where an arrangement lists the position `i`.
pub proof fn lemma_arrangement_place(order: Seq<usize>, n: nat, i: int) -> (p: int)
    requires
        is_arrangement(order, n),
        0 <= i < n,
    ensures
        0 <= p < order.len(),
        order[p] == i,
{
    let places = order.map_values(|x: usize| x as int);
    let all = Seq::new(n, |k: int| k);
    assert(places.no_duplicates());
    assert(all.no_duplicates());
    places.unique_seq_to_set();
    all.unique_seq_to_set();
    assert(places.to_set().subset_of(all.to_set())) by {
        assert forall|x: int| places.to_set().contains(x) implies all.to_set().contains(x) by {
            let p = places.index_of(x);
            assert(order[p] < n);
            assert(all[x] == x);
        }
    }
    vstd::set_lib::lemma_subset_equality(places.to_set(), all.to_set());
    assert(all[i] == i);
    assert(all.to_set().contains(i));
    assert(places.to_set().contains(i));
    assert(places.contains(i));
    places.index_of(i)
}

/// What is arranged is what was there.
pub proof fn lemma_arranged_holds<T>(s: Seq<T>, order: Seq<usize>)
    requires
        is_arrangement(order, s.len()),
    ensures
        arranged(s, order).len() == s.len(),
        forall|t: T| #[trigger] arranged(s, order).contains(t) <==> s.contains(t),
{
    let r = arranged(s, order);
    assert forall|t: T| #[trigger] r.contains(t) <==> s.contains(t) by {
        if r.contains(t) {
            let p = r.index_of(t);
            assert(s[order[p] as int] == t);
        }
        if s.contains(t) {
            let i = s.index_of(t);
            let p = lemma_arrangement_place(order, s.len(), i);
            assert(r[p] == t);
        }
    }
}

} // verus!
