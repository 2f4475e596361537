//! A map from names to values that keeps its names in order.

use crate::order;
use crate::text;
use vstd::prelude::*;

verus! {

/// A map from names to values. It holds each name once, and its names in order.
#[derive(Debug)]
pub struct NameMap<V> {
    entries: Vec<(String, V)>,
}

/// The names of a list of entries.
pub open spec fn entry_names<V>(entries: Seq<(String, V)>) -> Seq<Seq<char>> {
    entries.map_values(|e: (String, V)| e.0@)
}

impl<V> NameMap<V> {
    #[verifier::type_invariant]
    closed spec fn sorted(&self) -> bool {
        order::increasing(entry_names(self.entries@))
    }

    /// The names, in order.
    pub closed spec fn names(&self) -> Seq<Seq<char>> {
        entry_names(self.entries@)
    }

    /// The values, in the order of their names.
    pub closed spec fn values(&self) -> Seq<V> {
        self.entries@.map_values(|e: (String, V)| e.1)
    }

    /// The value that stands under `name`.
    pub open spec fn at(&self, name: Seq<char>) -> V {
        self.values()[self.names().index_of(name)]
    }

    pub open spec fn has(&self, name: Seq<char>) -> bool {
        self.names().contains(name)
    }

    /// Both lists are equally long, and the names are in order.
    pub open spec fn ordered(&self) -> bool {
        &&& self.names().len() == self.values().len()
        &&& order::increasing(self.names())
    }

    pub fn new() -> (r: Self)
        ensures
            r.names() == Seq::<Seq<char>>::empty(),
            r.values() == Seq::<V>::empty(),
            r.ordered(),
    {
        let r = NameMap { entries: Vec::new() };
        assert(r.names() =~= Seq::<Seq<char>>::empty());
        assert(r.values() =~= Seq::<V>::empty());
        r
    }

    pub fn len(&self) -> (r: usize)
        ensures
            r == self.names().len(),
            self.ordered(),
    {
        proof {
            use_type_invariant(self);
        }
        self.entries.len()
    }

    pub fn is_empty(&self) -> (r: bool)
        ensures
            r == (self.names().len() == 0),
    {
        self.entries.len() == 0
    }

    /// Where `name` stands, or where it belongs.
    fn place(&self, name: &str) -> (r: (usize, bool))
        ensures
            r.0 <= self.names().len(),
            r.1 == self.has(name@),
            r.1 ==> r.0 < self.names().len() && self.names()[r.0 as int] == name@,
            forall|k: int| 0 <= k < r.0 ==> order::before(#[trigger] self.names()[k], name@),
            !r.1 ==> forall|k: int|
                r.0 <= k < self.names().len() ==> order::before(name@, #[trigger] self.names()[k]),
    {
        proof {
            use_type_invariant(self);
        }
        let ghost ns = self.names();
        let mut lo: usize = 0;
        let mut hi: usize = self.entries.len();
        while lo < hi
            invariant
                lo <= hi <= self.entries@.len(),
                ns == self.names(),
                ns.len() == self.entries@.len(),
                order::increasing(ns),
                forall|k: int| 0 <= k < lo ==> order::before(#[trigger] ns[k], name@),
                forall|k: int| hi <= k < ns.len() ==> !order::before(#[trigger] ns[k], name@),
            decreases hi - lo,
        {
            let mid = lo + (hi - lo) / 2;
            assert(ns[mid as int] == self.entries@[mid as int].0@);
            if order::text_before(self.entries[mid].0.as_str(), name) {
                assert forall|k: int| 0 <= k < mid + 1 implies order::before(
                    #[trigger] ns[k],
                    name@,
                ) by {
                    if k < mid {
                        order::lemma_before_transitive(ns[k], ns[mid as int], name@);
                    }
                }
                lo = mid + 1;
            } else {
                assert forall|k: int| mid <= k < ns.len() implies !order::before(
                    #[trigger] ns[k],
                    name@,
                ) by {
                    if k > mid && order::before(ns[k], name@) {
                        order::lemma_before_transitive(ns[mid as int], ns[k], name@);
                    }
                }
                hi = mid;
            }
        }
        let i = lo;
        proof {
            order::lemma_not_before_itself(name@);
        }
        if i < self.entries.len() {
            assert(ns[i as int] == self.entries@[i as int].0@);
            if text::same_text(self.entries[i].0.as_str(), name) {
                return (i, true);
            }
            proof {
                order::lemma_before_total(ns[i as int], name@);
                assert forall|k: int| i <= k < ns.len() implies order::before(
                    name@,
                    #[trigger] ns[k],
                ) by {
                    if k > i {
                        order::lemma_before_transitive(name@, ns[i as int], ns[k]);
                    }
                }
                assert forall|k: int| 0 <= k < ns.len() implies ns[k] != name@ by {}
            }
        }
        (i, false)
    }

    /// The value under `name`.
    pub fn get(&self, name: &str) -> (r: Option<&V>)
        ensures
            match r {
                Some(v) => self.has(name@) && *v == self.at(name@),
                None => !self.has(name@),
            },
            self.ordered(),
    {
        proof {
            use_type_invariant(self);
        }
        let (i, found) = self.place(name);
        if found {
            proof {
                lemma_index_of(self.names(), i as int);
            }
            Some(&self.entries[i].1)
        } else {
            None
        }
    }

    pub fn contains_key(&self, name: &str) -> (r: bool)
        ensures
            r == self.has(name@),
    {
        let (_, found) = self.place(name);
        found
    }

    /// The value under the first name.
    pub fn first(&self) -> (r: Option<&V>)
        ensures
            match r {
                Some(v) => self.names().len() > 0 && *v == self.values()[0],
                None => self.names().len() == 0,
            },
            self.ordered(),
    {
        proof {
            use_type_invariant(self);
        }
        if self.entries.len() > 0 {
            Some(&self.entries[0].1)
        } else {
            None
        }
    }

    /// The `i`th entry.
    pub fn entry(&self, i: usize) -> (r: (&String, &V))
        requires
            i < self.names().len(),
        ensures
            r.0@ == self.names()[i as int],
            *r.1 == self.values()[i as int],
            self.ordered(),
    {
        proof {
            use_type_invariant(self);
        }
        (&self.entries[i].0, &self.entries[i].1)
    }

    /// Put `value` under `name`, in place of what stood there.
    pub fn insert(&mut self, name: String, value: V)
        ensures
            forall|k: Seq<char>| #[trigger]
                final(self).has(k) <==> old(self).has(k) || k == name@,
            final(self).at(name@) == value,
            forall|k: Seq<char>|
                k != name@ && old(self).has(k) ==> #[trigger] final(self).at(k) == old(self).at(k),
            final(self).ordered(),
            final(self).names().len() == old(self).names().len() + if old(self).has(name@) {
                0int
            } else {
                1
            },
    {
        proof {
            use_type_invariant(&*self);
        }
        let ghost was = *self;
        let ghost ns = self.names();
        let (i, found) = self.place(name.as_str());
        let mut entries: Vec<(String, V)> = Vec::new();
        std::mem::swap(&mut entries, &mut self.entries);
        let ghost es = entries@;
        assert(entry_names(es) == ns);
        if found {
            entries[i] = (name, value);
        } else {
            entries.insert(i, (name, value));
        }
        let ghost now = entry_names(entries@);
        proof {
            assert(now[i as int] == name@);
            if found {
                assert(now =~= ns);
            } else {
                assert(now =~= ns.insert(i as int, name@));
                assert forall|a: int, b: int| 0 <= a < b < now.len() implies order::before(
                    #[trigger] now[a],
                    #[trigger] now[b],
                ) by {
                    let x = if a < i {
                        a
                    } else {
                        a - 1
                    };
                    let y = if b < i {
                        b
                    } else {
                        b - 1
                    };
                    if a != i {
                        assert(now[a] == ns[x]);
                    }
                    if b != i {
                        assert(now[b] == ns[y]);
                    }
                }
            }
        }
        self.entries = entries;
        proof {
            assert(self.names() == now);
            lemma_index_of(now, i as int);
            assert forall|k: Seq<char>| #[trigger] self.has(k) <==> was.has(k) || k == name@ by {
                if self.has(k) {
                    let j = now.index_of(k);
                    assert(now[j] == k);
                    if !found && j != i {
                        let x = if j < i {
                            j
                        } else {
                            j - 1
                        };
                        assert(ns[x] == k);
                    }
                }
                if was.has(k) {
                    let j = ns.index_of(k);
                    assert(ns[j] == k);
                    if found || j < i {
                        assert(now[j] == k);
                    } else {
                        assert(now[j + 1] == k);
                    }
                }
            }
            assert forall|k: Seq<char>| k != name@ && was.has(k) implies #[trigger] self.at(k)
                == was.at(k) by {
                let j = ns.index_of(k);
                assert(ns[j] == k);
                let x = if found || j < i {
                    j
                } else {
                    j + 1
                };
                assert(now[x] == k);
                lemma_index_of(now, x);
                lemma_index_of(ns, j);
                assert(self.entries@[x] == es[j]);
            }
        }
    }

    /// The names, in order.
    pub fn name_list(&self) -> (r: Vec<String>)
        ensures
            text::views(r@) == self.names(),
            self.ordered(),
    {
        proof {
            use_type_invariant(self);
        }
        let mut out: Vec<String> = Vec::new();
        let mut i: usize = 0;
        while i < self.entries.len()
            invariant
                i <= self.entries@.len(),
                text::views(out@) == self.names().take(i as int),
            decreases self.entries@.len() - i,
        {
            let ghost before = out@;
            out.push(self.entries[i].0.clone());
            assert(text::views(out@) =~= text::views(before).push(self.names()[i as int]));
            i += 1;
            assert(text::views(out@) =~= self.names().take(i as int));
        }
        assert(self.names().take(i as int) =~= self.names());
        out
    }
}

/// In an increasing list each entry stands once.
pub proof fn lemma_index_of(s: Seq<Seq<char>>, i: int)
    requires
        order::increasing(s),
        0 <= i < s.len(),
    ensures
        s.index_of(s[i]) == i,
        s.contains(s[i]),
{
    let j = s.index_of(s[i]);
    assert(s[j] == s[i]);
    order::lemma_not_before_itself(s[i]);
    if i < j {
        assert(order::before(s[i], s[j]));
    }
    if j < i {
        assert(order::before(s[j], s[i]));
    }
}

} // verus!
