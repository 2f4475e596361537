//! The order of texts: by their characters, from the left.

use crate::text;
use vstd::prelude::*;

verus! {

/// `a` comes before `b`.
pub open spec fn before(a: Seq<char>, b: Seq<char>) -> bool
    decreases a.len(),
{
    if b.len() == 0 {
        false
    } else if a.len() == 0 {
        true
    } else if a[0] != b[0] {
        (a[0] as int) < (b[0] as int)
    } else {
        before(a.drop_first(), b.drop_first())
    }
}

/// Every entry comes before the ones behind it.
pub open spec fn increasing(s: Seq<Seq<char>>) -> bool {
    forall|i: int, j: int| 0 <= i < j < s.len() ==> before(#[trigger] s[i], #[trigger] s[j])
}

pub proof fn lemma_not_before_itself(a: Seq<char>)
    ensures
        !before(a, a),
    decreases a.len(),
{
    if a.len() > 0 {
        lemma_not_before_itself(a.drop_first());
    }
}

pub proof fn lemma_before_transitive(a: Seq<char>, b: Seq<char>, c: Seq<char>)
    requires
        before(a, b),
        before(b, c),
    ensures
        before(a, c),
    decreases a.len(),
{
    if a.len() > 0 && a[0] == b[0] && b[0] == c[0] {
        lemma_before_transitive(a.drop_first(), b.drop_first(), c.drop_first());
    }
}

pub proof fn lemma_before_total(a: Seq<char>, b: Seq<char>)
    ensures
        before(a, b) || before(b, a) || a == b,
        before(a, b) ==> !before(b, a),
    decreases a.len(),
{
    if a.len() == 0 || b.len() == 0 {
        if a.len() == b.len() {
            assert(a =~= b);
        }
    } else if a[0] == b[0] {
        lemma_before_total(a.drop_first(), b.drop_first());
        if a.drop_first() == b.drop_first() {
            assert(a =~= seq![a[0]] + a.drop_first());
            assert(b =~= seq![b[0]] + b.drop_first());
        }
    }
}

fn char_before(c: char, d: char) -> (r: bool)
    ensures
        r == ((c as int) < (d as int)),
{
    (c as u32) < (d as u32)
}

/// Whether `a` comes before `b`.
pub fn text_before(a: &str, b: &str) -> (r: bool)
    ensures
        r == before(a@, b@),
{
    let x = text::chars_of(a);
    let y = text::chars_of(b);
    let mut i: usize = 0;
    assert(x@.skip(0) =~= x@);
    assert(y@.skip(0) =~= y@);
    while i < x.len() && i < y.len()
        invariant
            i <= x@.len(),
            i <= y@.len(),
            before(x@.skip(i as int), y@.skip(i as int)) == before(a@, b@),
        decreases x@.len() - i,
    {
        let ghost p = x@.skip(i as int);
        let ghost q = y@.skip(i as int);
        assert(p[0] == x@[i as int] && q[0] == y@[i as int]);
        let (c, d) = (x[i], y[i]);
        if c != d {
            return char_before(c, d);
        }
        assert(p.drop_first() =~= x@.skip(i + 1));
        assert(q.drop_first() =~= y@.skip(i + 1));
        i += 1;
    }
    i < y.len()
}

/// Texts are ordered as in a dictionary: by the first character in which they differ, and a
/// text that is the start of another comes before it.
pub proof fn law_first_difference_decides(
    common: Seq<char>,
    c: char,
    d: char,
    x: Seq<char>,
    y: Seq<char>,
)
    ensures
        (c as int) < (d as int) ==> before(common.push(c) + x, common.push(d) + y),
        (c as int) < (d as int) ==> !before(common.push(d) + y, common.push(c) + x),
        before(common, common.push(c) + x),
        !before(common.push(c) + x, common),
    decreases common.len(),
{
    let (a, b) = (common.push(c) + x, common.push(d) + y);
    if common.len() > 0 {
        let rest = common.drop_first();
        law_first_difference_decides(rest, c, d, x, y);
        assert(a.drop_first() =~= rest.push(c) + x);
        assert(b.drop_first() =~= rest.push(d) + y);
        assert(a[0] == common[0] && b[0] == common[0]);
    } else {
        assert(a[0] == c && b[0] == d);
    }
}

} // verus!
