//! Text as sequences of characters: searching, trimming, splitting and building.

use vstd::prelude::*;

verus! {

/// `String::push` appends the given character to the end of the string.
pub assume_specification[ String::push ](s: &mut String, c: char)
    ensures
        final(s)@ == old(s)@.push(c),
;

/// `char::is_whitespace` tells whether a character has the Unicode `White_Space`
/// property; the contract lists the characters that have it.
pub assume_specification[ char::is_whitespace ](c: char) -> (r: bool)
    ensures
        r == is_white(c),
;

/// The Unicode `White_Space` characters.
pub open spec fn is_white(c: char) -> bool {
    let n = c as int;
    ||| 0x9 <= n <= 0xd
    ||| n == 0x20
    ||| n == 0x85
    ||| n == 0xa0
    ||| n == 0x1680
    ||| 0x2000 <= n <= 0x200a
    ||| n == 0x2028
    ||| n == 0x2029
    ||| n == 0x202f
    ||| n == 0x205f
    ||| n == 0x3000
}

/// `pat` stands in `s` at position `p`.
pub open spec fn occurs_at(s: Seq<char>, pat: Seq<char>, p: int) -> bool {
    0 <= p && p + pat.len() <= s.len() && s.subrange(p, p + pat.len()) == pat
}

/// `pat` stands somewhere in `s`.
pub open spec fn contains(s: Seq<char>, pat: Seq<char>) -> bool {
    exists|p: int| occurs_at(s, pat, p)
}

/// `p` is the leftmost position of `pat` in `s`.
pub open spec fn is_first(s: Seq<char>, pat: Seq<char>, p: int) -> bool {
    occurs_at(s, pat, p) && forall|q: int| q < p ==> !occurs_at(s, pat, q)
}

/// The leftmost position of `pat` in `s`, where there is one.
pub open spec fn find(s: Seq<char>, pat: Seq<char>) -> Option<int> {
    if contains(s, pat) {
        Some(choose|p: int| is_first(s, pat, p))
    } else {
        None
    }
}

pub open spec fn starts_with(s: Seq<char>, pat: Seq<char>) -> bool {
    occurs_at(s, pat, 0)
}

pub open spec fn ends_with_char(s: Seq<char>, c: char) -> bool {
    s.len() > 0 && s.last() == c
}

/// `s` without its leading white space.
pub open spec fn trim_start(s: Seq<char>) -> Seq<char>
    decreases s.len(),
{
    if s.len() > 0 && is_white(s[0]) {
        trim_start(s.drop_first())
    } else {
        s
    }
}

/// `s` without its trailing white space.
pub open spec fn trim_end(s: Seq<char>) -> Seq<char>
    decreases s.len(),
{
    if s.len() > 0 && is_white(s.last()) {
        trim_end(s.drop_last())
    } else {
        s
    }
}

/// `s` without white space at either end.
pub open spec fn trim(s: Seq<char>) -> Seq<char> {
    trim_end(trim_start(s))
}

/// `s` holds nothing but white space.
pub open spec fn blank(s: Seq<char>) -> bool {
    forall|i: int| 0 <= i < s.len() ==> is_white(#[trigger] s[i])
}

/// Where `pat` stands in `s` at all, it has a leftmost position there.
pub proof fn lemma_first_exists(s: Seq<char>, pat: Seq<char>, p: int)
    requires
        occurs_at(s, pat, p),
    ensures
        exists|q: int| q <= p && is_first(s, pat, q),
    decreases p,
{
    if exists|q: int| q < p && occurs_at(s, pat, q) {
        let q = choose|q: int| q < p && occurs_at(s, pat, q);
        lemma_first_exists(s, pat, q);
    } else {
        assert(is_first(s, pat, p));
    }
}

/// What `find` returns is pinned down by being leftmost.
pub proof fn lemma_find(s: Seq<char>, pat: Seq<char>)
    ensures
        match find(s, pat) {
            Some(p) => is_first(s, pat, p),
            None => !contains(s, pat),
        },
        forall|p: int| is_first(s, pat, p) ==> find(s, pat) == Some(p),
{
    if contains(s, pat) {
        let p = choose|p: int| occurs_at(s, pat, p);
        lemma_first_exists(s, pat, p);
    }
    assert forall|p: int| is_first(s, pat, p) implies find(s, pat) == Some(p) by {
        let q = choose|q: int| is_first(s, pat, q);
        assert(is_first(s, pat, q));
        if q < p {
            assert(!occurs_at(s, pat, q));
        }
        if p < q {
            assert(!occurs_at(s, pat, p));
        }
    }
}

/// The characters of `s`, in order.
pub fn chars_of(s: &str) -> (r: Vec<char>)
    ensures
        r@ == s@,
{
    let mut out: Vec<char> = Vec::new();
    for c in it: s.chars()
        invariant
            out@ == it.seq().take(it.index() as int),
            it.seq() == s@,
    {
        out.push(c);
    }
    out
}

/// The text of `v[lo..hi]`.
pub fn slice_text(v: &Vec<char>, lo: usize, hi: usize) -> (r: String)
    requires
        lo <= hi <= v@.len(),
    ensures
        r@ == v@.subrange(lo as int, hi as int),
{
    let mut out = String::new();
    let mut i: usize = lo;
    while i < hi
        invariant
            lo <= i <= hi <= v@.len(),
            out@ == v@.subrange(lo as int, i as int),
        decreases hi - i,
    {
        out.push(v[i]);
        i += 1;
        assert(v@.subrange(lo as int, i as int) =~= v@.subrange(lo as int, i - 1).push(v@[i - 1]));
    }
    out
}

/// Whether `pat` stands in `s` at position `p`.
pub fn occurs(s: &Vec<char>, pat: &Vec<char>, p: usize) -> (r: bool)
    ensures
        r == occurs_at(s@, pat@, p as int),
{
    if p > s.len() || pat.len() > s.len() - p {
        return false;
    }
    let n = s.len();
    let mut i: usize = 0;
    while i < pat.len()
        invariant
            n == s@.len(),
            p + pat@.len() <= n,
            i <= pat@.len(),
            forall|k: int| 0 <= k < i ==> s@[p + k] == #[trigger] pat@[k],
        decreases pat@.len() - i,
    {
        if s[p + i] != pat[i] {
            assert(s@.subrange(p as int, p + pat@.len())[i as int] != pat@[i as int]);
            return false;
        }
        i += 1;
    }
    assert(s@.subrange(p as int, p + pat@.len()) =~= pat@);
    true
}

/// The leftmost position of `pat` in `s`, where there is one.
pub fn find_chars(s: &Vec<char>, pat: &Vec<char>) -> (r: Option<usize>)
    ensures
        match r {
            Some(p) => find(s@, pat@) == Some(p as int) && is_first(s@, pat@, p as int),
            None => find(s@, pat@) is None && !contains(s@, pat@),
        },
{
    let mut p: usize = 0;
    while p < s.len()
        invariant
            p <= s@.len(),
            forall|q: int| q < p ==> !occurs_at(s@, pat@, q),
        decreases s@.len() - p,
    {
        if occurs(s, pat, p) {
            proof {
                lemma_find(s@, pat@);
            }
            return Some(p);
        }
        p += 1;
    }
    if occurs(s, pat, p) {
        proof {
            lemma_find(s@, pat@);
        }
        return Some(p);
    }
    assert forall|q: int| !occurs_at(s@, pat@, q) by {}
    None
}

/// Whether two texts are the same.
pub fn same_text(a: &str, b: &str) -> (r: bool)
    ensures
        r == (a@ == b@),
{
    a.to_owned() == b.to_owned()
}

/// Whether `needle` stands somewhere in `hay`.
pub fn contains_text(hay: &str, needle: &str) -> (r: bool)
    ensures
        r == contains(hay@, needle@),
{
    let h = chars_of(hay);
    let n = chars_of(needle);
    match find_chars(&h, &n) {
        Some(_) => true,
        None => false,
    }
}

/// Where the leading white space of `v` ends.
pub fn trim_start_bound(v: &Vec<char>) -> (r: usize)
    ensures
        r <= v@.len(),
        v@.skip(r as int) == trim_start(v@),
{
    let n = v.len();
    let mut lo: usize = 0;
    assert(v@.skip(0) =~= v@);
    while lo < n && v[lo].is_whitespace()
        invariant
            n == v@.len(),
            lo <= n,
            trim_start(v@.skip(lo as int)) == trim_start(v@),
        decreases n - lo,
    {
        assert(v@.skip(lo as int).drop_first() =~= v@.skip(lo + 1));
        lo += 1;
    }
    lo
}

/// The bounds of the trimmed part of `v`.
pub fn trim_bounds(v: &Vec<char>) -> (r: (usize, usize))
    ensures
        r.0 <= r.1 <= v@.len(),
        v@.subrange(r.0 as int, r.1 as int) == trim(v@),
{
    let n = v.len();
    let lo = trim_start_bound(v);
    let mut hi: usize = n;
    assert(v@.subrange(lo as int, hi as int) =~= v@.skip(lo as int));
    while lo < hi && v[hi - 1].is_whitespace()
        invariant
            n == v@.len(),
            lo <= hi <= n,
            trim_end(v@.subrange(lo as int, hi as int)) == trim_end(v@.skip(lo as int)),
        decreases hi - lo,
    {
        assert(v@.subrange(lo as int, hi as int).drop_last() =~= v@.subrange(lo as int, hi - 1));
        hi -= 1;
    }
    (lo, hi)
}

/// `s` without white space at either end.
pub fn trim_text(s: &str) -> (r: String)
    ensures
        r@ == trim(s@),
{
    let v = chars_of(s);
    let (lo, hi) = trim_bounds(&v);
    slice_text(&v, lo, hi)
}

/// Blank text is exactly what trims to nothing.
pub proof fn lemma_blank_trim(s: Seq<char>)
    ensures
        blank(s) <==> trim(s).len() == 0,
        trim_start(s).len() == 0 <==> blank(s),
    decreases s.len(),
{
    if s.len() > 0 && is_white(s[0]) {
        lemma_blank_trim(s.drop_first());
        assert forall|i: int| blank(s.drop_first()) && 0 <= i < s.len() implies is_white(
            #[trigger] s[i],
        ) by {
            if i > 0 {
                assert(s.drop_first()[i - 1] == s[i]);
            }
        }
        if blank(s) {
            assert(blank(s.drop_first()));
        }
    } else {
        lemma_trim_end_kept(s, 0);
    }
}

/// Trimming the end keeps everything up to a character that is not white space.
pub proof fn lemma_trim_end_kept(s: Seq<char>, i: int)
    ensures
        0 <= i < s.len() && !is_white(s[i]) ==> trim_end(s).len() > i,
    decreases s.len(),
{
    if 0 <= i < s.len() && !is_white(s[i]) && is_white(s.last()) {
        lemma_trim_end_kept(s.drop_last(), i);
    }
}

/// Trimming trimmed text changes nothing.
pub proof fn lemma_trim_twice(s: Seq<char>)
    ensures
        trim(trim(s)) == trim(s),
{
    let a = trim_start(s);
    lemma_trim_start_done(s);
    lemma_trim_end_done(a);
    let b = trim_end(a);
    if b.len() > 0 {
        assert(b[0] == a[0]);
    }
}

proof fn lemma_trim_start_done(s: Seq<char>)
    ensures
        trim_start(s).len() > 0 ==> !is_white(trim_start(s)[0]),
    decreases s.len(),
{
    if s.len() > 0 && is_white(s[0]) {
        lemma_trim_start_done(s.drop_first());
    }
}

proof fn lemma_trim_end_done(s: Seq<char>)
    ensures
        trim_end(s).len() <= s.len(),
        forall|i: int| 0 <= i < trim_end(s).len() ==> trim_end(s)[i] == s[i],
        trim_end(s).len() > 0 ==> !is_white(trim_end(s).last()),
        trim_end(trim_end(s)) == trim_end(s),
    decreases s.len(),
{
    if s.len() > 0 && is_white(s.last()) {
        lemma_trim_end_done(s.drop_last());
        assert forall|i: int| 0 <= i < trim_end(s).len() implies trim_end(s)[i] == s[i] by {
            assert(trim_end(s.drop_last())[i] == s.drop_last()[i]);
        }
    }
}

/// Whether `s` holds nothing but white space.
pub fn is_blank(s: &str) -> (r: bool)
    ensures
        r == blank(s@),
        r == (trim(s@).len() == 0),
{
    proof {
        lemma_blank_trim(s@);
    }
    let v = chars_of(s);
    let mut i: usize = 0;
    while i < v.len()
        invariant
            v@ == s@,
            blank(s@) <==> trim(s@).len() == 0,
            i <= v@.len(),
            forall|k: int| 0 <= k < i ==> is_white(#[trigger] v@[k]),
        decreases v@.len() - i,
    {
        if !v[i].is_whitespace() {
            return false;
        }
        i += 1;
    }
    true
}

/// Where the first line feed of `s` stands.
pub open spec fn line_feed(s: Seq<char>) -> Option<int> {
    find(s, seq!['\n'])
}

/// `s` cut at every `c`. There is always at least one piece.
pub open spec fn split_at(s: Seq<char>, c: char) -> Seq<Seq<char>>
    decreases s.len(),
{
    match find(s, seq![c]) {
        Some(i) => {
            proof {
                lemma_find(s, seq![c]);
            }
            seq![s.take(i)] + split_at(s.skip(i + 1), c)
        },
        None => seq![s],
    }
}

/// `s` cut at its line feeds.
pub open spec fn split_lines(s: Seq<char>) -> Seq<Seq<char>> {
    split_at(s, '\n')
}

/// `s` without a carriage return at its end.
pub open spec fn without_return(s: Seq<char>) -> Seq<char> {
    if ends_with_char(s, '\r') {
        s.drop_last()
    } else {
        s
    }
}

/// The lines of `s`: what stands before each line feed, less the carriage return of
/// a `\r\n`, and what stands behind the last one, if anything does.
pub open spec fn lines(s: Seq<char>) -> Seq<Seq<char>>
    decreases s.len(),
{
    match line_feed(s) {
        Some(i) => {
            proof {
                lemma_find(s, seq!['\n']);
            }
            seq![without_return(s.take(i))] + lines(s.skip(i + 1))
        },
        None => if s.len() == 0 {
            seq![]
        } else {
            seq![s]
        },
    }
}

/// What a list of strings says.
pub open spec fn views(v: Seq<String>) -> Seq<Seq<char>> {
    v.map_values(|s: String| s@)
}

/// A copy of a list of strings.
pub fn clone_list(v: &Vec<String>) -> (r: Vec<String>)
    ensures
        views(r@) == views(v@),
{
    let mut out: Vec<String> = Vec::new();
    let mut i: usize = 0;
    while i < v.len()
        invariant
            i <= v@.len(),
            views(out@) == views(v@).take(i as int),
        decreases v@.len() - i,
    {
        let ghost before = out@;
        out.push(v[i].clone());
        assert(views(out@) =~= views(before).push(v@[i as int]@));
        i += 1;
        assert(views(out@) =~= views(v@).take(i as int));
    }
    assert(views(v@).take(i as int) =~= views(v@));
    out
}

/// What an optional string says.
pub open spec fn opt_view(s: Option<String>) -> Option<Seq<char>> {
    match s {
        Some(s) => Some(s@),
        None => None,
    }
}

/// `c` stands at `p`, in the form that `find` speaks of.
proof fn lemma_occurs_char(s: Seq<char>, c: char, p: int)
    ensures
        occurs_at(s, seq![c], p) <==> 0 <= p < s.len() && s[p] == c,
{
    if 0 <= p < s.len() {
        assert(s.subrange(p, p + 1) =~= seq![s[p]]);
        if s[p] != c {
            assert(s.subrange(p, p + 1)[0] != seq![c][0]);
        }
    }
}

/// What is known of where a line feed first stands.
pub proof fn lemma_line_feed(s: Seq<char>)
    ensures
        match line_feed(s) {
            Some(i) => 0 <= i < s.len() && s[i] == '\n' && forall|k: int|
                0 <= k < i ==> #[trigger] s[k] != '\n',
            None => forall|k: int| 0 <= k < s.len() ==> #[trigger] s[k] != '\n',
        },
        forall|i: int|
            0 <= i < s.len() && s[i] == '\n' && (forall|k: int| 0 <= k < i ==> s[k] != '\n')
                ==> line_feed(s) == Some(i),
{
    let pat = seq!['\n'];
    lemma_find(s, pat);
    assert forall|p: int| occurs_at(s, pat, p) <==> 0 <= p < s.len() && s[p] == '\n' by {
        lemma_occurs_char(s, '\n', p);
    }
    if line_feed(s) is None {
        assert forall|k: int| 0 <= k < s.len() implies #[trigger] s[k] != '\n' by {
            assert(!occurs_at(s, pat, k));
        }
    } else {
        let i = line_feed(s)->0;
        assert forall|k: int| 0 <= k < i implies #[trigger] s[k] != '\n' by {
            assert(!occurs_at(s, pat, k));
        }
    }
    assert forall|i: int|
        0 <= i < s.len() && s[i] == '\n' && (forall|k: int|
            0 <= k < i ==> s[k] != '\n') implies line_feed(s) == Some(i) by {
        assert forall|q: int| q < i implies !occurs_at(s, pat, q) by {
            if 0 <= q {
                assert(s[q] != '\n');
            }
        }
        assert(occurs_at(s, pat, i));
        assert(is_first(s, pat, i));
    }
}

/// A line with a line feed behind it is one line.
pub proof fn lemma_lines_one(l: Seq<char>)
    requires
        forall|i: int| 0 <= i < l.len() ==> #[trigger] l[i] != '\n',
        !ends_with_char(l, '\r'),
    ensures
        lines(l + seq!['\n']) == seq![l],
{
    let s = l + seq!['\n'];
    let n = l.len() as int;
    lemma_line_feed(s);
    assert forall|k: int| 0 <= k < n implies s[k] != '\n' by {
        assert(l[k] != '\n');
    }
    assert(s[n] == '\n');
    assert(s.take(n) =~= l);
    let rest = s.skip(n + 1);
    assert(rest.len() == 0);
    lemma_line_feed(rest);
    assert(lines(rest) =~= seq![]);
    assert(lines(s) =~= seq![l]);
}

/// The lines of a text that ends with a line feed stay what they are when more follows.
pub proof fn lemma_lines_append(a: Seq<char>, b: Seq<char>)
    requires
        a.len() == 0 || a.last() == '\n',
    ensures
        lines(a + b) == lines(a) + lines(b),
    decreases a.len(),
{
    lemma_line_feed(a);
    lemma_line_feed(a + b);
    if a.len() == 0 {
        assert(a + b =~= b);
        assert(lines(a) + lines(b) =~= lines(b));
    } else {
        let i = line_feed(a)->0;
        assert((a + b)[i] == '\n');
        assert forall|k: int| 0 <= k < i implies (a + b)[k] != '\n' by {
            assert(a[k] != '\n');
        }
        assert((a + b).take(i) =~= a.take(i));
        assert((a + b).skip(i + 1) =~= a.skip(i + 1) + b);
        lemma_lines_append(a.skip(i + 1), b);
        assert(lines(a + b) =~= lines(a) + lines(b));
    }
}

/// The position of the first `c` in `v` from `lo` on, or the end.
fn next_char(v: &Vec<char>, c: char, lo: usize) -> (r: usize)
    requires
        lo <= v@.len(),
    ensures
        lo <= r <= v@.len(),
        r < v@.len() ==> v@[r as int] == c && find(v@.skip(lo as int), seq![c]) == Some(r - lo),
        r == v@.len() ==> find(v@.skip(lo as int), seq![c]) is None,
{
    let ghost rest = v@.skip(lo as int);
    let mut i: usize = lo;
    while i < v.len() && v[i] != c
        invariant
            lo <= i <= v@.len(),
            rest == v@.skip(lo as int),
            forall|k: int| 0 <= k < i - lo ==> #[trigger] rest[k] != c,
        decreases v@.len() - i,
    {
        i += 1;
    }
    proof {
        lemma_find(rest, seq![c]);
        assert forall|q: int| q < i - lo implies !occurs_at(rest, seq![c], q) by {
            lemma_occurs_char(rest, c, q);
        }
        if i < v@.len() {
            lemma_occurs_char(rest, c, i - lo);
            assert(is_first(rest, seq![c], i - lo));
        } else {
            assert forall|q: int| !occurs_at(rest, seq![c], q) by {
                lemma_occurs_char(rest, c, q);
            }
        }
    }
    i
}

/// `s` cut at its line feeds.
pub fn split_lines_text(s: &str) -> (r: Vec<String>)
    ensures
        views(r@) == split_lines(s@),
{
    split_at_text(s, '\n')
}

/// `s` cut at every `c`.
pub fn split_at_text(s: &str, c: char) -> (r: Vec<String>)
    ensures
        views(r@) == split_at(s@, c),
{
    let v = chars_of(s);
    let mut out: Vec<String> = Vec::new();
    let mut lo: usize = 0;
    assert(v@.skip(0) =~= v@);
    assert(views(out@) + split_at(v@, c) =~= split_at(v@, c));
    loop
        invariant_except_break
            lo <= v@.len(),
            v@ == s@,
            views(out@) + split_at(v@.skip(lo as int), c) == split_at(s@, c),
        ensures
            views(out@) == split_at(s@, c),
        decreases v@.len() - lo,
    {
        let hi = next_char(&v, c, lo);
        let ghost before = out@;
        let ghost rest = v@.skip(lo as int);
        out.push(slice_text(&v, lo, hi));
        assert(v@.subrange(lo as int, hi as int) =~= rest.take(hi - lo));
        assert(views(out@) =~= views(before).push(rest.take(hi - lo)));
        if hi == v.len() {
            assert(rest.take(hi - lo) =~= rest);
            assert(views(out@) =~= views(before) + split_at(rest, c));
            break;
        }
        assert(rest.skip(hi - lo + 1) =~= v@.skip(hi + 1));
        assert(views(before) + split_at(rest, c) =~= views(out@) + split_at(v@.skip(hi + 1), c));
        lo = hi + 1;
    }
    out
}

/// The lines of `s`.
pub fn lines_text(s: &str) -> (r: Vec<String>)
    ensures
        views(r@) == lines(s@),
{
    let v = chars_of(s);
    let mut out: Vec<String> = Vec::new();
    let mut lo: usize = 0;
    assert(v@.skip(0) =~= v@);
    assert(views(out@) + lines(v@) =~= lines(v@));
    loop
        invariant_except_break
            lo <= v@.len(),
            v@ == s@,
            views(out@) + lines(v@.skip(lo as int)) == lines(s@),
        ensures
            views(out@) == lines(s@),
        decreases v@.len() - lo,
    {
        let hi = next_char(&v, '\n', lo);
        let ghost before = out@;
        let ghost rest = v@.skip(lo as int);
        assert(v@.subrange(lo as int, hi as int) =~= rest.take(hi - lo));
        if hi == v.len() {
            if lo < hi {
                out.push(slice_text(&v, lo, hi));
                assert(rest.take(hi - lo) =~= rest);
                assert(views(out@) =~= views(before).push(rest));
            }
            assert(views(out@) =~= views(before) + lines(rest));
            break;
        }
        if lo < hi && v[hi - 1] == '\r' {
            out.push(slice_text(&v, lo, hi - 1));
            assert(v@.subrange(lo as int, hi - 1) =~= rest.take(hi - lo).drop_last());
        } else {
            out.push(slice_text(&v, lo, hi));
        }
        assert(views(out@) =~= views(before).push(without_return(rest.take(hi - lo))));
        assert(rest.skip(hi - lo + 1) =~= v@.skip(hi + 1));
        assert(views(before) + lines(rest) =~= views(out@) + lines(v@.skip(hi + 1)));
        lo = hi + 1;
    }
    out
}

/// `s` with every `pat`, taken from the left and without overlap, replaced by `by`.
pub open spec fn replaced(s: Seq<char>, pat: Seq<char>, by: Seq<char>) -> Seq<char>
    decreases s.len(),
{
    match find(s, pat) {
        Some(p) => {
            proof {
                lemma_find(s, pat);
            }
            if pat.len() == 0 {
                s
            } else {
                s.take(p) + by + replaced(s.skip(p + pat.len()), pat, by)
            }
        },
        None => s,
    }
}

/// `s` with every `pat` replaced by `by`.
pub fn replace_text(s: &str, pat: &str, by: &str) -> (r: String)
    requires
        pat@.len() > 0,
    ensures
        r@ == replaced(s@, pat@, by@),
{
    let p = chars_of(pat);
    let mut rest = chars_of(s);
    let mut out = String::new();
    assert(out@ + replaced(rest@, pat@, by@) =~= replaced(s@, pat@, by@));
    loop
        invariant_except_break
            p@ == pat@,
            p@.len() > 0,
            out@ + replaced(rest@, pat@, by@) == replaced(s@, pat@, by@),
        ensures
            out@ == replaced(s@, pat@, by@),
        decreases rest@.len(),
    {
        match find_chars(&rest, &p) {
            Some(at) => {
                let ghost before = out@;
                let ghost all = rest@;
                let head = slice_text(&rest, 0, at);
                out.append(head.as_str());
                out.append(by);
                let n = rest.len();
                assert(at + p@.len() <= n);
                rest = tail_chars(&rest, at + p.len());
                assert(all.subrange(0, at as int) =~= all.take(at as int));
                assert(before + replaced(all, pat@, by@) =~= out@ + replaced(rest@, pat@, by@));
            },
            None => {
                let n = rest.len();
                let tail = slice_text(&rest, 0, n);
                assert(rest@.subrange(0, n as int) =~= rest@);
                out.append(tail.as_str());
                break;
            },
        }
    }
    out
}

/// The characters of `v` from `at` on.
pub fn tail_chars(v: &Vec<char>, at: usize) -> (r: Vec<char>)
    requires
        at <= v@.len(),
    ensures
        r@ == v@.skip(at as int),
{
    let mut out: Vec<char> = Vec::new();
    let mut i: usize = at;
    while i < v.len()
        invariant
            at <= i <= v@.len(),
            out@ == v@.subrange(at as int, i as int),
        decreases v@.len() - i,
    {
        out.push(v[i]);
        i += 1;
        assert(v@.subrange(at as int, i as int) =~= v@.subrange(at as int, i - 1).push(v@[i - 1]));
    }
    assert(v@.subrange(at as int, i as int) =~= v@.skip(at as int));
    out
}

/// The number of bytes that `c` takes in UTF-8.
pub open spec fn width(c: char) -> nat {
    if (c as int) < 0x80 {
        1
    } else if (c as int) < 0x800 {
        2
    } else if (c as int) < 0x10000 {
        3
    } else {
        4
    }
}

/// The number of bytes that `s` takes in UTF-8.
pub open spec fn byte_len(s: Seq<char>) -> nat {
    vstd::utf8::encode_utf8(s).len()
}

/// `c` takes `width(c)` bytes.
proof fn lemma_char_len(c: char)
    ensures
        vstd::utf8::encode_scalar(c as u32).len() == width(c),
{
}

/// The bytes of a text are those of its first character and of the rest.
pub proof fn lemma_byte_len_first(s: Seq<char>)
    ensures
        s.len() == 0 ==> byte_len(s) == 0,
        s.len() > 0 ==> byte_len(s) == width(s[0]) + byte_len(s.drop_first()),
{
    if s.len() > 0 {
        lemma_char_len(s[0]);
    }
}

/// The bytes of a text are those of its two parts.
pub proof fn lemma_byte_len_split(s: Seq<char>, k: int)
    requires
        0 <= k <= s.len(),
    ensures
        byte_len(s) == byte_len(s.take(k)) + byte_len(s.skip(k)),
    decreases k,
{
    if k == 0 {
        assert(s.take(0) =~= seq![]);
        assert(s.skip(0) =~= s);
        lemma_byte_len_first(s.take(0));
    } else {
        lemma_byte_len_first(s);
        lemma_byte_len_first(s.take(k));
        lemma_byte_len_split(s.drop_first(), k - 1);
        assert(s.take(k).drop_first() =~= s.drop_first().take(k - 1));
        assert(s.skip(k) =~= s.drop_first().skip(k - 1));
    }
}

/// `k` characters of `s` take at most `cap` bytes, and no more of them do.
pub open spec fn is_longest_within(s: Seq<char>, cap: nat, k: int) -> bool {
    &&& 0 <= k <= s.len()
    &&& byte_len(s.take(k)) <= cap
    &&& k < s.len() ==> byte_len(s.take(k + 1)) > cap
}

/// The characters of `v` that fit in `cap` bytes.
pub fn fitting_chars(v: &Vec<char>, cap: usize) -> (r: usize)
    ensures
        is_longest_within(v@, cap as nat, r as int),
{
    let mut k: usize = 0;
    let mut room: usize = cap;
    assert(v@.take(0) =~= seq![]);
    while k < v.len()
        invariant
            k <= v@.len(),
            room <= cap,
            byte_len(v@.take(k as int)) == cap - room,
        decreases v@.len() - k,
    {
        let w = char_width(v[k]);
        proof {
            let upto = v@.take(k + 1);
            lemma_byte_len_split(upto, k as int);
            assert(upto.take(k as int) =~= v@.take(k as int));
            lemma_byte_len_first(upto.skip(k as int));
            lemma_byte_len_first(upto.skip(k as int).drop_first());
        }
        if w > room {
            return k;
        }
        room -= w;
        k += 1;
    }
    k
}

/// `c` as a number of bytes.
pub fn char_width(c: char) -> (r: usize)
    ensures
        r == width(c),
{
    let n = c as u32;
    if n < 0x80 {
        1
    } else if n < 0x800 {
        2
    } else if n < 0x10000 {
        3
    } else {
        4
    }
}

/// Joining: the parts with `sep` between them.
pub open spec fn join(parts: Seq<Seq<char>>, sep: Seq<char>) -> Seq<char>
    decreases parts.len(),
{
    if parts.len() == 0 {
        seq![]
    } else if parts.len() == 1 {
        parts[0]
    } else {
        join(parts.drop_last(), sep) + sep + parts.last()
    }
}

/// `a` with `b` behind it.
pub fn concat_text(a: &str, b: &str) -> (r: String)
    ensures
        r@ == a@ + b@,
{
    let mut out = a.to_owned();
    out.append(b);
    out
}

/// The parts with `sep` between them.
pub fn join_text(parts: &Vec<String>, sep: &str) -> (r: String)
    ensures
        r@ == join(views(parts@), sep@),
{
    let mut out = String::new();
    let mut i: usize = 0;
    while i < parts.len()
        invariant
            i <= parts@.len(),
            out@ == join(views(parts@).take(i as int), sep@),
        decreases parts@.len() - i,
    {
        if i > 0 {
            out.append(sep);
        }
        out.append(parts[i].as_str());
        i += 1;
        let ghost upto = views(parts@).take(i as int);
        assert(upto.drop_last() =~= views(parts@).take(i - 1));
        assert(upto.last() == parts@[i - 1]@);
        assert(out@ =~= join(upto, sep@));
    }
    assert(views(parts@).take(i as int) =~= views(parts@));
    out
}

/// `core` is `s` without the white space at its ends: `s` is `core` with nothing but white
/// space before and behind it, and `core` neither starts nor ends with any.
pub open spec fn is_core(core: Seq<char>, s: Seq<char>) -> bool {
    &&& core.len() > 0 ==> !is_white(core[0]) && !is_white(core.last())
    &&& exists|before: Seq<char>, behind: Seq<char>|
        blank(before) && blank(behind) && s == #[trigger] (before + core + behind)
}

proof fn lemma_trim_start_splits(s: Seq<char>) -> (before: Seq<char>)
    ensures
        blank(before),
        s == before + trim_start(s),
        trim_start(s).len() > 0 ==> !is_white(trim_start(s)[0]),
    decreases s.len(),
{
    if s.len() > 0 && is_white(s[0]) {
        let rest = lemma_trim_start_splits(s.drop_first());
        let before = seq![s[0]] + rest;
        assert(s =~= seq![s[0]] + s.drop_first());
        assert(seq![s[0]] + (rest + trim_start(s)) =~= before + trim_start(s));
        before
    } else {
        assert(s =~= Seq::<char>::empty() + s);
        Seq::<char>::empty()
    }
}

proof fn lemma_trim_end_splits(s: Seq<char>) -> (behind: Seq<char>)
    ensures
        blank(behind),
        s == trim_end(s) + behind,
        trim_end(s).len() > 0 ==> !is_white(trim_end(s).last()),
    decreases s.len(),
{
    if s.len() > 0 && is_white(s.last()) {
        let rest = lemma_trim_end_splits(s.drop_last());
        let behind = rest.push(s.last());
        assert(s =~= s.drop_last().push(s.last()));
        assert((trim_end(s) + rest).push(s.last()) =~= trim_end(s) + behind);
        behind
    } else {
        assert(s =~= s + Seq::<char>::empty());
        Seq::<char>::empty()
    }
}

/// Trimming takes off the white space at the ends of a text, all of it and nothing else.
pub proof fn law_trim(s: Seq<char>)
    ensures
        is_core(trim(s), s),
{
    let before = lemma_trim_start_splits(s);
    let mid = trim_start(s);
    let behind = lemma_trim_end_splits(mid);
    let core = trim(s);
    assert(s =~= before + core + behind);
    if core.len() > 0 {
        assert(mid[0] == core[0]);
    }
}

/// There is one core: what is left of a text without the white space at its ends.
pub proof fn lemma_one_core(a: Seq<char>, b: Seq<char>, s: Seq<char>)
    requires
        is_core(a, s),
        is_core(b, s),
    ensures
        a == b,
{
    let (a0, a1) = choose|before: Seq<char>, behind: Seq<char>|
        blank(before) && blank(behind) && s == #[trigger] (before + a + behind);
    let (b0, b1) = choose|before: Seq<char>, behind: Seq<char>|
        blank(before) && blank(behind) && s == #[trigger] (before + b + behind);
    lemma_core_place(a0, a, a1, s);
    lemma_core_place(b0, b, b1, s);
    let (la, lb) = (a0.len() as int, b0.len() as int);
    let (ha, hb) = (la + a.len(), lb + b.len());
    if a.len() > 0 {
        assert(!is_white(s[la]) && !is_white(s[ha - 1]));
    }
    if b.len() > 0 {
        assert(!is_white(s[lb]) && !is_white(s[hb - 1]));
    }
    if a.len() > 0 && b.len() > 0 {
        assert(la == lb && ha == hb);
        assert(a =~= s.subrange(la, ha));
        assert(b =~= s.subrange(lb, hb));
    } else {
        assert(a =~= b);
    }
}

/// Where a core stands, and that all around it is white.
proof fn lemma_core_place(before: Seq<char>, core: Seq<char>, behind: Seq<char>, s: Seq<char>)
    requires
        blank(before),
        blank(behind),
        s == before + core + behind,
    ensures
        s.len() == before.len() + core.len() + behind.len(),
        forall|i: int| 0 <= i < before.len() ==> is_white(#[trigger] s[i]),
        forall|i: int| before.len() + core.len() <= i < s.len() ==> is_white(#[trigger] s[i]),
        forall|i: int|
            before.len() <= i < before.len() + core.len() ==> #[trigger] s[i] == core[i
                - before.len()],
{
    assert forall|i: int| 0 <= i < before.len() implies is_white(#[trigger] s[i]) by {
        assert(s[i] == before[i]);
    }
    assert forall|i: int| before.len() + core.len() <= i < s.len() implies is_white(
        #[trigger] s[i],
    ) by {
        assert(s[i] == behind[i - before.len() - core.len()]);
    }
}

/// `pat` stands in `s` exactly where `s` is something, `pat`, and something.
pub proof fn lemma_contains_parts(s: Seq<char>, pat: Seq<char>)
    ensures
        contains(s, pat) <==> exists|a: Seq<char>, b: Seq<char>| s == #[trigger] (a + pat + b),
{
    if contains(s, pat) {
        let p = choose|p: int| occurs_at(s, pat, p);
        let (a, b) = (s.take(p), s.skip(p + pat.len()));
        assert(s =~= a + s.subrange(p, p + pat.len()) + b);
        assert(s == a + pat + b);
    }
    if exists|a: Seq<char>, b: Seq<char>| s == #[trigger] (a + pat + b) {
        let (a, b) = choose|a: Seq<char>, b: Seq<char>| s == #[trigger] (a + pat + b);
        let p = a.len() as int;
        assert(s.subrange(p, p + pat.len()) =~= pat);
        assert(occurs_at(s, pat, p));
    }
}

/// Every occurrence is replaced, from the left: what stands before the first one stays, and
/// what follows it is replaced in turn. Text without one stays as it is.
pub proof fn law_replaced(a: Seq<char>, pat: Seq<char>, rest: Seq<char>, by: Seq<char>)
    requires
        pat.len() > 0,
    ensures
        !contains((a + pat).drop_last(), pat) ==> replaced(a + pat + rest, pat, by) == a + by
            + replaced(rest, pat, by),
        !contains(a, pat) ==> replaced(a, pat, by) == a,
{
    let s = a + pat + rest;
    let n = a.len() as int;
    let short = (a + pat).drop_last();
    if !contains(short, pat) {
        lemma_find(s, pat);
        assert(s.subrange(n, n + pat.len()) =~= pat);
        assert forall|q: int| q < n implies !occurs_at(s, pat, q) by {
            if occurs_at(s, pat, q) {
                assert(short.subrange(q, q + pat.len()) =~= s.subrange(q, q + pat.len()));
                assert(occurs_at(short, pat, q));
            }
        }
        assert(is_first(s, pat, n));
        assert(s.take(n) =~= a);
        assert(s.skip(n + pat.len()) =~= rest);
    }
}

/// A text is cut at every `c` and nowhere else: what stands before the first one is the
/// first piece, and what follows it is cut in turn. The pieces hold no `c`.
pub proof fn law_split_at(a: Seq<char>, c: char, rest: Seq<char>)
    requires
        forall|i: int| 0 <= i < a.len() ==> #[trigger] a[i] != c,
    ensures
        split_at(a + seq![c] + rest, c) == seq![a] + split_at(rest, c),
        split_at(a, c) == seq![a],
{
    let s = a + seq![c] + rest;
    let n = a.len() as int;
    lemma_find(s, seq![c]);
    lemma_find(a, seq![c]);
    lemma_occurs_char(s, c, n);
    assert forall|q: int| q < n implies !occurs_at(s, seq![c], q) by {
        lemma_occurs_char(s, c, q);
        if 0 <= q {
            assert(s[q] == a[q]);
        }
    }
    assert(is_first(s, seq![c], n));
    assert(s.take(n) =~= a);
    assert(s.skip(n + 1) =~= rest);
    if contains(a, seq![c]) {
        let q = choose|q: int| occurs_at(a, seq![c], q);
        lemma_occurs_char(a, c, q);
    }
}

/// A text with a `c` in it is cut on both sides of it.
pub proof fn lemma_split_joined(a: Seq<char>, c: char, b: Seq<char>)
    ensures
        split_at(a + seq![c] + b, c) == split_at(a, c) + split_at(b, c),
    decreases a.len(),
{
    lemma_find(a, seq![c]);
    match find(a, seq![c]) {
        Some(i) => {
            lemma_occurs_char(a, c, i);
            let (head, rest) = (a.take(i), a.skip(i + 1));
            assert forall|k: int| 0 <= k < head.len() implies #[trigger] head[k] != c by {
                lemma_occurs_char(a, c, k);
                assert(!occurs_at(a, seq![c], k));
            }
            assert(a =~= head + seq![c] + rest);
            law_split_at(head, c, rest);
            law_split_at(head, c, rest + seq![c] + b);
            lemma_split_joined(rest, c, b);
            assert(a + seq![c] + b =~= head + seq![c] + (rest + seq![c] + b));
            assert(seq![head] + (split_at(rest, c) + split_at(b, c)) =~= split_at(a, c) + split_at(
                b,
                c,
            ));
        },
        None => {
            assert forall|k: int| 0 <= k < a.len() implies #[trigger] a[k] != c by {
                lemma_occurs_char(a, c, k);
                assert(!occurs_at(a, seq![c], k));
            }
            law_split_at(a, c, b);
        },
    }
}

/// What stands in a piece of a text stands in the text.
pub proof fn lemma_piece_within(s: Seq<char>, c: char, k: int, pat: Seq<char>)
    requires
        0 <= k < split_at(s, c).len(),
        contains(split_at(s, c)[k], pat),
    ensures
        contains(s, pat),
    decreases s.len(),
{
    lemma_find(s, seq![c]);
    if let Some(i) = find(s, seq![c]) {
        let rest = s.skip(i + 1);
        if k == 0 {
            let p = choose|p: int| occurs_at(s.take(i), pat, p);
            assert(s.subrange(p, p + pat.len()) =~= s.take(i).subrange(p, p + pat.len()));
            assert(occurs_at(s, pat, p));
        } else {
            assert(split_at(s, c)[k] == split_at(rest, c)[k - 1]);
            lemma_piece_within(rest, c, k - 1, pat);
            let p = choose|p: int| occurs_at(rest, pat, p);
            assert(s.subrange(p + i + 1, p + i + 1 + pat.len()) =~= rest.subrange(
                p,
                p + pat.len(),
            ));
            assert(occurs_at(s, pat, p + i + 1));
        }
    }
}

} // verus!
