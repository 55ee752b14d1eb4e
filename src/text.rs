//! Character-level scanning: whitespace, trimming and splitting of a line.
use vstd::prelude::*;
use vstd::string::*;

verus! {

/// The Unicode `White_Space` property, as `char::is_whitespace` uses it.
pub open spec fn is_ws(c: char) -> bool {
    let v = c as u32;
    (0x9 <= v && v <= 0xd) || v == 0x20 || v == 0x85 || v == 0xa0 || v == 0x1680 || (0x2000
        <= v && v <= 0x200a) || v == 0x2028 || v == 0x2029 || v == 0x202f || v == 0x205f || v
        == 0x3000
}

/// `s` without its leading whitespace.
pub open spec fn trim_start(s: Seq<char>) -> Seq<char>
    decreases s.len(),
{
    if s.len() > 0 && is_ws(s[0]) {
        trim_start(s.drop_first())
    } else {
        s
    }
}

/// `s` without its trailing whitespace.
pub open spec fn trim_end(s: Seq<char>) -> Seq<char>
    decreases s.len(),
{
    if s.len() > 0 && is_ws(s.last()) {
        trim_end(s.drop_last())
    } else {
        s
    }
}

/// `s` without surrounding whitespace.
pub open spec fn trim(s: Seq<char>) -> Seq<char> {
    trim_end(trim_start(s))
}

/// Number of leading characters of `s` that are not whitespace.
pub open spec fn word_len(s: Seq<char>) -> nat
    decreases s.len(),
{
    if s.len() == 0 || is_ws(s[0]) {
        0
    } else {
        1 + word_len(s.drop_first())
    }
}

/// The maximal runs of non-whitespace characters of `s`, in order.
pub open spec fn words(s: Seq<char>) -> Seq<Seq<char>>
    decreases s.len(),
    via words_decreases
{
    if s.len() == 0 {
        Seq::empty()
    } else if is_ws(s[0]) {
        words(s.drop_first())
    } else {
        seq![s.take(word_len(s) as int)] + words(s.skip(word_len(s) as int))
    }
}

#[via_fn]
proof fn words_decreases(s: Seq<char>) {
    if s.len() > 0 && !is_ws(s[0]) {
        lemma_word_len_bounds(s);
    }
}

proof fn lemma_word_len_bounds(s: Seq<char>)
    ensures
        word_len(s) <= s.len(),
        s.len() > 0 && !is_ws(s[0]) ==> word_len(s) >= 1,
    decreases s.len(),
{
    if s.len() > 0 && !is_ws(s[0]) {
        lemma_word_len_bounds(s.drop_first());
    }
}

/// The pieces of `s` between occurrences of `sep` (always at least one piece).
pub open spec fn split_on(s: Seq<char>, sep: char) -> Seq<Seq<char>>
    decreases s.len(),
{
    if s.len() == 0 {
        seq![Seq::empty()]
    } else {
        let p = split_on(s.drop_last(), sep);
        if s.last() == sep {
            p.push(Seq::empty())
        } else {
            p.update(p.len() - 1, p.last().push(s.last()))
        }
    }
}

/// Number of leading characters of `s` that differ from `c`.
pub open spec fn prefix_len(s: Seq<char>, c: char) -> nat
    decreases s.len(),
{
    if s.len() == 0 || s[0] == c {
        0
    } else {
        1 + prefix_len(s.drop_first(), c)
    }
}

pub open spec fn is_digit(c: char) -> bool {
    0x30 <= (c as u32) && (c as u32) <= 0x39
}

/// The number that a run of decimal digits writes.
pub open spec fn digits_value(d: Seq<char>) -> int
    decreases d.len(),
{
    if d.len() == 0 {
        0
    } else {
        digits_value(d.drop_last()) * 10 + ((d.last() as u32) - 0x30)
    }
}

pub exec fn is_whitespace(c: char) -> (r: bool)
    ensures
        r == is_ws(c),
{
    let v = c as u32;
    (0x9 <= v && v <= 0xd) || v == 0x20 || v == 0x85 || v == 0xa0 || v == 0x1680 || (0x2000 <= v
        && v <= 0x200a) || v == 0x2028 || v == 0x2029 || v == 0x202f || v == 0x205f || v == 0x3000
}

/// The characters of `s`, one per element.
pub fn chars_of(s: &str) -> (r: Vec<char>)
    ensures
        r@ == s@,
{
    let n = s.unicode_len();
    let mut r: Vec<char> = Vec::new();
    let mut i: usize = 0;
    while i < n
        invariant
            n == s@.len(),
            i <= n,
            r@ == s@.take(i as int),
        decreases n - i,
    {
        r.push(s.get_char(i));
        i = i + 1;
        assert(r@ =~= s@.take(i as int));
    }
    assert(r@ =~= s@);
    r
}

/// The bounds of what remains of `chars` once surrounding whitespace is removed.
pub fn trim_bounds(chars: &Vec<char>) -> (r: (usize, usize))
    ensures
        r.0 <= r.1 <= chars@.len(),
        chars@.subrange(r.0 as int, r.1 as int) == trim(chars@),
{
    let n = chars.len();
    let mut i: usize = 0;
    assert(chars@.subrange(0, n as int) =~= chars@);
    while i < n && is_whitespace(chars[i])
        invariant
            n == chars@.len(),
            i <= n,
            trim_start(chars@) == trim_start(chars@.subrange(i as int, n as int)),
        decreases n - i,
    {
        assert(chars@.subrange(i as int, n as int).drop_first() =~= chars@.subrange(
            i + 1,
            n as int,
        ));
        i = i + 1;
    }
    assert(trim_start(chars@) == chars@.subrange(i as int, n as int));
    let mut j: usize = n;
    while j > i && is_whitespace(chars[j - 1])
        invariant
            n == chars@.len(),
            i <= j <= n,
            trim(chars@) == trim_end(chars@.subrange(i as int, j as int)),
        decreases j,
    {
        assert(chars@.subrange(i as int, j as int).drop_last() =~= chars@.subrange(
            i as int,
            j - 1,
        ));
        j = j - 1;
    }
    (i, j)
}

proof fn lemma_word_len_exact(t: Seq<char>, k: int)
    requires
        0 <= k <= t.len(),
        forall|i: int| 0 <= i < k ==> !is_ws(#[trigger] t[i]),
        k == t.len() || is_ws(t[k]),
    ensures
        word_len(t) == k,
    decreases k,
{
    if k > 0 {
        lemma_word_len_exact(t.drop_first(), k - 1);
    }
}

/// Whitespace at `p` is skipped by `words`.
proof fn lemma_words_skip_ws(s: Seq<char>, p: int)
    requires
        0 <= p < s.len(),
        is_ws(s[p]),
    ensures
        words(s.skip(p)) == words(s.skip(p + 1)),
{
    assert(s.skip(p).drop_first() =~= s.skip(p + 1));
}

/// A maximal run of non-whitespace characters from `p` to `e` is the first word of `s.skip(p)`.
proof fn lemma_words_run(s: Seq<char>, p: int, e: int)
    requires
        0 <= p < e <= s.len(),
        forall|i: int| p <= i < e ==> !is_ws(#[trigger] s[i]),
        e == s.len() || is_ws(s[e]),
    ensures
        words(s.skip(p)) == seq![s.subrange(p, e)] + words(s.skip(e)),
{
    let t = s.skip(p);
    assert forall|i: int| 0 <= i < e - p implies !is_ws(#[trigger] t[i]) by {
        assert(t[i] == s[p + i]);
    }
    lemma_word_len_exact(t, e - p);
    assert(t.take(e - p) =~= s.subrange(p, e));
    assert(t.skip(e - p) =~= s.skip(e));
}

/// The bounds of the first word of `chars[from..]`; an empty range at the end when there is none.
pub fn next_word(chars: &Vec<char>, from: usize) -> (r: (usize, usize))
    requires
        from <= chars@.len(),
    ensures
        from <= r.0 <= r.1 <= chars@.len(),
        r.0 == r.1 ==> r.1 == chars@.len() && words(chars@.skip(from as int)) == Seq::<
            Seq<char>,
        >::empty(),
        r.0 < r.1 ==> words(chars@.skip(from as int)) == seq![
            chars@.subrange(r.0 as int, r.1 as int),
        ] + words(chars@.skip(r.1 as int)),
{
    let n = chars.len();
    let mut a: usize = from;
    while a < n && is_whitespace(chars[a])
        invariant
            n == chars@.len(),
            from <= a <= n,
            words(chars@.skip(from as int)) == words(chars@.skip(a as int)),
        decreases n - a,
    {
        proof {
            lemma_words_skip_ws(chars@, a as int);
        }
        a = a + 1;
    }
    let mut b: usize = a;
    while b < n && !is_whitespace(chars[b])
        invariant
            n == chars@.len(),
            a <= b <= n,
            forall|i: int| a <= i < b ==> !is_ws(#[trigger] chars@[i]),
        decreases n - b,
    {
        b = b + 1;
    }
    proof {
        if a == b {
            assert(chars@.skip(a as int) =~= Seq::<char>::empty());
        } else {
            lemma_words_run(chars@, a as int, b as int);
        }
    }
    (a, b)
}

pub(crate) proof fn lemma_split_on_len(s: Seq<char>, sep: char)
    ensures
        split_on(s, sep).len() >= 1,
        s.len() > 0 ==> split_on(s, sep).len() >= split_on(s.drop_last(), sep).len(),
    decreases s.len(),
{
    if s.len() > 0 {
        lemma_split_on_len(s.drop_last(), sep);
    }
}

/// The pieces that end before position `i` are the first pieces of the whole split.
pub(crate) proof fn lemma_split_on_prefix(s: Seq<char>, sep: char, i: int)
    requires
        0 <= i <= s.len(),
    ensures
        split_on(s.take(i), sep).len() <= split_on(s, sep).len(),
        split_on(s.take(i), sep).drop_last() == split_on(s, sep).take(
            split_on(s.take(i), sep).len() - 1,
        ),
    decreases s.len(),
{
    lemma_split_on_len(s.take(i), sep);
    lemma_split_on_len(s, sep);
    if i == s.len() {
        assert(s.take(i) =~= s);
        assert(split_on(s, sep).drop_last() =~= split_on(s, sep).take(split_on(s, sep).len() - 1));
    } else {
        let q = s.drop_last();
        assert(s.take(i) =~= q.take(i));
        lemma_split_on_prefix(q, sep, i);
        lemma_split_on_len(q, sep);
        let pre = split_on(s.take(i), sep);
        let p = split_on(q, sep);
        let whole = split_on(s, sep);
        assert(pre.len() - 1 < p.len());
        assert(whole.take(pre.len() - 1) =~= p.take(pre.len() - 1));
    }
}

/// One more character: either it ends the last piece, or it extends it.
pub(crate) proof fn lemma_split_on_step(s: Seq<char>, sep: char, i: int)
    requires
        0 <= i < s.len(),
    ensures
        s[i] == sep ==> split_on(s.take(i + 1), sep) == split_on(s.take(i), sep).push(
            Seq::empty(),
        ),
        s[i] != sep ==> split_on(s.take(i + 1), sep).drop_last() == split_on(
            s.take(i),
            sep,
        ).drop_last(),
        s[i] != sep ==> split_on(s.take(i + 1), sep).last() == split_on(s.take(i), sep).last().push(
            s[i],
        ),
{
    assert(s.take(i + 1).drop_last() =~= s.take(i));
    lemma_split_on_len(s.take(i), sep);
    let p = split_on(s.take(i), sep);
    if s[i] != sep {
        assert(p.update(p.len() - 1, p.last().push(s[i])).drop_last() =~= p.drop_last());
    }
}

} // verus!
