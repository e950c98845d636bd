//! Characters, whitespace-separated fields and their text layout.

use vstd::prelude::*;

verus! {

/// The characters that separate fields.
pub open spec fn is_ws(c: char) -> bool {
    c == ' ' || c == '\t' || c == '\r' || c == '\n' || c == '\x0C'
}

fn is_ws_exec(c: char) -> (r: bool)
    ensures
        r == is_ws(c),
{
    c == ' ' || c == '\t' || c == '\r' || c == '\n' || c == '\x0C'
}

/// No separator anywhere in `s`.
pub open spec fn no_ws(s: Seq<char>) -> bool {
    forall|i: int| 0 <= i < s.len() ==> !is_ws(#[trigger] s[i])
}

/// Length of the longest prefix of `s` without a separator.
pub open spec fn word_len(s: Seq<char>) -> nat
    decreases s.len(),
{
    if s.len() == 0 || is_ws(s[0]) {
        0
    } else {
        1 + word_len(s.drop_first())
    }
}

/// The fields of `s`: its maximal runs of non-separator characters, in order.
pub open spec fn tokens(s: Seq<char>) -> Seq<Seq<char>>
    decreases s.len() via tokens_decreases
{
    if s.len() == 0 {
        seq![]
    } else if is_ws(s[0]) {
        tokens(s.drop_first())
    } else {
        let n = word_len(s);
        seq![s.take(n as int)] + tokens(s.skip(n as int))
    }
}

#[via_fn]
proof fn tokens_decreases(s: Seq<char>) {
    lemma_word_len(s);
}

pub proof fn lemma_word_len(s: Seq<char>)
    ensures
        word_len(s) <= s.len(),
        s.len() > 0 && !is_ws(s[0]) ==> word_len(s) >= 1,
        no_ws(s.take(word_len(s) as int)),
        word_len(s) < s.len() ==> is_ws(s[word_len(s) as int]),
    decreases s.len(),
{
    if s.len() > 0 && !is_ws(s[0]) {
        lemma_word_len(s.drop_first());
        assert forall|i: int| 0 <= i < word_len(s) implies !is_ws(#[trigger] s.take(word_len(s) as int)[i]) by {
            if i > 0 {
                assert(s.take(word_len(s) as int)[i] == s.drop_first().take(word_len(s.drop_first()) as int)[i - 1]);
            }
        }
    }
}

pub proof fn lemma_word_len_exact(s: Seq<char>, n: nat)
    requires
        n <= s.len(),
        no_ws(s.take(n as int)),
        n == s.len() || is_ws(s[n as int]),
    ensures
        word_len(s) == n,
    decreases n,
{
    if n > 0 {
        assert(!is_ws(s.take(n as int)[0]));
        assert(s.drop_first().take(n - 1) =~= s.take(n as int).drop_first());
        lemma_word_len_exact(s.drop_first(), (n - 1) as nat);
    }
}

/// Every field is non-empty and holds no separator.
pub proof fn lemma_tokens_nonempty(s: Seq<char>, m: int)
    requires
        0 <= m < tokens(s).len(),
    ensures
        tokens(s)[m].len() > 0,
        no_ws(tokens(s)[m]),
    decreases s.len(),
{
    if is_ws(s[0]) {
        lemma_tokens_nonempty(s.drop_first(), m);
    } else {
        lemma_word_len(s);
        let n = word_len(s);
        if m > 0 {
            lemma_tokens_nonempty(s.skip(n as int), m - 1);
        }
    }
}

/// A field followed by a separator (or by nothing) is split off whole.
pub proof fn lemma_tokens_word(t: Seq<char>, rest: Seq<char>)
    requires
        t.len() > 0,
        no_ws(t),
        rest.len() == 0 || is_ws(rest[0]),
    ensures
        tokens(t + rest) == seq![t] + tokens(rest),
{
    let s = t + rest;
    assert(s.take(t.len() as int) =~= t);
    lemma_word_len_exact(s, t.len());
    assert(s.skip(t.len() as int) =~= rest);
}

/// Leading separators do not change the fields.
pub proof fn lemma_tokens_gap(w: Seq<char>, rest: Seq<char>)
    requires
        forall|i: int| 0 <= i < w.len() ==> is_ws(#[trigger] w[i]),
    ensures
        tokens(w + rest) == tokens(rest),
    decreases w.len(),
{
    if w.len() > 0 {
        assert((w + rest).drop_first() =~= w.drop_first() + rest);
        lemma_tokens_gap(w.drop_first(), rest);
    } else {
        assert(w + rest =~= rest);
    }
}

/// The texts of the spans `[a, b)` of `chars`.
pub open spec fn span_texts(chars: Seq<char>, spans: Seq<(usize, usize)>) -> Seq<Seq<char>> {
    spans.map_values(|p: (usize, usize)| chars.subrange(p.0 as int, p.1 as int))
}

/// The spans `[a, b)` of `chars` that are the fields of `chars[start..end]`.
pub(crate) fn token_spans(chars: &Vec<char>, start: usize, end: usize) -> (r: Vec<(usize, usize)>)
    requires
        start <= end <= chars.len(),
    ensures
        span_texts(chars@, r@) == tokens(chars@.subrange(start as int, end as int)),
        r.len() == tokens(chars@.subrange(start as int, end as int)).len(),
        forall|k: int|
            0 <= k < r.len() ==> {
                &&& start <= (#[trigger] r[k]).0 < r[k].1 <= end
                &&& chars@.subrange(r[k].0 as int, r[k].1 as int) == tokens(
                    chars@.subrange(start as int, end as int),
                )[k]
            },
{
    let ghost whole = tokens(chars@.subrange(start as int, end as int));
    let mut r: Vec<(usize, usize)> = Vec::new();
    let mut i: usize = start;
    while i < end
        invariant
            start <= i <= end <= chars.len(),
            whole == tokens(chars@.subrange(start as int, end as int)),
            whole =~= r@.map_values(|p: (usize, usize)| chars@.subrange(p.0 as int, p.1 as int))
                + tokens(chars@.subrange(i as int, end as int)),
            forall|k: int| 0 <= k < r.len() ==> start <= (#[trigger] r[k]).0 < r[k].1 <= i,
        decreases end - i,
    {
        let ghost before = r@.map_values(|p: (usize, usize)| chars@.subrange(p.0 as int, p.1 as int));
        if is_ws_exec(chars[i]) {
            assert(chars@.subrange(i as int, end as int).drop_first() =~= chars@.subrange(
                i + 1,
                end as int,
            ));
            i = i + 1;
        } else {
            let mut j: usize = i + 1;
            while j < end && !is_ws_exec(chars[j])
                invariant
                    i < j <= end <= chars.len(),
                    forall|m: int| i <= m < j ==> !is_ws(#[trigger] chars@[m]),
                decreases end - j,
            {
                j = j + 1;
            }
            let ghost s = chars@.subrange(i as int, end as int);
            proof {
                assert(s.take(j - i) =~= chars@.subrange(i as int, j as int));
                lemma_word_len_exact(s, (j - i) as nat);
                assert(s.skip(j - i) =~= chars@.subrange(j as int, end as int));
            }
            r.push((i, j));
            assert(r@.map_values(|p: (usize, usize)| chars@.subrange(p.0 as int, p.1 as int))
                =~= before.push(chars@.subrange(i as int, j as int)));
            i = j;
        }
    }
    assert(tokens(chars@.subrange(i as int, end as int)) =~= seq![]);
    assert(span_texts(chars@, r@) =~= whole);
    r
}

/// The characters of `s`, one by one.
pub(crate) fn to_chars(s: &str) -> (r: Vec<char>)
    ensures
        r@ == s@,
{
    let mut r: Vec<char> = Vec::new();
    for c in it: s.chars()
        invariant
            r@ == it.seq().take(it.index() as int),
    {
        r.push(c);
    }
    r
}

/// Whether two texts hold the same characters.
pub(crate) fn same_text(a: &str, b: &str) -> (r: bool)
    ensures
        r == (a@ == b@),
{
    let x = to_chars(a);
    let y = to_chars(b);
    if x.len() != y.len() {
        return false;
    }
    let mut i: usize = 0;
    while i < x.len()
        invariant
            x@ == a@,
            y@ == b@,
            x.len() == y.len(),
            i <= x.len(),
            forall|k: int| 0 <= k < i ==> x@[k] == y@[k],
        decreases x.len() - i,
    {
        if x[i] != y[i] {
            return false;
        }
        i = i + 1;
    }
    assert(a@ =~= b@);
    true
}

} // verus!
