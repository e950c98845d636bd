//! Decoding a line into a [`Conf`], field by field, proved against the grammar.

use crate::grammar::{
    clause_at, decimal_value, decode_command, decode_filter, decode_head, decode_line,
    decode_majmin, decode_mode, decode_on_creation, decode_tail, decode_u32, decode_user_group,
    digit_class, digit_len, filter_shape, is_digit, is_name_char, name_class, name_len, other_than,
    patterns_compile, scan_clauses, span_len, when_of, LineOutcome,
};
use crate::model::{
    Command, CommandView, Conf, ConfError, DeviceRegex, EnvMatch, ErrorKind, Filter, FilterView,
    MajMin, OnCreation, OnCreationView, WhenToRun,
};
use crate::pattern::{compile, regex_compiles};
use crate::text::{lemma_tokens_nonempty, span_texts, token_spans, tokens};
use vstd::prelude::*;

verus! {

pub proof fn lemma_span_len(s: Seq<char>, p: spec_fn(char) -> bool)
    ensures
        span_len(s, p) <= s.len(),
        forall|i: int| 0 <= i < span_len(s, p) ==> p(#[trigger] s[i]),
        span_len(s, p) < s.len() ==> !p(s[span_len(s, p) as int]),
    decreases s.len(),
{
    if s.len() > 0 && p(s[0]) {
        lemma_span_len(s.drop_first(), p);
        assert forall|i: int| 0 <= i < span_len(s, p) implies p(#[trigger] s[i]) by {
            if i > 0 {
                assert(s[i] == s.drop_first()[i - 1]);
            }
        }
    }
}

pub proof fn lemma_span_len_exact(s: Seq<char>, p: spec_fn(char) -> bool, n: nat)
    requires
        n <= s.len(),
        forall|i: int| 0 <= i < n ==> p(#[trigger] s[i]),
        n == s.len() || !p(s[n as int]),
    ensures
        span_len(s, p) == n,
    decreases n,
{
    if n > 0 {
        assert(p(s[0]));
        assert forall|i: int| 0 <= i < n - 1 implies p(#[trigger] s.drop_first()[i]) by {
            assert(s.drop_first()[i] == s[i + 1]);
        }
        lemma_span_len_exact(s.drop_first(), p, (n - 1) as nat);
    }
}

fn is_name_char_exec(c: char) -> (r: bool)
    ensures
        r == is_name_char(c),
{
    ('a' <= c && c <= 'z') || ('A' <= c && c <= 'Z') || ('0' <= c && c <= '9') || c == '_'
}

fn is_digit_exec(c: char) -> (r: bool)
    ensures
        r == is_digit(c),
{
    '0' <= c && c <= '9'
}

/// End of the run of name characters that starts at `i`.
fn scan_name(chars: &Vec<char>, i: usize, end: usize) -> (j: usize)
    requires
        i <= end <= chars.len(),
    ensures
        i <= j <= end,
        j - i == name_len(chars@.subrange(i as int, end as int)),
{
    let mut j: usize = i;
    while j < end && is_name_char_exec(chars[j])
        invariant
            i <= j <= end <= chars.len(),
            forall|k: int| i <= k < j ==> is_name_char(#[trigger] chars@[k]),
        decreases end - j,
    {
        j = j + 1;
    }
    let ghost s = chars@.subrange(i as int, end as int);
    proof {
        assert forall|k: int| 0 <= k < j - i implies name_class()(#[trigger] s[k]) by {
            assert(s[k] == chars@[i + k]);
        }
        lemma_span_len_exact(s, name_class(), (j - i) as nat);
    }
    j
}

/// End of the run of decimal digits that starts at `i`.
fn scan_digits(chars: &Vec<char>, i: usize, end: usize) -> (j: usize)
    requires
        i <= end <= chars.len(),
    ensures
        i <= j <= end,
        j - i == digit_len(chars@.subrange(i as int, end as int)),
{
    let mut j: usize = i;
    while j < end && is_digit_exec(chars[j])
        invariant
            i <= j <= end <= chars.len(),
            forall|k: int| i <= k < j ==> is_digit(#[trigger] chars@[k]),
        decreases end - j,
    {
        j = j + 1;
    }
    let ghost s = chars@.subrange(i as int, end as int);
    proof {
        assert forall|k: int| 0 <= k < j - i implies digit_class()(#[trigger] s[k]) by {
            assert(s[k] == chars@[i + k]);
        }
        lemma_span_len_exact(s, digit_class(), (j - i) as nat);
    }
    j
}

/// Position of the first `x` at or after `i`, or `end`.
pub(crate) fn scan_until(chars: &Vec<char>, i: usize, end: usize, x: char) -> (j: usize)
    requires
        i <= end <= chars.len(),
    ensures
        i <= j <= end,
        j - i == span_len(chars@.subrange(i as int, end as int), other_than(x)),
{
    let mut j: usize = i;
    while j < end && chars[j] != x
        invariant
            i <= j <= end <= chars.len(),
            forall|k: int| i <= k < j ==> #[trigger] chars@[k] != x,
        decreases end - j,
    {
        j = j + 1;
    }
    let ghost s = chars@.subrange(i as int, end as int);
    proof {
        assert forall|k: int| 0 <= k < j - i implies other_than(x)(#[trigger] s[k]) by {
            assert(s[k] == chars@[i + k]);
        }
        lemma_span_len_exact(s, other_than(x), (j - i) as nat);
    }
    j
}

/// The characters `chars[a..b]` of `src`, as an owned string.
fn text_of(src: &str, chars: &Vec<char>, a: usize, b: usize) -> (r: String)
    requires
        chars@ == src@,
        a <= b <= chars.len(),
    ensures
        r@ == chars@.subrange(a as int, b as int),
{
    src.substring_char(a, b).to_owned()
}

pub proof fn lemma_decimal_value_prefix(s: Seq<char>, k: int)
    requires
        0 <= k <= s.len(),
    ensures
        decimal_value(s.take(k)) <= decimal_value(s),
    decreases s.len(),
{
    if k < s.len() {
        assert(s.drop_last().take(k) =~= s.take(k));
        lemma_decimal_value_prefix(s.drop_last(), k);
    } else {
        assert(s.take(k) =~= s);
    }
}

/// The number field `chars[a..b]`.
fn parse_u32(chars: &Vec<char>, a: usize, b: usize) -> (r: Option<u32>)
    requires
        a <= b <= chars.len(),
    ensures
        r == decode_u32(chars@.subrange(a as int, b as int)),
{
    let ghost s = chars@.subrange(a as int, b as int);
    if a == b || scan_digits(chars, a, b) != b {
        return None;
    }
    proof {
        lemma_span_len(s, digit_class());
        assert forall|m: int| a <= m < b implies is_digit(#[trigger] chars@[m]) by {
            assert(chars@[m] == s[m - a]);
        }
    }
    let mut v: u64 = 0;
    let mut k: usize = a;
    while k < b
        invariant
            a <= k <= b <= chars.len(),
            forall|m: int| a <= m < b ==> is_digit(#[trigger] chars@[m]),
            s == chars@.subrange(a as int, b as int),
            v == decimal_value(s.take(k - a)),
            v <= u32::MAX,
        decreases b - k,
    {
        let d = (chars[k] as u32) - ('0' as u32);
        proof {
            assert(s.take(k + 1 - a).drop_last() =~= s.take(k - a));
            assert(s.take(k + 1 - a).last() == chars@[k as int]);
        }
        v = v * 10 + d as u64;
        if v > u32::MAX as u64 {
            proof {
                lemma_decimal_value_prefix(s, k + 1 - a);
            }
            return None;
        }
        k = k + 1;
    }
    assert(s.take(b - a) =~= s);
    Some(v as u32)
}

/// The mode field `chars[a..b]`.
fn parse_mode(chars: &Vec<char>, a: usize, b: usize) -> (r: Option<u32>)
    requires
        a <= b <= chars.len(),
    ensures
        r == decode_mode(chars@.subrange(a as int, b as int)),
{
    if b - a != 3 {
        return None;
    }
    let c0 = chars[a];
    let c1 = chars[a + 1];
    let c2 = chars[a + 2];
    if !('0' <= c0 && c0 <= '7' && '0' <= c1 && c1 <= '7' && '0' <= c2 && c2 <= '7') {
        return None;
    }
    let d0 = (c0 as u32) - ('0' as u32);
    let d1 = (c1 as u32) - ('0' as u32);
    let d2 = (c2 as u32) - ('0' as u32);
    Some(64 * d0 + 8 * d1 + d2)
}

/// The `user:group` field `chars[a..b]`.
fn parse_user_group(src: &str, chars: &Vec<char>, a: usize, b: usize) -> (r: Option<
    (String, String),
>)
    requires
        chars@ == src@,
        a <= b <= chars.len(),
    ensures
        decode_user_group(chars@.subrange(a as int, b as int)) == match r {
            Some(p) => Some((p.0@, p.1@)),
            None => None,
        },
{
    let k = scan_until(chars, a, b, ':');
    if k == b {
        return None;
    }
    let ghost s = chars@.subrange(a as int, b as int);
    assert(s.take(k - a) =~= chars@.subrange(a as int, k as int));
    assert(s.skip(k + 1 - a) =~= chars@.subrange(k + 1, b as int));
    Some((text_of(src, chars, a, k), text_of(src, chars, k + 1, b)))
}

/// The major/minor filter text `chars[a..b]` (after the `@`).
fn parse_majmin(chars: &Vec<char>, a: usize, b: usize) -> (r: Option<MajMin>)
    requires
        a <= b <= chars.len(),
    ensures
        r == decode_majmin(chars@.subrange(a as int, b as int)),
{
    let ghost s = chars@.subrange(a as int, b as int);
    let comma = scan_digits(chars, a, b);
    if !(a < comma && comma < b && chars[comma] == ',') {
        return None;
    }
    let dash = scan_digits(chars, comma + 1, b);
    let ghost t = s.skip(comma + 1 - a);
    assert(t =~= chars@.subrange(comma + 1, b as int));
    if dash < b && chars[dash] != '-' {
        return None;
    }
    assert(s.take(comma - a) =~= chars@.subrange(a as int, comma as int));
    assert(t.take(dash - comma - 1) =~= chars@.subrange(comma + 1, dash as int));
    let maj = parse_u32(chars, a, comma);
    let min = parse_u32(chars, comma + 1, dash);
    match (maj, min) {
        (Some(maj), Some(min)) => {
            if dash == b {
                Some(MajMin { maj, min, min2: None })
            } else {
                assert(t.skip(dash - comma) =~= chars@.subrange(dash + 1, b as int));
                match parse_u32(chars, dash + 1, b) {
                    Some(min2) => Some(MajMin { maj, min, min2: Some(min2) }),
                    None => None,
                }
            }
        },
        _ => None,
    }
}

/// The (name, pattern) texts of clause spans.
pub open spec fn clause_texts(chars: Seq<char>, spans: Seq<(usize, usize, usize, usize)>) -> Seq<
    (Seq<char>, Seq<char>),
> {
    spans.map_values(
        |q: (usize, usize, usize, usize)|
            (chars.subrange(q.0 as int, q.1 as int), chars.subrange(q.2 as int, q.3 as int)),
    )
}

/// The environment-match clauses at the start of `chars[i..end]`: the spans of
/// their names and patterns, and where the text after them starts.
fn scan_clause_spans(chars: &Vec<char>, i: usize, end: usize) -> (r: (
    Vec<(usize, usize, usize, usize)>,
    usize,
))
    requires
        i <= end <= chars.len(),
    ensures
        i <= r.1 <= end,
        scan_clauses(chars@.subrange(i as int, end as int)) == (
            clause_texts(chars@, r.0@),
            chars@.subrange(r.1 as int, end as int),
        ),
        forall|k: int|
            0 <= k < r.0.len() ==> {
                &&& i <= (#[trigger] r.0[k]).0 <= r.0[k].1 <= r.0[k].2 <= r.0[k].3 <= end
            },
{
    let ghost whole = scan_clauses(chars@.subrange(i as int, end as int));
    let mut spans: Vec<(usize, usize, usize, usize)> = Vec::new();
    let mut j: usize = i;
    loop
        invariant
            i <= j <= end <= chars.len(),
            whole == scan_clauses(chars@.subrange(i as int, end as int)),
            whole == (
                clause_texts(chars@, spans@) + scan_clauses(chars@.subrange(j as int, end as int)).0,
                scan_clauses(chars@.subrange(j as int, end as int)).1,
            ),
            forall|k: int|
                0 <= k < spans.len() ==> {
                    &&& i <= (#[trigger] spans[k]).0 <= spans[k].1 <= spans[k].2 <= spans[k].3
                        <= end
                },
        decreases end - j,
    {
        let ghost s = chars@.subrange(j as int, end as int);
        let name_end = scan_name(chars, j, end);
        let mut found = false;
        let mut pat_end: usize = name_end;
        if j < name_end && name_end < end && chars[name_end] == '=' {
            pat_end = scan_until(chars, name_end + 1, end, ';');
            proof {
                let u = chars@.subrange(name_end + 1, end as int);
                assert(s.skip(name_end + 1 - j) =~= u);
                lemma_span_len(u, other_than(';'));
                if pat_end < end {
                    assert(u[pat_end - name_end - 1] == chars@[pat_end as int]);
                }
            }
            found = name_end + 1 < pat_end && pat_end < end;
        }
        if !found {
            assert(clause_at(s) is None);
            assert(clause_texts(chars@, spans@) + seq![] =~= clause_texts(chars@, spans@));
            return (spans, j);
        }
        proof {
            assert(clause_at(s) == Some(((name_end - j) as nat, (pat_end - name_end - 1) as nat)));
            assert(s.take(name_end - j) =~= chars@.subrange(j as int, name_end as int));
            assert(s.subrange(name_end - j + 1, pat_end - j) =~= chars@.subrange(
                name_end + 1,
                pat_end as int,
            ));
            assert(s.skip(pat_end + 1 - j) =~= chars@.subrange(pat_end + 1, end as int));
        }
        let ghost before = clause_texts(chars@, spans@);
        spans.push((j, name_end, name_end + 1, pat_end));
        assert(clause_texts(chars@, spans@) =~= before.push(
            (
                chars@.subrange(j as int, name_end as int),
                chars@.subrange(name_end + 1, pat_end as int),
            ),
        ));
        j = pat_end + 1;
        assert(clause_texts(chars@, spans@) + scan_clauses(
            chars@.subrange(j as int, end as int),
        ).0 =~= before + scan_clauses(s).0);
    }
}

/// The abstract value of a decoded first field.
pub open spec fn head_view(r: Result<(bool, Vec<EnvMatch>, Filter), ConfError>) -> Result<
    (bool, Seq<(Seq<char>, Seq<char>)>, FilterView),
    ErrorKind,
> {
    match r {
        Ok(h) => Ok((h.0, h.1@.map_values(|e: EnvMatch| e@), h.2@)),
        Err(e) => Err(e.kind()),
    }
}

/// Whether `chars[f..b]` has one of the three filter shapes.
fn has_filter_shape(chars: &Vec<char>, f: usize, b: usize) -> (r: bool)
    requires
        f <= b <= chars.len(),
    ensures
        r == filter_shape(chars@.subrange(f as int, b as int)) is Some,
{
    let ghost ft = chars@.subrange(f as int, b as int);
    if f == b {
        return false;
    }
    if chars[f] == '$' {
        let var_end = scan_name(chars, f + 1, b);
        assert(ft.drop_first() =~= chars@.subrange(f + 1, b as int));
        if !(f + 1 < var_end && b - var_end > 1 && chars[var_end] == '=') {
            return false;
        }
        assert(ft.drop_first()[var_end - f - 1] == chars@[var_end as int]);
    }
    true
}

/// Compiles the patterns of the clauses at `spans`, in order, up to the first
/// that does not compile.
fn compile_env_matches(src: &str, chars: &Vec<char>, spans: &Vec<(usize, usize, usize, usize)>) -> (r:
    Result<Vec<EnvMatch>, regex::Error>)
    requires
        chars@ == src@,
        forall|m: int|
            0 <= m < spans.len() ==> {
                &&& (#[trigger] spans[m]).0 <= spans[m].1 <= spans[m].2 <= spans[m].3
                    <= chars.len()
            },
    ensures
        match r {
            Ok(envs) => {
                &&& envs@.map_values(|e: EnvMatch| e@) == clause_texts(chars@, spans@)
                &&& patterns_compile(clause_texts(chars@, spans@))
            },
            Err(_) => !patterns_compile(clause_texts(chars@, spans@)),
        },
{
    let ghost texts = clause_texts(chars@, spans@);
    let mut envs: Vec<EnvMatch> = Vec::new();
    let mut k: usize = 0;
    while k < spans.len()
        invariant
            chars@ == src@,
            texts == clause_texts(chars@, spans@),
            k <= spans.len(),
            envs@.map_values(|e: EnvMatch| e@) =~= texts.take(k as int),
            forall|m: int| 0 <= m < k ==> regex_compiles(#[trigger] texts[m].1),
            forall|m: int|
                0 <= m < spans.len() ==> {
                    &&& (#[trigger] spans[m]).0 <= spans[m].1 <= spans[m].2 <= spans[m].3
                        <= chars.len()
                },
        decreases spans.len() - k,
    {
        let q = spans[k];
        let ghost before = envs@.map_values(|e: EnvMatch| e@);
        match compile(src.substring_char(q.2, q.3)) {
            Ok(re) => {
                envs.push(EnvMatch { envvar: text_of(src, chars, q.0, q.1), regex: re });
                assert(envs@.map_values(|e: EnvMatch| e@) =~= before.push(texts[k as int]));
                assert(texts.take(k + 1) =~= texts.take(k as int).push(texts[k as int]));
            },
            Err(e) => {
                assert(!regex_compiles(texts[k as int].1));
                return Err(e);
            },
        }
        k = k + 1;
    }
    assert(texts.take(k as int) =~= texts);
    Ok(envs)
}

/// The abstract value of a decoded filter.
pub open spec fn filter_result_view(r: Result<Filter, ConfError>) -> Result<FilterView, ErrorKind> {
    match r {
        Ok(f) => Ok(f@),
        Err(e) => Err(e.kind()),
    }
}

/// The filter `chars[f..b]`, whose shape is known to be valid.
fn parse_filter(src: &str, chars: &Vec<char>, f: usize, b: usize) -> (r: Result<Filter, ConfError>)
    requires
        chars@ == src@,
        f <= b <= chars.len(),
        filter_shape(chars@.subrange(f as int, b as int)) is Some,
    ensures
        filter_result_view(r) == decode_filter(
            filter_shape(chars@.subrange(f as int, b as int))->0,
        ),
{
    let ghost ft = chars@.subrange(f as int, b as int);
    assert(ft.drop_first() =~= chars@.subrange(f + 1, b as int));
    if chars[f] == '@' {
        return match parse_majmin(chars, f + 1, b) {
            Some(m) => Ok(Filter::MajMin(m)),
            None => Err(ConfError::MajMin),
        };
    }
    let mut envvar: Option<String> = None;
    let mut pat_start: usize = f;
    if chars[f] == '$' {
        let var_end = scan_name(chars, f + 1, b);
        assert(ft.drop_first().take(var_end - f - 1) =~= chars@.subrange(f + 1, var_end as int));
        assert(ft.drop_first().skip(var_end - f) =~= chars@.subrange(var_end + 1, b as int));
        envvar = Some(text_of(src, chars, f + 1, var_end));
        pat_start = var_end + 1;
    }
    match compile(src.substring_char(pat_start, b)) {
        Ok(re) => Ok(Filter::DeviceRegex(DeviceRegex { envvar, regex: re })),
        Err(e) => Err(ConfError::DeviceRegex(e)),
    }
}

/// The first field `chars[a..b]`: stop marker, environment matches and filter.
fn parse_head(src: &str, chars: &Vec<char>, a: usize, b: usize) -> (r: Result<
    (bool, Vec<EnvMatch>, Filter),
    ConfError,
>)
    requires
        chars@ == src@,
        a <= b <= chars.len(),
    ensures
        head_view(r) == decode_head(chars@.subrange(a as int, b as int)),
{
    let ghost t = chars@.subrange(a as int, b as int);
    let stop = !(a < b && chars[a] == '-');
    let start = if stop {
        a
    } else {
        a + 1
    };
    assert((if stop {
        t
    } else {
        t.drop_first()
    }) =~= chars@.subrange(start as int, b as int));
    let (spans, f) = scan_clause_spans(chars, start, b);
    if !has_filter_shape(chars, f, b) {
        return Err(ConfError::Matcher);
    }
    let envs = match compile_env_matches(src, chars, &spans) {
        Ok(envs) => envs,
        Err(e) => {
            return Err(ConfError::EnvRegex(e));
        },
    };
    match parse_filter(src, chars, f, b) {
        Ok(filter) => Ok((stop, envs, filter)),
        Err(e) => Err(e),
    }
}

/// The on-creation field `chars[a..b]`.
fn parse_on_creation(src: &str, chars: &Vec<char>, a: usize, b: usize) -> (r: Option<OnCreation>)
    requires
        chars@ == src@,
        a <= b <= chars.len(),
    ensures
        decode_on_creation(chars@.subrange(a as int, b as int)) == match r {
            Some(o) => Some(o@),
            None => None,
        },
{
    let ghost t = chars@.subrange(a as int, b as int);
    if b - a > 1 && (chars[a] == '=' || chars[a] == '>') {
        assert(t.drop_first() =~= chars@.subrange(a + 1, b as int));
        let path = text_of(src, chars, a + 1, b);
        if chars[a] == '=' {
            Some(OnCreation::Move(path))
        } else {
            Some(OnCreation::SymLink(path))
        }
    } else if b - a == 1 && chars[a] == '!' {
        assert(t =~= seq!['!']);
        Some(OnCreation::Prevent)
    } else {
        let ghost bang: Seq<char> = seq!['!'];
        assert(bang.len() == 1 && bang[0] == '!');
        assert(t != bang);
        None
    }
}

fn when_exec(c: char) -> (r: Option<WhenToRun>)
    ensures
        r == when_of(c),
{
    if c == '@' {
        Some(WhenToRun::After)
    } else if c == '$' {
        Some(WhenToRun::Before)
    } else if c == '*' {
        Some(WhenToRun::Both)
    } else {
        None
    }
}

/// The command field at `spans[k]`, with the fields after it as arguments.
fn parse_command(src: &str, chars: &Vec<char>, spans: &Vec<(usize, usize)>, k: usize) -> (r:
    Option<Command>)
    requires
        chars@ == src@,
        k < spans.len(),
        forall|m: int| 0 <= m < spans.len() ==> (#[trigger] spans[m]).0 < spans[m].1 <= chars.len(),
    ensures
        decode_command(
            span_texts(chars@, spans@)[k as int],
            span_texts(chars@, spans@).skip(k + 1),
        ) == match r {
            Some(c) => Some(c@),
            None => None,
        },
{
    let ghost texts = span_texts(chars@, spans@);
    let (a, b) = spans[k];
    let ghost t = chars@.subrange(a as int, b as int);
    assert(texts[k as int] == t);
    if b - a < 2 {
        return None;
    }
    let when = match when_exec(chars[a]) {
        Some(w) => w,
        None => {
            return None;
        },
    };
    assert(t.drop_first() =~= chars@.subrange(a + 1, b as int));
    let path = text_of(src, chars, a + 1, b);
    let mut args: Vec<String> = Vec::new();
    let mut m: usize = k + 1;
    while m < spans.len()
        invariant
            chars@ == src@,
            texts == span_texts(chars@, spans@),
            k < m <= spans.len(),
            forall|i: int| 0 <= i < spans.len() ==> (#[trigger] spans[i]).0 < spans[i].1 <= chars.len(),
            args@.map_values(|s: String| s@) =~= texts.subrange(k + 1, m as int),
        decreases spans.len() - m,
    {
        let ghost before = args@.map_values(|s: String| s@);
        args.push(text_of(src, chars, spans[m].0, spans[m].1));
        assert(args@.map_values(|s: String| s@) =~= before.push(texts[m as int]));
        m = m + 1;
    }
    assert(texts.subrange(k + 1, m as int) =~= texts.skip(k + 1));
    Some(Command { when, path, args })
}

/// The abstract value of decoded trailing fields.
pub open spec fn tail_view(r: Result<(Option<OnCreation>, Option<Command>), ConfError>) -> Result<
    (Option<OnCreationView>, Option<CommandView>),
    ErrorKind,
> {
    match r {
        Ok(p) => Ok(
            (
                match p.0 {
                    Some(o) => Some(o@),
                    None => None,
                },
                match p.1 {
                    Some(c) => Some(c@),
                    None => None,
                },
            ),
        ),
        Err(e) => Err(e.kind()),
    }
}

/// The optional fields from `spans[k]` on.
fn parse_tail(src: &str, chars: &Vec<char>, spans: &Vec<(usize, usize)>, k: usize) -> (r: Result<
    (Option<OnCreation>, Option<Command>),
    ConfError,
>)
    requires
        chars@ == src@,
        k <= spans.len(),
        forall|m: int| 0 <= m < spans.len() ==> (#[trigger] spans[m]).0 < spans[m].1 <= chars.len(),
    ensures
        tail_view(r) == decode_tail(span_texts(chars@, spans@).skip(k as int)),
{
    let ghost texts = span_texts(chars@, spans@);
    let ghost ts = texts.skip(k as int);
    if k == spans.len() {
        return Ok((None, None));
    }
    let (a, b) = spans[k];
    assert(ts[0] == chars@.subrange(a as int, b as int));
    let lead = chars[a];
    if lead == '=' || lead == '>' || lead == '!' {
        let oc = match parse_on_creation(src, chars, a, b) {
            Some(oc) => oc,
            None => {
                return Err(ConfError::OnCreation);
            },
        };
        if k + 1 == spans.len() {
            return Ok((Some(oc), None));
        }
        assert(ts[1] == texts[k + 1]);
        assert(ts.skip(2) =~= texts.skip(k + 2));
        match parse_command(src, chars, spans, k + 1) {
            Some(c) => Ok((Some(oc), Some(c))),
            None => Err(ConfError::Command),
        }
    } else if when_exec(lead).is_some() {
        assert(ts.skip(1) =~= texts.skip(k + 1));
        match parse_command(src, chars, spans, k) {
            Some(c) => Ok((None, Some(c))),
            None => Err(ConfError::Command),
        }
    } else {
        Err(ConfError::OnCreation)
    }
}

/// The abstract value of a decoded line.
pub open spec fn outcome_view(r: Result<Option<Conf>, ConfError>) -> LineOutcome {
    match r {
        Ok(Some(c)) => LineOutcome::Rule(c@),
        Ok(None) => LineOutcome::NoRule,
        Err(e) => LineOutcome::Rejected(e.kind()),
    }
}

/// The line `chars[a..b]` of `src`.
pub(crate) fn decode_span(src: &str, chars: &Vec<char>, a: usize, b: usize) -> (r: Result<
    Option<Conf>,
    ConfError,
>)
    requires
        chars@ == src@,
        a <= b <= chars.len(),
    ensures
        outcome_view(r) == decode_line(chars@.subrange(a as int, b as int)),
{
    let spans = token_spans(chars, a, b);
    let ghost texts = span_texts(chars@, spans@);
    assert forall|m: int| 0 <= m < spans.len() implies (#[trigger] spans[m]).0 < spans[m].1
        <= chars.len() by {
        assert(texts[m] == tokens(chars@.subrange(a as int, b as int))[m]);
        lemma_tokens_nonempty(chars@.subrange(a as int, b as int), m);
    }
    if spans.len() == 0 || chars[spans[0].0] == '#' {
        return Ok(None);
    }
    assert(texts[0][0] == chars@[spans[0].0 as int]);
    let (stop, envmatches, filter) = match parse_head(src, chars, spans[0].0, spans[0].1) {
        Ok(h) => h,
        Err(e) => {
            return Err(e);
        },
    };
    if spans.len() < 2 {
        return Err(ConfError::UserGroup);
    }
    let (user, group) = match parse_user_group(src, chars, spans[1].0, spans[1].1) {
        Some(ug) => ug,
        None => {
            return Err(ConfError::UserGroup);
        },
    };
    if spans.len() < 3 {
        return Err(ConfError::Mode);
    }
    let mode = match parse_mode(chars, spans[2].0, spans[2].1) {
        Some(m) => m,
        None => {
            return Err(ConfError::Mode);
        },
    };
    let (on_creation, command) = match parse_tail(src, chars, &spans, 3) {
        Ok(t) => t,
        Err(e) => {
            return Err(e);
        },
    };
    let conf = Conf { stop, envmatches, filter, user, group, mode, on_creation, command };
    Ok(Some(conf))
}

} // verus!
