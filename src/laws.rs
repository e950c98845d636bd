//! What holds between decoding and printing, and of decoding many lines.

use crate::decode::{lemma_span_len, lemma_span_len_exact};
use crate::grammar::{
    clause_at, decimal_value, decode_command, decode_filter, decode_head, decode_line,
    decode_majmin, decode_mode, decode_on_creation, decode_tail, decode_u32, digit_class,
    digit_value, filter_shape, is_digit, is_name_char, name_class, name_len, other_than,
    patterns_compile, scan_clauses, span_len, starts_on_creation, when_of, FilterShape,
    LineOutcome,
};
use crate::model::{CommandView, ConfView, ErrorKind, FilterView, MajMin, OnCreationView};
use crate::parse::{parse_rules, rejection_of, rejections, rules_of};
use crate::pattern::regex_compiles;
use crate::print::{
    clause_text, clauses_text, command_fields, conf_fields, conf_text, decimal_text, digit_char,
    filter_text, head_text, join_fields, octal_text, on_creation_text, when_char,
};
use crate::text::{is_ws, lemma_tokens_gap, lemma_tokens_nonempty, lemma_tokens_word, no_ws, tokens};
use vstd::prelude::*;

verus! {

/// A non-empty text without separators: what a field can hold.
pub open spec fn is_field(t: Seq<char>) -> bool {
    t.len() > 0 && no_ws(t)
}

/// Joining fields with single spaces and splitting the result gives the fields back.
pub proof fn lemma_tokens_join(ts: Seq<Seq<char>>)
    requires
        forall|i: int| 0 <= i < ts.len() ==> is_field(#[trigger] ts[i]),
    ensures
        tokens(join_fields(ts)) == ts,
    decreases ts.len(),
{
    if ts.len() == 0 {
        assert(tokens(seq![]) =~= Seq::<Seq<char>>::empty());
        assert(ts =~= seq![]);
    } else if ts.len() == 1 {
        assert(is_field(ts[0]));
        lemma_tokens_word(ts[0], seq![]);
        assert(ts[0] + seq![] =~= ts[0]);
        assert(tokens(Seq::<char>::empty()) =~= Seq::<Seq<char>>::empty());
        assert(ts =~= seq![ts[0]] + Seq::<Seq<char>>::empty());
    } else {
        let rest = ts.drop_first();
        assert forall|i: int| 0 <= i < rest.len() implies is_field(#[trigger] rest[i]) by {
            assert(rest[i] == ts[i + 1]);
        }
        lemma_tokens_join(rest);
        let sp: Seq<char> = seq![' '];
        assert(is_field(ts[0]));
        lemma_tokens_word(ts[0], sp + join_fields(rest));
        lemma_tokens_gap(sp, join_fields(rest));
        assert(ts[0] + sp + join_fields(rest) =~= ts[0] + (sp + join_fields(rest)));
        assert(ts =~= seq![ts[0]] + rest);
    }
}

proof fn lemma_digit_char(d: nat)
    requires
        d < 10,
    ensures
        is_digit(digit_char(d)),
        digit_value(digit_char(d)) == d,
        d < 8 ==> '0' <= digit_char(d) <= '7',
{
}

/// Decimal text is non-empty, all digits, and spells its number.
pub proof fn lemma_decimal_text(n: nat)
    ensures
        decimal_text(n).len() > 0,
        forall|i: int| 0 <= i < decimal_text(n).len() ==> is_digit(#[trigger] decimal_text(n)[i]),
        decimal_value(decimal_text(n)) == n,
    decreases n,
{
    lemma_digit_char(n % 10);
    if n >= 10 {
        lemma_decimal_text(n / 10);
        let s = decimal_text(n);
        assert(s.drop_last() =~= decimal_text(n / 10));
        assert(s.last() == digit_char(n % 10));
        assert(decimal_value(s) == decimal_value(s.drop_last()) * 10 + digit_value(s.last()));
        assert((n / 10) * 10 + n % 10 == n);
    } else {
        let s = decimal_text(n);
        assert(s.drop_last() =~= Seq::<char>::empty());
        assert(decimal_value(Seq::<char>::empty()) == 0);
        assert(decimal_value(s) == decimal_value(s.drop_last()) * 10 + digit_value(s.last()));
    }
}

/// Printing a `u32` in decimal and reading it back gives the number.
pub proof fn lemma_decode_decimal(n: u32)
    ensures
        decode_u32(decimal_text(n as nat)) == Some(n),
        is_field(decimal_text(n as nat)),
{
    let s = decimal_text(n as nat);
    lemma_decimal_text(n as nat);
    lemma_span_len_exact(s, digit_class(), s.len());
    assert forall|i: int| 0 <= i < s.len() implies !crate::text::is_ws(#[trigger] s[i]) by {
        assert(is_digit(s[i]));
    }
}

/// Printing a mode below `0o1000` and reading it back gives the mode.
pub proof fn lemma_decode_octal(n: u32)
    requires
        n < 512,
    ensures
        decode_mode(octal_text(n as nat)) == Some(n),
        is_field(octal_text(n as nat)),
{
    let m = n as nat;
    lemma_digit_char(m / 64);
    lemma_digit_char((m / 8) % 8);
    lemma_digit_char(m % 8);
    assert(64 * (m / 64) + 8 * ((m / 8) % 8) + m % 8 == m) by (nonlinear_arith)
        requires m < 512;
    let s = octal_text(m);
    assert(s.len() == 3);
    assert forall|i: int| 0 <= i < s.len() implies !crate::text::is_ws(#[trigger] s[i]) by {
        assert(s[i] == digit_char(m / 64) || s[i] == digit_char((m / 8) % 8) || s[i] == digit_char(m % 8));
    }
}

/// No separator in either part means none in the whole.
pub proof fn lemma_no_ws_concat(a: Seq<char>, b: Seq<char>)
    requires
        no_ws(a),
        no_ws(b),
    ensures
        no_ws(a + b),
{
    assert forall|i: int| 0 <= i < (a + b).len() implies !is_ws(#[trigger] (a + b)[i]) by {
        if i < a.len() {
            assert((a + b)[i] == a[i]);
        } else {
            assert((a + b)[i] == b[i - a.len()]);
        }
    }
}

/// A non-empty run of name characters.
pub open spec fn is_name(v: Seq<char>) -> bool {
    v.len() > 0 && forall|i: int| 0 <= i < v.len() ==> is_name_char(#[trigger] v[i])
}

/// An environment match that prints as a clause and reads back as itself.
pub open spec fn clause_ok(e: (Seq<char>, Seq<char>)) -> bool {
    &&& is_name(e.0)
    &&& is_field(e.1)
    &&& forall|i: int| 0 <= i < e.1.len() ==> #[trigger] e.1[i] != ';'
    &&& regex_compiles(e.1)
}

/// A filter that prints and reads back as itself; `leads` when its text
/// starts the line.
pub open spec fn filter_ok(f: FilterView, leads: bool) -> bool {
    match f {
        FilterView::DeviceRegex { envvar: Some(v), regex } => is_name(v) && is_field(regex)
            && regex_compiles(regex),
        FilterView::DeviceRegex { envvar: None, regex } => {
            &&& is_field(regex)
            &&& regex_compiles(regex)
            &&& regex[0] != '@' && regex[0] != '$'
            &&& clause_at(regex) is None
            &&& leads ==> regex[0] != '-' && regex[0] != '#'
        },
        FilterView::MajMin(_) => true,
    }
}

/// The rules that decoding can produce: exactly those whose printed line reads
/// back as the same rule.
pub open spec fn well_formed(c: ConfView) -> bool {
    &&& forall|i: int| 0 <= i < c.envmatches.len() ==> clause_ok(#[trigger] c.envmatches[i])
    &&& filter_ok(c.filter, c.stop && c.envmatches.len() == 0)
    &&& no_ws(c.user)
    &&& forall|i: int| 0 <= i < c.user.len() ==> #[trigger] c.user[i] != ':'
    &&& no_ws(c.group)
    &&& c.mode < 512
    &&& match c.on_creation {
        Some(OnCreationView::Move(p)) => is_field(p),
        Some(OnCreationView::SymLink(p)) => is_field(p),
        _ => true,
    }
    &&& match c.command {
        Some(cmd) => is_field(cmd.path) && forall|i: int|
            0 <= i < cmd.args.len() ==> is_field(#[trigger] cmd.args[i]),
        None => true,
    }
}

/// A printed clause is found again, whole, at the start of what follows it.
proof fn lemma_clause_at_text(e: (Seq<char>, Seq<char>), x: Seq<char>)
    requires
        clause_ok(e),
    ensures
        clause_at(clause_text(e) + x) == Some((e.0.len(), e.1.len())),
        (clause_text(e) + x).take(e.0.len() as int) == e.0,
        (clause_text(e) + x).subrange(e.0.len() as int + 1, e.0.len() + 1 + e.1.len() as int) == e.1,
        (clause_text(e) + x).skip(e.0.len() + e.1.len() as int + 2) == x,
{
    let s = clause_text(e) + x;
    let n = e.0.len() as int;
    let m = e.1.len() as int;
    assert(s[n] == '=');
    assert forall|i: int| 0 <= i < n implies name_class()(#[trigger] s[i]) by {
        assert(s[i] == e.0[i]);
    }
    lemma_span_len_exact(s, name_class(), n as nat);
    let u = s.skip(n + 1);
    assert(u[m] == ';');
    assert forall|i: int| 0 <= i < m implies other_than(';')(#[trigger] u[i]) by {
        assert(u[i] == e.1[i]);
    }
    lemma_span_len_exact(u, other_than(';'), m as nat);
    assert(s.take(n) =~= e.0);
    assert(s.subrange(n + 1, n + 1 + m) =~= e.1);
    assert(s.skip(n + m + 2) =~= x);
}

/// Printed clauses followed by a text that opens no clause scan back to themselves.
pub proof fn lemma_scan_clauses_text(es: Seq<(Seq<char>, Seq<char>)>, f: Seq<char>)
    requires
        forall|i: int| 0 <= i < es.len() ==> clause_ok(#[trigger] es[i]),
        clause_at(f) is None,
    ensures
        scan_clauses(clauses_text(es) + f) == (es, f),
    decreases es.len(),
{
    if es.len() == 0 {
        assert(clauses_text(es) + f =~= f);
    } else {
        let rest = es.drop_first();
        assert forall|i: int| 0 <= i < rest.len() implies clause_ok(#[trigger] rest[i]) by {
            assert(rest[i] == es[i + 1]);
        }
        lemma_scan_clauses_text(rest, f);
        assert(clause_ok(es[0]));
        let x = clauses_text(rest) + f;
        lemma_clause_at_text(es[0], x);
        assert(clauses_text(es) + f =~= clause_text(es[0]) + x);
        assert(es =~= seq![es[0]] + rest);
    }
}

/// Name characters are not separators.
proof fn lemma_name_no_ws(v: Seq<char>)
    requires
        forall|i: int| 0 <= i < v.len() ==> is_name_char(#[trigger] v[i]),
    ensures
        no_ws(v),
{
    assert forall|i: int| 0 <= i < v.len() implies !is_ws(#[trigger] v[i]) by {
        assert(is_name_char(v[i]));
    }
}

proof fn lemma_clauses_text_field(es: Seq<(Seq<char>, Seq<char>)>)
    requires
        forall|i: int| 0 <= i < es.len() ==> clause_ok(#[trigger] es[i]),
    ensures
        no_ws(clauses_text(es)),
        es.len() > 0 ==> clauses_text(es).len() > 0 && is_name_char(clauses_text(es)[0]),
    decreases es.len(),
{
    if es.len() > 0 {
        let rest = es.drop_first();
        assert forall|i: int| 0 <= i < rest.len() implies clause_ok(#[trigger] rest[i]) by {
            assert(rest[i] == es[i + 1]);
        }
        lemma_clauses_text_field(rest);
        let e = es[0];
        assert(clause_ok(e));
        lemma_name_no_ws(e.0);
        let eq: Seq<char> = seq!['='];
        let semi: Seq<char> = seq![';'];
        assert(no_ws(eq));
        assert(no_ws(semi));
        lemma_no_ws_concat(e.0, eq);
        lemma_no_ws_concat(e.0 + eq, e.1);
        lemma_no_ws_concat(e.0 + eq + e.1, semi);
        lemma_no_ws_concat(clause_text(e), clauses_text(rest));
        assert((clause_text(e) + clauses_text(rest))[0] == e.0[0]);
    }
}

/// A printed major/minor filter reads back as itself.
proof fn lemma_decode_majmin_text(m: MajMin)
    ensures
        decode_majmin(
            decimal_text(m.maj as nat) + seq![','] + decimal_text(m.min as nat) + match m.min2 {
                Some(x) => seq!['-'] + decimal_text(x as nat),
                None => seq![],
            },
        ) == Some(m),
        no_ws(
            decimal_text(m.maj as nat) + seq![','] + decimal_text(m.min as nat) + match m.min2 {
                Some(x) => seq!['-'] + decimal_text(x as nat),
                None => seq![],
            },
        ),
{
    let a_text = decimal_text(m.maj as nat);
    let b_text = decimal_text(m.min as nat);
    let tail: Seq<char> = match m.min2 {
        Some(x) => seq!['-'] + decimal_text(x as nat),
        None => seq![],
    };
    let comma: Seq<char> = seq![','];
    let s = a_text + comma + b_text + tail;
    lemma_decode_decimal(m.maj);
    lemma_decode_decimal(m.min);
    lemma_decimal_text(m.maj as nat);
    lemma_decimal_text(m.min as nat);
    assert(s[a_text.len() as int] == ',');
    assert forall|i: int| 0 <= i < a_text.len() implies digit_class()(#[trigger] s[i]) by {
        assert(s[i] == a_text[i]);
    }
    lemma_span_len_exact(s, digit_class(), a_text.len());
    let t = s.skip(a_text.len() as int + 1);
    assert(t =~= b_text + tail);
    assert forall|i: int| 0 <= i < b_text.len() implies digit_class()(#[trigger] t[i]) by {
        assert(t[i] == b_text[i]);
    }
    if tail.len() > 0 {
        assert(t[b_text.len() as int] == '-');
    }
    lemma_span_len_exact(t, digit_class(), b_text.len());
    assert(s.take(a_text.len() as int) =~= a_text);
    assert(t.take(b_text.len() as int) =~= b_text);
    let dash: Seq<char> = seq!['-'];
    assert(no_ws(comma));
    assert(no_ws(dash));
    lemma_no_ws_concat(a_text, comma);
    lemma_no_ws_concat(a_text + comma, b_text);
    match m.min2 {
        Some(x) => {
            lemma_decode_decimal(x);
            assert(t.skip(b_text.len() as int + 1) =~= decimal_text(x as nat));
            lemma_no_ws_concat(dash, decimal_text(x as nat));
            lemma_no_ws_concat(a_text + comma + b_text, tail);
        },
        None => {
            assert(t.len() == b_text.len());
            assert(a_text + comma + b_text + tail =~= a_text + comma + b_text);
        },
    }
}

/// A well-formed filter prints as one field that reads back as itself.
proof fn lemma_filter_text(f: FilterView, leads: bool)
    requires
        filter_ok(f, leads),
    ensures
        is_field(filter_text(f)),
        clause_at(filter_text(f)) is None,
        filter_shape(filter_text(f)) is Some,
        decode_filter(filter_shape(filter_text(f))->0) == Ok::<FilterView, crate::model::ErrorKind>(f),
        leads ==> filter_text(f)[0] != '-' && filter_text(f)[0] != '#',
{
    let ft = filter_text(f);
    match f {
        FilterView::DeviceRegex { envvar: Some(v), regex } => {
            let dollar: Seq<char> = seq!['$'];
            let eq: Seq<char> = seq!['='];
            assert(ft =~= dollar + v + eq + regex);
            assert(!is_name_char(ft[0]));
            assert(name_len(ft) == 0);
            let vv = ft.drop_first();
            assert(vv =~= v + eq + regex);
            let n = v.len() as int;
            assert(vv[n] == '=');
            assert forall|i: int| 0 <= i < n implies name_class()(#[trigger] vv[i]) by {
                assert(vv[i] == v[i]);
            }
            lemma_span_len_exact(vv, name_class(), n as nat);
            assert(vv.take(n) =~= v);
            assert(vv.skip(n + 1) =~= regex);
            lemma_name_no_ws(v);
            assert(no_ws(dollar));
            assert(no_ws(eq));
            lemma_no_ws_concat(dollar, v);
            lemma_no_ws_concat(dollar + v, eq);
            lemma_no_ws_concat(dollar + v + eq, regex);
        },
        FilterView::DeviceRegex { envvar: None, regex } => {},
        FilterView::MajMin(m) => {
            let at: Seq<char> = seq!['@'];
            let body = decimal_text(m.maj as nat) + seq![','] + decimal_text(m.min as nat)
                + match m.min2 {
                Some(x) => seq!['-'] + decimal_text(x as nat),
                None => seq![],
            };
            assert(ft =~= at + body);
            assert(!is_name_char(ft[0]));
            assert(name_len(ft) == 0);
            assert(ft.drop_first() =~= body);
            lemma_decode_majmin_text(m);
            assert(no_ws(at));
            lemma_no_ws_concat(at, body);
        },
    }
}

/// The printed first field of a well-formed rule reads back as its stop
/// marker, environment matches and filter.
pub proof fn lemma_head_text(c: ConfView)
    requires
        well_formed(c),
    ensures
        is_field(head_text(c)),
        head_text(c)[0] != '#',
        decode_head(head_text(c)) == Ok::<_, crate::model::ErrorKind>((c.stop, c.envmatches, c.filter)),
{
    let es = c.envmatches;
    let ft = filter_text(c.filter);
    let leads = c.stop && es.len() == 0;
    lemma_filter_text(c.filter, leads);
    lemma_scan_clauses_text(es, ft);
    lemma_clauses_text_field(es);
    let body = clauses_text(es) + ft;
    lemma_no_ws_concat(clauses_text(es), ft);
    if es.len() > 0 {
        assert(body[0] == clauses_text(es)[0]);
    } else {
        assert(body =~= ft);
    }
    let t = head_text(c);
    let dash: Seq<char> = seq!['-'];
    if c.stop {
        assert(t =~= body);
    } else {
        assert(t =~= dash + body);
        assert(t.drop_first() =~= body);
        assert(no_ws(dash));
        lemma_no_ws_concat(dash, body);
    }
    assert forall|i: int| 0 <= i < es.len() implies regex_compiles(#[trigger] es[i].1) by {
        assert(clause_ok(es[i]));
    }
    assert(patterns_compile(es));
}

/// The optional trailing fields of a printed rule.
pub open spec fn tail_fields(oc: Option<OnCreationView>, cmd: Option<CommandView>) -> Seq<Seq<char>> {
    let oc_fields: Seq<Seq<char>> = match oc {
        Some(o) => seq![on_creation_text(o)],
        None => seq![],
    };
    let cmd_fields: Seq<Seq<char>> = match cmd {
        Some(c) => command_fields(c),
        None => seq![],
    };
    oc_fields + cmd_fields
}

/// Printed trailing fields read back as themselves.
proof fn lemma_tail_text(c: ConfView)
    requires
        well_formed(c),
    ensures
        forall|i: int|
            0 <= i < tail_fields(c.on_creation, c.command).len() ==> is_field(
                #[trigger] tail_fields(c.on_creation, c.command)[i],
            ),
        decode_tail(tail_fields(c.on_creation, c.command)) == Ok::<_, ErrorKind>(
            (c.on_creation, c.command),
        ),
{
    let ts = tail_fields(c.on_creation, c.command);
    let oc_fields: Seq<Seq<char>> = match c.on_creation {
        Some(o) => seq![on_creation_text(o)],
        None => seq![],
    };
    let cmd_fields: Seq<Seq<char>> = match c.command {
        Some(cmd) => command_fields(cmd),
        None => seq![],
    };
    assert(ts == oc_fields + cmd_fields);
    match c.on_creation {
        Some(o) => {
            let t = on_creation_text(o);
            let bang: Seq<char> = seq!['!'];
            match o {
                OnCreationView::Move(p) => {
                    let sym: Seq<char> = seq!['='];
                    assert(t =~= sym + p);
                    assert(t.drop_first() =~= p);
                    assert(no_ws(sym));
                    lemma_no_ws_concat(sym, p);
                },
                OnCreationView::SymLink(p) => {
                    let sym: Seq<char> = seq!['>'];
                    assert(t =~= sym + p);
                    assert(t.drop_first() =~= p);
                    assert(no_ws(sym));
                    lemma_no_ws_concat(sym, p);
                },
                OnCreationView::Prevent => {
                    assert(t =~= bang);
                },
            }
            assert(decode_on_creation(t) == Some(o));
            assert(is_field(t));
        },
        None => {},
    }
    match c.command {
        Some(cmd) => {
            let w: Seq<char> = seq![when_char(cmd.when)];
            let t = w + cmd.path;
            assert(command_fields(cmd) =~= seq![t] + cmd.args);
            assert(t[0] == when_char(cmd.when));
            assert(t.drop_first() =~= cmd.path);
            assert(when_of(when_char(cmd.when)) == Some(cmd.when));
            assert(no_ws(w));
            lemma_no_ws_concat(w, cmd.path);
            assert(decode_command(t, cmd.args) == Some(cmd));
            let cf = command_fields(cmd);
            assert(cf.skip(1) =~= cmd.args);
            assert forall|i: int| 0 <= i < cf.len() implies is_field(#[trigger] cf[i]) by {
                if i > 0 {
                    assert(cf[i] == cmd.args[i - 1]);
                }
            }
            match c.on_creation {
                Some(o) => {
                    assert(ts[1] == t);
                    assert(ts.skip(2) =~= cmd.args);
                },
                None => {
                    assert(ts =~= cf);
                    assert(!starts_on_creation(t));
                },
            }
        },
        None => {
            assert(ts =~= oc_fields);
        },
    }
    assert forall|i: int| 0 <= i < ts.len() implies is_field(#[trigger] ts[i]) by {
        if i < oc_fields.len() {
            assert(ts[i] == oc_fields[i]);
        } else {
            assert(ts[i] == cmd_fields[i - oc_fields.len()]);
        }
    }
}

/// A well-formed rule's printed line decodes to that rule.
pub proof fn lemma_print_decode(c: ConfView)
    requires
        well_formed(c),
    ensures
        decode_line(conf_text(c)) == LineOutcome::Rule(c),
{
    let fs = conf_fields(c);
    let ug = c.user + seq![':'] + c.group;
    let tail = tail_fields(c.on_creation, c.command);
    assert(fs =~= seq![head_text(c), ug, octal_text(c.mode as nat)] + tail);
    lemma_head_text(c);
    lemma_tail_text(c);
    lemma_decode_octal(c.mode);
    let colon: Seq<char> = seq![':'];
    assert(no_ws(colon));
    lemma_no_ws_concat(c.user, colon);
    lemma_no_ws_concat(c.user + colon, c.group);
    let k = c.user.len() as int;
    assert(ug[k] == ':');
    assert forall|i: int| 0 <= i < k implies other_than(':')(#[trigger] ug[i]) by {
        assert(ug[i] == c.user[i]);
    }
    lemma_span_len_exact(ug, other_than(':'), k as nat);
    assert(ug.take(k) =~= c.user);
    assert(ug.skip(k + 1) =~= c.group);
    assert forall|i: int| 0 <= i < fs.len() implies is_field(#[trigger] fs[i]) by {
        if i >= 3 {
            assert(fs[i] == tail[i - 3]);
        }
    }
    lemma_tokens_join(fs);
    assert(fs.skip(3) =~= tail);
    assert(fs[0] == head_text(c));
}

/// Every part of a text without separators is without separators.
proof fn lemma_no_ws_sub(s: Seq<char>, i: int, j: int)
    requires
        no_ws(s),
        0 <= i <= j <= s.len(),
    ensures
        no_ws(s.subrange(i, j)),
{
    assert forall|k: int| 0 <= k < j - i implies !is_ws(#[trigger] s.subrange(i, j)[k]) by {
        assert(s.subrange(i, j)[k] == s[i + k]);
    }
}

/// What clause scanning finds in a text without separators.
proof fn lemma_scan_clauses_ok(s: Seq<char>)
    requires
        no_ws(s),
    ensures
        forall|i: int|
            0 <= i < scan_clauses(s).0.len() ==> {
                let e = #[trigger] scan_clauses(s).0[i];
                &&& is_name(e.0)
                &&& is_field(e.1)
                &&& forall|k: int| 0 <= k < e.1.len() ==> #[trigger] e.1[k] != ';'
            },
        no_ws(scan_clauses(s).1),
        clause_at(scan_clauses(s).1) is None,
        scan_clauses(s).0.len() == 0 ==> scan_clauses(s).1 == s,
    decreases s.len(),
{
    match clause_at(s) {
        Some((n, m)) => {
            let n = n as int;
            let m = m as int;
            let later = s.skip(n + m + 2);
            lemma_no_ws_sub(s, n + m + 2, s.len() as int);
            assert(later =~= s.subrange(n + m + 2, s.len() as int));
            lemma_scan_clauses_ok(later);
            let name = s.take(n);
            let pat = s.subrange(n + 1, n + 1 + m);
            lemma_span_len(s, name_class());
            assert forall|i: int| 0 <= i < name.len() implies is_name_char(#[trigger] name[i]) by {
                assert(name[i] == s[i]);
                assert(name_class()(s[i]));
            }
            let u = s.skip(n + 1);
            lemma_span_len(u, other_than(';'));
            assert forall|k: int| 0 <= k < pat.len() implies #[trigger] pat[k] != ';' by {
                assert(pat[k] == u[k]);
                assert(other_than(';')(u[k]));
            }
            lemma_no_ws_sub(s, n + 1, n + 1 + m);
            let found = scan_clauses(s).0;
            assert(found == seq![(name, pat)] + scan_clauses(later).0);
            assert forall|i: int| 0 <= i < found.len() implies {
                let e = #[trigger] found[i];
                &&& is_name(e.0)
                &&& is_field(e.1)
                &&& forall|k: int| 0 <= k < e.1.len() ==> #[trigger] e.1[k] != ';'
            } by {
                if i > 0 {
                    assert(found[i] == scan_clauses(later).0[i - 1]);
                }
            }
        },
        None => {},
    }
}

/// Every rule that decoding produces is well formed.
pub proof fn lemma_decoded_well_formed(line: Seq<char>)
    requires
        decode_line(line) is Rule,
    ensures
        well_formed(decode_line(line)->Rule_0),
{
    let c = decode_line(line)->Rule_0;
    let ts = tokens(line);
    lemma_tokens_nonempty(line, 0);
    lemma_tokens_nonempty(line, 1);
    lemma_tokens_nonempty(line, 2);
    let t = ts[0];
    let stop = !(t.len() > 0 && t[0] == '-');
    let rest = if stop {
        t
    } else {
        t.drop_first()
    };
    lemma_no_ws_sub(t, if stop { 0 } else { 1 }, t.len() as int);
    assert(rest =~= t.subrange(if stop { 0 } else { 1 }, t.len() as int));
    lemma_scan_clauses_ok(rest);
    let envs = scan_clauses(rest).0;
    let f = scan_clauses(rest).1;
    assert(c.stop == stop);
    assert(c.envmatches == envs);
    assert(patterns_compile(envs));
    assert forall|i: int| 0 <= i < envs.len() implies clause_ok(#[trigger] envs[i]) by {
        assert(regex_compiles(envs[i].1));
    }
    match filter_shape(f) {
        Some(FilterShape::Device(Some(v), r)) => {
            let vv = f.drop_first();
            let n = name_len(vv) as int;
            lemma_span_len(vv, name_class());
            assert forall|i: int| 0 <= i < v.len() implies is_name_char(#[trigger] v[i]) by {
                assert(v[i] == vv[i]);
                assert(name_class()(vv[i]));
            }
            lemma_no_ws_sub(f, n + 2, f.len() as int);
            assert(r =~= f.subrange(n + 2, f.len() as int));
        },
        Some(FilterShape::Device(None, r)) => {
            if stop && envs.len() == 0 {
                assert(f == t);
            }
        },
        _ => {},
    }
    let ug = ts[1];
    let k = span_len(ug, other_than(':')) as int;
    lemma_span_len(ug, other_than(':'));
    assert(c.user == ug.take(k));
    assert(c.group == ug.skip(k + 1));
    assert forall|i: int| 0 <= i < c.user.len() implies #[trigger] c.user[i] != ':' by {
        assert(c.user[i] == ug[i]);
        assert(other_than(':')(ug[i]));
    }
    lemma_no_ws_sub(ug, 0, k);
    lemma_no_ws_sub(ug, k + 1, ug.len() as int);
    assert(c.user =~= ug.subrange(0, k));
    assert(c.group =~= ug.subrange(k + 1, ug.len() as int));
    let tail = ts.skip(3);
    assert forall|i: int| 0 <= i < tail.len() implies is_field(#[trigger] tail[i]) by {
        assert(tail[i] == ts[i + 3]);
        lemma_tokens_nonempty(line, i + 3);
    }
    if tail.len() > 0 {
        let t0 = tail[0];
        assert(is_field(t0));
        lemma_no_ws_sub(t0, 1, t0.len() as int);
        assert(t0.drop_first() =~= t0.subrange(1, t0.len() as int));
        if starts_on_creation(t0) {
            if tail.len() > 1 {
                let t1 = tail[1];
                assert(is_field(t1));
                lemma_no_ws_sub(t1, 1, t1.len() as int);
                assert(t1.drop_first() =~= t1.subrange(1, t1.len() as int));
                let args = tail.skip(2);
                assert forall|i: int| 0 <= i < args.len() implies is_field(#[trigger] args[i]) by {
                    assert(args[i] == tail[i + 2]);
                }
            }
        } else {
            let args = tail.skip(1);
            assert forall|i: int| 0 <= i < args.len() implies is_field(#[trigger] args[i]) by {
                assert(args[i] == tail[i + 1]);
            }
        }
    }
}

/// A text without `\n` is one line.
proof fn lemma_single_line(s: Seq<char>, rest: Seq<char>)
    requires
        forall|i: int| 0 <= i < s.len() ==> #[trigger] s[i] != '\n',
    ensures
        parse_rules(s) == rules_of(decode_line(s)),
        parse_rules(s + seq!['\n'] + rest) == rules_of(decode_line(s)) + parse_rules(rest),
        forall|n: nat|
            #[trigger] rejections(s + seq!['\n'] + rest, n) == rejection_of(decode_line(s), n)
                + rejections(rest, n + 1),
{
    assert forall|i: int| 0 <= i < s.len() implies other_than('\n')(#[trigger] s[i]) by {}
    lemma_span_len_exact(s, other_than('\n'), s.len());
    assert(s.take(s.len() as int) =~= s);
    let whole = s + seq!['\n'] + rest;
    assert forall|i: int| 0 <= i < s.len() implies other_than('\n')(#[trigger] whole[i]) by {
        assert(whole[i] == s[i]);
    }
    assert(whole[s.len() as int] == '\n');
    lemma_span_len_exact(whole, other_than('\n'), s.len());
    assert(whole.take(s.len() as int) =~= s);
    assert(whole.skip(s.len() as int + 1) =~= rest);
}

/// Fields laid out with the separator runs `gaps`: `gaps[0]` before the first
/// field, `gaps[i]` before field `i`, and the last one after the last field.
pub open spec fn layout(ts: Seq<Seq<char>>, gaps: Seq<Seq<char>>) -> Seq<char>
    decreases ts.len(),
{
    if ts.len() == 0 || gaps.len() == 0 {
        if gaps.len() > 0 {
            gaps[0]
        } else {
            seq![]
        }
    } else {
        gaps[0] + ts[0] + layout(ts.drop_first(), gaps.drop_first())
    }
}

/// Separator runs for `ts`: one more than the fields, all separators, and
/// non-empty between two fields.
pub open spec fn valid_gaps(ts: Seq<Seq<char>>, gaps: Seq<Seq<char>>) -> bool {
    &&& gaps.len() == ts.len() + 1
    &&& forall|i: int, k: int|
        0 <= i < gaps.len() && 0 <= k < gaps[i].len() ==> is_ws(#[trigger] gaps[i][k])
    &&& forall|i: int| 0 < i < ts.len() ==> (#[trigger] gaps[i]).len() > 0
}

/// Laid-out fields split back into the same fields.
pub proof fn lemma_tokens_layout(ts: Seq<Seq<char>>, gaps: Seq<Seq<char>>)
    requires
        forall|i: int| 0 <= i < ts.len() ==> is_field(#[trigger] ts[i]),
        valid_gaps(ts, gaps),
    ensures
        tokens(layout(ts, gaps)) == ts,
    decreases ts.len(),
{
    let g0 = gaps[0];
    assert forall|k: int| 0 <= k < g0.len() implies is_ws(#[trigger] g0[k]) by {
        assert(is_ws(gaps[0][k]));
    }
    if ts.len() == 0 {
        lemma_tokens_gap(g0, seq![]);
        assert(g0 + seq![] =~= g0);
        assert(tokens(Seq::<char>::empty()) =~= Seq::<Seq<char>>::empty());
        assert(ts =~= seq![]);
    } else {
        let rest = ts.drop_first();
        let rgaps = gaps.drop_first();
        assert forall|i: int| 0 <= i < rest.len() implies is_field(#[trigger] rest[i]) by {
            assert(rest[i] == ts[i + 1]);
        }
        assert forall|i: int, k: int|
            0 <= i < rgaps.len() && 0 <= k < rgaps[i].len() implies is_ws(#[trigger] rgaps[i][k]) by {
            assert(rgaps[i] == gaps[i + 1]);
        }
        assert forall|i: int| 0 < i < rest.len() implies (#[trigger] rgaps[i]).len() > 0 by {
            assert(rgaps[i] == gaps[i + 1]);
        }
        lemma_tokens_layout(rest, rgaps);
        let later = layout(rest, rgaps);
        if rest.len() > 0 {
            assert(rgaps[0] == gaps[1]);
            assert(gaps[1].len() > 0);
            assert(is_ws(gaps[1][0]));
            assert(later[0] == rgaps[0][0]);
        } else if rgaps[0].len() > 0 {
            assert(later == rgaps[0]);
            assert(is_ws(gaps[1][0]));
        }
        assert(is_field(ts[0]));
        lemma_tokens_word(ts[0], later);
        lemma_tokens_gap(g0, ts[0] + later);
        assert(g0 + ts[0] + later =~= g0 + (ts[0] + later));
        assert(ts =~= seq![ts[0]] + rest);
    }
}

/// Decoding a line is printing's inverse: a rule decoded from any line prints
/// as a line that decodes to the same rule, and that line alone parses to just
/// that rule.
pub proof fn law_round_trip(line: Seq<char>)
    requires
        decode_line(line) is Rule,
    ensures
        decode_line(conf_text(decode_line(line)->Rule_0)) == decode_line(line),
        parse_rules(conf_text(decode_line(line)->Rule_0)) == seq![decode_line(line)->Rule_0],
{
    let c = decode_line(line)->Rule_0;
    lemma_decoded_well_formed(line);
    lemma_print_decode(c);
    assert forall|i: int| 0 <= i < conf_text(c).len() implies #[trigger] conf_text(c)[i] != '\n' by {
        lemma_printed_no_newline(c, i);
    }
    lemma_single_line(conf_text(c), seq![]);
}

/// The printed line of a well-formed rule is one line.
proof fn lemma_printed_no_newline(c: ConfView, i: int)
    requires
        well_formed(c),
        0 <= i < conf_text(c).len(),
    ensures
        conf_text(c)[i] != '\n',
{
    let fs = conf_fields(c);
    let tail = tail_fields(c.on_creation, c.command);
    lemma_head_text(c);
    lemma_tail_text(c);
    lemma_decode_octal(c.mode);
    let colon: Seq<char> = seq![':'];
    assert(no_ws(colon));
    lemma_no_ws_concat(c.user, colon);
    lemma_no_ws_concat(c.user + colon, c.group);
    assert(fs =~= seq![head_text(c), c.user + colon + c.group, octal_text(c.mode as nat)] + tail);
    assert forall|j: int| 0 <= j < fs.len() implies is_field(#[trigger] fs[j]) by {
        if j >= 3 {
            assert(fs[j] == tail[j - 3]);
        }
    }
    lemma_join_spaces(fs, i);
}

/// A character of joined fields is a space or a character of a field.
proof fn lemma_join_spaces(ts: Seq<Seq<char>>, i: int)
    requires
        forall|j: int| 0 <= j < ts.len() ==> is_field(#[trigger] ts[j]),
        0 <= i < join_fields(ts).len(),
    ensures
        !is_ws(join_fields(ts)[i]) || join_fields(ts)[i] == ' ',
    decreases ts.len(),
{
    if ts.len() == 1 {
        assert(is_field(ts[0]));
    } else if ts.len() > 1 {
        assert(is_field(ts[0]));
        let rest = ts.drop_first();
        let sp: Seq<char> = seq![' '];
        let j = join_fields(ts);
        assert(j == ts[0] + sp + join_fields(rest));
        if i < ts[0].len() {
            assert(j[i] == ts[0][i]);
        } else if i > ts[0].len() {
            assert forall|k: int| 0 <= k < rest.len() implies is_field(#[trigger] rest[k]) by {
                assert(rest[k] == ts[k + 1]);
            }
            assert(j[i] == join_fields(rest)[i - ts[0].len() - 1]);
            lemma_join_spaces(rest, i - ts[0].len() - 1);
        }
    }
}

/// Decoding does not depend on how fields are separated: the same fields
/// laid out with any runs of separators between and around them decode alike,
/// and as their single-space joining does.
pub proof fn law_whitespace_insensitive(
    ts: Seq<Seq<char>>,
    gaps1: Seq<Seq<char>>,
    gaps2: Seq<Seq<char>>,
)
    requires
        forall|i: int| 0 <= i < ts.len() ==> is_field(#[trigger] ts[i]),
        valid_gaps(ts, gaps1),
        valid_gaps(ts, gaps2),
    ensures
        decode_line(layout(ts, gaps1)) == decode_line(layout(ts, gaps2)),
        decode_line(layout(ts, gaps1)) == decode_line(join_fields(ts)),
{
    lemma_tokens_layout(ts, gaps1);
    lemma_tokens_layout(ts, gaps2);
    lemma_tokens_join(ts);
}

/// A decoded rule has exactly one filter: a device-name pattern or a
/// major/minor filter, never both and never neither.
pub proof fn law_exactly_one_filter(line: Seq<char>)
    requires
        decode_line(line) is Rule,
    ensures
        (decode_line(line)->Rule_0.filter is DeviceRegex) != (decode_line(line)->Rule_0.filter is MajMin),
{
}

/// Lines are decoded independently: a line contributes its rule, if any, and
/// the lines after it are decoded as if it were not there.
pub proof fn law_lines_independent(line: Seq<char>, rest: Seq<char>)
    requires
        forall|i: int| 0 <= i < line.len() ==> #[trigger] line[i] != '\n',
    ensures
        parse_rules(line + seq!['\n'] + rest) == rules_of(decode_line(line)) + parse_rules(rest),
{
    lemma_single_line(line, rest);
}

/// A rejected line yields no rule and does not stop the lines after it: they
/// decode as if it were not there, and it is reported with its line number.
pub proof fn law_rejected_line_skipped(bad: Seq<char>, rest: Seq<char>, n: nat)
    requires
        forall|i: int| 0 <= i < bad.len() ==> #[trigger] bad[i] != '\n',
        decode_line(bad) is Rejected,
    ensures
        parse_rules(bad + seq!['\n'] + rest) == parse_rules(rest),
        rejections(bad + seq!['\n'] + rest, n) == seq![(n, decode_line(bad)->Rejected_0)]
            + rejections(rest, n + 1),
{
    lemma_single_line(bad, rest);
    assert(rules_of(decode_line(bad)) + parse_rules(rest) =~= parse_rules(rest));
}

} // verus!
