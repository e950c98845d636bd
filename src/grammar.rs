//! What a rule line means: the grammar of each field, as spec functions over
//! characters.
//!
//! ```text
//! rule        := stop? envmatch* filter WS usergroup WS mode (WS oncreation)? (WS command)?
//! stop        := '-'
//! envmatch    := NAME '=' pattern ';'
//! filter      := '@' uint ',' uint ('-' uint)? | '$' NAME '=' pattern | pattern
//! usergroup   := user ':' group
//! mode        := [0-7][0-7][0-7]
//! oncreation  := '=' path | '>' path | '!'
//! command     := ('@'|'$'|'*') path (WS arg)*
//! ```
//!
//! Fields are maximal runs of non-separator characters. `NAME` is ASCII
//! letters, digits and `_`; a clause's pattern holds no `;`; every other part
//! is non-empty except `user` and `group`.

use crate::model::{
    CommandView, ConfView, ErrorKind, FilterView, MajMin, OnCreationView, WhenToRun,
};
use crate::pattern::regex_compiles;
use crate::text::tokens;
use vstd::prelude::*;

verus! {

/// Characters of an environment variable's name.
pub open spec fn is_name_char(c: char) -> bool {
    ('a' <= c && c <= 'z') || ('A' <= c && c <= 'Z') || ('0' <= c && c <= '9') || c == '_'
}

pub open spec fn is_digit(c: char) -> bool {
    '0' <= c && c <= '9'
}

pub open spec fn is_octal_digit(c: char) -> bool {
    '0' <= c && c <= '7'
}

pub open spec fn digit_value(c: char) -> nat {
    ((c as u32) - ('0' as u32)) as nat
}

/// Length of the longest prefix of `s` whose characters all satisfy `p`.
pub open spec fn span_len(s: Seq<char>, p: spec_fn(char) -> bool) -> nat
    decreases s.len(),
{
    if s.len() == 0 || !p(s[0]) {
        0
    } else {
        1 + span_len(s.drop_first(), p)
    }
}

pub open spec fn name_class() -> spec_fn(char) -> bool {
    |c: char| is_name_char(c)
}

pub open spec fn digit_class() -> spec_fn(char) -> bool {
    |c: char| is_digit(c)
}

/// Every character but `x`.
pub open spec fn other_than(x: char) -> spec_fn(char) -> bool {
    |c: char| c != x
}

pub open spec fn name_len(s: Seq<char>) -> nat {
    span_len(s, name_class())
}

pub open spec fn digit_len(s: Seq<char>) -> nat {
    span_len(s, digit_class())
}

/// The number that the decimal digits `s` spell.
pub open spec fn decimal_value(s: Seq<char>) -> nat
    decreases s.len(),
{
    if s.len() == 0 {
        0
    } else {
        decimal_value(s.drop_last()) * 10 + digit_value(s.last())
    }
}

/// A clause `NAME=pattern;` at the start of `s`: the lengths of name and pattern.
pub open spec fn clause_at(s: Seq<char>) -> Option<(nat, nat)> {
    let n = name_len(s);
    if 0 < n < s.len() && s[n as int] == '=' {
        let m = span_len(s.skip((n + 1) as int), other_than(';'));
        if 0 < m && n + 1 + m < s.len() && s[(n + 1 + m) as int] == ';' {
            Some((n, m))
        } else {
            None
        }
    } else {
        None
    }
}

/// The environment-match clauses that start `s`, as (name, pattern) pairs, and
/// the text after them.
pub open spec fn scan_clauses(s: Seq<char>) -> (Seq<(Seq<char>, Seq<char>)>, Seq<char>)
    decreases s.len(),
{
    match clause_at(s) {
        Some((n, m)) => {
            let later = scan_clauses(s.skip((n + m + 2) as int));
            (
                seq![(s.take(n as int), s.subrange((n + 1) as int, (n + 1 + m) as int))] + later.0,
                later.1,
            )
        },
        None => (seq![], s),
    }
}

/// The three shapes of a filter, before its parts are decoded.
pub enum FilterShape {
    /// A device-name pattern, with the variable of a `$VAR=pattern` filter
    Device(Option<Seq<char>>, Seq<char>),
    /// The text after `@`
    MajMin(Seq<char>),
}

pub open spec fn filter_shape(f: Seq<char>) -> Option<FilterShape> {
    if f.len() == 0 {
        None
    } else if f[0] == '@' {
        Some(FilterShape::MajMin(f.drop_first()))
    } else if f[0] == '$' {
        let v = f.drop_first();
        let n = name_len(v);
        if 0 < n && n + 1 < v.len() && v[n as int] == '=' {
            Some(FilterShape::Device(Some(v.take(n as int)), v.skip((n + 1) as int)))
        } else {
            None
        }
    } else {
        Some(FilterShape::Device(None, f))
    }
}

/// A number field: decimal digits whose value fits in a `u32`.
pub open spec fn decode_u32(s: Seq<char>) -> Option<u32> {
    if 0 < s.len() && digit_len(s) == s.len() && decimal_value(s) <= u32::MAX {
        Some(decimal_value(s) as u32)
    } else {
        None
    }
}

/// `maj,min` or `maj,min-min2`.
pub open spec fn decode_majmin(s: Seq<char>) -> Option<MajMin> {
    let a = digit_len(s);
    let t = s.skip((a + 1) as int);
    let b = digit_len(t);
    if !(0 < a < s.len() && s[a as int] == ',') {
        None
    } else if b < t.len() && t[b as int] != '-' {
        None
    } else {
        let min_text = t.take(b as int);
        let min2_text = t.skip((b + 1) as int);
        match (decode_u32(s.take(a as int)), decode_u32(min_text)) {
            (Some(maj), Some(min)) => {
                if b == t.len() {
                    Some(MajMin { maj, min, min2: None })
                } else {
                    match decode_u32(min2_text) {
                        Some(min2) => Some(MajMin { maj, min, min2: Some(min2) }),
                        None => None,
                    }
                }
            },
            _ => None,
        }
    }
}

/// Every pattern of the environment matches `envs` compiles.
pub open spec fn patterns_compile(envs: Seq<(Seq<char>, Seq<char>)>) -> bool {
    forall|i: int| 0 <= i < envs.len() ==> regex_compiles(#[trigger] envs[i].1)
}

/// The parts of a filter of a given shape.
pub open spec fn decode_filter(shape: FilterShape) -> Result<FilterView, ErrorKind> {
    match shape {
        FilterShape::Device(envvar, regex) => {
            if regex_compiles(regex) {
                Ok(FilterView::DeviceRegex { envvar, regex })
            } else {
                Err(ErrorKind::DeviceRegex)
            }
        },
        FilterShape::MajMin(m) => match decode_majmin(m) {
            Some(mm) => Ok(FilterView::MajMin(mm)),
            None => Err(ErrorKind::MajMin),
        },
    }
}

/// The first field: stop marker, environment matches and filter.
pub open spec fn decode_head(t: Seq<char>) -> Result<
    (bool, Seq<(Seq<char>, Seq<char>)>, FilterView),
    ErrorKind,
> {
    let stop = !(t.len() > 0 && t[0] == '-');
    let rest = if stop {
        t
    } else {
        t.drop_first()
    };
    let envs = scan_clauses(rest).0;
    match filter_shape(scan_clauses(rest).1) {
        None => Err(ErrorKind::Matcher),
        Some(shape) => {
            if !patterns_compile(envs) {
                Err(ErrorKind::EnvRegex)
            } else {
                match decode_filter(shape) {
                    Ok(filter) => Ok((stop, envs, filter)),
                    Err(k) => Err(k),
                }
            }
        },
    }
}

/// `user:group`, split at the first `:`.
pub open spec fn decode_user_group(t: Seq<char>) -> Option<(Seq<char>, Seq<char>)> {
    let k = span_len(t, other_than(':'));
    if k < t.len() {
        Some((t.take(k as int), t.skip((k + 1) as int)))
    } else {
        None
    }
}

/// Exactly three octal digits.
pub open spec fn decode_mode(t: Seq<char>) -> Option<u32> {
    if t.len() == 3 && is_octal_digit(t[0]) && is_octal_digit(t[1]) && is_octal_digit(t[2]) {
        Some((64 * digit_value(t[0]) + 8 * digit_value(t[1]) + digit_value(t[2])) as u32)
    } else {
        None
    }
}

pub open spec fn starts_on_creation(t: Seq<char>) -> bool {
    t.len() > 0 && (t[0] == '=' || t[0] == '>' || t[0] == '!')
}

pub open spec fn decode_on_creation(t: Seq<char>) -> Option<OnCreationView> {
    if t.len() > 1 && t[0] == '=' {
        Some(OnCreationView::Move(t.drop_first()))
    } else if t.len() > 1 && t[0] == '>' {
        Some(OnCreationView::SymLink(t.drop_first()))
    } else if t == seq!['!'] {
        Some(OnCreationView::Prevent)
    } else {
        None
    }
}

pub open spec fn when_of(c: char) -> Option<WhenToRun> {
    if c == '@' {
        Some(WhenToRun::After)
    } else if c == '$' {
        Some(WhenToRun::Before)
    } else if c == '*' {
        Some(WhenToRun::Both)
    } else {
        None
    }
}

/// A command field `t` and the argument fields after it.
pub open spec fn decode_command(t: Seq<char>, args: Seq<Seq<char>>) -> Option<CommandView> {
    if t.len() > 1 && when_of(t[0]) is Some {
        Some(CommandView { when: when_of(t[0])->0, path: t.drop_first(), args })
    } else {
        None
    }
}

/// The optional fields after the mode.
pub open spec fn decode_tail(ts: Seq<Seq<char>>) -> Result<
    (Option<OnCreationView>, Option<CommandView>),
    ErrorKind,
> {
    if ts.len() == 0 {
        Ok((None, None))
    } else if starts_on_creation(ts[0]) {
        match decode_on_creation(ts[0]) {
            None => Err(ErrorKind::OnCreation),
            Some(oc) => {
                if ts.len() == 1 {
                    Ok((Some(oc), None))
                } else {
                    match decode_command(ts[1], ts.skip(2)) {
                        Some(c) => Ok((Some(oc), Some(c))),
                        None => Err(ErrorKind::Command),
                    }
                }
            },
        }
    } else if ts[0].len() > 0 && when_of(ts[0][0]) is Some {
        match decode_command(ts[0], ts.skip(1)) {
            Some(c) => Ok((None, Some(c))),
            None => Err(ErrorKind::Command),
        }
    } else {
        Err(ErrorKind::OnCreation)
    }
}

/// What one line yields.
pub enum LineOutcome {
    /// A blank or comment line
    NoRule,
    Rule(ConfView),
    Rejected(ErrorKind),
}

/// A line given as its fields; the first error in field order wins.
pub open spec fn decode_fields(ts: Seq<Seq<char>>) -> LineOutcome {
    if ts.len() == 0 || (ts[0].len() > 0 && ts[0][0] == '#') {
        LineOutcome::NoRule
    } else {
        match decode_head(ts[0]) {
            Err(k) => LineOutcome::Rejected(k),
            Ok((stop, envmatches, filter)) => {
                if ts.len() < 2 || decode_user_group(ts[1]) is None {
                    LineOutcome::Rejected(ErrorKind::UserGroup)
                } else if ts.len() < 3 || decode_mode(ts[2]) is None {
                    LineOutcome::Rejected(ErrorKind::Mode)
                } else {
                    let user_group = decode_user_group(ts[1])->0;
                    match decode_tail(ts.skip(3)) {
                        Err(k) => LineOutcome::Rejected(k),
                        Ok((on_creation, command)) => LineOutcome::Rule(
                            ConfView {
                                stop,
                                envmatches,
                                filter,
                                user: user_group.0,
                                group: user_group.1,
                                mode: decode_mode(ts[2])->0,
                                on_creation,
                                command,
                            },
                        ),
                    }
                }
            },
        }
    }
}

/// What the line `line` yields.
pub open spec fn decode_line(line: Seq<char>) -> LineOutcome {
    decode_fields(tokens(line))
}

} // verus!
