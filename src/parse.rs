//! Rule files: one rule per line, decoded line by line.

use crate::decode::{decode_span, lemma_span_len, outcome_view, scan_until};
use crate::grammar::{decode_line, other_than, span_len, LineOutcome};
use crate::model::{Conf, ConfError, ConfView, ErrorKind};
use crate::text::to_chars;
use vstd::prelude::*;

verus! {

/// Length of the first line of `s`, without its `\n`.
pub open spec fn line_len(s: Seq<char>) -> nat {
    span_len(s, other_than('\n'))
}

/// The rule a line outcome holds, if any.
pub open spec fn rules_of(o: LineOutcome) -> Seq<ConfView> {
    match o {
        LineOutcome::Rule(c) => seq![c],
        _ => seq![],
    }
}

/// The error a line outcome holds, if any, tagged with the line number `n`.
pub open spec fn rejection_of(o: LineOutcome, n: nat) -> Seq<(nat, ErrorKind)> {
    match o {
        LineOutcome::Rejected(k) => seq![(n, k)],
        _ => seq![],
    }
}

#[via_fn]
proof fn lines_decreases(s: Seq<char>) {
    lemma_span_len(s, other_than('\n'));
}

/// The rules of the lines of `s`, in order; other lines yield nothing.
pub open spec fn parse_rules(s: Seq<char>) -> Seq<ConfView>
    decreases s.len() via lines_decreases
{
    let k = line_len(s);
    let here = rules_of(decode_line(s.take(k as int)));
    if k >= s.len() {
        here
    } else {
        here + parse_rules(s.skip((k + 1) as int))
    }
}

#[via_fn]
proof fn rejections_decreases(s: Seq<char>, n: nat) {
    lemma_span_len(s, other_than('\n'));
}

/// The rejected lines of `s` with their error kinds, numbering the first line `n`.
pub open spec fn rejections(s: Seq<char>, n: nat) -> Seq<(nat, ErrorKind)>
    decreases s.len() via rejections_decreases
{
    let k = line_len(s);
    let here = rejection_of(decode_line(s.take(k as int)), n);
    if k >= s.len() {
        here
    } else {
        here + rejections(s.skip((k + 1) as int), n + 1)
    }
}

/// Decodes one line: `Ok(None)` for a blank or comment line.
pub fn parse_line(line: &str) -> (r: Result<Option<Conf>, ConfError>)
    ensures
        outcome_view(r) == decode_line(line@),
{
    let chars = to_chars(line);
    assert(chars@.subrange(0, chars.len() as int) =~= line@);
    decode_span(line, &chars, 0, chars.len())
}

/// Decodes every line of `input`: the rules in input order, and each rejected
/// line's number (the first line is 1) with its error.
pub fn parse_with_rejections(input: &str) -> (r: (Vec<Conf>, Vec<(usize, ConfError)>))
    ensures
        r.0@.map_values(|c: Conf| c@) == parse_rules(input@),
        r.1@.map_values(|p: (usize, ConfError)| (p.0 as nat, p.1.kind())) == rejections(input@, 1),
{
    let chars = to_chars(input);
    let ghost s = input@;
    let mut confs: Vec<Conf> = Vec::new();
    let mut rejected: Vec<(usize, ConfError)> = Vec::new();
    let mut start: usize = 0;
    let mut done: usize = 0;
    assert(s.skip(0) =~= s);
    assert(confs@.map_values(|c: Conf| c@) + parse_rules(s) =~= parse_rules(s));
    assert(rejected@.map_values(|p: (usize, ConfError)| (p.0 as nat, p.1.kind())) + rejections(
        s,
        1,
    ) =~= rejections(s, 1));
    loop
        invariant
            chars@ == input@,
            s == input@,
            start <= chars.len(),
            done <= start,
            parse_rules(s) == confs@.map_values(|c: Conf| c@) + parse_rules(s.skip(start as int)),
            rejections(s, 1) == rejected@.map_values(
                |p: (usize, ConfError)| (p.0 as nat, p.1.kind()),
            ) + rejections(s.skip(start as int), (done + 1) as nat),
        decreases chars.len() - start,
    {
        let ghost rest = s.skip(start as int);
        let ghost confs_before = confs@.map_values(|c: Conf| c@);
        let ghost rejected_before = rejected@.map_values(
            |p: (usize, ConfError)| (p.0 as nat, p.1.kind()),
        );
        let end = scan_until(&chars, start, chars.len(), '\n');
        assert(rest =~= chars@.subrange(start as int, chars.len() as int));
        assert(rest.take(end - start) =~= chars@.subrange(start as int, end as int));
        let r = decode_span(input, &chars, start, end);
        let ghost o = decode_line(chars@.subrange(start as int, end as int));
        match r {
            Ok(Some(c)) => {
                confs.push(c);
            },
            Ok(None) => {},
            Err(e) => {
                if start == end {
                    assert(chars@.subrange(start as int, end as int) =~= seq![]);
                }
                rejected.push((done + 1, e));
            },
        }
        assert(confs@.map_values(|c: Conf| c@) =~= confs_before + rules_of(o));
        assert(rejected@.map_values(|p: (usize, ConfError)| (p.0 as nat, p.1.kind()))
            =~= rejected_before + rejection_of(o, (done + 1) as nat));
        if end == chars.len() {
            assert(parse_rules(rest) == rules_of(o));
            assert(parse_rules(s.skip(start as int)) == rules_of(o));
            assert(confs@.map_values(|c: Conf| c@) + seq![] =~= confs@.map_values(|c: Conf| c@));
            assert(rejections(rest, (done + 1) as nat) == rejection_of(o, (done + 1) as nat));
            assert(s.skip(chars.len() as int) =~= seq![]);
            assert(parse_rules(s) == confs@.map_values(|c: Conf| c@));
            assert(rejected@.map_values(|p: (usize, ConfError)| (p.0 as nat, p.1.kind()))
                + seq![] =~= rejected@.map_values(
                |p: (usize, ConfError)| (p.0 as nat, p.1.kind()),
            ));
            return (confs, rejected);
        }
        assert(rest.skip(end - start + 1) =~= s.skip(end + 1));
        assert(confs_before + (rules_of(o) + parse_rules(s.skip(end + 1))) =~= confs@.map_values(
            |c: Conf| c@,
        ) + parse_rules(s.skip(end + 1)));
        assert(rejected_before + (rejection_of(o, (done + 1) as nat) + rejections(
            s.skip(end + 1),
            (done + 2) as nat,
        )) =~= rejected@.map_values(|p: (usize, ConfError)| (p.0 as nat, p.1.kind()))
            + rejections(s.skip(end + 1), (done + 2) as nat));
        start = end + 1;
        done = done + 1;
    }
}

/// Parses every line of the configuration contained in `input` excluding invalid ones.
pub fn parse(input: &str) -> (r: Vec<Conf>)
    ensures
        r@.map_values(|c: Conf| c@) == parse_rules(input@),
{
    parse_with_rejections(input).0
}

} // verus!
