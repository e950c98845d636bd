//! Printing a [`Conf`] back to a canonical rule line.

use crate::model::{
    CommandView, Conf, ConfView, Filter, FilterView, OnCreation, OnCreationView, WhenToRun,
};
use crate::pattern::source_text;
use vstd::prelude::*;

verus! {

/// The decimal digit character for `d < 10`.
pub open spec fn digit_char(d: nat) -> char {
    (('0' as u32) + d) as char
}

/// `n` in decimal, without leading zeros.
pub open spec fn decimal_text(n: nat) -> Seq<char>
    decreases n,
{
    if n < 10 {
        seq![digit_char(n)]
    } else {
        decimal_text(n / 10).push(digit_char(n % 10))
    }
}

/// `n` in octal, zero-padded to at least three digits.
pub open spec fn octal_text(n: nat) -> Seq<char>
    decreases n,
{
    if n < 512 {
        seq![digit_char(n / 64), digit_char((n / 8) % 8), digit_char(n % 8)]
    } else {
        octal_text(n / 8).push(digit_char(n % 8))
    }
}

/// Fields joined by single spaces.
pub open spec fn join_fields(ts: Seq<Seq<char>>) -> Seq<char>
    decreases ts.len(),
{
    if ts.len() == 0 {
        seq![]
    } else if ts.len() == 1 {
        ts[0]
    } else {
        ts[0] + seq![' '] + join_fields(ts.drop_first())
    }
}

pub open spec fn clause_text(e: (Seq<char>, Seq<char>)) -> Seq<char> {
    e.0 + seq!['='] + e.1 + seq![';']
}

pub open spec fn clauses_text(es: Seq<(Seq<char>, Seq<char>)>) -> Seq<char>
    decreases es.len(),
{
    if es.len() == 0 {
        seq![]
    } else {
        clause_text(es[0]) + clauses_text(es.drop_first())
    }
}

pub open spec fn filter_text(f: FilterView) -> Seq<char> {
    match f {
        FilterView::DeviceRegex { envvar: Some(v), regex } => seq!['$'] + v + seq!['='] + regex,
        FilterView::DeviceRegex { envvar: None, regex } => regex,
        FilterView::MajMin(m) => seq!['@'] + decimal_text(m.maj as nat) + seq![','] + decimal_text(
            m.min as nat,
        ) + match m.min2 {
            Some(x) => seq!['-'] + decimal_text(x as nat),
            None => seq![],
        },
    }
}

/// The first field: stop marker, clauses and filter.
pub open spec fn head_text(c: ConfView) -> Seq<char> {
    (if c.stop {
        seq![]
    } else {
        seq!['-']
    }) + clauses_text(c.envmatches) + filter_text(c.filter)
}

pub open spec fn on_creation_text(o: OnCreationView) -> Seq<char> {
    match o {
        OnCreationView::Move(p) => seq!['='] + p,
        OnCreationView::SymLink(p) => seq!['>'] + p,
        OnCreationView::Prevent => seq!['!'],
    }
}

pub open spec fn when_char(w: WhenToRun) -> char {
    match w {
        WhenToRun::After => '@',
        WhenToRun::Before => '$',
        WhenToRun::Both => '*',
    }
}

/// The command field followed by its arguments.
pub open spec fn command_fields(c: CommandView) -> Seq<Seq<char>> {
    seq![seq![when_char(c.when)] + c.path] + c.args
}

/// The fields of the canonical line of `c`.
pub open spec fn conf_fields(c: ConfView) -> Seq<Seq<char>> {
    seq![head_text(c), c.user + seq![':'] + c.group, octal_text(c.mode as nat)] + match c.on_creation {
        Some(o) => seq![on_creation_text(o)],
        None => seq![],
    } + match c.command {
        Some(cmd) => command_fields(cmd),
        None => seq![],
    }
}

/// The canonical line of `c`.
pub open spec fn conf_text(c: ConfView) -> Seq<char> {
    join_fields(conf_fields(c))
}

/// The characters the printer writes one at a time.
pub open spec fn is_symbol(c: char) -> bool {
    ('0' <= c && c <= '9') || c == ' ' || c == '-' || c == '=' || c == ';' || c == '$' || c == '@'
        || c == ',' || c == ':' || c == '>' || c == '!' || c == '*'
}

/// A one-character string.
fn symbol(c: char) -> (r: &'static str)
    requires
        is_symbol(c),
    ensures
        r@ == seq![c],
{
    let r = match c {
        '0' => "0",
        '1' => "1",
        '2' => "2",
        '3' => "3",
        '4' => "4",
        '5' => "5",
        '6' => "6",
        '7' => "7",
        '8' => "8",
        '9' => "9",
        ' ' => " ",
        '-' => "-",
        '=' => "=",
        ';' => ";",
        '$' => "$",
        '@' => "@",
        ',' => ",",
        ':' => ":",
        '>' => ">",
        '!' => "!",
        _ => "*",
    };
    proof {
        reveal_strlit("0");
        reveal_strlit("1");
        reveal_strlit("2");
        reveal_strlit("3");
        reveal_strlit("4");
        reveal_strlit("5");
        reveal_strlit("6");
        reveal_strlit("7");
        reveal_strlit("8");
        reveal_strlit("9");
        reveal_strlit(" ");
        reveal_strlit("-");
        reveal_strlit("=");
        reveal_strlit(";");
        reveal_strlit("$");
        reveal_strlit("@");
        reveal_strlit(",");
        reveal_strlit(":");
        reveal_strlit(">");
        reveal_strlit("!");
        reveal_strlit("*");
    }
    assert(r@ =~= seq![c]);
    r
}

fn push_symbol(out: &mut String, c: char)
    requires
        is_symbol(c),
    ensures
        final(out)@ == old(out)@.push(c),
{
    out.append(symbol(c));
    assert(final(out)@ =~= old(out)@.push(c));
}

fn digit_exec(d: u32) -> (c: char)
    requires
        d < 10,
    ensures
        c == digit_char(d as nat),
        is_symbol(c),
{
    let c = ('0' as u8 + d as u8) as char;
    c
}

fn push_decimal(out: &mut String, n: u32)
    ensures
        final(out)@ == old(out)@ + decimal_text(n as nat),
    decreases n,
{
    if n >= 10 {
        push_decimal(out, n / 10);
    }
    push_symbol(out, digit_exec(n % 10));
    assert(final(out)@ =~= old(out)@ + decimal_text(n as nat));
}

fn push_octal(out: &mut String, n: u32)
    ensures
        final(out)@ == old(out)@ + octal_text(n as nat),
    decreases n,
{
    if n >= 512 {
        push_octal(out, n / 8);
    } else {
        push_symbol(out, digit_exec(n / 64));
        push_symbol(out, digit_exec((n / 8) % 8));
    }
    push_symbol(out, digit_exec(n % 8));
    assert(final(out)@ =~= old(out)@ + octal_text(n as nat));
}

pub proof fn lemma_join_push(ts: Seq<Seq<char>>, t: Seq<char>)
    requires
        ts.len() > 0,
    ensures
        join_fields(ts.push(t)) == join_fields(ts) + seq![' '] + t,
    decreases ts.len(),
{
    if ts.len() == 1 {
        assert(ts.push(t).drop_first() =~= seq![t]);
        assert(join_fields(seq![t]) == t);
        assert(ts[0] == ts.push(t)[0]);
        assert(join_fields(ts) == ts[0]);
    } else {
        assert(ts.push(t).drop_first() =~= ts.drop_first().push(t));
        lemma_join_push(ts.drop_first(), t);
        assert(ts.push(t)[0] == ts[0]);
        assert(join_fields(ts.push(t)) =~= join_fields(ts) + seq![' '] + t);
    }
}

pub proof fn lemma_clauses_push(es: Seq<(Seq<char>, Seq<char>)>, e: (Seq<char>, Seq<char>))
    ensures
        clauses_text(es.push(e)) == clauses_text(es) + clause_text(e),
    decreases es.len(),
{
    if es.len() == 0 {
        assert(es.push(e).drop_first() =~= seq![]);
        assert(clauses_text(seq![]) == Seq::<char>::empty());
        assert(clauses_text(es.push(e)) =~= clause_text(e));
        assert(clauses_text(es) == Seq::<char>::empty());
    } else {
        assert(es.push(e).drop_first() =~= es.drop_first().push(e));
        lemma_clauses_push(es.drop_first(), e);
        assert(es.push(e)[0] == es[0]);
        assert(clauses_text(es.push(e)) =~= clauses_text(es) + clause_text(e));
    }
}

/// Appends a field, after a space when `out` already holds some.
fn push_field(out: &mut String, fields: Ghost<Seq<Seq<char>>>, f: &str)
    requires
        fields@.len() > 0,
        old(out)@ == join_fields(fields@),
    ensures
        final(out)@ == join_fields(fields@.push(f@)),
{
    push_symbol(out, ' ');
    out.append(f);
    proof {
        lemma_join_push(fields@, f@);
    }
    assert(final(out)@ =~= join_fields(fields@.push(f@)));
}

impl Conf {
    /// The first field of the canonical line.
    fn head_string(&self) -> (r: String)
        ensures
            r@ == head_text(self@),
    {
        let mut out = String::new();
        if !self.stop {
            push_symbol(&mut out, '-');
        }
        let ghost lead = out@;
        let ghost es = self@.envmatches;
        let mut k: usize = 0;
        assert(es.take(0) =~= seq![]);
        while k < self.envmatches.len()
            invariant
                k <= self.envmatches.len(),
                es == self@.envmatches,
                es.len() == self.envmatches.len(),
                lead == (if self.stop {
                    seq![]
                } else {
                    seq!['-']
                }),
                out@ == lead + clauses_text(es.take(k as int)),
            decreases self.envmatches.len() - k,
        {
            let e = &self.envmatches[k];
            assert(es[k as int] == e@);
            out.append(e.envvar.as_str());
            push_symbol(&mut out, '=');
            out.append(source_text(&e.regex));
            push_symbol(&mut out, ';');
            proof {
                lemma_clauses_push(es.take(k as int), es[k as int]);
                assert(es.take(k + 1) =~= es.take(k as int).push(es[k as int]));
            }
            assert(out@ =~= lead + clauses_text(es.take(k + 1)));
            k = k + 1;
        }
        assert(es.take(k as int) =~= es);
        match &self.filter {
            Filter::DeviceRegex(d) => {
                match &d.envvar {
                    Some(v) => {
                        push_symbol(&mut out, '$');
                        out.append(v.as_str());
                        push_symbol(&mut out, '=');
                    },
                    None => {},
                }
                out.append(source_text(&d.regex));
            },
            Filter::MajMin(m) => {
                push_symbol(&mut out, '@');
                push_decimal(&mut out, m.maj);
                push_symbol(&mut out, ',');
                push_decimal(&mut out, m.min);
                match m.min2 {
                    Some(x) => {
                        push_symbol(&mut out, '-');
                        push_decimal(&mut out, x);
                    },
                    None => {},
                }
            },
        }
        assert(out@ =~= head_text(self@));
        out
    }

    /// The canonical rule line of this rule: fields separated by single
    /// spaces, the mode in (at least) three octal digits.
    pub fn to_string(&self) -> (r: String)
        ensures
            r@ == conf_text(self@),
    {
        let mut out = self.head_string();
        let ghost mut fields: Seq<Seq<char>> = seq![head_text(self@)];
        let mut user_group = self.user.clone();
        push_symbol(&mut user_group, ':');
        user_group.append(self.group.as_str());
        assert(user_group@ =~= self@.user + seq![':'] + self@.group);
        push_field(&mut out, Ghost(fields), user_group.as_str());
        proof {
            fields = fields.push(user_group@);
        }
        let mut mode = String::new();
        push_octal(&mut mode, self.mode);
        assert(mode@ =~= octal_text(self.mode as nat));
        push_field(&mut out, Ghost(fields), mode.as_str());
        proof {
            fields = fields.push(mode@);
        }
        assert(fields =~= seq![head_text(self@), self@.user + seq![':'] + self@.group, octal_text(self@.mode as nat)]);
        let ghost base = fields;
        match &self.on_creation {
            Some(o) => {
                let mut text = String::new();
                match o {
                    OnCreation::Move(p) => {
                        push_symbol(&mut text, '=');
                        text.append(p.as_str());
                    },
                    OnCreation::SymLink(p) => {
                        push_symbol(&mut text, '>');
                        text.append(p.as_str());
                    },
                    OnCreation::Prevent => {
                        push_symbol(&mut text, '!');
                    },
                }
                assert(text@ =~= on_creation_text(o@));
                push_field(&mut out, Ghost(fields), text.as_str());
                proof {
                    fields = fields.push(text@);
                }
            },
            None => {},
        }
        let ghost with_oc = fields;
        match &self.command {
            Some(c) => {
                let mut text = String::new();
                let w = match c.when {
                    WhenToRun::After => '@',
                    WhenToRun::Before => '$',
                    WhenToRun::Both => '*',
                };
                push_symbol(&mut text, w);
                text.append(c.path.as_str());
                push_field(&mut out, Ghost(fields), text.as_str());
                proof {
                    fields = fields.push(text@);
                }
                let ghost args = c@.args;
                let mut k: usize = 0;
                while k < c.args.len()
                    invariant
                        k <= c.args.len(),
                        args == c@.args,
                        args.len() == c.args.len(),
                        fields == with_oc + seq![seq![when_char(c.when)] + c.path@] + args.take(k as int),
                        fields.len() > 0,
                        out@ == join_fields(fields),
                    decreases c.args.len() - k,
                {
                    assert(args[k as int] == c.args[k as int]@);
                    push_field(&mut out, Ghost(fields), c.args[k].as_str());
                    proof {
                        fields = fields.push(c.args[k as int]@);
                        assert(args.take(k + 1) =~= args.take(k as int).push(args[k as int]));
                    }
                    assert(fields =~= with_oc + seq![seq![when_char(c.when)] + c.path@] + args.take(k + 1));
                    k = k + 1;
                }
                assert(args.take(k as int) =~= args);
            },
            None => {},
        }
        assert(fields =~= conf_fields(self@));
        out
    }
}

} // verus!
