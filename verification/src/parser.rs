//! Reading a pattern text.
//!
//! The functions of this module come in pairs: a mathematical function on
//! the characters of the text, which says what the text means, and an
//! executable function that computes it.

use crate::pattern::{ErrorKind, ParseError, Pattern, Syntax};
use vstd::prelude::*;
use vstd::string::StrSliceExecFns;

verus! {

/// White space between the parts of a pattern.
pub open spec fn is_space(c: char) -> bool {
    c == ' ' || c == '\t' || c == '\n' || c == '\r'
}

/// A decimal digit.
pub open spec fn is_digit(c: char) -> bool {
    48 <= c as u32 <= 57
}

/// A character that may start a name.
pub open spec fn is_name_start(c: char) -> bool {
    let x = c as u32;
    (65 <= x <= 90) || (97 <= x <= 122) || x == 95
}

/// A character that may stand in a name.
pub open spec fn is_name_part(c: char) -> bool {
    is_name_start(c) || is_digit(c)
}

/// The first position from `pos` on that holds no white space.
pub open spec fn skip_spaces(s: Seq<char>, pos: int) -> int
    decreases s.len() - pos,
{
    if 0 <= pos < s.len() && is_space(s[pos]) {
        skip_spaces(s, pos + 1)
    } else {
        pos
    }
}

/// After white space, the text goes on with the character `c`.
pub open spec fn next_is(s: Seq<char>, pos: int, c: char) -> bool {
    let p = skip_spaces(s, pos);
    0 <= p < s.len() && s[p] == c
}

/// The first position from `pos` on that holds no digit.
pub open spec fn digits_end(s: Seq<char>, pos: int) -> int
    decreases s.len() - pos,
{
    if 0 <= pos < s.len() && is_digit(s[pos]) {
        digits_end(s, pos + 1)
    } else {
        pos
    }
}

/// The number that the digits from `from` up to `to` write in decimal.
pub open spec fn number_value(s: Seq<char>, from: int, to: int) -> nat
    decreases to - from,
{
    if to <= from {
        0
    } else {
        number_value(s, from, to - 1) * 10 + (s[to - 1] as u32 - 48) as nat
    }
}

/// The position of the `]` that closes the bracket around `pos`, where
/// `depth` brackets were opened inside it before `pos`.
pub open spec fn bracket_end(s: Seq<char>, pos: int, depth: nat) -> Option<int>
    decreases s.len() - pos,
{
    if !(0 <= pos < s.len()) {
        None
    } else if s[pos] == ']' {
        if depth == 0 {
            Some(pos)
        } else {
            bracket_end(s, pos + 1, (depth - 1) as nat)
        }
    } else if s[pos] == '[' {
        bracket_end(s, pos + 1, depth + 1)
    } else {
        bracket_end(s, pos + 1, depth)
    }
}

/// The position of the first double quote from `pos` on.
pub open spec fn quote_end(s: Seq<char>, pos: int) -> Option<int>
    decreases s.len() - pos,
{
    if !(0 <= pos < s.len()) {
        None
    } else if s[pos] == '"' {
        Some(pos)
    } else {
        quote_end(s, pos + 1)
    }
}

/// The end of the text from `from` up to `to` without the white space at
/// its end.
pub open spec fn trim_end(s: Seq<char>, from: int, to: int) -> int
    decreases to - from,
{
    if from < to && 0 < to <= s.len() && is_space(s[to - 1]) {
        trim_end(s, from, to - 1)
    } else {
        to
    }
}

/// The text of a predicate: a name, or a closure, which starts with `|`.
pub open spec fn is_predicate_text(t: Seq<char>) -> bool {
    t.len() > 0 && (t[0] == '|' || (is_name_start(t[0]) && forall|i: int|
        1 <= i < t.len() ==> is_name_part(#[trigger] t[i])))
}

/// Skipping white space goes forward and stays in the text.
pub proof fn lemma_skip_spaces(s: Seq<char>, pos: int)
    requires
        0 <= pos <= s.len(),
    ensures
        pos <= skip_spaces(s, pos) <= s.len(),
    decreases s.len() - pos,
{
    if pos < s.len() && is_space(s[pos]) {
        lemma_skip_spaces(s, pos + 1);
    }
}

/// The end of a run of digits is not before its start and is in the text.
pub proof fn lemma_digits_end(s: Seq<char>, pos: int)
    requires
        0 <= pos <= s.len(),
    ensures
        pos <= digits_end(s, pos) <= s.len(),
    decreases s.len() - pos,
{
    if pos < s.len() && is_digit(s[pos]) {
        lemma_digits_end(s, pos + 1);
    }
}

/// The bracket that closes is in the text, at or behind the position asked.
pub proof fn lemma_bracket_end(s: Seq<char>, pos: int, depth: nat)
    requires
        0 <= pos <= s.len(),
    ensures
        bracket_end(s, pos, depth) matches Some(e) ==> pos <= e < s.len(),
    decreases s.len() - pos,
{
    if pos < s.len() {
        if s[pos] == ']' {
            if depth > 0 {
                lemma_bracket_end(s, pos + 1, (depth - 1) as nat);
            }
        } else if s[pos] == '[' {
            lemma_bracket_end(s, pos + 1, depth + 1);
        } else {
            lemma_bracket_end(s, pos + 1, depth);
        }
    }
}

/// The quote that closes is in the text, at or behind the position asked.
pub proof fn lemma_quote_end(s: Seq<char>, pos: int)
    requires
        0 <= pos <= s.len(),
    ensures
        quote_end(s, pos) matches Some(e) ==> pos <= e < s.len(),
    decreases s.len() - pos,
{
    if pos < s.len() && s[pos] != '"' {
        lemma_quote_end(s, pos + 1);
    }
}

/// Trimming leaves an end between the start and the old end.
pub proof fn lemma_trim_end(s: Seq<char>, from: int, to: int)
    requires
        0 <= from <= to <= s.len(),
    ensures
        from <= trim_end(s, from, to) <= to,
    decreases to - from,
{
    if from < to && is_space(s[to - 1]) {
        lemma_trim_end(s, from, to - 1);
    }
}

/// Whether `c` is white space.
fn space(c: char) -> (r: bool)
    ensures
        r == is_space(c),
{
    c == ' ' || c == '\t' || c == '\n' || c == '\r'
}

/// Whether `c` is a decimal digit.
fn digit(c: char) -> (r: bool)
    ensures
        r == is_digit(c),
{
    let x = c as u32;
    48 <= x && x <= 57
}

/// Whether `c` may stand in a name, and whether it may start one.
fn name_part(c: char) -> (r: (bool, bool))
    ensures
        r.0 == is_name_part(c),
        r.1 == is_name_start(c),
{
    let x = c as u32;
    let start = (65 <= x && x <= 90) || (97 <= x && x <= 122) || x == 95;
    (start || (48 <= x && x <= 57), start)
}

/// The first position from `pos` on that holds no white space.
fn skip(text: &str, len: usize, pos: usize) -> (p: usize)
    requires
        len == text@.len(),
        pos <= len,
    ensures
        p == skip_spaces(text@, pos as int),
        pos <= p <= len,
{
    let mut p = pos;
    while p < len && space(text.get_char(p))
        invariant
            len == text@.len(),
            pos <= p <= len,
            skip_spaces(text@, pos as int) == skip_spaces(text@, p as int),
        decreases len - p,
    {
        p += 1;
    }
    p
}

/// Whether, after white space, the text goes on with `c`; and the position
/// of that character.
fn looking_at(text: &str, len: usize, pos: usize, c: char) -> (r: (bool, usize))
    requires
        len == text@.len(),
        pos <= len,
    ensures
        r.0 == next_is(text@, pos as int, c),
        r.1 == skip_spaces(text@, pos as int),
        pos <= r.1 <= len,
        r.0 ==> r.1 < len,
{
    let p = skip(text, len, pos);
    (p < len && text.get_char(p) == c, p)
}

} // verus!

verus! {

/// What was read from a text: a pattern, and the position behind it.
pub struct Parsed {
    pub tree: Syntax,
    pub next: int,
}

/// What is wrong with a text, and where.
pub struct Failure {
    pub position: int,
    pub kind: ErrorKind,
}

/// Reading went well.
pub open spec fn done(tree: Syntax, next: int) -> Result<Parsed, Failure> {
    Ok(Parsed { tree, next })
}

/// Reading went wrong.
pub open spec fn fail(position: int, kind: ErrorKind) -> Result<Parsed, Failure> {
    Err(Failure { position, kind })
}

/// The executable result `res` is the mathematical result `spec`.
pub open spec fn agrees(res: Result<(Pattern, usize), ParseError>, spec: Result<Parsed, Failure>) -> bool {
    match (res, spec) {
        (Ok(r), Ok(p)) => r.0@ == p.tree && r.1 == p.next,
        (Err(e), Err(f)) => e.position == f.position && e.kind == f.kind,
        _ => false,
    }
}

/// A count read from the text: its value and the position behind it, or
/// what is wrong.
pub open spec fn read_number(s: Seq<char>, pos: int, missing: ErrorKind) -> Result<
    (nat, int),
    Failure,
> {
    let a = skip_spaces(s, pos);
    let e = digits_end(s, a);
    if e == a {
        Err(Failure { position: a, kind: missing })
    } else if number_value(s, a, e) > usize::MAX {
        Err(Failure { position: a, kind: ErrorKind::NumberTooLarge })
    } else {
        Ok((number_value(s, a, e), e))
    }
}

/// Whether the repetition that ends before `pos` is greedy, and where the
/// text goes on: a `?` makes it lazy and is passed over.
pub open spec fn read_greedy(s: Seq<char>, pos: int) -> (bool, int) {
    if next_is(s, pos, '?') {
        (false, skip_spaces(s, pos) + 1)
    } else {
        (true, pos)
    }
}

/// The repetition in braces that starts with the `{` at `q`, applied to
/// `atom`.
pub open spec fn read_braces(s: Seq<char>, q: int, atom: Syntax) -> Result<Parsed, Failure> {
    match read_number(s, q + 1, ErrorKind::ExpectedNumber) {
        Err(f) => Err(f),
        Ok((n, e)) => {
            let b = skip_spaces(s, e);
            if next_is(s, e, '}') {
                let (_, next) = read_greedy(s, b + 1);
                done(Syntax::RepeatN(Box::new(atom), n), next)
            } else if next_is(s, e, ',') {
                let c = skip_spaces(s, b + 1);
                if next_is(s, b + 1, '}') {
                    let (greedy, next) = read_greedy(s, c + 1);
                    done(Syntax::RepeatMinMax(Box::new(atom), n, None, greedy), next)
                } else {
                    match read_number(s, b + 1, ErrorKind::ExpectedNumberOrEmpty) {
                        Err(f) => Err(f),
                        Ok((m, e2)) => {
                            let d = skip_spaces(s, e2);
                            if !next_is(s, e2, '}') {
                                fail(d, ErrorKind::UnclosedBrace)
                            } else if m < n {
                                fail(c, ErrorKind::BoundsOutOfOrder)
                            } else {
                                let (greedy, next) = read_greedy(s, d + 1);
                                done(
                                    Syntax::RepeatMinMax(Box::new(atom), n, Some(m), greedy),
                                    next,
                                )
                            }
                        },
                    }
                }
            } else {
                fail(b, ErrorKind::UnclosedBrace)
            }
        },
    }
}

/// The repetition mark behind an atom that ends before `pos`, applied to
/// `atom`; the atom itself where no mark follows.
pub open spec fn read_meta(s: Seq<char>, pos: int, atom: Syntax) -> Result<Parsed, Failure> {
    let q = skip_spaces(s, pos);
    if next_is(s, pos, '?') {
        let (greedy, next) = read_greedy(s, q + 1);
        done(Syntax::ZeroOrOne(Box::new(atom), greedy), next)
    } else if next_is(s, pos, '*') {
        let (greedy, next) = read_greedy(s, q + 1);
        done(Syntax::Repeat0(Box::new(atom), greedy), next)
    } else if next_is(s, pos, '+') {
        let (greedy, next) = read_greedy(s, q + 1);
        done(Syntax::Repeat1(Box::new(atom), greedy), next)
    } else if next_is(s, pos, '{') {
        read_braces(s, q, atom)
    } else {
        done(atom, pos)
    }
}

/// The predicate in brackets that starts with the `[` at `p`.
pub open spec fn read_class(s: Seq<char>, p: int) -> Result<Parsed, Failure> {
    let q = skip_spaces(s, p + 1);
    let negated = next_is(s, p + 1, '^');
    let from = if negated {
        skip_spaces(s, q + 1)
    } else {
        q
    };
    match bracket_end(s, from, 0) {
        None => fail(p, ErrorKind::UnclosedBracket),
        Some(close) => {
            let text = s.subrange(from, trim_end(s, from, close));
            if !is_predicate_text(text) {
                fail(from, ErrorKind::ExpectedPredicate)
            } else if negated {
                done(Syntax::NotSatisfy(text), close + 1)
            } else {
                done(Syntax::Satisfy(text), close + 1)
            }
        },
    }
}

/// The kinds of groups.
pub enum GroupKind {
    Capturing,
    NonCapturing,
    Named(Seq<char>),
}

/// The kind of the group that starts with the `(` at `p`, and the position
/// at which its content starts.
pub open spec fn read_group_head(s: Seq<char>, p: int) -> Result<(GroupKind, int), Failure> {
    if !next_is(s, p + 1, '?') {
        Ok((GroupKind::Capturing, p + 1))
    } else {
        let q = skip_spaces(s, p + 1);
        let q1 = skip_spaces(s, q + 1);
        if next_is(s, q + 1, ':') {
            Ok((GroupKind::NonCapturing, q1 + 1))
        } else if next_is(s, q + 1, 'P') {
            let q2 = skip_spaces(s, q1 + 1);
            if !next_is(s, q1 + 1, '<') {
                Err(Failure { position: q2, kind: ErrorKind::ExpectedLess })
            } else {
                let q3 = skip_spaces(s, q2 + 1);
                if !next_is(s, q2 + 1, '"') {
                    Err(Failure { position: q3, kind: ErrorKind::ExpectedName })
                } else {
                    match quote_end(s, q3 + 1) {
                        None => Err(Failure { position: q3, kind: ErrorKind::ExpectedName }),
                        Some(qe) => {
                            let q4 = skip_spaces(s, qe + 1);
                            if !next_is(s, qe + 1, '>') {
                                Err(Failure { position: q4, kind: ErrorKind::ExpectedGreater })
                            } else {
                                Ok((GroupKind::Named(s.subrange(q3 + 1, qe)), q4 + 1))
                            }
                        },
                    }
                }
            }
        } else {
            Err(Failure { position: q1, kind: ErrorKind::ExpectedGroupKind })
        }
    }
}

/// The group of kind `kind` around `body`.
pub open spec fn wrap_group(kind: GroupKind, body: Syntax) -> Syntax {
    match kind {
        GroupKind::Capturing => Syntax::Group(Box::new(body)),
        GroupKind::NonCapturing => Syntax::NonCapturingGroup(Box::new(body)),
        GroupKind::Named(name) => Syntax::NamedGroup(name, Box::new(body)),
    }
}

/// After white space, the text goes on with a character that starts a
/// factor.
pub open spec fn starts_factor(s: Seq<char>, pos: int) -> bool {
    next_is(s, pos, '^') || next_is(s, pos, '$') || next_is(s, pos, '.') || next_is(s, pos, '[')
        || next_is(s, pos, '(')
}

/// The content of a group starts behind its `(`.
pub proof fn lemma_group_head(s: Seq<char>, p: int)
    requires
        0 <= p < s.len(),
    ensures
        read_group_head(s, p) matches Ok(h) ==> p < h.1 <= s.len(),
{
    lemma_skip_spaces(s, p + 1);
    let q = skip_spaces(s, p + 1);
    if next_is(s, p + 1, '?') {
        lemma_skip_spaces(s, q + 1);
        let q1 = skip_spaces(s, q + 1);
        if next_is(s, q + 1, 'P') {
            lemma_skip_spaces(s, q1 + 1);
            let q2 = skip_spaces(s, q1 + 1);
            if next_is(s, q1 + 1, '<') {
                lemma_skip_spaces(s, q2 + 1);
                let q3 = skip_spaces(s, q2 + 1);
                if next_is(s, q2 + 1, '"') {
                    lemma_quote_end(s, q3 + 1);
                    if quote_end(s, q3 + 1) is Some {
                        lemma_skip_spaces(s, quote_end(s, q3 + 1)->0 + 1);
                    }
                }
            }
        }
    }
}

/// An alternation: terms with `|` between them.
pub open spec fn read_expr(s: Seq<char>, pos: int) -> Result<Parsed, Failure>
    decreases s.len() - pos, 6nat,
{
    if !(0 <= pos <= s.len()) {
        fail(pos, ErrorKind::ExpectedAtom)
    } else {
        match read_term(s, pos) {
            Err(f) => Err(f),
            Ok(t) => if pos <= t.next <= s.len() {
                read_expr_rest(s, t.next, t.tree)
            } else {
                Ok(t)
            },
        }
    }
}

/// The rest of an alternation of which `acc` was read before `pos`.
pub open spec fn read_expr_rest(s: Seq<char>, pos: int, acc: Syntax) -> Result<Parsed, Failure>
    decreases s.len() - pos, 5nat,
{
    let p = skip_spaces(s, pos);
    if !(0 <= pos <= s.len()) || !next_is(s, pos, '|') || !(pos <= p) {
        done(acc, pos)
    } else {
        match read_term(s, p + 1) {
            Err(f) => Err(f),
            Ok(t) => if pos < t.next <= s.len() {
                read_expr_rest(s, t.next, Syntax::Or(Box::new(acc), Box::new(t.tree)))
            } else {
                Ok(t)
            },
        }
    }
}

/// A concatenation: one factor or several in a row.
pub open spec fn read_term(s: Seq<char>, pos: int) -> Result<Parsed, Failure>
    decreases s.len() - pos, 4nat,
{
    if !(0 <= pos <= s.len()) {
        fail(pos, ErrorKind::ExpectedAtom)
    } else {
        match read_factor(s, pos) {
            Err(f) => Err(f),
            Ok(f) => if pos <= f.next <= s.len() {
                read_term_rest(s, f.next, f.tree)
            } else {
                Ok(f)
            },
        }
    }
}

/// The rest of a concatenation of which `acc` was read before `pos`.
pub open spec fn read_term_rest(s: Seq<char>, pos: int, acc: Syntax) -> Result<Parsed, Failure>
    decreases s.len() - pos, 3nat,
{
    if !(0 <= pos <= s.len()) || !starts_factor(s, pos) {
        done(acc, pos)
    } else {
        match read_factor(s, pos) {
            Err(f) => Err(f),
            Ok(f) => if pos < f.next <= s.len() {
                read_term_rest(s, f.next, Syntax::Concat(Box::new(acc), Box::new(f.tree)))
            } else {
                Ok(f)
            },
        }
    }
}

/// A factor: an anchor, or an atom with the repetition mark behind it.
pub open spec fn read_factor(s: Seq<char>, pos: int) -> Result<Parsed, Failure>
    decreases s.len() - pos, 2nat,
{
    let p = skip_spaces(s, pos);
    if !(0 <= pos <= s.len()) {
        fail(pos, ErrorKind::ExpectedAtom)
    } else if next_is(s, pos, '^') {
        done(Syntax::Begin, p + 1)
    } else if next_is(s, pos, '$') {
        done(Syntax::End, p + 1)
    } else {
        match read_atom(s, pos) {
            Err(f) => Err(f),
            Ok(a) => read_meta(s, a.next, a.tree),
        }
    }
}

/// An atom: `.`, a predicate in brackets, or a group.
pub open spec fn read_atom(s: Seq<char>, pos: int) -> Result<Parsed, Failure>
    decreases s.len() - pos, 1nat,
{
    let p = skip_spaces(s, pos);
    if !(0 <= pos <= s.len()) {
        fail(pos, ErrorKind::ExpectedAtom)
    } else if next_is(s, pos, '.') {
        done(Syntax::Any, p + 1)
    } else if next_is(s, pos, '[') {
        read_class(s, p)
    } else if next_is(s, pos, '(') {
        match read_group_head(s, p) {
            Err(f) => Err(f),
            Ok((kind, start)) => {
                if !(pos < start <= s.len()) {
                    fail(p, ErrorKind::UnclosedGroup)
                } else {
                    match read_expr(s, start) {
                        Err(f) => Err(f),
                        Ok(body) => {
                            if next_is(s, body.next, ')') {
                                done(wrap_group(kind, body.tree), skip_spaces(s, body.next) + 1)
                            } else {
                                fail(skip_spaces(s, body.next), ErrorKind::UnclosedGroup)
                            }
                        },
                    }
                }
            },
        }
    } else {
        fail(p, ErrorKind::ExpectedAtom)
    }
}

/// The pattern that the whole text writes.
pub open spec fn read_pattern(s: Seq<char>) -> Result<Syntax, Failure> {
    match read_expr(s, 0) {
        Err(f) => Err(f),
        Ok(e) => {
            let p = skip_spaces(s, e.next);
            if 0 <= p < s.len() {
                Err(Failure { position: p, kind: ErrorKind::UnexpectedTokens })
            } else {
                Ok(e.tree)
            }
        },
    }
}

} // verus!

verus! {

/// The value of a run of digits grows with its length.
proof fn lemma_number_grows(s: Seq<char>, from: int, to: int)
    requires
        0 <= from <= to < s.len(),
        is_digit(s[to]),
    ensures
        number_value(s, from, to + 1) == number_value(s, from, to) * 10 + (s[to] as u32 - 48),
        number_value(s, from, to + 1) >= number_value(s, from, to),
{
}

/// The end of a run of digits, seen from inside the run.
proof fn lemma_digits_end_from(s: Seq<char>, from: int, p: int)
    requires
        0 <= from <= p <= s.len(),
        forall|i: int| from <= i < p ==> is_digit(s[i]),
    ensures
        digits_end(s, from) == digits_end(s, p),
    decreases p - from,
{
    if from < p {
        lemma_digits_end_from(s, from + 1, p);
    }
}

/// Reads a count.
fn parse_number(text: &str, len: usize, pos: usize, missing: ErrorKind) -> (res: Result<
    (usize, usize),
    ParseError,
>)
    requires
        len == text@.len(),
        pos <= len,
    ensures
        match (res, read_number(text@, pos as int, missing)) {
            (Ok(r), Ok(p)) => r.0 == p.0 && r.1 == p.1 && pos <= r.1 <= len,
            (Err(e), Err(f)) => e.position == f.position && e.kind == f.kind,
            _ => false,
        },
{
    let a = skip(text, len, pos);
    let mut p = a;
    let mut value: usize = 0;
    let mut too_large = false;
    while p < len && digit(text.get_char(p))
        invariant
            len == text@.len(),
            a <= p <= len,
            forall|i: int| a <= i < p ==> is_digit(text@[i]),
            !too_large ==> value == number_value(text@, a as int, p as int),
            too_large ==> number_value(text@, a as int, p as int) > usize::MAX,
        decreases len - p,
    {
        let d = (text.get_char(p) as u32 - 48) as usize;
        proof {
            lemma_number_grows(text@, a as int, p as int);
        }
        if !too_large {
            if value > (usize::MAX - d) / 10 {
                too_large = true;
            } else {
                value = value * 10 + d;
            }
        }
        p += 1;
    }
    proof {
        lemma_digits_end_from(text@, a as int, p as int);
    }
    if p == a {
        Err(ParseError { position: a, kind: missing })
    } else if too_large {
        Err(ParseError { position: a, kind: ErrorKind::NumberTooLarge })
    } else {
        Ok((value, p))
    }
}

/// Reads the `?` that makes a repetition lazy, where there is one.
fn parse_greedy(text: &str, len: usize, pos: usize) -> (r: (bool, usize))
    requires
        len == text@.len(),
        pos <= len,
    ensures
        r.0 == read_greedy(text@, pos as int).0,
        r.1 == read_greedy(text@, pos as int).1,
        pos <= r.1 <= len,
{
    let (lazy, p) = looking_at(text, len, pos, '?');
    if lazy {
        (false, p + 1)
    } else {
        (true, pos)
    }
}

/// Reads the repetition in braces that starts with the `{` at `q`.
fn parse_braces(text: &str, len: usize, q: usize, atom: Pattern) -> (res: Result<
    (Pattern, usize),
    ParseError,
>)
    requires
        len == text@.len(),
        q < len,
    ensures
        agrees(res, read_braces(text@, q as int, atom@)),
        res matches Ok(r) ==> q < r.1 <= len,
{
    let (n, e) = match parse_number(text, len, q + 1, ErrorKind::ExpectedNumber) {
        Ok(r) => r,
        Err(err) => {
            return Err(err);
        },
    };
    let (closes, b) = looking_at(text, len, e, '}');
    if closes {
        let (_, next) = parse_greedy(text, len, b + 1);
        return Ok((Pattern::RepeatN(Box::new(atom), n), next));
    }
    let (comma, _) = looking_at(text, len, e, ',');
    if !comma {
        return Err(ParseError { position: b, kind: ErrorKind::UnclosedBrace });
    }
    let (closes, c) = looking_at(text, len, b + 1, '}');
    if closes {
        let (greedy, next) = parse_greedy(text, len, c + 1);
        return Ok((Pattern::RepeatMinMax(Box::new(atom), n, None, greedy), next));
    }
    let (m, e2) = match parse_number(text, len, b + 1, ErrorKind::ExpectedNumberOrEmpty) {
        Ok(r) => r,
        Err(err) => {
            return Err(err);
        },
    };
    let (closes, d) = looking_at(text, len, e2, '}');
    if !closes {
        return Err(ParseError { position: d, kind: ErrorKind::UnclosedBrace });
    }
    if m < n {
        return Err(ParseError { position: c, kind: ErrorKind::BoundsOutOfOrder });
    }
    let (greedy, next) = parse_greedy(text, len, d + 1);
    Ok((Pattern::RepeatMinMax(Box::new(atom), n, Some(m), greedy), next))
}

/// Reads the repetition mark behind an atom, where there is one.
fn parse_optional_meta_character(text: &str, len: usize, pos: usize, atom: Pattern) -> (res: Result<
    (Pattern, usize),
    ParseError,
>)
    requires
        len == text@.len(),
        pos <= len,
    ensures
        agrees(res, read_meta(text@, pos as int, atom@)),
        res matches Ok(r) ==> pos <= r.1 <= len,
{
    let (question, q) = looking_at(text, len, pos, '?');
    if question {
        let (greedy, next) = parse_greedy(text, len, q + 1);
        return Ok((Pattern::ZeroOrOne(Box::new(atom), greedy), next));
    }
    let (star, _) = looking_at(text, len, pos, '*');
    if star {
        let (greedy, next) = parse_greedy(text, len, q + 1);
        return Ok((Pattern::Repeat0(Box::new(atom), greedy), next));
    }
    let (plus, _) = looking_at(text, len, pos, '+');
    if plus {
        let (greedy, next) = parse_greedy(text, len, q + 1);
        return Ok((Pattern::Repeat1(Box::new(atom), greedy), next));
    }
    let (brace, _) = looking_at(text, len, pos, '{');
    if brace {
        return parse_braces(text, len, q, atom);
    }
    Ok((atom, pos))
}

} // verus!

verus! {

/// The kind of a group as it was read.
pub enum Kind {
    Capturing,
    NonCapturing,
    Named(String),
}

impl View for Kind {
    type V = GroupKind;

    open spec fn view(&self) -> GroupKind {
        match self {
            Kind::Capturing => GroupKind::Capturing,
            Kind::NonCapturing => GroupKind::NonCapturing,
            Kind::Named(name) => GroupKind::Named(name@),
        }
    }
}

/// Finds the `]` that closes the bracket whose content starts at `from`.
fn find_bracket_end(text: &str, len: usize, from: usize) -> (res: Option<usize>)
    requires
        len == text@.len(),
        from <= len,
    ensures
        match (res, bracket_end(text@, from as int, 0)) {
            (Some(e), Some(f)) => e == f && from <= e < len,
            (None, None) => true,
            _ => false,
        },
{
    let mut p = from;
    let mut depth: usize = 0;
    while p < len
        invariant
            len == text@.len(),
            from <= p <= len,
            depth <= p - from,
            bracket_end(text@, from as int, 0) == bracket_end(text@, p as int, depth as nat),
        decreases len - p,
    {
        let c = text.get_char(p);
        if c == ']' {
            if depth == 0 {
                return Some(p);
            }
            depth -= 1;
        } else if c == '[' {
            depth += 1;
        }
        p += 1;
    }
    None
}

/// Finds the first double quote from `from` on.
fn find_quote(text: &str, len: usize, from: usize) -> (res: Option<usize>)
    requires
        len == text@.len(),
        from <= len,
    ensures
        match (res, quote_end(text@, from as int)) {
            (Some(e), Some(f)) => e == f && from <= e < len,
            (None, None) => true,
            _ => false,
        },
{
    let mut p = from;
    while p < len
        invariant
            len == text@.len(),
            from <= p <= len,
            quote_end(text@, from as int) == quote_end(text@, p as int),
        decreases len - p,
    {
        if text.get_char(p) == '"' {
            return Some(p);
        }
        p += 1;
    }
    None
}

/// The end of the text from `from` up to `to` without the white space at
/// its end.
fn trim(text: &str, len: usize, from: usize, to: usize) -> (end: usize)
    requires
        len == text@.len(),
        from <= to <= len,
    ensures
        end == trim_end(text@, from as int, to as int),
        from <= end <= to,
{
    let mut end = to;
    while from < end && space(text.get_char(end - 1))
        invariant
            len == text@.len(),
            from <= end <= to <= len,
            trim_end(text@, from as int, to as int) == trim_end(text@, from as int, end as int),
        decreases end - from,
    {
        end -= 1;
    }
    end
}

/// Whether the text from `from` up to `to` is the text of a predicate.
fn predicate_text(text: &str, len: usize, from: usize, to: usize) -> (r: bool)
    requires
        len == text@.len(),
        from <= to <= len,
    ensures
        r == is_predicate_text(text@.subrange(from as int, to as int)),
{
    let ghost t = text@.subrange(from as int, to as int);
    if from == to {
        return false;
    }
    let first = text.get_char(from);
    assert(t[0] == first);
    if first == '|' {
        return true;
    }
    if !name_part(first).1 {
        return false;
    }
    let mut p = from + 1;
    while p < to
        invariant
            len == text@.len(),
            from < p <= to <= len,
            t == text@.subrange(from as int, to as int),
            t[0] != '|',
            is_name_start(t[0]),
            forall|i: int| 1 <= i < p - from ==> is_name_part(#[trigger] t[i]),
        decreases to - p,
    {
        if !name_part(text.get_char(p)).0 {
            assert(t[p - from] == text@[p as int]);
            return false;
        }
        assert(t[p - from] == text@[p as int]);
        p += 1;
    }
    true
}

/// Reads `.`, where the text goes on with it.
fn parse_any(text: &str, len: usize, pos: usize) -> (res: Option<(Pattern, usize)>)
    requires
        len == text@.len(),
        pos <= len,
    ensures
        res is Some == next_is(text@, pos as int, '.'),
        res matches Some(r) ==> r.0@ == Syntax::Any && r.1 == skip_spaces(text@, pos as int) + 1
            && pos < r.1 <= len,
{
    let (dot, p) = looking_at(text, len, pos, '.');
    if dot {
        Some((Pattern::Any, p + 1))
    } else {
        None
    }
}

/// Reads the predicate in brackets that starts with the `[` at `p`.
fn parse_satisfy(text: &str, len: usize, p: usize) -> (res: Result<(Pattern, usize), ParseError>)
    requires
        len == text@.len(),
        p < len,
    ensures
        agrees(res, read_class(text@, p as int)),
        res matches Ok(r) ==> p < r.1 <= len,
{
    let (negated, q) = looking_at(text, len, p + 1, '^');
    let from = if negated {
        skip(text, len, q + 1)
    } else {
        q
    };
    match find_bracket_end(text, len, from) {
        None => Err(ParseError { position: p, kind: ErrorKind::UnclosedBracket }),
        Some(close) => {
            let to = trim(text, len, from, close);
            if !predicate_text(text, len, from, to) {
                Err(ParseError { position: from, kind: ErrorKind::ExpectedPredicate })
            } else {
                let name = text.substring_char(from, to).to_owned();
                if negated {
                    Ok((Pattern::NotSatisfy(name), close + 1))
                } else {
                    Ok((Pattern::Satisfy(name), close + 1))
                }
            }
        },
    }
}

/// Reads what stands between the `(` at `p` and the content of the group.
fn parse_group_head(text: &str, len: usize, p: usize) -> (res: Result<(Kind, usize), ParseError>)
    requires
        len == text@.len(),
        p < len,
    ensures
        match (res, read_group_head(text@, p as int)) {
            (Ok(r), Ok(h)) => r.0@ == h.0 && r.1 == h.1 && p < r.1 <= len,
            (Err(e), Err(f)) => e.position == f.position && e.kind == f.kind,
            _ => false,
        },
{
    let (question, q) = looking_at(text, len, p + 1, '?');
    if !question {
        return Ok((Kind::Capturing, p + 1));
    }
    let (colon, q1) = looking_at(text, len, q + 1, ':');
    if colon {
        return Ok((Kind::NonCapturing, q1 + 1));
    }
    let (named, _) = looking_at(text, len, q + 1, 'P');
    if !named {
        return Err(ParseError { position: q1, kind: ErrorKind::ExpectedGroupKind });
    }
    let (less, q2) = looking_at(text, len, q1 + 1, '<');
    if !less {
        return Err(ParseError { position: q2, kind: ErrorKind::ExpectedLess });
    }
    let (quote, q3) = looking_at(text, len, q2 + 1, '"');
    if !quote {
        return Err(ParseError { position: q3, kind: ErrorKind::ExpectedName });
    }
    let qe = match find_quote(text, len, q3 + 1) {
        Some(qe) => qe,
        None => {
            return Err(ParseError { position: q3, kind: ErrorKind::ExpectedName });
        },
    };
    let (greater, q4) = looking_at(text, len, qe + 1, '>');
    if !greater {
        return Err(ParseError { position: q4, kind: ErrorKind::ExpectedGreater });
    }
    let name = text.substring_char(q3 + 1, qe).to_owned();
    Ok((Kind::Named(name), q4 + 1))
}

/// The group of kind `kind` around `body`.
fn group_of(kind: Kind, body: Pattern) -> (res: Pattern)
    ensures
        res@ == wrap_group(kind@, body@),
{
    match kind {
        Kind::Capturing => Pattern::Group(Box::new(body)),
        Kind::NonCapturing => Pattern::NonCapturingGroup(Box::new(body)),
        Kind::Named(name) => Pattern::NamedGroup(name, Box::new(body)),
    }
}

/// Whether, after white space, the text goes on with a factor.
fn at_factor(text: &str, len: usize, pos: usize) -> (r: bool)
    requires
        len == text@.len(),
        pos <= len,
    ensures
        r == starts_factor(text@, pos as int),
{
    let p = skip(text, len, pos);
    if p < len {
        let c = text.get_char(p);
        c == '^' || c == '$' || c == '.' || c == '[' || c == '('
    } else {
        false
    }
}

/// Reads an atom: `.`, a predicate in brackets, or a group.
fn parse_atom(text: &str, len: usize, pos: usize) -> (res: Result<(Pattern, usize), ParseError>)
    requires
        len == text@.len(),
        pos <= len,
    ensures
        agrees(res, read_atom(text@, pos as int)),
        res matches Ok(r) ==> pos < r.1 <= len,
    decreases len - pos, 1nat,
{
    match parse_any(text, len, pos) {
        Some(r) => {
            return Ok(r);
        },
        None => {},
    }
    let (bracket, p) = looking_at(text, len, pos, '[');
    if bracket {
        return parse_satisfy(text, len, p);
    }
    let (paren, _) = looking_at(text, len, pos, '(');
    if !paren {
        return Err(ParseError { position: p, kind: ErrorKind::ExpectedAtom });
    }
    let (kind, start) = match parse_group_head(text, len, p) {
        Ok(r) => r,
        Err(err) => {
            return Err(err);
        },
    };
    let (body, next) = match parse_expr(text, len, start) {
        Ok(r) => r,
        Err(err) => {
            return Err(err);
        },
    };
    let (closes, c) = looking_at(text, len, next, ')');
    if closes {
        Ok((group_of(kind, body), c + 1))
    } else {
        Err(ParseError { position: c, kind: ErrorKind::UnclosedGroup })
    }
}

/// Reads a factor: an anchor, or an atom with the repetition mark behind it.
fn parse_factor(text: &str, len: usize, pos: usize) -> (res: Result<(Pattern, usize), ParseError>)
    requires
        len == text@.len(),
        pos <= len,
    ensures
        agrees(res, read_factor(text@, pos as int)),
        res matches Ok(r) ==> pos < r.1 <= len,
    decreases len - pos, 2nat,
{
    let (caret, p) = looking_at(text, len, pos, '^');
    if caret {
        return Ok((Pattern::Begin, p + 1));
    }
    let (dollar, _) = looking_at(text, len, pos, '$');
    if dollar {
        return Ok((Pattern::End, p + 1));
    }
    match parse_atom(text, len, pos) {
        Ok((atom, next)) => parse_optional_meta_character(text, len, next, atom),
        Err(err) => Err(err),
    }
}

/// Reads the rest of a concatenation of which `acc` was read before `pos`.
fn parse_term_rest(text: &str, len: usize, pos: usize, acc: Pattern) -> (res: Result<
    (Pattern, usize),
    ParseError,
>)
    requires
        len == text@.len(),
        pos <= len,
    ensures
        agrees(res, read_term_rest(text@, pos as int, acc@)),
        res matches Ok(r) ==> pos <= r.1 <= len,
    decreases len - pos, 3nat,
{
    if !at_factor(text, len, pos) {
        return Ok((acc, pos));
    }
    match parse_factor(text, len, pos) {
        Ok((factor, next)) => parse_term_rest(
            text,
            len,
            next,
            Pattern::Concat(Box::new(acc), Box::new(factor)),
        ),
        Err(err) => Err(err),
    }
}

/// Reads a concatenation: one factor or several in a row.
fn parse_term(text: &str, len: usize, pos: usize) -> (res: Result<(Pattern, usize), ParseError>)
    requires
        len == text@.len(),
        pos <= len,
    ensures
        agrees(res, read_term(text@, pos as int)),
        res matches Ok(r) ==> pos < r.1 <= len,
    decreases len - pos, 4nat,
{
    match parse_factor(text, len, pos) {
        Ok((factor, next)) => parse_term_rest(text, len, next, factor),
        Err(err) => Err(err),
    }
}

/// Reads the rest of an alternation of which `acc` was read before `pos`.
fn parse_expr_rest(text: &str, len: usize, pos: usize, acc: Pattern) -> (res: Result<
    (Pattern, usize),
    ParseError,
>)
    requires
        len == text@.len(),
        pos <= len,
    ensures
        agrees(res, read_expr_rest(text@, pos as int, acc@)),
        res matches Ok(r) ==> pos <= r.1 <= len,
    decreases len - pos, 5nat,
{
    let (bar, p) = looking_at(text, len, pos, '|');
    if !bar {
        return Ok((acc, pos));
    }
    match parse_term(text, len, p + 1) {
        Ok((term, next)) => parse_expr_rest(
            text,
            len,
            next,
            Pattern::Or(Box::new(acc), Box::new(term)),
        ),
        Err(err) => Err(err),
    }
}

/// Reads an alternation: terms with `|` between them.
fn parse_expr(text: &str, len: usize, pos: usize) -> (res: Result<(Pattern, usize), ParseError>)
    requires
        len == text@.len(),
        pos <= len,
    ensures
        agrees(res, read_expr(text@, pos as int)),
        res matches Ok(r) ==> pos < r.1 <= len,
    decreases len - pos, 6nat,
{
    match parse_term(text, len, pos) {
        Ok((term, next)) => parse_expr_rest(text, len, next, term),
        Err(err) => Err(err),
    }
}

/// Reads a pattern text.
///
/// The text is a pattern in the usual notation of regular expressions, with
/// a predicate in brackets where a character class would stand: `.`,
/// `[name]`, `[^name]`, `R S`, `R|S`, `(R)`, `(?:R)`, `(?P<"name">R)`, `^`,
/// `$`, and behind an atom one of `?`, `*`, `+`, `{n}`, `{n,}`, `{n,m}`,
/// each of which a `?` behind it makes lazy. White space between the parts
/// counts for nothing.
pub fn parse(text: &str) -> (res: Result<Pattern, ParseError>)
    ensures
        match (res, read_pattern(text@)) {
            (Ok(p), Ok(t)) => p@ == t,
            (Err(e), Err(f)) => e.position == f.position && e.kind == f.kind,
            _ => false,
        },
{
    let len = text.unicode_len();
    match parse_expr(text, len, 0) {
        Ok((pattern, next)) => {
            let p = skip(text, len, next);
            if p < len {
                Err(ParseError { position: p, kind: ErrorKind::UnexpectedTokens })
            } else {
                Ok(pattern)
            }
        },
        Err(err) => Err(err),
    }
}

} // verus!

verus! {

/// What follows a lazy mark is in the text, at or behind the mark.
pub proof fn lemma_read_greedy(s: Seq<char>, pos: int)
    requires
        0 <= pos <= s.len(),
    ensures
        pos <= read_greedy(s, pos).1 <= s.len(),
{
    lemma_skip_spaces(s, pos);
}

/// A count that was read ends in the text, at or behind where it was asked
/// for.
pub proof fn lemma_read_number(s: Seq<char>, pos: int, missing: ErrorKind)
    requires
        0 <= pos <= s.len(),
    ensures
        read_number(s, pos, missing) matches Ok(r) ==> pos <= r.1 <= s.len(),
{
    lemma_skip_spaces(s, pos);
    lemma_digits_end(s, skip_spaces(s, pos));
}

/// A repetition in braces that was read ends in the text, behind its `{`.
pub proof fn lemma_read_braces(s: Seq<char>, q: int, atom: Syntax)
    requires
        0 <= q < s.len(),
    ensures
        read_braces(s, q, atom) matches Ok(p) ==> q < p.next <= s.len(),
{
    lemma_read_number(s, q + 1, ErrorKind::ExpectedNumber);
    if read_number(s, q + 1, ErrorKind::ExpectedNumber) is Ok {
        let e = read_number(s, q + 1, ErrorKind::ExpectedNumber)->Ok_0.1;
        lemma_skip_spaces(s, e);
        let b = skip_spaces(s, e);
        if next_is(s, e, '}') {
            lemma_read_greedy(s, b + 1);
        } else if next_is(s, e, ',') {
            lemma_skip_spaces(s, b + 1);
            let c = skip_spaces(s, b + 1);
            if next_is(s, b + 1, '}') {
                lemma_read_greedy(s, c + 1);
            } else {
                lemma_read_number(s, b + 1, ErrorKind::ExpectedNumberOrEmpty);
                if read_number(s, b + 1, ErrorKind::ExpectedNumberOrEmpty) is Ok {
                    let e2 = read_number(s, b + 1, ErrorKind::ExpectedNumberOrEmpty)->Ok_0.1;
                    lemma_skip_spaces(s, e2);
                    if next_is(s, e2, '}') {
                        lemma_read_greedy(s, skip_spaces(s, e2) + 1);
                    }
                }
            }
        }
    }
}

/// What was read behind an atom ends in the text, at or behind the atom.
pub proof fn lemma_read_meta(s: Seq<char>, pos: int, atom: Syntax)
    requires
        0 <= pos <= s.len(),
    ensures
        read_meta(s, pos, atom) matches Ok(p) ==> pos <= p.next <= s.len(),
{
    lemma_skip_spaces(s, pos);
    let q = skip_spaces(s, pos);
    if next_is(s, pos, '?') || next_is(s, pos, '*') || next_is(s, pos, '+') {
        lemma_read_greedy(s, q + 1);
    } else if next_is(s, pos, '{') {
        lemma_read_braces(s, q, atom);
    }
}

/// A predicate in brackets that was read ends in the text, behind its `[`.
pub proof fn lemma_read_class(s: Seq<char>, p: int)
    requires
        0 <= p < s.len(),
    ensures
        read_class(s, p) matches Ok(r) ==> p < r.next <= s.len(),
{
    lemma_skip_spaces(s, p + 1);
    let q = skip_spaces(s, p + 1);
    if next_is(s, p + 1, '^') {
        lemma_skip_spaces(s, q + 1);
        lemma_bracket_end(s, skip_spaces(s, q + 1), 0);
    } else {
        lemma_bracket_end(s, q, 0);
    }
}

/// An alternation that was read ends in the text, behind its start.
///
/// So the tests on positions in the definitions of the grammar, which show
/// that the definitions end, never fail.
pub proof fn lemma_read_expr(s: Seq<char>, pos: int)
    requires
        0 <= pos <= s.len(),
    ensures
        read_expr(s, pos) matches Ok(p) ==> pos < p.next <= s.len(),
    decreases s.len() - pos, 6nat,
{
    lemma_read_term(s, pos);
    if read_term(s, pos) is Ok {
        let t = read_term(s, pos)->Ok_0;
        lemma_read_expr_rest(s, t.next, t.tree);
    }
}

/// The rest of an alternation that was read ends in the text, at or behind
/// its start.
pub proof fn lemma_read_expr_rest(s: Seq<char>, pos: int, acc: Syntax)
    requires
        0 <= pos <= s.len(),
    ensures
        read_expr_rest(s, pos, acc) matches Ok(p) ==> pos <= p.next <= s.len(),
    decreases s.len() - pos, 5nat,
{
    lemma_skip_spaces(s, pos);
    let p = skip_spaces(s, pos);
    if next_is(s, pos, '|') {
        lemma_read_term(s, p + 1);
        if read_term(s, p + 1) is Ok {
            let t = read_term(s, p + 1)->Ok_0;
            lemma_read_expr_rest(s, t.next, Syntax::Or(Box::new(acc), Box::new(t.tree)));
        }
    }
}

/// A concatenation that was read ends in the text, behind its start.
pub proof fn lemma_read_term(s: Seq<char>, pos: int)
    requires
        0 <= pos <= s.len(),
    ensures
        read_term(s, pos) matches Ok(p) ==> pos < p.next <= s.len(),
    decreases s.len() - pos, 4nat,
{
    lemma_read_factor(s, pos);
    if read_factor(s, pos) is Ok {
        let f = read_factor(s, pos)->Ok_0;
        lemma_read_term_rest(s, f.next, f.tree);
    }
}

/// The rest of a concatenation that was read ends in the text, at or behind
/// its start.
pub proof fn lemma_read_term_rest(s: Seq<char>, pos: int, acc: Syntax)
    requires
        0 <= pos <= s.len(),
    ensures
        read_term_rest(s, pos, acc) matches Ok(p) ==> pos <= p.next <= s.len(),
    decreases s.len() - pos, 3nat,
{
    if starts_factor(s, pos) {
        lemma_read_factor(s, pos);
        if read_factor(s, pos) is Ok {
            let f = read_factor(s, pos)->Ok_0;
            lemma_read_term_rest(s, f.next, Syntax::Concat(Box::new(acc), Box::new(f.tree)));
        }
    }
}

/// A factor that was read ends in the text, behind its start.
pub proof fn lemma_read_factor(s: Seq<char>, pos: int)
    requires
        0 <= pos <= s.len(),
    ensures
        read_factor(s, pos) matches Ok(p) ==> pos < p.next <= s.len(),
    decreases s.len() - pos, 2nat,
{
    lemma_skip_spaces(s, pos);
    if !next_is(s, pos, '^') && !next_is(s, pos, '$') {
        lemma_read_atom(s, pos);
        if read_atom(s, pos) is Ok {
            let a = read_atom(s, pos)->Ok_0;
            lemma_read_meta(s, a.next, a.tree);
        }
    }
}

/// An atom that was read ends in the text, behind its start.
pub proof fn lemma_read_atom(s: Seq<char>, pos: int)
    requires
        0 <= pos <= s.len(),
    ensures
        read_atom(s, pos) matches Ok(p) ==> pos < p.next <= s.len(),
    decreases s.len() - pos, 1nat,
{
    lemma_skip_spaces(s, pos);
    let p = skip_spaces(s, pos);
    if next_is(s, pos, '.') {
    } else if next_is(s, pos, '[') {
        lemma_read_class(s, p);
    } else if next_is(s, pos, '(') {
        lemma_group_head(s, p);
        if read_group_head(s, p) is Ok {
            let start = read_group_head(s, p)->Ok_0.1;
            lemma_read_expr(s, start);
            if read_expr(s, start) is Ok {
                lemma_skip_spaces(s, read_expr(s, start)->Ok_0.next);
            }
        }
    }
}

} // verus!
