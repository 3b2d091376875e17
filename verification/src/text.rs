//! Patterns written out as text.

use crate::inst::{Inst, Op};
use crate::pattern::{Pattern, Syntax};
use crate::regex::Regex;
use vstd::prelude::*;
use vstd::string::StringExecFns;

verus! {

/// The character that writes the digit `d`.
pub open spec fn digit_char(d: nat) -> char {
    if d == 0 {
        '0'
    } else if d == 1 {
        '1'
    } else if d == 2 {
        '2'
    } else if d == 3 {
        '3'
    } else if d == 4 {
        '4'
    } else if d == 5 {
        '5'
    } else if d == 6 {
        '6'
    } else if d == 7 {
        '7'
    } else if d == 8 {
        '8'
    } else {
        '9'
    }
}

/// The number `n` written in decimal.
pub open spec fn decimal_text(n: nat) -> Seq<char>
    decreases n,
{
    if n < 10 {
        seq![digit_char(n)]
    } else {
        decimal_text(n / 10).push(digit_char(n % 10))
    }
}

/// The mark behind a lazy repetition.
pub open spec fn lazy_mark(greedy: bool) -> Seq<char> {
    if greedy {
        Seq::empty()
    } else {
        "?"@
    }
}

/// The pattern `r` written out. A predicate is written as `<fn>`, since a
/// function has no text.
pub open spec fn pattern_text<T>(r: Regex<T>) -> Seq<char>
    decreases r,
{
    match r {
        Regex::Satisfy(_) => "[<fn>]"@,
        Regex::NotSatisfy(_) => "[^ <fn>]"@,
        Regex::Concat(a, b) => pattern_text(*a) + pattern_text(*b),
        Regex::Group(a) => "("@ + pattern_text(*a) + ")"@,
        Regex::NamedGroup(name, a) => "(?P<\""@ + name@ + "\">"@ + pattern_text(*a) + ")"@,
        Regex::NonCapturingGroup(a) => "(?:"@ + pattern_text(*a) + ")"@,
        Regex::Or(a, b) => pattern_text(*a) + "|"@ + pattern_text(*b),
        Regex::ZeroOrOne(a, greedy) => pattern_text(*a) + "?"@ + lazy_mark(greedy),
        Regex::Repeat0(a, greedy) => pattern_text(*a) + "*"@ + lazy_mark(greedy),
        Regex::Repeat1(a, greedy) => pattern_text(*a) + "+"@ + lazy_mark(greedy),
        Regex::RepeatN(a, n) => pattern_text(*a) + "{"@ + decimal_text(n as nat) + "}"@,
        Regex::RepeatMinMax(a, n, m, greedy) => pattern_text(*a) + "{"@ + decimal_text(n as nat)
            + ","@ + (match m {
            Some(mm) => decimal_text(mm as nat),
            None => Seq::empty(),
        }) + "}"@ + lazy_mark(greedy),
        Regex::Begin => "^"@,
        Regex::End => "$"@,
    }
}

/// The text of one digit.
fn digit_text(d: usize) -> (text: &'static str)
    requires
        d < 10,
    ensures
        text@ == seq![digit_char(d as nat)],
{
    proof {
        reveal_strlit("0");
        reveal_strlit("1");
        reveal_strlit("2");
        reveal_strlit("3");
        reveal_strlit("4");
        reveal_strlit("5");
        reveal_strlit("6");
        reveal_strlit("7");
        reveal_strlit("8");
        reveal_strlit("9");
    }
    let text = if d == 0 {
        "0"
    } else if d == 1 {
        "1"
    } else if d == 2 {
        "2"
    } else if d == 3 {
        "3"
    } else if d == 4 {
        "4"
    } else if d == 5 {
        "5"
    } else if d == 6 {
        "6"
    } else if d == 7 {
        "7"
    } else if d == 8 {
        "8"
    } else {
        "9"
    };
    assert(text@ =~= seq![digit_char(d as nat)]);
    text
}

/// Writes `n` in decimal.
pub fn decimal(n: usize) -> (text: String)
    ensures
        text@ == decimal_text(n as nat),
    decreases n,
{
    if n < 10 {
        String::from_str(digit_text(n))
    } else {
        let head = decimal(n / 10);
        let text = head.concat(digit_text(n % 10));
        assert(text@ =~= decimal_text(n as nat));
        text
    }
}

/// `text` with the mark of a lazy repetition behind it, where it is lazy.
fn with_lazy_mark(text: String, greedy: bool) -> (res: String)
    ensures
        res@ == text@ + lazy_mark(greedy),
{
    if greedy {
        assert(text@ + Seq::<char>::empty() =~= text@);
        text
    } else {
        text.concat("?")
    }
}

impl<T> Regex<T> {
    /// Writes the pattern out.
    pub fn to_text(&self) -> (text: String)
        ensures
            text@ == pattern_text(*self),
        decreases *self,
    {
        match self {
            Regex::Satisfy(_) => String::from_str("[<fn>]"),
            Regex::NotSatisfy(_) => String::from_str("[^ <fn>]"),
            Regex::Concat(a, b) => {
                let left = (**a).to_text();
                let right = (**b).to_text();
                left.concat(right.as_str())
            },
            Regex::Group(a) => {
                let body = (**a).to_text();
                String::from_str("(").concat(body.as_str()).concat(")")
            },
            Regex::NamedGroup(name, a) => {
                let body = (**a).to_text();
                String::from_str("(?P<\"").concat(name.as_str()).concat("\">").concat(
                    body.as_str(),
                ).concat(")")
            },
            Regex::NonCapturingGroup(a) => {
                let body = (**a).to_text();
                String::from_str("(?:").concat(body.as_str()).concat(")")
            },
            Regex::Or(a, b) => {
                let left = (**a).to_text();
                let right = (**b).to_text();
                left.concat("|").concat(right.as_str())
            },
            Regex::ZeroOrOne(a, greedy) => with_lazy_mark((**a).to_text().concat("?"), *greedy),
            Regex::Repeat0(a, greedy) => with_lazy_mark((**a).to_text().concat("*"), *greedy),
            Regex::Repeat1(a, greedy) => with_lazy_mark((**a).to_text().concat("+"), *greedy),
            Regex::RepeatN(a, n) => {
                let count = decimal(*n);
                (**a).to_text().concat("{").concat(count.as_str()).concat("}")
            },
            Regex::RepeatMinMax(a, n, m, greedy) => {
                let lower = decimal(*n);
                let text = (**a).to_text().concat("{").concat(lower.as_str()).concat(",");
                let text = match m {
                    Some(mm) => {
                        let upper = decimal(*mm);
                        text.concat(upper.as_str())
                    },
                    None => {
                        assert(text@ + Seq::<char>::empty() =~= text@);
                        text
                    },
                };
                with_lazy_mark(text.concat("}"), *greedy)
            },
            Regex::Begin => String::from_str("^"),
            Regex::End => String::from_str("$"),
        }
    }
}

} // verus!

verus! {

/// The instruction `op` written out. A predicate is written as `"#<fn>"`.
pub open spec fn op_text<T>(op: Op<T>) -> Seq<char> {
    match op {
        Op::Begin => "Begin"@,
        Op::End => "End"@,
        Op::Check(_) => "Check(\"#<fn>\")"@,
        Op::Match => "Match"@,
        Op::Jmp(t) => "Jmp("@ + decimal_text(t as nat) + ")"@,
        Op::Split(x, y) => "Split("@ + decimal_text(x as nat) + ", "@ + decimal_text(y as nat)
            + ")"@,
        Op::SaveOpen(g) => "SaveOpen("@ + decimal_text(g as nat) + ")"@,
        Op::SaveClose(g) => "SaveClose("@ + decimal_text(g as nat) + ")"@,
        Op::SaveNamedOpen(name, g) => "SaveOpenNamed(\""@ + name + "\", "@ + decimal_text(g as nat)
            + ")"@,
        Op::SaveNamedClose(name, g) => "SaveCloseNamed(\""@ + name + "\", "@ + decimal_text(
            g as nat,
        ) + ")"@,
    }
}

impl<T> Inst<T> {
    /// Writes the instruction out.
    pub fn to_text(&self) -> (text: String)
        ensures
            text@ == op_text(self@),
    {
        match self {
            Inst::Begin => String::from_str("Begin"),
            Inst::End => String::from_str("End"),
            Inst::Check(_) => String::from_str("Check(\"#<fn>\")"),
            Inst::Match => String::from_str("Match"),
            Inst::Jmp(t) => {
                let target = decimal(*t);
                String::from_str("Jmp(").concat(target.as_str()).concat(")")
            },
            Inst::Split(x, y) => {
                let first = decimal(*x);
                let second = decimal(*y);
                String::from_str("Split(").concat(first.as_str()).concat(", ").concat(
                    second.as_str(),
                ).concat(")")
            },
            Inst::SaveOpen(g) => {
                let group = decimal(*g);
                String::from_str("SaveOpen(").concat(group.as_str()).concat(")")
            },
            Inst::SaveClose(g) => {
                let group = decimal(*g);
                String::from_str("SaveClose(").concat(group.as_str()).concat(")")
            },
            Inst::SaveNamedOpen(name, g) => {
                let group = decimal(*g);
                String::from_str("SaveOpenNamed(\"").concat(name.as_str()).concat("\", ").concat(
                    group.as_str(),
                ).concat(")")
            },
            Inst::SaveNamedClose(name, g) => {
                let group = decimal(*g);
                String::from_str("SaveCloseNamed(\"").concat(name.as_str()).concat(
                    "\", ",
                ).concat(group.as_str()).concat(")")
            },
        }
    }
}

/// `true` or `false` written out.
pub open spec fn bool_text(b: bool) -> Seq<char> {
    if b {
        "true"@
    } else {
        "false"@
    }
}

/// The expression that builds the written pattern `p` with the functions
/// of `Regex`: each predicate text stands in it as it was written.
pub open spec fn builder_code(p: Syntax) -> Seq<char>
    decreases p,
{
    match p {
        Syntax::Any => "vec_reg::Regex::any()"@,
        Syntax::Satisfy(t) => "vec_reg::Regex::satisfy("@ + t + ")"@,
        Syntax::NotSatisfy(t) => "vec_reg::Regex::not_satisfy("@ + t + ")"@,
        Syntax::Concat(a, b) => "vec_reg::Regex::concat("@ + builder_code(*a) + ", "@
            + builder_code(*b) + ")"@,
        Syntax::Or(a, b) => "vec_reg::Regex::or("@ + builder_code(*a) + ", "@ + builder_code(*b)
            + ")"@,
        Syntax::Group(a) => "vec_reg::Regex::group("@ + builder_code(*a) + ")"@,
        Syntax::NamedGroup(name, a) => "vec_reg::Regex::named_group(\""@ + name + "\", "@
            + builder_code(*a) + ")"@,
        Syntax::NonCapturingGroup(a) => "vec_reg::Regex::non_capturing_group("@ + builder_code(*a)
            + ")"@,
        Syntax::ZeroOrOne(a, greedy) => "vec_reg::Regex::zero_or_one("@ + builder_code(*a) + ", "@
            + bool_text(greedy) + ")"@,
        Syntax::Repeat0(a, greedy) => "vec_reg::Regex::repeat0("@ + builder_code(*a) + ", "@
            + bool_text(greedy) + ")"@,
        Syntax::Repeat1(a, greedy) => "vec_reg::Regex::repeat1("@ + builder_code(*a) + ", "@
            + bool_text(greedy) + ")"@,
        Syntax::RepeatN(a, n) => "vec_reg::Regex::repeat_n("@ + builder_code(*a) + ", "@
            + decimal_text(n) + ")"@,
        Syntax::RepeatMinMax(a, n, m, greedy) => match m {
            Some(mm) => "vec_reg::Regex::repeat_min_max("@ + builder_code(*a) + ", "@
                + decimal_text(n) + ", "@ + decimal_text(mm) + ", "@ + bool_text(greedy) + ")"@,
            None => "vec_reg::Regex::repeat_n_or_more("@ + builder_code(*a) + ", "@
                + decimal_text(n) + ", "@ + bool_text(greedy) + ")"@,
        },
        Syntax::Begin => "vec_reg::Regex::begin()"@,
        Syntax::End => "vec_reg::Regex::end()"@,
    }
}

/// `true` or `false` as text.
fn bool_str(b: bool) -> (text: &'static str)
    ensures
        text@ == bool_text(b),
{
    if b {
        "true"
    } else {
        "false"
    }
}

impl Pattern {
    /// Writes the expression that builds the pattern with the functions of
    /// `Regex`.
    pub fn to_builder_code(&self) -> (text: String)
        ensures
            text@ == builder_code(self@),
        decreases *self,
    {
        match self {
            Pattern::Any => String::from_str("vec_reg::Regex::any()"),
            Pattern::Satisfy(t) => String::from_str("vec_reg::Regex::satisfy(").concat(
                t.as_str(),
            ).concat(")"),
            Pattern::NotSatisfy(t) => String::from_str("vec_reg::Regex::not_satisfy(").concat(
                t.as_str(),
            ).concat(")"),
            Pattern::Concat(a, b) => {
                let left = (**a).to_builder_code();
                let right = (**b).to_builder_code();
                String::from_str("vec_reg::Regex::concat(").concat(left.as_str()).concat(
                    ", ",
                ).concat(right.as_str()).concat(")")
            },
            Pattern::Or(a, b) => {
                let left = (**a).to_builder_code();
                let right = (**b).to_builder_code();
                String::from_str("vec_reg::Regex::or(").concat(left.as_str()).concat(", ").concat(
                    right.as_str(),
                ).concat(")")
            },
            Pattern::Group(a) => {
                let body = (**a).to_builder_code();
                String::from_str("vec_reg::Regex::group(").concat(body.as_str()).concat(")")
            },
            Pattern::NamedGroup(name, a) => {
                let body = (**a).to_builder_code();
                String::from_str("vec_reg::Regex::named_group(\"").concat(name.as_str()).concat(
                    "\", ",
                ).concat(body.as_str()).concat(")")
            },
            Pattern::NonCapturingGroup(a) => {
                let body = (**a).to_builder_code();
                String::from_str("vec_reg::Regex::non_capturing_group(").concat(
                    body.as_str(),
                ).concat(")")
            },
            Pattern::ZeroOrOne(a, greedy) => {
                let body = (**a).to_builder_code();
                String::from_str("vec_reg::Regex::zero_or_one(").concat(body.as_str()).concat(
                    ", ",
                ).concat(bool_str(*greedy)).concat(")")
            },
            Pattern::Repeat0(a, greedy) => {
                let body = (**a).to_builder_code();
                String::from_str("vec_reg::Regex::repeat0(").concat(body.as_str()).concat(
                    ", ",
                ).concat(bool_str(*greedy)).concat(")")
            },
            Pattern::Repeat1(a, greedy) => {
                let body = (**a).to_builder_code();
                String::from_str("vec_reg::Regex::repeat1(").concat(body.as_str()).concat(
                    ", ",
                ).concat(bool_str(*greedy)).concat(")")
            },
            Pattern::RepeatN(a, n) => {
                let body = (**a).to_builder_code();
                let count = decimal(*n);
                String::from_str("vec_reg::Regex::repeat_n(").concat(body.as_str()).concat(
                    ", ",
                ).concat(count.as_str()).concat(")")
            },
            Pattern::RepeatMinMax(a, n, m, greedy) => {
                let body = (**a).to_builder_code();
                let lower = decimal(*n);
                match m {
                    Some(mm) => {
                        let upper = decimal(*mm);
                        String::from_str("vec_reg::Regex::repeat_min_max(").concat(
                            body.as_str(),
                        ).concat(", ").concat(lower.as_str()).concat(", ").concat(
                            upper.as_str(),
                        ).concat(", ").concat(bool_str(*greedy)).concat(")")
                    },
                    None => String::from_str("vec_reg::Regex::repeat_n_or_more(").concat(
                        body.as_str(),
                    ).concat(", ").concat(lower.as_str()).concat(", ").concat(
                        bool_str(*greedy),
                    ).concat(")"),
                }
            },
            Pattern::Begin => String::from_str("vec_reg::Regex::begin()"),
            Pattern::End => String::from_str("vec_reg::Regex::end()"),
        }
    }
}

} // verus!

verus! {

/// An upper bound written out: `Some(m)` or `None`.
pub open spec fn bound_text(m: Option<usize>) -> Seq<char> {
    match m {
        Some(mm) => "Some("@ + decimal_text(mm as nat) + ")"@,
        None => "None"@,
    }
}

/// The tree of the pattern `r` written out, each node by its name with its
/// parts in parentheses. A predicate is written as `"<fn>"`.
pub open spec fn tree_text<T>(r: Regex<T>) -> Seq<char>
    decreases r,
{
    match r {
        Regex::Satisfy(_) => "Satisfy(\"<fn>\")"@,
        Regex::NotSatisfy(_) => "NotSatisfy(\"<fn>\")"@,
        Regex::Concat(a, b) => "Concat("@ + tree_text(*a) + ", "@ + tree_text(*b) + ")"@,
        Regex::Group(a) => "Group("@ + tree_text(*a) + ")"@,
        Regex::NamedGroup(name, a) => "NamedGroup(\""@ + name@ + "\", "@ + tree_text(*a) + ")"@,
        Regex::NonCapturingGroup(a) => "NonCaptureGroup("@ + tree_text(*a) + ")"@,
        Regex::Or(a, b) => "Or("@ + tree_text(*a) + ", "@ + tree_text(*b) + ")"@,
        Regex::ZeroOrOne(a, greedy) => "ZeroOrOne("@ + tree_text(*a) + ", "@ + bool_text(greedy)
            + ")"@,
        Regex::Repeat0(a, greedy) => "Repeat0("@ + tree_text(*a) + ", "@ + bool_text(greedy)
            + ")"@,
        Regex::Repeat1(a, greedy) => "Repeat1("@ + tree_text(*a) + ", "@ + bool_text(greedy)
            + ")"@,
        Regex::RepeatN(a, n) => "RepeatN("@ + tree_text(*a) + ", "@ + decimal_text(n as nat)
            + ")"@,
        Regex::RepeatMinMax(a, n, m, greedy) => "RepeatMinMax("@ + tree_text(*a) + ", "@
            + decimal_text(n as nat) + ", "@ + bound_text(m) + ", "@ + bool_text(greedy) + ")"@,
        Regex::Begin => "Begin"@,
        Regex::End => "End"@,
    }
}

impl<T> Regex<T> {
    /// Writes the tree of the pattern out.
    pub fn to_tree_text(&self) -> (text: String)
        ensures
            text@ == tree_text(*self),
        decreases *self,
    {
        match self {
            Regex::Satisfy(_) => String::from_str("Satisfy(\"<fn>\")"),
            Regex::NotSatisfy(_) => String::from_str("NotSatisfy(\"<fn>\")"),
            Regex::Concat(a, b) => {
                let left = (**a).to_tree_text();
                let right = (**b).to_tree_text();
                String::from_str("Concat(").concat(left.as_str()).concat(", ").concat(
                    right.as_str(),
                ).concat(")")
            },
            Regex::Group(a) => {
                let body = (**a).to_tree_text();
                String::from_str("Group(").concat(body.as_str()).concat(")")
            },
            Regex::NamedGroup(name, a) => {
                let body = (**a).to_tree_text();
                String::from_str("NamedGroup(\"").concat(name.as_str()).concat("\", ").concat(
                    body.as_str(),
                ).concat(")")
            },
            Regex::NonCapturingGroup(a) => {
                let body = (**a).to_tree_text();
                String::from_str("NonCaptureGroup(").concat(body.as_str()).concat(")")
            },
            Regex::Or(a, b) => {
                let left = (**a).to_tree_text();
                let right = (**b).to_tree_text();
                String::from_str("Or(").concat(left.as_str()).concat(", ").concat(
                    right.as_str(),
                ).concat(")")
            },
            Regex::ZeroOrOne(a, greedy) => {
                let body = (**a).to_tree_text();
                String::from_str("ZeroOrOne(").concat(body.as_str()).concat(", ").concat(
                    bool_str(*greedy),
                ).concat(")")
            },
            Regex::Repeat0(a, greedy) => {
                let body = (**a).to_tree_text();
                String::from_str("Repeat0(").concat(body.as_str()).concat(", ").concat(
                    bool_str(*greedy),
                ).concat(")")
            },
            Regex::Repeat1(a, greedy) => {
                let body = (**a).to_tree_text();
                String::from_str("Repeat1(").concat(body.as_str()).concat(", ").concat(
                    bool_str(*greedy),
                ).concat(")")
            },
            Regex::RepeatN(a, n) => {
                let body = (**a).to_tree_text();
                let count = decimal(*n);
                String::from_str("RepeatN(").concat(body.as_str()).concat(", ").concat(
                    count.as_str(),
                ).concat(")")
            },
            Regex::RepeatMinMax(a, n, m, greedy) => {
                let body = (**a).to_tree_text();
                let lower = decimal(*n);
                let upper = match m {
                    Some(mm) => {
                        let number = decimal(*mm);
                        String::from_str("Some(").concat(number.as_str()).concat(")")
                    },
                    None => String::from_str("None"),
                };
                String::from_str("RepeatMinMax(").concat(body.as_str()).concat(", ").concat(
                    lower.as_str(),
                ).concat(", ").concat(upper.as_str()).concat(", ").concat(
                    bool_str(*greedy),
                ).concat(")")
            },
            Regex::Begin => String::from_str("Begin"),
            Regex::End => String::from_str("End"),
        }
    }
}

} // verus!
