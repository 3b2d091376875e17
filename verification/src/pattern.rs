//! Patterns as they are written: the tree of a pattern text, before its
//! predicates are looked up.

use vstd::prelude::*;

verus! {

/// A pattern as written. A predicate stands in it by its text: a name, or a
/// closure as it was written between the brackets.
#[derive(Debug, PartialEq, Eq)]
pub enum Pattern {
    /// `.`
    Any,
    /// `[text]`
    Satisfy(String),
    /// `[^text]`
    NotSatisfy(String),
    /// `R S`
    Concat(Box<Pattern>, Box<Pattern>),
    /// `R|S`
    Or(Box<Pattern>, Box<Pattern>),
    /// `(R)`
    Group(Box<Pattern>),
    /// `(?P<"name">R)`
    NamedGroup(String, Box<Pattern>),
    /// `(?:R)`
    NonCapturingGroup(Box<Pattern>),
    /// `R?` and, lazy, `R??`
    ZeroOrOne(Box<Pattern>, bool),
    /// `R*` and, lazy, `R*?`
    Repeat0(Box<Pattern>, bool),
    /// `R+` and, lazy, `R+?`
    Repeat1(Box<Pattern>, bool),
    /// `R{n}`
    RepeatN(Box<Pattern>, usize),
    /// `R{n,}` and `R{n,m}` and, lazy, the same followed by `?`
    RepeatMinMax(Box<Pattern>, usize, Option<usize>, bool),
    /// `^`
    Begin,
    /// `$`
    End,
}

/// The mathematical content of a written pattern.
pub enum Syntax {
    Any,
    Satisfy(Seq<char>),
    NotSatisfy(Seq<char>),
    Concat(Box<Syntax>, Box<Syntax>),
    Or(Box<Syntax>, Box<Syntax>),
    Group(Box<Syntax>),
    NamedGroup(Seq<char>, Box<Syntax>),
    NonCapturingGroup(Box<Syntax>),
    ZeroOrOne(Box<Syntax>, bool),
    Repeat0(Box<Syntax>, bool),
    Repeat1(Box<Syntax>, bool),
    RepeatN(Box<Syntax>, nat),
    RepeatMinMax(Box<Syntax>, nat, Option<nat>, bool),
    Begin,
    End,
}

/// The mathematical content of the written pattern `p`.
pub open spec fn syntax_of(p: Pattern) -> Syntax
    decreases p,
{
    match p {
        Pattern::Any => Syntax::Any,
        Pattern::Satisfy(t) => Syntax::Satisfy(t@),
        Pattern::NotSatisfy(t) => Syntax::NotSatisfy(t@),
        Pattern::Concat(a, b) => Syntax::Concat(Box::new(syntax_of(*a)), Box::new(syntax_of(*b))),
        Pattern::Or(a, b) => Syntax::Or(Box::new(syntax_of(*a)), Box::new(syntax_of(*b))),
        Pattern::Group(a) => Syntax::Group(Box::new(syntax_of(*a))),
        Pattern::NamedGroup(n, a) => Syntax::NamedGroup(n@, Box::new(syntax_of(*a))),
        Pattern::NonCapturingGroup(a) => Syntax::NonCapturingGroup(Box::new(syntax_of(*a))),
        Pattern::ZeroOrOne(a, g) => Syntax::ZeroOrOne(Box::new(syntax_of(*a)), g),
        Pattern::Repeat0(a, g) => Syntax::Repeat0(Box::new(syntax_of(*a)), g),
        Pattern::Repeat1(a, g) => Syntax::Repeat1(Box::new(syntax_of(*a)), g),
        Pattern::RepeatN(a, n) => Syntax::RepeatN(Box::new(syntax_of(*a)), n as nat),
        Pattern::RepeatMinMax(a, n, m, g) => Syntax::RepeatMinMax(
            Box::new(syntax_of(*a)),
            n as nat,
            match m {
                Some(mm) => Some(mm as nat),
                None => None,
            },
            g,
        ),
        Pattern::Begin => Syntax::Begin,
        Pattern::End => Syntax::End,
    }
}

impl View for Pattern {
    type V = Syntax;

    open spec fn view(&self) -> Syntax {
        syntax_of(*self)
    }
}

/// What is wrong with a pattern text.
#[derive(Debug, Clone, Copy, PartialEq, Eq)]
pub enum ErrorKind {
    /// Where a pattern has to start there is none of `.`, `[`, `(`, `^`, `$`.
    ExpectedAtom,
    /// Between brackets stands neither a name nor a closure.
    ExpectedPredicate,
    /// A `[` without its `]`.
    UnclosedBracket,
    /// A `(` without its `)`.
    UnclosedGroup,
    /// After `(?` stands neither `:` nor `P`.
    ExpectedGroupKind,
    /// After `(?P` there is no `<`.
    ExpectedLess,
    /// After `(?P<` there is no name between double quotes.
    ExpectedName,
    /// After the name of a group there is no `>`.
    ExpectedGreater,
    /// After `{` there is no number.
    ExpectedNumber,
    /// After `{n,` stands neither a number nor `}`.
    ExpectedNumberOrEmpty,
    /// A `{` without its `}`.
    UnclosedBrace,
    /// A count does not fit the machine's integers.
    NumberTooLarge,
    /// In `{n,m}` the upper bound is below the lower one.
    BoundsOutOfOrder,
    /// Behind the pattern there is more text.
    UnexpectedTokens,
}

/// A pattern text is ill formed: where, counted in characters, and how.
#[derive(Debug, Clone, Copy, PartialEq, Eq)]
pub struct ParseError {
    pub position: usize,
    pub kind: ErrorKind,
}

impl ParseError {
    /// The error in words.
    pub fn message(&self) -> (text: &'static str)
        ensures
            text@ == message_text(self.kind),
    {
        match self.kind {
            ErrorKind::ExpectedAtom => "expected '.', '^', '$', [predicate], (pattern), (?:pattern) or (?P<\"name\">pattern)",
            ErrorKind::ExpectedPredicate => "expected closure or function name",
            ErrorKind::UnclosedBracket => "expected ']'",
            ErrorKind::UnclosedGroup => "expected ')'",
            ErrorKind::ExpectedGroupKind => "expected ':' or 'P'",
            ErrorKind::ExpectedLess => "expected '<'",
            ErrorKind::ExpectedName => "expected a name between double quotes",
            ErrorKind::ExpectedGreater => "expected '>'",
            ErrorKind::ExpectedNumber => "expected integer literal",
            ErrorKind::ExpectedNumberOrEmpty => "expected integer literal or empty",
            ErrorKind::UnclosedBrace => "expected '}'",
            ErrorKind::NumberTooLarge => "integer literal is too large",
            ErrorKind::BoundsOutOfOrder => "upper bound is below lower bound",
            ErrorKind::UnexpectedTokens => "unexpected tokens",
        }
    }
}

/// What is wrong with a pattern text, in words.
pub open spec fn message_text(kind: ErrorKind) -> Seq<char> {
    match kind {
        ErrorKind::ExpectedAtom => "expected '.', '^', '$', [predicate], (pattern), (?:pattern) or (?P<\"name\">pattern)"@,
        ErrorKind::ExpectedPredicate => "expected closure or function name"@,
        ErrorKind::UnclosedBracket => "expected ']'"@,
        ErrorKind::UnclosedGroup => "expected ')'"@,
        ErrorKind::ExpectedGroupKind => "expected ':' or 'P'"@,
        ErrorKind::ExpectedLess => "expected '<'"@,
        ErrorKind::ExpectedName => "expected a name between double quotes"@,
        ErrorKind::ExpectedGreater => "expected '>'"@,
        ErrorKind::ExpectedNumber => "expected integer literal"@,
        ErrorKind::ExpectedNumberOrEmpty => "expected integer literal or empty"@,
        ErrorKind::UnclosedBrace => "expected '}'"@,
        ErrorKind::NumberTooLarge => "integer literal is too large"@,
        ErrorKind::BoundsOutOfOrder => "upper bound is below lower bound"@,
        ErrorKind::UnexpectedTokens => "unexpected tokens"@,
    }
}

} // verus!
