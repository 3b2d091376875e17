//! From a pattern text to a pattern over elements: the predicates that the
//! text names are looked up in a table.

use crate::parser::{parse, read_pattern};
use crate::pattern::{ParseError, Pattern, Syntax};
use crate::predicate::{pred_from_fn, pure_fn, rc_clone, Pred};
use crate::regex::Regex;
use vstd::prelude::*;

verus! {

/// The predicates that pattern texts may name, each under its text.
#[verifier::reject_recursive_types(T)]
pub struct Predicates<T> {
    entries: Vec<(String, Pred<T>)>,
}

/// The predicate that the first entry for `name` holds.
pub open spec fn lookup_in<T>(entries: Seq<(String, Pred<T>)>, name: Seq<char>) -> Option<Pred<T>>
    decreases entries.len(),
{
    if entries.len() == 0 {
        None
    } else if entries[0].0@ == name {
        Some(entries[0].1)
    } else {
        lookup_in(entries.drop_first(), name)
    }
}

/// Every predicate of the entries is well formed.
pub open spec fn entries_wf<T>(entries: Seq<(String, Pred<T>)>) -> bool {
    forall|i: int| 0 <= i < entries.len() ==> (#[trigger] entries[i]).1.wf()
}

/// What is looked up in well-formed entries is well formed.
pub proof fn lemma_lookup_wf<T>(entries: Seq<(String, Pred<T>)>, name: Seq<char>)
    requires
        entries_wf(entries),
    ensures
        lookup_in(entries, name) matches Some(p) ==> p.wf(),
    decreases entries.len(),
{
    if entries.len() > 0 {
        assert(entries[0].1.wf());
        if entries[0].0@ != name {
            let rest = entries.drop_first();
            assert forall|i: int| 0 <= i < rest.len() implies (#[trigger] rest[i]).1.wf() by {
                assert(rest[i] == entries[i + 1]);
            }
            lemma_lookup_wf(rest, name);
        }
    }
}

impl<T: 'static> Predicates<T> {
    /// The entries of the table, first defined first.
    pub closed spec fn view(&self) -> Seq<(String, Pred<T>)> {
        self.entries@
    }

    /// A table without entries.
    pub fn new() -> (table: Self)
        ensures
            table@.len() == 0,
    {
        Predicates { entries: Vec::new() }
    }

    /// Adds the function `f` under `name`. An entry that was there before
    /// under the same name stays the one that is found.
    pub fn define(&mut self, name: &str, f: impl Fn(&T) -> bool + 'static)
        ensures
            final(self)@.len() == old(self)@.len() + 1,
            final(self)@.drop_last() == old(self)@,
            final(self)@.last().0@ == name@,
            final(self)@.last().1.wf() == pure_fn(f),
            forall|x: T| final(self)@.last().1.holds(x) == !call_ensures(f, (&x,), false),
    {
        let p = pred_from_fn(f);
        assert(forall|x: T| p.holds(x) == !call_ensures(f, (&x,), false));
        self.entries.push((name.to_owned(), p));
        assert(self.entries@.drop_last() =~= old(self).entries@);
    }

    /// The predicate that stands under `name`.
    pub fn lookup(&self, name: &str) -> (res: Option<Pred<T>>)
        ensures
            res == lookup_in(self@, name@),
    {
        let wanted = name.to_owned();
        let mut i: usize = 0;
        assert(self.entries@.subrange(0, self.entries@.len() as int) =~= self.entries@);
        while i < self.entries.len()
            invariant
                i <= self.entries@.len(),
                wanted@ == name@,
                lookup_in(self.entries@, name@) == lookup_in(
                    self.entries@.subrange(i as int, self.entries@.len() as int),
                    name@,
                ),
            decreases self.entries@.len() - i,
        {
            let ghost rest = self.entries@.subrange(i as int, self.entries@.len() as int);
            assert(rest[0] == self.entries@[i as int]);
            assert(rest.drop_first() =~= self.entries@.subrange(
                i + 1,
                self.entries@.len() as int,
            ));
            if self.entries[i].0 == wanted {
                return Some(rc_clone(&self.entries[i].1));
            }
            i += 1;
        }
        None
    }
}

/// The first predicate text of `p`, read from the left, that the entries
/// do not hold.
pub open spec fn first_missing<T>(p: Syntax, entries: Seq<(String, Pred<T>)>) -> Option<Seq<char>>
    decreases p,
{
    match p {
        Syntax::Satisfy(name) => if lookup_in(entries, name) is None {
            Some(name)
        } else {
            None
        },
        Syntax::NotSatisfy(name) => if lookup_in(entries, name) is None {
            Some(name)
        } else {
            None
        },
        Syntax::Concat(a, b) => match first_missing(*a, entries) {
            Some(name) => Some(name),
            None => first_missing(*b, entries),
        },
        Syntax::Or(a, b) => match first_missing(*a, entries) {
            Some(name) => Some(name),
            None => first_missing(*b, entries),
        },
        Syntax::Group(a) => first_missing(*a, entries),
        Syntax::NamedGroup(_, a) => first_missing(*a, entries),
        Syntax::NonCapturingGroup(a) => first_missing(*a, entries),
        Syntax::ZeroOrOne(a, _) => first_missing(*a, entries),
        Syntax::Repeat0(a, _) => first_missing(*a, entries),
        Syntax::Repeat1(a, _) => first_missing(*a, entries),
        Syntax::RepeatN(a, _) => first_missing(*a, entries),
        Syntax::RepeatMinMax(a, _, _, _) => first_missing(*a, entries),
        _ => None,
    }
}

/// The pattern `r` is the written pattern `p` with every predicate text
/// replaced by the predicate that the entries hold for it.
pub open spec fn instance_of<T>(r: Regex<T>, p: Syntax, entries: Seq<(String, Pred<T>)>) -> bool
    decreases p,
{
    match p {
        Syntax::Any => r matches Regex::Satisfy(q) && q.wf() && forall|x: T| q.holds(x),
        Syntax::Satisfy(name) => r matches Regex::Satisfy(q) && lookup_in(entries, name) == Some(q),
        Syntax::NotSatisfy(name) => r matches Regex::NotSatisfy(q) && lookup_in(entries, name)
            == Some(q),
        Syntax::Concat(a, b) => r matches Regex::Concat(ra, rb) && instance_of(*ra, *a, entries)
            && instance_of(*rb, *b, entries),
        Syntax::Or(a, b) => r matches Regex::Or(ra, rb) && instance_of(*ra, *a, entries)
            && instance_of(*rb, *b, entries),
        Syntax::Group(a) => r matches Regex::Group(ra) && instance_of(*ra, *a, entries),
        Syntax::NamedGroup(name, a) => r matches Regex::NamedGroup(n, ra) && n@ == name
            && instance_of(*ra, *a, entries),
        Syntax::NonCapturingGroup(a) => r matches Regex::NonCapturingGroup(ra) && instance_of(
            *ra,
            *a,
            entries,
        ),
        Syntax::ZeroOrOne(a, greedy) => r matches Regex::ZeroOrOne(ra, g) && g == greedy
            && instance_of(*ra, *a, entries),
        Syntax::Repeat0(a, greedy) => r matches Regex::Repeat0(ra, g) && g == greedy
            && instance_of(*ra, *a, entries),
        Syntax::Repeat1(a, greedy) => r matches Regex::Repeat1(ra, g) && g == greedy
            && instance_of(*ra, *a, entries),
        Syntax::RepeatN(a, n) => r matches Regex::RepeatN(ra, k) && k == n && instance_of(
            *ra,
            *a,
            entries,
        ),
        Syntax::RepeatMinMax(a, n, m, greedy) => r matches Regex::RepeatMinMax(ra, k, km, g) && k
            == n && g == greedy && (match (m, km) {
            (Some(x), Some(y)) => x == y,
            (None, None) => true,
            _ => false,
        }) && instance_of(*ra, *a, entries),
        Syntax::Begin => r is Begin,
        Syntax::End => r is End,
    }
}

/// What can be wrong with a pattern text.
#[derive(Debug)]
pub enum PatternError {
    /// The text is ill formed.
    Syntax(ParseError),
    /// The text names a predicate that the table does not hold.
    UnknownPredicate(String),
}

/// Replaces the predicate texts of `pattern` by the predicates that `table`
/// holds for them. Fails with the first text, read from the left, that the
/// table does not hold.
pub fn instantiate<T: 'static>(pattern: &Pattern, table: &Predicates<T>) -> (res: Result<
    Regex<T>,
    String,
>)
    ensures
        match res {
            Ok(r) => first_missing(pattern@, table@) is None && instance_of(r, pattern@, table@),
            Err(name) => first_missing(pattern@, table@) == Some(name@),
        },
    decreases pattern,
{
    match pattern {
        Pattern::Any => Ok(Regex::any()),
        Pattern::Satisfy(name) => match table.lookup(name.as_str()) {
            Some(p) => Ok(Regex::Satisfy(p)),
            None => Err(name.clone()),
        },
        Pattern::NotSatisfy(name) => match table.lookup(name.as_str()) {
            Some(p) => Ok(Regex::NotSatisfy(p)),
            None => Err(name.clone()),
        },
        Pattern::Concat(a, b) => {
            let ra = match instantiate(&**a, table) {
                Ok(r) => r,
                Err(name) => {
                    return Err(name);
                },
            };
            match instantiate(&**b, table) {
                Ok(rb) => Ok(Regex::concat(ra, rb)),
                Err(name) => Err(name),
            }
        },
        Pattern::Or(a, b) => {
            let ra = match instantiate(&**a, table) {
                Ok(r) => r,
                Err(name) => {
                    return Err(name);
                },
            };
            match instantiate(&**b, table) {
                Ok(rb) => Ok(Regex::or(ra, rb)),
                Err(name) => Err(name),
            }
        },
        Pattern::Group(a) => match instantiate(&**a, table) {
            Ok(r) => Ok(Regex::group(r)),
            Err(name) => Err(name),
        },
        Pattern::NamedGroup(group_name, a) => match instantiate(&**a, table) {
            Ok(r) => Ok(Regex::named_group(group_name.as_str(), r)),
            Err(name) => Err(name),
        },
        Pattern::NonCapturingGroup(a) => match instantiate(&**a, table) {
            Ok(r) => Ok(Regex::non_capturing_group(r)),
            Err(name) => Err(name),
        },
        Pattern::ZeroOrOne(a, greedy) => match instantiate(&**a, table) {
            Ok(r) => Ok(Regex::zero_or_one(r, *greedy)),
            Err(name) => Err(name),
        },
        Pattern::Repeat0(a, greedy) => match instantiate(&**a, table) {
            Ok(r) => Ok(Regex::repeat0(r, *greedy)),
            Err(name) => Err(name),
        },
        Pattern::Repeat1(a, greedy) => match instantiate(&**a, table) {
            Ok(r) => Ok(Regex::repeat1(r, *greedy)),
            Err(name) => Err(name),
        },
        Pattern::RepeatN(a, n) => match instantiate(&**a, table) {
            Ok(r) => Ok(Regex::repeat_n(r, *n)),
            Err(name) => Err(name),
        },
        Pattern::RepeatMinMax(a, n, m, greedy) => match instantiate(&**a, table) {
            Ok(r) => match m {
                Some(mm) => Ok(Regex::repeat_min_max(r, *n, *mm, *greedy)),
                None => Ok(Regex::repeat_n_or_more(r, *n, *greedy)),
            },
            Err(name) => Err(name),
        },
        Pattern::Begin => Ok(Regex::begin()),
        Pattern::End => Ok(Regex::end()),
    }
}

/// Reads a pattern text and looks up its predicates in `table`.
pub fn vec_reg<T: 'static>(text: &str, table: &Predicates<T>) -> (res: Result<
    Regex<T>,
    PatternError,
>)
    ensures
        match read_pattern(text@) {
            Err(f) => res matches Err(PatternError::Syntax(e)) && e.position == f.position
                && e.kind == f.kind,
            Ok(t) => match first_missing(t, table@) {
                Some(name) => res matches Err(PatternError::UnknownPredicate(n)) && n@ == name,
                None => res matches Ok(r) && instance_of(r, t, table@),
            },
        },
{
    match parse(text) {
        Err(e) => Err(PatternError::Syntax(e)),
        Ok(pattern) => match instantiate(&pattern, table) {
            Ok(r) => Ok(r),
            Err(name) => Err(PatternError::UnknownPredicate(name)),
        },
    }
}

} // verus!
