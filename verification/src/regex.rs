//! The pattern tree and what it means for a pattern to match.

use crate::predicate::{pred_always, pred_equal_to, pred_from_fn, pure_fn, Pred};
use std::rc::Rc;
use vstd::prelude::*;
use vstd::std_specs::cmp::PartialEqSpec;

verus! {

/// A pattern over sequences of `T`.
#[derive(Clone)]
#[verifier::reject_recursive_types(T)]
pub enum Regex<T> {
    /// One element on which the predicate holds.
    Satisfy(Pred<T>),
    /// One element on which the predicate does not hold.
    NotSatisfy(Pred<T>),
    /// The first pattern followed by the second.
    Concat(Rc<Regex<T>>, Rc<Regex<T>>),
    /// A numbered capturing group.
    Group(Rc<Regex<T>>),
    /// A capturing group that can also be found by name.
    NamedGroup(String, Rc<Regex<T>>),
    /// Grouping without capture.
    NonCapturingGroup(Rc<Regex<T>>),
    /// Either pattern; the first is preferred.
    Or(Rc<Regex<T>>, Rc<Regex<T>>),
    /// Zero or one repetition; greedy prefers one.
    ZeroOrOne(Rc<Regex<T>>, bool),
    /// Zero or more repetitions; greedy prefers more.
    Repeat0(Rc<Regex<T>>, bool),
    /// One or more repetitions; greedy prefers more.
    Repeat1(Rc<Regex<T>>, bool),
    /// Exactly `n` repetitions.
    RepeatN(Rc<Regex<T>>, usize),
    /// At least `n` repetitions and, with an upper bound, at most that many.
    RepeatMinMax(Rc<Regex<T>>, usize, Option<usize>, bool),
    /// The start of the input.
    Begin,
    /// The end of the input.
    End,
}

/// The pattern behind a shared handle.
pub open spec fn target<T>(a: Rc<Regex<T>>) -> Regex<T> {
    *a
}

/// The first sub-pattern of `r`; `r` itself where it has none.
pub open spec fn inner<T>(r: Regex<T>) -> Regex<T> {
    match r {
        Regex::Concat(a, _) => *a,
        Regex::Group(a) => *a,
        Regex::NamedGroup(_, a) => *a,
        Regex::NonCapturingGroup(a) => *a,
        Regex::Or(a, _) => *a,
        Regex::ZeroOrOne(a, _) => *a,
        Regex::Repeat0(a, _) => *a,
        Regex::Repeat1(a, _) => *a,
        Regex::RepeatN(a, _) => *a,
        Regex::RepeatMinMax(a, _, _, _) => *a,
        _ => r,
    }
}

/// The second sub-pattern of a concatenation or an alternation.
pub open spec fn second<T>(r: Regex<T>) -> Regex<T> {
    match r {
        Regex::Concat(_, b) => *b,
        Regex::Or(_, b) => *b,
        _ => r,
    }
}

/// The name of a named group; empty where `r` is none.
pub open spec fn name_of<T>(r: Regex<T>) -> Seq<char> {
    match r {
        Regex::NamedGroup(name, _) => name@,
        _ => Seq::empty(),
    }
}

/// The preference of a repetition: greedy or lazy.
pub open spec fn greedy_of<T>(r: Regex<T>) -> bool {
    match r {
        Regex::ZeroOrOne(_, g) => g,
        Regex::Repeat0(_, g) => g,
        Regex::Repeat1(_, g) => g,
        Regex::RepeatMinMax(_, _, _, g) => g,
        _ => true,
    }
}

/// The count of a repetition by count, or its lower bound.
pub open spec fn count_of<T>(r: Regex<T>) -> nat {
    match r {
        Regex::RepeatN(_, n) => n as nat,
        Regex::RepeatMinMax(_, n, _, _) => n as nat,
        _ => 0,
    }
}

/// The number of optional repetitions that follow the mandatory ones of a
/// repetition with an upper bound.
pub open spec fn extra_of<T>(r: Regex<T>) -> nat {
    match r {
        Regex::RepeatMinMax(_, n, Some(m), _) => if m >= n {
            (m - n) as nat
        } else {
            0
        },
        _ => 0,
    }
}

/// Every predicate in the pattern is well formed and every bounded
/// repetition has its upper bound at or above its lower bound.
pub open spec fn regex_wf<T>(r: Regex<T>) -> bool
    decreases r,
{
    match r {
        Regex::Satisfy(p) => p.wf(),
        Regex::NotSatisfy(p) => p.wf(),
        Regex::Concat(a, b) => regex_wf(*a) && regex_wf(*b),
        Regex::Group(a) => regex_wf(*a),
        Regex::NamedGroup(_, a) => regex_wf(*a),
        Regex::NonCapturingGroup(a) => regex_wf(*a),
        Regex::Or(a, b) => regex_wf(*a) && regex_wf(*b),
        Regex::ZeroOrOne(a, _) => regex_wf(*a),
        Regex::Repeat0(a, _) => regex_wf(*a),
        Regex::Repeat1(a, _) => regex_wf(*a),
        Regex::RepeatN(a, _) => regex_wf(*a),
        Regex::RepeatMinMax(a, n, m, _) => regex_wf(*a) && (m matches Some(mm) ==> n <= mm),
        Regex::Begin => true,
        Regex::End => true,
    }
}

/// Marks the position at which a match is cut in two. It holds of every
/// position, and gives the quantifiers over positions a term to be
/// instantiated by.
pub open spec fn cut(k: int) -> bool {
    true
}

/// Marks a number of repetitions. It holds of every number, and gives the
/// quantifiers over numbers a term to be instantiated by.
pub open spec fn reps(n: nat) -> bool {
    true
}

/// `r` matches the elements of `xs` from position `i` up to position `j`.
///
/// Anchors are judged against the whole of `xs`.
pub open spec fn matches_between<T>(r: Regex<T>, xs: Seq<T>, i: int, j: int) -> bool
    decreases r, 0nat, 0nat,
{
    match r {
        Regex::Satisfy(p) => 0 <= i < xs.len() && j == i + 1 && p.holds(xs[i]),
        Regex::NotSatisfy(p) => 0 <= i < xs.len() && j == i + 1 && !p.holds(xs[i]),
        Regex::Concat(a, b) => exists|k: int| #[trigger]
            cut(k) && i <= k <= j && matches_between(*a, xs, i, k) && matches_between(
                *b,
                xs,
                k,
                j,
            ),
        Regex::Group(a) => matches_between(*a, xs, i, j),
        Regex::NamedGroup(_, a) => matches_between(*a, xs, i, j),
        Regex::NonCapturingGroup(a) => matches_between(*a, xs, i, j),
        Regex::Or(a, b) => matches_between(*a, xs, i, j) || matches_between(*b, xs, i, j),
        Regex::ZeroOrOne(a, _) => (i == j && 0 <= i <= xs.len()) || matches_between(*a, xs, i, j),
        Regex::Repeat0(a, _) => exists|n: nat| #[trigger] reps(n) && matches_times(*a, n, xs, i, j),
        Regex::Repeat1(a, _) => exists|n: nat| #[trigger]
            reps(n) && n >= 1 && matches_times(*a, n, xs, i, j),
        Regex::RepeatN(a, n) => matches_times(*a, n as nat, xs, i, j),
        Regex::RepeatMinMax(a, n, m, _) => exists|k: nat| #[trigger]
            reps(k) && n <= k && (m matches Some(mm) ==> k <= mm) && matches_times(*a, k, xs, i, j),
        Regex::Begin => i == j && i == 0,
        Regex::End => i == j && i == xs.len(),
    }
}

/// `n` matches of `r` in a row cover `xs` from `i` up to `j`.
pub open spec fn matches_times<T>(r: Regex<T>, n: nat, xs: Seq<T>, i: int, j: int) -> bool
    decreases r, 1nat, n,
{
    if n == 0 {
        i == j && 0 <= i <= xs.len()
    } else {
        exists|k: int| #[trigger]
            cut(k) && i <= k <= j && matches_between(r, xs, i, k) && matches_times(
                r,
                (n - 1) as nat,
                xs,
                k,
                j,
            )
    }
}

/// `r` is the pattern for the single value `v`.
pub open spec fn is_literal<T: PartialEq>(r: Regex<T>, v: T) -> bool {
    r matches Regex::Satisfy(p) && p.wf() == T::obeys_eq_spec() && forall|x: T|
        p.holds(x) == x.eq_spec(&v)
}

/// `r` is the left-nested concatenation of the literal patterns for `vs`.
pub open spec fn is_literal_seq<T: PartialEq>(r: Regex<T>, vs: Seq<T>) -> bool
    decreases vs.len(),
{
    if vs.len() == 0 {
        false
    } else if vs.len() == 1 {
        is_literal(r, vs[0])
    } else {
        r matches Regex::Concat(a, b) && is_literal_seq(*a, vs.drop_last()) && is_literal(
            *b,
            vs.last(),
        )
    }
}

impl<T: 'static> Regex<T> {
    /// One element on which `f` answers true.
    pub fn satisfy(f: impl Fn(&T) -> bool + 'static) -> (r: Self)
        ensures
            r matches Regex::Satisfy(p) && forall|x: T|
                p.holds(x) == !call_ensures(f, (&x,), false),
            regex_wf(r) == pure_fn(f),
    {
        let p = pred_from_fn(f);
        assert(forall|x: T| p.holds(x) == !call_ensures(f, (&x,), false));
        Regex::Satisfy(p)
    }

    /// One element on which `f` answers false.
    pub fn not_satisfy(f: impl Fn(&T) -> bool + 'static) -> (r: Self)
        ensures
            r matches Regex::NotSatisfy(p) && forall|x: T|
                p.holds(x) == !call_ensures(f, (&x,), false),
            regex_wf(r) == pure_fn(f),
    {
        let p = pred_from_fn(f);
        assert(forall|x: T| p.holds(x) == !call_ensures(f, (&x,), false));
        Regex::NotSatisfy(p)
    }

    /// Any one element.
    pub fn any() -> (r: Self)
        ensures
            r matches Regex::Satisfy(p) && forall|x: T| p.holds(x),
            regex_wf(r),
    {
        let p = pred_always();
        assert(forall|x: T| p.holds(x));
        Regex::Satisfy(p)
    }

    /// Zero or one `reg`.
    pub fn zero_or_one(reg: Self, greedy: bool) -> (r: Self)
        ensures
            r matches Regex::ZeroOrOne(a, g) && *a == reg && g == greedy,
    {
        Regex::ZeroOrOne(Rc::new(reg), greedy)
    }

    /// One or more `reg`.
    pub fn repeat1(reg: Self, greedy: bool) -> (r: Self)
        ensures
            r matches Regex::Repeat1(a, g) && *a == reg && g == greedy,
    {
        Regex::Repeat1(Rc::new(reg), greedy)
    }

    /// Zero or more `reg`.
    pub fn repeat0(reg: Self, greedy: bool) -> (r: Self)
        ensures
            r matches Regex::Repeat0(a, g) && *a == reg && g == greedy,
    {
        Regex::Repeat0(Rc::new(reg), greedy)
    }

    /// Zero or one `reg`, preferring one: `zero_or_one`, greedy.
    pub fn lone(reg: Self) -> (r: Self)
        ensures
            r matches Regex::ZeroOrOne(a, g) && *a == reg && g,
    {
        Regex::zero_or_one(reg, true)
    }

    /// One or more `reg`, preferring more: `repeat1`, greedy.
    pub fn some(reg: Self) -> (r: Self)
        ensures
            r matches Regex::Repeat1(a, g) && *a == reg && g,
    {
        Regex::repeat1(reg, true)
    }

    /// Zero or more `reg`, preferring more: `repeat0`, greedy.
    pub fn star(reg: Self) -> (r: Self)
        ensures
            r matches Regex::Repeat0(a, g) && *a == reg && g,
    {
        Regex::repeat0(reg, true)
    }

    /// Exactly `n` times `reg`.
    pub fn repeat_n(reg: Self, n: usize) -> (r: Self)
        ensures
            r matches Regex::RepeatN(a, k) && *a == reg && k == n,
    {
        Regex::RepeatN(Rc::new(reg), n)
    }

    /// `n` or more times `reg`.
    pub fn repeat_n_or_more(reg: Self, n: usize, greedy: bool) -> (r: Self)
        ensures
            r matches Regex::RepeatMinMax(a, k, m, g) && *a == reg && k == n && m is None && g
                == greedy,
    {
        Regex::RepeatMinMax(Rc::new(reg), n, None, greedy)
    }

    /// Between `n` and `m` times `reg`.
    pub fn repeat_min_max(reg: Self, n: usize, m: usize, greedy: bool) -> (r: Self)
        ensures
            r matches Regex::RepeatMinMax(a, k, mm, g) && *a == reg && k == n && mm == Some(m) && g
                == greedy,
    {
        Regex::RepeatMinMax(Rc::new(reg), n, Some(m), greedy)
    }

    /// `r` followed by `s`.
    pub fn concat(r: Self, s: Self) -> (res: Self)
        ensures
            res matches Regex::Concat(a, b) && *a == r && *b == s,
    {
        Regex::Concat(Rc::new(r), Rc::new(s))
    }

    /// `r` or `s`, with `r` preferred.
    pub fn or(r: Self, s: Self) -> (res: Self)
        ensures
            res matches Regex::Or(a, b) && *a == r && *b == s,
    {
        Regex::Or(Rc::new(r), Rc::new(s))
    }

    /// A capturing group around `r`.
    pub fn group(r: Self) -> (res: Self)
        ensures
            res matches Regex::Group(a) && *a == r,
    {
        Regex::Group(Rc::new(r))
    }

    /// A capturing group around `r` that can be looked up as `name`.
    pub fn named_group(name: &str, r: Self) -> (res: Self)
        ensures
            res matches Regex::NamedGroup(n, a) && n@ == name@ && *a == r,
    {
        Regex::NamedGroup(name.to_owned(), Rc::new(r))
    }

    /// `r`, grouped without capture.
    pub fn non_capturing_group(r: Self) -> (res: Self)
        ensures
            res matches Regex::NonCapturingGroup(a) && *a == r,
    {
        Regex::NonCapturingGroup(Rc::new(r))
    }

    /// The anchor for the start of the input.
    pub fn begin() -> (res: Self)
        ensures
            res == Regex::<T>::Begin,
    {
        Regex::Begin
    }

    /// The anchor for the end of the input.
    pub fn end() -> (res: Self)
        ensures
            res == Regex::<T>::End,
    {
        Regex::End
    }

    /// One element equal to `value`.
    pub fn is(value: T) -> (r: Self) where T: PartialEq + 'static
        ensures
            is_literal(r, value),
    {
        let p = pred_equal_to(value);
        assert(forall|x: T| p.holds(x) == x.eq_spec(&value));
        Regex::Satisfy(p)
    }

    /// The elements of `values` one after the other.
    pub fn seq(values: &[T]) -> (r: Self) where T: PartialEq + Clone + 'static
        requires
            values@.len() >= 1,
        ensures
            exists|vs: Seq<T>|
                {
                    &&& vs.len() == values@.len()
                    &&& forall|i: int| 0 <= i < vs.len() ==> cloned(values@[i], #[trigger] vs[i])
                    &&& is_literal_seq(r, vs)
                },
    {
        let first = values[0].clone();
        let ghost mut vs: Seq<T> = seq![first];
        let mut reg = Regex::is(first);
        let mut i: usize = 1;
        while i < values.len()
            invariant
                1 <= i <= values@.len(),
                vs.len() == i,
                forall|k: int| 0 <= k < vs.len() ==> cloned(values@[k], #[trigger] vs[k]),
                is_literal_seq(reg, vs),
            decreases values@.len() - i,
        {
            let v = values[i].clone();
            let lit = Regex::is(v);
            proof {
                let ghost old_vs = vs;
                vs = vs.push(v);
                assert(vs.drop_last() =~= old_vs);
            }
            reg = Regex::concat(reg, lit);
            i += 1;
        }
        reg
    }
}

} // verus!
