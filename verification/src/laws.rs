//! Laws of matching, stated over the meaning of patterns.

use crate::compiler::{
    concat_all, expansion_parts, groups, lemma_concat_all, lemma_expansion, program_of,
    repeat_parts,
};
use crate::correctness::start_caps;
use crate::inst::{Caps, Op};
use crate::runner::ThreadPool;
use crate::matcher::{
    captures_of_match, lemma_record_is_valid, matches_somewhere, records, starts_first,
};
use crate::captures::Captures;
use crate::regex::{
    cut, inner, is_literal, is_literal_seq, matches_between, matches_times, regex_wf, reps, second,
    Regex,
};
use crate::semantics::{lemma_derives_matches, lemma_matches_in_bounds};
use std::rc::Rc;
use vstd::prelude::*;
use vstd::std_specs::cmp::PartialEqSpec;

verus! {

/// A pattern that matches the whole input matches some part of it.
pub proof fn law_full_match_is_match<T>(r: Regex<T>, xs: Seq<T>)
    requires
        matches_between(r, xs, 0, xs.len() as int),
    ensures
        matches_somewhere(r, xs),
{
}

/// The span recorded for a group lies in order inside the input: its start
/// is not behind its end, and both are positions of the input.
pub proof fn law_group_span_in_order<T>(
    r: Regex<T>,
    xs: Seq<T>,
    s: int,
    e: int,
    caps: Caps,
    g: int,
)
    requires
        regex_wf(r),
        records(r, xs, s, e, caps),
        g >= 1,
    ensures
        caps.span(g) matches Some(sp) ==> 0 <= sp.0 <= sp.1 <= xs.len(),
{
    lemma_record_is_valid(r, xs, s, e, caps, g);
}

/// The span of the whole match contains the span of every group.
pub proof fn law_whole_match_contains_groups<T>(
    r: Regex<T>,
    xs: Seq<T>,
    s: int,
    e: int,
    caps: Caps,
    g: int,
)
    requires
        regex_wf(r),
        records(r, xs, s, e, caps),
        g >= 1,
    ensures
        caps.span(g) matches Some(sp) ==> s <= sp.0 && sp.1 <= e,
{
    lemma_record_is_valid(r, xs, s, e, caps, g);
}

/// A pattern for a sequence of values matches from `i` only up to `i` plus
/// the number of the values.
pub proof fn lemma_literal_seq_length<T: PartialEq>(
    r: Regex<T>,
    vs: Seq<T>,
    xs: Seq<T>,
    i: int,
    j: int,
)
    requires
        is_literal_seq(r, vs),
        matches_between(r, xs, i, j),
    ensures
        j == i + vs.len(),
    decreases vs.len(),
{
    if vs.len() > 1 {
        let a = inner(r);
        let b = second(r);
        let k = choose|k: int| #[trigger]
            cut(k) && i <= k <= j && matches_between(a, xs, i, k) && matches_between(b, xs, k, j);
        lemma_literal_seq_length(a, vs.drop_last(), xs, i, k);
    }
}

/// A pattern for a sequence of values matches the sequence itself, where
/// every value equals itself.
pub proof fn lemma_literal_seq_matches<T: PartialEq>(r: Regex<T>, vs: Seq<T>, n: int)
    requires
        is_literal_seq(r, vs.subrange(0, n)),
        1 <= n <= vs.len(),
        forall|i: int| 0 <= i < vs.len() ==> (#[trigger] vs[i]).eq_spec(&vs[i]),
    ensures
        matches_between(r, vs, 0, n),
    decreases n,
{
    let part = vs.subrange(0, n);
    assert(part[n - 1] == vs[n - 1]);
    assert(vs[n - 1].eq_spec(&vs[n - 1]));
    if n > 1 {
        let a = inner(r);
        let b = second(r);
        assert(part.drop_last() =~= vs.subrange(0, n - 1));
        lemma_literal_seq_matches(a, vs, n - 1);
        assert(part.last() == vs[n - 1]);
        assert(matches_between(b, vs, n - 1, n));
        assert(cut(n - 1));
    } else {
        assert(part[0] == vs[0]);
    }
}

/// The pattern for a sequence of values, asked for the captures of that
/// very sequence, gives the whole sequence as the whole match and no
/// group, where every value equals itself.
pub proof fn law_seq_round_trip<T: PartialEq>(r: Regex<T>, vs: Seq<T>, c: Captures<'_, T>)
    requires
        is_literal_seq(r, vs),
        T::obeys_eq_spec(),
        forall|i: int| 0 <= i < vs.len() ==> (#[trigger] vs[i]).eq_spec(&vs[i]),
        captures_of_match(c, r, vs),
    ensures
        matches_somewhere(r, vs),
        c.span(0) == Some((0int, vs.len() as int)),
        c.count() == 1,
{
    assert(vs.subrange(0, vs.len() as int) =~= vs);
    lemma_literal_seq_matches(r, vs, vs.len() as int);
    lemma_literal_seq_groups(r, vs);
    lemma_literal_seq_wf(r, vs);
    let (s, e, caps) = choose|s: int, e: int, caps: Caps| #[trigger]
        records(r, vs, s, e, caps) && c.span(0) == Some((s, e)) && c.names() == caps.names
            && starts_first(r, vs, s) && forall|g: int|
            1 <= g < c.count() ==> #[trigger] c.span(g) == caps.span(g);
    lemma_derives_matches(r, 1, vs, s, e, start_caps(r, s), caps);
    lemma_literal_seq_length(r, vs, vs, s, e);
    lemma_matches_in_bounds(r, vs, s, e);
}

/// A pattern for a sequence of values has no group.
pub proof fn lemma_literal_seq_groups<T: PartialEq>(r: Regex<T>, vs: Seq<T>)
    requires
        is_literal_seq(r, vs),
    ensures
        groups(r) == 0,
    decreases vs.len(),
{
    if vs.len() > 1 {
        lemma_literal_seq_groups(inner(r), vs.drop_last());
        assert(is_literal(second(r), vs.last()));
        assert(groups(r) == groups(inner(r)) + groups(second(r)));
    } else {
        assert(is_literal(r, vs[0]));
    }
}

/// A pattern for a sequence of values is well formed where equality on the
/// values is.
pub proof fn lemma_literal_seq_wf<T: PartialEq>(r: Regex<T>, vs: Seq<T>)
    requires
        is_literal_seq(r, vs),
    ensures
        regex_wf(r) == T::obeys_eq_spec(),
    decreases vs.len(),
{
    if vs.len() > 1 {
        lemma_literal_seq_wf(inner(r), vs.drop_last());
        assert(is_literal(second(r), vs.last()));
        assert(regex_wf(r) == (regex_wf(inner(r)) && regex_wf(second(r))));
    } else {
        assert(is_literal(r, vs[0]));
    }
}

/// A repetition by count compiles to the very program of its copies
/// concatenated, so no question can tell the two apart.
pub proof fn law_repeat_n_is_concat<T>(a: Rc<Regex<T>>, n: usize)
    requires
        n >= 1,
    ensures
        program_of(Regex::RepeatN(a, n)) == program_of(concat_all(repeat_parts(a, n as nat))),
{
    let r = Regex::RepeatN(a, n);
    lemma_expansion(r, 0, 1);
    lemma_concat_all(expansion_parts(r), 0, 1);
}

/// A pattern repeated zero times matches the empty part at every position
/// and nothing else; so it matches the whole of the empty input.
pub proof fn law_empty_pattern<T>(a: Rc<Regex<T>>, xs: Seq<T>, i: int, j: int)
    ensures
        matches_between(Regex::RepeatN(a, 0), xs, i, j) == (i == j && 0 <= i <= xs.len()),
{
    assert(matches_times(*a, 0, xs, i, j) == (i == j && 0 <= i <= xs.len()));
}

/// On the empty input only the empty match exists.
pub proof fn law_empty_input<T>(r: Regex<T>, xs: Seq<T>, i: int, j: int)
    requires
        xs.len() == 0,
        matches_between(r, xs, i, j),
    ensures
        i == 0,
        j == 0,
{
    lemma_matches_in_bounds(r, xs, i, j);
}

/// The start anchor matches at position 0 only, and the end anchor at the
/// end of the input only; both match nothing but the empty part.
pub proof fn law_anchors<T>(xs: Seq<T>, i: int, j: int)
    ensures
        matches_between(Regex::<T>::Begin, xs, i, j) == (i == 0 && j == 0),
        matches_between(Regex::<T>::End, xs, i, j) == (i == xs.len() && j == xs.len()),
{
}

/// A repetition between zero and zero times matches the empty part only.
pub proof fn law_repeat_zero_to_zero<T>(a: Rc<Regex<T>>, greedy: bool, xs: Seq<T>, i: int, j: int)
    ensures
        matches_between(Regex::RepeatMinMax(a, 0, Some(0), greedy), xs, i, j) == (i == j && 0 <= i
            <= xs.len()),
{
    let r = Regex::RepeatMinMax(a, 0, Some(0), greedy);
    if matches_between(r, xs, i, j) {
        let k = choose|k: nat| #[trigger]
            reps(k) && 0 <= k && k <= 0 && matches_times(*a, k, xs, i, j);
        assert(k == 0);
    }
    if i == j && 0 <= i <= xs.len() {
        assert(reps(0) && matches_times(*a, 0, xs, i, j));
    }
}

/// A pool of threads never holds more threads than the program has
/// instructions, and no two of its threads stand at the same instruction.
pub proof fn law_pool_is_bounded<T>(pool: ThreadPool, ops: Seq<Op<T>>, sp: int, at_end: bool)
    requires
        pool.wf(ops, sp, at_end),
    ensures
        pool.threads@.len() <= ops.len(),
        forall|i: int, j: int|
            0 <= i < pool.threads@.len() && 0 <= j < pool.threads@.len() && i != j ==> (
            #[trigger] pool.threads@[i]).pc != (#[trigger] pool.threads@[j]).pc,
{
}

} // verus!
