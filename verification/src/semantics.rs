//! What a pattern records while it matches, and how that relates to
//! plain matching.

use crate::compiler::groups;
use crate::inst::Caps;
use crate::regex::{
    count_of, cut, extra_of, inner, matches_between, matches_times, name_of, regex_wf, reps, second,
    Regex,
};
use vstd::prelude::*;

verus! {

/// Marks the position and the record at which a match is cut in two. It
/// holds always, and gives the quantifiers a term to be instantiated by.
pub open spec fn mid(k: int, cm: Caps) -> bool {
    true
}

/// `r`, with its first group numbered `g0`, matches `xs` from `i` up to
/// `j`, and a thread that has recorded `c0` before has recorded `c1` after.
pub open spec fn derives<T>(
    r: Regex<T>,
    g0: int,
    xs: Seq<T>,
    i: int,
    j: int,
    c0: Caps,
    c1: Caps,
) -> bool
    decreases r, 0nat, 0nat,
{
    match r {
        Regex::Satisfy(p) => 0 <= i < xs.len() && j == i + 1 && p.holds(xs[i]) && c1 == c0,
        Regex::NotSatisfy(p) => 0 <= i < xs.len() && j == i + 1 && !p.holds(xs[i]) && c1 == c0,
        Regex::Concat(a, b) => exists|k: int, cm: Caps| #[trigger]
            mid(k, cm) && derives(*a, g0, xs, i, k, c0, cm) && derives(
                *b,
                g0 + groups(*a),
                xs,
                k,
                j,
                cm,
                c1,
            ),
        Regex::Group(a) => exists|cm: Caps| #[trigger]
            mid(j, cm) && derives(*a, g0 + 1, xs, i, j, c0.mark_open(g0, i), cm) && c1
                == cm.mark_close(g0, j),
        Regex::NamedGroup(name, a) => exists|cm: Caps| #[trigger]
            mid(j, cm) && derives(*a, g0 + 1, xs, i, j, c0.mark_open(g0, i).bind(name@, g0), cm)
                && c1 == cm.mark_close(g0, j).bind(name@, g0),
        Regex::NonCapturingGroup(a) => derives(*a, g0, xs, i, j, c0, c1),
        Regex::Or(a, b) => derives(*a, g0, xs, i, j, c0, c1) || derives(
            *b,
            g0 + groups(*a),
            xs,
            i,
            j,
            c0,
            c1,
        ),
        Regex::ZeroOrOne(a, _) => (i == j && 0 <= i <= xs.len() && c1 == c0) || derives(
            *a,
            g0,
            xs,
            i,
            j,
            c0,
            c1,
        ),
        Regex::Repeat0(a, _) => exists|n: nat| #[trigger]
            reps(n) && derives_rep(*a, g0, 0, n, xs, i, j, c0, c1),
        Regex::Repeat1(a, _) => exists|n: nat| #[trigger]
            reps(n) && n >= 1 && derives_rep(*a, g0, 0, n, xs, i, j, c0, c1),
        Regex::RepeatN(a, n) => derives_rep(*a, g0, groups(*a) as int, n as nat, xs, i, j, c0, c1),
        Regex::RepeatMinMax(a, n, m, _) => match m {
            Some(mm) => exists|k: int, cm: Caps| #[trigger]
                mid(k, cm) && derives_rep(*a, g0, groups(*a) as int, n as nat, xs, i, k, c0, cm)
                    && derives_opt(
                    *a,
                    g0 + n * groups(*a),
                    if mm >= n {
                        (mm - n) as nat
                    } else {
                        0
                    },
                    xs,
                    k,
                    j,
                    cm,
                    c1,
                ),
            None => if n == 0 {
                exists|t: nat| #[trigger] reps(t) && derives_rep(*a, g0, 0, t, xs, i, j, c0, c1)
            } else {
                exists|k: int, cm: Caps, t: nat|
                    #![trigger mid(k, cm), reps(t)]
                    mid(k, cm) && reps(t) && t >= 1 && derives_rep(
                        *a,
                        g0,
                        groups(*a) as int,
                        (n - 1) as nat,
                        xs,
                        i,
                        k,
                        c0,
                        cm,
                    ) && derives_rep(
                        *a,
                        g0 + (n - 1) * groups(*a),
                        0,
                        t,
                        xs,
                        k,
                        j,
                        cm,
                        c1,
                    )
            },
        },
        Regex::Begin => i == j && i == 0 && c1 == c0,
        Regex::End => i == j && i == xs.len() && c1 == c0,
    }
}

/// `n` matches of `r` in a row, the groups of each numbered `stride`
/// higher than those of the one before: with stride 0, turns of one loop;
/// with the number of groups of `r` as stride, `n` copies of `r`.
pub open spec fn derives_rep<T>(
    r: Regex<T>,
    g0: int,
    stride: int,
    n: nat,
    xs: Seq<T>,
    i: int,
    j: int,
    c0: Caps,
    c1: Caps,
) -> bool
    decreases r, 1nat, n,
{
    if n == 0 {
        i == j && 0 <= i <= xs.len() && c1 == c0
    } else {
        exists|k: int, cm: Caps| #[trigger]
            mid(k, cm) && derives(r, g0, xs, i, k, c0, cm) && derives_rep(
                r,
                g0 + stride,
                stride,
                (n - 1) as nat,
                xs,
                k,
                j,
                cm,
                c1,
            )
    }
}

/// `n` copies of "zero or one `r`" in a row.
pub open spec fn derives_opt<T>(
    r: Regex<T>,
    g0: int,
    n: nat,
    xs: Seq<T>,
    i: int,
    j: int,
    c0: Caps,
    c1: Caps,
) -> bool
    decreases r, 1nat, n,
{
    if n == 0 {
        i == j && 0 <= i <= xs.len() && c1 == c0
    } else {
        exists|k: int, cm: Caps| #[trigger]
            mid(k, cm) && ((k == i && 0 <= i <= xs.len() && cm == c0) || derives(
                r,
                g0,
                xs,
                i,
                k,
                c0,
                cm,
            )) && derives_opt(r, g0 + groups(r), (n - 1) as nat, xs, k, j, cm, c1)
    }
}

/// What matches lies inside the input.
pub proof fn lemma_matches_in_bounds<T>(r: Regex<T>, xs: Seq<T>, i: int, j: int)
    requires
        matches_between(r, xs, i, j),
    ensures
        0 <= i <= j <= xs.len(),
    decreases r, 0nat, 0nat,
{
    let a = inner(r);
    let b = second(r);
    match r {
        Regex::Concat(..) => {
            let k = choose|k: int| #[trigger]
                cut(k) && i <= k <= j && matches_between(a, xs, i, k) && matches_between(
                    b,
                    xs,
                    k,
                    j,
                );
            lemma_matches_in_bounds(a, xs, i, k);
            lemma_matches_in_bounds(b, xs, k, j);
        },
        Regex::Group(..) => {
            lemma_matches_in_bounds(a, xs, i, j);
        },
        Regex::NamedGroup(..) => {
            lemma_matches_in_bounds(a, xs, i, j);
        },
        Regex::NonCapturingGroup(..) => {
            lemma_matches_in_bounds(a, xs, i, j);
        },
        Regex::Or(..) => {
            if matches_between(a, xs, i, j) {
                lemma_matches_in_bounds(a, xs, i, j);
            } else {
                lemma_matches_in_bounds(b, xs, i, j);
            }
        },
        Regex::ZeroOrOne(..) => {
            if !(i == j && 0 <= i <= xs.len()) {
                lemma_matches_in_bounds(a, xs, i, j);
            }
        },
        Regex::Repeat0(..) => {
            let n = choose|n: nat| #[trigger] reps(n) && matches_times(a, n, xs, i, j);
            lemma_times_in_bounds(a, n, xs, i, j);
        },
        Regex::Repeat1(..) => {
            let n = choose|n: nat| #[trigger] reps(n) && n >= 1 && matches_times(a, n, xs, i, j);
            lemma_times_in_bounds(a, n, xs, i, j);
        },
        Regex::RepeatN(..) => {
            lemma_times_in_bounds(a, count_of(r), xs, i, j);
        },
        Regex::RepeatMinMax(_, n, m, _) => {
            let k = choose|k: nat| #[trigger]
                reps(k) && n <= k && (m matches Some(mm) ==> k <= mm) && matches_times(
                    a,
                    k,
                    xs,
                    i,
                    j,
                );
            lemma_times_in_bounds(a, k, xs, i, j);
        },
        _ => {},
    }
}

/// What matches a number of times lies inside the input.
pub proof fn lemma_times_in_bounds<T>(r: Regex<T>, n: nat, xs: Seq<T>, i: int, j: int)
    requires
        matches_times(r, n, xs, i, j),
    ensures
        0 <= i <= j <= xs.len(),
    decreases r, 1nat, n,
{
    if n > 0 {
        let k = choose|k: int| #[trigger]
            cut(k) && i <= k <= j && matches_between(r, xs, i, k) && matches_times(
                r,
                (n - 1) as nat,
                xs,
                k,
                j,
            );
        lemma_matches_in_bounds(r, xs, i, k);
        lemma_times_in_bounds(r, (n - 1) as nat, xs, k, j);
    }
}

/// `n1` matches and then `n2` matches make `n1 + n2` matches.
pub proof fn lemma_times_add<T>(
    r: Regex<T>,
    n1: nat,
    n2: nat,
    xs: Seq<T>,
    i: int,
    k: int,
    j: int,
)
    requires
        matches_times(r, n1, xs, i, k),
        matches_times(r, n2, xs, k, j),
    ensures
        matches_times(r, n1 + n2, xs, i, j),
    decreases n1,
{
    lemma_times_in_bounds(r, n1, xs, i, k);
    lemma_times_in_bounds(r, n2, xs, k, j);
    if n1 > 0 {
        let m = choose|m: int| #[trigger]
            cut(m) && i <= m <= k && matches_between(r, xs, i, m) && matches_times(
                r,
                (n1 - 1) as nat,
                xs,
                m,
                k,
            );
        lemma_times_add(r, (n1 - 1) as nat, n2, xs, m, k, j);
        lemma_times_in_bounds(r, (n1 + n2 - 1) as nat, xs, m, j);
        assert(cut(m) && matches_between(r, xs, i, m) && matches_times(
            r,
            (n1 + n2 - 1) as nat,
            xs,
            m,
            j,
        ));
    }
}

/// `n1 + n2` matches are `n1` matches and then `n2` matches.
pub proof fn lemma_times_split<T>(r: Regex<T>, n1: nat, n2: nat, xs: Seq<T>, i: int, j: int) -> (k:
    int)
    requires
        matches_times(r, n1 + n2, xs, i, j),
    ensures
        matches_times(r, n1, xs, i, k),
        matches_times(r, n2, xs, k, j),
    decreases n1,
{
    lemma_times_in_bounds(r, n1 + n2, xs, i, j);
    if n1 == 0 {
        i
    } else {
        let m = choose|m: int| #[trigger]
            cut(m) && i <= m <= j && matches_between(r, xs, i, m) && matches_times(
                r,
                (n1 + n2 - 1) as nat,
                xs,
                m,
                j,
            );
        let k = lemma_times_split(r, (n1 - 1) as nat, n2, xs, m, j);
        lemma_times_in_bounds(r, (n1 - 1) as nat, xs, m, k);
        assert(cut(m) && matches_between(r, xs, i, m) && matches_times(
            r,
            (n1 - 1) as nat,
            xs,
            m,
            k,
        ));
        k
    }
}

} // verus!


verus! {

/// What a pattern matches while recording, it matches.
pub proof fn lemma_derives_matches<T>(
    r: Regex<T>,
    g0: int,
    xs: Seq<T>,
    i: int,
    j: int,
    c0: Caps,
    c1: Caps,
)
    requires
        regex_wf(r),
        derives(r, g0, xs, i, j, c0, c1),
    ensures
        matches_between(r, xs, i, j),
    decreases r, 0nat, 0nat,
{
    let a = inner(r);
    let b = second(r);
    let n = count_of(r);
    let gs = groups(a) as int;
    match r {
        Regex::Concat(..) => {
            let (k, cm) = choose|k: int, cm: Caps| #[trigger]
                mid(k, cm) && derives(a, g0, xs, i, k, c0, cm) && derives(
                    b,
                    g0 + gs,
                    xs,
                    k,
                    j,
                    cm,
                    c1,
                );
            lemma_derives_matches(a, g0, xs, i, k, c0, cm);
            lemma_derives_matches(b, g0 + gs, xs, k, j, cm, c1);
            lemma_matches_in_bounds(a, xs, i, k);
            lemma_matches_in_bounds(b, xs, k, j);
            assert(cut(k));
        },
        Regex::Group(..) => {
            let cm = choose|cm: Caps| #[trigger]
                mid(j, cm) && derives(a, g0 + 1, xs, i, j, c0.mark_open(g0, i), cm) && c1
                    == cm.mark_close(g0, j);
            lemma_derives_matches(a, g0 + 1, xs, i, j, c0.mark_open(g0, i), cm);
        },
        Regex::NamedGroup(..) => {
            let name = name_of(r);
            let cm = choose|cm: Caps| #[trigger]
                mid(j, cm) && derives(a, g0 + 1, xs, i, j, c0.mark_open(g0, i).bind(name, g0), cm)
                    && c1 == cm.mark_close(g0, j).bind(name, g0);
            lemma_derives_matches(a, g0 + 1, xs, i, j, c0.mark_open(g0, i).bind(name, g0), cm);
        },
        Regex::NonCapturingGroup(..) => {
            lemma_derives_matches(a, g0, xs, i, j, c0, c1);
        },
        Regex::Or(..) => {
            if derives(a, g0, xs, i, j, c0, c1) {
                lemma_derives_matches(a, g0, xs, i, j, c0, c1);
            } else {
                lemma_derives_matches(b, g0 + gs, xs, i, j, c0, c1);
            }
        },
        Regex::ZeroOrOne(..) => {
            if !(i == j && 0 <= i <= xs.len() && c1 == c0) {
                lemma_derives_matches(a, g0, xs, i, j, c0, c1);
            }
        },
        Regex::Repeat0(..) => {
            let t = choose|t: nat| #[trigger] reps(t) && derives_rep(a, g0, 0, t, xs, i, j, c0, c1);
            lemma_rep_matches(a, g0, 0, t, xs, i, j, c0, c1);
        },
        Regex::Repeat1(..) => {
            let t = choose|t: nat| #[trigger]
                reps(t) && t >= 1 && derives_rep(a, g0, 0, t, xs, i, j, c0, c1);
            lemma_rep_matches(a, g0, 0, t, xs, i, j, c0, c1);
        },
        Regex::RepeatN(..) => {
            lemma_rep_matches(a, g0, gs, n, xs, i, j, c0, c1);
        },
        Regex::RepeatMinMax(_, _, Some(_), _) => {
            let extra = extra_of(r);
            let (k, cm) = choose|k: int, cm: Caps| #[trigger]
                mid(k, cm) && derives_rep(a, g0, gs, n, xs, i, k, c0, cm) && derives_opt(
                    a,
                    g0 + n * gs,
                    extra,
                    xs,
                    k,
                    j,
                    cm,
                    c1,
                );
            lemma_rep_matches(a, g0, gs, n, xs, i, k, c0, cm);
            let t = lemma_opt_matches(a, g0 + n * gs, extra, xs, k, j, cm, c1);
            lemma_times_add(a, n, t, xs, i, k, j);
            assert(reps(n + t));
        },
        Regex::RepeatMinMax(_, _, None, _) => {
            if n == 0 {
                let t = choose|t: nat| #[trigger]
                    reps(t) && derives_rep(a, g0, 0, t, xs, i, j, c0, c1);
                lemma_rep_matches(a, g0, 0, t, xs, i, j, c0, c1);
            } else {
                let (k, cm, t) = choose|k: int, cm: Caps, t: nat|
                    #![trigger mid(k, cm), reps(t)]
                    mid(k, cm) && reps(t) && t >= 1 && derives_rep(a, g0, gs, (n - 1) as nat, xs, i, k, c0, cm)
                        && derives_rep(a, g0 + (n - 1) * gs, 0, t, xs, k, j, cm, c1);
                lemma_rep_matches(a, g0, gs, (n - 1) as nat, xs, i, k, c0, cm);
                lemma_rep_matches(a, g0 + (n - 1) * gs, 0, t, xs, k, j, cm, c1);
                lemma_times_add(a, (n - 1) as nat, t, xs, i, k, j);
                assert(reps((n - 1 + t) as nat));
            }
        },
        _ => {},
    }
}

/// What a pattern matches `n` times in a row while recording, it matches
/// `n` times.
pub proof fn lemma_rep_matches<T>(
    r: Regex<T>,
    g0: int,
    stride: int,
    n: nat,
    xs: Seq<T>,
    i: int,
    j: int,
    c0: Caps,
    c1: Caps,
)
    requires
        regex_wf(r),
        derives_rep(r, g0, stride, n, xs, i, j, c0, c1),
    ensures
        matches_times(r, n, xs, i, j),
    decreases r, 1nat, n,
{
    if n > 0 {
        let (k, cm) = choose|k: int, cm: Caps| #[trigger]
            mid(k, cm) && derives(r, g0, xs, i, k, c0, cm) && derives_rep(
                r,
                g0 + stride,
                stride,
                (n - 1) as nat,
                xs,
                k,
                j,
                cm,
                c1,
            );
        lemma_derives_matches(r, g0, xs, i, k, c0, cm);
        lemma_rep_matches(r, g0 + stride, stride, (n - 1) as nat, xs, k, j, cm, c1);
        lemma_matches_in_bounds(r, xs, i, k);
        lemma_times_in_bounds(r, (n - 1) as nat, xs, k, j);
        assert(cut(k));
    }
}

/// What `n` optional copies of a pattern match while recording, the pattern
/// matches some number of times up to `n`.
pub proof fn lemma_opt_matches<T>(
    r: Regex<T>,
    g0: int,
    n: nat,
    xs: Seq<T>,
    i: int,
    j: int,
    c0: Caps,
    c1: Caps,
) -> (t: nat)
    requires
        regex_wf(r),
        derives_opt(r, g0, n, xs, i, j, c0, c1),
    ensures
        t <= n,
        matches_times(r, t, xs, i, j),
    decreases r, 1nat, n,
{
    if n == 0 {
        0
    } else {
        let (k, cm) = choose|k: int, cm: Caps| #[trigger]
            mid(k, cm) && ((k == i && 0 <= i <= xs.len() && cm == c0) || derives(
                r,
                g0,
                xs,
                i,
                k,
                c0,
                cm,
            )) && derives_opt(r, g0 + groups(r), (n - 1) as nat, xs, k, j, cm, c1);
        let t = lemma_opt_matches(r, g0 + groups(r), (n - 1) as nat, xs, k, j, cm, c1);
        if derives(r, g0, xs, i, k, c0, cm) {
            lemma_derives_matches(r, g0, xs, i, k, c0, cm);
            lemma_matches_in_bounds(r, xs, i, k);
            lemma_times_in_bounds(r, t, xs, k, j);
            assert(cut(k));
            assert(matches_times(r, t + 1, xs, i, j));
            t + 1
        } else {
            t
        }
    }
}

/// What a pattern matches, it matches while recording, whatever was
/// recorded before.
pub proof fn lemma_matches_derives<T>(
    r: Regex<T>,
    g0: int,
    xs: Seq<T>,
    i: int,
    j: int,
    c0: Caps,
) -> (c1: Caps)
    requires
        matches_between(r, xs, i, j),
    ensures
        derives(r, g0, xs, i, j, c0, c1),
    decreases r, 0nat, 0nat,
{
    let a = inner(r);
    let b = second(r);
    let n = count_of(r);
    let gs = groups(a) as int;
    match r {
        Regex::Concat(..) => {
            let k = choose|k: int| #[trigger]
                cut(k) && i <= k <= j && matches_between(a, xs, i, k) && matches_between(
                    b,
                    xs,
                    k,
                    j,
                );
            let cm = lemma_matches_derives(a, g0, xs, i, k, c0);
            let c1 = lemma_matches_derives(b, g0 + gs, xs, k, j, cm);
            assert(mid(k, cm));
            c1
        },
        Regex::Group(..) => {
            let cm = lemma_matches_derives(a, g0 + 1, xs, i, j, c0.mark_open(g0, i));
            assert(mid(j, cm));
            cm.mark_close(g0, j)
        },
        Regex::NamedGroup(..) => {
            let name = name_of(r);
            let cm = lemma_matches_derives(a, g0 + 1, xs, i, j, c0.mark_open(g0, i).bind(name, g0));
            assert(mid(j, cm));
            cm.mark_close(g0, j).bind(name, g0)
        },
        Regex::NonCapturingGroup(..) => lemma_matches_derives(a, g0, xs, i, j, c0),
        Regex::Or(..) => {
            if matches_between(a, xs, i, j) {
                lemma_matches_derives(a, g0, xs, i, j, c0)
            } else {
                lemma_matches_derives(b, g0 + gs, xs, i, j, c0)
            }
        },
        Regex::ZeroOrOne(..) => {
            if matches_between(a, xs, i, j) {
                lemma_matches_derives(a, g0, xs, i, j, c0)
            } else {
                c0
            }
        },
        Regex::Repeat0(..) => {
            let t = choose|t: nat| #[trigger] reps(t) && matches_times(a, t, xs, i, j);
            let c1 = lemma_times_derives(a, g0, 0, t, xs, i, j, c0);
            assert(reps(t));
            c1
        },
        Regex::Repeat1(..) => {
            let t = choose|t: nat| #[trigger] reps(t) && t >= 1 && matches_times(a, t, xs, i, j);
            let c1 = lemma_times_derives(a, g0, 0, t, xs, i, j, c0);
            assert(reps(t));
            c1
        },
        Regex::RepeatN(..) => lemma_times_derives(a, g0, gs, n, xs, i, j, c0),
        Regex::RepeatMinMax(_, _, Some(mm), _) => {
            let extra = extra_of(r);
            let k = choose|k: nat| #[trigger]
                reps(k) && n <= k && k <= mm && matches_times(a, k, xs, i, j);
            let m = lemma_times_split(a, n, (k - n) as nat, xs, i, j);
            let cm = lemma_times_derives(a, g0, gs, n, xs, i, m, c0);
            let c1 = lemma_times_opt(a, g0 + n * gs, (k - n) as nat, extra, xs, m, j, cm);
            assert(mid(m, cm));
            c1
        },
        Regex::RepeatMinMax(_, _, None, _) => {
            let k = choose|k: nat| #[trigger] reps(k) && n <= k && matches_times(a, k, xs, i, j);
            if n == 0 {
                let c1 = lemma_times_derives(a, g0, 0, k, xs, i, j, c0);
                assert(reps(k));
                c1
            } else {
                let t = (k - n + 1) as nat;
                let m = lemma_times_split(a, (n - 1) as nat, t, xs, i, j);
                let cm = lemma_times_derives(a, g0, gs, (n - 1) as nat, xs, i, m, c0);
                let c1 = lemma_times_derives(a, g0 + (n - 1) * gs, 0, t, xs, m, j, cm);
                assert(mid(m, cm) && reps(t));
                c1
            }
        },
        _ => c0,
    }
}

/// What a pattern matches `n` times, it matches `n` times in a row while
/// recording.
pub proof fn lemma_times_derives<T>(
    r: Regex<T>,
    g0: int,
    stride: int,
    n: nat,
    xs: Seq<T>,
    i: int,
    j: int,
    c0: Caps,
) -> (c1: Caps)
    requires
        matches_times(r, n, xs, i, j),
    ensures
        derives_rep(r, g0, stride, n, xs, i, j, c0, c1),
    decreases r, 1nat, n,
{
    if n == 0 {
        c0
    } else {
        let k = choose|k: int| #[trigger]
            cut(k) && i <= k <= j && matches_between(r, xs, i, k) && matches_times(
                r,
                (n - 1) as nat,
                xs,
                k,
                j,
            );
        let cm = lemma_matches_derives(r, g0, xs, i, k, c0);
        let c1 = lemma_times_derives(r, g0 + stride, stride, (n - 1) as nat, xs, k, j, cm);
        assert(mid(k, cm));
        c1
    }
}

/// What a pattern matches `t` times, `n` optional copies of it match while
/// recording, where `t` is at most `n`: the first `t` copies match and the
/// others are passed over.
pub proof fn lemma_times_opt<T>(
    r: Regex<T>,
    g0: int,
    t: nat,
    n: nat,
    xs: Seq<T>,
    i: int,
    j: int,
    c0: Caps,
) -> (c1: Caps)
    requires
        t <= n,
        matches_times(r, t, xs, i, j),
    ensures
        derives_opt(r, g0, n, xs, i, j, c0, c1),
    decreases r, 1nat, n,
{
    lemma_times_in_bounds(r, t, xs, i, j);
    if n == 0 {
        c0
    } else if t == 0 {
        let c1 = lemma_times_opt(r, g0 + groups(r), 0, (n - 1) as nat, xs, i, j, c0);
        assert(mid(i, c0));
        c1
    } else {
        let k = choose|k: int| #[trigger]
            cut(k) && i <= k <= j && matches_between(r, xs, i, k) && matches_times(
                r,
                (t - 1) as nat,
                xs,
                k,
                j,
            );
        let cm = lemma_matches_derives(r, g0, xs, i, k, c0);
        let c1 = lemma_times_opt(r, g0 + groups(r), (t - 1) as nat, (n - 1) as nat, xs, k, j, cm);
        assert(mid(k, cm));
        c1
    }
}

} // verus!

verus! {

/// Both slots of group `g` hold in `c1` what they hold in `c0`.
pub open spec fn pair_kept(c0: Caps, c1: Caps, g: int) -> bool {
    c1.slots[2 * g] == c0.slots[2 * g] && c1.slots[2 * g + 1] == c0.slots[2 * g + 1]
}

/// Both slots of group `g` are written in `c1`, and the span they give lies
/// in order between `i` and `j`.
pub open spec fn pair_set(c1: Caps, g: int, i: int, j: int) -> bool {
    c1.slots[2 * g] matches Some(a) && c1.slots[2 * g + 1] matches Some(b) && i <= a <= b <= j
}

/// From `c0` to `c1` only groups from `glo` up to `ghi` were recorded, each
/// of them with both its ends, in order and between `i` and `j`.
pub open spec fn framed(c0: Caps, c1: Caps, glo: int, ghi: int, i: int, j: int) -> bool {
    &&& c1.slots.len() == c0.slots.len()
    &&& forall|g: int|
        0 <= g && 2 * g + 1 < c0.slots.len() ==> #[trigger] pair_kept(c0, c1, g) || (glo <= g < ghi
            && pair_set(c1, g, i, j))
}

/// What was recorded in two steps, one after the other, was recorded.
pub proof fn lemma_framed_join(
    c0: Caps,
    cm: Caps,
    c1: Caps,
    glo1: int,
    ghi1: int,
    glo2: int,
    ghi2: int,
    glo: int,
    ghi: int,
    i: int,
    k: int,
    j: int,
)
    requires
        framed(c0, cm, glo1, ghi1, i, k),
        framed(cm, c1, glo2, ghi2, k, j),
        glo <= glo1,
        ghi1 <= ghi,
        glo <= glo2,
        ghi2 <= ghi,
        i <= k <= j,
    ensures
        framed(c0, c1, glo, ghi, i, j),
{
    assert forall|g: int| 0 <= g && 2 * g + 1 < c0.slots.len() implies #[trigger] pair_kept(
        c0,
        c1,
        g,
    ) || (glo <= g < ghi && pair_set(c1, g, i, j)) by {
        assert(pair_kept(c0, cm, g) || (glo1 <= g < ghi1 && pair_set(cm, g, i, k)));
        assert(pair_kept(cm, c1, g) || (glo2 <= g < ghi2 && pair_set(c1, g, k, j)));
    }
}

/// What a pattern records while it matches are spans of its own groups,
/// each in order and inside the match.
pub proof fn lemma_derives_framed<T>(
    r: Regex<T>,
    g0: int,
    xs: Seq<T>,
    i: int,
    j: int,
    c0: Caps,
    c1: Caps,
)
    requires
        regex_wf(r),
        derives(r, g0, xs, i, j, c0, c1),
    ensures
        framed(c0, c1, g0, g0 + groups(r), i, j),
        0 <= i <= j <= xs.len(),
    decreases r, 0nat, 0nat,
{
    let a = inner(r);
    let b = second(r);
    let n = count_of(r);
    let gs = groups(a) as int;
    let ghi = g0 + groups(r);
    lemma_derives_matches(r, g0, xs, i, j, c0, c1);
    lemma_matches_in_bounds(r, xs, i, j);
    match r {
        Regex::Concat(..) => {
            let (k, cm) = choose|k: int, cm: Caps| #[trigger]
                mid(k, cm) && derives(a, g0, xs, i, k, c0, cm) && derives(
                    b,
                    g0 + gs,
                    xs,
                    k,
                    j,
                    cm,
                    c1,
                );
            lemma_derives_framed(a, g0, xs, i, k, c0, cm);
            lemma_derives_framed(b, g0 + gs, xs, k, j, cm, c1);
            lemma_framed_join(c0, cm, c1, g0, g0 + gs, g0 + gs, ghi, g0, ghi, i, k, j);
        },
        Regex::Group(..) => {
            let opened = c0.mark_open(g0, i);
            let cm = choose|cm: Caps| #[trigger]
                mid(j, cm) && derives(a, g0 + 1, xs, i, j, opened, cm) && c1 == cm.mark_close(
                    g0,
                    j,
                );
            lemma_derives_framed(a, g0 + 1, xs, i, j, opened, cm);
            lemma_group_framed(c0, opened, cm, c1, g0, ghi, i, j);
        },
        Regex::NamedGroup(..) => {
            let name = name_of(r);
            let opened = c0.mark_open(g0, i).bind(name, g0);
            let cm = choose|cm: Caps| #[trigger]
                mid(j, cm) && derives(a, g0 + 1, xs, i, j, opened, cm) && c1 == cm.mark_close(
                    g0,
                    j,
                ).bind(name, g0);
            lemma_derives_framed(a, g0 + 1, xs, i, j, opened, cm);
            lemma_group_framed(c0, opened, cm, c1, g0, ghi, i, j);
        },
        Regex::NonCapturingGroup(..) => {
            lemma_derives_framed(a, g0, xs, i, j, c0, c1);
        },
        Regex::Or(..) => {
            if derives(a, g0, xs, i, j, c0, c1) {
                lemma_derives_framed(a, g0, xs, i, j, c0, c1);
                lemma_framed_join(c0, c0, c1, g0, g0, g0, g0 + gs, g0, ghi, i, i, j);
            } else {
                lemma_derives_framed(b, g0 + gs, xs, i, j, c0, c1);
                lemma_framed_join(c0, c0, c1, g0, g0, g0 + gs, ghi, g0, ghi, i, i, j);
            }
        },
        Regex::ZeroOrOne(..) => {
            if !(i == j && 0 <= i <= xs.len() && c1 == c0) {
                lemma_derives_framed(a, g0, xs, i, j, c0, c1);
            }
        },
        Regex::Repeat0(..) => {
            let t = choose|t: nat| #[trigger] reps(t) && derives_rep(a, g0, 0, t, xs, i, j, c0, c1);
            lemma_loop_framed(a, g0, t, xs, i, j, c0, c1);
        },
        Regex::Repeat1(..) => {
            let t = choose|t: nat| #[trigger]
                reps(t) && t >= 1 && derives_rep(a, g0, 0, t, xs, i, j, c0, c1);
            lemma_loop_framed(a, g0, t, xs, i, j, c0, c1);
        },
        Regex::RepeatN(..) => {
            lemma_copies_framed(a, g0, n, xs, i, j, c0, c1);
        },
        Regex::RepeatMinMax(_, _, Some(_), _) => {
            let extra = extra_of(r);
            let (k, cm) = choose|k: int, cm: Caps| #[trigger]
                mid(k, cm) && derives_rep(a, g0, gs, n, xs, i, k, c0, cm) && derives_opt(
                    a,
                    g0 + n * gs,
                    extra,
                    xs,
                    k,
                    j,
                    cm,
                    c1,
                );
            lemma_copies_framed(a, g0, n, xs, i, k, c0, cm);
            lemma_opts_framed(a, g0 + n * gs, extra, xs, k, j, cm, c1);
            assert((n + extra) * gs == n * gs + extra * gs) by (nonlinear_arith);
            lemma_framed_join(
                c0,
                cm,
                c1,
                g0,
                g0 + n * gs,
                g0 + n * gs,
                g0 + n * gs + extra * gs,
                g0,
                ghi,
                i,
                k,
                j,
            );
        },
        Regex::RepeatMinMax(_, _, None, _) => {
            if n == 0 {
                let t = choose|t: nat| #[trigger]
                    reps(t) && derives_rep(a, g0, 0, t, xs, i, j, c0, c1);
                lemma_loop_framed(a, g0, t, xs, i, j, c0, c1);
            } else {
                let n1 = (n - 1) as nat;
                let (k, cm, t) = choose|k: int, cm: Caps, t: nat|
                    #![trigger mid(k, cm), reps(t)]
                    mid(k, cm) && reps(t) && t >= 1 && derives_rep(
                        a,
                        g0,
                        gs,
                        n1,
                        xs,
                        i,
                        k,
                        c0,
                        cm,
                    ) && derives_rep(a, g0 + n1 * gs, 0, t, xs, k, j, cm, c1);
                lemma_copies_framed(a, g0, n1, xs, i, k, c0, cm);
                lemma_loop_framed(a, g0 + n1 * gs, t, xs, k, j, cm, c1);
                assert(n * gs == n1 * gs + gs) by (nonlinear_arith)
                    requires
                        n == n1 + 1,
                ;
                lemma_framed_join(
                    c0,
                    cm,
                    c1,
                    g0,
                    g0 + n1 * gs,
                    g0 + n1 * gs,
                    g0 + n1 * gs + gs,
                    g0,
                    ghi,
                    i,
                    k,
                    j,
                );
            }
        },
        _ => {},
    }
}

/// What a group records: its own span around what its content records.
pub proof fn lemma_group_framed(
    c0: Caps,
    opened: Caps,
    cm: Caps,
    c1: Caps,
    g0: int,
    ghi: int,
    i: int,
    j: int,
)
    requires
        opened.slots == c0.mark_open(g0, i).slots,
        framed(opened, cm, g0 + 1, ghi, i, j),
        c1.slots == cm.mark_close(g0, j).slots,
        i <= j,
        g0 < ghi,
    ensures
        framed(c0, c1, g0, ghi, i, j),
{
    assert(opened.slots.len() == c0.slots.len());
    assert(c1.slots.len() == cm.slots.len());
    assert forall|g: int| 0 <= g && 2 * g + 1 < c0.slots.len() implies #[trigger] pair_kept(
        c0,
        c1,
        g,
    ) || (g0 <= g < ghi && pair_set(c1, g, i, j)) by {
        assert(pair_kept(opened, cm, g) || (g0 + 1 <= g < ghi && pair_set(cm, g, i, j)));
        if g == g0 {
            assert(opened.slots[2 * g] == Some(i));
            assert(c1.slots[2 * g + 1] == Some(j));
            assert(c1.slots[2 * g] == cm.slots[2 * g]);
        } else {
            assert(c1.slots[2 * g] == cm.slots[2 * g]);
            assert(c1.slots[2 * g + 1] == cm.slots[2 * g + 1]);
            assert(opened.slots[2 * g] == c0.slots[2 * g]);
            assert(opened.slots[2 * g + 1] == c0.slots[2 * g + 1]);
        }
    }
}

/// What the turns of a loop record are spans of the groups of its body.
pub proof fn lemma_loop_framed<T>(
    r: Regex<T>,
    g0: int,
    n: nat,
    xs: Seq<T>,
    i: int,
    j: int,
    c0: Caps,
    c1: Caps,
)
    requires
        regex_wf(r),
        derives_rep(r, g0, 0, n, xs, i, j, c0, c1),
    ensures
        framed(c0, c1, g0, g0 + groups(r), i, j),
        0 <= i <= j <= xs.len(),
    decreases r, 1nat, n,
{
    if n > 0 {
        let (k, cm) = choose|k: int, cm: Caps| #[trigger]
            mid(k, cm) && derives(r, g0, xs, i, k, c0, cm) && derives_rep(
                r,
                g0 + 0,
                0,
                (n - 1) as nat,
                xs,
                k,
                j,
                cm,
                c1,
            );
        let ghi = g0 + groups(r);
        lemma_derives_framed(r, g0, xs, i, k, c0, cm);
        lemma_loop_framed(r, g0, (n - 1) as nat, xs, k, j, cm, c1);
        lemma_framed_join(c0, cm, c1, g0, ghi, g0, ghi, g0, ghi, i, k, j);
    }
}

/// What `n` copies of a pattern record are spans of the groups of the copies.
pub proof fn lemma_copies_framed<T>(
    r: Regex<T>,
    g0: int,
    n: nat,
    xs: Seq<T>,
    i: int,
    j: int,
    c0: Caps,
    c1: Caps,
)
    requires
        regex_wf(r),
        derives_rep(r, g0, groups(r) as int, n, xs, i, j, c0, c1),
    ensures
        framed(c0, c1, g0, g0 + n * groups(r), i, j),
        0 <= i <= j <= xs.len(),
    decreases r, 1nat, n,
{
    let gs = groups(r) as int;
    if n > 0 {
        let n1 = (n - 1) as nat;
        let (k, cm) = choose|k: int, cm: Caps| #[trigger]
            mid(k, cm) && derives(r, g0, xs, i, k, c0, cm) && derives_rep(
                r,
                g0 + gs,
                gs,
                n1,
                xs,
                k,
                j,
                cm,
                c1,
            );
        lemma_derives_framed(r, g0, xs, i, k, c0, cm);
        lemma_copies_framed(r, g0 + gs, n1, xs, k, j, cm, c1);
        assert(n * gs == gs + n1 * gs) by (nonlinear_arith)
            requires
                n == n1 + 1,
        ;
        lemma_framed_join(
            c0,
            cm,
            c1,
            g0,
            g0 + gs,
            g0 + gs,
            g0 + gs + n1 * gs,
            g0,
            g0 + n * gs,
            i,
            k,
            j,
        );
    }
}

/// What `n` optional copies of a pattern record are spans of the groups of
/// the copies.
pub proof fn lemma_opts_framed<T>(
    r: Regex<T>,
    g0: int,
    n: nat,
    xs: Seq<T>,
    i: int,
    j: int,
    c0: Caps,
    c1: Caps,
)
    requires
        regex_wf(r),
        derives_opt(r, g0, n, xs, i, j, c0, c1),
    ensures
        framed(c0, c1, g0, g0 + n * groups(r), i, j),
        0 <= i <= j <= xs.len(),
    decreases r, 1nat, n,
{
    let gs = groups(r) as int;
    if n > 0 {
        let n1 = (n - 1) as nat;
        let (k, cm) = choose|k: int, cm: Caps| #[trigger]
            mid(k, cm) && ((k == i && 0 <= i <= xs.len() && cm == c0) || derives(
                r,
                g0,
                xs,
                i,
                k,
                c0,
                cm,
            )) && derives_opt(r, g0 + gs, n1, xs, k, j, cm, c1);
        if !(k == i && 0 <= i <= xs.len() && cm == c0) {
            lemma_derives_framed(r, g0, xs, i, k, c0, cm);
        }
        lemma_opts_framed(r, g0 + gs, n1, xs, k, j, cm, c1);
        assert(n * gs == gs + n1 * gs) by (nonlinear_arith)
            requires
                n == n1 + 1,
        ;
        lemma_framed_join(
            c0,
            cm,
            c1,
            g0,
            g0 + gs,
            g0 + gs,
            g0 + gs + n1 * gs,
            g0,
            g0 + n * gs,
            i,
            k,
            j,
        );
    }
}

} // verus!
