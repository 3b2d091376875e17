//! A compiled pattern runs as the pattern matches: every run of a thread
//! through the instructions of a pattern is a match of the pattern, and
//! every match is such a run.

use crate::compiler::{
    code_len, code_of, code_within, copies_code, groups, lemma_code_len, lemma_code_within,
    lemma_copies_len, lemma_copies_within, lemma_optional_copies_len, lemma_optional_copies_within,
    op_within, optional_code, optional_copies_code, plus_code, program_of, split_op, star_code,
};
use crate::inst::{
    accepting, accepting_from, check_step, eps_step, lemma_run_extend, lemma_run_join, run,
    slot_count, start_config, step, Caps, Config, Op,
};
use crate::runner::lemma_run_in_bounds;
use crate::predicate::{neg_fn, pred_fn};
use crate::regex::{count_of, extra_of, greedy_of, inner, name_of, regex_wf, reps, second, Regex};
use crate::semantics::{
    derives, derives_opt, derives_rep, lemma_derives_matches, lemma_matches_in_bounds, mid,
};
use vstd::prelude::*;

verus! {

/// The instructions `code` stand in the program `ops` from `base` on.
pub open spec fn embedded<T>(ops: Seq<Op<T>>, code: Seq<Op<T>>, base: int) -> bool {
    &&& 0 <= base
    &&& base + code.len() <= ops.len()
    &&& forall|t: int| 0 <= t < code.len() ==> ops[base + t] == #[trigger] code[t]
}

/// Every instruction from `lo` up to `hi` continues between `lo` and `hi`,
/// and none of them is `Match`.
pub open spec fn closed_block<T>(ops: Seq<Op<T>>, lo: int, hi: int) -> bool {
    forall|pc: int|
        lo <= pc < hi ==> 0 <= pc < ops.len() && match #[trigger] ops[pc] {
            Op::Match => false,
            Op::Jmp(t) => lo <= t <= hi,
            Op::Split(x, y) => lo <= x <= hi && lo <= y <= hi,
            _ => true,
        }
}

/// The thread at `a` can be at `b` after exactly `k` instructions, all of
/// them from `lo` up to `hi`.
pub open spec fn run_within<T>(
    ops: Seq<Op<T>>,
    xs: Seq<T>,
    lo: int,
    hi: int,
    k: nat,
    a: Config,
    b: Config,
) -> bool
    decreases k,
{
    if k == 0 {
        a == b
    } else {
        lo <= a.pc < hi && exists|m: Config| #[trigger]
            step(ops, xs, a, m) && run_within(ops, xs, lo, hi, (k - 1) as nat, m, b)
    }
}

/// Part of an embedded block is embedded.
pub proof fn lemma_embedded_parts<T>(ops: Seq<Op<T>>, c1: Seq<Op<T>>, c2: Seq<Op<T>>, base: int)
    requires
        embedded(ops, c1 + c2, base),
    ensures
        embedded(ops, c1, base),
        embedded(ops, c2, base + c1.len()),
{
    let c = c1 + c2;
    assert forall|t: int| 0 <= t < c1.len() implies ops[base + t] == #[trigger] c1[t] by {
        assert(c[t] == c1[t]);
    }
    assert forall|t: int| 0 <= t < c2.len() implies ops[base + c1.len() + t] == #[trigger] c2[t] by {
        assert(c[c1.len() + t] == c2[t]);
    }
}

/// An embedded block whose instructions stay within it is closed.
pub proof fn lemma_closed<T>(
    ops: Seq<Op<T>>,
    code: Seq<Op<T>>,
    base: int,
    glo: int,
    ghi: int,
)
    requires
        embedded(ops, code, base),
        code_within(code, base, base + code.len(), glo, ghi),
    ensures
        closed_block(ops, base, base + code.len()),
{
    assert forall|pc: int| base <= pc < base + code.len() implies 0 <= pc < ops.len() && match #[trigger] ops[pc] {
        Op::Match => false,
        Op::Jmp(t) => base <= t <= base + code.len(),
        Op::Split(x, y) => base <= x <= base + code.len() && base <= y <= base + code.len(),
        _ => true,
    } by {
        let t = pc - base;
        assert(ops[base + t] == code[t]);
        assert(op_within(code[t], base, base + code.len(), glo, ghi));
    }
}

/// A run that starts outside its bounds has no instruction.
pub proof fn lemma_done<T>(
    ops: Seq<Op<T>>,
    xs: Seq<T>,
    lo: int,
    hi: int,
    k: nat,
    a: Config,
    b: Config,
)
    requires
        run_within(ops, xs, lo, hi, k, a, b),
        !(lo <= a.pc < hi),
    ensures
        k == 0,
        a == b,
{
}

/// A run between two different places has a first instruction.
pub proof fn lemma_first_step<T>(
    ops: Seq<Op<T>>,
    xs: Seq<T>,
    lo: int,
    hi: int,
    k: nat,
    a: Config,
    b: Config,
) -> (m: Config)
    requires
        run_within(ops, xs, lo, hi, k, a, b),
        a.pc != b.pc,
    ensures
        k >= 1,
        lo <= a.pc < hi,
        0 <= a.sp <= xs.len(),
        0 <= m.sp <= xs.len(),
        step(ops, xs, a, m),
        run_within(ops, xs, lo, hi, (k - 1) as nat, m, b),
{
    choose|m: Config| #[trigger]
        step(ops, xs, a, m) && run_within(ops, xs, lo, hi, (k - 1) as nat, m, b)
}

/// A run within bounds is a run.
pub proof fn lemma_within_is_run<T>(
    ops: Seq<Op<T>>,
    xs: Seq<T>,
    lo: int,
    hi: int,
    k: nat,
    a: Config,
    b: Config,
)
    requires
        run_within(ops, xs, lo, hi, k, a, b),
    ensures
        run(ops, xs, k, a, b),
    decreases k,
{
    if k > 0 {
        let m = choose|m: Config| #[trigger]
            step(ops, xs, a, m) && run_within(ops, xs, lo, hi, (k - 1) as nat, m, b);
        lemma_within_is_run(ops, xs, lo, hi, (k - 1) as nat, m, b);
    }
}

/// A run that starts in a closed block, or just behind it, and ends outside
/// it, leaves the block at its end: it is a run within the block up to the
/// place just behind it, and the rest.
pub proof fn lemma_through<T>(
    ops: Seq<Op<T>>,
    xs: Seq<T>,
    lo: int,
    hi: int,
    lo2: int,
    hi2: int,
    k: nat,
    a: Config,
    b: Config,
) -> (res: (nat, Config))
    requires
        run_within(ops, xs, lo, hi, k, a, b),
        lo <= lo2 <= hi2 <= hi,
        lo2 <= a.pc <= hi2,
        !(lo2 <= b.pc < hi2),
        closed_block(ops, lo2, hi2),
        0 <= a.sp <= xs.len(),
    ensures
        res.0 <= k,
        run_within(ops, xs, lo2, hi2, res.0, a, res.1),
        res.1.pc == hi2,
        0 <= res.1.sp <= xs.len(),
        run_within(ops, xs, lo, hi, (k - res.0) as nat, res.1, b),
    decreases k,
{
    if a.pc == hi2 {
        (0, a)
    } else {
        let m = lemma_first_step(ops, xs, lo, hi, k, a, b);
        assert(lo2 <= m.pc <= hi2);
        let (k1, e) = lemma_through(ops, xs, lo, hi, lo2, hi2, (k - 1) as nat, m, b);
        assert(step(ops, xs, a, m) && run_within(ops, xs, lo2, hi2, k1, m, e));
        (k1 + 1, e)
    }
}

} // verus!

verus! {

/// The block of an embedded pattern is closed.
pub proof fn lemma_block<T>(ops: Seq<Op<T>>, r: Regex<T>, base: int, g0: int)
    requires
        embedded(ops, code_of(r, base, g0), base),
    ensures
        closed_block(ops, base, base + code_len(r)),
        code_of(r, base, g0).len() == code_len(r),
{
    lemma_code_len(r, base, g0);
    lemma_code_within(r, base, g0);
    lemma_closed(ops, code_of(r, base, g0), base, g0, g0 + groups(r));
}

/// The block of embedded copies of a pattern is closed.
pub proof fn lemma_copies_block<T>(ops: Seq<Op<T>>, r: Regex<T>, n: nat, base: int, g0: int)
    requires
        embedded(ops, copies_code(r, n, base, g0), base),
    ensures
        closed_block(ops, base, base + n * code_len(r)),
        copies_code(r, n, base, g0).len() == n * code_len(r),
{
    lemma_copies_len(r, n, base, g0);
    lemma_copies_within(r, n, base, g0);
    lemma_closed(ops, copies_code(r, n, base, g0), base, g0, g0 + n * groups(r));
}

/// The block of embedded optional copies of a pattern is closed.
pub proof fn lemma_optional_copies_block<T>(
    ops: Seq<Op<T>>,
    r: Regex<T>,
    greedy: bool,
    n: nat,
    base: int,
    g0: int,
)
    requires
        embedded(ops, optional_copies_code(r, greedy, n, base, g0), base),
    ensures
        closed_block(ops, base, base + n * (1 + code_len(r))),
        optional_copies_code(r, greedy, n, base, g0).len() == n * (1 + code_len(r)),
{
    lemma_optional_copies_len(r, greedy, n, base, g0);
    lemma_optional_copies_within(r, greedy, n, base, g0);
    lemma_closed(
        ops,
        optional_copies_code(r, greedy, n, base, g0),
        base,
        g0,
        g0 + n * groups(r),
    );
}

/// A run through the block of a pattern, from its first instruction to the
/// place just behind it, is a match of the pattern.
pub proof fn lemma_sound<T>(
    ops: Seq<Op<T>>,
    xs: Seq<T>,
    r: Regex<T>,
    base: int,
    g0: int,
    k: nat,
    a: Config,
    b: Config,
)
    requires
        embedded(ops, code_of(r, base, g0), base),
        run_within(ops, xs, base, base + code_len(r), k, a, b),
        a.pc == base,
        b.pc == base + code_len(r),
        0 <= a.sp <= xs.len(),
    ensures
        derives(r, g0, xs, a.sp, b.sp, a.caps, b.caps),
    decreases r, 0nat, 0nat, k,
{
    let code = code_of(r, base, g0);
    let hi = base + code_len(r);
    let ra = inner(r);
    let rb = second(r);
    let n = count_of(r);
    let la = code_len(ra) as int;
    let ga = groups(ra) as int;
    lemma_code_len(r, base, g0);
    match r {
        Regex::Satisfy(p) => {
            assert(ops[base + 0] == code[0]);
            let m = lemma_first_step(ops, xs, base, hi, k, a, b);
            lemma_done(ops, xs, base, hi, (k - 1) as nat, m, b);
            assert(pred_fn(p)(xs[a.sp]) == p.holds(xs[a.sp]));
        },
        Regex::NotSatisfy(p) => {
            assert(ops[base + 0] == code[0]);
            let m = lemma_first_step(ops, xs, base, hi, k, a, b);
            lemma_done(ops, xs, base, hi, (k - 1) as nat, m, b);
            assert(neg_fn(p)(xs[a.sp]) == !p.holds(xs[a.sp]));
        },
        Regex::Begin => {
            assert(ops[base + 0] == code[0]);
            let m = lemma_first_step(ops, xs, base, hi, k, a, b);
            lemma_done(ops, xs, base, hi, (k - 1) as nat, m, b);
        },
        Regex::End => {
            assert(ops[base + 0] == code[0]);
            let m = lemma_first_step(ops, xs, base, hi, k, a, b);
            lemma_done(ops, xs, base, hi, (k - 1) as nat, m, b);
        },
        Regex::Concat(..) => {
            let ca = code_of(ra, base, g0);
            let cb = code_of(rb, base + la, g0 + ga);
            lemma_embedded_parts(ops, ca, cb, base);
            lemma_block(ops, ra, base, g0);
            lemma_block(ops, rb, base + la, g0 + ga);
            let (k1, e) = lemma_through(ops, xs, base, hi, base, base + la, k, a, b);
            lemma_sound(ops, xs, ra, base, g0, k1, a, e);
            let (k2, e2) = lemma_through(
                ops,
                xs,
                base,
                hi,
                base + la,
                hi,
                (k - k1) as nat,
                e,
                b,
            );
            lemma_done(ops, xs, base, hi, (k - k1 - k2) as nat, e2, b);
            lemma_sound(ops, xs, rb, base + la, g0 + ga, k2, e, b);
            assert(mid(e.sp, e.caps));
        },
        Regex::Group(..) => {
            let s1 = seq![Op::<T>::SaveOpen(g0)];
            let ca = code_of(ra, base + 1, g0 + 1);
            let s2 = seq![Op::<T>::SaveClose(g0)];
            lemma_embedded_parts(ops, s1 + ca, s2, base);
            lemma_embedded_parts(ops, s1, ca, base);
            lemma_block(ops, ra, base + 1, g0 + 1);
            assert(ops[base + 0] == s1[0]);
            assert(ops[base + 1 + la + 0] == s2[0]);
            let m = lemma_first_step(ops, xs, base, hi, k, a, b);
            let (k1, e) = lemma_through(
                ops,
                xs,
                base,
                hi,
                base + 1,
                base + 1 + la,
                (k - 1) as nat,
                m,
                b,
            );
            lemma_sound(ops, xs, ra, base + 1, g0 + 1, k1, m, e);
            let m2 = lemma_first_step(ops, xs, base, hi, (k - 1 - k1) as nat, e, b);
            lemma_done(ops, xs, base, hi, (k - 2 - k1) as nat, m2, b);
            assert(mid(b.sp, e.caps));
        },
        Regex::NamedGroup(..) => {
            let name = name_of(r);
            let s1 = seq![Op::<T>::SaveNamedOpen(name, g0)];
            let ca = code_of(ra, base + 1, g0 + 1);
            let s2 = seq![Op::<T>::SaveNamedClose(name, g0)];
            lemma_embedded_parts(ops, s1 + ca, s2, base);
            lemma_embedded_parts(ops, s1, ca, base);
            lemma_block(ops, ra, base + 1, g0 + 1);
            assert(ops[base + 0] == s1[0]);
            assert(ops[base + 1 + la + 0] == s2[0]);
            let m = lemma_first_step(ops, xs, base, hi, k, a, b);
            let (k1, e) = lemma_through(
                ops,
                xs,
                base,
                hi,
                base + 1,
                base + 1 + la,
                (k - 1) as nat,
                m,
                b,
            );
            lemma_sound(ops, xs, ra, base + 1, g0 + 1, k1, m, e);
            let m2 = lemma_first_step(ops, xs, base, hi, (k - 1 - k1) as nat, e, b);
            lemma_done(ops, xs, base, hi, (k - 2 - k1) as nat, m2, b);
            assert(mid(b.sp, e.caps));
        },
        Regex::NonCapturingGroup(..) => {
            lemma_sound(ops, xs, ra, base, g0, k, a, b);
        },
        Regex::Or(..) => {
            let lb = code_len(rb) as int;
            let s1 = seq![Op::<T>::Split(base + 1, base + 2 + la)];
            let ca = code_of(ra, base + 1, g0);
            let s2 = seq![Op::<T>::Jmp(base + 2 + la + lb)];
            let cb = code_of(rb, base + 2 + la, g0 + ga);
            lemma_embedded_parts(ops, s1 + ca + s2, cb, base);
            lemma_embedded_parts(ops, s1 + ca, s2, base);
            lemma_embedded_parts(ops, s1, ca, base);
            lemma_block(ops, ra, base + 1, g0);
            lemma_block(ops, rb, base + 2 + la, g0 + ga);
            assert(ops[base + 0] == s1[0]);
            assert(ops[base + 1 + la + 0] == s2[0]);
            let m = lemma_first_step(ops, xs, base, hi, k, a, b);
            if m.pc == base + 1 {
                let (k1, e) = lemma_through(
                    ops,
                    xs,
                    base,
                    hi,
                    base + 1,
                    base + 1 + la,
                    (k - 1) as nat,
                    m,
                    b,
                );
                lemma_sound(ops, xs, ra, base + 1, g0, k1, m, e);
                let m2 = lemma_first_step(ops, xs, base, hi, (k - 1 - k1) as nat, e, b);
                lemma_done(ops, xs, base, hi, (k - 2 - k1) as nat, m2, b);
            } else {
                let (k1, e) = lemma_through(
                    ops,
                    xs,
                    base,
                    hi,
                    base + 2 + la,
                    hi,
                    (k - 1) as nat,
                    m,
                    b,
                );
                lemma_done(ops, xs, base, hi, (k - 1 - k1) as nat, e, b);
                lemma_sound(ops, xs, rb, base + 2 + la, g0 + ga, k1, m, b);
            }
        },
        Regex::ZeroOrOne(..) => {
            lemma_sound_optional(ops, xs, ra, greedy_of(r), base, g0, k, a, b);
        },
        Regex::Repeat0(..) => {
            let t = lemma_sound_star(ops, xs, ra, greedy_of(r), base, g0, k, a, b);
            assert(reps(t));
        },
        Regex::Repeat1(..) => {
            let t = lemma_sound_plus(ops, xs, ra, greedy_of(r), base, g0, k, a, b);
            assert(reps(t));
        },
        Regex::RepeatN(..) => {
            lemma_sound_copies(ops, xs, ra, n, base, g0, k, a, b);
        },
        Regex::RepeatMinMax(_, _, Some(_), _) => {
            let extra = extra_of(r);
            let cc = copies_code(ra, n, base, g0);
            let co = optional_copies_code(ra, greedy_of(r), extra, base + n * la, g0 + n * ga);
            lemma_embedded_parts(ops, cc, co, base);
            lemma_copies_block(ops, ra, n, base, g0);
            lemma_optional_copies_block(ops, ra, greedy_of(r), extra, base + n * la, g0 + n * ga);
            let (k1, e) = lemma_through(ops, xs, base, hi, base, base + n * la, k, a, b);
            lemma_sound_copies(ops, xs, ra, n, base, g0, k1, a, e);
            let (k2, e2) = lemma_through(
                ops,
                xs,
                base,
                hi,
                base + n * la,
                hi,
                (k - k1) as nat,
                e,
                b,
            );
            lemma_done(ops, xs, base, hi, (k - k1 - k2) as nat, e2, b);
            lemma_sound_opts(
                ops,
                xs,
                ra,
                greedy_of(r),
                extra,
                base + n * la,
                g0 + n * ga,
                k2,
                e,
                b,
            );
            assert(mid(e.sp, e.caps));
        },
        Regex::RepeatMinMax(_, _, None, _) => {
            if n == 0 {
                let t = lemma_sound_star(ops, xs, ra, greedy_of(r), base, g0, k, a, b);
                assert(reps(t));
            } else {
                let n1 = (n - 1) as nat;
                let b1 = base + n1 * la;
                let g1 = g0 + n1 * ga;
                let cc = copies_code(ra, n1, base, g0);
                let cp = plus_code(code_of(ra, b1, g1), greedy_of(r), b1);
                lemma_embedded_parts(ops, cc, cp, base);
                lemma_copies_block(ops, ra, n1, base, g0);
                lemma_code_len(ra, b1, g1);
                let (k1, e) = lemma_through(ops, xs, base, hi, base, b1, k, a, b);
                lemma_sound_copies(ops, xs, ra, n1, base, g0, k1, a, e);
                assert(hi == b1 + la + 1) by (nonlinear_arith)
                    requires
                        hi == base + n * la + 1,
                        b1 == base + (n - 1) * la,
                ;
                lemma_plus_block(ops, ra, greedy_of(r), b1, g1);
                let (k2, e2) = lemma_through(ops, xs, base, hi, b1, hi, (k - k1) as nat, e, b);
                lemma_done(ops, xs, base, hi, (k - k1 - k2) as nat, e2, b);
                let t = lemma_sound_plus(ops, xs, ra, greedy_of(r), b1, g1, k2, e, b);
                assert(mid(e.sp, e.caps) && reps(t));
            }
        },
    }
}

} // verus!

verus! {

/// The block of an embedded "one or more" is closed.
pub proof fn lemma_plus_block<T>(ops: Seq<Op<T>>, r: Regex<T>, greedy: bool, base: int, g0: int)
    requires
        embedded(ops, plus_code(code_of(r, base, g0), greedy, base), base),
    ensures
        closed_block(ops, base, base + code_len(r) + 1),
{
    let body = code_of(r, base, g0);
    let code = plus_code(body, greedy, base);
    lemma_code_len(r, base, g0);
    lemma_code_within(r, base, g0);
    assert forall|t: int| 0 <= t < code.len() implies op_within(
        #[trigger] code[t],
        base,
        base + code.len(),
        g0,
        g0 + groups(r),
    ) by {
        if t < body.len() {
            assert(code[t] == body[t]);
        }
    }
    lemma_closed(ops, code, base, g0, g0 + groups(r));
}

/// The block of an embedded "zero or one" is closed.
pub proof fn lemma_optional_block<T>(
    ops: Seq<Op<T>>,
    r: Regex<T>,
    greedy: bool,
    base: int,
    g0: int,
)
    requires
        embedded(ops, optional_code(code_of(r, base + 1, g0), greedy, base), base),
    ensures
        closed_block(ops, base, base + code_len(r) + 1),
{
    let body = code_of(r, base + 1, g0);
    let code = optional_code(body, greedy, base);
    lemma_code_len(r, base + 1, g0);
    lemma_code_within(r, base + 1, g0);
    assert forall|t: int| 0 <= t < code.len() implies op_within(
        #[trigger] code[t],
        base,
        base + code.len(),
        g0,
        g0 + groups(r),
    ) by {
        if t >= 1 {
            assert(code[t] == body[t - 1]);
        }
    }
    lemma_closed(ops, code, base, g0, g0 + groups(r));
}

/// A run through the block of "zero or one `r`" passes `r` over or is a
/// match of `r`.
pub proof fn lemma_sound_optional<T>(
    ops: Seq<Op<T>>,
    xs: Seq<T>,
    r: Regex<T>,
    greedy: bool,
    base: int,
    g0: int,
    k: nat,
    a: Config,
    b: Config,
)
    requires
        embedded(ops, optional_code(code_of(r, base + 1, g0), greedy, base), base),
        run_within(ops, xs, base, base + 1 + code_len(r), k, a, b),
        a.pc == base,
        b.pc == base + 1 + code_len(r),
        0 <= a.sp <= xs.len(),
    ensures
        (a.sp == b.sp && b.caps == a.caps) || derives(r, g0, xs, a.sp, b.sp, a.caps, b.caps),
    decreases r, 1nat, 0nat, k,
{
    let la = code_len(r) as int;
    let hi = base + 1 + la;
    let s1 = seq![split_op::<T>(greedy, base + 1, base + 1 + la)];
    let body = code_of(r, base + 1, g0);
    lemma_code_len(r, base + 1, g0);
    lemma_embedded_parts(ops, s1, body, base);
    lemma_block(ops, r, base + 1, g0);
    assert(ops[base + 0] == s1[0]);
    let m = lemma_first_step(ops, xs, base, hi, k, a, b);
    if m.pc == hi {
        lemma_done(ops, xs, base, hi, (k - 1) as nat, m, b);
    } else {
        let (k1, e) = lemma_through(ops, xs, base, hi, base + 1, hi, (k - 1) as nat, m, b);
        lemma_done(ops, xs, base, hi, (k - 1 - k1) as nat, e, b);
        lemma_sound(ops, xs, r, base + 1, g0, k1, m, b);
    }
}

/// A run through the block of "zero or more `r`" is a number of matches of
/// `r` in a row.
pub proof fn lemma_sound_star<T>(
    ops: Seq<Op<T>>,
    xs: Seq<T>,
    r: Regex<T>,
    greedy: bool,
    base: int,
    g0: int,
    k: nat,
    a: Config,
    b: Config,
) -> (t: nat)
    requires
        embedded(ops, star_code(code_of(r, base + 1, g0), greedy, base), base),
        run_within(ops, xs, base, base + 2 + code_len(r), k, a, b),
        a.pc == base,
        b.pc == base + 2 + code_len(r),
        0 <= a.sp <= xs.len(),
    ensures
        derives_rep(r, g0, 0, t, xs, a.sp, b.sp, a.caps, b.caps),
    decreases r, 1nat, 0nat, k,
{
    let la = code_len(r) as int;
    let hi = base + 2 + la;
    let s1 = seq![split_op::<T>(greedy, base + 1, base + 2 + la)];
    let body = code_of(r, base + 1, g0);
    let s2 = seq![Op::<T>::Jmp(base)];
    lemma_code_len(r, base + 1, g0);
    lemma_embedded_parts(ops, s1 + body, s2, base);
    lemma_embedded_parts(ops, s1, body, base);
    lemma_block(ops, r, base + 1, g0);
    assert(ops[base + 0] == s1[0]);
    assert(ops[base + 1 + la + 0] == s2[0]);
    let m = lemma_first_step(ops, xs, base, hi, k, a, b);
    if m.pc == hi {
        lemma_done(ops, xs, base, hi, (k - 1) as nat, m, b);
        0
    } else {
        let (k1, e) = lemma_through(
            ops,
            xs,
            base,
            hi,
            base + 1,
            base + 1 + la,
            (k - 1) as nat,
            m,
            b,
        );
        lemma_sound(ops, xs, r, base + 1, g0, k1, m, e);
        let m2 = lemma_first_step(ops, xs, base, hi, (k - 1 - k1) as nat, e, b);
        let t = lemma_sound_star(ops, xs, r, greedy, base, g0, (k - 2 - k1) as nat, m2, b);
        assert(mid(e.sp, e.caps));
        t + 1
    }
}

/// A run through the block of "one or more `r`" is one or more matches of
/// `r` in a row.
pub proof fn lemma_sound_plus<T>(
    ops: Seq<Op<T>>,
    xs: Seq<T>,
    r: Regex<T>,
    greedy: bool,
    base: int,
    g0: int,
    k: nat,
    a: Config,
    b: Config,
) -> (t: nat)
    requires
        embedded(ops, plus_code(code_of(r, base, g0), greedy, base), base),
        run_within(ops, xs, base, base + 1 + code_len(r), k, a, b),
        a.pc == base,
        b.pc == base + 1 + code_len(r),
        0 <= a.sp <= xs.len(),
    ensures
        t >= 1,
        derives_rep(r, g0, 0, t, xs, a.sp, b.sp, a.caps, b.caps),
    decreases r, 1nat, 0nat, k,
{
    let la = code_len(r) as int;
    let hi = base + 1 + la;
    let body = code_of(r, base, g0);
    let s2 = seq![split_op::<T>(greedy, base, base + 1 + la)];
    lemma_code_len(r, base, g0);
    lemma_embedded_parts(ops, body, s2, base);
    lemma_block(ops, r, base, g0);
    assert(ops[base + la + 0] == s2[0]);
    let (k1, e) = lemma_through(ops, xs, base, hi, base, base + la, k, a, b);
    lemma_sound(ops, xs, r, base, g0, k1, a, e);
    let m = lemma_first_step(ops, xs, base, hi, (k - k1) as nat, e, b);
    assert(mid(e.sp, e.caps));
    if m.pc == hi {
        lemma_done(ops, xs, base, hi, (k - k1 - 1) as nat, m, b);
        assert(derives_rep(r, g0, 0, 0, xs, e.sp, b.sp, e.caps, b.caps));
        1
    } else {
        let t = lemma_sound_plus(ops, xs, r, greedy, base, g0, (k - k1 - 1) as nat, m, b);
        t + 1
    }
}

/// A run through the block of `n` copies of `r` is `n` matches of `r` in a
/// row, each with its own groups.
pub proof fn lemma_sound_copies<T>(
    ops: Seq<Op<T>>,
    xs: Seq<T>,
    r: Regex<T>,
    n: nat,
    base: int,
    g0: int,
    k: nat,
    a: Config,
    b: Config,
)
    requires
        embedded(ops, copies_code(r, n, base, g0), base),
        run_within(ops, xs, base, base + n * code_len(r), k, a, b),
        a.pc == base,
        b.pc == base + n * code_len(r),
        0 <= a.sp <= xs.len(),
    ensures
        derives_rep(r, g0, groups(r) as int, n, xs, a.sp, b.sp, a.caps, b.caps),
    decreases r, 1nat, n, k,
{
    let la = code_len(r) as int;
    let ga = groups(r) as int;
    let hi = base + n * la;
    if n == 0 {
        assert(n * la == 0) by (nonlinear_arith)
            requires
                n == 0,
        ;
        lemma_done(ops, xs, base, hi, k, a, b);
    } else {
        let n1 = (n - 1) as nat;
        let first = code_of(r, base, g0);
        let rest = copies_code(r, n1, base + la, g0 + ga);
        assert(n * la == la + n1 * la) by (nonlinear_arith)
            requires
                n == n1 + 1,
        ;
        assert(n1 * la >= 0) by (nonlinear_arith)
            requires
                n1 >= 0,
                la >= 0,
        ;
        lemma_code_len(r, base, g0);
        lemma_embedded_parts(ops, first, rest, base);
        lemma_block(ops, r, base, g0);
        lemma_copies_block(ops, r, n1, base + la, g0 + ga);
        let (k1, e) = lemma_through(ops, xs, base, hi, base, base + la, k, a, b);
        lemma_sound(ops, xs, r, base, g0, k1, a, e);
        let (k2, e2) = lemma_through(ops, xs, base, hi, base + la, hi, (k - k1) as nat, e, b);
        lemma_done(ops, xs, base, hi, (k - k1 - k2) as nat, e2, b);
        lemma_sound_copies(ops, xs, r, n1, base + la, g0 + ga, k2, e, b);
        assert(mid(e.sp, e.caps));
    }
}

/// A run through the block of `n` optional copies of `r` is a match of `n`
/// optional copies of `r`.
pub proof fn lemma_sound_opts<T>(
    ops: Seq<Op<T>>,
    xs: Seq<T>,
    r: Regex<T>,
    greedy: bool,
    n: nat,
    base: int,
    g0: int,
    k: nat,
    a: Config,
    b: Config,
)
    requires
        embedded(ops, optional_copies_code(r, greedy, n, base, g0), base),
        run_within(ops, xs, base, base + n * (1 + code_len(r)), k, a, b),
        a.pc == base,
        b.pc == base + n * (1 + code_len(r)),
        0 <= a.sp <= xs.len(),
    ensures
        derives_opt(r, g0, n, xs, a.sp, b.sp, a.caps, b.caps),
    decreases r, 1nat, n, k,
{
    let la = 1 + code_len(r) as int;
    let ga = groups(r) as int;
    let hi = base + n * la;
    if n == 0 {
        assert(n * la == 0) by (nonlinear_arith)
            requires
                n == 0,
        ;
        lemma_done(ops, xs, base, hi, k, a, b);
    } else {
        let n1 = (n - 1) as nat;
        let first = optional_code(code_of(r, base + 1, g0), greedy, base);
        let rest = optional_copies_code(r, greedy, n1, base + la, g0 + ga);
        assert(n * la == la + n1 * la) by (nonlinear_arith)
            requires
                n == n1 + 1,
        ;
        assert(n1 * la >= 0) by (nonlinear_arith)
            requires
                n1 >= 0,
                la >= 0,
        ;
        lemma_code_len(r, base + 1, g0);
        lemma_embedded_parts(ops, first, rest, base);
        lemma_optional_block(ops, r, greedy, base, g0);
        lemma_optional_copies_block(ops, r, greedy, n1, base + la, g0 + ga);
        let (k1, e) = lemma_through(ops, xs, base, hi, base, base + la, k, a, b);
        lemma_sound_optional(ops, xs, r, greedy, base, g0, k1, a, e);
        let (k2, e2) = lemma_through(ops, xs, base, hi, base + la, hi, (k - k1) as nat, e, b);
        lemma_done(ops, xs, base, hi, (k - k1 - k2) as nat, e2, b);
        lemma_sound_opts(ops, xs, r, greedy, n1, base + la, g0 + ga, k2, e, b);
        assert(mid(e.sp, e.caps));
    }
}

} // verus!

verus! {

/// The thread at the instruction `pc` and the input position `sp` that has
/// recorded `caps`.
pub open spec fn at(pc: int, sp: int, caps: Caps) -> Config {
    Config { pc, sp, caps }
}

/// One instruction is a run.
pub proof fn lemma_one_step<T>(ops: Seq<Op<T>>, xs: Seq<T>, a: Config, b: Config)
    requires
        step(ops, xs, a, b),
    ensures
        run(ops, xs, 1, a, b),
{
    assert(run(ops, xs, 0, b, b));
}

/// A run, and one instruction after it.
pub proof fn lemma_then_step<T>(
    ops: Seq<Op<T>>,
    xs: Seq<T>,
    k: nat,
    a: Config,
    b: Config,
    c: Config,
)
    requires
        run(ops, xs, k, a, b),
        step(ops, xs, b, c),
    ensures
        run(ops, xs, k + 1, a, c),
{
    lemma_run_extend(ops, xs, k, a, b, c);
}

/// What a pattern matches while recording lies inside the input.
pub proof fn lemma_derives_in_bounds<T>(
    r: Regex<T>,
    g0: int,
    xs: Seq<T>,
    i: int,
    j: int,
    c0: Caps,
    c1: Caps,
)
    requires
        regex_wf(r),
        derives(r, g0, xs, i, j, c0, c1),
    ensures
        0 <= i <= j <= xs.len(),
{
    lemma_derives_matches(r, g0, xs, i, j, c0, c1);
    lemma_matches_in_bounds(r, xs, i, j);
}

/// A match of a pattern is a run through the block of the pattern, from its
/// first instruction to the place just behind it.
pub proof fn lemma_complete<T>(
    ops: Seq<Op<T>>,
    xs: Seq<T>,
    r: Regex<T>,
    base: int,
    g0: int,
    i: int,
    j: int,
    c0: Caps,
    c1: Caps,
) -> (k: nat)
    requires
        regex_wf(r),
        embedded(ops, code_of(r, base, g0), base),
        derives(r, g0, xs, i, j, c0, c1),
    ensures
        run(ops, xs, k, at(base, i, c0), at(base + code_len(r), j, c1)),
    decreases r, 0nat, 0nat,
{
    let code = code_of(r, base, g0);
    let hi = base + code_len(r);
    let ra = inner(r);
    let rb = second(r);
    let n = count_of(r);
    let la = code_len(ra) as int;
    let ga = groups(ra) as int;
    let start = at(base, i, c0);
    let end = at(hi, j, c1);
    lemma_code_len(r, base, g0);
    lemma_derives_in_bounds(r, g0, xs, i, j, c0, c1);
    match r {
        Regex::Satisfy(p) => {
            assert(ops[base + 0] == code[0]);
            assert(pred_fn(p)(xs[i]) == p.holds(xs[i]));
            assert(check_step(ops, xs, start, end));
            lemma_one_step(ops, xs, start, end);
            1
        },
        Regex::NotSatisfy(p) => {
            assert(ops[base + 0] == code[0]);
            assert(neg_fn(p)(xs[i]) == !p.holds(xs[i]));
            assert(check_step(ops, xs, start, end));
            lemma_one_step(ops, xs, start, end);
            1
        },
        Regex::Begin => {
            assert(ops[base + 0] == code[0]);
            assert(eps_step(ops, i == xs.len(), start, end));
            lemma_one_step(ops, xs, start, end);
            1
        },
        Regex::End => {
            assert(ops[base + 0] == code[0]);
            assert(eps_step(ops, i == xs.len(), start, end));
            lemma_one_step(ops, xs, start, end);
            1
        },
        Regex::Concat(..) => {
            let ca = code_of(ra, base, g0);
            let cb = code_of(rb, base + la, g0 + ga);
            lemma_embedded_parts(ops, ca, cb, base);
            lemma_code_len(ra, base, g0);
            let (k, cm) = choose|k: int, cm: Caps| #[trigger]
                mid(k, cm) && derives(ra, g0, xs, i, k, c0, cm) && derives(
                    rb,
                    g0 + ga,
                    xs,
                    k,
                    j,
                    cm,
                    c1,
                );
            let k1 = lemma_complete(ops, xs, ra, base, g0, i, k, c0, cm);
            let k2 = lemma_complete(ops, xs, rb, base + la, g0 + ga, k, j, cm, c1);
            lemma_run_join(ops, xs, k1, k2, start, at(base + la, k, cm), end);
            k1 + k2
        },
        Regex::Group(..) => {
            let s1 = seq![Op::<T>::SaveOpen(g0)];
            let ca = code_of(ra, base + 1, g0 + 1);
            let s2 = seq![Op::<T>::SaveClose(g0)];
            lemma_embedded_parts(ops, s1 + ca, s2, base);
            lemma_embedded_parts(ops, s1, ca, base);
            lemma_code_len(ra, base + 1, g0 + 1);
            assert(ops[base + 0] == s1[0]);
            assert(ops[base + 1 + la + 0] == s2[0]);
            let cm = choose|cm: Caps| #[trigger]
                mid(j, cm) && derives(ra, g0 + 1, xs, i, j, c0.mark_open(g0, i), cm) && c1
                    == cm.mark_close(g0, j);
            let inside = at(base + 1, i, c0.mark_open(g0, i));
            let after = at(base + 1 + la, j, cm);
            assert(eps_step(ops, i == xs.len(), start, inside));
            lemma_one_step(ops, xs, start, inside);
            let k1 = lemma_complete(ops, xs, ra, base + 1, g0 + 1, i, j, c0.mark_open(g0, i), cm);
            lemma_run_join(ops, xs, 1, k1, start, inside, after);
            assert(eps_step(ops, j == xs.len(), after, end));
            lemma_then_step(ops, xs, 1 + k1, start, after, end);
            k1 + 2
        },
        Regex::NamedGroup(..) => {
            let name = name_of(r);
            let s1 = seq![Op::<T>::SaveNamedOpen(name, g0)];
            let ca = code_of(ra, base + 1, g0 + 1);
            let s2 = seq![Op::<T>::SaveNamedClose(name, g0)];
            lemma_embedded_parts(ops, s1 + ca, s2, base);
            lemma_embedded_parts(ops, s1, ca, base);
            lemma_code_len(ra, base + 1, g0 + 1);
            assert(ops[base + 0] == s1[0]);
            assert(ops[base + 1 + la + 0] == s2[0]);
            let opened = c0.mark_open(g0, i).bind(name, g0);
            let cm = choose|cm: Caps| #[trigger]
                mid(j, cm) && derives(ra, g0 + 1, xs, i, j, opened, cm) && c1 == cm.mark_close(
                    g0,
                    j,
                ).bind(name, g0);
            let inside = at(base + 1, i, opened);
            let after = at(base + 1 + la, j, cm);
            assert(eps_step(ops, i == xs.len(), start, inside));
            lemma_one_step(ops, xs, start, inside);
            let k1 = lemma_complete(ops, xs, ra, base + 1, g0 + 1, i, j, opened, cm);
            lemma_run_join(ops, xs, 1, k1, start, inside, after);
            assert(eps_step(ops, j == xs.len(), after, end));
            lemma_then_step(ops, xs, 1 + k1, start, after, end);
            k1 + 2
        },
        Regex::NonCapturingGroup(..) => lemma_complete(ops, xs, ra, base, g0, i, j, c0, c1),
        Regex::Or(..) => {
            let lb = code_len(rb) as int;
            let s1 = seq![Op::<T>::Split(base + 1, base + 2 + la)];
            let ca = code_of(ra, base + 1, g0);
            let s2 = seq![Op::<T>::Jmp(base + 2 + la + lb)];
            let cb = code_of(rb, base + 2 + la, g0 + ga);
            lemma_embedded_parts(ops, s1 + ca + s2, cb, base);
            lemma_embedded_parts(ops, s1 + ca, s2, base);
            lemma_embedded_parts(ops, s1, ca, base);
            lemma_code_len(ra, base + 1, g0);
            lemma_code_len(rb, base + 2 + la, g0 + ga);
            assert(ops[base + 0] == s1[0]);
            assert(ops[base + 1 + la + 0] == s2[0]);
            if derives(ra, g0, xs, i, j, c0, c1) {
                let inside = at(base + 1, i, c0);
                let after = at(base + 1 + la, j, c1);
                assert(eps_step(ops, i == xs.len(), start, inside));
                lemma_one_step(ops, xs, start, inside);
                let k1 = lemma_complete(ops, xs, ra, base + 1, g0, i, j, c0, c1);
                lemma_run_join(ops, xs, 1, k1, start, inside, after);
                assert(eps_step(ops, j == xs.len(), after, end));
                lemma_then_step(ops, xs, 1 + k1, start, after, end);
                k1 + 2
            } else {
                let inside = at(base + 2 + la, i, c0);
                assert(eps_step(ops, i == xs.len(), start, inside));
                lemma_one_step(ops, xs, start, inside);
                let k1 = lemma_complete(ops, xs, rb, base + 2 + la, g0 + ga, i, j, c0, c1);
                lemma_run_join(ops, xs, 1, k1, start, inside, end);
                k1 + 1
            }
        },
        Regex::ZeroOrOne(..) => lemma_complete_optional(
            ops,
            xs,
            ra,
            greedy_of(r),
            base,
            g0,
            i,
            j,
            c0,
            c1,
        ),
        Regex::Repeat0(..) => {
            let t = choose|t: nat| #[trigger]
                reps(t) && derives_rep(ra, g0, 0, t, xs, i, j, c0, c1);
            lemma_complete_star(ops, xs, ra, greedy_of(r), base, g0, t, i, j, c0, c1)
        },
        Regex::Repeat1(..) => {
            let t = choose|t: nat| #[trigger]
                reps(t) && t >= 1 && derives_rep(ra, g0, 0, t, xs, i, j, c0, c1);
            lemma_complete_plus(ops, xs, ra, greedy_of(r), base, g0, t, i, j, c0, c1)
        },
        Regex::RepeatN(..) => lemma_complete_copies(ops, xs, ra, n, base, g0, i, j, c0, c1),
        Regex::RepeatMinMax(_, _, Some(_), _) => {
            let extra = extra_of(r);
            let b1 = base + n * la;
            let g1 = g0 + n * ga;
            let cc = copies_code(ra, n, base, g0);
            let co = optional_copies_code(ra, greedy_of(r), extra, b1, g1);
            lemma_embedded_parts(ops, cc, co, base);
            lemma_copies_len(ra, n, base, g0);
            lemma_optional_copies_len(ra, greedy_of(r), extra, b1, g1);
            let (k, cm) = choose|k: int, cm: Caps| #[trigger]
                mid(k, cm) && derives_rep(ra, g0, ga, n, xs, i, k, c0, cm) && derives_opt(
                    ra,
                    g1,
                    extra,
                    xs,
                    k,
                    j,
                    cm,
                    c1,
                );
            let k1 = lemma_complete_copies(ops, xs, ra, n, base, g0, i, k, c0, cm);
            let k2 = lemma_complete_opts(ops, xs, ra, greedy_of(r), extra, b1, g1, k, j, cm, c1);
            lemma_run_join(ops, xs, k1, k2, start, at(b1, k, cm), end);
            k1 + k2
        },
        Regex::RepeatMinMax(_, _, None, _) => {
            if n == 0 {
                let t = choose|t: nat| #[trigger]
                    reps(t) && derives_rep(ra, g0, 0, t, xs, i, j, c0, c1);
                lemma_complete_star(ops, xs, ra, greedy_of(r), base, g0, t, i, j, c0, c1)
            } else {
                let n1 = (n - 1) as nat;
                let b1 = base + n1 * la;
                let g1 = g0 + n1 * ga;
                let cc = copies_code(ra, n1, base, g0);
                let cp = plus_code(code_of(ra, b1, g1), greedy_of(r), b1);
                lemma_embedded_parts(ops, cc, cp, base);
                lemma_copies_len(ra, n1, base, g0);
                lemma_code_len(ra, b1, g1);
                assert(hi == b1 + la + 1) by (nonlinear_arith)
                    requires
                        hi == base + n * la + 1,
                        b1 == base + (n - 1) * la,
                ;
                let (k, cm, t) = choose|k: int, cm: Caps, t: nat|
                    #![trigger mid(k, cm), reps(t)]
                    mid(k, cm) && reps(t) && t >= 1 && derives_rep(
                        ra,
                        g0,
                        ga,
                        n1,
                        xs,
                        i,
                        k,
                        c0,
                        cm,
                    ) && derives_rep(ra, g1, 0, t, xs, k, j, cm, c1);
                let k1 = lemma_complete_copies(ops, xs, ra, n1, base, g0, i, k, c0, cm);
                let k2 = lemma_complete_plus(ops, xs, ra, greedy_of(r), b1, g1, t, k, j, cm, c1);
                lemma_run_join(ops, xs, k1, k2, start, at(b1, k, cm), end);
                k1 + k2
            }
        },
    }
}

/// Passing `r` over, or a match of `r`, is a run through the block of "zero
/// or one `r`".
pub proof fn lemma_complete_optional<T>(
    ops: Seq<Op<T>>,
    xs: Seq<T>,
    r: Regex<T>,
    greedy: bool,
    base: int,
    g0: int,
    i: int,
    j: int,
    c0: Caps,
    c1: Caps,
) -> (k: nat)
    requires
        regex_wf(r),
        embedded(ops, optional_code(code_of(r, base + 1, g0), greedy, base), base),
        (i == j && 0 <= i <= xs.len() && c1 == c0) || derives(r, g0, xs, i, j, c0, c1),
    ensures
        run(ops, xs, k, at(base, i, c0), at(base + 1 + code_len(r), j, c1)),
    decreases r, 1nat, 0nat,
{
    let la = code_len(r) as int;
    let hi = base + 1 + la;
    let s1 = seq![split_op::<T>(greedy, base + 1, base + 1 + la)];
    let body = code_of(r, base + 1, g0);
    let start = at(base, i, c0);
    let end = at(hi, j, c1);
    lemma_code_len(r, base + 1, g0);
    lemma_embedded_parts(ops, s1, body, base);
    assert(ops[base + 0] == s1[0]);
    if derives(r, g0, xs, i, j, c0, c1) {
        lemma_derives_in_bounds(r, g0, xs, i, j, c0, c1);
        let inside = at(base + 1, i, c0);
        assert(eps_step(ops, i == xs.len(), start, inside));
        lemma_one_step(ops, xs, start, inside);
        let k1 = lemma_complete(ops, xs, r, base + 1, g0, i, j, c0, c1);
        lemma_run_join(ops, xs, 1, k1, start, inside, end);
        k1 + 1
    } else {
        assert(eps_step(ops, i == xs.len(), start, end));
        lemma_one_step(ops, xs, start, end);
        1
    }
}

/// A number of matches of `r` in a row is a run through the block of "zero
/// or more `r`".
pub proof fn lemma_complete_star<T>(
    ops: Seq<Op<T>>,
    xs: Seq<T>,
    r: Regex<T>,
    greedy: bool,
    base: int,
    g0: int,
    n: nat,
    i: int,
    j: int,
    c0: Caps,
    c1: Caps,
) -> (k: nat)
    requires
        regex_wf(r),
        embedded(ops, star_code(code_of(r, base + 1, g0), greedy, base), base),
        derives_rep(r, g0, 0, n, xs, i, j, c0, c1),
    ensures
        run(ops, xs, k, at(base, i, c0), at(base + 2 + code_len(r), j, c1)),
    decreases r, 1nat, n,
{
    let la = code_len(r) as int;
    let hi = base + 2 + la;
    let s1 = seq![split_op::<T>(greedy, base + 1, base + 2 + la)];
    let body = code_of(r, base + 1, g0);
    let s2 = seq![Op::<T>::Jmp(base)];
    let start = at(base, i, c0);
    let end = at(hi, j, c1);
    lemma_code_len(r, base + 1, g0);
    lemma_embedded_parts(ops, s1 + body, s2, base);
    lemma_embedded_parts(ops, s1, body, base);
    assert(ops[base + 0] == s1[0]);
    assert(ops[base + 1 + la + 0] == s2[0]);
    if n == 0 {
        assert(eps_step(ops, i == xs.len(), start, end));
        lemma_one_step(ops, xs, start, end);
        1
    } else {
        let (m, cm) = choose|m: int, cm: Caps| #[trigger]
            mid(m, cm) && derives(r, g0, xs, i, m, c0, cm) && derives_rep(
                r,
                g0 + 0,
                0,
                (n - 1) as nat,
                xs,
                m,
                j,
                cm,
                c1,
            );
        lemma_derives_in_bounds(r, g0, xs, i, m, c0, cm);
        let inside = at(base + 1, i, c0);
        let after = at(base + 1 + la, m, cm);
        let again = at(base, m, cm);
        assert(eps_step(ops, i == xs.len(), start, inside));
        lemma_one_step(ops, xs, start, inside);
        let k1 = lemma_complete(ops, xs, r, base + 1, g0, i, m, c0, cm);
        lemma_run_join(ops, xs, 1, k1, start, inside, after);
        assert(eps_step(ops, m == xs.len(), after, again));
        lemma_then_step(ops, xs, 1 + k1, start, after, again);
        let k2 = lemma_complete_star(ops, xs, r, greedy, base, g0, (n - 1) as nat, m, j, cm, c1);
        lemma_run_join(ops, xs, 2 + k1, k2, start, again, end);
        k1 + k2 + 2
    }
}

/// One or more matches of `r` in a row are a run through the block of "one
/// or more `r`".
pub proof fn lemma_complete_plus<T>(
    ops: Seq<Op<T>>,
    xs: Seq<T>,
    r: Regex<T>,
    greedy: bool,
    base: int,
    g0: int,
    n: nat,
    i: int,
    j: int,
    c0: Caps,
    c1: Caps,
) -> (k: nat)
    requires
        regex_wf(r),
        embedded(ops, plus_code(code_of(r, base, g0), greedy, base), base),
        n >= 1,
        derives_rep(r, g0, 0, n, xs, i, j, c0, c1),
    ensures
        run(ops, xs, k, at(base, i, c0), at(base + 1 + code_len(r), j, c1)),
    decreases r, 1nat, n,
{
    let la = code_len(r) as int;
    let hi = base + 1 + la;
    let body = code_of(r, base, g0);
    let s2 = seq![split_op::<T>(greedy, base, base + 1 + la)];
    let start = at(base, i, c0);
    let end = at(hi, j, c1);
    lemma_code_len(r, base, g0);
    lemma_embedded_parts(ops, body, s2, base);
    assert(ops[base + la + 0] == s2[0]);
    let (m, cm) = choose|m: int, cm: Caps| #[trigger]
        mid(m, cm) && derives(r, g0, xs, i, m, c0, cm) && derives_rep(
            r,
            g0 + 0,
            0,
            (n - 1) as nat,
            xs,
            m,
            j,
            cm,
            c1,
        );
    lemma_derives_in_bounds(r, g0, xs, i, m, c0, cm);
    let after = at(base + la, m, cm);
    let k1 = lemma_complete(ops, xs, r, base, g0, i, m, c0, cm);
    if n == 1 {
        assert(eps_step(ops, m == xs.len(), after, end));
        lemma_then_step(ops, xs, k1, start, after, end);
        k1 + 1
    } else {
        let again = at(base, m, cm);
        assert(eps_step(ops, m == xs.len(), after, again));
        lemma_then_step(ops, xs, k1, start, after, again);
        let k2 = lemma_complete_plus(ops, xs, r, greedy, base, g0, (n - 1) as nat, m, j, cm, c1);
        lemma_run_join(ops, xs, k1 + 1, k2, start, again, end);
        k1 + k2 + 1
    }
}

/// `n` matches of `r` in a row, each with its own groups, are a run through
/// the block of `n` copies of `r`.
pub proof fn lemma_complete_copies<T>(
    ops: Seq<Op<T>>,
    xs: Seq<T>,
    r: Regex<T>,
    n: nat,
    base: int,
    g0: int,
    i: int,
    j: int,
    c0: Caps,
    c1: Caps,
) -> (k: nat)
    requires
        regex_wf(r),
        embedded(ops, copies_code(r, n, base, g0), base),
        derives_rep(r, g0, groups(r) as int, n, xs, i, j, c0, c1),
    ensures
        run(ops, xs, k, at(base, i, c0), at(base + n * code_len(r), j, c1)),
    decreases r, 1nat, n,
{
    let la = code_len(r) as int;
    let ga = groups(r) as int;
    let start = at(base, i, c0);
    let end = at(base + n * la, j, c1);
    if n == 0 {
        assert(n * la == 0) by (nonlinear_arith)
            requires
                n == 0,
        ;
        assert(run(ops, xs, 0, start, end));
        0
    } else {
        let n1 = (n - 1) as nat;
        let first = code_of(r, base, g0);
        let rest = copies_code(r, n1, base + la, g0 + ga);
        assert(n * la == la + n1 * la) by (nonlinear_arith)
            requires
                n == n1 + 1,
        ;
        lemma_code_len(r, base, g0);
        lemma_embedded_parts(ops, first, rest, base);
        let (m, cm) = choose|m: int, cm: Caps| #[trigger]
            mid(m, cm) && derives(r, g0, xs, i, m, c0, cm) && derives_rep(
                r,
                g0 + ga,
                ga,
                n1,
                xs,
                m,
                j,
                cm,
                c1,
            );
        let k1 = lemma_complete(ops, xs, r, base, g0, i, m, c0, cm);
        let k2 = lemma_complete_copies(ops, xs, r, n1, base + la, g0 + ga, m, j, cm, c1);
        lemma_run_join(ops, xs, k1, k2, start, at(base + la, m, cm), end);
        k1 + k2
    }
}

/// A match of `n` optional copies of `r` is a run through their block.
pub proof fn lemma_complete_opts<T>(
    ops: Seq<Op<T>>,
    xs: Seq<T>,
    r: Regex<T>,
    greedy: bool,
    n: nat,
    base: int,
    g0: int,
    i: int,
    j: int,
    c0: Caps,
    c1: Caps,
) -> (k: nat)
    requires
        regex_wf(r),
        embedded(ops, optional_copies_code(r, greedy, n, base, g0), base),
        derives_opt(r, g0, n, xs, i, j, c0, c1),
    ensures
        run(ops, xs, k, at(base, i, c0), at(base + n * (1 + code_len(r)), j, c1)),
    decreases r, 1nat, n,
{
    let la = 1 + code_len(r) as int;
    let ga = groups(r) as int;
    let start = at(base, i, c0);
    let end = at(base + n * la, j, c1);
    if n == 0 {
        assert(n * la == 0) by (nonlinear_arith)
            requires
                n == 0,
        ;
        assert(run(ops, xs, 0, start, end));
        0
    } else {
        let n1 = (n - 1) as nat;
        let first = optional_code(code_of(r, base + 1, g0), greedy, base);
        let rest = optional_copies_code(r, greedy, n1, base + la, g0 + ga);
        assert(n * la == la + n1 * la) by (nonlinear_arith)
            requires
                n == n1 + 1,
        ;
        lemma_code_len(r, base + 1, g0);
        lemma_embedded_parts(ops, first, rest, base);
        let (m, cm) = choose|m: int, cm: Caps| #[trigger]
            mid(m, cm) && ((m == i && 0 <= i <= xs.len() && cm == c0) || derives(
                r,
                g0,
                xs,
                i,
                m,
                c0,
                cm,
            )) && derives_opt(r, g0 + ga, n1, xs, m, j, cm, c1);
        let k1 = lemma_complete_optional(ops, xs, r, greedy, base, g0, i, m, c0, cm);
        let k2 = lemma_complete_opts(ops, xs, r, greedy, n1, base + la, g0 + ga, m, j, cm, c1);
        lemma_run_join(ops, xs, k1, k2, start, at(base + la, m, cm), end);
        k1 + k2
    }
}

} // verus!

verus! {

/// What a thread of the program of `r` has recorded when it starts at
/// input position `s`: the start of the whole match, and nothing else.
pub open spec fn start_caps<T>(r: Regex<T>, s: int) -> Caps {
    Caps::blank(slot_count(program_of(r))).mark_open(0, s)
}

/// The program of a pattern holds the instructions of the pattern from 0
/// on, which form a closed block, and `Match` behind them.
pub proof fn lemma_program_shape<T>(r: Regex<T>)
    ensures
        program_of(r).len() == code_len(r) + 1,
        program_of(r)[code_len(r) as int] is Match,
        embedded(program_of(r), code_of(r, 0, 1), 0),
        closed_block(program_of(r), 0, code_len(r) as int),
{
    let code = code_of(r, 0, 1);
    let prog = program_of(r);
    lemma_code_len(r, 0, 1);
    assert forall|t: int| 0 <= t < code.len() implies prog[0 + t] == #[trigger] code[t] by {}
    lemma_block(prog, r, 0, 1);
}

/// A run that ends at the only `Match` of a program, behind a closed block
/// that starts at 0, stays in the block until then.
pub proof fn lemma_run_to_within<T>(
    ops: Seq<Op<T>>,
    xs: Seq<T>,
    hi: int,
    k: nat,
    a: Config,
    c: Config,
)
    requires
        run(ops, xs, k, a, c),
        ops.len() == hi + 1,
        ops[hi] is Match,
        closed_block(ops, 0, hi),
        c.pc == hi,
    ensures
        run_within(ops, xs, 0, hi, k, a, c),
    decreases k,
{
    if k > 0 {
        let m = choose|m: Config| #[trigger]
            step(ops, xs, a, m) && run(ops, xs, (k - 1) as nat, m, c);
        lemma_run_to_within(ops, xs, hi, (k - 1) as nat, m, c);
        assert(step(ops, xs, a, m) && run_within(ops, xs, 0, hi, (k - 1) as nat, m, c));
    }
}

/// An accepting thread of the program of a pattern that started at `s` has
/// matched the pattern from `s` to the position where it accepts, and has
/// recorded what the pattern records.
pub proof fn lemma_accepting_derives<T>(r: Regex<T>, xs: Seq<T>, full: bool, s: int, c: Config)
    requires
        accepting_from(program_of(r), xs, full, s, c),
    ensures
        0 <= s <= c.sp <= xs.len(),
        full ==> s == 0 && c.sp == xs.len(),
        c.pc == code_len(r),
        derives(r, 1, xs, s, c.sp, start_caps(r, s), c.caps),
{
    let prog = program_of(r);
    let hi = code_len(r) as int;
    lemma_program_shape(r);
    let k = choose|k: nat| #[trigger] run(prog, xs, k, start_config(prog, s), c);
    lemma_run_in_bounds(prog, xs, k, start_config(prog, s), c);
    lemma_run_to_within(prog, xs, hi, k, start_config(prog, s), c);
    lemma_sound(prog, xs, r, 0, 1, k, start_config(prog, s), c);
}

/// A match of a pattern, recorded from the start of a thread on, is an
/// accepting thread of the program of the pattern that started where the
/// match starts.
pub proof fn lemma_derives_accepting<T>(
    r: Regex<T>,
    xs: Seq<T>,
    full: bool,
    s: int,
    e: int,
    c1: Caps,
)
    requires
        regex_wf(r),
        derives(r, 1, xs, s, e, start_caps(r, s), c1),
        full ==> s == 0 && e == xs.len(),
    ensures
        accepting_from(program_of(r), xs, full, s, at(code_len(r) as int, e, c1)),
        accepting(program_of(r), xs, full, at(code_len(r) as int, e, c1)),
{
    let prog = program_of(r);
    lemma_program_shape(r);
    lemma_derives_in_bounds(r, 1, xs, s, e, start_caps(r, s), c1);
    let k = lemma_complete(prog, xs, r, 0, 1, s, e, start_caps(r, s), c1);
    assert(start_config(prog, s) == at(0, s, start_caps(r, s)));
    assert(run(prog, xs, k, start_config(prog, s), at(code_len(r) as int, e, c1)));
}

} // verus!
