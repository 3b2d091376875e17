//! The layout of compiled patterns.

use crate::inst::{ops_of, preds_wf, Inst, Op};
use crate::predicate::{neg_fn, pred_fn, pred_not, rc_clone};
use crate::regex::{count_of, extra_of, greedy_of, inner, regex_wf, second, target, Regex};
use std::rc::Rc;
use vstd::prelude::*;

verus! {

/// The number of capture groups that compiling `r` numbers.
///
/// A repetition by count is compiled as so many copies, and each copy
/// numbers its own groups.
pub open spec fn groups<T>(r: Regex<T>) -> nat
    decreases r,
{
    match r {
        Regex::Satisfy(_) => 0,
        Regex::NotSatisfy(_) => 0,
        Regex::Concat(a, b) => groups(*a) + groups(*b),
        Regex::Group(a) => 1 + groups(*a),
        Regex::NamedGroup(_, a) => 1 + groups(*a),
        Regex::NonCapturingGroup(a) => groups(*a),
        Regex::Or(a, b) => groups(*a) + groups(*b),
        Regex::ZeroOrOne(a, _) => groups(*a),
        Regex::Repeat0(a, _) => groups(*a),
        Regex::Repeat1(a, _) => groups(*a),
        Regex::RepeatN(a, n) => (n as nat) * groups(*a),
        Regex::RepeatMinMax(a, n, m, _) => match m {
            Some(mm) => if mm >= n {
                (mm as nat) * groups(*a)
            } else {
                (n as nat) * groups(*a)
            },
            None => if n == 0 {
                groups(*a)
            } else {
                (n as nat) * groups(*a)
            },
        },
        Regex::Begin => 0,
        Regex::End => 0,
    }
}

/// The number of instructions that `r` compiles to.
pub open spec fn code_len<T>(r: Regex<T>) -> nat
    decreases r,
{
    match r {
        Regex::Satisfy(_) => 1,
        Regex::NotSatisfy(_) => 1,
        Regex::Concat(a, b) => code_len(*a) + code_len(*b),
        Regex::Group(a) => 2 + code_len(*a),
        Regex::NamedGroup(_, a) => 2 + code_len(*a),
        Regex::NonCapturingGroup(a) => code_len(*a),
        Regex::Or(a, b) => 2 + code_len(*a) + code_len(*b),
        Regex::ZeroOrOne(a, _) => 1 + code_len(*a),
        Regex::Repeat0(a, _) => 2 + code_len(*a),
        Regex::Repeat1(a, _) => 1 + code_len(*a),
        Regex::RepeatN(a, n) => (n as nat) * code_len(*a),
        Regex::RepeatMinMax(a, n, m, _) => match m {
            Some(mm) => if mm >= n {
                (n as nat) * code_len(*a) + ((mm - n) as nat) * (1 + code_len(*a))
            } else {
                (n as nat) * code_len(*a)
            },
            None => if n == 0 {
                2 + code_len(*a)
            } else {
                (n as nat) * code_len(*a) + 1
            },
        },
        Regex::Begin => 1,
        Regex::End => 1,
    }
}

/// A split between `body` and `skip`: greedy prefers the body.
pub open spec fn split_op<T>(greedy: bool, body: int, skip: int) -> Op<T> {
    if greedy {
        Op::Split(body, skip)
    } else {
        Op::Split(skip, body)
    }
}

/// The instructions for `r` when its first instruction sits at `base` and
/// its first capture group gets the number `g0`.
pub open spec fn code_of<T>(r: Regex<T>, base: int, g0: int) -> Seq<Op<T>>
    decreases r, 0nat,
{
    match r {
        Regex::Satisfy(p) => seq![Op::Check(pred_fn(p))],
        Regex::NotSatisfy(p) => seq![Op::Check(neg_fn(p))],
        Regex::Concat(a, b) => code_of(*a, base, g0) + code_of(
            *b,
            base + code_len(*a),
            g0 + groups(*a),
        ),
        Regex::Group(a) => seq![Op::SaveOpen(g0)] + code_of(*a, base + 1, g0 + 1)
            + seq![Op::SaveClose(g0)],
        Regex::NamedGroup(name, a) => seq![Op::SaveNamedOpen(name@, g0)] + code_of(
            *a,
            base + 1,
            g0 + 1,
        ) + seq![Op::SaveNamedClose(name@, g0)],
        Regex::NonCapturingGroup(a) => code_of(*a, base, g0),
        Regex::Or(a, b) => seq![Op::Split(base + 1, base + 2 + code_len(*a))] + code_of(
            *a,
            base + 1,
            g0,
        ) + seq![Op::Jmp(base + 2 + code_len(*a) + code_len(*b))] + code_of(
            *b,
            base + 2 + code_len(*a),
            g0 + groups(*a),
        ),
        Regex::ZeroOrOne(a, greedy) => optional_code(code_of(*a, base + 1, g0), greedy, base),
        Regex::Repeat0(a, greedy) => star_code(code_of(*a, base + 1, g0), greedy, base),
        Regex::Repeat1(a, greedy) => plus_code(code_of(*a, base, g0), greedy, base),
        Regex::RepeatN(a, n) => copies_code(*a, n as nat, base, g0),
        Regex::RepeatMinMax(a, n, m, greedy) => match m {
            Some(mm) => copies_code(*a, n as nat, base, g0) + optional_copies_code(
                *a,
                greedy,
                if mm >= n {
                    (mm - n) as nat
                } else {
                    0
                },
                base + n * code_len(*a),
                g0 + n * groups(*a),
            ),
            None => if n == 0 {
                star_code(code_of(*a, base + 1, g0), greedy, base)
            } else {
                copies_code(*a, (n - 1) as nat, base, g0) + plus_code(
                    code_of(*a, base + (n - 1) * code_len(*a), g0 + (n - 1) * groups(*a)),
                    greedy,
                    base + (n - 1) * code_len(*a),
                )
            },
        },
        Regex::Begin => seq![Op::Begin],
        Regex::End => seq![Op::End],
    }
}

/// The instructions for zero or one of what `body` matches: a split, then
/// `body`, which starts at `base + 1`.
pub open spec fn optional_code<T>(body: Seq<Op<T>>, greedy: bool, base: int) -> Seq<Op<T>> {
    seq![split_op(greedy, base + 1, base + 1 + body.len())] + body
}

/// The instructions for zero or more of what `body` matches: a split,
/// `body`, which starts at `base + 1`, and a jump back to the split.
pub open spec fn star_code<T>(body: Seq<Op<T>>, greedy: bool, base: int) -> Seq<Op<T>> {
    seq![split_op(greedy, base + 1, base + 2 + body.len())] + body + seq![Op::Jmp(base)]
}

/// The instructions for one or more of what `body` matches: `body`, which
/// starts at `base`, then a split back to its start.
pub open spec fn plus_code<T>(body: Seq<Op<T>>, greedy: bool, base: int) -> Seq<Op<T>> {
    body + seq![split_op(greedy, base, base + 1 + body.len())]
}

/// The instructions for `n` copies of `r` in a row.
pub open spec fn copies_code<T>(r: Regex<T>, n: nat, base: int, g0: int) -> Seq<Op<T>>
    decreases r, n + 2,
{
    if n == 0 {
        Seq::empty()
    } else {
        code_of(r, base, g0) + copies_code(
            r,
            (n - 1) as nat,
            base + code_len(r),
            g0 + groups(r),
        )
    }
}

/// The instructions for `n` copies in a row of zero or one `r`.
pub open spec fn optional_copies_code<T>(
    r: Regex<T>,
    greedy: bool,
    n: nat,
    base: int,
    g0: int,
) -> Seq<Op<T>>
    decreases r, n + 2,
{
    if n == 0 {
        Seq::empty()
    } else {
        optional_code(code_of(r, base + 1, g0), greedy, base) + optional_copies_code(
            r,
            greedy,
            (n - 1) as nat,
            base + 1 + code_len(r),
            g0 + groups(r),
        )
    }
}

/// The whole program for `r`: its instructions from 0 on, with groups
/// numbered from 1, and `Match` at the end.
pub open spec fn program_of<T>(r: Regex<T>) -> Seq<Op<T>> {
    code_of(r, 0, 1) + seq![Op::Match]
}

/// The patterns of `parts` concatenated from the left.
pub open spec fn concat_all<T>(parts: Seq<Rc<Regex<T>>>) -> Regex<T>
    recommends
        parts.len() >= 1,
    decreases parts.len(),
{
    if parts.len() <= 1 {
        *parts[0]
    } else {
        Regex::Concat(Rc::new(concat_all(parts.drop_last())), parts.last())
    }
}

} // verus!

verus! {

/// A measure of a pattern that compiling decreases: it counts the nodes of
/// the pattern with every repetition by count written out.
pub open spec fn weight<T>(r: Regex<T>) -> nat
    decreases r,
{
    match r {
        Regex::Satisfy(_) => 1,
        Regex::NotSatisfy(_) => 1,
        Regex::Concat(a, b) => 1 + weight(*a) + weight(*b),
        Regex::Group(a) => 1 + weight(*a),
        Regex::NamedGroup(_, a) => 1 + weight(*a),
        Regex::NonCapturingGroup(a) => 1 + weight(*a),
        Regex::Or(a, b) => 1 + weight(*a) + weight(*b),
        Regex::ZeroOrOne(a, _) => 1 + weight(*a),
        Regex::Repeat0(a, _) => 1 + weight(*a),
        Regex::Repeat1(a, _) => 1 + weight(*a),
        Regex::RepeatN(a, n) => 1 + (n as nat) * (weight(*a) + 2),
        Regex::RepeatMinMax(a, n, m, _) => match m {
            Some(mm) => 1 + ((n + mm) as nat) * (weight(*a) + 2),
            None => 1 + ((n + 1) as nat) * (weight(*a) + 2),
        },
        Regex::Begin => 1,
        Regex::End => 1,
    }
}

/// `n` times the same pattern.
pub open spec fn repeat_parts<T>(a: Rc<Regex<T>>, n: nat) -> Seq<Rc<Regex<T>>> {
    Seq::new(n, |i: int| a)
}

/// The patterns whose concatenation stands for a bounded repetition:
/// the mandatory copies, then either the optional copies up to the upper
/// bound or one open-ended repetition.
pub open spec fn min_max_parts<T>(
    a: Rc<Regex<T>>,
    n: usize,
    m: Option<usize>,
    greedy: bool,
) -> Seq<Rc<Regex<T>>> {
    match m {
        Some(mm) => repeat_parts(a, n as nat) + repeat_parts(
            Rc::new(Regex::ZeroOrOne(a, greedy)),
            if mm >= n {
                (mm - n) as nat
            } else {
                0
            },
        ),
        None => if n == 0 {
            seq![Rc::new(Regex::Repeat0(a, greedy))]
        } else {
            repeat_parts(a, (n - 1) as nat).push(Rc::new(Regex::Repeat1(a, greedy)))
        },
    }
}

/// The total number of instructions of `parts`.
pub open spec fn parts_len<T>(parts: Seq<Rc<Regex<T>>>) -> nat
    decreases parts.len(),
{
    if parts.len() == 0 {
        0
    } else {
        parts_len(parts.drop_last()) + code_len(*parts.last())
    }
}

/// The total number of groups of `parts`.
pub open spec fn parts_groups<T>(parts: Seq<Rc<Regex<T>>>) -> nat
    decreases parts.len(),
{
    if parts.len() == 0 {
        0
    } else {
        parts_groups(parts.drop_last()) + groups(*parts.last())
    }
}

/// The total weight of `parts`.
pub open spec fn parts_weight<T>(parts: Seq<Rc<Regex<T>>>) -> nat
    decreases parts.len(),
{
    if parts.len() == 0 {
        0
    } else {
        parts_weight(parts.drop_last()) + weight(*parts.last())
    }
}

/// The instructions of `parts`, one pattern after the other.
pub open spec fn parts_code<T>(parts: Seq<Rc<Regex<T>>>, base: int, g0: int) -> Seq<Op<T>>
    decreases parts.len(),
{
    if parts.len() == 0 {
        Seq::empty()
    } else {
        parts_code(parts.drop_last(), base, g0) + code_of(
            *parts.last(),
            base + parts_len(parts.drop_last()),
            g0 + parts_groups(parts.drop_last()),
        )
    }
}

/// Every pattern of `parts` is well formed.
pub open spec fn parts_wf<T>(parts: Seq<Rc<Regex<T>>>) -> bool {
    forall|i: int| 0 <= i < parts.len() ==> regex_wf(*#[trigger] parts[i])
}

/// A pattern compiles to as many instructions as `code_len` says.
pub proof fn lemma_code_len<T>(r: Regex<T>, base: int, g0: int)
    ensures
        code_of(r, base, g0).len() == code_len(r),
    decreases r, 0nat,
{
    let a = inner(r);
    let b = second(r);
    let n = count_of(r);
    match r {
        Regex::Concat(..) => {
            lemma_code_len(a, base, g0);
            lemma_code_len(b, base + code_len(a), g0 + groups(a));
        },
        Regex::Group(..) => {
            lemma_code_len(a, base + 1, g0 + 1);
        },
        Regex::NamedGroup(..) => {
            lemma_code_len(a, base + 1, g0 + 1);
        },
        Regex::NonCapturingGroup(..) => {
            lemma_code_len(a, base, g0);
        },
        Regex::Or(..) => {
            lemma_code_len(a, base + 1, g0);
            lemma_code_len(b, base + 2 + code_len(a), g0 + groups(a));
        },
        Regex::ZeroOrOne(..) => {
            lemma_code_len(a, base + 1, g0);
        },
        Regex::Repeat0(..) => {
            lemma_code_len(a, base + 1, g0);
        },
        Regex::Repeat1(..) => {
            lemma_code_len(a, base, g0);
        },
        Regex::RepeatN(..) => {
            lemma_copies_len(a, n, base, g0);
        },
        Regex::RepeatMinMax(_, _, Some(_), _) => {
            lemma_copies_len(a, n, base, g0);
            lemma_optional_copies_len(
                a,
                greedy_of(r),
                extra_of(r),
                base + n * code_len(a),
                g0 + n * groups(a),
            );
        },
        Regex::RepeatMinMax(_, _, None, _) => {
            if n == 0 {
                lemma_code_len(a, base + 1, g0);
            } else {
                lemma_copies_len(a, (n - 1) as nat, base, g0);
                lemma_code_len(a, base + (n - 1) * code_len(a), g0 + (n - 1) * groups(a));
                assert(n * code_len(a) == (n - 1) * code_len(a) + code_len(a))
                    by (nonlinear_arith);
            }
        },
        _ => {},
    }
}

/// `n` copies of a pattern compile to `n` times its instructions.
pub proof fn lemma_copies_len<T>(r: Regex<T>, n: nat, base: int, g0: int)
    ensures
        copies_code(r, n, base, g0).len() == n * code_len(r),
    decreases r, n + 2,
{
    if n > 0 {
        lemma_code_len(r, base, g0);
        lemma_copies_len(r, (n - 1) as nat, base + code_len(r), g0 + groups(r));
        assert(n * code_len(r) == code_len(r) + (n - 1) * code_len(r)) by (nonlinear_arith);
    } else {
        assert(n * code_len(r) == 0) by (nonlinear_arith)
            requires
                n == 0,
        ;
    }
}

/// `n` optional copies of a pattern compile to `n` times its instructions
/// and a split each.
pub proof fn lemma_optional_copies_len<T>(r: Regex<T>, greedy: bool, n: nat, base: int, g0: int)
    ensures
        optional_copies_code(r, greedy, n, base, g0).len() == n * (1 + code_len(r)),
    decreases r, n + 2,
{
    if n > 0 {
        lemma_code_len(r, base + 1, g0);
        lemma_optional_copies_len(
            r,
            greedy,
            (n - 1) as nat,
            base + 1 + code_len(r),
            g0 + groups(r),
        );
        assert(n * (1 + code_len(r)) == (1 + code_len(r)) + (n - 1) * (1 + code_len(r)))
            by (nonlinear_arith);
    } else {
        assert(n * (1 + code_len(r)) == 0) by (nonlinear_arith)
            requires
                n == 0,
        ;
    }
}

} // verus!

verus! {

/// The patterns whose concatenation stands for a repetition by count.
pub open spec fn expansion_parts<T>(r: Regex<T>) -> Seq<Rc<Regex<T>>> {
    match r {
        Regex::RepeatN(a, n) => repeat_parts(a, n as nat),
        Regex::RepeatMinMax(a, n, m, greedy) => min_max_parts(a, n, m, greedy),
        _ => Seq::empty(),
    }
}

/// The instruction `op` continues between `lo` and `hi`, saves only for
/// groups from `glo` up to `ghi`, and is not `Match`.
pub open spec fn op_within<T>(op: Op<T>, lo: int, hi: int, glo: int, ghi: int) -> bool {
    match op {
        Op::Match => false,
        Op::Jmp(t) => lo <= t <= hi,
        Op::Split(x, y) => lo <= x <= hi && lo <= y <= hi,
        Op::SaveOpen(g) => glo <= g < ghi,
        Op::SaveClose(g) => glo <= g < ghi,
        Op::SaveNamedOpen(_, g) => glo <= g < ghi,
        Op::SaveNamedClose(_, g) => glo <= g < ghi,
        _ => true,
    }
}

/// Every instruction of `code` is within the given bounds.
pub open spec fn code_within<T>(code: Seq<Op<T>>, lo: int, hi: int, glo: int, ghi: int) -> bool {
    forall|k: int| 0 <= k < code.len() ==> op_within(#[trigger] code[k], lo, hi, glo, ghi)
}

/// The instructions of a pattern continue inside the pattern's own block or
/// just behind it, and save only for the pattern's own groups.
pub proof fn lemma_code_within<T>(r: Regex<T>, base: int, g0: int)
    ensures
        code_within(
            code_of(r, base, g0),
            base,
            base + code_len(r),
            g0,
            g0 + groups(r),
        ),
    decreases r, 0nat,
{
    let a = inner(r);
    let b = second(r);
    let n = count_of(r);
    let hi = base + code_len(r);
    let ghi = g0 + groups(r);
    match r {
        Regex::Concat(..) => {
            lemma_code_within(a, base, g0);
            lemma_code_within(b, base + code_len(a), g0 + groups(a));
            lemma_code_len(a, base, g0);
        },
        Regex::Group(..) => {
            lemma_code_within(a, base + 1, g0 + 1);
            lemma_code_len(a, base + 1, g0 + 1);
        },
        Regex::NamedGroup(..) => {
            lemma_code_within(a, base + 1, g0 + 1);
            lemma_code_len(a, base + 1, g0 + 1);
        },
        Regex::NonCapturingGroup(..) => {
            lemma_code_within(a, base, g0);
        },
        Regex::Or(..) => {
            lemma_code_within(a, base + 1, g0);
            lemma_code_within(b, base + 2 + code_len(a), g0 + groups(a));
            lemma_code_len(a, base + 1, g0);
            lemma_code_len(b, base + 2 + code_len(a), g0 + groups(a));
        },
        Regex::ZeroOrOne(..) => {
            lemma_code_within(a, base + 1, g0);
            lemma_code_len(a, base + 1, g0);
        },
        Regex::Repeat0(..) => {
            lemma_code_within(a, base + 1, g0);
            lemma_code_len(a, base + 1, g0);
        },
        Regex::Repeat1(..) => {
            lemma_code_within(a, base, g0);
            lemma_code_len(a, base, g0);
        },
        Regex::RepeatN(..) => {
            lemma_copies_within(a, n, base, g0);
        },
        Regex::RepeatMinMax(_, _, Some(_), _) => {
            let k = extra_of(r);
            lemma_copies_within(a, n, base, g0);
            lemma_copies_len(a, n, base, g0);
            lemma_optional_copies_within(
                a,
                greedy_of(r),
                k,
                base + n * code_len(a),
                g0 + n * groups(a),
            );
            assert(groups(r) == n * groups(a) + k * groups(a)) by (nonlinear_arith)
                requires
                    groups(r) == (n + k) * groups(a),
            ;
        },
        Regex::RepeatMinMax(_, _, None, _) => {
            if n == 0 {
                lemma_code_within(a, base + 1, g0);
                lemma_code_len(a, base + 1, g0);
            } else {
                let b1 = base + (n - 1) * code_len(a);
                let g1 = g0 + (n - 1) * groups(a);
                lemma_copies_within(a, (n - 1) as nat, base, g0);
                lemma_copies_len(a, (n - 1) as nat, base, g0);
                lemma_code_within(a, b1, g1);
                lemma_code_len(a, b1, g1);
                assert(n * code_len(a) == (n - 1) * code_len(a) + code_len(a))
                    by (nonlinear_arith);
                assert(n * groups(a) == (n - 1) * groups(a) + groups(a)) by (nonlinear_arith);
                assert((n - 1) * code_len(a) >= 0 && (n - 1) * groups(a) >= 0)
                    by (nonlinear_arith)
                    requires
                        n >= 1,
                ;
            }
        },
        _ => {},
    }
}

/// The instructions of `n` copies stay within the block of the copies.
pub proof fn lemma_copies_within<T>(r: Regex<T>, n: nat, base: int, g0: int)
    ensures
        code_within(
            copies_code(r, n, base, g0),
            base,
            base + n * code_len(r),
            g0,
            g0 + n * groups(r),
        ),
    decreases r, n + 2,
{
    if n > 0 {
        lemma_code_within(r, base, g0);
        lemma_code_len(r, base, g0);
        lemma_copies_within(r, (n - 1) as nat, base + code_len(r), g0 + groups(r));
        assert(n * code_len(r) == code_len(r) + (n - 1) * code_len(r)) by (nonlinear_arith);
        assert(n * groups(r) == groups(r) + (n - 1) * groups(r)) by (nonlinear_arith);
        assert((n - 1) * code_len(r) >= 0 && (n - 1) * groups(r) >= 0) by (nonlinear_arith)
            requires
                n >= 1,
        ;
    }
}

/// The instructions of `n` optional copies stay within the block of the copies.
pub proof fn lemma_optional_copies_within<T>(
    r: Regex<T>,
    greedy: bool,
    n: nat,
    base: int,
    g0: int,
)
    ensures
        code_within(
            optional_copies_code(r, greedy, n, base, g0),
            base,
            base + n * (1 + code_len(r)),
            g0,
            g0 + n * groups(r),
        ),
    decreases r, n + 2,
{
    if n > 0 {
        lemma_code_within(r, base + 1, g0);
        lemma_code_len(r, base + 1, g0);
        lemma_optional_copies_within(
            r,
            greedy,
            (n - 1) as nat,
            base + 1 + code_len(r),
            g0 + groups(r),
        );
        assert(n * (1 + code_len(r)) == (1 + code_len(r)) + (n - 1) * (1 + code_len(r)))
            by (nonlinear_arith);
        assert(n * groups(r) == groups(r) + (n - 1) * groups(r)) by (nonlinear_arith);
        assert((n - 1) * (1 + code_len(r)) >= 0 && (n - 1) * groups(r) >= 0)
            by (nonlinear_arith)
            requires
                n >= 1,
        ;
    }
}

} // verus!

verus! {

/// One more copy can be added at the end of `n` copies.
pub proof fn lemma_copies_snoc<T>(r: Regex<T>, n: nat, base: int, g0: int)
    ensures
        copies_code(r, n + 1, base, g0) == copies_code(r, n, base, g0) + code_of(
            r,
            base + n * code_len(r),
            g0 + n * groups(r),
        ),
    decreases n,
{
    if n == 0 {
        assert(n * code_len(r) == 0 && n * groups(r) == 0) by (nonlinear_arith)
            requires
                n == 0,
        ;
        assert(copies_code(r, 0, base + code_len(r), g0 + groups(r)) =~= Seq::empty());
        assert(copies_code(r, 1, base, g0) =~= Seq::empty() + code_of(r, base, g0));
    } else {
        lemma_copies_snoc(r, (n - 1) as nat, base + code_len(r), g0 + groups(r));
        assert(base + code_len(r) + (n - 1) * code_len(r) == base + n * code_len(r))
            by (nonlinear_arith);
        assert(g0 + groups(r) + (n - 1) * groups(r) == g0 + n * groups(r)) by (nonlinear_arith);
        assert(copies_code(r, n + 1, base, g0) =~= copies_code(r, n, base, g0) + code_of(
            r,
            base + n * code_len(r),
            g0 + n * groups(r),
        ));
    }
}

/// One more optional copy can be added at the end of `n` optional copies.
pub proof fn lemma_optional_copies_snoc<T>(r: Regex<T>, greedy: bool, n: nat, base: int, g0: int)
    ensures
        optional_copies_code(r, greedy, n + 1, base, g0) == optional_copies_code(
            r,
            greedy,
            n,
            base,
            g0,
        ) + optional_code(
            code_of(r, base + n * (1 + code_len(r)) + 1, g0 + n * groups(r)),
            greedy,
            base + n * (1 + code_len(r)),
        ),
    decreases n,
{
    let l = 1 + code_len(r);
    if n == 0 {
        assert(n * l == 0 && n * groups(r) == 0) by (nonlinear_arith)
            requires
                n == 0,
        ;
        assert(optional_copies_code(r, greedy, 0, base + l, g0 + groups(r)) =~= Seq::empty());
        assert(optional_copies_code(r, greedy, 1, base, g0) =~= Seq::empty() + optional_code(
            code_of(r, base + 1, g0),
            greedy,
            base,
        ));
    } else {
        lemma_optional_copies_snoc(r, greedy, (n - 1) as nat, base + l, g0 + groups(r));
        assert(base + l + (n - 1) * l == base + n * l) by (nonlinear_arith);
        assert(g0 + groups(r) + (n - 1) * groups(r) == g0 + n * groups(r)) by (nonlinear_arith);
        assert(optional_copies_code(r, greedy, n + 1, base, g0) =~= optional_copies_code(
            r,
            greedy,
            n,
            base,
            g0,
        ) + optional_code(
            code_of(r, base + n * l + 1, g0 + n * groups(r)),
            greedy,
            base + n * l,
        ));
    }
}

/// `n` times the same pattern, one after the other, is `n` copies of it.
pub proof fn lemma_repeat_parts<T>(a: Rc<Regex<T>>, n: nat, base: int, g0: int)
    ensures
        parts_code(repeat_parts(a, n), base, g0) == copies_code(*a, n, base, g0),
        parts_len(repeat_parts(a, n)) == n * code_len(*a),
        parts_groups(repeat_parts(a, n)) == n * groups(*a),
        parts_weight(repeat_parts(a, n)) == n * weight(*a),
    decreases n,
{
    let ra = target(a);
    let parts = repeat_parts(a, n);
    if n == 0 {
        assert(n * code_len(ra) == 0 && n * groups(ra) == 0 && n * weight(ra) == 0)
            by (nonlinear_arith)
            requires
                n == 0,
        ;
    } else {
        let m = (n - 1) as nat;
        assert(parts.drop_last() =~= repeat_parts(a, m));
        lemma_repeat_parts(a, m, base, g0);
        lemma_copies_snoc(ra, m, base, g0);
        assert(n * code_len(ra) == m * code_len(ra) + code_len(ra)) by (nonlinear_arith)
            requires
                n == m + 1,
        ;
        assert(n * groups(ra) == m * groups(ra) + groups(ra)) by (nonlinear_arith)
            requires
                n == m + 1,
        ;
        assert(n * weight(ra) == m * weight(ra) + weight(ra)) by (nonlinear_arith)
            requires
                n == m + 1,
        ;
    }
}

/// `n` times "zero or one `a`", one after the other, is `n` optional copies of `a`.
pub proof fn lemma_optional_parts<T>(a: Rc<Regex<T>>, greedy: bool, n: nat, base: int, g0: int)
    ensures
        parts_code(repeat_parts(Rc::new(Regex::ZeroOrOne(a, greedy)), n), base, g0)
            == optional_copies_code(*a, greedy, n, base, g0),
        parts_len(repeat_parts(Rc::new(Regex::ZeroOrOne(a, greedy)), n)) == n * (1 + code_len(
            *a,
        )),
        parts_groups(repeat_parts(Rc::new(Regex::ZeroOrOne(a, greedy)), n)) == n * groups(*a),
        parts_weight(repeat_parts(Rc::new(Regex::ZeroOrOne(a, greedy)), n)) == n * (1 + weight(
            *a,
        )),
    decreases n,
{
    let ra = target(a);
    let zo: Rc<Regex<T>> = Rc::new(Regex::ZeroOrOne(a, greedy));
    let parts = repeat_parts(zo, n);
    if n == 0 {
        assert(n * (1 + code_len(ra)) == 0 && n * groups(ra) == 0 && n * (1 + weight(ra)) == 0)
            by (nonlinear_arith)
            requires
                n == 0,
        ;
    } else {
        let m = (n - 1) as nat;
        assert(parts.drop_last() =~= repeat_parts(zo, m));
        lemma_optional_parts(a, greedy, m, base, g0);
        lemma_optional_copies_snoc(ra, greedy, m, base, g0);
        lemma_code_len(ra, base + m * (1 + code_len(ra)) + 1, g0 + m * groups(ra));
        assert(n * (1 + code_len(ra)) == m * (1 + code_len(ra)) + (1 + code_len(ra)))
            by (nonlinear_arith)
            requires
                n == m + 1,
        ;
        assert(n * groups(ra) == m * groups(ra) + groups(ra)) by (nonlinear_arith)
            requires
                n == m + 1,
        ;
        assert(n * (1 + weight(ra)) == m * (1 + weight(ra)) + (1 + weight(ra)))
            by (nonlinear_arith)
            requires
                n == m + 1,
        ;
    }
}

/// The instructions of two lists of patterns, one list after the other.
pub proof fn lemma_parts_append<T>(
    ps: Seq<Rc<Regex<T>>>,
    qs: Seq<Rc<Regex<T>>>,
    base: int,
    g0: int,
)
    ensures
        parts_code(ps + qs, base, g0) == parts_code(ps, base, g0) + parts_code(
            qs,
            base + parts_len(ps),
            g0 + parts_groups(ps),
        ),
        parts_len(ps + qs) == parts_len(ps) + parts_len(qs),
        parts_groups(ps + qs) == parts_groups(ps) + parts_groups(qs),
        parts_weight(ps + qs) == parts_weight(ps) + parts_weight(qs),
    decreases qs.len(),
{
    if qs.len() == 0 {
        assert(ps + qs =~= ps);
        assert(parts_code(ps + qs, base, g0) =~= parts_code(ps, base, g0) + parts_code(
            qs,
            base + parts_len(ps),
            g0 + parts_groups(ps),
        ));
    } else {
        assert((ps + qs).drop_last() =~= ps + qs.drop_last());
        assert((ps + qs).last() == qs.last());
        lemma_parts_append(ps, qs.drop_last(), base, g0);
        assert(parts_code(ps + qs, base, g0) =~= parts_code(ps, base, g0) + parts_code(
            qs,
            base + parts_len(ps),
            g0 + parts_groups(ps),
        ));
    }
}

/// A repetition by count compiles to the same instructions as the
/// patterns that it stands for, one after the other.
pub proof fn lemma_expansion<T>(r: Regex<T>, base: int, g0: int)
    requires
        r is RepeatN || r is RepeatMinMax,
        r matches Regex::RepeatMinMax(_, n, Some(m), _) ==> n <= m,
    ensures
        parts_code(expansion_parts(r), base, g0) == code_of(r, base, g0),
        parts_len(expansion_parts(r)) == code_len(r),
        parts_groups(expansion_parts(r)) == groups(r),
        parts_weight(expansion_parts(r)) + expansion_parts(r).len() <= weight(r),
        regex_wf(r) ==> parts_wf(expansion_parts(r)),
{
    let parts = expansion_parts(r);
    let n = count_of(r);
    let ra = inner(r);
    let w = weight(ra);
    match r {
        Regex::RepeatN(a, _) => {
            lemma_repeat_parts(a, n, base, g0);
            assert(n * w + n <= 1 + n * (w + 2)) by (nonlinear_arith);
            assert(parts_weight(parts) + parts.len() <= weight(r));
        },
        Regex::RepeatMinMax(a, _, Some(_), greedy) => {
            let k = extra_of(r);
            let zo: Rc<Regex<T>> = Rc::new(Regex::ZeroOrOne(a, greedy));
            lemma_repeat_parts(a, n, base, g0);
            lemma_optional_parts(a, greedy, k, base + n * code_len(ra), g0 + n * groups(ra));
            lemma_parts_append(repeat_parts(a, n), repeat_parts(zo, k), base, g0);
            assert((n + k) * groups(ra) == n * groups(ra) + k * groups(ra)) by (nonlinear_arith);
            assert(n * w + k * (1 + w) + (n + k) <= 1 + (n + (n + k)) * (w + 2))
                by (nonlinear_arith);
            assert(parts_weight(parts) + parts.len() <= weight(r));
        },
        Regex::RepeatMinMax(a, _, None, greedy) => {
            if n == 0 {
                let st: Rc<Regex<T>> = Rc::new(Regex::Repeat0(a, greedy));
                assert(parts =~= seq![st]);
                assert(parts.drop_last() =~= Seq::empty());
                assert(parts_len(parts.drop_last()) == 0);
                assert(parts_groups(parts.drop_last()) == 0);
                assert(parts_weight(parts.drop_last()) == 0);
                assert(parts_code(parts.drop_last(), base, g0) =~= Seq::empty());
                assert(parts.last() == st);
                assert(parts_code(parts, base, g0) =~= code_of(r, base, g0));
                assert(1 * (w + 2) == w + 2) by (nonlinear_arith);
                assert(parts_weight(parts) + parts.len() <= weight(r));
            } else {
                let m = (n - 1) as nat;
                let pl: Rc<Regex<T>> = Rc::new(Regex::Repeat1(a, greedy));
                assert(parts.drop_last() =~= repeat_parts(a, m));
                lemma_repeat_parts(a, m, base, g0);
                assert(n * code_len(ra) == m * code_len(ra) + code_len(ra)) by (nonlinear_arith)
                    requires
                        n == m + 1,
                ;
                assert(n * groups(ra) == m * groups(ra) + groups(ra)) by (nonlinear_arith)
                    requires
                        n == m + 1,
                ;
                assert(m * w + (1 + w) + n <= 1 + (n + 1) * (w + 2)) by (nonlinear_arith)
                    requires
                        n == m + 1,
                ;
                assert(parts_weight(parts) + parts.len() <= weight(r));
            }
        },
        _ => {},
    }
}

/// A left-nested concatenation compiles to the instructions of its parts,
/// one after the other.
pub proof fn lemma_concat_all<T>(parts: Seq<Rc<Regex<T>>>, base: int, g0: int)
    requires
        parts.len() >= 1,
    ensures
        code_of(concat_all(parts), base, g0) == parts_code(parts, base, g0),
        code_len(concat_all(parts)) == parts_len(parts),
        groups(concat_all(parts)) == parts_groups(parts),
        weight(concat_all(parts)) + 1 == parts_weight(parts) + parts.len(),
        regex_wf(concat_all(parts)) == parts_wf(parts),
    decreases parts.len(),
{
    if parts.len() == 1 {
        assert(parts.drop_last() =~= Seq::empty());
        assert(parts_code(parts.drop_last(), base, g0) =~= Seq::empty());
        assert(parts_code(parts, base, g0) =~= code_of(*parts[0], base, g0));
        assert(parts_len(parts.drop_last()) == 0);
        assert(parts_groups(parts.drop_last()) == 0);
        assert(parts_weight(parts.drop_last()) == 0);
    } else {
        let init = parts.drop_last();
        lemma_concat_all(init, base, g0);
        assert(parts_wf(parts) == (parts_wf(init) && regex_wf(*parts.last()))) by {
            if parts_wf(init) && regex_wf(*parts.last()) {
                assert forall|i: int| 0 <= i < parts.len() implies regex_wf(
                    *#[trigger] parts[i],
                ) by {
                    if i < init.len() {
                        assert(parts[i] == init[i]);
                    }
                }
            }
            if parts_wf(parts) {
                assert forall|i: int| 0 <= i < init.len() implies regex_wf(
                    *#[trigger] init[i],
                ) by {
                    assert(init[i] == parts[i]);
                }
                assert(regex_wf(*parts[parts.len() - 1]));
            }
        }
    }
}

} // verus!

verus! {

/// The pattern can be compiled on this machine: its program and the save
/// slots of its groups can be counted in a `usize`.
pub open spec fn compilable<T>(r: Regex<T>) -> bool {
    &&& regex_wf(r)
    &&& code_len(r) + 1 < usize::MAX
    &&& 2 * (1 + groups(r)) + 2 <= usize::MAX
}

/// `n` handles to the pattern `r`.
pub fn expand_repeat_n<T>(r: &Rc<Regex<T>>, n: usize) -> (parts: Vec<Rc<Regex<T>>>)
    ensures
        parts@ == repeat_parts(*r, n as nat),
{
    let mut parts: Vec<Rc<Regex<T>>> = Vec::new();
    let mut i: usize = 0;
    while i < n
        invariant
            i <= n,
            parts@ == repeat_parts(*r, i as nat),
        decreases n - i,
    {
        parts.push(rc_clone(r));
        i += 1;
        assert(parts@ =~= repeat_parts(*r, i as nat));
    }
    parts
}

/// The patterns that a bounded repetition of `r` stands for: `n` times `r`
/// and then, with an upper bound `m`, `m - n` times "zero or one `r`";
/// without one, `n - 1` times `r` and "one or more `r`", or "zero or more
/// `r`" alone where `n` is 0.
pub fn expand_repeat_min_max<T>(r: &Rc<Regex<T>>, n: usize, m: &Option<usize>, greedy: bool) -> (parts:
    Vec<Rc<Regex<T>>>)
    requires
        *m matches Some(mm) ==> n <= mm,
    ensures
        parts@ == min_max_parts(*r, n, *m, greedy),
{
    match m {
        Some(mm) => {
            let mut parts = expand_repeat_n(r, n);
            let optional: Rc<Regex<T>> = Rc::new(Regex::ZeroOrOne(rc_clone(r), greedy));
            let mut tail = expand_repeat_n(&optional, *mm - n);
            parts.append(&mut tail);
            parts
        },
        None => {
            if n == 0 {
                let mut parts: Vec<Rc<Regex<T>>> = Vec::new();
                parts.push(Rc::new(Regex::Repeat0(rc_clone(r), greedy)));
                assert(parts@ =~= min_max_parts(*r, n, *m, greedy));
                parts
            } else {
                let mut parts = expand_repeat_n(r, n - 1);
                parts.push(Rc::new(Regex::Repeat1(rc_clone(r), greedy)));
                parts
            }
        },
    }
}

/// The patterns of `regs` concatenated from the left.
pub fn concat_regex_list<T>(regs: &[Rc<Regex<T>>]) -> (reg: Rc<Regex<T>>)
    requires
        regs@.len() >= 1,
    ensures
        *reg == concat_all(regs@),
{
    let mut reg = rc_clone(&regs[0]);
    let mut i: usize = 1;
    assert(regs@.subrange(0, 1)[0] == regs@[0]);
    while i < regs.len()
        invariant
            1 <= i <= regs@.len(),
            *reg == concat_all(regs@.subrange(0, i as int)),
        decreases regs@.len() - i,
    {
        let next = rc_clone(&regs[i]);
        proof {
            let pre = regs@.subrange(0, i as int);
            let cur = regs@.subrange(0, i + 1);
            assert(cur.drop_last() =~= pre);
            assert(cur.last() == regs@[i as int]);
        }
        reg = Rc::new(Regex::Concat(reg, next));
        i += 1;
    }
    assert(regs@.subrange(0, i as int) =~= regs@);
    reg
}

/// The view of two instruction lists, one after the other.
proof fn lemma_ops_append<T>(a: Seq<Inst<T>>, b: Seq<Inst<T>>)
    ensures
        ops_of(a + b) == ops_of(a) + ops_of(b),
        preds_wf(a) && preds_wf(b) ==> preds_wf(a + b),
{
    assert(ops_of(a + b) =~= ops_of(a) + ops_of(b));
    if preds_wf(a) && preds_wf(b) {
        assert forall|i: int| 0 <= i < (a + b).len() implies ((#[trigger] (a + b)[i]) matches Inst::Check(
            p,
        ) ==> p.wf()) by {
            if i < a.len() {
                assert((a + b)[i] == a[i]);
            } else {
                assert((a + b)[i] == b[i - a.len()]);
            }
        }
    }
}

/// The view of an instruction list with one more instruction.
proof fn lemma_ops_push<T>(a: Seq<Inst<T>>, x: Inst<T>)
    ensures
        ops_of(a.push(x)) == ops_of(a).push(x@),
        preds_wf(a) && (x matches Inst::Check(p) ==> p.wf()) ==> preds_wf(a.push(x)),
{
    assert(ops_of(a.push(x)) =~= ops_of(a).push(x@));
    if preds_wf(a) && (x matches Inst::Check(p) ==> p.wf()) {
        assert forall|i: int| 0 <= i < a.push(x).len() implies ((#[trigger] a.push(x)[i]) matches Inst::Check(
            p,
        ) ==> p.wf()) by {
            if i < a.len() {
                assert(a.push(x)[i] == a[i]);
            }
        }
    }
}

/// The split that starts or ends a repetition.
fn split_inst<T>(greedy: bool, body: usize, skip: usize) -> (inst: Inst<T>)
    ensures
        inst@ == split_op::<T>(greedy, body as int, skip as int),
{
    if greedy {
        Inst::Split(body, skip)
    } else {
        Inst::Split(skip, body)
    }
}

/// `a` followed by `b`.
fn join<T>(a: Vec<Inst<T>>, b: Vec<Inst<T>>) -> (res: Vec<Inst<T>>)
    ensures
        res@ == a@ + b@,
        ops_of(res@) == ops_of(a@) + ops_of(b@),
        preds_wf(a@) && preds_wf(b@) ==> preds_wf(res@),
{
    let mut res = a;
    let mut tail = b;
    proof {
        lemma_ops_append(a@, b@);
    }
    res.append(&mut tail);
    res
}

/// `a` followed by the instruction `x`.
pub(crate) fn with_inst<T>(a: Vec<Inst<T>>, x: Inst<T>) -> (res: Vec<Inst<T>>)
    ensures
        res@ == a@.push(x),
        ops_of(res@) == ops_of(a@).push(x@),
        preds_wf(a@) && !(x is Check) ==> preds_wf(res@),
{
    let mut res = a;
    proof {
        lemma_ops_push(a@, x);
    }
    res.push(x);
    res
}

/// Compiles `reg` for a place in a program: its first instruction will sit
/// at `start_pc` and its first group gets the number `next_group_index`.
/// Returns the instructions, the place just behind them and the next free
/// group number.
pub(crate) fn compile_node<T: 'static>(reg: &Regex<T>, start_pc: usize, next_group_index: usize) -> (res: (
    Vec<Inst<T>>,
    usize,
    usize,
))
    requires
        regex_wf(*reg),
        start_pc + code_len(*reg) + 1 < usize::MAX,
        2 * (next_group_index + groups(*reg)) + 2 <= usize::MAX,
    ensures
        ops_of(res.0@) == code_of(*reg, start_pc as int, next_group_index as int),
        preds_wf(res.0@),
        res.1 == start_pc + code_len(*reg),
        res.2 == next_group_index + groups(*reg),
    decreases weight(*reg),
{
    let insts: Vec<Inst<T>> = Vec::new();
    let ghost base = start_pc as int;
    let ghost g0 = next_group_index as int;
    proof {
        lemma_code_len(*reg, base, g0);
        assert(ops_of(insts@) =~= Seq::empty());
    }
    match reg {
        Regex::Satisfy(p) => {
            let mut insts = insts;
            let inst = Inst::Check(rc_clone(p));
            proof {
                lemma_ops_push(insts@, inst);
            }
            insts.push(inst);
            assert(ops_of(insts@) =~= code_of(*reg, base, g0));
            (insts, start_pc + 1, next_group_index)
        },
        Regex::NotSatisfy(p) => {
            let mut insts = insts;
            let inst = Inst::Check(pred_not(rc_clone(p)));
            proof {
                lemma_ops_push(insts@, inst);
            }
            insts.push(inst);
            assert(ops_of(insts@) =~= code_of(*reg, base, g0));
            (insts, start_pc + 1, next_group_index)
        },
        Regex::Concat(r, s) => {
            let (r_insts, r_next, r_group) = compile_node(&**r, start_pc, next_group_index);
            let (s_insts, s_next, s_group) = compile_node(&**s, r_next, r_group);
            let insts = join(r_insts, s_insts);
            (insts, s_next, s_group)
        },
        Regex::Group(r) => {
            let (r_insts, r_next, r_group) = compile_node(
                &**r,
                start_pc + 1,
                next_group_index + 1,
            );
            let insts = with_inst(insts, Inst::SaveOpen(next_group_index));
            let insts = join(insts, r_insts);
            let insts = with_inst(insts, Inst::SaveClose(next_group_index));
            assert(ops_of(insts@) =~= code_of(*reg, base, g0));
            (insts, r_next + 1, r_group)
        },
        Regex::NamedGroup(name, r) => {
            let (r_insts, r_next, r_group) = compile_node(
                &**r,
                start_pc + 1,
                next_group_index + 1,
            );
            let insts = with_inst(insts, Inst::SaveNamedOpen(name.clone(), next_group_index));
            let insts = join(insts, r_insts);
            let insts = with_inst(insts, Inst::SaveNamedClose(name.clone(), next_group_index));
            assert(ops_of(insts@) =~= code_of(*reg, base, g0));
            (insts, r_next + 1, r_group)
        },
        Regex::NonCapturingGroup(r) => compile_node(&**r, start_pc, next_group_index),
        Regex::Or(r, s) => {
            let r_start = start_pc + 1;
            let (r_insts, r_next, r_group) = compile_node(&**r, r_start, next_group_index);
            let s_start = r_next + 1;
            let (s_insts, s_next, s_group) = compile_node(&**s, s_start, r_group);
            let insts = with_inst(insts, Inst::Split(r_start, s_start));
            let insts = join(insts, r_insts);
            let insts = with_inst(insts, Inst::Jmp(s_next));
            let insts = join(insts, s_insts);
            assert(ops_of(insts@) =~= code_of(*reg, base, g0));
            (insts, s_next, s_group)
        },
        Regex::ZeroOrOne(r, greedy) => {
            let r_start = start_pc + 1;
            let (r_insts, r_next, r_group) = compile_node(&**r, r_start, next_group_index);
            let insts = with_inst(insts, split_inst(*greedy, r_start, r_next));
            let insts = join(insts, r_insts);
            assert(ops_of(insts@) =~= code_of(*reg, base, g0));
            (insts, r_next, r_group)
        },
        Regex::Repeat0(r, greedy) => {
            let r_start = start_pc + 1;
            let (r_insts, r_next, r_group) = compile_node(&**r, r_start, next_group_index);
            let insts = with_inst(insts, split_inst(*greedy, r_start, r_next + 1));
            let insts = join(insts, r_insts);
            let insts = with_inst(insts, Inst::Jmp(start_pc));
            assert(ops_of(insts@) =~= code_of(*reg, base, g0));
            (insts, r_next + 1, r_group)
        },
        Regex::Repeat1(r, greedy) => {
            let (r_insts, r_next, r_group) = compile_node(&**r, start_pc, next_group_index);
            let insts = with_inst(r_insts, split_inst(*greedy, start_pc, r_next + 1));
            assert(ops_of(insts@) =~= code_of(*reg, base, g0));
            (insts, r_next + 1, r_group)
        },
        Regex::RepeatN(r, n) => {
            let parts = expand_repeat_n(r, *n);
            proof {
                lemma_expansion(*reg, base, g0);
            }
            if parts.len() == 0 {
                (insts, start_pc, next_group_index)
            } else {
                let expanded = concat_regex_list(parts.as_slice());
                proof {
                    lemma_concat_all(parts@, base, g0);
                }
                compile_node(&*expanded, start_pc, next_group_index)
            }
        },
        Regex::RepeatMinMax(r, n, m, greedy) => {
            let parts = expand_repeat_min_max(r, *n, m, *greedy);
            proof {
                lemma_expansion(*reg, base, g0);
            }
            if parts.len() == 0 {
                (insts, start_pc, next_group_index)
            } else {
                let expanded = concat_regex_list(parts.as_slice());
                proof {
                    lemma_concat_all(parts@, base, g0);
                }
                compile_node(&*expanded, start_pc, next_group_index)
            }
        },
        Regex::Begin => {
            let insts = with_inst(insts, Inst::Begin);
            assert(ops_of(insts@) =~= code_of(*reg, base, g0));
            (insts, start_pc + 1, next_group_index)
        },
        Regex::End => {
            let insts = with_inst(insts, Inst::End);
            assert(ops_of(insts@) =~= code_of(*reg, base, g0));
            (insts, start_pc + 1, next_group_index)
        },
    }
}

/// Compiles a pattern to its program: the pattern's instructions from 0 on,
/// with groups numbered from 1, and `Match` at the end.
pub fn compile_regex_to_vm_insts<T: 'static>(reg: &Regex<T>) -> (insts: Vec<Inst<T>>)
    requires
        compilable(*reg),
    ensures
        ops_of(insts@) == program_of(*reg),
        preds_wf(insts@),
{
    let (insts, _, _) = compile_node(reg, 0, 1);
    with_inst(insts, Inst::Match)
}

} // verus!

verus! {

/// Every bounded repetition in the pattern has its upper bound at or above
/// its lower bound.
pub open spec fn bounds_in_order<T>(r: Regex<T>) -> bool
    decreases r,
{
    match r {
        Regex::Concat(a, b) => bounds_in_order(*a) && bounds_in_order(*b),
        Regex::Or(a, b) => bounds_in_order(*a) && bounds_in_order(*b),
        Regex::Group(a) => bounds_in_order(*a),
        Regex::NamedGroup(_, a) => bounds_in_order(*a),
        Regex::NonCapturingGroup(a) => bounds_in_order(*a),
        Regex::ZeroOrOne(a, _) => bounds_in_order(*a),
        Regex::Repeat0(a, _) => bounds_in_order(*a),
        Regex::Repeat1(a, _) => bounds_in_order(*a),
        Regex::RepeatN(a, _) => bounds_in_order(*a),
        Regex::RepeatMinMax(a, n, m, _) => bounds_in_order(*a) && (m matches Some(mm) ==> n <= mm),
        _ => true,
    }
}

/// Every predicate in the pattern is well formed.
pub open spec fn predicates_wf<T>(r: Regex<T>) -> bool
    decreases r,
{
    match r {
        Regex::Satisfy(p) => p.wf(),
        Regex::NotSatisfy(p) => p.wf(),
        Regex::Concat(a, b) => predicates_wf(*a) && predicates_wf(*b),
        Regex::Or(a, b) => predicates_wf(*a) && predicates_wf(*b),
        Regex::Group(a) => predicates_wf(*a),
        Regex::NamedGroup(_, a) => predicates_wf(*a),
        Regex::NonCapturingGroup(a) => predicates_wf(*a),
        Regex::ZeroOrOne(a, _) => predicates_wf(*a),
        Regex::Repeat0(a, _) => predicates_wf(*a),
        Regex::Repeat1(a, _) => predicates_wf(*a),
        Regex::RepeatN(a, _) => predicates_wf(*a),
        Regex::RepeatMinMax(a, _, _, _) => predicates_wf(*a),
        _ => true,
    }
}

/// The numbers of instructions and of groups of the pattern, and of all its
/// parts, fit the machine's integers.
pub open spec fn measurable<T>(r: Regex<T>) -> bool
    decreases r,
{
    &&& code_len(r) <= usize::MAX
    &&& groups(r) <= usize::MAX
    &&& match r {
        Regex::Concat(a, b) => measurable(*a) && measurable(*b),
        Regex::Or(a, b) => measurable(*a) && measurable(*b),
        Regex::Group(a) => measurable(*a),
        Regex::NamedGroup(_, a) => measurable(*a),
        Regex::NonCapturingGroup(a) => measurable(*a),
        Regex::ZeroOrOne(a, _) => measurable(*a),
        Regex::Repeat0(a, _) => measurable(*a),
        Regex::Repeat1(a, _) => measurable(*a),
        Regex::RepeatN(a, _) => measurable(*a),
        Regex::RepeatMinMax(a, _, _, _) => measurable(*a),
        _ => true,
    }
}

/// A pattern is well formed exactly when its predicates are and its bounds
/// are in order.
pub proof fn lemma_wf_parts<T>(r: Regex<T>)
    ensures
        regex_wf(r) == (predicates_wf(r) && bounds_in_order(r)),
    decreases r,
{
    match r {
        Regex::Concat(..) => {
            lemma_wf_parts(inner(r));
            lemma_wf_parts(second(r));
        },
        Regex::Or(..) => {
            lemma_wf_parts(inner(r));
            lemma_wf_parts(second(r));
        },
        Regex::Satisfy(_) => {},
        Regex::NotSatisfy(_) => {},
        Regex::Begin => {},
        Regex::End => {},
        _ => {
            lemma_wf_parts(inner(r));
        },
    }
}

/// The product of two counts, where it fits.
fn times(x: usize, y: usize) -> (r: Option<usize>)
    ensures
        match r {
            Some(v) => v == x * y,
            None => x * y > usize::MAX,
        },
{
    x.checked_mul(y)
}

/// The sum of two counts, where it fits.
fn plus(x: usize, y: usize) -> (r: Option<usize>)
    ensures
        match r {
            Some(v) => v == x + y,
            None => x + y > usize::MAX,
        },
{
    x.checked_add(y)
}

/// The numbers of instructions and of groups of `reg`, where they can be
/// counted and the bounds of `reg` are in order.
pub fn measure<T>(reg: &Regex<T>) -> (res: Option<(usize, usize)>)
    ensures
        res is Some == (measurable(*reg) && bounds_in_order(*reg)),
        res matches Some(m) ==> m.0 == code_len(*reg) && m.1 == groups(*reg),
    decreases *reg,
{
    match reg {
        Regex::Satisfy(_) => Some((1, 0)),
        Regex::NotSatisfy(_) => Some((1, 0)),
        Regex::Begin => Some((1, 0)),
        Regex::End => Some((1, 0)),
        Regex::Concat(a, b) => {
            let (la, ga) = match measure(&**a) {
                Some(m) => m,
                None => {
                    return None;
                },
            };
            let (lb, gb) = match measure(&**b) {
                Some(m) => m,
                None => {
                    return None;
                },
            };
            match (plus(la, lb), plus(ga, gb)) {
                (Some(l), Some(g)) => Some((l, g)),
                _ => None,
            }
        },
        Regex::Or(a, b) => {
            let (la, ga) = match measure(&**a) {
                Some(m) => m,
                None => {
                    return None;
                },
            };
            let (lb, gb) = match measure(&**b) {
                Some(m) => m,
                None => {
                    return None;
                },
            };
            match (plus(la, lb), plus(ga, gb)) {
                (Some(l), Some(g)) => match plus(l, 2) {
                    Some(l2) => Some((l2, g)),
                    None => None,
                },
                _ => None,
            }
        },
        Regex::Group(a) => match measure(&**a) {
            Some((la, ga)) => match (plus(la, 2), plus(ga, 1)) {
                (Some(l), Some(g)) => Some((l, g)),
                _ => None,
            },
            None => None,
        },
        Regex::NamedGroup(_, a) => match measure(&**a) {
            Some((la, ga)) => match (plus(la, 2), plus(ga, 1)) {
                (Some(l), Some(g)) => Some((l, g)),
                _ => None,
            },
            None => None,
        },
        Regex::NonCapturingGroup(a) => measure(&**a),
        Regex::ZeroOrOne(a, _) => match measure(&**a) {
            Some((la, ga)) => match plus(la, 1) {
                Some(l) => Some((l, ga)),
                None => None,
            },
            None => None,
        },
        Regex::Repeat0(a, _) => match measure(&**a) {
            Some((la, ga)) => match plus(la, 2) {
                Some(l) => Some((l, ga)),
                None => None,
            },
            None => None,
        },
        Regex::Repeat1(a, _) => match measure(&**a) {
            Some((la, ga)) => match plus(la, 1) {
                Some(l) => Some((l, ga)),
                None => None,
            },
            None => None,
        },
        Regex::RepeatN(a, n) => match measure(&**a) {
            Some((la, ga)) => match (times(*n, la), times(*n, ga)) {
                (Some(l), Some(g)) => Some((l, g)),
                _ => None,
            },
            None => None,
        },
        Regex::RepeatMinMax(a, n, m, _) => {
            let (la, ga) = match measure(&**a) {
                Some(m) => m,
                None => {
                    return None;
                },
            };
            match m {
                Some(mm) => {
                    if *mm < *n {
                        return None;
                    }
                    let extra = *mm - *n;
                    proof {
                        assert(n * la >= 0) by (nonlinear_arith)
                            requires
                                n >= 0,
                                la >= 0,
                        ;
                    }
                    if extra == 0 {
                        assert(extra * (1 + la) == 0) by (nonlinear_arith)
                            requires
                                extra == 0,
                        ;
                        return match (times(*n, la), times(*mm, ga)) {
                            (Some(l), Some(g)) => Some((l, g)),
                            _ => None,
                        };
                    }
                    let each = match plus(la, 1) {
                        Some(v) => v,
                        None => {
                            assert(extra * (1 + la) >= 1 + la) by (nonlinear_arith)
                                requires
                                    extra >= 1,
                                    la >= 0,
                            ;
                            return None;
                        },
                    };
                    proof {
                        assert(extra * (1 + la) >= 0) by (nonlinear_arith)
                            requires
                                extra >= 0,
                                la >= 0,
                        ;
                    }
                    match (times(*n, la), times(extra, each), times(*mm, ga)) {
                        (Some(x), Some(y), Some(g)) => match plus(x, y) {
                            Some(l) => Some((l, g)),
                            None => None,
                        },
                        _ => None,
                    }
                },
                None => {
                    if *n == 0 {
                        match plus(la, 2) {
                            Some(l) => Some((l, ga)),
                            None => None,
                        }
                    } else {
                        match (times(*n, la), times(*n, ga)) {
                            (Some(x), Some(g)) => match plus(x, 1) {
                                Some(l) => Some((l, g)),
                                None => None,
                            },
                            _ => None,
                        }
                    }
                },
            }
        },
    }
}

} // verus!
