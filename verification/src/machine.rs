//! The matching machine as mathematics: which threads it holds at each
//! input position, in which order, and which thread it hands back.
//!
//! The order of the threads is their priority. It is the order in which the
//! machine comes to them when it follows the first way of every split to
//! its end before it tries the second.

use crate::inst::{saved_after, start_config, Config, Op};
use crate::runner::{count_false, lemma_count_false_set};
use vstd::prelude::*;

verus! {

/// The threads that the thread `t` becomes without consuming input, in
/// order of priority, and what is visited afterwards.
///
/// A thread that arrives at a visited instruction is dropped. A thread that
/// arrives at a `Check` or at `Match` rests there. A jump, a save and an
/// anchor that holds lead on; of the two ways of a split the first is
/// followed to its end before the second is tried.
pub open spec fn expand<T>(ops: Seq<Op<T>>, at_end: bool, t: Config, seen: Seq<bool>) -> (
    Seq<Config>,
    Seq<bool>,
)
    decreases count_false(seen),
{
    if !(0 <= t.pc < ops.len() && seen.len() == ops.len()) || seen[t.pc] {
        (Seq::empty(), seen)
    } else {
        let marked = seen.update(t.pc, true);
        let on = Config { pc: t.pc + 1, sp: t.sp, caps: saved_after(ops[t.pc], t.caps, t.sp) };
        proof {
            lemma_count_false_set(seen, t.pc);
        }
        match ops[t.pc] {
            Op::Check(_) => (seq![t], marked),
            Op::Match => (seq![t], marked),
            Op::Begin => if t.sp == 0 {
                expand(ops, at_end, on, marked)
            } else {
                (Seq::empty(), marked)
            },
            Op::End => if at_end {
                expand(ops, at_end, on, marked)
            } else {
                (Seq::empty(), marked)
            },
            Op::Jmp(x) => expand(ops, at_end, Config { pc: x, sp: t.sp, caps: t.caps }, marked),
            Op::Split(x, y) => {
                let first = expand(ops, at_end, Config { pc: x, sp: t.sp, caps: t.caps }, marked);
                if count_false(first.1) <= count_false(marked) {
                    let second = expand(
                        ops,
                        at_end,
                        Config { pc: y, sp: t.sp, caps: t.caps },
                        first.1,
                    );
                    (first.0 + second.0, second.1)
                } else {
                    first
                }
            },
            _ => expand(ops, at_end, on, marked),
        }
    }
}

/// The threads that the threads of `stack` become without consuming input,
/// the last of the stack first.
pub open spec fn drain<T>(ops: Seq<Op<T>>, at_end: bool, stack: Seq<Config>, seen: Seq<bool>) -> (
    Seq<Config>,
    Seq<bool>,
)
    decreases stack.len(),
{
    if stack.len() == 0 {
        (Seq::empty(), seen)
    } else {
        let first = expand(ops, at_end, stack.last(), seen);
        let rest = drain(ops, at_end, stack.drop_last(), first.1);
        (first.0 + rest.0, rest.1)
    }
}

/// Nothing is visited in a program of `n` instructions.
pub open spec fn unvisited(n: nat) -> Seq<bool> {
    Seq::new(n, |i: int| false)
}

/// What the machine makes of the threads of input position `sp` from the
/// thread with index `i` on: the threads of the next position, what is
/// visited there, and the thread that matched.
///
/// A thread at a `Check` that the element at `sp` passes goes on to the next
/// position with all that it becomes there. A thread at `Match` matches,
/// for a full match only at the end of the input, and the threads behind it
/// are dropped.
pub open spec fn sweep<T>(
    ops: Seq<Op<T>>,
    xs: Seq<T>,
    full: bool,
    sp: int,
    threads: Seq<Config>,
    i: int,
    next: Seq<Config>,
    seen: Seq<bool>,
) -> (Seq<Config>, Seq<bool>, Option<Config>)
    decreases threads.len() - i,
{
    if !(0 <= i < threads.len()) {
        (next, seen, None)
    } else {
        let t = threads[i];
        match ops[t.pc] {
            Op::Check(f) => if 0 <= sp < xs.len() && f(xs[sp]) {
                let e = expand(
                    ops,
                    sp + 1 == xs.len(),
                    Config { pc: t.pc + 1, sp: sp + 1, caps: t.caps },
                    seen,
                );
                sweep(ops, xs, full, sp, threads, i + 1, next + e.0, e.1)
            } else {
                sweep(ops, xs, full, sp, threads, i + 1, next, seen)
            },
            Op::Match => if !full || sp == xs.len() {
                (next, seen, Some(Config { pc: t.pc, sp, caps: t.caps.mark_close(0, sp) }))
            } else {
                sweep(ops, xs, full, sp, threads, i + 1, next, seen)
            },
            _ => sweep(ops, xs, full, sp, threads, i + 1, next, seen),
        }
    }
}

/// The thread that the machine hands back when it stands at input position
/// `sp` with `threads` and has `matched` so far.
///
/// A match at this position replaces the one so far. As long as nothing has
/// matched and the match need not be full, a new thread starts at the next
/// position behind all others.
pub open spec fn machine<T>(
    ops: Seq<Op<T>>,
    xs: Seq<T>,
    full: bool,
    sp: int,
    threads: Seq<Config>,
    matched: Option<Config>,
) -> Option<Config>
    decreases xs.len() - sp,
{
    if !(0 <= sp <= xs.len()) {
        matched
    } else {
        let swept = sweep(ops, xs, full, sp, threads, 0, Seq::empty(), unvisited(ops.len()));
        let now = if swept.2 is Some {
            swept.2
        } else {
            matched
        };
        if sp == xs.len() {
            now
        } else {
            let seeded = if !full && now is None {
                swept.0 + expand(ops, sp + 1 == xs.len(), start_config(ops, sp + 1), swept.1).0
            } else {
                swept.0
            };
            machine(ops, xs, full, sp + 1, seeded, now)
        }
    }
}

/// The thread that the machine hands back for the program `ops` and the
/// input `xs`: it stands at `Match`, at the input position where it
/// matched, and has recorded the end of the whole match.
pub open spec fn machine_result<T>(ops: Seq<Op<T>>, xs: Seq<T>, full: bool) -> Option<Config> {
    machine(
        ops,
        xs,
        full,
        0,
        expand(ops, xs.len() == 0, start_config(ops, 0), unvisited(ops.len())).0,
        None,
    )
}

/// In `b` everything is visited that is visited in `a`.
pub open spec fn grows(a: Seq<bool>, b: Seq<bool>) -> bool {
    a.len() == b.len() && forall|i: int| 0 <= i < a.len() && a[i] ==> #[trigger] b[i]
}

/// A list in which more is visited has no more `false` entries.
pub proof fn lemma_count_false_grows(a: Seq<bool>, b: Seq<bool>)
    requires
        grows(a, b),
    ensures
        count_false(b) <= count_false(a),
    decreases a.len(),
{
    if a.len() > 0 {
        assert(grows(a.drop_last(), b.drop_last())) by {
            assert forall|i: int| 0 <= i < a.len() - 1 && a.drop_last()[i] implies #[trigger] b.drop_last()[i] by {
                assert(b[i]);
            }
        }
        lemma_count_false_grows(a.drop_last(), b.drop_last());
        assert(a.last() ==> b[b.len() - 1]);
    }
}

/// What is visited grows step by step.
pub proof fn lemma_grows_twice(a: Seq<bool>, b: Seq<bool>, c: Seq<bool>)
    requires
        grows(a, b),
        grows(b, c),
    ensures
        grows(a, c),
{
    assert forall|i: int| 0 <= i < a.len() && a[i] implies #[trigger] c[i] by {
        assert(b[i]);
    }
}

/// What was visited before stays visited, and the instruction of the thread
/// is visited afterwards; so the test in the definition of `expand`, which
/// shows that the definition ends, never fails.
pub proof fn lemma_expand_keeps<T>(ops: Seq<Op<T>>, at_end: bool, t: Config, seen: Seq<bool>)
    ensures
        grows(seen, expand(ops, at_end, t, seen).1),
        count_false(expand(ops, at_end, t, seen).1) <= count_false(seen),
        0 <= t.pc < ops.len() && seen.len() == ops.len() ==> expand(ops, at_end, t, seen).1[t.pc],
    decreases count_false(seen),
{
    let res = expand(ops, at_end, t, seen).1;
    if 0 <= t.pc < ops.len() && seen.len() == ops.len() && !seen[t.pc] {
        let marked = seen.update(t.pc, true);
        let on = Config { pc: t.pc + 1, sp: t.sp, caps: saved_after(ops[t.pc], t.caps, t.sp) };
        lemma_count_false_set(seen, t.pc);
        assert(grows(seen, marked));
        assert(marked[t.pc]);
        match ops[t.pc] {
            Op::Check(_) => {},
            Op::Match => {},
            Op::Begin => {
                if t.sp == 0 {
                    lemma_expand_keeps(ops, at_end, on, marked);
                }
            },
            Op::End => {
                if at_end {
                    lemma_expand_keeps(ops, at_end, on, marked);
                }
            },
            Op::Jmp(x) => {
                lemma_expand_keeps(ops, at_end, Config { pc: x, sp: t.sp, caps: t.caps }, marked);
            },
            Op::Split(x, y) => {
                let tx = Config { pc: x, sp: t.sp, caps: t.caps };
                let ty = Config { pc: y, sp: t.sp, caps: t.caps };
                lemma_expand_keeps(ops, at_end, tx, marked);
                let first = expand(ops, at_end, tx, marked);
                lemma_expand_keeps(ops, at_end, ty, first.1);
                lemma_grows_twice(marked, first.1, res);
            },
            _ => {
                lemma_expand_keeps(ops, at_end, on, marked);
            },
        }
        assert(grows(marked, res));
        lemma_grows_twice(seen, marked, res);
        assert(res[t.pc]);
    } else {
        assert(grows(seen, res));
    }
    lemma_count_false_grows(seen, res);
}

} // verus!

verus! {

/// The thread at instruction `pc` that has recorded what `t` has.
pub open spec fn moved<T>(ops: Seq<Op<T>>, t: Config, pc: int) -> Config {
    Config { pc, sp: t.sp, caps: t.caps }
}

/// The thread `t` behind its own instruction, with what the instruction
/// saves.
pub open spec fn stepped<T>(ops: Seq<Op<T>>, t: Config) -> Config {
    Config { pc: t.pc + 1, sp: t.sp, caps: saved_after(ops[t.pc], t.caps, t.sp) }
}

/// `stack` with `t` on top, where `t` does not stand at a visited
/// instruction.
pub open spec fn pushed(stack: Seq<Config>, t: Config, seen: Seq<bool>) -> Seq<Config> {
    if 0 <= t.pc < seen.len() && seen[t.pc] {
        stack
    } else {
        stack.push(t)
    }
}

/// A thread on top of the stack that stands at a visited instruction can
/// be dropped.
pub proof fn lemma_drain_drop<T>(ops: Seq<Op<T>>, at_end: bool, stack: Seq<Config>, seen: Seq<bool>)
    requires
        stack.len() > 0,
        0 <= stack.last().pc < ops.len(),
        seen.len() == ops.len(),
        seen[stack.last().pc],
    ensures
        drain(ops, at_end, stack, seen) == drain(ops, at_end, stack.drop_last(), seen),
{
    let rest = drain(ops, at_end, stack.drop_last(), seen);
    assert(Seq::<Config>::empty() + rest.0 =~= rest.0);
}

/// A thread on top of the stack that rests is the first of the threads that
/// the stack becomes.
pub proof fn lemma_drain_park<T>(ops: Seq<Op<T>>, at_end: bool, stack: Seq<Config>, seen: Seq<bool>)
    requires
        stack.len() > 0,
        0 <= stack.last().pc < ops.len(),
        seen.len() == ops.len(),
        !seen[stack.last().pc],
        ops[stack.last().pc] is Check || ops[stack.last().pc] is Match,
    ensures
        drain(ops, at_end, stack, seen).0 == seq![stack.last()] + drain(
            ops,
            at_end,
            stack.drop_last(),
            seen.update(stack.last().pc, true),
        ).0,
        drain(ops, at_end, stack, seen).1 == drain(
            ops,
            at_end,
            stack.drop_last(),
            seen.update(stack.last().pc, true),
        ).1,
{
}

/// A thread on top of the stack that does not go on leaves the rest of the
/// stack.
pub proof fn lemma_drain_stop<T>(ops: Seq<Op<T>>, at_end: bool, stack: Seq<Config>, seen: Seq<bool>)
    requires
        stack.len() > 0,
        0 <= stack.last().pc < ops.len(),
        seen.len() == ops.len(),
        !seen[stack.last().pc],
        (ops[stack.last().pc] is Begin && stack.last().sp != 0) || (ops[stack.last().pc] is End
            && !at_end),
    ensures
        drain(ops, at_end, stack, seen) == drain(
            ops,
            at_end,
            stack.drop_last(),
            seen.update(stack.last().pc, true),
        ),
{
    let marked = seen.update(stack.last().pc, true);
    let rest = drain(ops, at_end, stack.drop_last(), marked);
    assert(Seq::<Config>::empty() + rest.0 =~= rest.0);
}

/// A thread on top of the stack that goes on one way can be replaced by the
/// thread that it becomes.
pub proof fn lemma_drain_on<T>(
    ops: Seq<Op<T>>,
    at_end: bool,
    stack: Seq<Config>,
    seen: Seq<bool>,
    on: Config,
)
    requires
        stack.len() > 0,
        0 <= stack.last().pc < ops.len(),
        seen.len() == ops.len(),
        !seen[stack.last().pc],
        0 <= on.pc < ops.len(),
        match ops[stack.last().pc] {
            Op::Check(_) => false,
            Op::Match => false,
            Op::Split(_, _) => false,
            Op::Begin => stack.last().sp == 0 && on == stepped(ops, stack.last()),
            Op::End => at_end && on == stepped(ops, stack.last()),
            Op::Jmp(x) => on == moved(ops, stack.last(), x),
            _ => on == stepped(ops, stack.last()),
        },
    ensures
        drain(ops, at_end, stack, seen) == drain(
            ops,
            at_end,
            pushed(stack.drop_last(), on, seen.update(stack.last().pc, true)),
            seen.update(stack.last().pc, true),
        ),
{
    let t = stack.last();
    let marked = seen.update(t.pc, true);
    let rest = stack.drop_last();
    assert(expand(ops, at_end, t, seen) == expand(ops, at_end, on, marked));
    if marked[on.pc] {
        let r = drain(ops, at_end, rest, marked);
        assert(expand(ops, at_end, on, marked) == (Seq::<Config>::empty(), marked));
        assert(Seq::<Config>::empty() + r.0 =~= r.0);
    } else {
        assert(rest.push(on).drop_last() =~= rest);
        assert(rest.push(on).last() == on);
    }
}

/// A thread on top of the stack that stands at a split can be replaced by
/// the two threads that it becomes, the first of them on top.
pub proof fn lemma_drain_split<T>(
    ops: Seq<Op<T>>,
    at_end: bool,
    stack: Seq<Config>,
    seen: Seq<bool>,
    x: int,
    y: int,
)
    requires
        stack.len() > 0,
        0 <= stack.last().pc < ops.len(),
        seen.len() == ops.len(),
        !seen[stack.last().pc],
        ops[stack.last().pc] == Op::<T>::Split(x, y),
        0 <= x < ops.len(),
        0 <= y < ops.len(),
    ensures
        drain(ops, at_end, stack, seen) == drain(
            ops,
            at_end,
            pushed(
                pushed(
                    stack.drop_last(),
                    moved(ops, stack.last(), y),
                    seen.update(stack.last().pc, true),
                ),
                moved(ops, stack.last(), x),
                seen.update(stack.last().pc, true),
            ),
            seen.update(stack.last().pc, true),
        ),
{
    let t = stack.last();
    let marked = seen.update(t.pc, true);
    let rest = stack.drop_last();
    let tx = moved(ops, t, x);
    let ty = moved(ops, t, y);
    let first = expand(ops, at_end, tx, marked);
    let second = expand(ops, at_end, ty, first.1);
    lemma_expand_keeps(ops, at_end, tx, marked);
    let with_y = pushed(rest, ty, marked);
    let after = drain(ops, at_end, rest, second.1);
    assert(drain(ops, at_end, with_y, first.1) == (second.0 + after.0, after.1)) by {
        if marked[y] {
            assert(first.1[y]);
            assert(Seq::<Config>::empty() + after.0 =~= after.0);
        } else {
            assert(rest.push(ty).drop_last() =~= rest);
        }
    }
    assert((first.0 + second.0) + after.0 =~= first.0 + (second.0 + after.0));
    if marked[x] {
        assert(Seq::<Config>::empty() + (second.0 + after.0) =~= second.0 + after.0);
        assert(Seq::<Config>::empty() + second.0 =~= second.0);
    } else {
        assert(with_y.push(tx).drop_last() =~= with_y);
    }
}

} // verus!
