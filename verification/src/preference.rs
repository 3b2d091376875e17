//! Greedy and lazy, shown on the simplest case: a group around the
//! repetition of one predicate.

use crate::compiler::{code_of, program_of};
use crate::inst::{group_bound, slot_count, start_config, Caps, Config, Op};
use crate::machine::{expand, machine, machine_result, sweep, unvisited};
use crate::predicate::{pred_fn, Pred, Predicate};
use crate::regex::Regex;
use std::rc::Rc;
use vstd::prelude::*;

verus! {

/// The pattern `(p*)`, or `(p*?)` where it is lazy.
pub open spec fn star_group<T>(p: Pred<T>, greedy: bool) -> Regex<T> {
    Regex::Group(Rc::new(Regex::Repeat0(Rc::new(Regex::Satisfy(p)), greedy)))
}

/// The number of elements of `xs` from `i` on, one after the other, on
/// which `p` holds.
pub open spec fn run_length<T>(p: Pred<T>, xs: Seq<T>, i: int) -> nat
    decreases xs.len() - i,
{
    if 0 <= i < xs.len() && p.holds(xs[i]) {
        1 + run_length(p, xs, i + 1)
    } else {
        0
    }
}

/// The program of `(p*)`.
pub open spec fn star_program<T>(p: Pred<T>, greedy: bool) -> Seq<Op<T>> {
    seq![
        Op::SaveOpen(1),
        if greedy {
            Op::Split(2, 4)
        } else {
            Op::Split(4, 2)
        },
        Op::Check(pred_fn(p)),
        Op::Jmp(1),
        Op::SaveClose(1),
        Op::Match,
    ]
}

/// `star_program` is the program of `star_group`.
pub proof fn lemma_star_program<T>(p: Pred<T>, greedy: bool)
    ensures
        program_of(star_group(p, greedy)) == star_program(p, greedy),
        slot_count(star_program(p, greedy)) == 4,
{
    let r = star_group(p, greedy);
    let body: Regex<T> = Regex::Repeat0(Rc::new(Regex::Satisfy(p)), greedy);
    let atom: Regex<T> = Regex::Satisfy(p);
    assert(code_of(atom, 2, 2) =~= seq![Op::Check(pred_fn(p))]);
    assert(code_of(body, 1, 2) =~= seq![
        if greedy {
            Op::<T>::Split(2, 4)
        } else {
            Op::<T>::Split(4, 2)
        },
        Op::Check(pred_fn(p)),
        Op::Jmp(1),
    ]);
    assert(program_of(r) =~= star_program(p, greedy));
    let ops = star_program(p, greedy);
    assert(group_bound(ops, 6) == 2) by {
        reveal_with_fuel(group_bound, 8);
    }
}

} // verus!

verus! {

/// The thread of `(p*)` that rests at the check, at input position `sp`.
pub open spec fn at_check(sp: int, caps: Caps) -> Config {
    Config { pc: 2, sp, caps }
}

/// The thread of `(p*)` that rests at `Match`, at input position `sp`, with
/// the group closed there.
pub open spec fn at_match(sp: int, caps: Caps) -> Config {
    Config { pc: 5, sp, caps: caps.mark_close(1, sp) }
}

/// The threads of `(p*)` at input position `sp`, in order of priority: the
/// greedy pattern prefers to go on, the lazy one to stop.
pub open spec fn star_threads(greedy: bool, sp: int, caps: Caps) -> Seq<Config> {
    if greedy {
        seq![at_check(sp, caps), at_match(sp, caps)]
    } else {
        seq![at_match(sp, caps), at_check(sp, caps)]
    }
}

/// From the split of `(p*)`, a thread becomes the threads of `(p*)`.
pub proof fn lemma_expand_split<T>(
    p: Pred<T>,
    greedy: bool,
    at_end: bool,
    sp: int,
    caps: Caps,
    seen: Seq<bool>,
)
    requires
        seen.len() == 6,
        !seen[1],
        !seen[2],
        !seen[4],
        !seen[5],
    ensures
        expand(star_program(p, greedy), at_end, Config { pc: 1, sp, caps }, seen).0
            == star_threads(greedy, sp, caps),
{
    let ops = star_program(p, greedy);
    let s1 = seen.update(1, true);
    let t2 = Config { pc: 2, sp, caps };
    let t4 = Config { pc: 4, sp, caps };
    reveal_with_fuel(expand, 3);
    crate::machine::lemma_expand_keeps(ops, at_end, t2, s1);
    crate::machine::lemma_expand_keeps(ops, at_end, t4, s1);
    if greedy {
        let first = expand(ops, at_end, t2, s1);
        assert(first.0 =~= seq![t2]);
        assert(first.1 == s1.update(2, true));
        let second = expand(ops, at_end, t4, first.1);
        assert(second.0 =~= seq![at_match(sp, caps)]);
        assert(first.0 + second.0 =~= star_threads(greedy, sp, caps));
    } else {
        let first = expand(ops, at_end, t4, s1);
        assert(first.0 =~= seq![at_match(sp, caps)]);
        assert(first.1 == s1.update(4, true).update(5, true));
        let second = expand(ops, at_end, t2, first.1);
        assert(second.0 =~= seq![t2]);
        assert(first.0 + second.0 =~= star_threads(greedy, sp, caps));
    }
}

} // verus!

verus! {

/// What a thread of `(p*)` has recorded that started at position 0 and has
/// passed the start of the group there.
pub open spec fn opened() -> Caps {
    Caps::blank(4).mark_open(0, 0).mark_open(1, 0)
}

/// The thread of `(p*)` that matched from position 0 up to `e`.
pub open spec fn matched_up_to(e: int) -> Config {
    Config { pc: 5, sp: e, caps: opened().mark_close(1, e).mark_close(0, e) }
}

/// Without threads the machine hands back what has matched so far.
pub proof fn lemma_machine_idle<T>(ops: Seq<Op<T>>, xs: Seq<T>, sp: int, m: Config)
    requires
        0 <= sp <= xs.len(),
    ensures
        machine(ops, xs, false, sp, Seq::empty(), Some(m)) == Some(m),
    decreases xs.len() - sp,
{
    reveal_with_fuel(sweep, 2);
    if sp < xs.len() {
        lemma_machine_idle(ops, xs, sp + 1, m);
    }
}

/// The greedy machine goes on as long as the predicate holds.
pub proof fn lemma_greedy_run<T>(p: Pred<T>, xs: Seq<T>, sp: int, matched: Option<Config>)
    requires
        0 <= sp <= xs.len(),
    ensures
        machine(
            star_program(p, true),
            xs,
            false,
            sp,
            star_threads(true, sp, opened()),
            matched,
        ) == Some(matched_up_to(sp + run_length(p, xs, sp))),
    decreases xs.len() - sp,
{
    let ops = star_program(p, true);
    let threads = star_threads(true, sp, opened());
    let fresh = unvisited(6);
    reveal_with_fuel(sweep, 3);
    let passes = sp < xs.len() && p.holds(xs[sp]);
    assert(pred_fn(p)(xs[sp]) == p.holds(xs[sp]));
    if passes {
        let on = Config { pc: 3, sp: sp + 1, caps: opened() };
        let e = expand(ops, sp + 1 == xs.len(), on, fresh);
        assert(e.0 == star_threads(true, sp + 1, opened())) by {
            reveal_with_fuel(expand, 2);
            lemma_expand_split(p, true, sp + 1 == xs.len(), sp + 1, opened(), fresh.update(3, true));
        }
        assert(Seq::<Config>::empty() + e.0 =~= e.0);
        lemma_greedy_run(p, xs, sp + 1, Some(matched_up_to(sp)));
    } else if sp < xs.len() {
        lemma_machine_idle(ops, xs, sp + 1, matched_up_to(sp));
    }
}

/// The lazy machine stops at once.
pub proof fn lemma_lazy_stop<T>(p: Pred<T>, xs: Seq<T>)
    ensures
        machine(star_program(p, false), xs, false, 0, star_threads(false, 0, opened()), None)
            == Some(matched_up_to(0)),
{
    let ops = star_program(p, false);
    reveal_with_fuel(sweep, 2);
    if 0 < xs.len() {
        lemma_machine_idle(ops, xs, 1, matched_up_to(0));
    }
}

/// Greedy and lazy on the pattern `(p*)`: asked for the captures in any
/// input, the greedy pattern matches from the start of the input as many
/// elements as `p` holds of, one after the other, and the lazy pattern
/// matches none; the group spans what the whole match spans.
pub proof fn law_greedy_takes_all_lazy_takes_none<T>(p: Pred<T>, greedy: bool, xs: Seq<T>)
    ensures
        machine_result(program_of(star_group(p, greedy)), xs, false) matches Some(t) && ({
            let k = if greedy {
                run_length(p, xs, 0) as int
            } else {
                0
            };
            t.caps.span(0) == Some((0int, k)) && t.caps.span(1) == Some((0int, k))
        }),
{
    let ops = star_program(p, greedy);
    lemma_star_program(p, greedy);
    let fresh = unvisited(6);
    let first = expand(ops, xs.len() == 0, start_config(ops, 0), fresh);
    assert(first.0 == star_threads(greedy, 0, opened())) by {
        reveal_with_fuel(expand, 2);
        lemma_expand_split(
            p,
            greedy,
            xs.len() == 0,
            0,
            opened(),
            fresh.update(0, true),
        );
    }
    if greedy {
        lemma_greedy_run(p, xs, 0, None);
    } else {
        lemma_lazy_stop(p, xs);
    }
}

} // verus!
