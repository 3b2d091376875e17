//! The instruction set of the matching machine and what a program means.

use crate::predicate::{pred_fn, Pred};
use vstd::prelude::*;

verus! {

/// One instruction of a compiled pattern.
#[derive(Clone)]
#[verifier::reject_recursive_types(T)]
pub enum Inst<T> {
    /// Goes on only at input position 0.
    Begin,
    /// Goes on only at the end of the input.
    End,
    /// Consumes one element on which the predicate holds.
    Check(Pred<T>),
    /// Accepts.
    Match,
    /// Continues at the given instruction.
    Jmp(usize),
    /// Continues at both instructions; the first has priority.
    Split(usize, usize),
    /// Records the current position as the start of a group.
    SaveOpen(usize),
    /// Records the current position as the end of a group.
    SaveClose(usize),
    /// As `SaveOpen`, and binds the name to the group.
    SaveNamedOpen(String, usize),
    /// As `SaveClose`, and binds the name to the group.
    SaveNamedClose(String, usize),
}

/// The mathematical content of an instruction.
#[verifier::ext_equal]
#[verifier::reject_recursive_types(T)]
pub enum Op<T> {
    Begin,
    End,
    Check(spec_fn(T) -> bool),
    Match,
    Jmp(int),
    Split(int, int),
    SaveOpen(int),
    SaveClose(int),
    SaveNamedOpen(Seq<char>, int),
    SaveNamedClose(Seq<char>, int),
}

impl<T> View for Inst<T> {
    type V = Op<T>;

    open spec fn view(&self) -> Op<T> {
        match *self {
            Inst::Begin => Op::Begin,
            Inst::End => Op::End,
            Inst::Check(p) => Op::Check(pred_fn(p)),
            Inst::Match => Op::Match,
            Inst::Jmp(t) => Op::Jmp(t as int),
            Inst::Split(x, y) => Op::Split(x as int, y as int),
            Inst::SaveOpen(g) => Op::SaveOpen(g as int),
            Inst::SaveClose(g) => Op::SaveClose(g as int),
            Inst::SaveNamedOpen(name, g) => Op::SaveNamedOpen(name@, g as int),
            Inst::SaveNamedClose(name, g) => Op::SaveNamedClose(name@, g as int),
        }
    }
}

/// The mathematical content of a program.
pub open spec fn ops_of<T>(insts: Seq<Inst<T>>) -> Seq<Op<T>> {
    Seq::new(insts.len(), |i: int| insts[i]@)
}

/// Every predicate of the program is well formed.
pub open spec fn preds_wf<T>(insts: Seq<Inst<T>>) -> bool {
    forall|i: int|
        0 <= i < insts.len() ==> ((#[trigger] insts[i]) matches Inst::Check(p) ==> p.wf())
}

/// The group an instruction saves for, if it is a save.
pub open spec fn saved_group<T>(op: Op<T>) -> Option<int> {
    match op {
        Op::SaveOpen(g) => Some(g),
        Op::SaveClose(g) => Some(g),
        Op::SaveNamedOpen(_, g) => Some(g),
        Op::SaveNamedClose(_, g) => Some(g),
        _ => None,
    }
}

/// One more than the largest group that the first `n` instructions save for.
pub open spec fn group_bound<T>(ops: Seq<Op<T>>, n: int) -> int
    decreases n,
{
    if n <= 0 {
        1
    } else {
        let rest = group_bound(ops, n - 1);
        match saved_group(ops[n - 1]) {
            Some(g) => if g + 1 > rest {
                g + 1
            } else {
                rest
            },
            None => rest,
        }
    }
}

/// The number of save slots a thread of the program carries: two for the
/// whole match and two for each group up to the largest one saved.
pub open spec fn slot_count<T>(ops: Seq<Op<T>>) -> int {
    2 * group_bound(ops, ops.len() as int)
}

/// Every instruction continues inside the program and every save fits the
/// machine's integers.
pub open spec fn program_ok<T>(ops: Seq<Op<T>>) -> bool {
    forall|pc: int|
        0 <= pc < ops.len() ==> match #[trigger] ops[pc] {
            Op::Match => true,
            Op::Jmp(t) => 0 <= t < ops.len(),
            Op::Split(x, y) => 0 <= x < ops.len() && 0 <= y < ops.len(),
            Op::SaveOpen(g) => pc + 1 < ops.len() && 0 <= g && 2 * g + 2 <= usize::MAX,
            Op::SaveClose(g) => pc + 1 < ops.len() && 0 <= g && 2 * g + 2 <= usize::MAX,
            Op::SaveNamedOpen(_, g) => pc + 1 < ops.len() && 0 <= g && 2 * g + 2 <= usize::MAX,
            Op::SaveNamedClose(_, g) => pc + 1 < ops.len() && 0 <= g && 2 * g + 2 <= usize::MAX,
            _ => pc + 1 < ops.len(),
        }
}

/// What a thread has recorded: a position for each save slot that was
/// written, and the group each name was last bound to.
#[verifier::ext_equal]
pub struct Caps {
    pub slots: Seq<Option<int>>,
    pub names: Map<Seq<char>, int>,
}

impl Caps {
    /// Nothing recorded, with room for `n` slots.
    pub open spec fn blank(n: int) -> Caps {
        Caps { slots: Seq::new(n as nat, |i: int| None), names: Map::empty() }
    }

    /// The start of group `g` is recorded as `sp`, where there is a slot
    /// for it.
    pub open spec fn mark_open(self, g: int, sp: int) -> Caps {
        if 0 <= 2 * g < self.slots.len() {
            Caps { slots: self.slots.update(2 * g, Some(sp)), names: self.names }
        } else {
            self
        }
    }

    /// The end of group `g` is recorded as `sp`, where there is a slot for
    /// it.
    pub open spec fn mark_close(self, g: int, sp: int) -> Caps {
        if 0 <= 2 * g + 1 < self.slots.len() {
            Caps { slots: self.slots.update(2 * g + 1, Some(sp)), names: self.names }
        } else {
            self
        }
    }

    /// `name` is bound to group `g`.
    pub open spec fn bind(self, name: Seq<char>, g: int) -> Caps {
        Caps { slots: self.slots, names: self.names.insert(name, g) }
    }

    /// The span recorded for group `g`, if both its ends were recorded.
    pub open spec fn span(self, g: int) -> Option<(int, int)> {
        if 0 <= g && 2 * g + 1 < self.slots.len() {
            match (self.slots[2 * g], self.slots[2 * g + 1]) {
                (Some(a), Some(b)) => Some((a, b)),
                _ => None,
            }
        } else {
            None
        }
    }
}

/// A thread at one moment: where it stands in the program and in the
/// input, and what it has recorded.
#[verifier::ext_equal]
pub struct Config {
    pub pc: int,
    pub sp: int,
    pub caps: Caps,
}

/// What a save instruction does to the record at position `sp`; other
/// instructions leave it as it is.
pub open spec fn saved_after<T>(op: Op<T>, caps: Caps, sp: int) -> Caps {
    match op {
        Op::SaveOpen(g) => caps.mark_open(g, sp),
        Op::SaveClose(g) => caps.mark_close(g, sp),
        Op::SaveNamedOpen(name, g) => caps.mark_open(g, sp).bind(name, g),
        Op::SaveNamedClose(name, g) => caps.mark_close(g, sp).bind(name, g),
        _ => caps,
    }
}

/// The thread at `a` can be at `b` after one instruction that consumes no
/// input. `at_end` says whether the thread stands at the end of the input.
pub open spec fn eps_step<T>(ops: Seq<Op<T>>, at_end: bool, a: Config, b: Config) -> bool {
    &&& 0 <= a.pc < ops.len()
    &&& b.sp == a.sp
    &&& match ops[a.pc] {
        Op::Begin => a.sp == 0 && b.pc == a.pc + 1 && b.caps == a.caps,
        Op::End => at_end && b.pc == a.pc + 1 && b.caps == a.caps,
        Op::Check(_) => false,
        Op::Match => false,
        Op::Jmp(t) => b.pc == t && b.caps == a.caps,
        Op::Split(x, y) => (b.pc == x || b.pc == y) && b.caps == a.caps,
        _ => b.pc == a.pc + 1 && b.caps == saved_after(ops[a.pc], a.caps, a.sp),
    }
}

/// The thread at `a` can be at `b` after consuming one element.
pub open spec fn check_step<T>(ops: Seq<Op<T>>, xs: Seq<T>, a: Config, b: Config) -> bool {
    &&& 0 <= a.pc < ops.len()
    &&& 0 <= a.sp < xs.len()
    &&& ops[a.pc] matches Op::Check(f) && f(xs[a.sp])
    &&& b.pc == a.pc + 1
    &&& b.sp == a.sp + 1
    &&& b.caps == a.caps
}

/// The thread at `a` can be at `b` after executing one instruction.
pub open spec fn step<T>(ops: Seq<Op<T>>, xs: Seq<T>, a: Config, b: Config) -> bool {
    &&& 0 <= a.sp <= xs.len()
    &&& (eps_step(ops, a.sp == xs.len(), a, b) || check_step(ops, xs, a, b))
}

/// From the instruction at `pc`, at input position `sp`, a thread can go on
/// to the instruction at `next` without consuming input.
pub open spec fn eps_succ<T>(ops: Seq<Op<T>>, sp: int, at_end: bool, pc: int, next: int) -> bool {
    &&& 0 <= pc < ops.len()
    &&& match ops[pc] {
        Op::Begin => sp == 0 && next == pc + 1,
        Op::End => at_end && next == pc + 1,
        Op::Check(_) => false,
        Op::Match => false,
        Op::Jmp(t) => next == t,
        Op::Split(x, y) => next == x || next == y,
        _ => next == pc + 1,
    }
}

/// The thread at `a` can be at `b` after `k` instructions that consume no input.
pub open spec fn eps_run<T>(ops: Seq<Op<T>>, at_end: bool, k: nat, a: Config, b: Config) -> bool
    decreases k,
{
    if k == 0 {
        a == b
    } else {
        exists|m: Config|
            #[trigger] eps_step(ops, at_end, a, m) && eps_run(ops, at_end, (k - 1) as nat, m, b)
    }
}

/// The thread at `a` can be at `b` without consuming input.
pub open spec fn eps_reach<T>(ops: Seq<Op<T>>, at_end: bool, a: Config, b: Config) -> bool {
    exists|k: nat| eps_run(ops, at_end, k, a, b)
}

/// The thread at `a` can be at `b` after executing exactly `k` instructions.
pub open spec fn run<T>(ops: Seq<Op<T>>, xs: Seq<T>, k: nat, a: Config, b: Config) -> bool
    decreases k,
{
    if k == 0 {
        a == b
    } else {
        exists|m: Config| #[trigger] step(ops, xs, a, m) && run(ops, xs, (k - 1) as nat, m, b)
    }
}

/// Where a thread starts that begins matching at input position `s`: at
/// the first instruction, with only the start of the whole match recorded.
pub open spec fn start_config<T>(ops: Seq<Op<T>>, s: int) -> Config {
    Config { pc: 0, sp: s, caps: Caps::blank(slot_count(ops)).mark_open(0, s) }
}

/// A thread can be at `c`. A full match starts at position 0 only; otherwise
/// a thread may start at any position of the input.
pub open spec fn reachable<T>(ops: Seq<Op<T>>, xs: Seq<T>, full: bool, c: Config) -> bool {
    exists|s: int, k: nat|
        0 <= s <= xs.len() && (full ==> s == 0) && #[trigger] run(
            ops,
            xs,
            k,
            start_config(ops, s),
            c,
        )
}

/// A thread can be at `c`, and `c` accepts: it stands on `Match` and, for a
/// full match, at the end of the input.
pub open spec fn accepting<T>(ops: Seq<Op<T>>, xs: Seq<T>, full: bool, c: Config) -> bool {
    &&& reachable(ops, xs, full, c)
    &&& 0 <= c.pc < ops.len()
    &&& ops[c.pc] is Match
    &&& full ==> c.sp == xs.len()
}

/// A run can be extended by one instruction at its end.
pub proof fn lemma_run_extend<T>(
    ops: Seq<Op<T>>,
    xs: Seq<T>,
    k: nat,
    a: Config,
    b: Config,
    c: Config,
)
    requires
        run(ops, xs, k, a, b),
        step(ops, xs, b, c),
    ensures
        run(ops, xs, k + 1, a, c),
    decreases k,
{
    if k == 0 {
        assert(run(ops, xs, 0, c, c));
        assert(step(ops, xs, a, c) && run(ops, xs, 0, c, c));
    } else {
        let m = choose|m: Config| #[trigger] step(ops, xs, a, m) && run(ops, xs, (k - 1) as nat, m, b);
        lemma_run_extend(ops, xs, (k - 1) as nat, m, b, c);
        assert(step(ops, xs, a, m) && run(ops, xs, k as nat, m, c));
    }
}

/// Two runs, the second starting where the first ends, make one run.
pub proof fn lemma_run_join<T>(
    ops: Seq<Op<T>>,
    xs: Seq<T>,
    k1: nat,
    k2: nat,
    a: Config,
    b: Config,
    c: Config,
)
    requires
        run(ops, xs, k1, a, b),
        run(ops, xs, k2, b, c),
    ensures
        run(ops, xs, k1 + k2, a, c),
    decreases k1,
{
    if k1 == 0 {
    } else {
        let m = choose|m: Config| #[trigger] step(ops, xs, a, m) && run(ops, xs, (k1 - 1) as nat, m, b);
        lemma_run_join(ops, xs, (k1 - 1) as nat, k2, m, b, c);
        assert(step(ops, xs, a, m) && run(ops, xs, (k1 + k2 - 1) as nat, m, c));
    }
}

} // verus!

verus! {

/// A run without input is a run.
pub proof fn lemma_eps_run_is_run<T>(ops: Seq<Op<T>>, xs: Seq<T>, k: nat, a: Config, b: Config)
    requires
        0 <= a.sp <= xs.len(),
        eps_run(ops, a.sp == xs.len(), k, a, b),
    ensures
        run(ops, xs, k, a, b),
        b.sp == a.sp,
    decreases k,
{
    if k > 0 {
        let at_end = a.sp == xs.len();
        let m = choose|m: Config|
            #[trigger] eps_step(ops, at_end, a, m) && eps_run(ops, at_end, (k - 1) as nat, m, b);
        lemma_eps_run_is_run(ops, xs, (k - 1) as nat, m, b);
        assert(step(ops, xs, a, m) && run(ops, xs, (k - 1) as nat, m, b));
    }
}

/// A run without input can be extended by one such instruction at its end.
pub proof fn lemma_eps_run_extend<T>(
    ops: Seq<Op<T>>,
    at_end: bool,
    k: nat,
    a: Config,
    b: Config,
    c: Config,
)
    requires
        eps_run(ops, at_end, k, a, b),
        eps_step(ops, at_end, b, c),
    ensures
        eps_run(ops, at_end, k + 1, a, c),
    decreases k,
{
    if k == 0 {
        assert(eps_run(ops, at_end, 0, c, c));
        assert(eps_step(ops, at_end, a, c) && eps_run(ops, at_end, 0, c, c));
    } else {
        let m = choose|m: Config|
            #[trigger] eps_step(ops, at_end, a, m) && eps_run(ops, at_end, (k - 1) as nat, m, b);
        lemma_eps_run_extend(ops, at_end, (k - 1) as nat, m, b, c);
        assert(eps_step(ops, at_end, a, m) && eps_run(ops, at_end, k as nat, m, c));
    }
}

/// What is reached without input, and one more such instruction.
pub proof fn lemma_eps_reach_step<T>(ops: Seq<Op<T>>, at_end: bool, a: Config, b: Config, c: Config)
    requires
        eps_reach(ops, at_end, a, b),
        eps_step(ops, at_end, b, c),
    ensures
        eps_reach(ops, at_end, a, c),
{
    let k = choose|k: nat| eps_run(ops, at_end, k, a, b);
    lemma_eps_run_extend(ops, at_end, k, a, b, c);
}

/// A run of at least one instruction has a last instruction.
pub proof fn lemma_run_last<T>(ops: Seq<Op<T>>, xs: Seq<T>, k: nat, a: Config, c: Config) -> (b: Config)
    requires
        k >= 1,
        run(ops, xs, k, a, c),
    ensures
        run(ops, xs, (k - 1) as nat, a, b),
        step(ops, xs, b, c),
    decreases k,
{
    let m = choose|m: Config| #[trigger] step(ops, xs, a, m) && run(ops, xs, (k - 1) as nat, m, c);
    if k == 1 {
        a
    } else {
        let b = lemma_run_last(ops, xs, (k - 1) as nat, m, c);
        assert(step(ops, xs, a, m) && run(ops, xs, (k - 2) as nat, m, b));
        b
    }
}

/// Every save of the first `n` instructions is for a group below `group_bound`.
pub proof fn lemma_group_bound<T>(ops: Seq<Op<T>>, n: int, pc: int)
    requires
        0 <= pc < n <= ops.len(),
    ensures
        group_bound(ops, n) >= 1,
        saved_group(ops[pc]) matches Some(g) ==> g + 1 <= group_bound(ops, n),
    decreases n,
{
    if pc < n - 1 {
        lemma_group_bound(ops, n - 1, pc);
    } else {
        lemma_group_bound_positive(ops, n - 1);
    }
}

/// There is always room for the whole match.
pub proof fn lemma_group_bound_positive<T>(ops: Seq<Op<T>>, n: int)
    ensures
        group_bound(ops, n) >= 1,
    decreases n,
{
    if n > 0 {
        lemma_group_bound_positive(ops, n - 1);
    }
}

} // verus!

verus! {

/// A thread may start at input position `s`: at position 0 only for a full
/// match, and otherwise anywhere in the input.
pub open spec fn valid_start<T>(xs: Seq<T>, full: bool, s: int) -> bool {
    0 <= s <= xs.len() && (full ==> s == 0)
}

/// A thread that started at input position `s` can be at `c`.
pub open spec fn reach_from<T>(ops: Seq<Op<T>>, xs: Seq<T>, s: int, c: Config) -> bool {
    exists|k: nat| #[trigger] run(ops, xs, k, start_config(ops, s), c)
}

/// A thread that started at input position `s` can be at `c`, and `c`
/// accepts.
pub open spec fn accepting_from<T>(
    ops: Seq<Op<T>>,
    xs: Seq<T>,
    full: bool,
    s: int,
    c: Config,
) -> bool {
    &&& valid_start(xs, full, s)
    &&& reach_from(ops, xs, s, c)
    &&& 0 <= c.pc < ops.len()
    &&& ops[c.pc] is Match
    &&& full ==> c.sp == xs.len()
}

/// No accepting thread started before input position `s`.
pub open spec fn leftmost<T>(ops: Seq<Op<T>>, xs: Seq<T>, full: bool, s: int) -> bool {
    forall|s2: int, c2: Config| #[trigger] accepting_from(ops, xs, full, s2, c2) ==> s <= s2
}

/// What a thread reaches from a start that is allowed can be reached.
pub proof fn lemma_reach_from_reachable<T>(
    ops: Seq<Op<T>>,
    xs: Seq<T>,
    full: bool,
    s: int,
    c: Config,
)
    requires
        valid_start(xs, full, s),
        reach_from(ops, xs, s, c),
    ensures
        reachable(ops, xs, full, c),
{
    let k = choose|k: nat| #[trigger] run(ops, xs, k, start_config(ops, s), c);
    assert(run(ops, xs, k, start_config(ops, s), c));
}

/// An accepting thread started somewhere.
pub proof fn lemma_accepting_start<T>(ops: Seq<Op<T>>, xs: Seq<T>, full: bool, c: Config) -> (s: int)
    requires
        accepting(ops, xs, full, c),
    ensures
        accepting_from(ops, xs, full, s, c),
{
    let (s, k) = choose|s: int, k: nat|
        0 <= s <= xs.len() && (full ==> s == 0) && #[trigger] run(
            ops,
            xs,
            k,
            start_config(ops, s),
            c,
        );
    assert(run(ops, xs, k, start_config(ops, s), c));
    s
}

/// What a thread reaches, and one more instruction.
pub proof fn lemma_reach_from_step<T>(ops: Seq<Op<T>>, xs: Seq<T>, s: int, b: Config, c: Config)
    requires
        reach_from(ops, xs, s, b),
        step(ops, xs, b, c),
    ensures
        reach_from(ops, xs, s, c),
{
    let k = choose|k: nat| #[trigger] run(ops, xs, k, start_config(ops, s), b);
    lemma_run_extend(ops, xs, k, start_config(ops, s), b, c);
    assert(run(ops, xs, k + 1, start_config(ops, s), c));
}

/// What a thread reaches, and what it reaches from there without input.
pub proof fn lemma_reach_from_eps<T>(ops: Seq<Op<T>>, xs: Seq<T>, s: int, b: Config, c: Config)
    requires
        reach_from(ops, xs, s, b),
        0 <= b.sp <= xs.len(),
        eps_reach(ops, b.sp == xs.len(), b, c),
    ensures
        reach_from(ops, xs, s, c),
{
    let k = choose|k: nat| #[trigger] run(ops, xs, k, start_config(ops, s), b);
    let at_end = b.sp == xs.len();
    let k2 = choose|k2: nat| eps_run(ops, at_end, k2, b, c);
    lemma_eps_run_is_run(ops, xs, k2, b, c);
    lemma_run_join(ops, xs, k, k2, start_config(ops, s), b, c);
    assert(run(ops, xs, k + k2, start_config(ops, s), c));
}

} // verus!
