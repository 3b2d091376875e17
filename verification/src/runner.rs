//! The machine that runs a program over an input: all threads advance
//! together, one input position at a time.

use crate::inst::{
    accepting, accepting_from, check_step, eps_reach, eps_run, eps_succ, group_bound, leftmost,
    lemma_accepting_start, lemma_eps_reach_step, lemma_group_bound, lemma_reach_from_eps,
    lemma_reach_from_reachable, lemma_reach_from_step, lemma_run_last, ops_of, preds_wf, program_ok,
    reach_from, run, saved_after, slot_count, start_config, step, valid_start, Caps, Config, Inst,
    Op,
};
use crate::machine::{
    drain, expand, lemma_drain_drop, lemma_drain_on, lemma_drain_park, lemma_drain_split,
    lemma_drain_stop, machine, machine_result, moved, pushed, stepped, sweep, unvisited,
};
use crate::predicate::Predicate;
use vstd::prelude::*;

verus! {

/// One thread of the machine.
pub struct Thread {
    /// The instruction the thread stands at.
    pub pc: usize,
    /// The input position recorded in each save slot: slot `2g` is the
    /// start of group `g` and slot `2g + 1` its end.
    pub saved: Vec<Option<usize>>,
    /// The names bound so far, each with its group; no name occurs twice.
    pub named_capture_index: Vec<(String, usize)>,
}

/// The save slots as mathematical integers.
pub open spec fn slots_view(s: Seq<Option<usize>>) -> Seq<Option<int>> {
    Seq::new(
        s.len(),
        |i: int|
            match s[i] {
                Some(v) => Some(v as int),
                None => None,
            },
    )
}

/// No name occurs twice in the list.
pub open spec fn names_distinct(list: Seq<(String, usize)>) -> bool {
    forall|i: int, j: int|
        0 <= i < list.len() && 0 <= j < list.len() && i != j ==> (#[trigger] list[i]).0@
            != (#[trigger] list[j]).0@
}

/// The list binds the name `k`.
pub open spec fn has_name(list: Seq<(String, usize)>, k: Seq<char>) -> bool {
    exists|i: int| 0 <= i < list.len() && (#[trigger] list[i]).0@ == k
}

/// A place in the list where `k` is bound.
pub open spec fn name_index(list: Seq<(String, usize)>, k: Seq<char>) -> int {
    choose|i: int| 0 <= i < list.len() && (#[trigger] list[i]).0@ == k
}

/// The list of bindings as a map from names to groups.
pub open spec fn names_view(list: Seq<(String, usize)>) -> Map<Seq<char>, int> {
    Map::new(|k: Seq<char>| has_name(list, k), |k: Seq<char>| list[name_index(list, k)].1 as int)
}

impl Thread {
    /// What the thread has recorded.
    pub open spec fn caps(&self) -> Caps {
        Caps {
            slots: slots_view(self.saved@),
            names: names_view(self.named_capture_index@),
        }
    }

    /// The thread as a mathematical configuration at input position `sp`.
    pub open spec fn cfg(&self, sp: int) -> Config {
        Config { pc: self.pc as int, sp, caps: self.caps() }
    }

    /// The thread has `n_slots` save slots and binds no name twice.
    pub open spec fn wf(&self, n_slots: int) -> bool {
        &&& self.saved@.len() == n_slots
        &&& names_distinct(self.named_capture_index@)
    }
}

/// A copy of the save slots.
pub(crate) fn copy_slots(v: &Vec<Option<usize>>) -> (res: Vec<Option<usize>>)
    ensures
        res@ == v@,
{
    let mut res: Vec<Option<usize>> = Vec::new();
    let mut i: usize = 0;
    while i < v.len()
        invariant
            i <= v@.len(),
            res@ == v@.subrange(0, i as int),
        decreases v@.len() - i,
    {
        res.push(v[i]);
        i += 1;
        assert(res@ =~= v@.subrange(0, i as int));
    }
    assert(v@.subrange(0, i as int) =~= v@);
    res
}

/// A copy of the name bindings.
pub(crate) fn copy_names(v: &Vec<(String, usize)>) -> (res: Vec<(String, usize)>)
    ensures
        res@ == v@,
{
    let mut res: Vec<(String, usize)> = Vec::new();
    let mut i: usize = 0;
    while i < v.len()
        invariant
            i <= v@.len(),
            res@ == v@.subrange(0, i as int),
        decreases v@.len() - i,
    {
        let entry = &v[i];
        res.push((entry.0.clone(), entry.1));
        i += 1;
        assert(res@ =~= v@.subrange(0, i as int));
    }
    assert(v@.subrange(0, i as int) =~= v@);
    res
}

/// Binds `name` to group `g`: replaces the binding of `name` where there
/// is one, and adds one where there is none.
fn bind_name(named: &mut Vec<(String, usize)>, name: &String, g: usize)
    requires
        names_distinct(old(named)@),
    ensures
        names_distinct(final(named)@),
        names_view(final(named)@) == names_view(old(named)@).insert(name@, g as int),
{
    let ghost before = named@;
    let mut i: usize = 0;
    while i < named.len()
        invariant
            i <= named@.len(),
            named@ == before,
            before == old(named)@,
            names_distinct(before),
            forall|j: int| 0 <= j < i ==> (#[trigger] named@[j]).0@ != name@,
        decreases named@.len() - i,
    {
        if named[i].0 == *name {
            named[i] = (name.clone(), g);
            proof {
                let after = named@;
                assert(after == before.update(i as int, after[i as int]));
                assert(names_distinct(after)) by {
                    assert forall|a: int, b: int|
                        0 <= a < after.len() && 0 <= b < after.len() && a != b implies (
                    #[trigger] after[a]).0@ != (#[trigger] after[b]).0@ by {
                        assert(before[a].0@ != before[b].0@);
                    }
                }
                assert forall|k: Seq<char>| has_name(after, k) == (has_name(before, k) || k
                    == name@) by {
                    if has_name(before, k) {
                        let x = name_index(before, k);
                        assert(after[x].0@ == k);
                    }
                    if k == name@ {
                        assert(after[i as int].0@ == k);
                    }
                    if has_name(after, k) {
                        let x = name_index(after, k);
                        assert(before[x].0@ == k);
                    }
                }
                assert forall|k: Seq<char>| has_name(after, k) implies #[trigger] names_view(
                    after,
                )[k] == names_view(before).insert(name@, g as int)[k] by {
                    let x = name_index(after, k);
                    if k == name@ {
                        assert(x == i) by {
                            if x != i {
                                assert(after[x].0@ != after[i as int].0@);
                            }
                        }
                    } else {
                        assert(has_name(before, k)) by {
                            assert(before[x].0@ == k);
                        }
                        let y = name_index(before, k);
                        assert(x == y) by {
                            if x != y {
                                assert(before[x].0@ != before[y].0@);
                            }
                        }
                    }
                }
                assert(names_view(after) =~= names_view(before).insert(name@, g as int));
            }
            return ;
        }
        i += 1;
    }
    named.push((name.clone(), g));
    proof {
        let after = named@;
        let last = before.len() as int;
        assert(names_distinct(after)) by {
            assert forall|a: int, b: int|
                0 <= a < after.len() && 0 <= b < after.len() && a != b implies (
            #[trigger] after[a]).0@ != (#[trigger] after[b]).0@ by {
                if a < last && b < last {
                    assert(before[a].0@ != before[b].0@);
                } else if a < last {
                    assert(before[a].0@ != name@);
                } else {
                    assert(before[b].0@ != name@);
                }
            }
        }
        assert forall|k: Seq<char>| has_name(after, k) == (has_name(before, k) || k == name@) by {
            if has_name(before, k) {
                let x = name_index(before, k);
                assert(after[x].0@ == k);
            }
            if k == name@ {
                assert(after[last].0@ == k);
            }
            if has_name(after, k) {
                let x = name_index(after, k);
                if x < last {
                    assert(before[x].0@ == k);
                }
            }
        }
        assert forall|k: Seq<char>| has_name(after, k) implies #[trigger] names_view(after)[k]
            == names_view(before).insert(name@, g as int)[k] by {
            let x = name_index(after, k);
            if k == name@ {
                assert(x == last) by {
                    if x != last {
                        assert(before[x].0@ != name@);
                    }
                }
            } else {
                assert(x < last);
                assert(has_name(before, k)) by {
                    assert(before[x].0@ == k);
                }
                let y = name_index(before, k);
                assert(x == y) by {
                    if x != y {
                        assert(before[x].0@ != before[y].0@);
                    }
                }
            }
        }
        assert(names_view(after) =~= names_view(before).insert(name@, g as int));
    }
}

/// The number of `false` entries.
pub open spec fn count_false(s: Seq<bool>) -> nat
    decreases s.len(),
{
    if s.len() == 0 {
        0
    } else {
        count_false(s.drop_last()) + if s.last() {
            0nat
        } else {
            1nat
        }
    }
}

/// Setting one `false` entry to `true` leaves one `false` entry less.
pub proof fn lemma_count_false_set(s: Seq<bool>, i: int)
    requires
        0 <= i < s.len(),
        !s[i],
    ensures
        count_false(s.update(i, true)) + 1 == count_false(s),
    decreases s.len(),
{
    let t = s.update(i, true);
    if i == s.len() - 1 {
        assert(t.drop_last() =~= s.drop_last());
    } else {
        assert(t.drop_last() =~= s.drop_last().update(i, true));
        lemma_count_false_set(s.drop_last(), i);
    }
}

/// A list of `n` times `false` has `n` `false` entries.
pub proof fn lemma_count_false_fresh(s: Seq<bool>)
    requires
        forall|i: int| 0 <= i < s.len() ==> !s[i],
    ensures
        count_false(s) == s.len(),
    decreases s.len(),
{
    if s.len() > 0 {
        lemma_count_false_fresh(s.drop_last());
    }
}

} // verus!

verus! {

/// The threads as mathematical configurations at input position `sp`.
pub open spec fn configs(threads: Seq<Thread>, sp: int) -> Seq<Config> {
    Seq::new(threads.len(), |i: int| threads[i].cfg(sp))
}

/// A thread rests at an instruction that consumes input or accepts.
pub open spec fn parked<T>(op: Op<T>) -> bool {
    op is Check || op is Match
}

/// One of the threads stands at `pc`.
pub open spec fn has_thread(threads: Seq<Thread>, pc: int) -> bool {
    exists|i: int| 0 <= i < threads.len() && (#[trigger] threads[i]).pc == pc
}

/// A thread of a pool: it rests at an instruction that was visited, and
/// has the program's number of save slots.
pub open spec fn thread_ok<T>(t: Thread, ops: Seq<Op<T>>, seen: Seq<bool>) -> bool {
    &&& t.pc < ops.len()
    &&& seen[t.pc as int]
    &&& parked(ops[t.pc as int])
    &&& t.wf(slot_count(ops))
}

/// From every visited instruction, every instruction that can be reached
/// without consuming input is visited too, or waits on the `stack`.
pub open spec fn closed<T>(
    ops: Seq<Op<T>>,
    sp: int,
    at_end: bool,
    seen: Seq<bool>,
    stack: Seq<Thread>,
) -> bool {
    forall|pc: int, next: int|
        0 <= pc < ops.len() && seen[pc] && #[trigger] eps_succ(ops, sp, at_end, pc, next) ==> (0
            <= next < ops.len() && seen[next]) || has_thread(stack, next)
}

/// The threads of one input position, in order of priority, with at most
/// one thread for each instruction.
pub struct ThreadPool {
    /// Which instructions were visited at this position.
    pub seen_pc: Vec<bool>,
    /// The threads that rest at this position, first come first.
    pub threads: Vec<Thread>,
}

impl ThreadPool {
    /// The pool is consistent for the program `ops` at input position `sp`:
    /// no two threads stand at the same instruction, so there are never more
    /// threads than instructions; every visited resting place has its
    /// thread; and what was visited is closed under going on without input.
    pub open spec fn wf<T>(&self, ops: Seq<Op<T>>, sp: int, at_end: bool) -> bool {
        &&& self.seen_pc@.len() == ops.len()
        &&& self.threads@.len() + count_false(self.seen_pc@) <= ops.len()
        &&& forall|i: int|
            0 <= i < self.threads@.len() ==> thread_ok(
                #[trigger] self.threads@[i],
                ops,
                self.seen_pc@,
            )
        &&& forall|i: int, j: int|
            0 <= i < self.threads@.len() && 0 <= j < self.threads@.len() && i != j ==> (
            #[trigger] self.threads@[i]).pc != (#[trigger] self.threads@[j]).pc
        &&& forall|pc: int|
            0 <= pc < ops.len() && #[trigger] self.seen_pc@[pc] && parked(ops[pc]) ==> has_thread(
                self.threads@,
                pc,
            )
        &&& closed(ops, sp, at_end, self.seen_pc@, Seq::empty())
    }

    /// An empty pool for a program of `size` instructions.
    pub fn new(size: usize) -> (pool: Self)
        ensures
            pool.seen_pc@.len() == size,
            pool.threads@.len() == 0,
            forall|pc: int| 0 <= pc < size ==> !pool.seen_pc@[pc],
    {
        let mut seen_pc: Vec<bool> = Vec::new();
        let mut i: usize = 0;
        while i < size
            invariant
                i <= size,
                seen_pc@.len() == i,
                forall|pc: int| 0 <= pc < i ==> !seen_pc@[pc],
            decreases size - i,
        {
            seen_pc.push(false);
            i += 1;
        }
        ThreadPool { seen_pc, threads: Vec::new() }
    }

    /// Adds the thread `th` at input position `sp`, and with it every thread
    /// that it becomes without consuming input: jumps, splits, saves and
    /// anchors are followed until each thread rests at a `Check` or at
    /// `Match`. A thread that arrives at an instruction that was already
    /// visited at this position is dropped. Of the two ways of a split the
    /// first is followed to its end before the second is tried.
    pub fn add_thread<I>(&mut self, insts: &[Inst<I>], th: Thread, sp: usize, end_of_input: bool)
        requires
            program_ok(ops_of(insts@)),
            old(self).wf(ops_of(insts@), sp as int, end_of_input),
            th.pc < insts@.len(),
            th.wf(slot_count(ops_of(insts@))),
        ensures
            final(self).wf(ops_of(insts@), sp as int, end_of_input),
            final(self).seen_pc@[th.pc as int],
            forall|pc: int|
                0 <= pc < insts@.len() && old(self).seen_pc@[pc] ==> final(self).seen_pc@[pc],
            old(self).threads@.len() <= final(self).threads@.len(),
            forall|i: int|
                0 <= i < old(self).threads@.len() ==> final(self).threads@[i] == old(
                    self,
                ).threads@[i],
            forall|i: int|
                old(self).threads@.len() <= i < final(self).threads@.len() ==> eps_reach(
                    ops_of(insts@),
                    end_of_input,
                    th.cfg(sp as int),
                    (#[trigger] final(self).threads@[i]).cfg(sp as int),
                ),
            configs(final(self).threads@, sp as int) == configs(old(self).threads@, sp as int)
                + expand(ops_of(insts@), end_of_input, th.cfg(sp as int), old(self).seen_pc@).0,
            final(self).seen_pc@ == expand(
                ops_of(insts@),
                end_of_input,
                th.cfg(sp as int),
                old(self).seen_pc@,
            ).1,
    {
        let ghost ops = ops_of(insts@);
        let ghost n_slots = slot_count(ops);
        let ghost origin = th.cfg(sp as int);
        let ghost first_pc = th.pc as int;
        let ghost old_threads = self.threads@;
        let ghost old_seen = self.seen_pc@;
        let ghost goal = expand(ops, end_of_input, origin, old_seen);
        let mut stack: Vec<Thread> = Vec::new();
        stack.push(th);
        proof {
            let cs = configs(stack@, sp as int);
            assert(cs.last() == origin);
            assert(cs.drop_last() =~= Seq::<Config>::empty());
            assert(goal.0 + Seq::<Config>::empty() =~= goal.0);
            assert(drain(ops, end_of_input, Seq::<Config>::empty(), goal.1) == (
                Seq::<Config>::empty(),
                goal.1,
            ));
            assert(drain(ops, end_of_input, cs, old_seen) == goal);
            assert(eps_run(ops, end_of_input, 0, origin, origin));
            assert(stack@[0].pc == first_pc);
            assert forall|pc: int, next: int|
                0 <= pc < ops.len() && self.seen_pc@[pc] && #[trigger] eps_succ(
                    ops,
                    sp as int,
                    end_of_input,
                    pc,
                    next,
                ) implies (0 <= next < ops.len() && self.seen_pc@[next]) || has_thread(
                stack@,
                next,
            ) by {
                assert(!has_thread(Seq::<Thread>::empty(), next));
            }
        }
        while stack.len() > 0
            invariant
                ops == ops_of(insts@),
                program_ok(ops),
                n_slots == slot_count(ops),
                self.seen_pc@.len() == ops.len(),
                self.threads@.len() + count_false(self.seen_pc@) <= ops.len(),
                forall|i: int|
                    0 <= i < self.threads@.len() ==> thread_ok(
                        #[trigger] self.threads@[i],
                        ops,
                        self.seen_pc@,
                    ),
                forall|i: int, j: int|
                    0 <= i < self.threads@.len() && 0 <= j < self.threads@.len() && i != j ==> (
                    #[trigger] self.threads@[i]).pc != (#[trigger] self.threads@[j]).pc,
                forall|pc: int|
                    0 <= pc < ops.len() && #[trigger] self.seen_pc@[pc] && parked(ops[pc])
                        ==> has_thread(self.threads@, pc),
                closed(ops, sp as int, end_of_input, self.seen_pc@, stack@),
                forall|i: int|
                    0 <= i < stack@.len() ==> {
                        &&& (#[trigger] stack@[i]).pc < ops.len()
                        &&& stack@[i].wf(n_slots)
                        &&& eps_reach(ops, end_of_input, origin, stack@[i].cfg(sp as int))
                    },
                old_threads.len() <= self.threads@.len(),
                forall|i: int| 0 <= i < old_threads.len() ==> self.threads@[i] == old_threads[i],
                forall|i: int|
                    old_threads.len() <= i < self.threads@.len() ==> eps_reach(
                        ops,
                        end_of_input,
                        origin,
                        (#[trigger] self.threads@[i]).cfg(sp as int),
                    ),
                forall|pc: int| 0 <= pc < ops.len() && old_seen[pc] ==> self.seen_pc@[pc],
                0 <= first_pc < ops.len(),
                self.seen_pc@[first_pc] || has_thread(stack@, first_pc),
                goal == expand(ops, end_of_input, origin, old_seen),
                configs(self.threads@, sp as int) + drain(
                    ops,
                    end_of_input,
                    configs(stack@, sp as int),
                    self.seen_pc@,
                ).0 == configs(old_threads, sp as int) + goal.0,
                drain(ops, end_of_input, configs(stack@, sp as int), self.seen_pc@).1 == goal.1,
            decreases count_false(self.seen_pc@), stack@.len(),
        {
            let ghost stack0 = stack@;
            let ghost seen0 = self.seen_pc@;
            let ghost cs0 = configs(stack0, sp as int);
            let ghost shown0 = configs(self.threads@, sp as int);
            let mut th = stack.pop().unwrap();
            let pc = th.pc;
            let ghost cur = th.cfg(sp as int);
            let ghost rest = configs(stack@, sp as int);
            let ghost marked = seen0.update(pc as int, true);
            assert(stack@ == stack0.drop_last());
            assert(th == stack0[stack0.len() - 1]);
            assert(cs0.last() == cur);
            assert(cs0.drop_last() =~= rest);
            if self.seen_pc[pc] {
                proof {
                    lemma_drain_drop(ops, end_of_input, cs0, seen0);
                    lemma_closed_drop(ops, sp as int, end_of_input, seen0, stack0);
                    if !self.seen_pc@[first_pc] {
                        let i = choose|i: int|
                            0 <= i < stack0.len() && (#[trigger] stack0[i]).pc == first_pc;
                        assert(stack@[i].pc == first_pc);
                    }
                }
            } else {
                proof {
                    lemma_count_false_set(seen0, pc as int);
                    lemma_group_bound(ops, ops.len() as int, pc as int);
                    assert(ops[pc as int] == insts@[pc as int]@);
                }
                self.seen_pc[pc] = true;
                assert(self.seen_pc@ == seen0.update(pc as int, true));
                match &insts[pc] {
                    Inst::Begin => {
                        if sp == 0 {
                            proof {
                                lemma_drain_on(ops, end_of_input, cs0, seen0, stepped(ops, cur));
                            }
                            th.pc = pc + 1;
                            if !self.seen_pc[th.pc] {
                                proof {
                                    lemma_eps_reach_step(
                                        ops,
                                        end_of_input,
                                        origin,
                                        cur,
                                        th.cfg(sp as int),
                                    );
                                }
                                stack.push(th);
                                assert(stack@[stack@.len() - 1].pc == pc + 1);
                            }
                            assert(configs(stack@, sp as int) =~= pushed(
                                rest,
                                stepped(ops, cur),
                                marked,
                            ));
                        } else {
                            proof {
                                lemma_drain_stop(ops, end_of_input, cs0, seen0);
                            }
                        }
                    },
                    Inst::End => {
                        if end_of_input {
                            proof {
                                lemma_drain_on(ops, end_of_input, cs0, seen0, stepped(ops, cur));
                            }
                            th.pc = pc + 1;
                            if !self.seen_pc[th.pc] {
                                proof {
                                    lemma_eps_reach_step(
                                        ops,
                                        end_of_input,
                                        origin,
                                        cur,
                                        th.cfg(sp as int),
                                    );
                                }
                                stack.push(th);
                                assert(stack@[stack@.len() - 1].pc == pc + 1);
                            }
                            assert(configs(stack@, sp as int) =~= pushed(
                                rest,
                                stepped(ops, cur),
                                marked,
                            ));
                        } else {
                            proof {
                                lemma_drain_stop(ops, end_of_input, cs0, seen0);
                            }
                        }
                    },
                    Inst::Jmp(x) => {
                        proof {
                            lemma_drain_on(ops, end_of_input, cs0, seen0, moved(ops, cur, *x as int));
                        }
                        th.pc = *x;
                        if !self.seen_pc[th.pc] {
                            proof {
                                lemma_eps_reach_step(
                                    ops,
                                    end_of_input,
                                    origin,
                                    cur,
                                    th.cfg(sp as int),
                                );
                            }
                            stack.push(th);
                            assert(stack@[stack@.len() - 1].pc == *x);
                        }
                        assert(configs(stack@, sp as int) =~= pushed(
                            rest,
                            moved(ops, cur, *x as int),
                            marked,
                        ));
                    },
                    Inst::Split(x, y) => {
                        proof {
                            lemma_drain_split(ops, end_of_input, cs0, seen0, *x as int, *y as int);
                        }
                        if !self.seen_pc[*y] {
                            let second = Thread {
                                pc: *y,
                                saved: copy_slots(&th.saved),
                                named_capture_index: copy_names(&th.named_capture_index),
                            };
                            proof {
                                lemma_eps_reach_step(
                                    ops,
                                    end_of_input,
                                    origin,
                                    cur,
                                    second.cfg(sp as int),
                                );
                            }
                            stack.push(second);
                            assert(stack@[stack@.len() - 1].pc == *y);
                        }
                        if !self.seen_pc[*x] {
                            th.pc = *x;
                            proof {
                                lemma_eps_reach_step(
                                    ops,
                                    end_of_input,
                                    origin,
                                    cur,
                                    th.cfg(sp as int),
                                );
                            }
                            stack.push(th);
                            assert(stack@[stack@.len() - 1].pc == *x);
                            assert(!self.seen_pc@[*y as int] ==> stack@[stack@.len() - 2].pc == *y);
                        }
                        assert(configs(stack@, sp as int) =~= pushed(
                            pushed(rest, moved(ops, cur, *y as int), marked),
                            moved(ops, cur, *x as int),
                            marked,
                        ));
                    },
                    Inst::SaveOpen(g) => {
                        proof {
                            lemma_drain_on(ops, end_of_input, cs0, seen0, stepped(ops, cur));
                        }
                        th.pc = pc + 1;
                        if !self.seen_pc[th.pc] {
                            th.saved[2 * *g] = Some(sp);
                            proof {
                                assert(th.caps() =~= saved_after(ops[pc as int], cur.caps, sp as int));
                                lemma_eps_reach_step(
                                    ops,
                                    end_of_input,
                                    origin,
                                    cur,
                                    th.cfg(sp as int),
                                );
                            }
                            stack.push(th);
                            assert(stack@[stack@.len() - 1].pc == pc + 1);
                        }
                        assert(configs(stack@, sp as int) =~= pushed(
                            rest,
                            stepped(ops, cur),
                            marked,
                        ));
                    },
                    Inst::SaveClose(g) => {
                        proof {
                            lemma_drain_on(ops, end_of_input, cs0, seen0, stepped(ops, cur));
                        }
                        th.pc = pc + 1;
                        if !self.seen_pc[th.pc] {
                            th.saved[2 * *g + 1] = Some(sp);
                            proof {
                                assert(th.caps() =~= saved_after(ops[pc as int], cur.caps, sp as int));
                                lemma_eps_reach_step(
                                    ops,
                                    end_of_input,
                                    origin,
                                    cur,
                                    th.cfg(sp as int),
                                );
                            }
                            stack.push(th);
                            assert(stack@[stack@.len() - 1].pc == pc + 1);
                        }
                        assert(configs(stack@, sp as int) =~= pushed(
                            rest,
                            stepped(ops, cur),
                            marked,
                        ));
                    },
                    Inst::SaveNamedOpen(name, g) => {
                        proof {
                            lemma_drain_on(ops, end_of_input, cs0, seen0, stepped(ops, cur));
                        }
                        th.pc = pc + 1;
                        if !self.seen_pc[th.pc] {
                            th.saved[2 * *g] = Some(sp);
                            bind_name(&mut th.named_capture_index, name, *g);
                            proof {
                                assert(th.caps() =~= saved_after(ops[pc as int], cur.caps, sp as int));
                                lemma_eps_reach_step(
                                    ops,
                                    end_of_input,
                                    origin,
                                    cur,
                                    th.cfg(sp as int),
                                );
                            }
                            stack.push(th);
                            assert(stack@[stack@.len() - 1].pc == pc + 1);
                        }
                        assert(configs(stack@, sp as int) =~= pushed(
                            rest,
                            stepped(ops, cur),
                            marked,
                        ));
                    },
                    Inst::SaveNamedClose(name, g) => {
                        proof {
                            lemma_drain_on(ops, end_of_input, cs0, seen0, stepped(ops, cur));
                        }
                        th.pc = pc + 1;
                        if !self.seen_pc[th.pc] {
                            th.saved[2 * *g + 1] = Some(sp);
                            bind_name(&mut th.named_capture_index, name, *g);
                            proof {
                                assert(th.caps() =~= saved_after(ops[pc as int], cur.caps, sp as int));
                                lemma_eps_reach_step(
                                    ops,
                                    end_of_input,
                                    origin,
                                    cur,
                                    th.cfg(sp as int),
                                );
                            }
                            stack.push(th);
                            assert(stack@[stack@.len() - 1].pc == pc + 1);
                        }
                        assert(configs(stack@, sp as int) =~= pushed(
                            rest,
                            stepped(ops, cur),
                            marked,
                        ));
                    },
                    _ => {
                        let ghost threads0 = self.threads@;
                        self.threads.push(th);
                        proof {
                            let threads1 = self.threads@;
                            let last = threads0.len() as int;
                            lemma_drain_park(ops, end_of_input, cs0, seen0);
                            let after = drain(ops, end_of_input, rest, marked);
                            assert(configs(threads1, sp as int) =~= shown0.push(cur));
                            assert(shown0.push(cur) + after.0 =~= shown0 + (seq![cur] + after.0));
                            assert(threads1[last].pc == pc);
                            assert forall|p: int|
                                0 <= p < ops.len() && #[trigger] self.seen_pc@[p] && parked(
                                    ops[p],
                                ) implies has_thread(threads1, p) by {
                                if p == pc {
                                    assert(threads1[last].pc == p);
                                } else {
                                    assert(seen0[p]);
                                    let i = choose|i: int|
                                        0 <= i < threads0.len() && (#[trigger] threads0[i]).pc
                                            == p;
                                    assert(threads1[i].pc == p);
                                }
                            }
                            assert forall|i: int, j: int|
                                0 <= i < threads1.len() && 0 <= j < threads1.len() && i
                                    != j implies (#[trigger] threads1[i]).pc != (
                            #[trigger] threads1[j]).pc by {
                                if i < last {
                                    assert(thread_ok(threads0[i], ops, seen0));
                                }
                                if j < last {
                                    assert(thread_ok(threads0[j], ops, seen0));
                                }
                            }
                        }
                    },
                }
                proof {
                    assert forall|i: int| 0 <= i < stack0.len() - 1 implies (
                    #[trigger] stack@[i]).pc == stack0[i].pc by {
                        assert(stack@[i] == stack0.drop_last()[i]);
                    }
                    lemma_closed_visit(ops, sp as int, end_of_input, seen0, stack0, stack@);
                    assert forall|i: int| 0 <= i < self.threads@.len() implies thread_ok(
                        #[trigger] self.threads@[i],
                        ops,
                        self.seen_pc@,
                    ) by {
                        if i < old(self).threads@.len() || parked(ops[pc as int]) == false || i
                            < self.threads@.len() - 1 {
                            assert(thread_ok(self.threads@[i], ops, seen0) || self.threads@[i].pc
                                == pc);
                        }
                    }
                    if !self.seen_pc@[first_pc] {
                        let i = choose|i: int|
                            0 <= i < stack0.len() && (#[trigger] stack0[i]).pc == first_pc;
                        assert(stack@[i].pc == first_pc);
                    }
                }
            }
        }
        proof {
            let shown = configs(self.threads@, sp as int);
            assert(configs(stack@, sp as int) =~= Seq::<Config>::empty());
            assert(drain(ops, end_of_input, Seq::<Config>::empty(), self.seen_pc@) == (
                Seq::<Config>::empty(),
                self.seen_pc@,
            ));
            assert(shown + Seq::<Config>::empty() =~= shown);
            assert(!has_thread(stack@, first_pc));
            assert forall|pc: int, next: int|
                0 <= pc < ops.len() && self.seen_pc@[pc] && #[trigger] eps_succ(
                    ops,
                    sp as int,
                    end_of_input,
                    pc,
                    next,
                ) implies (0 <= next < ops.len() && self.seen_pc@[next]) || has_thread(
                Seq::<Thread>::empty(),
                next,
            ) by {
                assert(!has_thread(stack@, next));
            }
        }
    }
}

/// A fresh pool is consistent for every program of its size.
pub proof fn lemma_fresh_pool_wf<T>(pool: ThreadPool, ops: Seq<Op<T>>, sp: int, at_end: bool)
    requires
        pool.seen_pc@.len() == ops.len(),
        pool.threads@.len() == 0,
        forall|pc: int| 0 <= pc < ops.len() ==> !pool.seen_pc@[pc],
    ensures
        pool.wf(ops, sp, at_end),
{
    lemma_count_false_fresh(pool.seen_pc@);
}

/// When the thread on top of the stack stands at a visited instruction, it
/// can be dropped.
proof fn lemma_closed_drop<T>(
    ops: Seq<Op<T>>,
    sp: int,
    at_end: bool,
    seen: Seq<bool>,
    stack: Seq<Thread>,
)
    requires
        stack.len() > 0,
        0 <= stack.last().pc < ops.len(),
        seen[stack.last().pc as int],
        closed(ops, sp, at_end, seen, stack),
    ensures
        closed(ops, sp, at_end, seen, stack.drop_last()),
{
    let rest = stack.drop_last();
    assert forall|pc: int, next: int|
        0 <= pc < ops.len() && seen[pc] && #[trigger] eps_succ(
            ops,
            sp,
            at_end,
            pc,
            next,
        ) implies (0 <= next < ops.len() && seen[next]) || has_thread(rest, next) by {
        if !(0 <= next < ops.len() && seen[next]) {
            let i = choose|i: int| 0 <= i < stack.len() && (#[trigger] stack[i]).pc == next;
            assert(i < stack.len() - 1);
            assert(rest[i].pc == next);
        }
    }
}

/// When the thread on top of the stack is taken off, its instruction is
/// marked as visited, and every instruction that follows it without input
/// is visited or put on the stack, the invariant of the search holds again.
proof fn lemma_closed_visit<T>(
    ops: Seq<Op<T>>,
    sp: int,
    at_end: bool,
    seen: Seq<bool>,
    stack: Seq<Thread>,
    new_stack: Seq<Thread>,
)
    requires
        stack.len() > 0,
        seen.len() == ops.len(),
        0 <= stack.last().pc < ops.len(),
        closed(ops, sp, at_end, seen, stack),
        new_stack.len() >= stack.len() - 1,
        forall|i: int| 0 <= i < stack.len() - 1 ==> (#[trigger] new_stack[i]).pc == stack[i].pc,
        forall|next: int| #[trigger]
            eps_succ(ops, sp, at_end, stack.last().pc as int, next) ==> (0 <= next < ops.len()
                && seen.update(stack.last().pc as int, true)[next]) || has_thread(
                new_stack,
                next,
            ),
    ensures
        closed(ops, sp, at_end, seen.update(stack.last().pc as int, true), new_stack),
{
    let top = stack.last().pc as int;
    let marked = seen.update(top, true);
    assert forall|pc: int, next: int|
        0 <= pc < ops.len() && marked[pc] && #[trigger] eps_succ(
            ops,
            sp,
            at_end,
            pc,
            next,
        ) implies (0 <= next < ops.len() && marked[next]) || has_thread(new_stack, next) by {
        if pc != top {
            assert(seen[pc]);
            if !(0 <= next < ops.len() && seen[next]) {
                let i = choose|i: int| 0 <= i < stack.len() && (#[trigger] stack[i]).pc == next;
                if i < stack.len() - 1 {
                    assert(new_stack[i].pc == next);
                }
            }
        }
    }
}

} // verus!

verus! {

/// The instruction at `pc` is a `Check` that the element at `sp` passes.
pub open spec fn passes<T>(ops: Seq<Op<T>>, xs: Seq<T>, sp: int, pc: int) -> bool {
    &&& 0 <= pc < ops.len()
    &&& 0 <= sp < xs.len()
    &&& ops[pc] matches Op::Check(f) && f(xs[sp])
}

/// A thread never leaves the input.
pub proof fn lemma_run_in_bounds<T>(ops: Seq<Op<T>>, xs: Seq<T>, k: nat, a: Config, c: Config)
    requires
        run(ops, xs, k, a, c),
        0 <= a.sp <= xs.len(),
    ensures
        a.sp <= c.sp <= xs.len(),
    decreases k,
{
    if k > 0 {
        let m = choose|m: Config| #[trigger]
            step(ops, xs, a, m) && run(ops, xs, (k - 1) as nat, m, c);
        lemma_run_in_bounds(ops, xs, (k - 1) as nat, m, c);
    }
}

/// The number of save slots that a thread of the program needs.
fn count_slots<I>(insts: &[Inst<I>]) -> (n: usize)
    requires
        program_ok(ops_of(insts@)),
    ensures
        n == slot_count(ops_of(insts@)),
        n >= 2,
{
    let ghost ops = ops_of(insts@);
    let mut bound: usize = 1;
    let mut i: usize = 0;
    while i < insts.len()
        invariant
            ops == ops_of(insts@),
            program_ok(ops),
            i <= insts@.len(),
            bound == group_bound(ops, i as int),
            1 <= bound,
            2 * bound <= usize::MAX,
        decreases insts@.len() - i,
    {
        assert(ops[i as int] == insts@[i as int]@);
        let g = match &insts[i] {
            Inst::SaveOpen(g) => Some(*g),
            Inst::SaveClose(g) => Some(*g),
            Inst::SaveNamedOpen(_, g) => Some(*g),
            Inst::SaveNamedClose(_, g) => Some(*g),
            _ => None,
        };
        match g {
            Some(g) => {
                if g + 1 > bound {
                    bound = g + 1;
                }
            },
            None => {},
        }
        i += 1;
    }
    2 * bound
}

/// The thread that starts matching at input position `sp`.
fn start_thread(n_slots: usize, sp: usize) -> (th: Thread)
    requires
        n_slots >= 2,
    ensures
        th.pc == 0,
        th.wf(n_slots as int),
        th.caps() == Caps::blank(n_slots as int).mark_open(0, sp as int),
{
    let mut saved: Vec<Option<usize>> = Vec::new();
    let mut i: usize = 0;
    while i < n_slots
        invariant
            i <= n_slots,
            saved@.len() == i,
            forall|j: int| 0 <= j < i ==> saved@[j] is None,
        decreases n_slots - i,
    {
        saved.push(None);
        i += 1;
    }
    saved[0] = Some(sp);
    let th = Thread { pc: 0, saved, named_capture_index: Vec::new() };
    proof {
        assert(th.caps().slots =~= Caps::blank(n_slots as int).mark_open(0, sp as int).slots);
        assert(th.caps().names =~= Map::<Seq<char>, int>::empty()) by {
            assert forall|k: Seq<char>| !has_name(th.named_capture_index@, k) by {}
        }
    }
    th
}

/// A copy of `th` that stands at the instruction `pc`.
fn fork(th: &Thread, pc: usize) -> (res: Thread)
    ensures
        res.pc == pc,
        res.saved@ == th.saved@,
        res.named_capture_index@ == th.named_capture_index@,
{
    Thread {
        pc,
        saved: copy_slots(&th.saved),
        named_capture_index: copy_names(&th.named_capture_index),
    }
}

} // verus!

verus! {

/// The thread `t` is what the accepting thread `c`, which started at input
/// position `s`, has recorded, with the end of the whole match added.
pub open spec fn is_result<T>(
    ops: Seq<Op<T>>,
    xs: Seq<T>,
    full: bool,
    t: Thread,
    s: int,
    c: Config,
) -> bool {
    &&& accepting_from(ops, xs, full, s, c)
    &&& t.pc == c.pc
    &&& t.caps() == c.caps.mark_close(0, c.sp)
}

/// The thread that was handed back, if any, is the thread `c` of the
/// machine.
pub open spec fn shows(t: Option<Thread>, c: Option<Config>) -> bool {
    match (t, c) {
        (Some(t), Some(c)) => t.pc == c.pc && t.caps() == c.caps,
        (None, None) => true,
        _ => false,
    }
}

/// Every instruction at which a thread can stand at input position `sp`
/// that started before `limit` is marked in `seen`, and `best` holds for it
/// a start that is no later.
pub open spec fn covers<T>(
    ops: Seq<Op<T>>,
    xs: Seq<T>,
    full: bool,
    sp: int,
    seen: Seq<bool>,
    best: Seq<int>,
    limit: int,
) -> bool {
    forall|s: int, c: Config| #[trigger]
        reach_from(ops, xs, s, c) && valid_start(xs, full, s) && c.sp == sp && s < limit ==> 0
            <= c.pc < seen.len() && seen[c.pc] && best[c.pc] <= s
}

/// Going on without input from a visited instruction never leads to an
/// instruction with a later start in `best`.
pub open spec fn never_later<T>(
    ops: Seq<Op<T>>,
    sp: int,
    at_end: bool,
    seen: Seq<bool>,
    best: Seq<int>,
) -> bool {
    forall|pc: int, next: int|
        0 <= pc < ops.len() && seen[pc] && #[trigger] eps_succ(ops, sp, at_end, pc, next) ==> 0
            <= next < ops.len() && best[next] <= best[pc]
}

/// The threads of the pool are ranked by where they started: `starts` holds
/// for each thread the input position at which it started, none later than
/// `hi`, and earlier threads started no later than later ones; `best` holds
/// for each visited instruction the start of the thread that visited it,
/// and going on without input never leads to a later start.
pub open spec fn ranked<T>(
    ops: Seq<Op<T>>,
    xs: Seq<T>,
    full: bool,
    sp: int,
    pool: ThreadPool,
    starts: Seq<int>,
    best: Seq<int>,
    hi: int,
) -> bool {
    &&& starts.len() == pool.threads@.len()
    &&& best.len() == ops.len()
    &&& forall|j: int|
        0 <= j < starts.len() ==> {
            &&& valid_start(xs, full, #[trigger] starts[j])
            &&& starts[j] <= hi
            &&& reach_from(ops, xs, starts[j], pool.threads@[j].cfg(sp))
            &&& best[pool.threads@[j].pc as int] == starts[j]
        }
    &&& forall|j1: int, j2: int|
        0 <= j1 <= j2 < starts.len() ==> #[trigger] starts[j1] <= #[trigger] starts[j2]
    &&& forall|pc: int| 0 <= pc < ops.len() && #[trigger] pool.seen_pc@[pc] ==> best[pc] <= hi
    &&& never_later(ops, sp, sp == xs.len(), pool.seen_pc@, best)
}

/// The ranking of a pool after a thread that started at `s`, no earlier
/// than all threads before it, was added with all that it becomes.
proof fn lemma_ranked_add<T>(
    ops: Seq<Op<T>>,
    xs: Seq<T>,
    full: bool,
    sp: int,
    before: ThreadPool,
    after: ThreadPool,
    starts: Seq<int>,
    best: Seq<int>,
    hi: int,
    origin: Config,
    s: int,
) -> (res: (Seq<int>, Seq<int>))
    requires
        0 <= sp <= xs.len(),
        origin.sp == sp,
        before.wf(ops, sp, sp == xs.len()),
        after.wf(ops, sp, sp == xs.len()),
        ranked(ops, xs, full, sp, before, starts, best, hi),
        hi <= s,
        valid_start(xs, full, s),
        reach_from(ops, xs, s, origin),
        forall|pc: int| 0 <= pc < ops.len() && before.seen_pc@[pc] ==> after.seen_pc@[pc],
        before.threads@.len() <= after.threads@.len(),
        forall|i: int|
            0 <= i < before.threads@.len() ==> after.threads@[i] == before.threads@[i],
        forall|i: int|
            before.threads@.len() <= i < after.threads@.len() ==> eps_reach(
                ops,
                sp == xs.len(),
                origin,
                (#[trigger] after.threads@[i]).cfg(sp),
            ),
    ensures
        ranked(ops, xs, full, sp, after, res.0, res.1, s),
        forall|pc: int| 0 <= pc < ops.len() && before.seen_pc@[pc] ==> res.1[pc] == best[pc],
        forall|pc: int| 0 <= pc < ops.len() && !before.seen_pc@[pc] ==> res.1[pc] == s,
        forall|j: int| 0 <= j < starts.len() ==> res.0[j] == starts[j],
{
    let at_end = sp == xs.len();
    let n0 = before.threads@.len() as int;
    let starts2 = Seq::new(
        after.threads@.len(),
        |j: int|
            if j < n0 {
                starts[j]
            } else {
                s
            },
    );
    let best2 = Seq::new(
        ops.len(),
        |pc: int|
            if before.seen_pc@[pc] {
                best[pc]
            } else {
                s
            },
    );
    assert forall|j: int| 0 <= j < starts2.len() implies {
        &&& valid_start(xs, full, #[trigger] starts2[j])
        &&& starts2[j] <= s
        &&& reach_from(ops, xs, starts2[j], after.threads@[j].cfg(sp))
        &&& best2[after.threads@[j].pc as int] == starts2[j]
    } by {
        let t = after.threads@[j];
        assert(thread_ok(t, ops, after.seen_pc@));
        if j < n0 {
            assert(t == before.threads@[j]);
            assert(thread_ok(before.threads@[j], ops, before.seen_pc@));
            assert(valid_start(xs, full, starts[j]));
        } else {
            lemma_reach_from_eps(ops, xs, s, origin, t.cfg(sp));
            if before.seen_pc@[t.pc as int] {
                assert(has_thread(before.threads@, t.pc as int));
                let i = choose|i: int|
                    0 <= i < before.threads@.len() && (#[trigger] before.threads@[i]).pc == t.pc;
                assert(after.threads@[i] == before.threads@[i]);
                assert(after.threads@[i].pc == after.threads@[j].pc);
            }
        }
    }
    assert forall|j1: int, j2: int| 0 <= j1 <= j2 < starts2.len() implies #[trigger] starts2[j1]
        <= #[trigger] starts2[j2] by {
        if j2 < n0 {
            assert(starts[j1] <= starts[j2]);
        } else if j1 < n0 {
            assert(valid_start(xs, full, starts[j1]) && starts[j1] <= hi);
        }
    }
    assert forall|pc: int, next: int|
        0 <= pc < ops.len() && after.seen_pc@[pc] && #[trigger] eps_succ(
            ops,
            sp,
            at_end,
            pc,
            next,
        ) implies 0 <= next < ops.len() && best2[next] <= best2[pc] by {
        assert(!has_thread(Seq::<Thread>::empty(), next));
        assert(0 <= next < ops.len() && after.seen_pc@[next]);
        if before.seen_pc@[pc] {
            assert(0 <= next < ops.len() && before.seen_pc@[next]);
        } else {
            if before.seen_pc@[next] {
                assert(best[next] <= hi);
            }
        }
    }
    (starts2, best2)
}

/// A pool in which nothing was visited is ranked.
proof fn lemma_ranked_fresh<T>(
    ops: Seq<Op<T>>,
    xs: Seq<T>,
    full: bool,
    sp: int,
    pool: ThreadPool,
    hi: int,
) -> (best: Seq<int>)
    requires
        pool.seen_pc@.len() == ops.len(),
        pool.threads@.len() == 0,
        forall|pc: int| 0 <= pc < ops.len() ==> !pool.seen_pc@[pc],
    ensures
        ranked(ops, xs, full, sp, pool, Seq::empty(), best, hi),
{
    Seq::new(ops.len(), |pc: int| 0int)
}

/// If `seen` is closed at position `p` with starts that never get later,
/// holds the first instruction where a thread was started at `p`, and holds
/// what follows every passed check of a covering set for the position
/// before, each with a start that is no later, then it covers position `p`.
proof fn lemma_covered<T>(
    ops: Seq<Op<T>>,
    xs: Seq<T>,
    full: bool,
    p: int,
    prev_seen: Seq<bool>,
    prev_best: Seq<int>,
    prev_limit: int,
    seen: Seq<bool>,
    best: Seq<int>,
    limit: int,
    k: nat,
    s: int,
    c: Config,
)
    requires
        program_ok(ops),
        ops.len() > 0,
        seen.len() == ops.len(),
        best.len() == ops.len(),
        0 <= p <= xs.len(),
        closed(ops, p, p == xs.len(), seen, Seq::empty()),
        never_later(ops, p, p == xs.len(), seen, best),
        (seen[0] && best[0] <= p) || (full && p > 0) || limit <= p,
        p > 0 ==> covers(ops, xs, full, p - 1, prev_seen, prev_best, prev_limit) && limit
            <= prev_limit,
        p > 0 ==> forall|pc: int|
            0 <= pc < ops.len() && prev_seen[pc] && #[trigger] passes(ops, xs, p - 1, pc)
                && prev_best[pc] < limit ==> pc + 1 < ops.len() && seen[pc + 1] && best[pc + 1]
                <= prev_best[pc],
        valid_start(xs, full, s),
        s < limit,
        run(ops, xs, k, start_config(ops, s), c),
        c.sp == p,
    ensures
        0 <= c.pc < ops.len(),
        seen[c.pc],
        best[c.pc] <= s,
    decreases k,
{
    let start = start_config(ops, s);
    if k > 0 {
        let b = lemma_run_last(ops, xs, k, start, c);
        lemma_run_in_bounds(ops, xs, (k - 1) as nat, start, b);
        assert(reach_from(ops, xs, s, b));
        if check_step(ops, xs, b, c) {
            assert(passes(ops, xs, p - 1, b.pc));
        } else {
            lemma_covered(
                ops,
                xs,
                full,
                p,
                prev_seen,
                prev_best,
                prev_limit,
                seen,
                best,
                limit,
                (k - 1) as nat,
                s,
                b,
            );
            assert(eps_succ(ops, p, p == xs.len(), b.pc, c.pc));
            assert(!has_thread(Seq::<Thread>::empty(), c.pc));
        }
    }
}

/// The conclusion of `lemma_covered` for all threads at once.
proof fn lemma_covers<T>(
    ops: Seq<Op<T>>,
    xs: Seq<T>,
    full: bool,
    p: int,
    prev_seen: Seq<bool>,
    prev_best: Seq<int>,
    prev_limit: int,
    seen: Seq<bool>,
    best: Seq<int>,
    limit: int,
)
    requires
        program_ok(ops),
        ops.len() > 0,
        seen.len() == ops.len(),
        best.len() == ops.len(),
        0 <= p <= xs.len(),
        closed(ops, p, p == xs.len(), seen, Seq::empty()),
        never_later(ops, p, p == xs.len(), seen, best),
        (seen[0] && best[0] <= p) || (full && p > 0) || limit <= p,
        p > 0 ==> covers(ops, xs, full, p - 1, prev_seen, prev_best, prev_limit) && limit
            <= prev_limit,
        p > 0 ==> forall|pc: int|
            0 <= pc < ops.len() && prev_seen[pc] && #[trigger] passes(ops, xs, p - 1, pc)
                && prev_best[pc] < limit ==> pc + 1 < ops.len() && seen[pc + 1] && best[pc + 1]
                <= prev_best[pc],
    ensures
        covers(ops, xs, full, p, seen, best, limit),
{
    assert forall|s: int, c: Config| #[trigger]
        reach_from(ops, xs, s, c) && valid_start(xs, full, s) && c.sp == p && s
            < limit implies 0 <= c.pc < seen.len() && seen[c.pc] && best[c.pc] <= s by {
        let k = choose|k: nat| #[trigger] run(ops, xs, k, start_config(ops, s), c);
        lemma_covered(
            ops,
            xs,
            full,
            p,
            prev_seen,
            prev_best,
            prev_limit,
            seen,
            best,
            limit,
            k,
            s,
            c,
        );
    }
}

} // verus!

verus! {

/// Runs the program over the input.
///
/// With `full`, a thread starts at position 0 only and `Match` counts only
/// at the end of the input. Otherwise a new thread starts at every position
/// as long as nothing has matched, behind all threads that are already
/// running; when a thread reaches `Match`, the threads behind it are
/// dropped, and the threads before it go on and may still replace it.
///
/// Returns the thread that matched, with the end of the whole match
/// recorded in slot 1, and the number of predicate evaluations made. No
/// accepting thread starts before the one that is returned.
pub fn run_vm<I>(insts: &[Inst<I>], input: &[I], full: bool) -> (res: (Option<Thread>, Ghost<nat>))
    requires
        insts@.len() > 0,
        program_ok(ops_of(insts@)),
        preds_wf(insts@),
    ensures
        res.0 is Some <==> exists|c: Config| accepting(ops_of(insts@), input@, full, c),
        res.0 matches Some(t) ==> t.wf(slot_count(ops_of(insts@))) && exists|s: int, c: Config|
            #[trigger] is_result(ops_of(insts@), input@, full, t, s, c) && leftmost(
                ops_of(insts@),
                input@,
                full,
                s,
            ),
        shows(res.0, machine_result(ops_of(insts@), input@, full)),
        res.1@ <= insts@.len() * (input@.len() + 1),
{
    let ghost ops = ops_of(insts@);
    let ghost xs = input@;
    let ghost none_yet: int = xs.len() as int + 1;
    let ghost answer = machine_result(ops, xs, full);
    let ghost mut found: Option<Config> = None;
    let prog_size = insts.len();
    let n_slots = count_slots(insts);
    let mut clist = ThreadPool::new(prog_size);
    let first = start_thread(n_slots, 0);
    let ghost mut cstarts: Seq<int> = Seq::empty();
    let ghost mut cbest: Seq<int> = Seq::empty();
    let ghost pool0 = clist;
    proof {
        lemma_fresh_pool_wf(clist, ops, 0, xs.len() == 0);
        cbest = lemma_ranked_fresh(ops, xs, full, 0, clist, 0);
        assert(run(ops, xs, 0, start_config(ops, 0), start_config(ops, 0)));
        assert(reach_from(ops, xs, 0, first.cfg(0)));
    }
    clist.add_thread(insts, first, 0, input.len() == 0);
    proof {
        assert(pool0.seen_pc@ =~= unvisited(ops.len()));
        assert(configs(pool0.threads@, 0) =~= Seq::<Config>::empty());
        assert(first.cfg(0) == start_config(ops, 0));
        let e = expand(ops, xs.len() == 0, start_config(ops, 0), unvisited(ops.len()));
        assert(Seq::<Config>::empty() + e.0 =~= e.0);
        let (s2, b2) = lemma_ranked_add(
            ops,
            xs,
            full,
            0,
            pool0,
            clist,
            cstarts,
            cbest,
            0,
            first.cfg(0),
            0,
        );
        cstarts = s2;
        cbest = b2;
        lemma_covers(
            ops,
            xs,
            full,
            0,
            Seq::empty(),
            Seq::empty(),
            0,
            clist.seen_pc@,
            cbest,
            none_yet,
        );
        assert forall|s: int, c: Config| #[trigger]
            accepting_from(ops, xs, full, s, c) && c.sp < 0 implies none_yet <= s by {
            let k = choose|k: nat| #[trigger] run(ops, xs, k, start_config(ops, s), c);
            lemma_run_in_bounds(ops, xs, k, start_config(ops, s), c);
        }
        assert(ops.len() * 0 == 0) by (nonlinear_arith);
    }
    let mut matched: Option<Thread> = None;
    let ghost mut limit: int = none_yet;
    let ghost mut checks: nat = 0;
    let mut sp: usize = 0;
    loop
        invariant_except_break
            clist.wf(ops, sp as int, sp == xs.len()),
            ranked(ops, xs, full, sp as int, clist, cstarts, cbest, sp as int),
            covers(ops, xs, full, sp as int, clist.seen_pc@, cbest, limit),
            forall|s: int, c: Config| #[trigger]
                accepting_from(ops, xs, full, s, c) && c.sp < sp ==> limit <= s,
            matched is Some ==> forall|j: int|
                0 <= j < cstarts.len() ==> #[trigger] cstarts[j] <= limit,
            checks <= ops.len() * sp,
            machine(ops, xs, full, sp as int, configs(clist.threads@, sp as int), found) == answer,
        invariant
            ops == ops_of(insts@),
            xs == input@,
            ops.len() > 0,
            program_ok(ops),
            preds_wf(insts@),
            prog_size == ops.len(),
            n_slots == slot_count(ops),
            n_slots >= 2,
            0 <= sp <= xs.len(),
            none_yet == xs.len() + 1,
            (matched is None) == (limit == none_yet),
            matched is Some ==> limit <= sp,
            matched matches Some(t) ==> t.wf(n_slots as int) && valid_start(xs, full, limit)
                && exists|c: Config| #[trigger] is_result(ops, xs, full, t, limit, c),
            shows(matched, found),
            answer == machine_result(ops, xs, full),
        ensures
            forall|s: int, c: Config| #[trigger] accepting_from(ops, xs, full, s, c) ==> limit <= s,
            checks <= ops.len() * (xs.len() + 1),
            found == answer,
        decreases xs.len() - sp,
    {
        let end_of_input = sp == input.len();
        let mut nlist = ThreadPool::new(prog_size);
        let ghost shown = configs(clist.threads@, sp as int);
        let ghost found0 = found;
        let ghost swept = sweep(
            ops,
            xs,
            full,
            sp as int,
            shown,
            0,
            Seq::empty(),
            unvisited(ops.len()),
        );
        proof {
            assert(nlist.seen_pc@ =~= unvisited(ops.len()));
            assert(configs(nlist.threads@, sp + 1) =~= Seq::<Config>::empty());
        }
        let ghost limit0 = limit;
        let ghost checks0 = checks;
        let ghost mut nstarts: Seq<int> = Seq::empty();
        let ghost mut nbest: Seq<int> = Seq::empty();
        let ghost mut hi: int = 0;
        proof {
            lemma_fresh_pool_wf(nlist, ops, sp + 1, sp + 1 == xs.len());
            nbest = lemma_ranked_fresh(ops, xs, full, sp + 1, nlist, 0);
        }
        let mut i: usize = 0;
        let mut cut = false;
        while i < clist.threads.len() && !cut
            invariant
                ops == ops_of(insts@),
                xs == input@,
                ops.len() > 0,
                program_ok(ops),
                preds_wf(insts@),
                n_slots == slot_count(ops),
                n_slots >= 2,
                0 <= sp <= xs.len(),
                none_yet == xs.len() + 1,
                end_of_input == (sp == xs.len()),
                clist.wf(ops, sp as int, sp == xs.len()),
                ranked(ops, xs, full, sp as int, clist, cstarts, cbest, sp as int),
                limit0 != none_yet ==> forall|j: int|
                    0 <= j < cstarts.len() ==> #[trigger] cstarts[j] <= limit0,
                i <= clist.threads@.len(),
                nlist.wf(ops, sp + 1, sp + 1 == xs.len()),
                ranked(ops, xs, full, sp + 1, nlist, nstarts, nbest, hi),
                0 <= hi <= sp,
                forall|j: int| i <= j < cstarts.len() ==> hi <= #[trigger] cstarts[j],
                forall|j: int|
                    0 <= j < i && passes(ops, xs, sp as int, (#[trigger] clist.threads@[j]).pc as int)
                        ==> nlist.seen_pc@[clist.threads@[j].pc + 1] && nbest[clist.threads@[j].pc
                        + 1] <= cstarts[j],
                cut ==> matched is Some && i >= 1 && limit == cstarts[i - 1],
                !cut ==> limit == limit0,
                forall|j: int|
                    0 <= j < (if cut {
                        i - 1
                    } else {
                        i as int
                    }) ==> !(ops[(#[trigger] clist.threads@[j]).pc as int] is Match && (!full
                        || end_of_input)),
                limit <= limit0,
                (matched is None) == (limit == none_yet),
                matched is Some ==> limit <= sp,
                matched matches Some(t) ==> t.wf(n_slots as int) && valid_start(xs, full, limit)
                    && exists|c: Config| #[trigger] is_result(ops, xs, full, t, limit, c),
                matched is Some ==> hi <= limit,
                checks <= checks0 + i,
                shown == configs(clist.threads@, sp as int),
                shows(matched, found),
                !cut ==> found == found0 && sweep(
                    ops,
                    xs,
                    full,
                    sp as int,
                    shown,
                    i as int,
                    configs(nlist.threads@, sp + 1),
                    nlist.seen_pc@,
                ) == swept,
                cut ==> found is Some && swept == (
                    configs(nlist.threads@, sp + 1),
                    nlist.seen_pc@,
                    found,
                ),
            decreases clist.threads@.len() - i,
        {
            let th = &clist.threads[i];
            let pc = th.pc;
            let ghost cur = th.cfg(sp as int);
            let ghost from = cstarts[i as int];
            let ghost nshown = configs(nlist.threads@, sp + 1);
            assert(shown[i as int] == cur);
            proof {
                assert(thread_ok(clist.threads@[i as int], ops, clist.seen_pc@));
                assert(ops[pc as int] == insts@[pc as int]@);
                assert(valid_start(xs, full, cstarts[i as int]));
                assert(reach_from(ops, xs, from, cur));
            }
            match &insts[pc] {
                Inst::Check(p) => {
                    if !end_of_input {
                        proof {
                            checks = checks + 1;
                        }
                        if p.test(&input[sp]) {
                            let next = fork(th, pc + 1);
                            let ghost before = nlist;
                            proof {
                                assert(next.cfg(sp + 1) == (Config {
                                    pc: cur.pc + 1,
                                    sp: sp + 1,
                                    caps: cur.caps,
                                }));
                                assert(check_step(ops, xs, cur, next.cfg(sp + 1)));
                                lemma_reach_from_step(ops, xs, from, cur, next.cfg(sp + 1));
                            }
                            nlist.add_thread(insts, next, sp + 1, sp + 1 == input.len());
                            proof {
                                let (s2, b2) = lemma_ranked_add(
                                    ops,
                                    xs,
                                    full,
                                    sp + 1,
                                    before,
                                    nlist,
                                    nstarts,
                                    nbest,
                                    hi,
                                    next.cfg(sp + 1),
                                    from,
                                );
                                assert forall|j: int|
                                    0 <= j < i + 1 && passes(
                                        ops,
                                        xs,
                                        sp as int,
                                        (#[trigger] clist.threads@[j]).pc as int,
                                    ) implies nlist.seen_pc@[clist.threads@[j].pc + 1]
                                    && b2[clist.threads@[j].pc + 1] <= cstarts[j] by {
                                    let q = clist.threads@[j].pc + 1;
                                    if j < i {
                                        assert(before.seen_pc@[q]);
                                        assert(b2[q] == nbest[q]);
                                    } else {
                                        if before.seen_pc@[q] {
                                            assert(b2[q] == nbest[q]);
                                            assert(nbest[q] <= hi);
                                        }
                                    }
                                }
                                nstarts = s2;
                                nbest = b2;
                                hi = from;
                                assert forall|j: int| i + 1 <= j < cstarts.len() implies hi
                                    <= #[trigger] cstarts[j] by {
                                    assert(cstarts[i as int] <= cstarts[j]);
                                }
                            }
                        }
                    }
                },
                Inst::Match => {
                    if !full || end_of_input {
                        let mut winner = fork(th, pc);
                        winner.saved[1] = Some(sp);
                        proof {
                            assert(accepting_from(ops, xs, full, from, cur));
                            assert(winner.caps() =~= cur.caps.mark_close(0, sp as int));
                            assert(is_result(ops, xs, full, winner, from, cur));
                            limit = from;
                            found = Some(
                                Config {
                                    pc: cur.pc,
                                    sp: sp as int,
                                    caps: cur.caps.mark_close(0, sp as int),
                                },
                            );
                        }
                        matched = Some(winner);
                        cut = true;
                        assert(matched->0.wf(n_slots as int));
                        assert(valid_start(xs, full, limit));
                        assert(is_result(ops, xs, full, matched->0, limit, cur));
                    }
                },
                _ => {},
            }
            i += 1;
        }
        proof {
            assert(clist.threads@.len() <= ops.len());
            assert(ops.len() * (sp + 1) == ops.len() * sp + ops.len()) by (nonlinear_arith);
            assert forall|s: int, c: Config| #[trigger]
                accepting_from(ops, xs, full, s, c) && c.sp < sp + 1 implies limit <= s by {
                if c.sp == sp && s < limit {
                    assert(reach_from(ops, xs, s, c));
                    assert(clist.seen_pc@[c.pc] && cbest[c.pc] <= s);
                    assert(parked(ops[c.pc]));
                    let j = choose|j: int|
                        0 <= j < clist.threads@.len() && (#[trigger] clist.threads@[j]).pc == c.pc;
                    assert(valid_start(xs, full, cstarts[j]));
                    assert(cbest[clist.threads@[j].pc as int] == cstarts[j]);
                    if cut {
                        if j >= i - 1 {
                            assert(cstarts[i - 1] <= cstarts[j]);
                        }
                    }
                    assert(!(ops[clist.threads@[j].pc as int] is Match && (!full
                        || end_of_input)));
                }
            }
        }
        proof {
            assert(swept.2 is Some ==> found == swept.2);
            assert(swept.2 is None ==> found == found0);
        }
        if end_of_input {
            proof {
                assert(ops.len() * sp <= ops.len() * (xs.len() + 1)) by (nonlinear_arith)
                    requires
                        sp <= xs.len(),
                        ops.len() >= 0,
                ;
                assert forall|s: int, c: Config| #[trigger]
                    accepting_from(ops, xs, full, s, c) implies limit <= s by {
                    let k = choose|k: nat| #[trigger] run(ops, xs, k, start_config(ops, s), c);
                    lemma_run_in_bounds(ops, xs, k, start_config(ops, s), c);
                }
            }
            break ;
        }
        if !full && matched.is_none() {
            let seed = start_thread(n_slots, sp + 1);
            let ghost before = nlist;
            proof {
                assert(seed.cfg(sp + 1) == start_config(ops, sp + 1));
                assert(run(ops, xs, 0, start_config(ops, sp + 1), start_config(ops, sp + 1)));
                assert(reach_from(ops, xs, sp + 1, seed.cfg(sp + 1)));
            }
            nlist.add_thread(insts, seed, sp + 1, sp + 1 == input.len());
            proof {
                let (s2, b2) = lemma_ranked_add(
                    ops,
                    xs,
                    full,
                    sp + 1,
                    before,
                    nlist,
                    nstarts,
                    nbest,
                    hi,
                    seed.cfg(sp + 1),
                    sp + 1,
                );
                assert forall|j: int|
                    0 <= j < clist.threads@.len() && passes(
                        ops,
                        xs,
                        sp as int,
                        (#[trigger] clist.threads@[j]).pc as int,
                    ) implies nlist.seen_pc@[clist.threads@[j].pc + 1] && b2[clist.threads@[j].pc
                    + 1] <= cstarts[j] by {
                    let q = clist.threads@[j].pc + 1;
                    assert(before.seen_pc@[q]);
                    assert(b2[q] == nbest[q]);
                }
                nstarts = s2;
                nbest = b2;
                hi = sp + 1;
            }
        }
        proof {
            assert forall|pc: int|
                0 <= pc < ops.len() && clist.seen_pc@[pc] && #[trigger] passes(
                    ops,
                    xs,
                    sp as int,
                    pc,
                ) && cbest[pc] < limit implies pc + 1 < ops.len() && nlist.seen_pc@[pc + 1]
                && nbest[pc + 1] <= cbest[pc] by {
                assert(parked(ops[pc]));
                let j = choose|j: int|
                    0 <= j < clist.threads@.len() && (#[trigger] clist.threads@[j]).pc == pc;
                assert(valid_start(xs, full, cstarts[j]));
                assert(cbest[clist.threads@[j].pc as int] == cstarts[j]);
                if cut {
                    if j >= i - 1 {
                        assert(cstarts[i - 1] <= cstarts[j]);
                    }
                }
                assert(passes(ops, xs, sp as int, clist.threads@[j].pc as int));
            }
            lemma_covers(
                ops,
                xs,
                full,
                sp + 1,
                clist.seen_pc@,
                cbest,
                limit0,
                nlist.seen_pc@,
                nbest,
                limit,
            );
            lemma_ranked_weaken(ops, xs, full, sp + 1, nlist, nstarts, nbest, hi, sp + 1);
            if matched is Some {
                assert forall|j: int| 0 <= j < nstarts.len() implies #[trigger] nstarts[j]
                    <= limit by {
                    assert(valid_start(xs, full, nstarts[j]) && nstarts[j] <= hi);
                }
            }
        }
        clist = nlist;
        sp += 1;
        proof {
            cstarts = nstarts;
            cbest = nbest;
        }
    }
    proof {
        if matched is None {
            assert forall|c: Config| !accepting(ops, xs, full, c) by {
                if accepting(ops, xs, full, c) {
                    let s = lemma_accepting_start(ops, xs, full, c);
                }
            }
        } else {
            let t = matched->0;
            let c = choose|c: Config| #[trigger] is_result(ops, xs, full, t, limit, c);
            lemma_reach_from_reachable(ops, xs, full, limit, c);
            assert(accepting(ops, xs, full, c));
            assert(is_result(ops, xs, full, t, limit, c) && leftmost(ops, xs, full, limit));
        }
    }
    (matched, Ghost(checks))
}

/// A ranking holds for every later bound on the starts.
proof fn lemma_ranked_weaken<T>(
    ops: Seq<Op<T>>,
    xs: Seq<T>,
    full: bool,
    sp: int,
    pool: ThreadPool,
    starts: Seq<int>,
    best: Seq<int>,
    hi: int,
    hi2: int,
)
    requires
        ranked(ops, xs, full, sp, pool, starts, best, hi),
        hi <= hi2,
    ensures
        ranked(ops, xs, full, sp, pool, starts, best, hi2),
{
    assert forall|j: int| 0 <= j < starts.len() implies {
        &&& valid_start(xs, full, #[trigger] starts[j])
        &&& starts[j] <= hi2
        &&& reach_from(ops, xs, starts[j], pool.threads@[j].cfg(sp))
        &&& best[pool.threads@[j].pc as int] == starts[j]
    } by {
        assert(valid_start(xs, full, starts[j]) && starts[j] <= hi);
    }
}

} // verus!

verus! {

/// The group that `name` is bound to, if it is bound.
pub fn find_name(list: &Vec<(String, usize)>, name: &str) -> (res: Option<usize>)
    requires
        names_distinct(list@),
    ensures
        res is Some == names_view(list@).contains_key(name@),
        res matches Some(g) ==> names_view(list@)[name@] == g,
{
    let wanted = name.to_owned();
    let mut i: usize = 0;
    while i < list.len()
        invariant
            i <= list@.len(),
            wanted@ == name@,
            names_distinct(list@),
            forall|j: int| 0 <= j < i ==> (#[trigger] list@[j]).0@ != name@,
        decreases list@.len() - i,
    {
        if list[i].0 == wanted {
            proof {
                assert(list@[i as int].0@ == name@);
                assert(has_name(list@, name@));
                let x = name_index(list@, name@);
                if x != i {
                    assert(list@[x].0@ != list@[i as int].0@);
                }
            }
            return Some(list[i].1);
        }
        i += 1;
    }
    proof {
        if has_name(list@, name@) {
            let x = name_index(list@, name@);
            assert(list@[x].0@ != name@);
        }
    }
    None
}

} // verus!
