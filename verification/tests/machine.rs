use std::rc::Rc;
use vec_reg::compiler::{
    compile_regex_to_vm_insts, concat_regex_list, expand_repeat_min_max, expand_repeat_n, measure,
};
use vec_reg::inst::Inst;
use vec_reg::runner::{run_vm, Thread, ThreadPool};
use vec_reg::{CompiledRegex, Regex};

fn one() -> Regex<i32> {
    Regex::is(1)
}

fn show(insts: &[Inst<i32>]) -> Vec<String> {
    let mut out = vec![];
    for inst in insts {
        out.push(match inst {
            Inst::Begin => format!("Begin"),
            Inst::End => format!("End"),
            Inst::Check(_) => format!("Check"),
            Inst::Match => format!("Match"),
            Inst::Jmp(t) => format!("Jmp({})", t),
            Inst::Split(x, y) => format!("Split({},{})", x, y),
            Inst::SaveOpen(g) => format!("SaveOpen({})", g),
            Inst::SaveClose(g) => format!("SaveClose({})", g),
            Inst::SaveNamedOpen(n, g) => format!("SaveNamedOpen({},{})", n, g),
            Inst::SaveNamedClose(n, g) => format!("SaveNamedClose({},{})", n, g),
        });
    }
    out
}

fn layout(reg: Regex<i32>) -> Vec<String> {
    show(&compile_regex_to_vm_insts(&reg))
}

#[test]
fn a_predicate_compiles_to_a_check() {
    assert_eq!(layout(one()), ["Check", "Match"]);
    assert_eq!(layout(Regex::not_satisfy(|x| *x == 1)), ["Check", "Match"]);
    assert_eq!(layout(Regex::begin()), ["Begin", "Match"]);
    assert_eq!(layout(Regex::end()), ["End", "Match"]);
}

#[test]
fn the_check_of_a_negated_predicate_negates() {
    let insts = compile_regex_to_vm_insts(&Regex::<i32>::not_satisfy(|x| *x == 1));
    assert!(run_vm(&insts, &[2], true).0.is_some());
    assert!(run_vm(&insts, &[1], true).0.is_none());
}

#[test]
fn concat_and_or_layouts() {
    assert_eq!(layout(Regex::concat(one(), one())), ["Check", "Check", "Match"]);
    assert_eq!(
        layout(Regex::or(one(), Regex::concat(one(), one()))),
        ["Split(1,3)", "Check", "Jmp(5)", "Check", "Check", "Match"]
    );
}

#[test]
fn group_layouts() {
    assert_eq!(
        layout(Regex::concat(Regex::group(one()), Regex::group(one()))),
        ["SaveOpen(1)", "Check", "SaveClose(1)", "SaveOpen(2)", "Check", "SaveClose(2)", "Match"]
    );
    assert_eq!(
        layout(Regex::group(Regex::named_group("n", one()))),
        [
            "SaveOpen(1)",
            "SaveNamedOpen(n,2)",
            "Check",
            "SaveNamedClose(n,2)",
            "SaveClose(1)",
            "Match"
        ]
    );
    assert_eq!(layout(Regex::non_capturing_group(one())), ["Check", "Match"]);
}

#[test]
fn repetition_layouts() {
    assert_eq!(layout(Regex::zero_or_one(one(), true)), ["Split(1,2)", "Check", "Match"]);
    assert_eq!(layout(Regex::zero_or_one(one(), false)), ["Split(2,1)", "Check", "Match"]);
    assert_eq!(layout(Regex::repeat0(one(), true)), ["Split(1,3)", "Check", "Jmp(0)", "Match"]);
    assert_eq!(layout(Regex::repeat0(one(), false)), ["Split(3,1)", "Check", "Jmp(0)", "Match"]);
    assert_eq!(layout(Regex::repeat1(one(), true)), ["Check", "Split(0,2)", "Match"]);
    assert_eq!(layout(Regex::repeat1(one(), false)), ["Check", "Split(2,0)", "Match"]);
}

#[test]
fn counted_repetition_layouts() {
    assert_eq!(layout(Regex::repeat_n(one(), 0)), ["Match"]);
    assert_eq!(layout(Regex::repeat_n(one(), 3)), ["Check", "Check", "Check", "Match"]);
    assert_eq!(
        layout(Regex::repeat_n(Regex::group(one()), 2)),
        ["SaveOpen(1)", "Check", "SaveClose(1)", "SaveOpen(2)", "Check", "SaveClose(2)", "Match"]
    );
    assert_eq!(
        layout(Regex::repeat_min_max(one(), 1, 3, true)),
        ["Check", "Split(2,3)", "Check", "Split(4,5)", "Check", "Match"]
    );
    assert_eq!(
        layout(Regex::repeat_min_max(one(), 1, 2, false)),
        ["Check", "Split(3,2)", "Check", "Match"]
    );
    assert_eq!(layout(Regex::repeat_min_max(one(), 0, 0, true)), ["Match"]);
    assert_eq!(
        layout(Regex::repeat_n_or_more(one(), 0, true)),
        ["Split(1,3)", "Check", "Jmp(0)", "Match"]
    );
    assert_eq!(
        layout(Regex::repeat_n_or_more(one(), 2, true)),
        ["Check", "Check", "Split(1,3)", "Match"]
    );
    assert_eq!(
        layout(Regex::repeat_n_or_more(one(), 1, false)),
        ["Check", "Split(2,0)", "Match"]
    );
}

#[test]
fn repeat_n_compiles_as_its_copies_concatenated() {
    let body = Regex::or(Regex::group(one()), Regex::is(2));
    let repeated = Regex::repeat_n(body.clone(), 3);
    let written_out = Regex::concat(Regex::concat(body.clone(), body.clone()), body);
    assert_eq!(layout(repeated), layout(written_out));
}

#[test]
fn expansions() {
    let r = Rc::new(one());
    assert_eq!(expand_repeat_n(&r, 0).len(), 0);
    assert_eq!(expand_repeat_n(&r, 4).len(), 4);
    let parts = expand_repeat_min_max(&r, 2, &Some(5), true);
    assert_eq!(parts.len(), 5);
    assert!(matches!(*parts[1], Regex::Satisfy(_)));
    assert!(matches!(*parts[2], Regex::ZeroOrOne(_, true)));
    let parts = expand_repeat_min_max(&r, 2, &None, false);
    assert_eq!(parts.len(), 2);
    assert!(matches!(*parts[1], Regex::Repeat1(_, false)));
    let parts = expand_repeat_min_max(&r, 0, &None, true);
    assert_eq!(parts.len(), 1);
    assert!(matches!(*parts[0], Regex::Repeat0(_, true)));
    let all = concat_regex_list(&expand_repeat_n(&r, 3));
    assert_eq!(all.to_text(), "[<fn>][<fn>][<fn>]");
    assert!(matches!(*all, Regex::Concat(_, _)));
    let single = concat_regex_list(&expand_repeat_n(&r, 1));
    assert!(matches!(*single, Regex::Satisfy(_)));
}

#[test]
fn sizes_are_measured() {
    assert_eq!(measure(&one()), Some((1, 0)));
    assert_eq!(measure(&Regex::or(Regex::group(one()), one())), Some((6, 1)));
    assert_eq!(measure(&Regex::repeat_n(Regex::group(one()), 5)), Some((15, 5)));
    assert_eq!(measure(&Regex::repeat_min_max(Regex::group(one()), 2, 4, true)), Some((14, 4)));
    assert_eq!(measure(&Regex::repeat_n_or_more(one(), 0, true)), Some((3, 0)));
    assert_eq!(measure(&Regex::repeat_n_or_more(one(), 3, true)), Some((4, 0)));
    assert_eq!(measure(&Regex::repeat_min_max(one(), 3, 2, true)), None);
    assert_eq!(measure(&Regex::repeat_n(Regex::repeat_n(one(), usize::MAX), 2)), None);
}

#[test]
fn try_compile_refuses_what_cannot_be_compiled() {
    assert!(one().try_compile().is_some());
    assert!(Regex::repeat_min_max(one(), 3, 2, true).try_compile().is_none());
    assert!(Regex::repeat_n(one(), usize::MAX).try_compile().is_none());
    let reg = Regex::repeat_n(one(), 2).try_compile().unwrap();
    assert!(reg.is_full_match(&[1, 1]));
}

#[test]
fn the_machine_runs_a_program_written_by_hand() {
    let insts: Vec<Inst<i32>> = vec![
        Inst::SaveOpen(1),
        Inst::Split(2, 4),
        Inst::Check(Rc::new(Box::new(vec_reg::predicate::EqualTo { value: 1 }))),
        Inst::Jmp(1),
        Inst::SaveClose(1),
        Inst::Match,
    ];
    let full = run_vm(&insts, &[1, 1, 1], true).0.unwrap();
    assert_eq!(full.pc, 5);
    assert_eq!(full.saved, [Some(0), Some(3), Some(0), Some(3)]);
    assert!(run_vm(&insts, &[1, 2], true).0.is_none());
    let part = run_vm(&insts, &[2, 1, 1, 2], false).0.unwrap();
    assert_eq!(part.saved, [Some(0), Some(0), Some(0), Some(0)]);
}

#[test]
fn a_pool_holds_one_thread_for_each_instruction_at_most() {
    let reg = Regex::repeat0(Regex::repeat0(Regex::or(one(), one()), true), true);
    let insts = compile_regex_to_vm_insts(&reg);
    let mut pool = ThreadPool::new(insts.len());
    for _ in 0..3 {
        let start = Thread { pc: 0, saved: vec![None, None], named_capture_index: vec![] };
        pool.add_thread(&insts, start, 0, false);
    }
    assert!(pool.threads.len() <= insts.len());
    let mut pcs: Vec<usize> = pool.threads.iter().map(|t| t.pc).collect();
    pcs.sort();
    pcs.dedup();
    assert_eq!(pcs.len(), pool.threads.len());
    assert_eq!(pool.threads.len(), 3);
}

#[test]
fn loops_around_nothing_end() {
    let reg = Regex::repeat0(Regex::repeat0(one(), true), true).compile();
    assert!(reg.is_full_match(&[]));
    assert!(reg.is_full_match(&[1, 1, 1]));
    assert!(!reg.is_full_match(&[1, 2]));
    let reg = Regex::repeat1(Regex::zero_or_one(one(), false), false).compile();
    assert!(reg.is_full_match(&[]));
    assert!(reg.is_full_match(&[1, 1]));
}

#[test]
fn a_predicate_is_evaluated_once_for_each_instruction_and_position_at_most() {
    use_counter_check(&[1, 1, 1, 1, 1, 1, 1, 1], 6);
    use_counter_check(&[1, 2, 1, 2, 2, 1], 3);
    use_counter_check(&[], 4);
}

fn use_counter_check(xs: &[i32], n: usize) {
    let count = Rc::new(std::cell::Cell::new(0usize));
    let counted = |count: &Rc<std::cell::Cell<usize>>| {
        let count = count.clone();
        Regex::satisfy(move |x: &i32| {
            count.set(count.get() + 1);
            *x == 1
        })
    };
    let mut reg = Regex::zero_or_one(counted(&count), true);
    for _ in 1..n {
        reg = Regex::concat(reg, Regex::zero_or_one(counted(&count), true));
    }
    for _ in 0..n {
        reg = Regex::concat(reg, Regex::repeat0(Regex::or(counted(&count), counted(&count)), true));
    }
    let insts = compile_regex_to_vm_insts(&reg);
    for full in [true, false] {
        count.set(0);
        run_vm(&insts, xs, full);
        assert!(count.get() <= insts.len() * (xs.len() + 1));
    }
}
