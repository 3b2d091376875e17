//! Compiled patterns and the three ways of asking them.

use crate::captures::{locations_fit, span_in, CaptureLocation, Captures};
use crate::compiler::{
    bounds_in_order, code_len, code_of, compilable, compile_node, groups, lemma_code_len,
    lemma_code_within, lemma_wf_parts, measurable, measure, predicates_wf, program_of, with_inst,
};
use crate::correctness::{at, lemma_accepting_derives, lemma_derives_accepting, start_caps};
use crate::inst::{
    accepting, accepting_from, leftmost, lemma_accepting_start, lemma_group_bound_positive, ops_of,
    preds_wf, program_ok, Caps, Config, Inst, Op,
};
use crate::machine::machine_result;
use crate::regex::{matches_between, regex_wf, Regex};
use crate::runner::{copy_names, is_result, run_vm, Thread};
use crate::semantics::{
    derives, lemma_derives_framed, lemma_derives_matches, lemma_matches_derives, pair_kept,
    pair_set,
};
use std::rc::Rc;
use vstd::prelude::*;

verus! {

/// The program of `r` has an accepting thread on the input `xs`.
pub open spec fn accepts<T>(r: Regex<T>, xs: Seq<T>, full: bool) -> bool {
    exists|c: Config| accepting(program_of(r), xs, full, c)
}

/// The span recorded for group `g`, where it lies in order inside an input
/// of `len` elements.
pub open spec fn valid_span(caps: Caps, g: int, len: int) -> Option<(int, int)> {
    match caps.span(g) {
        Some(s) => if 0 <= s.0 <= s.1 <= len {
            Some(s)
        } else {
            None
        },
        None => None,
    }
}

/// The captures `c` hold what a thread recorded as `caps`.
pub open spec fn holds_record<I>(c: Captures<'_, I>, caps: Caps) -> bool {
    &&& forall|g: int|
        0 <= g < c.count() ==> #[trigger] c.span(g) == valid_span(caps, g, c.source().len() as int)
    &&& c.names() == caps.names
}

/// `r` matches some part of `xs`.
pub open spec fn matches_somewhere<T>(r: Regex<T>, xs: Seq<T>) -> bool {
    exists|i: int, j: int| #[trigger] matches_between(r, xs, i, j)
}

/// `r` matches `xs` from `s` up to `e` and records `caps` while it does,
/// its groups numbered from 1 and the start of the whole match recorded
/// beforehand.
pub open spec fn records<T>(r: Regex<T>, xs: Seq<T>, s: int, e: int, caps: Caps) -> bool {
    derives(r, 1, xs, s, e, start_caps(r, s), caps)
}

/// The captures `c` are those of a leftmost match of `r` in `xs`: capture 0
/// is the span of the match, no match starts before it, and the others are
/// the spans that `r` records for its groups while it matches that span.
pub open spec fn captures_of_match<I>(c: Captures<'_, I>, r: Regex<I>, xs: Seq<I>) -> bool {
    &&& c.source() == xs
    &&& c.count() == 1 + groups(r)
    &&& exists|s: int, e: int, caps: Caps| #[trigger]
        records(r, xs, s, e, caps) && c.span(0) == Some((s, e)) && c.names() == caps.names
            && starts_first(r, xs, s) && forall|g: int|
            1 <= g < c.count() ==> #[trigger] c.span(g) == caps.span(g)
}

/// No match of `r` in `xs` starts before position `s`.
pub open spec fn starts_first<T>(r: Regex<T>, xs: Seq<T>, s: int) -> bool {
    forall|i: int, j: int| #[trigger] matches_between(r, xs, i, j) ==> s <= i
}

/// The captures `c`, if any, hold exactly what the thread recorded that the
/// matching machine hands back for the program of `r` and the input `xs`;
/// so of several matches the one is found that the machine prefers.
pub open spec fn captures_by_machine<I>(c: Option<Captures<'_, I>>, r: Regex<I>, xs: Seq<I>) -> bool {
    match (c, machine_result(program_of(r), xs, false)) {
        (Some(c), Some(t)) => {
            &&& c.names() == t.caps.names
            &&& forall|g: int| 0 <= g < c.count() ==> #[trigger] c.span(g) == t.caps.span(g)
        },
        (None, None) => true,
        _ => false,
    }
}

/// What a compiled pattern can be asked.
pub trait CompiledRegex<I> {
    /// The pattern that was compiled.
    spec fn pattern(&self) -> Regex<I>;

    /// Whether the pattern matches the whole input.
    fn is_full_match(&self, input: &[I]) -> (r: bool)
        ensures
            r == matches_between(self.pattern(), input@, 0, input@.len() as int),
    ;

    /// Whether the pattern matches some part of the input.
    fn is_match(&self, input: &[I]) -> (r: bool)
        ensures
            r == matches_somewhere(self.pattern(), input@),
    ;

    /// The captures of a match of the pattern in the input, or `None` where
    /// the pattern matches no part of the input.
    fn captures<'t>(&self, input: &'t [I]) -> (r: Option<Captures<'t, I>>)
        ensures
            r is Some == matches_somewhere(self.pattern(), input@),
            r matches Some(c) ==> captures_of_match(c, self.pattern(), input@),
            captures_by_machine(r, self.pattern(), input@),
    ;
}

/// The program of a pattern accepts the whole input exactly when the
/// pattern matches the whole input.
pub proof fn lemma_accepts_full<T>(r: Regex<T>, xs: Seq<T>)
    requires
        regex_wf(r),
    ensures
        accepts(r, xs, true) == matches_between(r, xs, 0, xs.len() as int),
{
    if accepts(r, xs, true) {
        let c = choose|c: Config| accepting(program_of(r), xs, true, c);
        let s = lemma_accepting_start(program_of(r), xs, true, c);
        lemma_accepting_derives(r, xs, true, s, c);
        lemma_derives_matches(r, 1, xs, s, c.sp, start_caps(r, s), c.caps);
    }
    if matches_between(r, xs, 0, xs.len() as int) {
        let c1 = lemma_matches_derives(r, 1, xs, 0, xs.len() as int, start_caps(r, 0));
        lemma_derives_accepting(r, xs, true, 0, xs.len() as int, c1);
    }
}

/// The program of a pattern accepts somewhere in the input exactly when the
/// pattern matches some part of the input.
pub proof fn lemma_accepts_somewhere<T>(r: Regex<T>, xs: Seq<T>)
    requires
        regex_wf(r),
    ensures
        accepts(r, xs, false) == matches_somewhere(r, xs),
{
    if accepts(r, xs, false) {
        let c = choose|c: Config| accepting(program_of(r), xs, false, c);
        let s = lemma_accepting_start(program_of(r), xs, false, c);
        lemma_accepting_derives(r, xs, false, s, c);
        lemma_derives_matches(r, 1, xs, s, c.sp, start_caps(r, s), c.caps);
    }
    if matches_somewhere(r, xs) {
        let (i, j) = choose|i: int, j: int| #[trigger] matches_between(r, xs, i, j);
        let c1 = lemma_matches_derives(r, 1, xs, i, j, start_caps(r, i));
        lemma_derives_accepting(r, xs, false, i, j, c1);
    }
}

/// Where no accepting thread of the program of a pattern starts before
/// `s`, no match of the pattern starts before `s`.
pub proof fn lemma_leftmost<T>(r: Regex<T>, xs: Seq<T>, s: int)
    requires
        regex_wf(r),
        leftmost(program_of(r), xs, false, s),
    ensures
        starts_first(r, xs, s),
{
    assert forall|i: int, j: int| #[trigger] matches_between(r, xs, i, j) implies s <= i by {
        let c1 = lemma_matches_derives(r, 1, xs, i, j, start_caps(r, i));
        lemma_derives_accepting(r, xs, false, i, j, c1);
        assert(accepting_from(program_of(r), xs, false, i, at(code_len(r) as int, j, c1)));
    }
}

/// What an accepting thread has recorded, with the end of the whole match
/// added, are spans in order inside the input: the whole match in slots 0
/// and 1, and inside it the spans of the groups that took part.
pub proof fn lemma_record_is_valid<T>(r: Regex<T>, xs: Seq<T>, s: int, e: int, caps: Caps, g: int)
    requires
        regex_wf(r),
        records(r, xs, s, e, caps),
        0 <= g,
    ensures
        0 <= s <= e <= xs.len(),
        caps.mark_close(0, e).span(0) == Some((s, e)),
        g >= 1 ==> caps.mark_close(0, e).span(g) == caps.span(g),
        valid_span(caps.mark_close(0, e), g, xs.len() as int) == caps.mark_close(0, e).span(g),
        g >= 1 ==> (caps.span(g) matches Some(sp) ==> s <= sp.0 <= sp.1 <= e),
{
    let c0 = start_caps(r, s);
    lemma_group_bound_positive(program_of(r), program_of(r).len() as int);
    lemma_derives_framed(r, 1, xs, s, e, c0, caps);
    assert(pair_kept(c0, caps, 0) || (1 <= 0 < 1 + groups(r) && pair_set(caps, 0, s, e)));
    if 2 * g + 1 < c0.slots.len() {
        assert(pair_kept(c0, caps, g) || (1 <= g < 1 + groups(r) && pair_set(caps, g, s, e)));
    }
}

/// A pattern compiled to a program for the matching machine.
#[verifier::reject_recursive_types(I)]
pub struct CompiledRegexInVm<I> {
    insts: Rc<Vec<Inst<I>>>,
    group_count: usize,
    source: Ghost<Regex<I>>,
}

/// The program of a pattern is well formed: every instruction continues
/// inside the program.
pub proof fn lemma_program_ok<T>(r: Regex<T>)
    requires
        compilable(r),
    ensures
        program_ok(program_of(r)),
        program_of(r).len() == code_len(r) + 1,
{
    let code = code_of(r, 0, 1);
    let prog = program_of(r);
    lemma_code_len(r, 0, 1);
    lemma_code_within(r, 0, 1);
    assert forall|pc: int| 0 <= pc < prog.len() implies match #[trigger] prog[pc] {
        Op::Match => true,
        Op::Jmp(t) => 0 <= t < prog.len(),
        Op::Split(x, y) => 0 <= x < prog.len() && 0 <= y < prog.len(),
        Op::SaveOpen(g) => pc + 1 < prog.len() && 0 <= g && 2 * g + 2 <= usize::MAX,
        Op::SaveClose(g) => pc + 1 < prog.len() && 0 <= g && 2 * g + 2 <= usize::MAX,
        Op::SaveNamedOpen(_, g) => pc + 1 < prog.len() && 0 <= g && 2 * g + 2 <= usize::MAX,
        Op::SaveNamedClose(_, g) => pc + 1 < prog.len() && 0 <= g && 2 * g + 2 <= usize::MAX,
        _ => pc + 1 < prog.len(),
    } by {
        if pc < code.len() {
            assert(prog[pc] == code[pc]);
        }
    }
}

impl<I: 'static> CompiledRegexInVm<I> {
    #[verifier::type_invariant]
    spec fn inv(self) -> bool {
        &&& compilable(self.source@)
        &&& ops_of(self.insts@) == program_of(self.source@)
        &&& preds_wf(self.insts@)
        &&& self.group_count == groups(self.source@)
    }

    /// The program that the pattern was compiled to.
    pub fn instructions(&self) -> (insts: &[Inst<I>])
        ensures
            ops_of(insts@) == program_of(self.pattern()),
    {
        proof {
            use_type_invariant(self);
        }
        self.insts.as_slice()
    }

    /// Compiles `reg`.
    pub fn compile(reg: &Regex<I>) -> (c: Self)
        requires
            compilable(*reg),
        ensures
            c.pattern() == *reg,
    {
        let (insts, _, next_group) = compile_node(reg, 0, 1);
        let insts = with_inst(insts, Inst::Match);
        assert(ops_of(insts@) =~= program_of(*reg));
        CompiledRegexInVm { insts: Rc::new(insts), group_count: next_group - 1, source: Ghost(*reg) }
    }
}

/// The captures that the matched thread `th` recorded, for a pattern with
/// `count` captures.
fn captures_of<'t, I>(input: &'t [I], th: &Thread, count: usize) -> (c: Captures<'t, I>)
    requires
        2 * count + 1 <= usize::MAX,
        th.wf(th.saved@.len() as int),
    ensures
        c.source() == input@,
        c.count() == count,
        holds_record(c, th.caps()),
{
    let mut locations: Vec<Option<CaptureLocation>> = Vec::new();
    let mut g: usize = 0;
    while g < count
        invariant
            g <= count,
            2 * count + 1 <= usize::MAX,
            locations@.len() == g,
            locations_fit(locations@, input@.len() as int),
            forall|k: int|
                0 <= k < g ==> #[trigger] span_in(locations@, k) == valid_span(
                    th.caps(),
                    k,
                    input@.len() as int,
                ),
        decreases count - g,
    {
        let mut location: Option<CaptureLocation> = None;
        if 2 * g + 1 < th.saved.len() {
            match (th.saved[2 * g], th.saved[2 * g + 1]) {
                (Some(start), Some(end)) => {
                    if start <= end && end <= input.len() {
                        location = Some(CaptureLocation { start, end });
                    }
                },
                _ => {},
            }
        }
        let ghost before = locations@;
        locations.push(location);
        proof {
            assert forall|k: int| 0 <= k < g + 1 implies #[trigger] span_in(locations@, k)
                == valid_span(th.caps(), k, input@.len() as int) by {
                if k < g {
                    assert(span_in(before, k) == valid_span(th.caps(), k, input@.len() as int));
                    assert(locations@[k] == before[k]);
                }
            }
        }
        g += 1;
    }
    Captures::new(input, locations, copy_names(&th.named_capture_index))
}

impl<I: 'static> CompiledRegex<I> for CompiledRegexInVm<I> {
    closed spec fn pattern(&self) -> Regex<I> {
        self.source@
    }

    fn is_full_match(&self, input: &[I]) -> (r: bool) {
        proof {
            use_type_invariant(self);
            lemma_program_ok(self.source@);
            lemma_accepts_full(self.source@, input@);
        }
        let (matched, _) = run_vm(self.insts.as_slice(), input, true);
        matched.is_some()
    }

    fn is_match(&self, input: &[I]) -> (r: bool) {
        proof {
            use_type_invariant(self);
            lemma_program_ok(self.source@);
            lemma_accepts_somewhere(self.source@, input@);
        }
        let (matched, _) = run_vm(self.insts.as_slice(), input, false);
        matched.is_some()
    }

    fn captures<'t>(&self, input: &'t [I]) -> (r: Option<Captures<'t, I>>) {
        proof {
            use_type_invariant(self);
            lemma_program_ok(self.source@);
            lemma_accepts_somewhere(self.source@, input@);
        }
        let (matched, _) = run_vm(self.insts.as_slice(), input, false);
        match matched {
            Some(th) => {
                let c = captures_of(input, &th, self.group_count + 1);
                proof {
                    let pat = self.source@;
                    let ops = program_of(pat);
                    let (s, cfg) = choose|s: int, cfg: Config| #[trigger]
                        is_result(ops, input@, false, th, s, cfg) && leftmost(
                            ops,
                            input@,
                            false,
                            s,
                        );
                    lemma_accepting_derives(pat, input@, false, s, cfg);
                    let e = cfg.sp;
                    let caps = cfg.caps;
                    assert(records(pat, input@, s, e, caps));
                    lemma_leftmost(pat, input@, s);
                    lemma_record_is_valid(pat, input@, s, e, caps, 0);
                    assert forall|g: int| 1 <= g < c.count() implies #[trigger] c.span(g)
                        == caps.span(g) by {
                        lemma_record_is_valid(pat, input@, s, e, caps, g);
                    }
                    assert(c.names() == caps.names);
                    let model = machine_result(ops, input@, false)->0;
                    assert forall|g: int| 0 <= g < c.count() implies #[trigger] c.span(g)
                        == model.caps.span(g) by {
                        lemma_record_is_valid(pat, input@, s, e, caps, g);
                    }
                }
                Some(c)
            },
            None => None,
        }
    }
}

/// The pattern can be compiled on this machine, as far as a program can
/// judge it: its bounds are in order, and its program and the save slots of
/// its groups can be counted in a `usize`.
pub open spec fn can_compile<T>(r: Regex<T>) -> bool {
    &&& measurable(r)
    &&& bounds_in_order(r)
    &&& code_len(r) + 1 < usize::MAX
    &&& 2 * (1 + groups(r)) + 2 <= usize::MAX
}

impl<T: 'static> Regex<T> {
    /// Compiles the pattern where it can be compiled, and gives `None` where
    /// its bounds are out of order or it is too large for this machine.
    pub fn try_compile(&self) -> (res: Option<CompiledRegexInVm<T>>)
        requires
            predicates_wf(*self),
        ensures
            res is Some == can_compile(*self),
            res matches Some(c) ==> c.pattern() == *self,
    {
        proof {
            lemma_wf_parts(*self);
        }
        match measure(self) {
            Some((len, count)) => {
                if len < usize::MAX - 1 && count <= (usize::MAX - 4) / 2 {
                    Some(CompiledRegexInVm::compile(self))
                } else {
                    None
                }
            },
            None => None,
        }
    }

    /// Compiles the pattern.
    pub fn compile(&self) -> (c: impl CompiledRegex<T>)
        requires
            compilable(*self),
        ensures
            c.pattern() == *self,
    {
        CompiledRegexInVm::compile(self)
    }
}

} // verus!
