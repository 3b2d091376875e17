//! The grammar of pattern texts, and that the reader follows it.
//!
//! `writes` says by the shape of a pattern which texts write it. It is
//! stated from the pattern downwards, with the places at which a text is
//! cut left open; the reader of the module `parser` goes through a text
//! from the left and finds those places.

use crate::parser::{
    done, lemma_group_head, lemma_read_atom, lemma_read_expr, lemma_read_factor, lemma_read_term,
    lemma_skip_spaces, next_is, read_atom, read_class, read_expr, read_expr_rest, read_factor,
    read_group_head, read_meta, read_pattern, read_term, read_term_rest, skip_spaces, starts_factor,
    wrap_group, GroupKind,
};
use crate::pattern::Syntax;
use crate::regex::cut;
use vstd::prelude::*;

verus! {

/// The first part of a pattern; the pattern itself where it has none.
pub open spec fn first_part(t: Syntax) -> Syntax {
    match t {
        Syntax::Concat(a, _) => *a,
        Syntax::Or(a, _) => *a,
        Syntax::Group(a) => *a,
        Syntax::NamedGroup(_, a) => *a,
        Syntax::NonCapturingGroup(a) => *a,
        Syntax::ZeroOrOne(a, _) => *a,
        Syntax::Repeat0(a, _) => *a,
        Syntax::Repeat1(a, _) => *a,
        Syntax::RepeatN(a, _) => *a,
        Syntax::RepeatMinMax(a, _, _, _) => *a,
        _ => t,
    }
}

/// The kind of a group.
pub open spec fn kind_of(t: Syntax) -> GroupKind {
    match t {
        Syntax::NamedGroup(name, _) => GroupKind::Named(name),
        Syntax::NonCapturingGroup(_) => GroupKind::NonCapturing,
        _ => GroupKind::Capturing,
    }
}

/// The text `s` writes the pattern `t` from position `i` up to position
/// `j`, as an alternation (level 0), a concatenation (level 1), a factor
/// (level 2) or an atom (level 3).
///
/// - An alternation is a concatenation, or an alternation, `|` and a
///   concatenation.
/// - A concatenation is a factor, or a concatenation and a factor.
/// - A factor is `^`, `$`, an atom, or an atom and a repetition mark.
/// - An atom is `.`, a predicate in brackets, or an alternation in
///   parentheses, with `?:` or `?P<"name">` behind the opening one where
///   the group does not capture or has a name.
pub open spec fn writes(level: nat, t: Syntax, s: Seq<char>, i: int, j: int) -> bool
    decreases t, 3 - level,
{
    if level == 0 {
        match t {
            Syntax::Or(a, b) => exists|k: int| #[trigger]
                cut(k) && writes(0, *a, s, i, k) && next_is(s, k, '|') && writes(
                    1,
                    *b,
                    s,
                    skip_spaces(s, k) + 1,
                    j,
                ),
            _ => writes(1, t, s, i, j),
        }
    } else if level == 1 {
        match t {
            Syntax::Concat(a, b) => exists|k: int| #[trigger]
                cut(k) && writes(1, *a, s, i, k) && writes(2, *b, s, k, j),
            _ => writes(2, t, s, i, j),
        }
    } else if level == 2 {
        match t {
            Syntax::Begin => next_is(s, i, '^') && j == skip_spaces(s, i) + 1,
            Syntax::End => next_is(s, i, '$') && j == skip_spaces(s, i) + 1,
            Syntax::ZeroOrOne(a, _) => exists|k: int| #[trigger]
                cut(k) && writes(3, *a, s, i, k) && read_meta(s, k, *a) == done(t, j),
            Syntax::Repeat0(a, _) => exists|k: int| #[trigger]
                cut(k) && writes(3, *a, s, i, k) && read_meta(s, k, *a) == done(t, j),
            Syntax::Repeat1(a, _) => exists|k: int| #[trigger]
                cut(k) && writes(3, *a, s, i, k) && read_meta(s, k, *a) == done(t, j),
            Syntax::RepeatN(a, _) => exists|k: int| #[trigger]
                cut(k) && writes(3, *a, s, i, k) && read_meta(s, k, *a) == done(t, j),
            Syntax::RepeatMinMax(a, _, _, _) => exists|k: int| #[trigger]
                cut(k) && writes(3, *a, s, i, k) && read_meta(s, k, *a) == done(t, j),
            _ => writes(3, t, s, i, j),
        }
    } else {
        match t {
            Syntax::Any => next_is(s, i, '.') && j == skip_spaces(s, i) + 1,
            Syntax::Satisfy(_) => next_is(s, i, '[') && read_class(s, skip_spaces(s, i)) == done(
                t,
                j,
            ),
            Syntax::NotSatisfy(_) => next_is(s, i, '[') && read_class(s, skip_spaces(s, i))
                == done(t, j),
            Syntax::Group(a) => in_parentheses(t, *a, s, i, j, writes_inside(*a, s, i, j)),
            Syntax::NamedGroup(_, a) => in_parentheses(t, *a, s, i, j, writes_inside(*a, s, i, j)),
            Syntax::NonCapturingGroup(a) => in_parentheses(
                t,
                *a,
                s,
                i,
                j,
                writes_inside(*a, s, i, j),
            ),
            _ => false,
        }
    }
}

/// The content `a` of a group is written from behind the head of the group
/// that starts at `i` up to the `)` before `j`.
pub open spec fn writes_inside(a: Syntax, s: Seq<char>, i: int, j: int) -> bool
    decreases a, 4nat,
{
    match read_group_head(s, skip_spaces(s, i)) {
        Ok(head) => exists|k: int| #[trigger]
            cut(k) && writes(0, a, s, head.1, k) && next_is(s, k, ')') && j == skip_spaces(s, k)
                + 1,
        Err(_) => false,
    }
}

/// The group `t` with the content `a` stands in parentheses from `i` up to
/// `j`, where `inside` says that the content is written between them.
pub open spec fn in_parentheses(
    t: Syntax,
    a: Syntax,
    s: Seq<char>,
    i: int,
    j: int,
    inside: bool,
) -> bool {
    &&& next_is(s, i, '(')
    &&& read_group_head(s, skip_spaces(s, i)) matches Ok(head) && head.0 == kind_of(t)
    &&& inside
}

} // verus!

verus! {

/// The pattern is an atom.
pub open spec fn is_atom(t: Syntax) -> bool {
    t is Any || t is Satisfy || t is NotSatisfy || t is Group || t is NamedGroup
        || t is NonCapturingGroup
}

/// The pattern is a factor: an anchor, an atom, or a repetition.
pub open spec fn is_factor(t: Syntax) -> bool {
    !(t is Concat) && !(t is Or)
}

/// The pattern is a concatenation or a factor.
pub open spec fn is_term(t: Syntax) -> bool {
    !(t is Or)
}

/// What is read behind an atom is the atom itself, where no mark follows,
/// or a repetition of the atom.
pub proof fn lemma_meta_shape(s: Seq<char>, pos: int, atom: Syntax)
    requires
        read_meta(s, pos, atom) is Ok,
    ensures
        ({
            let p = read_meta(s, pos, atom)->Ok_0;
            (p.tree == atom && p.next == pos) || ((p.tree is ZeroOrOne || p.tree is Repeat0
                || p.tree is Repeat1 || p.tree is RepeatN || p.tree is RepeatMinMax) && first_part(
                p.tree,
            ) == atom)
        }),
{
}

/// An atom that was read is written in the text as an atom.
pub proof fn lemma_atom_sound(s: Seq<char>, pos: int)
    requires
        0 <= pos <= s.len(),
        read_atom(s, pos) is Ok,
    ensures
        writes(3, read_atom(s, pos)->Ok_0.tree, s, pos, read_atom(s, pos)->Ok_0.next),
        is_atom(read_atom(s, pos)->Ok_0.tree),
    decreases s.len() - pos, 1nat,
{
    lemma_skip_spaces(s, pos);
    let p = skip_spaces(s, pos);
    let res = read_atom(s, pos)->Ok_0;
    if next_is(s, pos, '.') {
    } else if next_is(s, pos, '[') {
    } else if next_is(s, pos, '(') {
        lemma_group_head(s, p);
        let head = read_group_head(s, p)->Ok_0;
        lemma_read_expr(s, head.1);
        lemma_expr_sound(s, head.1);
        let body = read_expr(s, head.1)->Ok_0;
        assert(res.tree == wrap_group(head.0, body.tree));
        assert(cut(body.next));
        assert(writes_inside(body.tree, s, pos, res.next));
    }
}

/// A factor that was read is written in the text as a factor.
pub proof fn lemma_factor_sound(s: Seq<char>, pos: int)
    requires
        0 <= pos <= s.len(),
        read_factor(s, pos) is Ok,
    ensures
        writes(2, read_factor(s, pos)->Ok_0.tree, s, pos, read_factor(s, pos)->Ok_0.next),
        is_factor(read_factor(s, pos)->Ok_0.tree),
    decreases s.len() - pos, 2nat,
{
    if !next_is(s, pos, '^') && !next_is(s, pos, '$') {
        lemma_read_atom(s, pos);
        lemma_atom_sound(s, pos);
        let a = read_atom(s, pos)->Ok_0;
        lemma_meta_shape(s, a.next, a.tree);
        assert(cut(a.next));
    }
}

/// The rest of a concatenation that was read, with what was read before
/// it, is written in the text as a concatenation.
pub proof fn lemma_term_rest_sound(s: Seq<char>, start: int, pos: int, acc: Syntax)
    requires
        0 <= pos <= s.len(),
        writes(1, acc, s, start, pos),
        is_term(acc),
        read_term_rest(s, pos, acc) is Ok,
    ensures
        writes(
            1,
            read_term_rest(s, pos, acc)->Ok_0.tree,
            s,
            start,
            read_term_rest(s, pos, acc)->Ok_0.next,
        ),
        is_term(read_term_rest(s, pos, acc)->Ok_0.tree),
    decreases s.len() - pos, 3nat,
{
    if starts_factor(s, pos) {
        lemma_read_factor(s, pos);
        lemma_factor_sound(s, pos);
        let f = read_factor(s, pos)->Ok_0;
        let both = Syntax::Concat(Box::new(acc), Box::new(f.tree));
        assert(cut(pos));
        assert(writes(1, both, s, start, f.next));
        lemma_term_rest_sound(s, start, f.next, both);
    }
}

/// A concatenation that was read is written in the text as a
/// concatenation.
pub proof fn lemma_term_sound(s: Seq<char>, pos: int)
    requires
        0 <= pos <= s.len(),
        read_term(s, pos) is Ok,
    ensures
        writes(1, read_term(s, pos)->Ok_0.tree, s, pos, read_term(s, pos)->Ok_0.next),
        is_term(read_term(s, pos)->Ok_0.tree),
    decreases s.len() - pos, 4nat,
{
    lemma_read_factor(s, pos);
    lemma_factor_sound(s, pos);
    let f = read_factor(s, pos)->Ok_0;
    lemma_term_rest_sound(s, pos, f.next, f.tree);
}

/// The rest of an alternation that was read, with what was read before it,
/// is written in the text as an alternation.
pub proof fn lemma_expr_rest_sound(s: Seq<char>, start: int, pos: int, acc: Syntax)
    requires
        0 <= pos <= s.len(),
        writes(0, acc, s, start, pos),
        read_expr_rest(s, pos, acc) is Ok,
    ensures
        writes(
            0,
            read_expr_rest(s, pos, acc)->Ok_0.tree,
            s,
            start,
            read_expr_rest(s, pos, acc)->Ok_0.next,
        ),
    decreases s.len() - pos, 5nat,
{
    lemma_skip_spaces(s, pos);
    let p = skip_spaces(s, pos);
    if next_is(s, pos, '|') {
        lemma_read_term(s, p + 1);
        lemma_term_sound(s, p + 1);
        let t = read_term(s, p + 1)->Ok_0;
        let both = Syntax::Or(Box::new(acc), Box::new(t.tree));
        assert(cut(pos));
        assert(writes(0, both, s, start, t.next));
        lemma_expr_rest_sound(s, start, t.next, both);
    }
}

/// An alternation that was read is written in the text as an alternation.
pub proof fn lemma_expr_sound(s: Seq<char>, pos: int)
    requires
        0 <= pos <= s.len(),
        read_expr(s, pos) is Ok,
    ensures
        writes(0, read_expr(s, pos)->Ok_0.tree, s, pos, read_expr(s, pos)->Ok_0.next),
    decreases s.len() - pos, 6nat,
{
    lemma_read_term(s, pos);
    lemma_term_sound(s, pos);
    let t = read_term(s, pos)->Ok_0;
    lemma_expr_rest_sound(s, pos, t.next, t.tree);
}

/// The pattern that is read from a text is written in the text by the
/// grammar, from the start of the text up to a position behind which only
/// white space follows.
pub proof fn law_reading_follows_the_grammar(s: Seq<char>)
    requires
        read_pattern(s) is Ok,
    ensures
        exists|j: int| #[trigger]
            cut(j) && writes(0, read_pattern(s)->Ok_0, s, 0, j) && skip_spaces(s, j) >= s.len(),
{
    lemma_expr_sound(s, 0);
    lemma_read_expr(s, 0);
    let e = read_expr(s, 0)->Ok_0;
    lemma_skip_spaces(s, e.next);
    assert(cut(e.next));
}

} // verus!
