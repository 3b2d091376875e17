use vec_reg::parser::parse;
use vec_reg::text::decimal;
use vec_reg::{CompiledRegex, CompiledRegexInVm, Regex};

fn one() -> Regex<i32> {
    Regex::is(1)
}

#[test]
fn numbers_are_written_in_decimal() {
    assert_eq!(decimal(0), "0");
    assert_eq!(decimal(7), "7");
    assert_eq!(decimal(10), "10");
    assert_eq!(decimal(1234567890), "1234567890");
    assert_eq!(decimal(usize::MAX), usize::MAX.to_string());
}

#[test]
fn patterns_are_written_out() {
    assert_eq!(one().to_text(), "[<fn>]");
    assert_eq!(Regex::<i32>::not_satisfy(|x| *x == 1).to_text(), "[^ <fn>]");
    assert_eq!(Regex::<i32>::any().to_text(), "[<fn>]");
    assert_eq!(Regex::concat(one(), one()).to_text(), "[<fn>][<fn>]");
    assert_eq!(Regex::or(one(), one()).to_text(), "[<fn>]|[<fn>]");
    assert_eq!(Regex::group(one()).to_text(), "([<fn>])");
    assert_eq!(Regex::non_capturing_group(one()).to_text(), "(?:[<fn>])");
    assert_eq!(Regex::named_group("n", one()).to_text(), "(?P<\"n\">[<fn>])");
    assert_eq!(Regex::zero_or_one(one(), true).to_text(), "[<fn>]?");
    assert_eq!(Regex::zero_or_one(one(), false).to_text(), "[<fn>]??");
    assert_eq!(Regex::repeat0(one(), true).to_text(), "[<fn>]*");
    assert_eq!(Regex::repeat0(one(), false).to_text(), "[<fn>]*?");
    assert_eq!(Regex::repeat1(one(), true).to_text(), "[<fn>]+");
    assert_eq!(Regex::repeat1(one(), false).to_text(), "[<fn>]+?");
    assert_eq!(Regex::repeat_n(one(), 12).to_text(), "[<fn>]{12}");
    assert_eq!(Regex::repeat_n_or_more(one(), 3, true).to_text(), "[<fn>]{3,}");
    assert_eq!(Regex::repeat_n_or_more(one(), 3, false).to_text(), "[<fn>]{3,}?");
    assert_eq!(Regex::repeat_min_max(one(), 3, 5, true).to_text(), "[<fn>]{3,5}");
    assert_eq!(Regex::repeat_min_max(one(), 3, 5, false).to_text(), "[<fn>]{3,5}?");
    assert_eq!(Regex::<i32>::begin().to_text(), "^");
    assert_eq!(Regex::<i32>::end().to_text(), "$");
}

#[test]
fn instructions_are_written_out() {
    let reg = Regex::or(Regex::named_group("n", one()), Regex::repeat0(Regex::group(one()), false));
    let compiled = CompiledRegexInVm::compile(&reg);
    let lines: Vec<String> = compiled.instructions().iter().map(|i| i.to_text()).collect();
    assert_eq!(
        lines,
        [
            "Split(1, 5)",
            "SaveOpenNamed(\"n\", 1)",
            "Check(\"#<fn>\")",
            "SaveCloseNamed(\"n\", 1)",
            "Jmp(10)",
            "Split(10, 6)",
            "SaveOpen(2)",
            "Check(\"#<fn>\")",
            "SaveClose(2)",
            "Jmp(5)",
            "Match"
        ]
    );
    assert!(compiled.is_full_match(&[1, 1]));
}

#[test]
fn builder_code_is_written_out() {
    let code = |text: &str| parse(text).unwrap().to_builder_code();
    assert_eq!(code("."), "vec_reg::Regex::any()");
    assert_eq!(code("[f]"), "vec_reg::Regex::satisfy(f)");
    assert_eq!(code("[^|x| *x == 1]"), "vec_reg::Regex::not_satisfy(|x| *x == 1)");
    assert_eq!(
        code("^[f][g]$"),
        "vec_reg::Regex::concat(vec_reg::Regex::concat(vec_reg::Regex::concat(\
         vec_reg::Regex::begin(), vec_reg::Regex::satisfy(f)), vec_reg::Regex::satisfy(g)), \
         vec_reg::Regex::end())"
    );
    assert_eq!(
        code("[f]|[g]"),
        "vec_reg::Regex::or(vec_reg::Regex::satisfy(f), vec_reg::Regex::satisfy(g))"
    );
    assert_eq!(code("([f])"), "vec_reg::Regex::group(vec_reg::Regex::satisfy(f))");
    assert_eq!(
        code("(?:[f])"),
        "vec_reg::Regex::non_capturing_group(vec_reg::Regex::satisfy(f))"
    );
    assert_eq!(
        code("(?P<\"n\">[f])"),
        "vec_reg::Regex::named_group(\"n\", vec_reg::Regex::satisfy(f))"
    );
    assert_eq!(code("[f]?"), "vec_reg::Regex::zero_or_one(vec_reg::Regex::satisfy(f), true)");
    assert_eq!(code("[f]*?"), "vec_reg::Regex::repeat0(vec_reg::Regex::satisfy(f), false)");
    assert_eq!(code("[f]+"), "vec_reg::Regex::repeat1(vec_reg::Regex::satisfy(f), true)");
    assert_eq!(code("[f]{3}"), "vec_reg::Regex::repeat_n(vec_reg::Regex::satisfy(f), 3)");
    assert_eq!(
        code("[f]{3,}?"),
        "vec_reg::Regex::repeat_n_or_more(vec_reg::Regex::satisfy(f), 3, false)"
    );
    assert_eq!(
        code("[f]{3,14}"),
        "vec_reg::Regex::repeat_min_max(vec_reg::Regex::satisfy(f), 3, 14, true)"
    );
}

#[test]
fn pattern_trees_are_written_out() {
    let reg = Regex::concat(
        Regex::or(one(), Regex::<i32>::not_satisfy(|x| *x == 1)),
        Regex::repeat_min_max(Regex::group(one()), 2, 3, false),
    );
    assert_eq!(
        reg.to_tree_text(),
        "Concat(Or(Satisfy(\"<fn>\"), NotSatisfy(\"<fn>\")), \
         RepeatMinMax(Group(Satisfy(\"<fn>\")), 2, Some(3), false))"
    );
    assert_eq!(
        Regex::repeat_n_or_more(Regex::non_capturing_group(one()), 1, true).to_tree_text(),
        "RepeatMinMax(NonCaptureGroup(Satisfy(\"<fn>\")), 1, None, true)"
    );
    assert_eq!(
        Regex::repeat0(Regex::zero_or_one(Regex::repeat1(one(), true), false), true).to_tree_text(),
        "Repeat0(ZeroOrOne(Repeat1(Satisfy(\"<fn>\"), true), false), true)"
    );
    assert_eq!(
        Regex::repeat_n(Regex::named_group("n", Regex::<i32>::begin()), 4).to_tree_text(),
        "RepeatN(NamedGroup(\"n\", Begin), 4)"
    );
    assert_eq!(Regex::<i32>::end().to_tree_text(), "End");
}
