use vec_reg::{CompiledRegex, Regex};

fn even() -> Regex<i32> {
    Regex::satisfy(|x: &i32| x % 2 == 0)
}

fn odd() -> Regex<i32> {
    Regex::satisfy(|x: &i32| x % 2 == 1)
}

fn samples() -> Vec<Vec<i32>> {
    vec![
        vec![],
        vec![1],
        vec![2],
        vec![2, 4, 6, 3, 5, 7],
        vec![1, 2, 4, 3],
        vec![2, 2, 1, 1, 2, 1],
        vec![1, 1, 1],
    ]
}

fn patterns() -> Vec<Regex<i32>> {
    vec![
        even(),
        Regex::concat(Regex::group(Regex::repeat1(even(), true)), Regex::group(Regex::repeat1(odd(), true))),
        Regex::repeat0(Regex::group(Regex::or(Regex::group(even()), odd())), false),
        Regex::concat(Regex::begin(), Regex::repeat_min_max(Regex::group(odd()), 1, 2, true)),
        Regex::concat(Regex::repeat_n(Regex::group(even()), 2), Regex::end()),
        Regex::zero_or_one(Regex::named_group("x", odd()), true),
    ]
}

#[test]
fn a_full_match_is_a_match() {
    for reg in patterns() {
        let reg = reg.compile();
        for xs in samples() {
            if reg.is_full_match(&xs) {
                assert!(reg.is_match(&xs));
            }
            assert_eq!(reg.is_match(&xs), reg.captures(&xs).is_some());
        }
    }
}

#[test]
fn group_spans_are_in_order_inside_the_whole_match() {
    for reg in patterns() {
        let reg = reg.compile();
        for xs in samples() {
            if let Some(captures) = reg.captures(&xs) {
                let whole = captures.get(0).unwrap();
                assert!(whole.start() <= whole.end());
                assert!(whole.end() <= xs.len());
                for g in 1..captures.len() {
                    if let Some(m) = captures.get(g) {
                        assert!(m.start() <= m.end());
                        assert!(whole.start() <= m.start());
                        assert!(m.end() <= whole.end());
                        assert_eq!(m.values(), &xs[m.start()..m.end()]);
                    }
                }
                assert!(captures.get(captures.len()).is_none());
            }
        }
    }
}

#[test]
fn the_match_that_is_found_starts_first() {
    let reg = Regex::concat(odd(), Regex::repeat0(even(), true)).compile();
    let captures = reg.captures(&[2, 2, 1, 2, 2, 1, 2]).unwrap();
    assert_eq!(captures.get(0).unwrap().range(), 2..5);
    let reg = Regex::or(Regex::concat(even(), Regex::concat(odd(), odd())), odd()).compile();
    let captures = reg.captures(&[2, 1, 1, 1]).unwrap();
    assert_eq!(captures.get(0).unwrap().range(), 0..3);
    let reg = Regex::or(
        Regex::concat(Regex::is(1), Regex::concat(Regex::repeat1(Regex::is(2), true), Regex::is(3))),
        Regex::is(2),
    )
    .compile();
    let captures = reg.captures(&[1, 2, 2, 3]).unwrap();
    assert_eq!(captures.get(0).unwrap().range(), 0..4);
    let captures = reg.captures(&[1, 2, 2, 4]).unwrap();
    assert_eq!(captures.get(0).unwrap().range(), 1..2);
}

#[test]
fn seq_round_trip() {
    let values = [3, 1, 4, 1, 5];
    let reg = Regex::seq(&values).compile();
    let captures = reg.captures(&values).unwrap();
    assert_eq!(captures.len(), 1);
    let whole = captures.get(0).unwrap();
    assert_eq!(whole.range(), 0..5);
    assert_eq!(whole.values(), &values);
    assert!(captures.get(1).is_none());
    let one = [9];
    let captures = Regex::seq(&one).compile().captures(&one).unwrap();
    assert_eq!(captures.get(0).unwrap().range(), 0..1);
}

#[test]
fn repeat_n_behaves_as_its_copies_concatenated() {
    let body = || Regex::group(Regex::or(even(), Regex::concat(odd(), odd())));
    let repeated = Regex::repeat_n(body(), 3).compile();
    let written_out = Regex::concat(Regex::concat(body(), body()), body()).compile();
    for xs in samples() {
        assert_eq!(repeated.is_full_match(&xs), written_out.is_full_match(&xs));
        assert_eq!(repeated.is_match(&xs), written_out.is_match(&xs));
        let a = repeated.captures(&xs);
        let b = written_out.captures(&xs);
        assert_eq!(a.is_some(), b.is_some());
        if let (Some(a), Some(b)) = (a, b) {
            assert_eq!(a.len(), b.len());
            for g in 0..a.len() {
                assert_eq!(a.get(g).map(|m| m.range()), b.get(g).map(|m| m.range()));
            }
        }
    }
}

#[test]
fn the_empty_pattern_matches_the_empty_input() {
    let empty = Regex::repeat_n(even(), 0).compile();
    assert!(empty.is_full_match(&[]));
    assert!(!empty.is_full_match(&[2]));
    assert!(empty.is_match(&[2]));
    assert_eq!(empty.captures(&[2]).unwrap().get(0).unwrap().range(), 0..0);
    assert!(!even().compile().is_full_match(&[]));
    assert!(!even().compile().is_match(&[]));
    assert!(Regex::repeat0(even(), true).compile().is_full_match(&[]));
}

#[test]
fn anchors_hold_only_at_their_place() {
    let begin_inside = Regex::concat(even(), Regex::concat(Regex::begin(), even())).compile();
    assert!(!begin_inside.is_match(&[2, 2]));
    let end_inside = Regex::concat(even(), Regex::concat(Regex::end(), even())).compile();
    assert!(!end_inside.is_match(&[2, 2]));
    let anchored = Regex::concat(Regex::begin(), Regex::concat(even(), Regex::end())).compile();
    assert!(anchored.is_match(&[2]));
    assert!(!anchored.is_match(&[2, 2]));
    assert!(!anchored.is_match(&[1, 2]));
    assert!(!anchored.is_match(&[2, 1]));
    let begin = Regex::<i32>::begin().compile();
    assert_eq!(begin.captures(&[1, 1]).unwrap().get(0).unwrap().range(), 0..0);
    let end = Regex::<i32>::end().compile();
    assert_eq!(end.captures(&[1, 1]).unwrap().get(0).unwrap().range(), 2..2);
}

#[test]
fn zero_to_zero_repetitions_match_the_empty_part_only() {
    for greedy in [true, false] {
        let reg = Regex::repeat_min_max(even(), 0, 0, greedy).compile();
        assert!(reg.is_full_match(&[]));
        assert!(!reg.is_full_match(&[2]));
        assert_eq!(reg.captures(&[2, 2]).unwrap().get(0).unwrap().range(), 0..0);
    }
}

#[test]
fn greedy_takes_more_and_lazy_takes_less() {
    let xs = [2, 2, 2];
    let greedy = Regex::concat(
        Regex::group(Regex::repeat0(even(), true)),
        Regex::group(Regex::repeat0(even(), true)),
    )
    .compile();
    let captures = greedy.captures(&xs).unwrap();
    assert_eq!(captures.get(1).unwrap().range(), 0..3);
    assert_eq!(captures.get(2).unwrap().range(), 3..3);
    let lazy = Regex::concat(
        Regex::group(Regex::repeat0(even(), false)),
        Regex::concat(Regex::group(Regex::repeat0(even(), true)), Regex::end()),
    )
    .compile();
    let captures = lazy.captures(&xs).unwrap();
    assert_eq!(captures.get(1).unwrap().range(), 0..0);
    assert_eq!(captures.get(2).unwrap().range(), 0..3);
    let optional = Regex::concat(
        Regex::group(Regex::zero_or_one(even(), false)),
        Regex::group(Regex::zero_or_one(even(), true)),
    )
    .compile();
    let captures = optional.captures(&xs).unwrap();
    assert_eq!(captures.get(1).unwrap().range(), 0..0);
    assert_eq!(captures.get(2).unwrap().range(), 0..1);
}

#[test]
fn alternation_prefers_the_left() {
    let reg = Regex::or(Regex::group(even()), Regex::group(Regex::concat(even(), even()))).compile();
    let captures = reg.captures(&[2, 2]).unwrap();
    assert_eq!(captures.get(0).unwrap().range(), 0..1);
    assert_eq!(captures.get(1).unwrap().range(), 0..1);
    assert!(captures.get(2).is_none());
    assert_eq!(captures.len(), 3);
}

#[test]
fn a_group_in_a_loop_keeps_its_last_span() {
    let reg = Regex::repeat1(Regex::named_group("last", even()), true).compile();
    let captures = reg.captures(&[2, 4, 6]).unwrap();
    assert_eq!(captures.get(1).unwrap().range(), 2..3);
    assert_eq!(captures.name("last").unwrap().values(), &[6]);
    assert!(captures.name("first").is_none());
}

#[test]
fn the_same_name_on_two_groups_finds_the_one_bound_last() {
    let reg = Regex::or(
        Regex::concat(Regex::named_group("n", even()), Regex::named_group("n", odd())),
        Regex::named_group("n", odd()),
    )
    .compile();
    let captures = reg.captures(&[2, 1]).unwrap();
    assert_eq!(captures.name("n").unwrap().range(), 1..2);
    let captures = reg.captures(&[1]).unwrap();
    assert_eq!(captures.name("n").unwrap().range(), 0..1);
    assert_eq!(captures.len(), 4);
}

#[test]
fn greedy_prefers_more_turns_and_the_left_way_not_the_longest_span() {
    let one_or_one_two = || Regex::or(Regex::is(1), Regex::concat(Regex::is(1), Regex::is(2)));
    let tail = || Regex::or(Regex::is(3), Regex::concat(Regex::is(2), Regex::is(3)));
    let greedy = Regex::concat(
        Regex::group(Regex::repeat0(one_or_one_two(), true)),
        Regex::group(tail()),
    )
    .compile();
    let captures = greedy.captures(&[1, 2, 3]).unwrap();
    assert_eq!(captures.get(0).unwrap().range(), 0..3);
    assert_eq!(captures.get(1).unwrap().range(), 0..1);
    assert_eq!(captures.get(2).unwrap().range(), 1..3);
    let lazy = Regex::concat(
        Regex::group(Regex::repeat0(one_or_one_two(), false)),
        Regex::concat(Regex::group(Regex::repeat0(Regex::is(2), true)), Regex::is(3)),
    )
    .compile();
    let captures = lazy.captures(&[1, 2, 3]).unwrap();
    assert_eq!(captures.get(1).unwrap().range(), 0..1);
    assert_eq!(captures.get(2).unwrap().range(), 1..2);
}

#[test]
fn a_greedy_repetition_of_one_predicate_takes_the_whole_run() {
    let xs = [2, 4, 1, 2];
    let greedy = Regex::group(Regex::repeat0(even(), true)).compile();
    let captures = greedy.captures(&xs).unwrap();
    assert_eq!(captures.get(0).unwrap().range(), 0..2);
    assert_eq!(captures.get(1).unwrap().range(), 0..2);
    let lazy = Regex::group(Regex::repeat0(even(), false)).compile();
    let captures = lazy.captures(&xs).unwrap();
    assert_eq!(captures.get(0).unwrap().range(), 0..0);
    assert_eq!(captures.get(1).unwrap().range(), 0..0);
    let captures = greedy.captures(&[1, 2]).unwrap();
    assert_eq!(captures.get(1).unwrap().range(), 0..0);
}

#[test]
fn a_group_that_does_not_capture_has_no_number() {
    let reg = Regex::concat(
        Regex::non_capturing_group(Regex::repeat1(even(), true)),
        Regex::group(Regex::repeat1(odd(), true)),
    )
    .compile();
    let captures = reg.captures(&[2, 4, 6, 3, 5, 7]).unwrap();
    assert_eq!(captures.len(), 2);
    assert_eq!(captures.get(1).unwrap().range(), 3..6);
    assert!(captures.get(2).is_none());
}

#[test]
fn anchored_and_unanchored_star() {
    let ones = || Regex::group(Regex::repeat0(Regex::is(1), true));
    let anchored = Regex::concat(Regex::begin(), Regex::concat(ones(), Regex::end())).compile();
    let captures = anchored.captures(&[1, 1]).unwrap();
    assert_eq!(captures.get(0).unwrap().range(), 0..2);
    assert_eq!(captures.get(1).unwrap().range(), 0..2);
    assert!(anchored.is_full_match(&[1, 1]));
    let free = ones().compile();
    let captures = free.captures(&[1, 1]).unwrap();
    assert_eq!(captures.get(1).unwrap().range(), 0..2);
    let inside = Regex::concat(
        Regex::group(Regex::repeat0(Regex::is(1), true)),
        Regex::concat(Regex::begin(), Regex::repeat0(Regex::is(1), true)),
    )
    .compile();
    let captures = inside.captures(&[1, 1]).unwrap();
    assert_eq!(captures.get(1).unwrap().range(), 0..0);
    assert_eq!(captures.get(0).unwrap().range(), 0..2);
}
