use vec_reg::{CompiledRegex, Regex};

#[test]
fn regex_match_is() {
    let reg = Regex::is(1).compile();
    assert!(reg.is_full_match(&[1]));
}

#[test]
fn regex_match_or() {
    let reg = Regex::or(Regex::is(1), Regex::is(2)).compile();
    assert!(reg.is_full_match(&[1]));
    assert!(reg.is_full_match(&[2]));
}

#[test]
fn regex_match_concat() {
    let reg = Regex::concat(Regex::is(1), Regex::is(2)).compile();
    assert!(reg.is_full_match(&[1, 2]));
}

#[test]
fn regex_match_seq() {
    let reg = Regex::seq(&[1, 2]).compile();
    assert!(reg.is_full_match(&[1, 2]));
}

#[test]
fn match_star() {
    let reg = Regex::star(Regex::is(1)).compile();
    assert!(reg.is_full_match(&[]));
    assert!(reg.is_full_match(&[1]));
    assert!(reg.is_full_match(&[1, 1]));
}

#[test]
fn match_some() {
    let reg = Regex::some(Regex::is(1)).compile();
    assert!(!reg.is_full_match(&[]));
    assert!(reg.is_full_match(&[1]));
    assert!(reg.is_full_match(&[1, 1]));
    assert!(!reg.is_full_match(&[1, 2]));
}

#[test]
fn match_lone() {
    let reg = Regex::lone(Regex::is(1)).compile();
    assert!(reg.is_full_match(&[]));
    assert!(reg.is_full_match(&[1]));
    assert!(!reg.is_full_match(&[1, 1]));
}

#[test]
fn regex_match_statisfy() {
    let reg = Regex::satisfy(|v| v % 2 == 0).compile();
    assert!(reg.is_full_match(&[0]));
    assert!(!reg.is_full_match(&[1]));
    assert!(reg.is_full_match(&[2]));
    assert!(!reg.is_full_match(&[3]));
}

#[test]
fn regex_match_any() {
    let reg = Regex::any().compile();
    assert!(reg.is_full_match(&[1]));
    assert!(reg.is_full_match(&[42]));
}

#[test]
fn regex_match_complex() {
    let is_fizz = |x: &i32| x % 3 == 0;
    let is_buzz = |x: &i32| x % 5 == 0;
    let is_fizz_buzz = |x: &i32| x % 15 == 0;
    let reg = Regex::concat(
        Regex::satisfy(is_fizz),
        Regex::some(Regex::concat(
            Regex::satisfy(is_buzz),
            Regex::satisfy(is_fizz_buzz),
        )),
    )
    .compile();
    assert!(!reg.is_full_match(&vec![1, 2, 3]));
    assert!(reg.is_full_match(&vec![3, 5, 15]));
    assert!(reg.is_full_match(&vec![6, 10, 15, 10, 30]));
}
