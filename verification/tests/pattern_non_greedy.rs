use vec_reg::{vec_reg, CompiledRegex, Predicates};

fn table() -> Predicates<i32> {
    let mut table = Predicates::new();
    table.define("one", |x: &i32| *x == 1);
    table
}

#[test]
fn non_greedy_non_greedy_repeat0() {
    let reg = vec_reg("([one]*?)([one]*)", &table()).unwrap().compile();
    let captures = reg.captures(&[1, 1]);
    assert!(captures.is_some());
    assert_eq!(captures.as_ref().unwrap().get(1).unwrap().range(), 0..0);
    assert_eq!(captures.as_ref().unwrap().get(2).unwrap().range(), 0..2);
}

#[test]
fn non_greedy_non_greedy_repeat1() {
    let reg = vec_reg("([one]+?)([one]*)", &table()).unwrap().compile();
    let captures = reg.captures(&[1, 1]);
    assert!(captures.is_some());
    assert_eq!(captures.as_ref().unwrap().get(1).unwrap().range(), 0..1);
    assert_eq!(captures.as_ref().unwrap().get(2).unwrap().range(), 1..2);
}

#[test]
fn non_greedy_non_greedy_repeat_min_max() {
    let reg = vec_reg("([one]{1,2}?)([one]*)", &table()).unwrap().compile();
    let captures = reg.captures(&[1, 1]);
    assert!(captures.is_some());
    assert_eq!(captures.as_ref().unwrap().get(1).unwrap().range(), 0..1);
    assert_eq!(captures.as_ref().unwrap().get(2).unwrap().range(), 1..2);
}

#[test]
fn non_greedy_non_greedy_repeat_n_or_more() {
    let reg = vec_reg("([one]{1,}?)([one]*)", &table()).unwrap().compile();
    let captures = reg.captures(&[1, 1]);
    assert!(captures.is_some());
    assert_eq!(captures.as_ref().unwrap().get(1).unwrap().range(), 0..1);
    assert_eq!(captures.as_ref().unwrap().get(2).unwrap().range(), 1..2);
}

#[test]
fn non_greedy_repeat_n() {
    let reg = vec_reg("([one]{1}?)([one]*)", &table()).unwrap().compile();
    let captures = reg.captures(&[1, 1]);
    assert!(captures.is_some());
    assert_eq!(captures.as_ref().unwrap().get(1).unwrap().range(), 0..1);
    assert_eq!(captures.as_ref().unwrap().get(2).unwrap().range(), 1..2);
}
