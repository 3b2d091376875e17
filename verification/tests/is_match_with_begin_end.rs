use vec_reg::{vec_reg, CompiledRegex, Predicates};

fn table() -> Predicates<i32> {
    let mut table = Predicates::new();
    table.define("is_fizz", |x: &i32| x % 3 == 0);
    table.define("is_buzz", |x: &i32| x % 5 == 0);
    table.define("|x| x % 15 == 0", |x: &i32| x % 15 == 0);
    table.define("is_even", |x: &i32| x % 2 == 0);
    table.define("is_odd", |x: &i32| x % 2 == 1);
    table.define("|x| x % 2 == 0", |x: &i32| x % 2 == 0);
    table
}

#[test]
fn is_match_with_begin_end_match_with_macro() {
    let reg = vec_reg("^[is_fizz]([is_buzz][|x| x % 15 == 0])+$", &table())
        .unwrap()
        .compile();
    assert!(!reg.is_match(&[1, 2, 3]));
    assert!(reg.is_match(&[3, 5, 15]));
    assert!(reg.is_match(&[6, 10, 15, 10, 30]));
}

#[test]
fn is_match_with_begin_end_match_repeat_n_macro() {
    let table = table();
    let reg1 = vec_reg("^[is_even]{2}$", &table).unwrap().compile();
    let reg2 = vec_reg("^[is_even]{2,}$", &table).unwrap().compile();
    let reg3 = vec_reg("^[is_even]{2,3}$", &table).unwrap().compile();
    let reg4 = vec_reg("^([is_even]|[is_odd]){2,3}$", &table).unwrap().compile();

    assert!(!reg1.is_match(&[2]));
    assert!(reg1.is_match(&[2, 4]));
    assert!(!reg1.is_match(&[2, 4, 6]));

    assert!(!reg2.is_match(&[2]));
    assert!(reg2.is_match(&[2, 4]));
    assert!(reg2.is_match(&[2, 4, 6]));

    assert!(!reg3.is_match(&[2]));
    assert!(reg3.is_match(&[2, 4]));
    assert!(reg3.is_match(&[2, 4, 6]));
    assert!(!reg3.is_match(&[2, 4, 6, 8]));

    assert!(!reg4.is_match(&[2]));
    assert!(reg4.is_match(&[1, 2]));
    assert!(reg4.is_match(&[1, 2, 3]));
    assert!(!reg4.is_match(&[1, 2, 3, 4]));
}

#[test]
fn is_match_with_begin_end_match_inverse_macro() {
    let table = table();
    let reg1 = vec_reg("[^is_even]", &table).unwrap().compile();
    let reg2 = vec_reg("[^|x| x % 2 == 0]", &table).unwrap().compile();
    assert!(reg1.is_match(&[1]));
    assert!(reg2.is_match(&[1]));
}

#[test]
fn test_submatches() {
    let reg = vec_reg("([is_even]+)([is_odd]+)", &table()).unwrap().compile();
    assert!(reg.is_match(&[2, 4, 6, 3, 5, 7]))
}
