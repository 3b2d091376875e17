use vec_reg::sample::{build_target_vec_reg_array_with_size, build_target_vec_reg_with_size};
use vec_reg::CompiledRegex;

#[test]
fn the_sample_input_is_ones() {
    assert_eq!(build_target_vec_reg_array_with_size(0), Vec::<u32>::new());
    assert_eq!(build_target_vec_reg_array_with_size(3), [1, 1, 1]);
}

#[test]
fn the_sample_pattern_is_optional_ones_then_ones() {
    assert_eq!(build_target_vec_reg_with_size(1).to_text(), "[<fn>]?[<fn>]");
    assert_eq!(
        build_target_vec_reg_with_size(3).to_text(),
        "[<fn>]?[<fn>]?[<fn>]?[<fn>][<fn>][<fn>]"
    );
}

#[test]
fn the_sample_pattern_matches_the_sample_input() {
    for n in [1, 2, 5, 30] {
        let reg = build_target_vec_reg_with_size(n).compile();
        assert!(reg.is_full_match(&build_target_vec_reg_array_with_size(n)));
        assert!(reg.is_full_match(&build_target_vec_reg_array_with_size(2 * n)));
        assert!(!reg.is_full_match(&build_target_vec_reg_array_with_size(n - 1)));
        assert!(!reg.is_full_match(&build_target_vec_reg_array_with_size(2 * n + 1)));
    }
}
