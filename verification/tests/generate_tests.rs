use solver::{op_combs, op_counts, ProgOp};

#[test]
fn generate_test_op_counts() {
    let counts = op_counts(4);

    let expected: Vec<Vec<u8>> = vec![
        vec![0, 0, 3],
        vec![0, 1, 2],
        vec![0, 2, 1],
        vec![1, 0, 2],
        vec![1, 1, 1],
    ];

    assert_eq!(expected, counts);
}

#[test]
fn generate_test_op_combs() {
    let combs = op_combs(3, &vec![ProgOp::op_add(), ProgOp::op_sub()]);

    let expected = vec![
        vec![ProgOp::op_add(), ProgOp::op_add()],
        vec![ProgOp::op_add(), ProgOp::op_sub()],
        vec![ProgOp::op_sub(), ProgOp::op_add()],
        vec![ProgOp::op_sub(), ProgOp::op_sub()],
    ];

    assert_eq!(expected, combs);
}

#[test]
fn generate_counts_match_generation() {
    // Two operand slots with the full alphabet: two single-number
    // programs and, per ordered pair of slots, one slot distribution
    // and four operator choices.
    let programs = solver::Programs::new(2, true);
    assert_eq!(10, programs.len());

    let calced = solver::calc_num_programs(2, true, &solver::programs::default_operators());
    assert_eq!(10, calced);

    let calced_estimate = solver::calc_num_programs(2, false, &solver::programs::default_operators());
    assert_eq!(10 / 7, calced_estimate);

    let checked = solver::try_calc_num_programs(2, true, &solver::programs::default_operators());
    assert_eq!(Some(10), checked);
}
