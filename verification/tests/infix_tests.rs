use solver::{infix_group, ProgErr, Programs};

fn test_rpn_infix(rpn: &str, exp_infix: &str) {
    let programs = Programs::from_rpn(rpn);

    let num_count = programs
        .instructions(0)
        .iter()
        .filter(|i| i.is_number())
        .count();

    let numbers: Vec<u8> = (0..num_count).map(|i| i as u8).collect();

    test_program_infix(&programs, exp_infix, &numbers);
}

fn test_rpn_infix_and_result(
    rpn: &str,
    exp_infix: &str,
    numbers: &[u8],
    exp_ans: Result<u32, ProgErr>,
) {
    let programs = Programs::from_rpn(rpn);

    test_program_infix(&programs, exp_infix, numbers);

    let ans = programs.run(0, numbers);

    assert_eq!(exp_ans, ans);
}

fn test_program_infix(programs: &Programs, exp_infix: &str, numbers: &[u8]) {
    let infix = infix_group(programs.instructions(0));

    println!(
        "RPN: {}, infix: {}",
        programs.rpn(0, numbers, false),
        infix.colour(numbers, false)
    );

    assert_eq!(exp_infix, infix.colour(numbers, false));
}

#[test]
fn simplify_tests() {
    test_rpn_infix("0 1 2 3 + + +", "0 + 1 + 2 + 3");
    test_rpn_infix("0 1 2 3 - - -", "0 - (1 - (2 - 3))");
    test_rpn_infix("0 1 2 3 * * *", "0 \u{d7} 1 \u{d7} 2 \u{d7} 3");
    test_rpn_infix("0 1 2 3 / / /", "0 / (1 / (2 / 3))");

    test_rpn_infix("0 1 - 2 - 3 -", "0 - 1 - 2 - 3");
    test_rpn_infix("0 1 / 2 / 3 /", "0 / 1 / 2 / 3");

    test_rpn_infix("0 1 2 + -", "0 - (1 + 2)");
    test_rpn_infix("0 1 - 2 +", "0 - 1 + 2");
    test_rpn_infix("0 1 2 - +", "0 + 1 - 2");
    test_rpn_infix("0 1 + 2 -", "0 + 1 - 2");

    test_rpn_infix("0 1 2 3 + + -", "0 - (1 + 2 + 3)");
    test_rpn_infix("0 1 2 3 + - +", "0 + 1 - (2 + 3)");
    test_rpn_infix("0 1 2 3 + - -", "0 - (1 - (2 + 3))");
    test_rpn_infix("0 1 2 3 - + +", "0 + 1 + 2 - 3");
    test_rpn_infix("0 1 2 3 - + -", "0 - (1 + 2 - 3)");
    test_rpn_infix("0 1 2 3 - - +", "0 + 1 - (2 - 3)");

    test_rpn_infix("0 1 2 + 3 + +", "0 + 1 + 2 + 3");
    test_rpn_infix("0 1 2 + 3 + -", "0 - (1 + 2 + 3)");
    test_rpn_infix("0 1 2 + 3 - +", "0 + 1 + 2 - 3");
    test_rpn_infix("0 1 2 + 3 - -", "0 - (1 + 2 - 3)");
    test_rpn_infix("0 1 2 - 3 + +", "0 + 1 - 2 + 3");
    test_rpn_infix("0 1 2 - 3 + -", "0 - (1 - 2 + 3)");
    test_rpn_infix("0 1 2 - 3 - +", "0 + 1 - 2 - 3");
    test_rpn_infix("0 1 2 - 3 - -", "0 - (1 - 2 - 3)");

    test_rpn_infix("0 1 2 + + 3 +", "0 + 1 + 2 + 3");
    test_rpn_infix("0 1 2 + + 3 -", "0 + 1 + 2 - 3");
    test_rpn_infix("0 1 2 + - 3 +", "0 - (1 + 2) + 3");
    test_rpn_infix("0 1 2 + - 3 -", "0 - (1 + 2) - 3");
    test_rpn_infix("0 1 2 - + 3 +", "0 + 1 - 2 + 3");
    test_rpn_infix("0 1 2 - + 3 -", "0 + 1 - 2 - 3");
    test_rpn_infix("0 1 2 - - 3 +", "0 - (1 - 2) + 3");
    test_rpn_infix("0 1 2 - - 3 -", "0 - (1 - 2) - 3");

    test_rpn_infix("0 1 + 2 + 3 +", "0 + 1 + 2 + 3");
    test_rpn_infix("0 1 + 2 + 3 -", "0 + 1 + 2 - 3");
    test_rpn_infix("0 1 + 2 - 3 +", "0 + 1 - 2 + 3");
    test_rpn_infix("0 1 + 2 - 3 -", "0 + 1 - 2 - 3");
    test_rpn_infix("0 1 - 2 + 3 +", "0 - 1 + 2 + 3");
    test_rpn_infix("0 1 - 2 + 3 -", "0 - 1 + 2 - 3");
    test_rpn_infix("0 1 - 2 - 3 +", "0 - 1 - 2 + 3");
    test_rpn_infix("0 1 - 2 - 3 -", "0 - 1 - 2 - 3");
}

#[test]
fn group_tests() {
    // 1 + (2 - ((0 + 3) / 4)) => 75 + (50 - ((100 + 25) / 5))
    test_rpn_infix_and_result(
        "1 2 0 3 + 4 / - +",
        "75 + 50 - ((100 + 25) / 5)",
        &[100, 75, 50, 25, 5],
        Ok(100),
    );
    // 0 * (((3 * 4) - 5) / (1 + 2)) => 100 * (((25 * 10) - 5) / (75 + 50)) = 196
    test_rpn_infix_and_result(
        "0 3 4 * 5 - 1 2 + / *",
        "100 \u{d7} ((25 \u{d7} 10) - 5) / (75 + 50)",
        &[100, 75, 50, 25, 10, 5],
        Err(ProgErr::NonInteger),
    );
    // 0 * ((3 * 4) - 5) / (1 + 2) => 100 * ((25 * 10) - 5) / (75 + 50) = 196
    test_rpn_infix_and_result(
        "0 3 4 * 5 - * 1 2 + /",
        "100 \u{d7} ((25 \u{d7} 10) - 5) / (75 + 50)",
        &[100, 75, 50, 25, 10, 5],
        Ok(196),
    );
}
