use solver::{
    card_combinations, coverage, duplicated, file_names, get_default_cards, get_special_cards,
    solution_counts, solution_map, CanonicalSeenSet, DupReason, ProgErr, Programs, Stats,
};

#[test]
fn rpn_round_trip() {
    // Parsing a textual RPN representation and re-rendering it
    // reproduces the original token sequence when each slot maps to
    // its own index.
    for (text, slots) in [
        ("0 1 +", 2usize),
        ("0 1 *", 2),
        ("0 1 - 2 -", 3),
        ("0 1 2 3 + / -", 4),
        ("0 3 4 * 5 - * 1 2 + /", 6),
        ("5 4 3 2 1 0 + + + + +", 6),
    ] {
        let programs = Programs::from_rpn(text);
        let identity: Vec<u8> = (0..slots as u8).collect();
        assert_eq!(text, programs.rpn(0, &identity, false));
    }
}

#[test]
fn commutative_pair_filtering() {
    // Commutative pairs evaluate identically but only one survives
    // filtering.
    let first = Programs::from_rpn("0 1 +");
    let second = Programs::from_rpn("1 0 +");
    let numbers: [u8; 2] = [10, 20];

    assert_eq!(Ok(30), first.run(0, &numbers));
    assert_eq!(Ok(30), second.run(0, &numbers));

    assert_eq!("10 + 20", first.infix(0, &numbers, false));
    assert_eq!("20 + 10", second.infix(0, &numbers, false));

    let mut stack = Vec::new();
    let mut set = CanonicalSeenSet::new();
    assert_eq!(
        DupReason::NotDup,
        duplicated(first.instructions(0), &mut stack, &mut set)
    );
    let mut set2 = CanonicalSeenSet::new();
    assert_eq!(
        DupReason::TermOrder,
        duplicated(second.instructions(0), &mut stack, &mut set2)
    );
}

#[test]
fn evaluation_edge_cases() {
    let sub = Programs::from_rpn("0 1 -");
    assert_eq!(Err(ProgErr::Zero), sub.run(0, &[3, 3]));

    let div = Programs::from_rpn("0 1 /");
    assert_eq!(Err(ProgErr::Div1), div.run(0, &[3, 1]));
    assert_eq!(Err(ProgErr::NonInteger), div.run(0, &[13, 3]));
}

#[test]
fn grouping_distinguishes_evaluation_order() {
    // Two programs can render to the same infix text yet evaluate in a
    // different order, so they must never collapse into one canonical
    // form.
    let first = Programs::from_rpn("0 3 4 * 5 - 1 2 + / *");
    let second = Programs::from_rpn("0 3 4 * 5 - * 1 2 + /");
    let numbers: [u8; 6] = [100, 75, 50, 25, 10, 10];

    assert_eq!(
        first.infix(0, &numbers, false),
        second.infix(0, &numbers, false)
    );
    assert_eq!(Err(ProgErr::NonInteger), first.run(0, &numbers));
    assert_eq!(Ok(192), second.run(0, &numbers));

    let mut stack = Vec::new();
    let mut set = CanonicalSeenSet::new();
    assert_eq!(
        DupReason::NotDup,
        duplicated(first.instructions(0), &mut stack, &mut set)
    );
    // The second program's canonical form differs, so it is not an
    // infix duplicate of the first even against the same seen-set.
    assert_eq!(
        DupReason::NotDup,
        duplicated(second.instructions(0), &mut stack, &mut set)
    );
}

#[test]
fn classification_idempotent() {
    // Classifying the same instruction range twice against two freshly
    // created, empty seen-sets yields the same verdict.
    for text in ["0 1 +", "1 0 +", "0 1 * 2 / 3 + 4 -", "0 1 - 2 3 + -"] {
        let programs = Programs::from_rpn(text);
        let mut stack = Vec::new();
        let mut set1 = CanonicalSeenSet::new();
        let mut set2 = CanonicalSeenSet::new();
        let first = duplicated(programs.instructions(0), &mut stack, &mut set1);
        let second = duplicated(programs.instructions(0), &mut stack, &mut set2);
        assert_eq!(first, second);
    }
}

#[test]
fn run_all_tallies() {
    let programs = Programs::new(2, true);
    let results = programs.run_all(&[100, 4]);

    // Ten programs: the single numbers 100 (in range) and 4 (under),
    // and the eight two-number programs: both orders of +, -, x and /.
    // 104 twice and 400 twice land in range beside the bare 100; the
    // bare 4, 96 and 25 fall under; 4 - 100 is negative and 4 / 100
    // non-integer.
    assert_eq!(5, results.solutions.len());
    assert_eq!(3, results.under_range);
    assert_eq!(0, results.above_range);
    assert_eq!(1, results.negative);
    assert_eq!(1, results.non_integer);
    assert_eq!(0, results.zero);
    assert_eq!(0, results.div_zero);
    assert_eq!(0, results.mult_by_1);
    assert_eq!(0, results.div_by_1);

    let solutions = programs.run_all_target(104, &[100, 4]);
    assert_eq!(2, solutions.len());
    assert_eq!(104, solutions[0].result);
}

#[test]
fn solution_artifacts() {
    let programs = Programs::new(2, true);
    let results = programs.run_all(&[100, 4]);

    let counts = solution_counts(&results.solutions);
    assert_eq!(900, counts.len());
    assert_eq!(2, counts[4]); // target 104
    assert_eq!(2, counts[300]); // target 400
    assert_eq!(1, counts[0]); // target 100, the single big card
    assert_eq!(0, counts[1]);

    let map = solution_map(&counts);
    assert_eq!(900, map.chars().count());
    assert_eq!(Some('#'), map.chars().nth(4));
    assert_eq!(Some('.'), map.chars().nth(1));

    assert_eq!(3, coverage(&counts));
}

#[test]
fn file_name_stems() {
    let (file, eqn) = file_names(&[100, 75, 50, 25, 10, 10]);
    assert_eq!("100-75-50-25-10-10.txt", file);
    assert_eq!("100-75-50-25-10-10-eqn.txt", eqn);
}

#[test]
fn card_pools() {
    let default = get_default_cards();
    assert_eq!(24, default.len());
    assert_eq!(100, default[0]);
    assert_eq!(1, default[23]);

    let special = get_special_cards();
    assert_eq!(24, special.len());
    assert_eq!(87, special[0]);
}

#[test]
fn card_selections_distinct() {
    // A pool with repeats: selections equal in value are kept once.
    let pool = vec![5u8, 5, 3, 2];
    let combos = card_combinations(&pool, 2);
    // Position pairs give [5,5] [5,3] [5,2] [5,3] [5,2] [3,2]; value
    // duplicates collapse.
    assert_eq!(4, combos.len());
    assert!(combos.iter().any(|c| c == &vec![5u8, 5]));
    assert!(combos.iter().any(|c| c == &vec![5u8, 3]));
    assert!(combos.iter().any(|c| c == &vec![5u8, 2]));
    assert!(combos.iter().any(|c| c == &vec![3u8, 2]));
}

#[test]
fn stats_update_tallies() {
    let mut stats = Stats::new();
    let mut reached = vec![false; 900];
    reached[0] = true;
    reached[10] = true;
    stats.update(&[1, 2, 3, 4, 5, 6], 2, &reached);

    assert_eq!(1, stats.files);
    assert_eq!(2, stats.tot_sols);
    assert_eq!(1, stats.sol_count[0]);
    assert_eq!(1, stats.sol_count[10]);
    assert_eq!(0, stats.sol_count[1]);
    assert_eq!(1, stats.sol_25_bucket[0]);
    assert_eq!(900, stats.tot_combs);
    assert_eq!(2, stats.tot_combs_reached);
    assert_eq!(2, stats.min_sol_cnt);
    assert_eq!(2, stats.max_sol_cnt);

    let reached2 = vec![false; 900];
    stats.update(&[7, 8, 9, 10, 1, 2], 0, &reached2);
    assert_eq!(2, stats.files);
    assert_eq!(0, stats.min_sol_cnt);
    assert_eq!(2, stats.max_sol_cnt);
}

#[test]
fn solutions_sorted_for_report() {
    let programs = Programs::new(2, true);
    let results = programs.run_all(&[100, 4]);
    let sorted = solver::sort_solutions(results.solutions);

    assert_eq!(5, sorted.len());
    let keys: Vec<(u32, usize, usize)> = sorted
        .iter()
        .map(|s| (s.result, s.length, s.program))
        .collect();
    let mut expected = keys.clone();
    expected.sort();
    assert_eq!(expected, keys);
    assert_eq!(100, sorted[0].result);
    assert_eq!(400, sorted[4].result);
}

#[test]
fn steps_trace() {
    let programs = Programs::from_rpn("0 1 + 2 *");
    let steps = programs.steps(0, &[2, 3, 4], false);
    assert_eq!(vec!["2 + 3 = 5", "5 \u{d7} 4 = 20"], steps);
}

#[test]
fn full_infix_rendering() {
    let programs = Programs::from_rpn("0 1 + 2 *");
    assert_eq!("(2 + 3) \u{d7} 4", programs.infix_full(0, &[2, 3, 4], false));

    let single = Programs::from_rpn("0");
    assert_eq!("7", single.infix_full(0, &[7], false));
}
