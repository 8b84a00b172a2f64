use solver::{ProgErr, Programs};

#[test]
fn program_prog_add() {
    let programs = Programs::from_rpn("0 1 +");

    assert_eq!(Ok(7), programs.run(0, &[3, 4]));
}

#[test]
fn program_prog_sub() {
    let programs = Programs::from_rpn("0 1 -");

    assert_eq!(Ok(4), programs.run(0, &[7, 3]));
    assert_eq!(Err(ProgErr::Zero), programs.run(0, &[3, 3]));
    assert_eq!(Err(ProgErr::Negative), programs.run(0, &[3, 4]));
}

#[test]
fn program_prog_mul() {
    let programs = Programs::from_rpn("0 1 *");

    assert_eq!(Ok(21), programs.run(0, &[7, 3]));
    assert_eq!(Err(ProgErr::Mul1), programs.run(0, &[7, 1]));
    assert_eq!(Err(ProgErr::Mul1), programs.run(0, &[1, 3]));
    assert_eq!(Err(ProgErr::Zero), programs.run(0, &[7, 0]));
    assert_eq!(Err(ProgErr::Zero), programs.run(0, &[0, 3]));
    assert_eq!(Err(ProgErr::Zero), programs.run(0, &[0, 0]));
}

#[test]
fn program_prog_div() {
    let programs = Programs::from_rpn("0 1 /");

    assert_eq!(Ok(4), programs.run(0, &[12, 3]));
    assert_eq!(Err(ProgErr::NonInteger), programs.run(0, &[13, 3]));
    assert_eq!(Err(ProgErr::DivZero), programs.run(0, &[3, 0]));
    assert_eq!(Err(ProgErr::Div1), programs.run(0, &[3, 1]));
}

#[test]
fn mod_prog_add() {
    let programs = Programs::from_rpn("0 1 +");

    assert_eq!(Ok(7), programs.run(0, &[3, 4]));
}

#[test]
fn mod_prog_sub() {
    let programs = Programs::from_rpn("0 1 -");

    assert_eq!(Ok(4), programs.run(0, &[7, 3]));
    assert_eq!(Err(ProgErr::Zero), programs.run(0, &[3, 3]));
    assert_eq!(Err(ProgErr::Negative), programs.run(0, &[3, 4]));
}

#[test]
fn mod_prog_mul() {
    let programs = Programs::from_rpn("0 1 *");

    assert_eq!(Ok(21), programs.run(0, &[7, 3]));
    assert_eq!(Err(ProgErr::Mul1), programs.run(0, &[7, 1]));
    assert_eq!(Err(ProgErr::Mul1), programs.run(0, &[1, 3]));
    assert_eq!(Err(ProgErr::Zero), programs.run(0, &[7, 0]));
    assert_eq!(Err(ProgErr::Zero), programs.run(0, &[0, 3]));
    assert_eq!(Err(ProgErr::Zero), programs.run(0, &[0, 0]));
}

#[test]
fn mod_prog_div() {
    let programs = Programs::from_rpn("0 1 /");

    assert_eq!(Ok(4), programs.run(0, &[12, 3]));
    assert_eq!(Err(ProgErr::NonInteger), programs.run(0, &[13, 3]));
    assert_eq!(Err(ProgErr::DivZero), programs.run(0, &[3, 0]));
    assert_eq!(Err(ProgErr::Div1), programs.run(0, &[3, 1]));
}
