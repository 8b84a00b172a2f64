use std::mem;

use solver::{ProgInstr, ProgOp};

#[test]
fn progop_test_size() {
    assert_eq!(1, mem::size_of::<ProgOp>());
}

#[test]
fn mod_test_size() {
    // Make sure ProgInstr is packed correctly (2 * 32 bit uints)
    assert_eq!(32 * 2, mem::size_of::<ProgInstr>() * 8);
}
