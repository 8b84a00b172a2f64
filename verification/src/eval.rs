//! Stack evaluator for postfix programs.
//!
//! A program is executed against a concrete number assignment with an
//! explicit integer stack: operand instructions push the number their
//! slot maps to, operators pop the right then the left operand and push
//! the result. Arithmetically uninteresting intermediate states (zero,
//! negative, identity moves, inexact division) abort the evaluation with
//! a typed error. Additions and multiplications wrap modulo 2^32, the
//! width of the evaluation stack's cells.

use vstd::prelude::*;

use crate::progop::{all_valid, ops_view, ProgErr, ProgOp, ProgOpView};

verus! {

/// The running stack depth after the first `i` instructions: one more
/// for every operand push, one less for every operator (which pops two
/// values and pushes one).
pub open spec fn balance(instrs: Seq<ProgOpView>, i: int) -> int
    decreases i,
{
    if i <= 0 {
        0
    } else {
        balance(instrs, i - 1) + (if instrs[i - 1] is Number {
            1int
        } else {
            -1int
        })
    }
}

/// A well-formed postfix stream: non-empty, the running stack depth
/// stays at least one after every instruction, and exactly one value is
/// left at the end.
pub open spec fn wf_postfix(instrs: Seq<ProgOpView>) -> bool {
    &&& instrs.len() >= 1
    &&& forall|j: int| 1 <= j <= instrs.len() ==> balance(instrs, j) >= 1
    &&& balance(instrs, instrs.len() as int) == 1
}

/// True when every operand slot reference in the stream is below `n`.
pub open spec fn operands_below(instrs: Seq<ProgOpView>, n: int) -> bool {
    forall|i: int|
        0 <= i < instrs.len() ==> ((#[trigger] instrs[i]) matches ProgOpView::Number(k) ==> k < n)
}

/// The number of operand instructions in the stream.
pub open spec fn operand_count(instrs: Seq<ProgOpView>) -> int
    decreases instrs.len(),
{
    if instrs.len() == 0 {
        0
    } else {
        operand_count(instrs.drop_last()) + (if instrs.last() is Number {
            1int
        } else {
            0int
        })
    }
}

/// The number of operator instructions in the stream.
pub open spec fn operator_count(instrs: Seq<ProgOpView>) -> int
    decreases instrs.len(),
{
    if instrs.len() == 0 {
        0
    } else {
        operator_count(instrs.drop_last()) + (if instrs.last() is Number {
            0int
        } else {
            1int
        })
    }
}

/// The balance after `i` instructions depends only on the first `i`
/// instructions.
pub proof fn lemma_balance_prefix(a: Seq<ProgOpView>, b: Seq<ProgOpView>, i: int)
    requires
        forall|j: int| 0 <= j < i ==> a[j] == b[j],
    ensures
        balance(a, i) == balance(b, i),
    decreases i,
{
    if i > 0 {
        lemma_balance_prefix(a, b, i - 1);
    }
}

/// The balance after `i` instructions is the number of operands less
/// the number of operators among them.
pub proof fn lemma_balance_counts(s: Seq<ProgOpView>, i: int)
    requires
        0 <= i <= s.len(),
    ensures
        balance(s, i) == operand_count(s.take(i)) - operator_count(s.take(i)),
    decreases i,
{
    if i > 0 {
        lemma_balance_counts(s, i - 1);
        assert(s.take(i).drop_last() =~= s.take(i - 1));
        assert(s.take(i).last() == s[i - 1]);
    }
}

/// What one operator does to its two operands: `n2` is the left operand
/// (pushed earlier), `n1` the right. Sums and products wrap modulo 2^32.
pub open spec fn apply_op(op: ProgOpView, n2: u32, n1: u32) -> Result<u32, ProgErr> {
    match op {
        ProgOpView::Number(_) => Err(ProgErr::Zero),
        ProgOpView::Add => Ok(vstd::wrapping::u32_specs::wrapping_add(n2, n1)),
        ProgOpView::Sub => {
            if n2 < n1 {
                Err(ProgErr::Negative)
            } else if n2 == n1 {
                Err(ProgErr::Zero)
            } else {
                Ok((n2 - n1) as u32)
            }
        },
        ProgOpView::Mul => {
            if n1 == 1 || n2 == 1 {
                Err(ProgErr::Mul1)
            } else if vstd::wrapping::u32_specs::wrapping_mul(n2, n1) == 0 {
                Err(ProgErr::Zero)
            } else {
                Ok(vstd::wrapping::u32_specs::wrapping_mul(n2, n1))
            }
        },
        ProgOpView::Div => {
            if n1 == 0 {
                Err(ProgErr::DivZero)
            } else if n1 == 1 {
                Err(ProgErr::Div1)
            } else if n2 % n1 != 0 {
                Err(ProgErr::NonInteger)
            } else {
                Ok(n2 / n1)
            }
        },
    }
}

/// The stack contents after running the instructions from position `i`
/// onward, starting from `stack`, or the first error raised. Only
/// meaningful on well-formed streams; an operator finding fewer than two
/// stacked values is mapped to an arbitrary error.
pub open spec fn run_stack_model(
    instrs: Seq<ProgOpView>,
    numbers: Seq<u8>,
    stack: Seq<u32>,
    i: int,
) -> Result<Seq<u32>, ProgErr>
    decreases instrs.len() - i,
{
    if i < 0 || i >= instrs.len() {
        Ok(stack)
    } else {
        match instrs[i] {
            ProgOpView::Number(n) => run_stack_model(
                instrs,
                numbers,
                stack.push(numbers[n as int] as u32),
                i + 1,
            ),
            op => {
                if stack.len() < 2 {
                    Err(ProgErr::Zero)
                } else {
                    match apply_op(op, stack[stack.len() - 2], stack[stack.len() - 1]) {
                        Ok(v) => run_stack_model(
                            instrs,
                            numbers,
                            stack.drop_last().drop_last().push(v),
                            i + 1,
                        ),
                        Err(e) => Err(e),
                    }
                }
            },
        }
    }
}

/// The outcome of running a whole program against a number assignment:
/// the single value left on the stack, or the first error raised.
pub open spec fn run_model(instrs: Seq<ProgOpView>, numbers: Seq<u8>) -> Result<u32, ProgErr>
    recommends
        wf_postfix(instrs),
{
    match run_stack_model(instrs, numbers, Seq::empty(), 0) {
        Ok(st) => {
            if st.len() >= 1 {
                Ok(st.last())
            } else {
                Err(ProgErr::Zero)
            }
        },
        Err(e) => Err(e),
    }
}

/// Runs an instruction stream against a number assignment, reusing the
/// caller's scratch stack to avoid allocation on the hot path.
pub fn run_instructions(instructions: &[ProgOp], numbers: &[u8], stack: &mut Vec<u32>) -> (r:
    Result<u32, ProgErr>)
    requires
        all_valid(instructions@),
        wf_postfix(ops_view(instructions@)),
        operands_below(ops_view(instructions@), numbers.len() as int),
    ensures
        r == run_model(ops_view(instructions@), numbers@),
{
    let ghost iv = ops_view(instructions@);
    stack.clear();
    let n = instructions.len();
    let mut i: usize = 0;
    while i < n
        invariant
            n == instructions.len(),
            0 <= i <= n,
            all_valid(instructions@),
            iv == ops_view(instructions@),
            wf_postfix(iv),
            operands_below(iv, numbers.len() as int),
            stack@.len() == balance(iv, i as int),
            run_stack_model(iv, numbers@, stack@, i as int) == run_stack_model(
                iv,
                numbers@,
                Seq::<u32>::empty(),
                0,
            ),
        decreases n - i,
    {
        let op = instructions[i];
        assert(instructions@[i as int].valid());
        assert(op@ == iv[i as int]);
        match op.kind() {
            ProgOpView::Number(idx) => {
                stack.push(numbers[idx as usize] as u32);
            },
            _ => {
                assert(balance(iv, i + 1) >= 1);
                assert(stack@.len() >= 2);
                let ghost pre = stack@;
                let n1 = stack.pop().unwrap();
                let n2 = stack.pop().unwrap();
                let step = apply_operator(op, n2, n1);
                match step {
                    Ok(v) => {
                        stack.push(v);
                        assert(stack@ == pre.drop_last().drop_last().push(v));
                    },
                    Err(e) => {
                        assert(run_stack_model(iv, numbers@, pre, i as int) == Err::<
                            Seq<u32>,
                            ProgErr,
                        >(e));
                        return Err(e);
                    },
                }
            },
        }
        i = i + 1;
    }
    assert(stack@.len() == 1);
    let top = stack.pop().unwrap();
    Ok(top)
}

/// Applies one operator to two stacked values, `n2` the left operand and
/// `n1` the right, with the evaluator's pruning rules.
fn apply_operator(op: ProgOp, n2: u32, n1: u32) -> (r: Result<u32, ProgErr>)
    requires
        op.valid(),
        !(op@ is Number),
    ensures
        r == apply_op(op@, n2, n1),
{
    match op.kind() {
        ProgOpView::Number(_) => Err(ProgErr::Zero),
        ProgOpView::Add => Ok(n2.wrapping_add(n1)),
        ProgOpView::Sub => {
            if n2 < n1 {
                Err(ProgErr::Negative)
            } else if n2 == n1 {
                Err(ProgErr::Zero)
            } else {
                Ok(n2 - n1)
            }
        },
        ProgOpView::Mul => {
            if n1 == 1 || n2 == 1 {
                Err(ProgErr::Mul1)
            } else {
                let p = n2.wrapping_mul(n1);
                if p == 0 {
                    Err(ProgErr::Zero)
                } else {
                    Ok(p)
                }
            }
        },
        ProgOpView::Div => {
            if n1 == 0 {
                Err(ProgErr::DivZero)
            } else if n1 == 1 {
                Err(ProgErr::Div1)
            } else if n2 % n1 != 0 {
                Err(ProgErr::NonInteger)
            } else {
                Ok(n2 / n1)
            }
        },
    }
}

} // verus!
