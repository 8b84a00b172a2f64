//! Instruction encoding for postfix arithmetic programs.
//!
//! Every instruction fits in one byte: values below 32 are operand slot
//! references, and four dedicated byte values stand for the operators.
//! The compact encoding matters because the generated instruction arena
//! reaches tens of millions of entries.

use vstd::prelude::*;

use crate::render::{dec_seq, digit_string, paint_number, paint_operator, u8_string};

verus! {

/// The byte value encoding the addition operator.
pub const ADD_BITS: u8 = 0x20;

/// The byte value encoding the subtraction operator.
pub const SUB_BITS: u8 = 0x40;

/// The byte value encoding the multiplication operator.
pub const MUL_BITS: u8 = 0x60;

/// The byte value encoding the division operator.
pub const DIV_BITS: u8 = 0x80;

/// Mathematical value of a single instruction: an operand slot reference
/// or one of the four operators.
#[derive(Clone, Copy, Debug, PartialEq, Eq, Structural)]
pub enum ProgOpView {
    /// Reference to the operand slot with the given index.
    Number(u8),
    /// Addition.
    Add,
    /// Subtraction.
    Sub,
    /// Multiplication.
    Mul,
    /// Division.
    Div,
}

impl ProgOpView {
    /// True if this instruction is an operand slot reference.
    pub open spec fn is_number(self) -> bool {
        self is Number
    }
}

/// A single postfix instruction packed into one byte: an operand slot
/// reference (index 0 to 31) or one of the four arithmetic operators.
#[derive(Clone, Copy, Debug, PartialEq, Eq, Hash, Structural)]
pub struct ProgOp {
    bits: u8,
}

impl View for ProgOp {
    type V = ProgOpView;

    closed spec fn view(&self) -> ProgOpView {
        if self.bits < 32 {
            ProgOpView::Number(self.bits)
        } else if self.bits == ADD_BITS {
            ProgOpView::Add
        } else if self.bits == SUB_BITS {
            ProgOpView::Sub
        } else if self.bits == MUL_BITS {
            ProgOpView::Mul
        } else {
            ProgOpView::Div
        }
    }
}

impl ProgOp {
    /// True of every byte that encodes an instruction: an operand index
    /// below 32 or one of the four operator bytes.
    pub closed spec fn valid(self) -> bool {
        self.bits < 32 || self.bits == ADD_BITS || self.bits == SUB_BITS || self.bits == MUL_BITS
            || self.bits == DIV_BITS
    }

    /// The addition instruction.
    pub fn op_add() -> (r: ProgOp)
        ensures
            r@ == ProgOpView::Add,
            r.valid(),
    {
        ProgOp { bits: ADD_BITS }
    }

    /// The subtraction instruction.
    pub fn op_sub() -> (r: ProgOp)
        ensures
            r@ == ProgOpView::Sub,
            r.valid(),
    {
        ProgOp { bits: SUB_BITS }
    }

    /// The multiplication instruction.
    pub fn op_mul() -> (r: ProgOp)
        ensures
            r@ == ProgOpView::Mul,
            r.valid(),
    {
        ProgOp { bits: MUL_BITS }
    }

    /// The division instruction.
    pub fn op_div() -> (r: ProgOp)
        ensures
            r@ == ProgOpView::Div,
            r.valid(),
    {
        ProgOp { bits: DIV_BITS }
    }

    /// Constructs an operand instruction referring to slot `n`.
    pub fn new_number(n: u8) -> (r: ProgOp)
        requires
            n < 32,
        ensures
            r@ == ProgOpView::Number(n),
            r.valid(),
    {
        ProgOp { bits: n }
    }

    /// Returns true if the instruction is an operand reference.
    pub fn is_number(&self) -> (r: bool)
        requires
            self.valid(),
        ensures
            r == self@.is_number(),
    {
        self.bits < 32
    }

    /// Returns the mathematical value of the instruction as a concrete
    /// tag, so that callers can branch on it.
    pub fn kind(&self) -> (r: ProgOpView)
        requires
            self.valid(),
        ensures
            r == self@,
    {
        if self.bits < 32 {
            ProgOpView::Number(self.bits)
        } else if self.bits == ADD_BITS {
            ProgOpView::Add
        } else if self.bits == SUB_BITS {
            ProgOpView::Sub
        } else if self.bits == MUL_BITS {
            ProgOpView::Mul
        } else {
            ProgOpView::Div
        }
    }

    /// Returns the operand slot index of an operand instruction.
    pub fn number_index(&self) -> (r: u8)
        requires
            self.valid(),
            self@ is Number,
        ensures
            self@ == ProgOpView::Number(r),
    {
        self.bits
    }

    /// Returns the instruction's RPN token, optionally highlighted:
    /// like the display token, but multiplication renders as the star
    /// so that the RPN text parses back to the same instructions.
    pub fn rpn_colour(&self, numbers: &[u8], colour: bool) -> (r: String)
        requires
            self.valid(),
            self@ matches ProgOpView::Number(n) ==> n < numbers.len(),
        ensures
            !colour ==> r@ == rpn_token(self@, numbers@),
    {
        if self.bits < 32 {
            let s = u8_string(numbers[self.bits as usize]);
            if colour {
                proof {
                    crate::render::lemma_dec_seq_digits(numbers@[self.bits as int] as nat);
                }
                paint_number(s)
            } else {
                s
            }
        } else {
            let s = if self.bits == ADD_BITS {
                plus_string()
            } else if self.bits == SUB_BITS {
                minus_string()
            } else if self.bits == MUL_BITS {
                star_string()
            } else {
                slash_string()
            };
            if colour {
                assert(forall|i: int| 0 <= i < s@.len() ==> #[trigger] s@[i] != '\u{1b}');
                paint_operator(s)
            } else {
                s
            }
        }
    }

    /// Returns the string representation of the instruction, optionally
    /// highlighted for terminal display: the concrete number the operand
    /// slot maps to, or the operator's symbol.
    pub fn colour(&self, numbers: &[u8], colour: bool) -> (r: String)
        requires
            self.valid(),
            self@ matches ProgOpView::Number(n) ==> n < numbers.len(),
        ensures
            !colour ==> r@ == op_token(self@, numbers@),
    {
        if self.bits < 32 {
            let s = u8_string(numbers[self.bits as usize]);
            if colour {
                proof {
                    crate::render::lemma_dec_seq_digits(numbers@[self.bits as int] as nat);
                }
                paint_number(s)
            } else {
                s
            }
        } else {
            let s = if self.bits == ADD_BITS {
                plus_string()
            } else if self.bits == SUB_BITS {
                minus_string()
            } else if self.bits == MUL_BITS {
                times_string()
            } else {
                slash_string()
            };
            if colour {
                assert(forall|i: int| 0 <= i < s@.len() ==> #[trigger] s@[i] != '\u{1b}');
                paint_operator(s)
            } else {
                s
            }
        }
    }
}

/// The character sequence that renders one instruction for infix
/// display without highlighting: the decimal digits of the concrete
/// number an operand slot maps to, or the operator's display symbol
/// (the times sign for multiplication).
pub open spec fn op_token(v: ProgOpView, numbers: Seq<u8>) -> Seq<char> {
    match v {
        ProgOpView::Number(n) => dec_seq(numbers[n as int] as nat),
        ProgOpView::Add => seq!['+'],
        ProgOpView::Sub => seq!['-'],
        ProgOpView::Mul => seq!['\u{d7}'],
        ProgOpView::Div => seq!['/'],
    }
}

/// The character sequence that renders one instruction as an RPN
/// token: the same as the display token except that multiplication is
/// the star, the character the RPN parser reads it back from.
pub open spec fn rpn_token(v: ProgOpView, numbers: Seq<u8>) -> Seq<char> {
    match v {
        ProgOpView::Number(n) => dec_seq(numbers[n as int] as nat),
        ProgOpView::Add => seq!['+'],
        ProgOpView::Sub => seq!['-'],
        ProgOpView::Mul => seq!['*'],
        ProgOpView::Div => seq!['/'],
    }
}

fn star_string() -> (r: String)
    ensures
        r@ == seq!['*'],
{
    proof {
        reveal_strlit("*");
    }
    String::from_str("*")
}

fn plus_string() -> (r: String)
    ensures
        r@ == seq!['+'],
{
    proof {
        reveal_strlit("+");
    }
    String::from_str("+")
}

fn minus_string() -> (r: String)
    ensures
        r@ == seq!['-'],
{
    proof {
        reveal_strlit("-");
    }
    String::from_str("-")
}

fn times_string() -> (r: String)
    ensures
        r@ == seq!['\u{d7}'],
{
    proof {
        reveal_strlit("\u{d7}");
    }
    String::from_str("\u{d7}")
}

fn slash_string() -> (r: String)
    ensures
        r@ == seq!['/'],
{
    proof {
        reveal_strlit("/");
    }
    String::from_str("/")
}

/// For legal encodings, the instruction byte and its mathematical value
/// determine each other.
pub proof fn lemma_op_view_injective(a: ProgOp, b: ProgOp)
    requires
        a.valid(),
        b.valid(),
    ensures
        (a == b) <==> (a@ == b@),
{
}

/// The views of a sequence of instructions.
pub open spec fn ops_view(s: Seq<ProgOp>) -> Seq<ProgOpView> {
    s.map_values(|o: ProgOp| o@)
}

/// True when every instruction byte in the sequence is a legal encoding.
pub open spec fn all_valid(s: Seq<ProgOp>) -> bool {
    forall|i: int| 0 <= i < s.len() ==> (#[trigger] s[i]).valid()
}

/// Errors produced while evaluating a program against concrete numbers.
/// Each marks an arithmetically uninteresting intermediate state and
/// aborts the evaluation of that program for that number assignment.
#[derive(Debug, PartialEq, Eq, Structural)]
pub enum ProgErr {
    /// The program produced a zero intermediate result.
    Zero,
    /// The program produced a negative intermediate result.
    Negative,
    /// The program divided by zero.
    DivZero,
    /// The program produced a non-integer intermediate result.
    NonInteger,
    /// The program multiplied by one, a wasted move.
    Mul1,
    /// The program divided by one, a wasted move.
    Div1,
}

} // verus!
