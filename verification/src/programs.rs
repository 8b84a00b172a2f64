//! A collection of postfix programs sharing one instruction arena.
//!
//! The generator appends the instructions of every kept program to a
//! single growable arena; a program is a half-open range into it rather
//! than an owned vector, because the number of programs is enormous and
//! per-program allocation would dominate memory. The collection is
//! built once and read-only afterwards.

use vstd::prelude::*;
use vstd::multiset::Multiset;

use crate::duplicates::{classify_model, duplicated, local_rules_ok, CanonicalSeenSet, DupReason};
use crate::eval::{
    apply_op, balance, lemma_balance_counts, lemma_balance_prefix, operand_count, operands_below,
    operator_count, run_instructions, run_model, run_stack_model, wf_postfix,
};
use crate::generate::{
    batch_count_model, counts_ok, lemma_combs_rec_props, lemma_op_counts_props, op_combs,
    op_combs_model, op_counts, op_counts_model, perms_of, permutations_of, psum,
    total_count_model, u8_rows, op_rows,
};
use crate::duplicates::groups_ok;
use crate::infix::{
    grp_stack_model, infix_group, infix_tree_model, render_elem, reported_groups_model, GrpView,
    InfixGrpTypeElem,
};
use crate::progop::{all_valid, op_token, ops_view, rpn_token, ProgOp, ProgOpView};
use crate::render::{dec_seq, space_string};

verus! {

/// The arena range of one program's instructions, both ends inclusive.
/// Kept to two 32-bit fields so that hundreds of millions of programs
/// stay resident in memory.
#[derive(Clone, Copy, Debug)]
pub struct ProgInstr {
    /// First element of the program in the instruction arena.
    pub start: u32,
    /// Last element of the program in the instruction arena.
    pub end: u32,
}

/// A collection of postfix programs to run against number selections.
pub struct Programs {
    programs: Vec<ProgInstr>,
    instructions: Vec<ProgOp>,
    nums: u8,
}

/// The instruction an RPN text character stands for: a digit or letter
/// is an operand slot reference, an operator symbol is that operator,
/// and any other character nothing.
pub open spec fn char_instr(c: char) -> Option<ProgOpView> {
    if '0' <= c && c <= '9' {
        Some(ProgOpView::Number((c as int - '0' as int) as u8))
    } else if 'a' <= c && c <= 'z' {
        Some(ProgOpView::Number((c as int - 'a' as int) as u8))
    } else if 'A' <= c && c <= 'Z' {
        Some(ProgOpView::Number((c as int - 'A' as int) as u8))
    } else if c == '+' {
        Some(ProgOpView::Add)
    } else if c == '-' {
        Some(ProgOpView::Sub)
    } else if c == '*' {
        Some(ProgOpView::Mul)
    } else if c == '/' {
        Some(ProgOpView::Div)
    } else {
        None
    }
}

/// The instructions an RPN text parses to, ignoring unknown characters.
pub open spec fn parse_model(text: Seq<char>) -> Seq<ProgOpView>
    decreases text.len(),
{
    if text.len() == 0 {
        Seq::empty()
    } else {
        let rest = parse_model(text.drop_last());
        match char_instr(text.last()) {
            Some(op) => rest.push(op),
            None => rest,
        }
    }
}

/// One more than the highest operand slot an instruction stream refers
/// to; the smallest number assignment length that can run it.
pub open spec fn needed_nums(instrs: Seq<ProgOpView>) -> int
    decreases instrs.len(),
{
    if instrs.len() == 0 {
        0
    } else {
        let rest = needed_nums(instrs.drop_last());
        match instrs.last() {
            ProgOpView::Number(n) => {
                if n + 1 > rest {
                    n + 1
                } else {
                    rest
                }
            },
            _ => rest,
        }
    }
}

/// A parsed stream refers only to slots below its needed assignment
/// length.
pub proof fn lemma_needed_nums_below(instrs: Seq<ProgOpView>)
    ensures
        operands_below(instrs, needed_nums(instrs)),
        needed_nums(instrs) >= 0,
    decreases instrs.len(),
{
    if instrs.len() > 0 {
        lemma_needed_nums_below(instrs.drop_last());
        assert forall|i: int|
            0 <= i < instrs.len() implies ((#[trigger] instrs[i]) matches ProgOpView::Number(k)
            ==> k < needed_nums(instrs)) by {
            if i < instrs.len() - 1 {
                assert(instrs.drop_last()[i] == instrs[i]);
            } else {
                assert(instrs.last() == instrs[i]);
            }
        }
    }
}

/// The rendering of an instruction stream as space-separated RPN
/// tokens, each the token the parser reads it back from.
pub open spec fn rpn_text(instrs: Seq<ProgOpView>, numbers: Seq<u8>) -> Seq<char>
    decreases instrs.len(),
{
    if instrs.len() == 0 {
        Seq::empty()
    } else if instrs.len() == 1 {
        rpn_token(instrs[0], numbers)
    } else {
        rpn_text(instrs.drop_last(), numbers) + seq![' '] + rpn_token(instrs.last(), numbers)
    }
}

impl Programs {
    /// How many programs the collection holds.
    pub closed spec fn prog_count(self) -> int {
        self.programs@.len() as int
    }

    /// The instruction stream of the program at `i`.
    pub closed spec fn prog(self, i: int) -> Seq<ProgOpView> {
        ops_view(
            self.instructions@.subrange(
                self.programs@[i].start as int,
                self.programs@[i].end as int + 1,
            ),
        )
    }

    /// The operand count the collection was generated for: the length
    /// of the number assignments it runs against.
    pub closed spec fn num_count(self) -> u8 {
        self.nums
    }


    /// Structural validity: every program range lies inside the arena,
    /// every instruction byte is a legal encoding, and every operand
    /// reference is below the operand count.
    pub closed spec fn wf(self) -> bool {
        &&& all_valid(self.instructions@)
        &&& self.nums <= 32
        &&& forall|i: int|
            0 <= i < self.programs@.len() ==> {
                let p = #[trigger] self.programs@[i];
                &&& p.start <= p.end
                &&& (p.end as int) < self.instructions@.len()
                &&& operands_below(self.prog(i), self.nums as int)
            }
    }

    /// Returns the number of programs in the collection.
    pub fn len(&self) -> (r: usize)
        ensures
            r == self.prog_count(),
    {
        self.programs.len()
    }

    /// Returns true if the collection holds no programs.
    pub fn is_empty(&self) -> (r: bool)
        ensures
            r == (self.prog_count() == 0),
    {
        self.programs.is_empty()
    }

    /// Returns the instructions of one program.
    pub fn instructions(&self, prog_elem: usize) -> (r: &[ProgOp])
        requires
            self.wf(),
            prog_elem < self.prog_count(),
        ensures
            ops_view(r@) == self.prog(prog_elem as int),
            all_valid(r@),
            operands_below(self.prog(prog_elem as int), self.num_count() as int),
    {
        let pstart = self.programs[prog_elem].start;
        let pend = self.programs[prog_elem].end;
        let total = self.instructions.len();
        assert(pend as int + 1 <= total as int);
        let iend = pend as usize + 1;
        let r = &self.instructions[pstart as usize..iend];
        assert forall|i: int| 0 <= i < r@.len() implies (#[trigger] r@[i]).valid() by {
            assert(r@[i] == self.instructions@[pstart + i]);
        }
        r
    }

    /// Runs one program against a number assignment.
    pub fn run(&self, prog_elem: usize, numbers: &[u8]) -> (r: Result<u32, crate::progop::ProgErr>)
        requires
            self.wf(),
            prog_elem < self.prog_count(),
            wf_postfix(self.prog(prog_elem as int)),
            numbers.len() == self.num_count(),
        ensures
            r == run_model(self.prog(prog_elem as int), numbers@),
    {
        let instructions = self.instructions(prog_elem);
        let mut stack: Vec<u32> = Vec::with_capacity(self.nums as usize);
        run_instructions(instructions, numbers, &mut stack)
    }

    /// Converts one program to its grouped infix rendering.
    pub fn infix(&self, prog_elem: usize, numbers: &[u8], colour: bool) -> (r: String)
        requires
            self.wf(),
            prog_elem < self.prog_count(),
            wf_postfix(self.prog(prog_elem as int)),
            numbers.len() == self.num_count(),
        ensures
            !colour ==> r@ == render_elem(
                infix_tree_model(self.prog(prog_elem as int)),
                numbers@,
                false,
            ),
    {
        let instructions = self.instructions(prog_elem);
        let tree = infix_group(instructions);
        proof {
            let iv = self.prog(prog_elem as int);
            crate::infix::lemma_grp_stack_bound(iv, Seq::empty(), Seq::empty(), 0, numbers.len() as int);
            crate::infix::lemma_grp_stack_len(iv, Seq::empty(), Seq::empty(), 0);
            let folded = crate::infix::grp_stack_model(iv, Seq::empty(), Seq::empty(), 0);
            assert(folded.0.len() == 1);
            assert(tree.model() == folded.0[0]);
        }
        tree.colour(numbers, colour)
    }

    /// Converts one program to its space-separated RPN rendering.
    pub fn rpn(&self, prog_elem: usize, numbers: &[u8], colour: bool) -> (r: String)
        requires
            self.wf(),
            prog_elem < self.prog_count(),
            numbers.len() == self.num_count(),
        ensures
            !colour ==> r@ == rpn_text(self.prog(prog_elem as int), numbers@),
    {
        let instructions = self.instructions(prog_elem);
        let ghost iv = self.prog(prog_elem as int);
        let mut s = String::new();
        let sp = space_string();
        let n = instructions.len();
        let mut i: usize = 0;
        while i < n
            invariant
                n == instructions@.len(),
                0 <= i <= n,
                iv == ops_view(instructions@),
                all_valid(instructions@),
                operands_below(iv, numbers.len() as int),
                sp@ == seq![' '],
                !colour ==> s@ == rpn_text(iv.take(i as int), numbers@),
            decreases n - i,
        {
            assert(instructions@[i as int].valid());
            assert(iv[i as int] matches ProgOpView::Number(k) ==> k < numbers.len());
            if i > 0 {
                s.append(sp.as_str());
            }
            let ts = instructions[i].rpn_colour(numbers, colour);
            s.append(ts.as_str());
            proof {
                if !colour {
                    let t1 = iv.take(i + 1);
                    assert(t1.drop_last() =~= iv.take(i as int));
                    assert(t1.last() == iv[i as int]);
                    if i == 0 {
                        assert(rpn_text(t1, numbers@) == rpn_token(iv[0], numbers@));
                    }
                }
            }
            i = i + 1;
        }
        proof {
            assert(iv.take(iv.len() as int) =~= iv);
        }
        s
    }

    /// Returns true if the program would be duplicated by rearranging
    /// the terms of its equation, recording its canonical form in the
    /// caller's seen-set.
    pub fn duplicated(
        &self,
        prog_elem: usize,
        stack: &mut Vec<InfixGrpTypeElem>,
        set: &mut CanonicalSeenSet,
    ) -> (r: bool)
        requires
            self.wf(),
            prog_elem < self.prog_count(),
            wf_postfix(self.prog(prog_elem as int)),
            old(set).wf(),
        ensures
            r == (classify_model(self.prog(prog_elem as int), old(set)@) != DupReason::NotDup),
            final(set)@ == if local_rules_ok(self.prog(prog_elem as int)) {
                old(set)@.insert(infix_tree_model(self.prog(prog_elem as int)))
            } else {
                old(set)@
            },
            final(set).wf(),
    {
        let instructions = self.instructions(prog_elem);
        let reason = duplicated(instructions, stack, set);
        !matches!(reason, DupReason::NotDup)
    }

    /// Parses a textual RPN representation: digits and letters become
    /// operand slot references, the four operator symbols operators, and
    /// everything else is ignored. The operand count becomes one more
    /// than the highest slot referenced.
    pub fn from_rpn(rpn: &str) -> (r: Programs)
        requires
            1 <= parse_model(rpn@).len() <= u32::MAX,
            needed_nums(parse_model(rpn@)) <= 32,
        ensures
            r.wf(),
            r.prog_count() == 1,
            r.prog(0) == parse_model(rpn@),
            r.num_count() == needed_nums(parse_model(rpn@)),
    {
        let ghost text = rpn@;
        let mut instructions: Vec<ProgOp> = Vec::new();
        let mut nums: u8 = 0;
        let n = rpn.unicode_len();
        let mut i: usize = 0;
        while i < n
            invariant
                n == text.len(),
                text == rpn@,
                0 <= i <= n,
                ops_view(instructions@) == parse_model(text.take(i as int)),
                all_valid(instructions@),
                nums as int == needed_nums(parse_model(text.take(i as int))),
                nums <= 32 || nums as int == needed_nums(parse_model(text.take(i as int))),
                needed_nums(parse_model(text)) <= 32 ==> nums <= 32,
                instructions@.len() == parse_model(text.take(i as int)).len(),
            decreases n - i,
        {
            let c = rpn.get_char(i);
            let ghost pre = instructions@;
            let ghost prefix = parse_model(text.take(i as int));
            proof {
                let t1 = text.take(i + 1);
                assert(t1.drop_last() =~= text.take(i as int));
                assert(t1.last() == text[i as int]);
                lemma_parse_prefix_nums(text, i as int);
            }
            if c >= '0' && c <= '9' {
                let idx = (c as u32 - '0' as u32) as u8;
                instructions.push(ProgOp::new_number(idx));
                if idx + 1 > nums {
                    nums = idx + 1;
                }
                proof {
                    assert(ops_view(instructions@) =~= ops_view(pre).push(
                        ProgOpView::Number(idx),
                    ));
                }
            } else if c >= 'a' && c <= 'z' {
                let idx = (c as u32 - 'a' as u32) as u8;
                instructions.push(ProgOp::new_number(idx));
                if idx + 1 > nums {
                    nums = idx + 1;
                }
                proof {
                    assert(ops_view(instructions@) =~= ops_view(pre).push(
                        ProgOpView::Number(idx),
                    ));
                }
            } else if c >= 'A' && c <= 'Z' {
                let idx = (c as u32 - 'A' as u32) as u8;
                instructions.push(ProgOp::new_number(idx));
                if idx + 1 > nums {
                    nums = idx + 1;
                }
                proof {
                    assert(ops_view(instructions@) =~= ops_view(pre).push(
                        ProgOpView::Number(idx),
                    ));
                }
            } else if c == '+' {
                instructions.push(ProgOp::op_add());
                proof {
                    assert(ops_view(instructions@) =~= ops_view(pre).push(ProgOpView::Add));
                }
            } else if c == '-' {
                instructions.push(ProgOp::op_sub());
                proof {
                    assert(ops_view(instructions@) =~= ops_view(pre).push(ProgOpView::Sub));
                }
            } else if c == '*' {
                instructions.push(ProgOp::op_mul());
                proof {
                    assert(ops_view(instructions@) =~= ops_view(pre).push(ProgOpView::Mul));
                }
            } else if c == '/' {
                instructions.push(ProgOp::op_div());
                proof {
                    assert(ops_view(instructions@) =~= ops_view(pre).push(ProgOpView::Div));
                }
            }
            i = i + 1;
        }
        proof {
            assert(text.take(n as int) =~= text);
        }
        let end = instructions.len() - 1;
        let mut programs: Vec<ProgInstr> = Vec::new();
        programs.push(ProgInstr { start: 0, end: end as u32 });
        let r = Programs { programs, instructions, nums };
        proof {
            lemma_needed_nums_below(parse_model(text));
            assert(r.instructions@.subrange(0, r.instructions@.len() as int) =~= r.instructions@);
            assert(r.prog(0) == parse_model(text));
        }
        r
    }
}

/// Extending a parse by one character can only raise the needed
/// assignment length, and the new needed length stays what the new
/// parse requires.
proof fn lemma_parse_prefix_nums(text: Seq<char>, i: int)
    requires
        0 <= i < text.len(),
    ensures
        needed_nums(parse_model(text.take(i + 1))) == (match char_instr(text[i]) {
            Some(ProgOpView::Number(k)) => {
                if k + 1 > needed_nums(parse_model(text.take(i))) {
                    k + 1
                } else {
                    needed_nums(parse_model(text.take(i)))
                }
            },
            _ => needed_nums(parse_model(text.take(i))),
        }),
{
    let t1 = text.take(i + 1);
    assert(t1.drop_last() =~= text.take(i));
    assert(t1.last() == text[i]);
    let rest = parse_model(text.take(i));
    match char_instr(text[i]) {
        Some(op) => {
            assert(parse_model(t1) == rest.push(op));
            assert(rest.push(op).drop_last() =~= rest);
            assert(rest.push(op).last() == op);
        },
        None => {},
    }
}

/// The instruction stream a program range denotes in an arena.
pub open spec fn prog_of(instrs: Seq<ProgOp>, p: ProgInstr) -> Seq<ProgOpView> {
    ops_view(instrs.subrange(p.start as int, p.end as int + 1))
}

/// Every program range in `lo..hi` lies inside the arena.
pub open spec fn ranges_ok(progs: Seq<ProgInstr>, instrs: Seq<ProgOp>, lo: int, hi: int) -> bool {
    forall|i: int|
        lo <= i < hi ==> {
            let p = #[trigger] progs[i];
            p.start <= p.end && (p.end as int) < instrs.len()
        }
}

/// Every program in `lo..hi` is a well-formed postfix stream over `k`
/// operands referring only to slots below `nums`.
pub open spec fn batch_ok(
    progs: Seq<ProgInstr>,
    instrs: Seq<ProgOp>,
    lo: int,
    hi: int,
    nums: int,
    k: int,
) -> bool {
    forall|i: int|
        lo <= i < hi ==> {
            let s = prog_of(instrs, #[trigger] progs[i]);
            wf_postfix(s) && operands_below(s, nums) && operand_count(s) == k
        }
}

/// No two programs in `lo..hi` fold to the same canonical grouped form.
pub open spec fn batch_distinct(progs: Seq<ProgInstr>, instrs: Seq<ProgOp>, lo: int, hi: int) -> bool {
    forall|i: int, j: int|
        lo <= i < j < hi ==> infix_tree_model(prog_of(instrs, #[trigger] progs[i]))
            != infix_tree_model(prog_of(instrs, #[trigger] progs[j]))
}

/// Every program in `lo..hi` passes the local term-ordering rules.
pub open spec fn batch_rules_ok(progs: Seq<ProgInstr>, instrs: Seq<ProgOp>, lo: int, hi: int) -> bool {
    forall|i: int| lo <= i < hi ==> local_rules_ok(prog_of(instrs, #[trigger] progs[i]))
}

proof fn lemma_stream_push(c: Seq<ProgOpView>, x: ProgOpView)
    ensures
        balance(c.push(x), c.len() as int + 1) == balance(c, c.len() as int) + (if x is Number {
            1int
        } else {
            -1int
        }),
        forall|j: int| 0 <= j <= c.len() ==> balance(c.push(x), j) == balance(c, j),
        operand_count(c.push(x)) == operand_count(c) + (if x is Number {
            1int
        } else {
            0int
        }),
        operator_count(c.push(x)) == operator_count(c) + (if x is Number {
            0int
        } else {
            1int
        }),
{
    assert(c.push(x).drop_last() =~= c);
    assert(c.push(x).last() == x);
    assert forall|j: int| 0 <= j <= c.len() implies balance(c.push(x), j) == balance(c, j) by {
        lemma_balance_prefix(c.push(x), c, j);
    }
    assert(c.push(x)[c.len() as int] == x);
}

proof fn lemma_cand_push(pre: Seq<ProgOp>, post: Seq<ProgOp>, base: int, x: ProgOp)
    requires
        0 <= base <= pre.len(),
        post == pre.push(x),
    ensures
        ops_view(post.subrange(base, post.len() as int)) == ops_view(
            pre.subrange(base, pre.len() as int),
        ).push(x@),
        post.subrange(0, base) == pre.subrange(0, base),
{
    assert(post.subrange(base, post.len() as int) =~= pre.subrange(base, pre.len() as int).push(
        x,
    ));
    assert(ops_view(pre.subrange(base, pre.len() as int).push(x)) =~= ops_view(
        pre.subrange(base, pre.len() as int),
    ).push(x@));
    assert(post.subrange(0, base) =~= pre.subrange(0, base));
}

/// Appends one candidate program to the arena: the first operand, then
/// each later operand followed by the operators its slot was allotted.
fn push_candidate(
    instructions: &mut Vec<ProgOp>,
    perm: &Vec<u8>,
    counts: &Vec<u8>,
    comb: &Vec<ProgOp>,
    k: u8,
)
    requires
        2 <= k <= 32,
        perm@.len() == k as int,
        forall|i: int| 0 <= i < perm@.len() ==> perm@[i] < 32,
        counts_ok(counts@, k - 1),
        comb@.len() == k as int - 1,
        all_valid(comb@),
        forall|i: int| 0 <= i < comb@.len() ==> !((#[trigger] comb@[i])@ is Number),
        all_valid(old(instructions)@),
        old(instructions)@.len() + 2 * k <= u32::MAX,
    ensures
        final(instructions)@.len() == old(instructions)@.len() + (2 * k - 1),
        final(instructions)@.subrange(0, old(instructions)@.len() as int) == old(instructions)@,
        all_valid(final(instructions)@),
        ({
            let cand = ops_view(
                final(instructions)@.subrange(
                    old(instructions)@.len() as int,
                    final(instructions)@.len() as int,
                ),
            );
            &&& wf_postfix(cand)
            &&& operand_count(cand) == k as int
            &&& cand == assemble_model(perm@, counts@, ops_view(comb@))
            &&& forall|b: int|
                (forall|i: int| 0 <= i < perm@.len() ==> perm@[i] < b) ==> operands_below(cand, b)
        }),
{
    let ghost arena0 = instructions@;
    let ghost om = ops_view(comb@);
    let ghost base = instructions@.len() as int;
    let slots = (k - 1) as usize;
    let first = ProgOp::new_number(perm[0]);
    let ghost firstg = first;
    instructions.push(first);
    proof {
        lemma_cand_push(arena0, instructions@, base, firstg);
        let cand = ops_view(instructions@.subrange(base, instructions@.len() as int));
        assert(ops_view(arena0.subrange(base, base)) =~= Seq::<ProgOpView>::empty());
        lemma_stream_push(Seq::empty(), ProgOpView::Number(perm@[0]));
        assert(cand =~= seq![ProgOpView::Number(perm@[0])]);
        assert(balance(cand, 1) == 1);
        assert(operand_count(cand) == 1);
        assert(forall|x: int| 0 <= x < cand.len() ==> cand[x] == ProgOpView::Number(perm@[0]));
        assert(cand + assemble_from(perm@, counts@, om, 0, 0) =~= assemble_model(
            perm@,
            counts@,
            om,
        ));
    }
    let mut op_index: usize = 0;
    let mut s: usize = 0;
    while s < slots
        invariant
            2 <= k <= 32,
            slots == k as int - 1,
            0 <= s <= slots,
            perm@.len() == k as int,
            forall|i: int| 0 <= i < perm@.len() ==> perm@[i] < 32,
            counts_ok(counts@, k - 1),
            comb@.len() == k as int - 1,
            all_valid(comb@),
            forall|i: int| 0 <= i < comb@.len() ==> !((#[trigger] comb@[i])@ is Number),
            all_valid(instructions@),
            arena0.len() == base,
            arena0 == old(instructions)@,
            base + 2 * k <= u32::MAX,
            instructions@.len() >= base,
            instructions@.subrange(0, base) == arena0,
            op_index == psum(counts@, s as int),
            instructions@.len() == base + (s + 1) + psum(counts@, s as int),
            om == ops_view(comb@),
            ({
                let cand = ops_view(instructions@.subrange(base, instructions@.len() as int));
                &&& cand + assemble_from(perm@, counts@, om, s as int, psum(counts@, s as int))
                    == assemble_model(perm@, counts@, om)
                &&& balance(cand, cand.len() as int) == (s + 1) - psum(counts@, s as int)
                &&& forall|j: int| 1 <= j <= cand.len() ==> balance(cand, j) >= 1
                &&& operand_count(cand) == s + 1
                &&& operator_count(cand) == psum(counts@, s as int)
                &&& forall|x: int|
                    0 <= x < cand.len() ==> ((#[trigger] cand[x]) matches ProgOpView::Number(q)
                        ==> perm@.contains(q))
            }),
        decreases slots - s,
    {
        proof {
            assert(psum(counts@, s as int) >= 0 && psum(counts@, s as int) <= s) by {
                if s > 0 {
                    assert(psum(counts@, (s - 1) as int + 1) <= (s - 1) as int + 1);
                }
                crate::generate::lemma_psum_nonneg_pub(counts@, s as int);
            }
        }
        let ghost pre = instructions@;
        let ghost precand = ops_view(pre.subrange(base, pre.len() as int));
        let nop = ProgOp::new_number(perm[s + 1]);
        let ghost nopg = nop;
        instructions.push(nop);
        proof {
            lemma_cand_push(pre, instructions@, base, nopg);
            lemma_stream_push(precand, ProgOpView::Number(perm@[s + 1]));
            assert(perm@.contains(perm@[s + 1]));
            let cand = ops_view(instructions@.subrange(base, instructions@.len() as int));
            assert(cand == precand.push(ProgOpView::Number(perm@[s + 1])));
            assert(instructions@.subrange(0, base) =~= arena0);
            assert(balance(cand, cand.len() as int) == (s + 2) - psum(counts@, s as int));
            assert forall|j: int| 1 <= j <= cand.len() implies balance(cand, j) >= 1 by {
                if j <= precand.len() {
                    assert(balance(cand, j) == balance(precand, j));
                }
            }
            assert forall|x: int|
                0 <= x < cand.len() implies ((#[trigger] cand[x]) matches ProgOpView::Number(q)
                ==> perm@.contains(q)) by {
                if x < precand.len() {
                    assert(cand[x] == precand[x]);
                } else {
                    assert(cand[x] == ProgOpView::Number(perm@[s + 1]));
                }
            }
            assert(cand =~= precand.push(ProgOpView::Number(perm@[s + 1])) + om.subrange(
                psum(counts@, s as int),
                psum(counts@, s as int),
            ));
        }
        let ct = counts[s];
        let mut t: u8 = 0;
        while t < ct
            invariant
                2 <= k <= 32,
                slots == k as int - 1,
                0 <= s < slots,
                perm@.len() == k as int,
                forall|i: int| 0 <= i < perm@.len() ==> perm@[i] < 32,
                counts_ok(counts@, k - 1),
                comb@.len() == k as int - 1,
                all_valid(comb@),
                forall|i: int| 0 <= i < comb@.len() ==> !((#[trigger] comb@[i])@ is Number),
                all_valid(instructions@),
                arena0.len() == base,
                arena0 == old(instructions)@,
                base + 2 * k <= u32::MAX,
                instructions@.len() >= base,
                instructions@.subrange(0, base) == arena0,
                ct == counts@[s as int],
                0 <= t <= ct,
                psum(counts@, s as int) >= 0,
                psum(counts@, s as int + 1) == psum(counts@, s as int) + ct,
                psum(counts@, s as int + 1) <= s + 1,
                op_index == psum(counts@, s as int) + t,
                instructions@.len() == base + (s + 2) + psum(counts@, s as int) + t,
                om == ops_view(comb@),
                precand == ops_view(pre.subrange(base, pre.len() as int)),
                precand + assemble_from(perm@, counts@, om, s as int, psum(counts@, s as int))
                    == assemble_model(perm@, counts@, om),
                ({
                    let cand = ops_view(instructions@.subrange(base, instructions@.len() as int));
                    &&& cand == precand.push(ProgOpView::Number(perm@[s + 1])) + om.subrange(
                        psum(counts@, s as int),
                        psum(counts@, s as int) + t,
                    )
                    &&& balance(cand, cand.len() as int) == (s + 2) - psum(counts@, s as int) - t
                    &&& forall|j: int| 1 <= j <= cand.len() ==> balance(cand, j) >= 1
                    &&& operand_count(cand) == s + 2
                    &&& operator_count(cand) == psum(counts@, s as int) + t
                    &&& forall|x: int|
                        0 <= x < cand.len() ==> ((#[trigger] cand[x])
                            matches ProgOpView::Number(q) ==> perm@.contains(q))
                }),
            decreases ct - t,
        {
            let ghost pre2 = instructions@;
            let ghost precand2 = ops_view(pre2.subrange(base, pre2.len() as int));
            let op = comb[op_index];
            instructions.push(op);
            proof {
                assert(comb@[op_index as int].valid());
                assert(!(comb@[op_index as int]@ is Number));
                lemma_cand_push(pre2, instructions@, base, op);
                lemma_stream_push(precand2, op@);
                let cand = ops_view(instructions@.subrange(base, instructions@.len() as int));
                assert(cand == precand2.push(op@));
                assert(balance(cand, cand.len() as int) == (s + 2) - psum(counts@, s as int) - (t
                    + 1));
                assert(balance(cand, cand.len() as int) >= 1);
                assert(instructions@.subrange(0, base) =~= arena0);
                assert forall|j: int| 1 <= j <= cand.len() implies balance(cand, j) >= 1 by {
                    if j <= precand2.len() {
                        assert(balance(cand, j) == balance(precand2, j));
                    }
                }
                assert forall|x: int|
                    0 <= x < cand.len() implies ((#[trigger] cand[x])
                    matches ProgOpView::Number(q) ==> perm@.contains(q)) by {
                    if x < precand2.len() {
                        assert(cand[x] == precand2[x]);
                    } else {
                        assert(cand[x] == op@);
                    }
                }
                assert(op@ == om[psum(counts@, s as int) + t]);
                assert(om.subrange(
                    psum(counts@, s as int),
                    psum(counts@, s as int) + t + 1,
                ) =~= om.subrange(psum(counts@, s as int), psum(counts@, s as int) + t).push(
                    om[psum(counts@, s as int) + t],
                ));
                assert(cand =~= precand.push(ProgOpView::Number(perm@[s + 1])) + om.subrange(
                    psum(counts@, s as int),
                    psum(counts@, s as int) + t + 1,
                ));
            }
            op_index = op_index + 1;
            t = t + 1;
        }
        proof {
            let cand = ops_view(instructions@.subrange(base, instructions@.len() as int));
            let used = psum(counts@, s as int);
            assert(psum(counts@, s as int + 1) == used + counts@[s as int]);
            assert(assemble_from(perm@, counts@, om, s as int, used) == seq![
                ProgOpView::Number(perm@[s + 1]),
            ] + om.subrange(used, used + counts@[s as int]) + assemble_from(
                perm@,
                counts@,
                om,
                s as int + 1,
                used + counts@[s as int],
            ));
            assert(cand + assemble_from(perm@, counts@, om, s as int + 1, psum(
                counts@,
                s as int + 1,
            )) =~= precand + assemble_from(perm@, counts@, om, s as int, used));
        }
        s = s + 1;
    }
    proof {
        let cand = ops_view(instructions@.subrange(base, instructions@.len() as int));
        assert(assemble_from(perm@, counts@, om, k as int - 1, psum(counts@, k as int - 1))
            == Seq::<ProgOpView>::empty());
        assert(cand + Seq::<ProgOpView>::empty() =~= cand);
        assert(cand == assemble_model(perm@, counts@, om));
        assert(psum(counts@, k as int - 1) == k as int - 1);
        assert(balance(cand, cand.len() as int) == 1);
        assert(wf_postfix(cand));
        assert forall|b: int|
            (forall|i: int| 0 <= i < perm@.len() ==> perm@[i] < b) implies operands_below(
            cand,
            b,
        ) by {
            assert forall|x: int|
                0 <= x < cand.len() implies ((#[trigger] cand[x]) matches ProgOpView::Number(q)
                ==> q < b) by {
                match cand[x] {
                    ProgOpView::Number(q) => {
                        assert(perm@.contains(q));
                        let w = choose|w: int| 0 <= w < perm@.len() && perm@[w] == q;
                        assert(perm@[w] < b);
                    },
                    _ => {},
                }
            }
        }
    }
}

/// Generates every program over `num_cnt` of the `nums` operand slots,
/// appending kept programs to the arena. When duplicate filtering is on,
/// each candidate is classified against the canonical forms already
/// produced in this batch and discarded if it merely restates one;
/// returns how many candidates fell to the term-ordering rules and how
/// many to a canonical-form collision.
#[verifier::loop_isolation(false)]
#[verifier::rlimit(100)]
#[verifier::spinoff_prover]
fn generate_num_programs(
    programs: &mut Vec<ProgInstr>,
    instructions: &mut Vec<ProgOp>,
    num_cnt: u8,
    nums: u8,
    operators: &Vec<ProgOp>,
    inc_duplicated: bool,
) -> (dups: (usize, usize))
    requires
        2 <= num_cnt <= nums <= 32,
        all_valid(operators@),
        forall|i: int| 0 <= i < operators@.len() ==> !((#[trigger] operators@[i])@ is Number),
        all_valid(old(instructions)@),
        ranges_ok(old(programs)@, old(instructions)@, 0, old(programs)@.len() as int),
        old(instructions)@.len() + batch_count_model(nums, num_cnt as int, ops_view(operators@))
            * (2 * num_cnt as int) <= u32::MAX,
    ensures
        final(programs)@.len() >= old(programs)@.len(),
        forall|i: int|
            0 <= i < old(programs)@.len() ==> final(programs)@[i] == old(programs)@[i],
        final(instructions)@.len() >= old(instructions)@.len(),
        final(instructions)@.subrange(0, old(instructions)@.len() as int) == old(instructions)@,
        all_valid(final(instructions)@),
        ranges_ok(final(programs)@, final(instructions)@, 0, final(programs)@.len() as int),
        batch_ok(
            final(programs)@,
            final(instructions)@,
            old(programs)@.len() as int,
            final(programs)@.len() as int,
            nums as int,
            num_cnt as int,
        ),
        forall|j: int|
            old(programs)@.len() <= j < final(programs)@.len() ==> from_batch(
                prog_of(final(instructions)@, #[trigger] final(programs)@[j]),
                nums,
                num_cnt,
                ops_view(operators@),
            ),
        !inc_duplicated ==> batch_distinct(
            final(programs)@,
            final(instructions)@,
            old(programs)@.len() as int,
            final(programs)@.len() as int,
        ) && batch_rules_ok(
            final(programs)@,
            final(instructions)@,
            old(programs)@.len() as int,
            final(programs)@.len() as int,
        ),
        !inc_duplicated ==> batch_complete(
            final(programs)@,
            final(instructions)@,
            old(programs)@.len() as int,
            final(programs)@.len() as int,
            nums,
            num_cnt,
            ops_view(operators@),
        ),
        final(programs)@.len() - old(programs)@.len() + dups.0 + dups.1 == batch_count_model(
            nums,
            num_cnt as int,
            ops_view(operators@),
        ),
        final(instructions)@.len() == old(instructions)@.len() + (final(programs)@.len() - old(
            programs,
        )@.len()) * (2 * num_cnt as int - 1),
        forall|j: int|
            old(programs)@.len() <= j < final(programs)@.len()
                ==> (#[trigger] final(programs)@[j]).start as int == (if j == old(
                programs,
            )@.len() as int {
                old(instructions)@.len() as int
            } else {
                final(programs)@[j - 1].end as int + 1
            }),
        final(programs)@.len() > old(programs)@.len()
            ==> final(programs)@[final(programs)@.len() - 1].end as int + 1
            == final(instructions)@.len(),
        inc_duplicated ==> dups.0 == 0 && dups.1 == 0,
{
    let ghost ov = ops_view(operators@);
    let ghost batch = batch_count_model(nums, num_cnt as int, ov);
    let ghost p0 = old(programs)@.len() as int;
    let ghost a0 = old(instructions)@;
    let k = num_cnt;
    let mut term_dups: usize = 0;
    let mut infix_dups: usize = 0;
    let mut scratch: Vec<InfixGrpTypeElem> = Vec::new();
    let mut seen = CanonicalSeenSet::new();
    let perms = permutations_of(nums, num_cnt);
    let counts = op_counts(num_cnt);
    let combs = op_combs(num_cnt, operators);
    let pn = perms.len();
    let cn = counts.len();
    let bn = combs.len();
    proof {
        assert(pn as int == perms_of(nums, num_cnt).len());
        assert(cn as int == op_counts_model(num_cnt as int).len());
        assert(bn as int == op_combs_model(num_cnt as int, ov).len());
        assert(batch == pn as int * cn as int * bn as int);
        assert(0int * cn as int * bn as int == 0) by (nonlinear_arith);
        lemma_op_counts_props(num_cnt as int);
    }
    let mut pi: usize = 0;
    while pi < pn
        invariant
            0 <= pi <= pn,
            programs@.len() >= p0,
            forall|i: int| 0 <= i < p0 ==> programs@[i] == old(programs)@[i],
            instructions@.len() >= a0.len(),
            instructions@.subrange(0, a0.len() as int) == a0,
            all_valid(instructions@),
            ranges_ok(programs@, instructions@, 0, programs@.len() as int),
            batch_ok(programs@, instructions@, p0, programs@.len() as int, nums as int, k as int),
            forall|j: int|
                p0 <= j < programs@.len() ==> from_batch(
                    prog_of(instructions@, #[trigger] programs@[j]),
                    nums,
                    num_cnt,
                    ov,
                ),
            !inc_duplicated ==> batch_distinct(programs@, instructions@, p0, programs@.len() as int)
                && batch_rules_ok(programs@, instructions@, p0, programs@.len() as int),
            !inc_duplicated ==> forall|j: int|
                p0 <= j < programs@.len() ==> seen@.contains(
                    infix_tree_model(prog_of(instructions@, #[trigger] programs@[j])),
                ),
            !inc_duplicated ==> forall|p2: int, c2: int, o2: int|
                0 <= p2 < pi && 0 <= c2 < cn && 0 <= o2 < bn ==> #[trigger] candidate_handled(
                    nums,
                    num_cnt,
                    ov,
                    seen@,
                    p2,
                    c2,
                    o2,
                ),
            !inc_duplicated ==> forall|g: GrpView|
                #[trigger] seen@.contains(g) ==> tree_kept(
                    programs@,
                    instructions@,
                    p0,
                    programs@.len() as int,
                    g,
                ),
            seen.wf(),
            programs@.len() - p0 + term_dups + infix_dups == pi as int * cn as int * bn as int,
            instructions@.len() == a0.len() + (programs@.len() - p0) * (2 * k as int - 1),
            forall|j: int|
                p0 <= j < programs@.len() ==> (#[trigger] programs@[j]).start as int == (
                if j == p0 {
                    a0.len() as int
                } else {
                    programs@[j - 1].end as int + 1
                }),
            programs@.len() > p0 ==> programs@[programs@.len() - 1].end as int + 1
                == instructions@.len(),
            inc_duplicated ==> term_dups == 0 && infix_dups == 0,
        decreases pn - pi,
    {
        let mut ci: usize = 0;
        while ci < cn
            invariant
                0 <= pi < pn,
                0 <= ci <= cn,
                programs@.len() >= p0,
                forall|i: int| 0 <= i < p0 ==> programs@[i] == old(programs)@[i],
                instructions@.len() >= a0.len(),
                instructions@.subrange(0, a0.len() as int) == a0,
                all_valid(instructions@),
                ranges_ok(programs@, instructions@, 0, programs@.len() as int),
                batch_ok(programs@, instructions@, p0, programs@.len() as int, nums as int, k as int),
                forall|j: int|
                    p0 <= j < programs@.len() ==> from_batch(
                        prog_of(instructions@, #[trigger] programs@[j]),
                        nums,
                        num_cnt,
                        ov,
                    ),
                !inc_duplicated ==> batch_distinct(programs@, instructions@, p0, programs@.len() as int)
                    && batch_rules_ok(programs@, instructions@, p0, programs@.len() as int),
                !inc_duplicated ==> forall|j: int|
                    p0 <= j < programs@.len() ==> seen@.contains(
                        infix_tree_model(prog_of(instructions@, #[trigger] programs@[j])),
                    ),
                !inc_duplicated ==> forall|p2: int, c2: int, o2: int|
                    0 <= p2 < pn && 0 <= c2 < cn && 0 <= o2 < bn && (p2 < pi || (p2 == pi && c2
                        < ci)) ==> #[trigger] candidate_handled(
                        nums,
                        num_cnt,
                        ov,
                        seen@,
                        p2,
                        c2,
                        o2,
                    ),
                !inc_duplicated ==> forall|g: GrpView|
                    #[trigger] seen@.contains(g) ==> tree_kept(
                        programs@,
                        instructions@,
                        p0,
                        programs@.len() as int,
                        g,
                    ),
                seen.wf(),
                programs@.len() - p0 + term_dups + infix_dups == pi as int * cn as int * bn as int
                    + ci as int * bn as int,
                instructions@.len() == a0.len() + (programs@.len() - p0) * (2 * k as int - 1),
                forall|j: int|
                    p0 <= j < programs@.len() ==> (#[trigger] programs@[j]).start as int == (
                    if j == p0 {
                        a0.len() as int
                    } else {
                        programs@[j - 1].end as int + 1
                    }),
                programs@.len() > p0 ==> programs@[programs@.len() - 1].end as int + 1
                    == instructions@.len(),
                inc_duplicated ==> term_dups == 0 && infix_dups == 0,
            decreases cn - ci,
        {
            let mut oi: usize = 0;
            while oi < bn
                invariant
                    0 <= pi < pn,
                    0 <= ci < cn,
                    0 <= oi <= bn,
                    programs@.len() >= p0,
                    forall|i: int| 0 <= i < p0 ==> programs@[i] == old(programs)@[i],
                    instructions@.len() >= a0.len(),
                    instructions@.subrange(0, a0.len() as int) == a0,
                    all_valid(instructions@),
                    ranges_ok(programs@, instructions@, 0, programs@.len() as int),
                    batch_ok(programs@, instructions@, p0, programs@.len() as int, nums as int, k as int),
                    forall|j: int|
                        p0 <= j < programs@.len() ==> from_batch(
                            prog_of(instructions@, #[trigger] programs@[j]),
                            nums,
                            num_cnt,
                            ov,
                        ),
                    !inc_duplicated ==> batch_distinct(programs@, instructions@, p0, programs@.len() as int)
                        && batch_rules_ok(programs@, instructions@, p0, programs@.len() as int),
                    !inc_duplicated ==> forall|j: int|
                        p0 <= j < programs@.len() ==> seen@.contains(
                            infix_tree_model(prog_of(instructions@, #[trigger] programs@[j])),
                        ),
                    !inc_duplicated ==> forall|p2: int, c2: int, o2: int|
                        0 <= p2 < pn && 0 <= c2 < cn && 0 <= o2 < bn && (p2 < pi || (p2 == pi && (
                        c2 < ci || (c2 == ci && o2 < oi)))) ==> #[trigger] candidate_handled(
                            nums,
                            num_cnt,
                            ov,
                            seen@,
                            p2,
                            c2,
                            o2,
                        ),
                    !inc_duplicated ==> forall|g: GrpView|
                        #[trigger] seen@.contains(g) ==> tree_kept(
                            programs@,
                            instructions@,
                            p0,
                            programs@.len() as int,
                            g,
                        ),
                    seen.wf(),
                    programs@.len() - p0 + term_dups + infix_dups == pi as int * cn as int
                        * bn as int + ci as int * bn as int + oi as int,
                    instructions@.len() == a0.len() + (programs@.len() - p0) * (2 * k as int - 1),
                    forall|j: int|
                        p0 <= j < programs@.len() ==> (#[trigger] programs@[j]).start as int == (
                        if j == p0 {
                            a0.len() as int
                        } else {
                            programs@[j - 1].end as int + 1
                        }),
                    programs@.len() > p0 ==> programs@[programs@.len() - 1].end as int + 1
                        == instructions@.len(),
                    inc_duplicated ==> term_dups == 0 && infix_dups == 0,
                decreases bn - oi,
            {
                let ghost processed = pi as int * cn as int * bn as int + ci as int * bn as int
                    + oi as int;
                let ghost m = programs@.len() - p0;
                proof {
                    assert(processed <= pn as int * cn as int * bn as int - 1) by (nonlinear_arith)
                        requires
                            0 <= pi < pn,
                            0 <= ci < cn,
                            0 <= oi < bn,
                            processed == pi as int * cn as int * bn as int + ci as int * bn as int
                                + oi as int,
                    ;
                    assert(m <= processed);
                    assert(a0.len() + m * (2 * k as int - 1) + 2 * k as int <= a0.len() + batch * (
                    2 * k as int)) by (nonlinear_arith)
                        requires
                            0 <= m,
                            m + 1 <= batch,
                            2 <= k as int,
                    ;
                }
                proof {
                    assert(u8_rows(counts@)[ci as int] == counts@[ci as int]@);
                    assert(u8_rows(counts@)[ci as int] == op_counts_model(k as int)[ci as int]);
                    assert(counts_ok(counts@[ci as int]@, k as int - 1));
                    assert(u8_rows(perms@)[pi as int] == perms@[pi as int]@);
                    lemma_comb_row_ok(operators@, combs@, oi as int, k);
                    assert(batch <= u32::MAX as int) by (nonlinear_arith)
                        requires
                            batch >= 0,
                            batch * (2 * k as int) + a0.len() <= u32::MAX,
                            2 <= k as int,
                            a0.len() >= 0,
                    ;
                    assert(term_dups as int + infix_dups as int + m == processed);
                }
                let inst_start = instructions.len();
                let ghost committed = instructions@;
                let ghost progs0 = programs@;
                push_candidate(instructions, &perms[pi], &counts[ci], &combs[oi], k);
                let ghost cand = ops_view(
                    instructions@.subrange(inst_start as int, instructions@.len() as int),
                );
                proof {
                    assert(u8_rows(counts@)[ci as int] == counts@[ci as int]@);
                    assert(operands_below(cand, nums as int));
                    lemma_arena_stable(programs@, committed, instructions@);
                }
                proof {
                    assert(cand == candidate_of(
                        nums,
                        num_cnt,
                        ov,
                        pi as int,
                        ci as int,
                        oi as int,
                    )) by {
                        reveal(candidate_of);
                    }
                }
                let ghost pre_seen = seen@;
                let keep = if inc_duplicated {
                    true
                } else {
                    let sl = &instructions[inst_start..instructions.len()];
                    assert(ops_view(sl@) == cand);
                    let reason = duplicated(sl, &mut scratch, &mut seen);
                    match reason {
                        DupReason::NotDup => true,
                        DupReason::TermOrder => {
                            term_dups = term_dups + 1;
                            false
                        },
                        DupReason::Infix => {
                            infix_dups = infix_dups + 1;
                            false
                        },
                    }
                };
                if keep {
                    let iend = instructions.len() - 1;
                    let newp = ProgInstr { start: inst_start as u32, end: iend as u32 };
                    let ghost preprogs = programs@;
                    programs.push(newp);
                    proof {
                        assert(prog_of(instructions@, newp) == cand) by {
                            assert(instructions@.subrange(
                                newp.start as int,
                                newp.end as int + 1,
                            ) =~= instructions@.subrange(
                                inst_start as int,
                                instructions@.len() as int,
                            ));
                        }
                        assert(from_batch(cand, nums, num_cnt, ov)) by {
                            reveal(from_batch);
                            assert(cand == assemble_model(
                                perms_of(nums, num_cnt)[pi as int],
                                op_counts_model(num_cnt as int)[ci as int],
                                op_combs_model(num_cnt as int, ov)[oi as int],
                            ));
                        }
                        assert((m + 1) * (2 * k as int - 1) == m * (2 * k as int - 1) + (2
                            * k as int - 1)) by (nonlinear_arith);
                        assert forall|i2: int, j2: int|
                            p0 <= i2 < j2 < programs@.len() && !inc_duplicated implies infix_tree_model(
                            prog_of(instructions@, #[trigger] programs@[i2]),
                        ) != infix_tree_model(prog_of(instructions@, #[trigger] programs@[j2])) by {
                            if j2 == programs@.len() - 1 {
                                assert(programs@[i2] == preprogs[i2]);
                            }
                        }
                    }
                } else {
                    instructions.truncate(inst_start);
                    proof {
                        assert(instructions@ =~= committed);
                    }
                }
                proof {
                    assert(processed + 1 == pi as int * cn as int * bn as int + ci as int
                        * bn as int + (oi as int + 1));
                    if !inc_duplicated {
                        let tree = infix_tree_model(cand);
                        assert(seen@ == if local_rules_ok(cand) {
                            pre_seen.insert(tree)
                        } else {
                            pre_seen
                        });
                        assert(keep == (classify_model(cand, pre_seen) == DupReason::NotDup));
                        lemma_seen_step(
                            nums,
                            num_cnt,
                            ov,
                            pn as int,
                            cn as int,
                            bn as int,
                            pi as int,
                            ci as int,
                            oi as int,
                            cand,
                            pre_seen,
                            seen@,
                            keep,
                            progs0,
                            committed,
                            programs@,
                            instructions@,
                            p0,
                        );
                    }
                }
                oi = oi + 1;
            }
            proof {
                assert(ci as int * bn as int + bn as int == (ci as int + 1) * bn as int) by (
                nonlinear_arith);
            }
            ci = ci + 1;
        }
        proof {
            assert(pi as int * cn as int * bn as int + cn as int * bn as int == (pi as int + 1)
                * cn as int * bn as int) by (nonlinear_arith);
        }
        pi = pi + 1;
    }
    proof {
        if !inc_duplicated {
            lemma_batch_complete_from_handled(
                programs@,
                instructions@,
                p0,
                nums,
                num_cnt,
                ov,
                seen@,
            );
        }
    }
    (term_dups, infix_dups)
}

/// A batch whose candidates were all accounted for against a seen-set
/// whose members are all kept canonical forms covers every candidate.
proof fn lemma_batch_complete_from_handled(
    progs: Seq<ProgInstr>,
    instrs: Seq<ProgOp>,
    p0: int,
    nums: u8,
    num_cnt: u8,
    ov: Seq<ProgOpView>,
    seen: Set<GrpView>,
)
    requires
        forall|p2: int, c2: int, o2: int|
            0 <= p2 < perms_of(nums, num_cnt).len() && 0 <= c2 < op_counts_model(
                num_cnt as int,
            ).len() && 0 <= o2 < op_combs_model(num_cnt as int, ov).len()
                ==> #[trigger] candidate_handled(nums, num_cnt, ov, seen, p2, c2, o2),
        forall|g: GrpView|
            #[trigger] seen.contains(g) ==> tree_kept(progs, instrs, p0, progs.len() as int, g),
    ensures
        batch_complete(progs, instrs, p0, progs.len() as int, nums, num_cnt, ov),
{
    reveal(batch_complete);
    reveal(candidate_handled);
    assert forall|pi2: int, ci2: int, oi2: int|
        0 <= pi2 < perms_of(nums, num_cnt).len() && 0 <= ci2 < op_counts_model(
            num_cnt as int,
        ).len() && 0 <= oi2 < op_combs_model(num_cnt as int, ov).len() && local_rules_ok(
        #[trigger] candidate_of(nums, num_cnt, ov, pi2, ci2, oi2),
    ) implies tree_kept(
        progs,
        instrs,
        p0,
        progs.len() as int,
        infix_tree_model(candidate_of(nums, num_cnt, ov, pi2, ci2, oi2)),
    ) by {
        assert(candidate_handled(nums, num_cnt, ov, seen, pi2, ci2, oi2));
        assert(seen.contains(infix_tree_model(candidate_of(nums, num_cnt, ov, pi2, ci2, oi2))));
    }
}

/// Extending the arena beyond every committed range leaves every
/// committed program's instruction stream unchanged.
proof fn lemma_arena_stable(progs: Seq<ProgInstr>, pre: Seq<ProgOp>, post: Seq<ProgOp>)
    requires
        ranges_ok(progs, pre, 0, progs.len() as int),
        post.len() >= pre.len(),
        post.subrange(0, pre.len() as int) == pre,
    ensures
        forall|j: int|
            0 <= j < progs.len() ==> prog_of(post, #[trigger] progs[j]) == prog_of(
                pre,
                progs[j],
            ),
{
    assert forall|j: int|
        0 <= j < progs.len() implies prog_of(post, #[trigger] progs[j]) == prog_of(
        pre,
        progs[j],
    ) by {
        let p = progs[j];
        assert(post.subrange(p.start as int, p.end as int + 1) =~= pre.subrange(
            p.start as int,
            p.end as int + 1,
        ));
    }
}

/// One dedup step preserves the two classification ledgers: every
/// candidate up to and including this one is accounted for against the
/// grown seen-set, and every seen canonical form is the form of a kept
/// program.
#[verifier::rlimit(100)]
#[verifier::spinoff_prover]
proof fn lemma_seen_step(
    nums: u8,
    num_cnt: u8,
    ov: Seq<ProgOpView>,
    pn: int,
    cn: int,
    bn: int,
    pi: int,
    ci: int,
    oi: int,
    cand: Seq<ProgOpView>,
    pre_seen: Set<GrpView>,
    seen: Set<GrpView>,
    keep: bool,
    progs0: Seq<ProgInstr>,
    committed: Seq<ProgOp>,
    progs: Seq<ProgInstr>,
    instrs: Seq<ProgOp>,
    p0: int,
)
    requires
        pn == perms_of(nums, num_cnt).len(),
        cn == op_counts_model(num_cnt as int).len(),
        bn == op_combs_model(num_cnt as int, ov).len(),
        0 <= pi < pn,
        0 <= ci < cn,
        0 <= oi < bn,
        cand == candidate_of(nums, num_cnt, ov, pi, ci, oi),
        seen == (if local_rules_ok(cand) {
            pre_seen.insert(infix_tree_model(cand))
        } else {
            pre_seen
        }),
        forall|p2: int, c2: int, o2: int|
            0 <= p2 < pn && 0 <= c2 < cn && 0 <= o2 < bn && (p2 < pi || (p2 == pi && (c2 < ci
                || (c2 == ci && o2 < oi)))) ==> #[trigger] candidate_handled(
                nums,
                num_cnt,
                ov,
                pre_seen,
                p2,
                c2,
                o2,
            ),
        forall|g: GrpView|
            #[trigger] pre_seen.contains(g) ==> tree_kept(
                progs0,
                committed,
                p0,
                progs0.len() as int,
                g,
            ),
        0 <= p0 <= progs0.len(),
        forall|j: int| 0 <= j < progs0.len() ==> #[trigger] progs[j] == progs0[j],
        forall|j: int|
            0 <= j < progs0.len() ==> prog_of(instrs, #[trigger] progs[j]) == prog_of(
                committed,
                progs0[j],
            ),
        keep ==> progs.len() == progs0.len() + 1 && local_rules_ok(cand) && infix_tree_model(
            prog_of(instrs, progs[progs.len() - 1]),
        ) == infix_tree_model(cand),
        !keep ==> progs == progs0,
        !keep && local_rules_ok(cand) ==> pre_seen.contains(infix_tree_model(cand)),
    ensures
        forall|p2: int, c2: int, o2: int|
            0 <= p2 < pn && 0 <= c2 < cn && 0 <= o2 < bn && (p2 < pi || (p2 == pi && (c2 < ci
                || (c2 == ci && o2 < oi + 1)))) ==> #[trigger] candidate_handled(
                nums,
                num_cnt,
                ov,
                seen,
                p2,
                c2,
                o2,
            ),
        forall|g: GrpView|
            #[trigger] seen.contains(g) ==> tree_kept(progs, instrs, p0, progs.len() as int, g),
{
    let tree = infix_tree_model(cand);
    assert forall|p2: int, c2: int, o2: int|
        0 <= p2 < pn && 0 <= c2 < cn && 0 <= o2 < bn && (p2 < pi || (p2 == pi && (c2 < ci || (
        c2 == ci && o2 < oi + 1)))) implies #[trigger] candidate_handled(
        nums,
        num_cnt,
        ov,
        seen,
        p2,
        c2,
        o2,
    ) by {
        reveal(candidate_handled);
        if p2 == pi && c2 == ci && o2 == oi {
            if local_rules_ok(cand) {
                assert(seen.contains(tree));
            }
        } else {
            assert(candidate_handled(nums, num_cnt, ov, pre_seen, p2, c2, o2));
            let s2 = candidate_of(nums, num_cnt, ov, p2, c2, o2);
            if local_rules_ok(s2) {
                assert(pre_seen.contains(infix_tree_model(s2)));
                assert(seen.contains(infix_tree_model(s2)));
            }
        }
    }
    assert forall|g: GrpView| #[trigger] seen.contains(g) implies tree_kept(
        progs,
        instrs,
        p0,
        progs.len() as int,
        g,
    ) by {
        reveal(tree_kept);
        if keep && g == tree {
            let jw = progs.len() - 1;
            assert(infix_tree_model(prog_of(instrs, progs[jw])) == g);
        } else {
            assert(pre_seen.contains(g));
            let jold = choose|jold: int|
                p0 <= jold < progs0.len() && infix_tree_model(prog_of(committed, progs0[jold]))
                    == g;
            assert(progs[jold] == progs0[jold]);
            assert(prog_of(instrs, progs[jold]) == prog_of(committed, progs0[jold]));
        }
    }
}

/// The arena space budget for all batches up to operand count `upto`:
/// each batch may append at most its candidate count times two
/// instructions per operand.
pub open spec fn arena_budget(n: u8, upto: int, ops: Seq<ProgOpView>) -> int
    decreases upto,
{
    if upto <= 0 {
        0
    } else {
        arena_budget(n, upto - 1, ops) + batch_count_model(n, upto, ops) * (2 * upto)
    }
}

proof fn lemma_arena_budget_mono(n: u8, j: int, upto: int, ops: Seq<ProgOpView>)
    requires
        0 <= j <= upto,
    ensures
        arena_budget(n, j, ops) <= arena_budget(n, upto, ops),
        arena_budget(n, j, ops) >= 0,
    decreases upto + upto - j,
{
    if j < upto {
        lemma_arena_budget_mono(n, j, upto - 1, ops);
        crate::generate::lemma_batch_nonneg(n, upto, ops);
        assert(batch_count_model(n, upto, ops) * (2 * upto) >= 0) by (nonlinear_arith)
            requires
                batch_count_model(n, upto, ops) >= 0,
                upto >= 1,
        ;
    } else if j == upto && j > 0 {
        lemma_arena_budget_mono(n, j - 1, upto - 1, ops);
        crate::generate::lemma_batch_nonneg(n, upto, ops);
        assert(batch_count_model(n, upto, ops) * (2 * upto) >= 0) by (nonlinear_arith)
            requires
                batch_count_model(n, upto, ops) >= 0,
                upto >= 1,
        ;
    }
}

/// Generates the single-operand programs: one per operand permutation
/// of length one.
#[verifier::loop_isolation(false)]
#[verifier::rlimit(100)]
#[verifier::spinoff_prover]
fn generate_single_programs(
    programs: &mut Vec<ProgInstr>,
    instructions: &mut Vec<ProgOp>,
    nums: u8,
    inc_duplicated: bool,
) -> (dups: (usize, usize))
    requires
        1 <= nums <= 32,
        all_valid(old(instructions)@),
        ranges_ok(old(programs)@, old(instructions)@, 0, old(programs)@.len() as int),
        old(instructions)@.len() + perms_of(nums, 1u8).len() * 2 <= u32::MAX,
    ensures
        final(programs)@.len() >= old(programs)@.len(),
        forall|i: int|
            0 <= i < old(programs)@.len() ==> final(programs)@[i] == old(programs)@[i],
        final(instructions)@.len() >= old(instructions)@.len(),
        final(instructions)@.subrange(0, old(instructions)@.len() as int) == old(instructions)@,
        all_valid(final(instructions)@),
        ranges_ok(final(programs)@, final(instructions)@, 0, final(programs)@.len() as int),
        batch_ok(
            final(programs)@,
            final(instructions)@,
            old(programs)@.len() as int,
            final(programs)@.len() as int,
            nums as int,
            1,
        ),
        forall|j: int|
            old(programs)@.len() <= j < final(programs)@.len() ==> from_singleton_batch(
                prog_of(final(instructions)@, #[trigger] final(programs)@[j]),
                nums,
            ),
        !inc_duplicated ==> forall|pi: int|
            0 <= pi < perms_of(nums, 1u8).len() ==> tree_kept(
                final(programs)@,
                final(instructions)@,
                old(programs)@.len() as int,
                final(programs)@.len() as int,
                infix_tree_model(#[trigger] singleton_candidate(nums, pi)),
            ),
        !inc_duplicated ==> batch_distinct(
            final(programs)@,
            final(instructions)@,
            old(programs)@.len() as int,
            final(programs)@.len() as int,
        ) && batch_rules_ok(
            final(programs)@,
            final(instructions)@,
            old(programs)@.len() as int,
            final(programs)@.len() as int,
        ),
        final(programs)@.len() - old(programs)@.len() + dups.0 + dups.1 == perms_of(
            nums,
            1u8,
        ).len(),
        final(instructions)@.len() == old(instructions)@.len() + (final(programs)@.len() - old(
            programs,
        )@.len()),
        forall|j: int|
            old(programs)@.len() <= j < final(programs)@.len()
                ==> (#[trigger] final(programs)@[j]).start as int == (if j == old(
                programs,
            )@.len() as int {
                old(instructions)@.len() as int
            } else {
                final(programs)@[j - 1].end as int + 1
            }),
        final(programs)@.len() > old(programs)@.len()
            ==> final(programs)@[final(programs)@.len() - 1].end as int + 1
            == final(instructions)@.len(),
        inc_duplicated ==> dups.0 == 0 && dups.1 == 0,
        final(programs)@.len() > old(programs)@.len(),
{
    let ghost p0 = old(programs)@.len() as int;
    let ghost a0 = old(instructions)@;
    let mut term_dups: usize = 0;
    let mut infix_dups: usize = 0;
    let mut scratch: Vec<InfixGrpTypeElem> = Vec::new();
    let mut seen = CanonicalSeenSet::new();
    let perms = permutations_of(nums, 1);
    let pn = perms.len();
    assert(pn >= 1);
    let mut pi: usize = 0;
    while pi < pn
        invariant
            0 <= pi <= pn,
            programs@.len() >= p0,
            forall|i: int| 0 <= i < p0 ==> programs@[i] == old(programs)@[i],
            instructions@.len() >= a0.len(),
            instructions@.subrange(0, a0.len() as int) == a0,
            all_valid(instructions@),
            ranges_ok(programs@, instructions@, 0, programs@.len() as int),
            batch_ok(programs@, instructions@, p0, programs@.len() as int, nums as int, 1),
            forall|j: int|
                p0 <= j < programs@.len() ==> from_singleton_batch(
                    prog_of(instructions@, #[trigger] programs@[j]),
                    nums,
                ),
            !inc_duplicated ==> batch_distinct(programs@, instructions@, p0, programs@.len() as int)
                && batch_rules_ok(programs@, instructions@, p0, programs@.len() as int),
            !inc_duplicated ==> forall|j: int|
                p0 <= j < programs@.len() ==> seen@.contains(
                    infix_tree_model(prog_of(instructions@, #[trigger] programs@[j])),
                ),
            !inc_duplicated ==> forall|p2: int|
                0 <= p2 < pi ==> seen@.contains(
                    infix_tree_model(#[trigger] singleton_candidate(nums, p2)),
                ),
            !inc_duplicated ==> forall|g: GrpView|
                #[trigger] seen@.contains(g) ==> tree_kept(
                    programs@,
                    instructions@,
                    p0,
                    programs@.len() as int,
                    g,
                ),
            seen.wf(),
            programs@.len() - p0 + term_dups + infix_dups == pi as int,
            instructions@.len() == a0.len() + (programs@.len() - p0),
            forall|j: int|
                p0 <= j < programs@.len() ==> (#[trigger] programs@[j]).start as int == (
                if j == p0 {
                    a0.len() as int
                } else {
                    programs@[j - 1].end as int + 1
                }),
            programs@.len() > p0 ==> programs@[programs@.len() - 1].end as int + 1
                == instructions@.len(),
            inc_duplicated ==> term_dups == 0 && infix_dups == 0,
            pi > 0 ==> programs@.len() > p0,
            pi == 0 ==> seen@ == Set::<GrpView>::empty(),
        decreases pn - pi,
    {
        let ghost m = programs@.len() - p0;
        let idx = perms[pi][0];
        proof {
            assert(u8_rows(perms@)[pi as int] == perms@[pi as int]@);
            assert(perms@[pi as int]@[0] == perms_of(nums, 1u8)[pi as int][0]);
        }
        let xop = ProgOp::new_number(idx);
        let ghost xg = xop;
        let inst_start = instructions.len();
        let ghost committed = instructions@;
        instructions.push(xop);
        let ghost cand = ops_view(
            instructions@.subrange(inst_start as int, instructions@.len() as int),
        );
        proof {
            assert(instructions@.subrange(inst_start as int, instructions@.len() as int)
                =~= seq![xg]);
            assert(cand =~= seq![ProgOpView::Number(idx)]);
            assert(balance(cand, 0) == 0);
            assert(balance(cand, 1) == 1);
            assert(wf_postfix(cand));
            assert(operand_count(Seq::<ProgOpView>::empty()) == 0);
            assert(operand_count(cand) == 1) by {
                assert(cand.drop_last() =~= Seq::<ProgOpView>::empty());
            }
            assert(operands_below(cand, nums as int));
            assert(instructions@.subrange(0, a0.len() as int) =~= a0);
            assert forall|j: int|
                0 <= j < programs@.len() implies prog_of(
                instructions@,
                #[trigger] programs@[j],
            ) == prog_of(committed, programs@[j]) by {
                let p = programs@[j];
                assert(instructions@.subrange(p.start as int, p.end as int + 1)
                    =~= committed.subrange(p.start as int, p.end as int + 1));
            }
        }
        proof {
            if !inc_duplicated {
                reveal(grp_stack_model);
                let e: Seq<GrpView> = Seq::empty();
                let st1 = e.push(GrpView::Number(idx));
                assert(grp_stack_model(cand, st1, e, 1) == (st1, e));
                assert(grp_stack_model(cand, e, e, 0) == (st1, e));
                assert(reported_groups_model(cand) == e);
                assert(groups_ok(e));
                assert(crate::duplicates::local_rules_ok(cand));
                assert(cand == singleton_candidate(nums, pi as int)) by {
                    reveal(singleton_candidate);
                }
                if pi == 0 {
                    assert(!Set::<GrpView>::empty().contains(infix_tree_model(cand)));
                }
            }
        }
        let ghost progs0 = programs@;
        let ghost pre_seen = seen@;
        let keep = if inc_duplicated {
            true
        } else {
            let sl = &instructions[inst_start..instructions.len()];
            assert(ops_view(sl@) == cand);
            let reason = duplicated(sl, &mut scratch, &mut seen);
            match reason {
                DupReason::NotDup => true,
                DupReason::TermOrder => {
                    term_dups = term_dups + 1;
                    false
                },
                DupReason::Infix => {
                    infix_dups = infix_dups + 1;
                    false
                },
            }
        };
        assert(pi == 0 ==> keep);
        if keep {
            let iend = instructions.len() - 1;
            let newp = ProgInstr { start: inst_start as u32, end: iend as u32 };
            let ghost preprogs = programs@;
            programs.push(newp);
            proof {
                assert(prog_of(instructions@, newp) == cand) by {
                    assert(instructions@.subrange(newp.start as int, newp.end as int + 1)
                        =~= instructions@.subrange(
                        inst_start as int,
                        instructions@.len() as int,
                    ));
                }
                assert(cand == seq![ProgOpView::Number(perms_of(nums, 1u8)[pi as int][0])]);
                assert(from_singleton_batch(cand, nums)) by {
                    reveal(from_singleton_batch);
                }
                assert forall|i2: int, j2: int|
                    p0 <= i2 < j2 < programs@.len() && !inc_duplicated implies infix_tree_model(
                    prog_of(instructions@, #[trigger] programs@[i2]),
                ) != infix_tree_model(prog_of(instructions@, #[trigger] programs@[j2])) by {
                    if j2 == programs@.len() - 1 {
                        assert(programs@[i2] == preprogs[i2]);
                    }
                }
            }
        } else {
            instructions.truncate(inst_start);
            proof {
                assert(instructions@ =~= committed);
            }
        }
        proof {
            if !inc_duplicated {
                let tree = infix_tree_model(cand);
                assert(seen@ == pre_seen.insert(tree));
                assert forall|p2: int| 0 <= p2 < pi + 1 implies seen@.contains(
                    infix_tree_model(#[trigger] singleton_candidate(nums, p2)),
                ) by {
                    reveal(singleton_candidate);
                    if p2 < pi {
                        assert(pre_seen.contains(
                            infix_tree_model(singleton_candidate(nums, p2)),
                        ));
                    } else {
                        assert(singleton_candidate(nums, p2) == cand);
                    }
                }
                assert forall|g: GrpView| #[trigger] seen@.contains(g) implies tree_kept(
                    programs@,
                    instructions@,
                    p0,
                    programs@.len() as int,
                    g,
                ) by {
                    reveal(tree_kept);
                    if keep && g == tree {
                        let jw = programs@.len() - 1;
                        assert(infix_tree_model(prog_of(instructions@, programs@[jw])) == g);
                    } else {
                        assert(pre_seen.contains(g));
                        let jold = choose|jold: int|
                            p0 <= jold < progs0.len() && infix_tree_model(
                                prog_of(committed, progs0[jold]),
                            ) == g;
                        assert(programs@[jold] == progs0[jold]);
                        assert(prog_of(instructions@, programs@[jold]) == prog_of(
                            committed,
                            progs0[jold],
                        ));
                    }
                }
            }
        }
        pi = pi + 1;
    }
    proof {
        if !inc_duplicated {
            assert forall|pi2: int| 0 <= pi2 < perms_of(nums, 1u8).len() implies tree_kept(
                programs@,
                instructions@,
                p0,
                programs@.len() as int,
                infix_tree_model(#[trigger] singleton_candidate(nums, pi2)),
            ) by {
                assert(seen@.contains(infix_tree_model(singleton_candidate(nums, pi2))));
            }
        }
    }
    (term_dups, infix_dups)
}

/// Some kept program of the collection folds to the canonical grouped
/// form `g`.
pub open spec fn kept_tree(r: Programs, g: GrpView) -> bool {
    exists|j: int| 0 <= j < r.prog_count() && infix_tree_model(#[trigger] r.prog(j)) == g
}

/// Duplicate filtering dropped only restatements: every candidate of
/// every batch either fails the local ordering rules or folds to the
/// same canonical grouped form as some kept program.
pub open spec fn generation_complete(r: Programs, nums: u8, ov: Seq<ProgOpView>) -> bool {
    &&& forall|pi: int|
        0 <= pi < perms_of(nums, 1u8).len() ==> kept_tree(
            r,
            infix_tree_model(#[trigger] singleton_candidate(nums, pi)),
        )
    &&& forall|k: u8, pi: int, ci: int, oi: int|
        2 <= k <= nums && 0 <= pi < perms_of(nums, k).len() && 0 <= ci < op_counts_model(
            k as int,
        ).len() && 0 <= oi < op_combs_model(k as int, ov).len() && local_rules_ok(
            #[trigger] candidate_of(nums, k, ov, pi, ci, oi),
        ) ==> kept_tree(r, infix_tree_model(candidate_of(nums, k, ov, pi, ci, oi)))
}

/// What generation promises of a freshly built collection: every
/// program is a well-formed postfix stream whose operand instructions
/// number one more than its operators, between one and `nums` of them,
/// referring only to slots below `nums`; programs come in order of
/// operand count; and, when duplicates were filtered, no two programs
/// of one operand count fold to the same canonical grouped form and
/// every program passes the local term-ordering rules.
pub open spec fn generated_ok(r: Programs, nums: u8, ov: Seq<ProgOpView>, inc_duplicated: bool) -> bool {
    &&& r.wf()
    &&& r.num_count() == nums
    &&& r.prog_count() >= 1
    &&& forall|i: int|
        0 <= i < r.prog_count() ==> {
            let s = #[trigger] r.prog(i);
            &&& wf_postfix(s)
            &&& operands_below(s, nums as int)
            &&& 1 <= operand_count(s) <= nums
            &&& operand_count(s) == operator_count(s) + 1
        }
    &&& forall|i: int, j: int|
        0 <= i < j < r.prog_count() ==> operand_count(#[trigger] r.prog(i)) <= operand_count(
            #[trigger] r.prog(j),
        )
    &&& !inc_duplicated ==> forall|i: int, j: int|
        0 <= i < j < r.prog_count() && operand_count(#[trigger] r.prog(i)) == operand_count(
            #[trigger] r.prog(j),
        ) ==> infix_tree_model(r.prog(i)) != infix_tree_model(r.prog(j))
    &&& !inc_duplicated ==> forall|i: int|
        0 <= i < r.prog_count() ==> local_rules_ok(#[trigger] r.prog(i))
    &&& inc_duplicated ==> r.prog_count() == total_count_model(nums, nums as int, ov)
    &&& !inc_duplicated ==> generation_complete(r, nums, ov)
    &&& forall|i: int|
        0 <= i < r.prog_count() ==> {
            let s = #[trigger] r.prog(i);
            if operand_count(s) == 1 {
                from_singleton_batch(s, nums)
            } else {
                from_batch(s, nums, operand_count(s) as u8, ov)
            }
        }
}

impl Programs {
    /// Generates every postfix program over up to `nums` operand slots
    /// with the given operator alphabet, filtering commutative and
    /// associative restatements unless duplicates are requested.
    #[verifier::rlimit(100)]
    #[verifier::spinoff_prover]
    pub fn new_with_operators(nums: u8, inc_duplicated: bool, operators: Vec<ProgOp>) -> (r: Programs)
        requires
            1 <= nums <= 32,
            all_valid(operators@),
            forall|i: int| 0 <= i < operators@.len() ==> !((#[trigger] operators@[i])@ is Number),
            arena_budget(nums, nums as int, ops_view(operators@)) <= u32::MAX,
        ensures
            generated_ok(r, nums, ops_view(operators@), inc_duplicated),
    {
        let ghost ov = ops_view(operators@);
        let mut programs: Vec<ProgInstr> = Vec::new();
        let mut instructions: Vec<ProgOp> = Vec::new();
        proof {
            lemma_arena_budget_mono(nums, 1, nums as int, ov);
            assert(arena_budget(nums, 0, ov) == 0);
            assert(batch_count_model(nums, 1, ov) * 2 == arena_budget(nums, 1, ov));
            assert(total_count_model(nums, 0, ov) == 0);
            assert(total_count_model(nums, 1, ov) == batch_count_model(nums, 1, ov));
        }
        generate_single_programs(&mut programs, &mut instructions, nums, inc_duplicated);
        let ghost batch1 = perms_of(nums, 1u8).len() as int;
        let mut num_cnt: u8 = 2;
        while num_cnt <= nums
            invariant
                1 <= nums <= 32,
                ov == ops_view(operators@),
                all_valid(operators@),
                forall|i: int|
                    0 <= i < operators@.len() ==> !((#[trigger] operators@[i])@ is Number),
                arena_budget(nums, nums as int, ov) <= u32::MAX,
                2 <= num_cnt <= nums + 1,
                programs@.len() >= 1,
                all_valid(instructions@),
                ranges_ok(programs@, instructions@, 0, programs@.len() as int),
                instructions@.len() <= arena_budget(nums, num_cnt - 1, ov),
                forall|i: int|
                    0 <= i < programs@.len() ==> {
                        let s = prog_of(instructions@, #[trigger] programs@[i]);
                        &&& wf_postfix(s)
                        &&& operands_below(s, nums as int)
                        &&& 1 <= operand_count(s) <= num_cnt - 1
                    },
                forall|i: int, j: int|
                    0 <= i < j < programs@.len() ==> operand_count(
                        prog_of(instructions@, #[trigger] programs@[i]),
                    ) <= operand_count(prog_of(instructions@, #[trigger] programs@[j])),
                !inc_duplicated ==> forall|i: int, j: int|
                    0 <= i < j < programs@.len() && operand_count(
                        prog_of(instructions@, #[trigger] programs@[i]),
                    ) == operand_count(prog_of(instructions@, #[trigger] programs@[j]))
                        ==> infix_tree_model(prog_of(instructions@, programs@[i]))
                        != infix_tree_model(prog_of(instructions@, programs@[j])),
                !inc_duplicated ==> batch_rules_ok(programs@, instructions@, 0, programs@.len() as int),
                inc_duplicated ==> programs@.len() == total_count_model(nums, num_cnt - 1, ov),
                forall|i: int|
                    0 <= i < programs@.len() ==> {
                        let s = prog_of(instructions@, #[trigger] programs@[i]);
                        if operand_count(s) == 1 {
                            from_singleton_batch(s, nums)
                        } else {
                            from_batch(s, nums, operand_count(s) as u8, ov)
                        }
                    },
                !inc_duplicated ==> forall|pi: int|
                    0 <= pi < perms_of(nums, 1u8).len() ==> tree_kept(
                        programs@,
                        instructions@,
                        0,
                        programs@.len() as int,
                        infix_tree_model(#[trigger] singleton_candidate(nums, pi)),
                    ),
                !inc_duplicated ==> forall|kk: u8, pi: int, ci: int, oi: int|
                    2 <= kk < num_cnt && 0 <= pi < perms_of(nums, kk).len() && 0 <= ci
                        < op_counts_model(kk as int).len() && 0 <= oi < op_combs_model(
                        kk as int,
                        ov,
                    ).len() && local_rules_ok(#[trigger] candidate_of(nums, kk, ov, pi, ci, oi))
                        ==> tree_kept(
                        programs@,
                        instructions@,
                        0,
                        programs@.len() as int,
                        infix_tree_model(candidate_of(nums, kk, ov, pi, ci, oi)),
                    ),
            decreases nums + 1 - num_cnt,
        {
            proof {
                lemma_arena_budget_mono(nums, num_cnt as int, nums as int, ov);
                assert(arena_budget(nums, num_cnt as int, ov) == arena_budget(
                    nums,
                    num_cnt - 1,
                    ov,
                ) + batch_count_model(nums, num_cnt as int, ov) * (2 * num_cnt as int));
                crate::generate::lemma_batch_nonneg(nums, num_cnt as int, ov);
                assert(instructions@.len() + batch_count_model(nums, num_cnt as int, ov) * (2
                    * num_cnt as int) <= u32::MAX);
            }
            let ghost preprogs = programs@;
            let ghost prearena = instructions@;
            let ghost prelen = programs@.len() as int;
            let dups = generate_num_programs(
                &mut programs,
                &mut instructions,
                num_cnt,
                nums,
                &operators,
                inc_duplicated,
            );
            proof {
                let batchk = batch_count_model(nums, num_cnt as int, ov);
                assert forall|i: int|
                    0 <= i < prelen implies prog_of(instructions@, #[trigger] programs@[i])
                    == prog_of(prearena, preprogs[i]) by {
                    assert(programs@[i] == preprogs[i]);
                    let p = preprogs[i];
                    assert(instructions@.subrange(p.start as int, p.end as int + 1)
                        =~= prearena.subrange(p.start as int, p.end as int + 1));
                }
                let added = programs@.len() - prelen;
                assert(added + dups.0 + dups.1 == batchk);
                assert(instructions@.len() - prearena.len() == added * (2 * num_cnt as int - 1))
                    by {
                    assert(instructions@.len() >= prearena.len());
                }
                assert(added * (2 * num_cnt as int - 1) <= batchk * (2 * num_cnt as int)) by (
                nonlinear_arith)
                    requires
                        0 <= added,
                        added <= batchk,
                        2 <= num_cnt as int,
                ;
                lemma_batch_transfer(
                    preprogs,
                    prearena,
                    programs@,
                    instructions@,
                    nums,
                    num_cnt,
                    ov,
                    inc_duplicated,
                );
            }
            num_cnt = num_cnt + 1;
        }
        let r = Programs { programs, instructions, nums };
        proof {
            lemma_generated_parts(r, nums, ov, inc_duplicated);
        }
        r
    }

    /// Generates every program over up to `nums` operand slots with the
    /// standard four-operator alphabet.
    pub fn new(nums: u8, inc_duplicated: bool) -> (r: Programs)
        requires
            1 <= nums <= 32,
            arena_budget(nums, nums as int, default_operator_views()) <= u32::MAX,
        ensures
            generated_ok(r, nums, default_operator_views(), inc_duplicated),
    {
        let operators = default_operators();
        Self::new_with_operators(nums, inc_duplicated, operators)
    }
}

/// Assembles the collection-level guarantees from the per-batch facts
/// the generation loop accumulates.
#[verifier::rlimit(100)]
#[verifier::spinoff_prover]
proof fn lemma_generated_parts(r: Programs, nums: u8, ov: Seq<ProgOpView>, inc_duplicated: bool)
    requires
        r.num_count() == nums,
        1 <= nums <= 32,
        r.programs@.len() >= 1,
        all_valid(r.instructions@),
        ranges_ok(r.programs@, r.instructions@, 0, r.programs@.len() as int),
        forall|i: int|
            0 <= i < r.programs@.len() ==> {
                let s = prog_of(r.instructions@, #[trigger] r.programs@[i]);
                &&& wf_postfix(s)
                &&& operands_below(s, nums as int)
                &&& 1 <= operand_count(s) <= nums
            },
        forall|i: int, j: int|
            0 <= i < j < r.programs@.len() ==> operand_count(
                prog_of(r.instructions@, #[trigger] r.programs@[i]),
            ) <= operand_count(prog_of(r.instructions@, #[trigger] r.programs@[j])),
        !inc_duplicated ==> forall|i: int, j: int|
            0 <= i < j < r.programs@.len() && operand_count(
                prog_of(r.instructions@, #[trigger] r.programs@[i]),
            ) == operand_count(prog_of(r.instructions@, #[trigger] r.programs@[j]))
                ==> infix_tree_model(prog_of(r.instructions@, r.programs@[i]))
                != infix_tree_model(prog_of(r.instructions@, r.programs@[j])),
        !inc_duplicated ==> batch_rules_ok(
            r.programs@,
            r.instructions@,
            0,
            r.programs@.len() as int,
        ),
        inc_duplicated ==> r.programs@.len() == total_count_model(nums, nums as int, ov),
        forall|i: int|
            0 <= i < r.programs@.len() ==> {
                let s = prog_of(r.instructions@, #[trigger] r.programs@[i]);
                if operand_count(s) == 1 {
                    from_singleton_batch(s, nums)
                } else {
                    from_batch(s, nums, operand_count(s) as u8, ov)
                }
            },
        !inc_duplicated ==> forall|pi: int|
            0 <= pi < perms_of(nums, 1u8).len() ==> tree_kept(
                r.programs@,
                r.instructions@,
                0,
                r.programs@.len() as int,
                infix_tree_model(#[trigger] singleton_candidate(nums, pi)),
            ),
        !inc_duplicated ==> forall|kk: u8, pi: int, ci: int, oi: int|
            2 <= kk <= nums && 0 <= pi < perms_of(nums, kk).len() && 0 <= ci < op_counts_model(
                kk as int,
            ).len() && 0 <= oi < op_combs_model(kk as int, ov).len() && local_rules_ok(
                #[trigger] candidate_of(nums, kk, ov, pi, ci, oi),
            ) ==> tree_kept(
                r.programs@,
                r.instructions@,
                0,
                r.programs@.len() as int,
                infix_tree_model(candidate_of(nums, kk, ov, pi, ci, oi)),
            ),
    ensures
        generated_ok(r, nums, ov, inc_duplicated),
{
    assert forall|i: int| 0 <= i < r.prog_count() implies {
        let s = #[trigger] r.prog(i);
        &&& wf_postfix(s)
        &&& operands_below(s, nums as int)
        &&& 1 <= operand_count(s) <= nums
        &&& operand_count(s) == operator_count(s) + 1
    } by {
        assert(r.prog(i) == prog_of(r.instructions@, r.programs@[i]));
        let s = r.prog(i);
        lemma_balance_counts(s, s.len() as int);
        assert(s.take(s.len() as int) =~= s);
    }
    assert forall|i: int, j: int|
        0 <= i < j < r.prog_count() implies operand_count(#[trigger] r.prog(i))
        <= operand_count(#[trigger] r.prog(j)) by {
        assert(r.prog(i) == prog_of(r.instructions@, r.programs@[i]));
        assert(r.prog(j) == prog_of(r.instructions@, r.programs@[j]));
    }
    assert forall|i: int| 0 <= i < r.prog_count() implies {
        let s = #[trigger] r.prog(i);
        if operand_count(s) == 1 {
            from_singleton_batch(s, nums)
        } else {
            from_batch(s, nums, operand_count(s) as u8, ov)
        }
    } by {
        assert(r.prog(i) == prog_of(r.instructions@, r.programs@[i]));
    }
    if !inc_duplicated {
        assert forall|i: int, j: int|
            0 <= i < j < r.prog_count() && operand_count(#[trigger] r.prog(i))
            == operand_count(#[trigger] r.prog(j)) implies infix_tree_model(r.prog(i))
            != infix_tree_model(r.prog(j)) by {
            assert(r.prog(i) == prog_of(r.instructions@, r.programs@[i]));
            assert(r.prog(j) == prog_of(r.instructions@, r.programs@[j]));
        }
        assert forall|i: int| 0 <= i < r.prog_count() implies local_rules_ok(
            #[trigger] r.prog(i),
        ) by {
            assert(r.prog(i) == prog_of(r.instructions@, r.programs@[i]));
        }
        assert forall|pi2: int|
            0 <= pi2 < perms_of(nums, 1u8).len() implies kept_tree(
            r,
            infix_tree_model(#[trigger] singleton_candidate(nums, pi2)),
        ) by {
            reveal(tree_kept);
            let g = infix_tree_model(singleton_candidate(nums, pi2));
            let j = choose|j: int|
                0 <= j < r.programs@.len() && infix_tree_model(
                    prog_of(r.instructions@, r.programs@[j]),
                ) == g;
            assert(r.prog(j) == prog_of(r.instructions@, r.programs@[j]));
            assert(infix_tree_model(#[trigger] r.prog(j)) == g);
        }
        assert forall|kk: u8, pi2: int, ci2: int, oi2: int|
            2 <= kk <= nums && 0 <= pi2 < perms_of(nums, kk).len() && 0 <= ci2
                < op_counts_model(kk as int).len() && 0 <= oi2 < op_combs_model(
                kk as int,
                ov,
            ).len() && local_rules_ok(
            #[trigger] candidate_of(nums, kk, ov, pi2, ci2, oi2),
        ) implies kept_tree(
            r,
            infix_tree_model(candidate_of(nums, kk, ov, pi2, ci2, oi2)),
        ) by {
            reveal(tree_kept);
            let g = infix_tree_model(candidate_of(nums, kk, ov, pi2, ci2, oi2));
            let j = choose|j: int|
                0 <= j < r.programs@.len() && infix_tree_model(
                    prog_of(r.instructions@, r.programs@[j]),
                ) == g;
            assert(r.prog(j) == prog_of(r.instructions@, r.programs@[j]));
            assert(infix_tree_model(#[trigger] r.prog(j)) == g);
        }
        assert(generation_complete(r, nums, ov));
    }
}

/// Facts about one operator-choice row: its length, its model, and
/// that it holds operators only, since the alphabet does.
#[verifier::rlimit(60)]
proof fn lemma_comb_row_ok(operators: Seq<ProgOp>, combs: Seq<Vec<ProgOp>>, oi: int, k: u8)
    requires
        2 <= k <= 32,
        forall|i: int| 0 <= i < operators.len() ==> !((#[trigger] operators[i])@ is Number),
        op_rows(combs) == op_combs_model(k as int, ops_view(operators)),
        0 <= oi < combs.len(),
    ensures
        combs[oi]@.len() == k as int - 1,
        ops_view(combs[oi]@) == op_combs_model(k as int, ops_view(operators))[oi],
        forall|j: int|
            0 <= j < combs[oi]@.len() ==> !((#[trigger] combs[oi]@[j])@ is Number),
{
    let ov = ops_view(operators);
    assert(op_rows(combs)[oi] == ops_view(combs[oi]@));
    lemma_combs_rec_props(Seq::empty(), 0, k as int - 1, ov);
    assert(op_combs_model(k as int, ov)[oi] == ops_view(combs[oi]@));
    assert(ops_view(combs[oi]@).len() == k as int - 1);
    assert forall|j: int|
        0 <= j < combs[oi]@.len() implies !((#[trigger] combs[oi]@[j])@ is Number) by {
        let cv = ops_view(combs[oi]@);
        assert(cv[j] == combs[oi]@[j]@);
        assert(ov.contains(cv[j]));
        let w = choose|w: int| 0 <= w < ov.len() && ov[w] == cv[j];
        assert(ov[w] == operators[w]@);
    }
}

/// Carries the accumulated coverage facts across one generation
/// batch: programs kept so far are untouched, so coverage of earlier
/// candidates transfers, and the new batch covers its own candidates.
#[verifier::rlimit(100)]
#[verifier::spinoff_prover]
proof fn lemma_batch_transfer(
    preprogs: Seq<ProgInstr>,
    prearena: Seq<ProgOp>,
    progs: Seq<ProgInstr>,
    instrs: Seq<ProgOp>,
    nums: u8,
    num_cnt: u8,
    ov: Seq<ProgOpView>,
    inc_duplicated: bool,
)
    requires
        2 <= num_cnt <= nums <= 32,
        preprogs.len() >= 1,
        progs.len() >= preprogs.len(),
        forall|j: int| 0 <= j < preprogs.len() ==> #[trigger] progs[j] == preprogs[j],
        forall|j: int|
            0 <= j < preprogs.len() ==> prog_of(instrs, #[trigger] progs[j]) == prog_of(
                prearena,
                preprogs[j],
            ),
        !inc_duplicated ==> forall|pi: int|
            0 <= pi < perms_of(nums, 1u8).len() ==> tree_kept(
                preprogs,
                prearena,
                0,
                preprogs.len() as int,
                infix_tree_model(#[trigger] singleton_candidate(nums, pi)),
            ),
        !inc_duplicated ==> forall|kk: u8, pi: int, ci: int, oi: int|
            2 <= kk < num_cnt && 0 <= pi < perms_of(nums, kk).len() && 0 <= ci
                < op_counts_model(kk as int).len() && 0 <= oi < op_combs_model(
                kk as int,
                ov,
            ).len() && local_rules_ok(#[trigger] candidate_of(nums, kk, ov, pi, ci, oi))
                ==> tree_kept(
                preprogs,
                prearena,
                0,
                preprogs.len() as int,
                infix_tree_model(candidate_of(nums, kk, ov, pi, ci, oi)),
            ),
        !inc_duplicated ==> batch_complete(
            progs,
            instrs,
            preprogs.len() as int,
            progs.len() as int,
            nums,
            num_cnt,
            ov,
        ),
    ensures
        !inc_duplicated ==> forall|pi: int|
            0 <= pi < perms_of(nums, 1u8).len() ==> tree_kept(
                progs,
                instrs,
                0,
                progs.len() as int,
                infix_tree_model(#[trigger] singleton_candidate(nums, pi)),
            ),
        !inc_duplicated ==> forall|kk: u8, pi: int, ci: int, oi: int|
            2 <= kk < num_cnt + 1 && 0 <= pi < perms_of(nums, kk).len() && 0 <= ci
                < op_counts_model(kk as int).len() && 0 <= oi < op_combs_model(
                kk as int,
                ov,
            ).len() && local_rules_ok(#[trigger] candidate_of(nums, kk, ov, pi, ci, oi))
                ==> tree_kept(
                progs,
                instrs,
                0,
                progs.len() as int,
                infix_tree_model(candidate_of(nums, kk, ov, pi, ci, oi)),
            ),
{
    let prelen = preprogs.len() as int;
    if !inc_duplicated {
        assert forall|pi2: int|
            0 <= pi2 < perms_of(nums, 1u8).len() implies tree_kept(
            progs,
            instrs,
            0,
            progs.len() as int,
            infix_tree_model(#[trigger] singleton_candidate(nums, pi2)),
        ) by {
            reveal(tree_kept);
            let g = infix_tree_model(singleton_candidate(nums, pi2));
            let j = choose|j: int|
                0 <= j < prelen && infix_tree_model(prog_of(prearena, preprogs[j])) == g;
            assert(progs[j] == preprogs[j]);
            assert(prog_of(instrs, progs[j]) == prog_of(prearena, preprogs[j]));
        }
        assert forall|kk: u8, pi2: int, ci2: int, oi2: int|
            2 <= kk < num_cnt + 1 && 0 <= pi2 < perms_of(nums, kk).len() && 0 <= ci2
                < op_counts_model(kk as int).len() && 0 <= oi2 < op_combs_model(
                kk as int,
                ov,
            ).len() && local_rules_ok(
            #[trigger] candidate_of(nums, kk, ov, pi2, ci2, oi2),
        ) implies tree_kept(
            progs,
            instrs,
            0,
            progs.len() as int,
            infix_tree_model(candidate_of(nums, kk, ov, pi2, ci2, oi2)),
        ) by {
            reveal(tree_kept);
            let g = infix_tree_model(candidate_of(nums, kk, ov, pi2, ci2, oi2));
            if kk == num_cnt {
                assert(tree_kept(progs, instrs, prelen, progs.len() as int, g)) by {
                    reveal(batch_complete);
                }
                let j = choose|j: int|
                    prelen <= j < progs.len() && infix_tree_model(prog_of(instrs, progs[j]))
                        == g;
                assert(0 <= j < progs.len());
                assert(infix_tree_model(prog_of(instrs, #[trigger] progs[j])) == g);
            } else {
                let j = choose|j: int|
                    0 <= j < prelen && infix_tree_model(prog_of(prearena, preprogs[j])) == g;
                assert(progs[j] == preprogs[j]);
                assert(prog_of(instrs, progs[j]) == prog_of(prearena, preprogs[j]));
            }
        }
    }
}

/// The views of the standard operator alphabet, in enumeration order.
pub open spec fn default_operator_views() -> Seq<ProgOpView> {
    seq![ProgOpView::Add, ProgOpView::Sub, ProgOpView::Mul, ProgOpView::Div]
}

/// The standard operator alphabet: addition, subtraction,
/// multiplication and division.
pub fn default_operators() -> (r: Vec<ProgOp>)
    ensures
        ops_view(r@) == default_operator_views(),
        all_valid(r@),
        forall|i: int| 0 <= i < r@.len() ==> !((#[trigger] r@[i])@ is Number),
{
    let mut r: Vec<ProgOp> = Vec::new();
    r.push(ProgOp::op_add());
    r.push(ProgOp::op_sub());
    r.push(ProgOp::op_mul());
    r.push(ProgOp::op_div());
    proof {
        assert(ops_view(r@) =~= default_operator_views());
    }
    r
}

/// Computes the arena space budget for a generation run, or nothing
/// when it exceeds the machine word.
#[verifier::loop_isolation(false)]
fn compute_arena_budget(nums: u8, operators: &Vec<ProgOp>) -> (r: Option<usize>)
    requires
        1 <= nums <= 32,
        all_valid(operators@),
    ensures
        match r {
            Some(b) => b as int == arena_budget(nums, nums as int, ops_view(operators@)),
            None => arena_budget(nums, nums as int, ops_view(operators@)) > usize::MAX,
        },
{
    let ghost ov = ops_view(operators@);
    let mut acc: usize = 0;
    let mut k: u8 = 1;
    while k <= nums
        invariant
            1 <= k <= nums + 1,
            acc as int == arena_budget(nums, k - 1, ov),
        decreases nums + 1 - k,
    {
        let perms = permutations_of(nums, k);
        let p = perms.len();
        let batch: usize;
        if k == 1 {
            batch = p;
        } else {
            let counts = op_counts(k);
            let combs = op_combs(k, operators);
            let a = counts.len();
            let b = combs.len();
            proof {
                assert(p as int == perms_of(nums, k).len());
                assert(a as int == op_counts_model(k as int).len());
                assert(b as int == op_combs_model(k as int, ov).len());
            }
            if b == 0 {
                batch = 0;
                proof {
                    assert(batch_count_model(nums, k as int, ov) == 0) by (nonlinear_arith)
                        requires
                            batch_count_model(nums, k as int, ov) == p as int * a as int * 0,
                    ;
                }
            } else {
                let pa = match p.checked_mul(a) {
                    Some(v) => v,
                    None => {
                        proof {
                            assert(batch_count_model(nums, k as int, ov) >= p as int
                                * a as int) by (nonlinear_arith)
                                requires
                                    batch_count_model(nums, k as int, ov) == p as int * a as int
                                        * b as int,
                                    p as int >= 0,
                                    a as int >= 0,
                                    b as int >= 1,
                            ;
                            lemma_budget_overflow(nums, k as int, ov, p as int * a as int);
                        }
                        return None;
                    },
                };
                let pab = match pa.checked_mul(b) {
                    Some(v) => v,
                    None => {
                        proof {
                            assert(p as int * a as int * b as int > usize::MAX) by (
                            nonlinear_arith)
                                requires
                                    pa as int == p as int * a as int,
                                    pa as int * b as int > usize::MAX,
                            ;
                            lemma_budget_overflow(nums, k as int, ov, p as int * a as int
                                * b as int);
                        }
                        return None;
                    },
                };
                batch = pab;
            }
        }
        let term = match batch.checked_mul(2 * k as usize) {
            Some(v) => v,
            None => {
                proof {
                    lemma_budget_term_overflow(nums, k as int, ov, batch as int);
                }
                return None;
            },
        };
        proof {
            assert(term as int == batch_count_model(nums, k as int, ov) * (2 * k as int));
        }
        acc = match acc.checked_add(term) {
            Some(v) => v,
            None => {
                proof {
                    lemma_arena_budget_mono(nums, k as int, nums as int, ov);
                }
                return None;
            },
        };
        k = k + 1;
    }
    proof {
        assert(acc as int == arena_budget(nums, nums as int, ov));
    }
    Some(acc)
}

proof fn lemma_budget_overflow(n: u8, k: int, ov: Seq<ProgOpView>, part: int)
    requires
        1 <= k <= n <= 32,
        part > usize::MAX,
        batch_count_model(n, k, ov) >= part,
    ensures
        arena_budget(n, n as int, ov) > usize::MAX,
{
    assert(batch_count_model(n, k, ov) * (2 * k) >= batch_count_model(n, k, ov)) by (
    nonlinear_arith)
        requires
            batch_count_model(n, k, ov) >= 0,
            k >= 1,
    ;
    lemma_arena_budget_step(n, k, ov);
    lemma_arena_budget_mono(n, k, n as int, ov);
    lemma_arena_budget_mono(n, k - 1, k - 1, ov);
}

proof fn lemma_budget_term_overflow(n: u8, k: int, ov: Seq<ProgOpView>, batch: int)
    requires
        1 <= k <= n <= 32,
        batch == batch_count_model(n, k, ov),
        batch * (2 * k) > usize::MAX,
    ensures
        arena_budget(n, n as int, ov) > usize::MAX,
{
    lemma_arena_budget_step(n, k, ov);
    lemma_arena_budget_mono(n, k, n as int, ov);
    lemma_arena_budget_mono(n, k - 1, k - 1, ov);
}

proof fn lemma_arena_budget_step(n: u8, k: int, ov: Seq<ProgOpView>)
    requires
        k >= 1,
    ensures
        arena_budget(n, k, ov) == arena_budget(n, k - 1, ov) + batch_count_model(n, k, ov) * (2
            * k),
{
}

impl Programs {
    /// Generates the collection with a custom operator alphabet after
    /// checking that the generated instruction arena will fit its
    /// 32-bit indices; returns nothing when it would not.
    pub fn try_new_with_operators(nums: u8, inc_duplicated: bool, operators: Vec<ProgOp>) -> (r:
        Option<Programs>)
        requires
            1 <= nums <= 32,
            all_valid(operators@),
            forall|i: int| 0 <= i < operators@.len() ==> !((#[trigger] operators@[i])@ is Number),
        ensures
            match r {
                Some(ps) => generated_ok(ps, nums, ops_view(operators@), inc_duplicated),
                None => arena_budget(nums, nums as int, ops_view(operators@)) > u32::MAX,
            },
    {
        let budget = compute_arena_budget(nums, &operators);
        match budget {
            Some(b) => {
                if b as u64 <= u32::MAX as u64 {
                    Some(Programs::new_with_operators(nums, inc_duplicated, operators))
                } else {
                    None
                }
            },
            None => None,
        }
    }

    /// Generates the collection with the standard four-operator
    /// alphabet after checking that the generated instruction arena
    /// will fit its 32-bit indices; returns nothing when it would not.
    pub fn try_new(nums: u8, inc_duplicated: bool) -> (r: Option<Programs>)
        requires
            1 <= nums <= 32,
        ensures
            match r {
                Some(ps) => generated_ok(ps, nums, default_operator_views(), inc_duplicated),
                None => arena_budget(nums, nums as int, default_operator_views()) > u32::MAX,
            },
    {
        let operators = default_operators();
        Programs::try_new_with_operators(nums, inc_duplicated, operators)
    }
}

/// The result of running one program: which program, how many
/// instructions it has, and the value it produced. The ordering key for
/// reports is result first, then length, then program index.
pub struct Solution {
    /// Index of the program providing the solution.
    pub program: usize,
    /// Instruction count of the solving program, the tiebreak of the
    /// report ordering.
    pub length: usize,
    /// The value the program produced for the given numbers.
    pub result: u32,
}

impl View for Solution {
    type V = (int, int, u32);

    open spec fn view(&self) -> (int, int, u32) {
        (self.program as int, self.length as int, self.result)
    }
}

impl Solution {
    /// Creates a solution record.
    pub fn new(program: usize, length: usize, result: u32) -> (r: Solution)
        ensures
            r@ == (program as int, length as int, result),
    {
        Solution { program, length, result }
    }

    /// The instruction count of the solving program.
    pub fn length(&self) -> (r: usize)
        ensures
            r == self@.1,
    {
        self.length
    }
}

/// The tallies of one full sweep of the program collection against one
/// number assignment.
pub ghost struct ResultsView {
    /// The accepted solutions, in program order.
    pub solutions: Seq<(int, int, u32)>,
    /// Programs whose answer fell below the target range.
    pub under_range: int,
    /// Programs whose answer rose above the target range.
    pub above_range: int,
    /// Programs aborted on a zero intermediate result.
    pub zero: int,
    /// Programs aborted on a negative intermediate result.
    pub negative: int,
    /// Programs aborted on a division by zero.
    pub div_zero: int,
    /// Programs aborted on a non-integer intermediate result.
    pub non_integer: int,
    /// Programs aborted on a multiplication by one.
    pub mult_by_1: int,
    /// Programs aborted on a division by one.
    pub div_by_1: int,
}

/// Holds the results of running all programs against one number
/// assignment.
pub struct Results {
    /// Valid solution collection.
    pub solutions: Vec<Solution>,
    /// Number of programs with an answer below the valid range.
    pub under_range: usize,
    /// Number of programs with an answer above the valid range.
    pub above_range: usize,
    /// Number of programs with a zero intermediate result.
    pub zero: usize,
    /// Number of programs with a negative intermediate result.
    pub negative: usize,
    /// Number of programs encountering a division by zero.
    pub div_zero: usize,
    /// Number of programs with a non-integer intermediate result.
    pub non_integer: usize,
    /// Number of programs multiplying by one.
    pub mult_by_1: usize,
    /// Number of programs dividing by one.
    pub div_by_1: usize,
}

impl View for Results {
    type V = ResultsView;

    open spec fn view(&self) -> ResultsView {
        ResultsView {
            solutions: self.solutions@.map_values(|s: Solution| s@),
            under_range: self.under_range as int,
            above_range: self.above_range as int,
            zero: self.zero as int,
            negative: self.negative as int,
            div_zero: self.div_zero as int,
            non_integer: self.non_integer as int,
            mult_by_1: self.mult_by_1 as int,
            div_by_1: self.div_by_1 as int,
        }
    }
}

impl Programs {
    /// Every program of the collection is a well-formed postfix stream.
    pub open spec fn all_wf(self) -> bool {
        forall|i: int| 0 <= i < self.prog_count() ==> wf_postfix(#[trigger] self.prog(i))
    }

    /// The tallies after running the first `i` programs: each answer in
    /// the target range 100 to 999 is recorded as a solution, answers
    /// outside it and each error kind are counted.
    pub open spec fn run_all_model(self, numbers: Seq<u8>, i: int) -> ResultsView
        decreases i,
    {
        if i <= 0 {
            ResultsView {
                solutions: Seq::empty(),
                under_range: 0,
                above_range: 0,
                zero: 0,
                negative: 0,
                div_zero: 0,
                non_integer: 0,
                mult_by_1: 0,
                div_by_1: 0,
            }
        } else {
            let prev = self.run_all_model(numbers, i - 1);
            match run_model(self.prog(i - 1), numbers) {
                Ok(ans) => {
                    if ans < 100 {
                        ResultsView { under_range: prev.under_range + 1, ..prev }
                    } else if ans > 999 {
                        ResultsView { above_range: prev.above_range + 1, ..prev }
                    } else {
                        ResultsView {
                            solutions: prev.solutions.push(
                                (i - 1, self.prog(i - 1).len() as int, ans),
                            ),
                            ..prev
                        }
                    }
                },
                Err(e) => match e {
                    crate::progop::ProgErr::Zero => ResultsView { zero: prev.zero + 1, ..prev },
                    crate::progop::ProgErr::Negative => ResultsView {
                        negative: prev.negative + 1,
                        ..prev
                    },
                    crate::progop::ProgErr::DivZero => ResultsView {
                        div_zero: prev.div_zero + 1,
                        ..prev
                    },
                    crate::progop::ProgErr::NonInteger => ResultsView {
                        non_integer: prev.non_integer + 1,
                        ..prev
                    },
                    crate::progop::ProgErr::Mul1 => ResultsView {
                        mult_by_1: prev.mult_by_1 + 1,
                        ..prev
                    },
                    crate::progop::ProgErr::Div1 => ResultsView {
                        div_by_1: prev.div_by_1 + 1,
                        ..prev
                    },
                },
            }
        }
    }

    /// Runs every program against a number assignment and returns the
    /// tallies and the solutions found.
    #[verifier::loop_isolation(false)]
    pub fn run_all(&self, numbers: &[u8]) -> (r: Results)
        requires
            self.wf(),
            self.all_wf(),
            numbers.len() == self.num_count(),
        ensures
            r@ == self.run_all_model(numbers@, self.prog_count()),
    {
        let mut results = Results {
            solutions: Vec::new(),
            under_range: 0,
            above_range: 0,
            zero: 0,
            negative: 0,
            div_zero: 0,
            non_integer: 0,
            mult_by_1: 0,
            div_by_1: 0,
        };
        proof {
            assert(results@.solutions =~= Seq::<(int, int, u32)>::empty());
        }
        let mut stack: Vec<u32> = Vec::with_capacity(self.nums as usize);
        let n = self.len();
        let mut i: usize = 0;
        while i < n
            invariant
                0 <= i <= n,
                n == self.prog_count(),
                results@ == self.run_all_model(numbers@, i as int),
                results@.solutions.len() + results.under_range + results.above_range
                    + results.zero + results.negative + results.div_zero + results.non_integer
                    + results.mult_by_1 + results.div_by_1 == i,
            decreases n - i,
        {
            let instructions = self.instructions(i);
            let ghost pre = results@;
            let ans = run_instructions(instructions, numbers, &mut stack);
            match ans {
                Ok(v) => {
                    if v < 100 {
                        results.under_range = results.under_range + 1;
                    } else if v > 999 {
                        results.above_range = results.above_range + 1;
                    } else {
                        let len = instructions.len();
                        results.solutions.push(Solution::new(i, len, v));
                        proof {
                            assert(results@.solutions =~= pre.solutions.push(
                                (i as int, self.prog(i as int).len() as int, v),
                            ));
                        }
                    }
                },
                Err(crate::progop::ProgErr::Zero) => {
                    results.zero = results.zero + 1;
                },
                Err(crate::progop::ProgErr::Negative) => {
                    results.negative = results.negative + 1;
                },
                Err(crate::progop::ProgErr::DivZero) => {
                    results.div_zero = results.div_zero + 1;
                },
                Err(crate::progop::ProgErr::NonInteger) => {
                    results.non_integer = results.non_integer + 1;
                },
                Err(crate::progop::ProgErr::Mul1) => {
                    results.mult_by_1 = results.mult_by_1 + 1;
                },
                Err(crate::progop::ProgErr::Div1) => {
                    results.div_by_1 = results.div_by_1 + 1;
                },
            }
            i = i + 1;
        }
        results
    }

    /// The solutions matching one target after running the first `i`
    /// programs.
    pub open spec fn run_target_model(self, target: u32, numbers: Seq<u8>, i: int) -> Seq<
        (int, int, u32),
    >
        decreases i,
    {
        if i <= 0 {
            Seq::empty()
        } else {
            let prev = self.run_target_model(target, numbers, i - 1);
            match run_model(self.prog(i - 1), numbers) {
                Ok(ans) => {
                    if ans == target {
                        prev.push((i - 1, self.prog(i - 1).len() as int, ans))
                    } else {
                        prev
                    }
                },
                Err(_) => prev,
            }
        }
    }

    /// Runs every program against a number assignment and returns the
    /// solutions hitting the given target, in program order.
    #[verifier::loop_isolation(false)]
    pub fn run_all_target(&self, target: u32, numbers: &[u8]) -> (r: Vec<Solution>)
        requires
            self.wf(),
            self.all_wf(),
            numbers.len() == self.num_count(),
        ensures
            r@.map_values(|s: Solution| s@) == self.run_target_model(
                target,
                numbers@,
                self.prog_count(),
            ),
    {
        let mut solutions: Vec<Solution> = Vec::new();
        proof {
            assert(solutions@.map_values(|s: Solution| s@) =~= Seq::<(int, int, u32)>::empty());
        }
        let mut stack: Vec<u32> = Vec::with_capacity(numbers.len());
        let n = self.len();
        let mut i: usize = 0;
        while i < n
            invariant
                0 <= i <= n,
                n == self.prog_count(),
                solutions@.map_values(|s: Solution| s@) == self.run_target_model(
                    target,
                    numbers@,
                    i as int,
                ),
            decreases n - i,
        {
            let instructions = self.instructions(i);
            let ghost pre = solutions@;
            let ans = run_instructions(instructions, numbers, &mut stack);
            match ans {
                Ok(v) => {
                    if v == target {
                        let len = instructions.len();
                        solutions.push(Solution::new(i, len, v));
                        proof {
                            assert(solutions@.map_values(|s: Solution| s@) =~= pre.map_values(
                                |s: Solution| s@,
                            ).push((i as int, self.prog(i as int).len() as int, v)));
                        }
                    }
                },
                Err(_) => {},
            }
            i = i + 1;
        }
        solutions
    }
}

/// One-character RPN tokens joined by single spaces.
pub open spec fn spaced(toks: Seq<char>) -> Seq<char>
    decreases toks.len(),
{
    if toks.len() == 0 {
        Seq::empty()
    } else if toks.len() == 1 {
        seq![toks[0]]
    } else {
        spaced(toks.drop_last()) + seq![' '] + seq![toks.last()]
    }
}

/// A token character that renders back to itself: a digit whose slot
/// maps to its own value, or one of the four operator symbols, each of
/// which the RPN renderer emits exactly as parsed.
pub open spec fn round_trip_token(c: char, numbers: Seq<u8>) -> bool {
    ||| ('0' <= c && c <= '9' && (c as int - '0' as int) < numbers.len() && numbers[c as int
        - '0' as int] == c as int - '0' as int)
    ||| c == '+'
    ||| c == '-'
    ||| c == '*'
    ||| c == '/'
}

proof fn lemma_parse_push(text: Seq<char>, c: char)
    ensures
        parse_model(text.push(c)) == (match char_instr(c) {
            Some(op) => parse_model(text).push(op),
            None => parse_model(text),
        }),
{
    assert(text.push(c).drop_last() =~= text);
    assert(text.push(c).last() == c);
}

/// Parsing a spaced token text and re-rendering it via the RPN
/// renderer reproduces the original text: the round trip over the
/// textual RPN representation is the identity, for programs written
/// with digit tokens and the four operator signs against a number
/// assignment mapping each slot to its own index.
pub proof fn lemma_rpn_round_trip(toks: Seq<char>, numbers: Seq<u8>)
    requires
        toks.len() >= 1,
        forall|i: int| 0 <= i < toks.len() ==> round_trip_token(#[trigger] toks[i], numbers),
    ensures
        parse_model(spaced(toks)).len() == toks.len(),
        rpn_text(parse_model(spaced(toks)), numbers) == spaced(toks),
    decreases toks.len(),
{
    if toks.len() == 1 {
        let c = toks[0];
        assert(spaced(toks) == seq![c]);
        assert(seq![c].drop_last() =~= Seq::<char>::empty());
        assert(seq![c].last() == c);
        assert(parse_model(Seq::<char>::empty()) == Seq::<ProgOpView>::empty());
        let op = char_instr(c)->Some_0;
        assert(parse_model(seq![c]) == Seq::<ProgOpView>::empty().push(op));
        lemma_token_renders(c, numbers);
        assert(rpn_text(parse_model(spaced(toks)), numbers) =~= spaced(toks));
    } else {
        let dl = toks.drop_last();
        let c = toks.last();
        assert(forall|i: int| 0 <= i < dl.len() ==> #[trigger] dl[i] == toks[i]);
        lemma_rpn_round_trip(dl, numbers);
        let base = spaced(dl);
        let withsp = base.push(' ');
        assert(spaced(toks) =~= withsp.push(c));
        lemma_parse_push(base, ' ');
        lemma_parse_push(withsp, c);
        assert(char_instr(' ') is None);
        let op = char_instr(c)->Some_0;
        assert(round_trip_token(c, numbers));
        assert(char_instr(c) == Some(op));
        let ps = parse_model(base);
        assert(parse_model(spaced(toks)) == ps.push(op));
        assert(ps.push(op).drop_last() =~= ps);
        assert(ps.push(op).last() == op);
        assert(ps.len() >= 1);
        lemma_token_renders(c, numbers);
        assert(rpn_text(ps.push(op), numbers) == rpn_text(ps, numbers) + seq![' '] + rpn_token(
            op,
            numbers,
        ));
        assert(rpn_text(parse_model(spaced(toks)), numbers) =~= spaced(toks));
    }
}

/// A round-trip token's parsed instruction renders as exactly that
/// character.
proof fn lemma_token_renders(c: char, numbers: Seq<u8>)
    requires
        round_trip_token(c, numbers),
    ensures
        char_instr(c) is Some,
        rpn_token(char_instr(c)->Some_0, numbers) == seq![c],
{
    if '0' <= c && c <= '9' {
        let d = c as int - '0' as int;
        assert(char_instr(c) == Some(ProgOpView::Number(d as u8)));
        assert(numbers[d] == d);
        assert(rpn_token(ProgOpView::Number(d as u8), numbers) == crate::render::dec_seq(
            numbers[d] as nat,
        ));
        assert(crate::render::dec_seq(d as nat) =~= seq![crate::render::digit_char(d as nat)]);
        assert(crate::render::digit_char(d as nat) == c);
        assert(rpn_token(ProgOpView::Number(d as u8), numbers) =~= seq![c]);
    }
}

/// The raw value one operator produces in a step trace: the same value
/// the evaluator would push, meaningful only when the evaluator accepts
/// the operation.
pub open spec fn raw_op(op: ProgOpView, n2: u32, n1: u32) -> u32 {
    match op {
        ProgOpView::Add => vstd::wrapping::u32_specs::wrapping_add(n2, n1),
        ProgOpView::Sub => if n2 >= n1 {
            (n2 - n1) as u32
        } else {
            0u32
        },
        ProgOpView::Mul => vstd::wrapping::u32_specs::wrapping_mul(n2, n1),
        ProgOpView::Div => if n1 != 0 {
            n2 / n1
        } else {
            0u32
        },
        ProgOpView::Number(_) => 0u32,
    }
}

/// One rendered step line: left operand, operator, right operand, an
/// equals sign and the result.
pub open spec fn step_line(op: ProgOpView, numbers: Seq<u8>, s2: Seq<char>, s1: Seq<char>, ans: u32) -> Seq<char> {
    s2 + seq![' '] + op_token(op, numbers) + seq![' '] + s1 + seq![' ', '='] + seq![' ']
        + dec_seq(ans as nat)
}

/// The step trace state after folding the instructions from `i`
/// onward: the stack of values paired with their renderings, and the
/// lines produced so far.
pub open spec fn steps_stack_model(
    instrs: Seq<ProgOpView>,
    numbers: Seq<u8>,
    stack: Seq<(u32, Seq<char>)>,
    lines: Seq<Seq<char>>,
    i: int,
) -> (Seq<(u32, Seq<char>)>, Seq<Seq<char>>)
    decreases instrs.len() - i,
{
    if i < 0 || i >= instrs.len() {
        (stack, lines)
    } else {
        match instrs[i] {
            ProgOpView::Number(n) => steps_stack_model(
                instrs,
                numbers,
                stack.push((numbers[n as int] as u32, dec_seq(numbers[n as int] as nat))),
                lines,
                i + 1,
            ),
            op => {
                if stack.len() < 2 {
                    (stack, lines)
                } else {
                    let p2 = stack[stack.len() - 2];
                    let p1 = stack[stack.len() - 1];
                    let ans = raw_op(op, p2.0, p1.0);
                    let line = step_line(op, numbers, p2.1, p1.1, ans);
                    steps_stack_model(
                        instrs,
                        numbers,
                        stack.drop_last().drop_last().push((ans, dec_seq(ans as nat))),
                        lines.push(line),
                        i + 1,
                    )
                }
            },
        }
    }
}

/// The step lines of a whole program.
pub open spec fn steps_model(instrs: Seq<ProgOpView>, numbers: Seq<u8>) -> Seq<Seq<char>>
    recommends
        wf_postfix(instrs),
{
    steps_stack_model(instrs, numbers, Seq::empty(), Seq::empty(), 0).1
}

impl Programs {
    /// Returns the formatted steps of one program: a line per operator,
    /// showing its operands and result against the given numbers.
    #[verifier::loop_isolation(false)]
    pub fn steps(&self, prog_elem: usize, numbers: &[u8], colour: bool) -> (r: Vec<String>)
        requires
            self.wf(),
            prog_elem < self.prog_count(),
            wf_postfix(self.prog(prog_elem as int)),
            numbers.len() == self.num_count(),
            run_model(self.prog(prog_elem as int), numbers@) is Ok,
        ensures
            !colour ==> r@.map_values(|s: String| s@) == steps_model(
                self.prog(prog_elem as int),
                numbers@,
            ),
    {
        let instructions = self.instructions(prog_elem);
        let ghost iv = self.prog(prog_elem as int);
        let mut lines: Vec<String> = Vec::new();
        let mut stack: Vec<(u32, String)> = Vec::new();
        proof {
            assert(stack@.map_values(|p: (u32, String)| (p.0, p.1@)) =~= Seq::<
                (u32, Seq<char>),
            >::empty());
            assert(stack@.map_values(|p: (u32, String)| p.0) =~= Seq::<u32>::empty());
            assert(stack@.map_values(|p: (u32, String)| (p.0, dec_seq(p.0 as nat))) =~= Seq::<
                (u32, Seq<char>),
            >::empty());
            assert(lines@.map_values(|s: String| s@) =~= Seq::<Seq<char>>::empty());
        }
        let sp = crate::render::space_string();
        let eq = equals_string();
        let n = instructions.len();
        let mut i: usize = 0;
        while i < n
            invariant
                0 <= i <= n,
                n == instructions@.len(),
                iv == ops_view(instructions@),
                all_valid(instructions@),
                operands_below(iv, numbers.len() as int),
                wf_postfix(iv),
                run_model(iv, numbers@) is Ok,
                sp@ == seq![' '],
                eq@ == seq![' ', '='],
                stack@.len() == balance(iv, i as int),
                run_stack_model(iv, numbers@, stack@.map_values(|p: (u32, String)| p.0), i as int)
                    == run_stack_model(iv, numbers@, Seq::empty(), 0),
                !colour ==> steps_stack_model(
                    iv,
                    numbers@,
                    stack@.map_values(|p: (u32, String)| (p.0, p.1@)),
                    lines@.map_values(|s: String| s@),
                    i as int,
                ) == steps_stack_model(iv, numbers@, Seq::empty(), Seq::empty(), 0),
            decreases n - i,
        {
            let op = instructions[i];
            assert(instructions@[i as int].valid());
            assert(iv[i as int] matches ProgOpView::Number(q) ==> q < numbers.len());
            let ghost prepairs = stack@.map_values(|p: (u32, String)| (p.0, p.1@));
            let ghost prevals = stack@.map_values(|p: (u32, String)| p.0);
            let ghost prelines = lines@.map_values(|s: String| s@);
            match op.kind() {
                ProgOpView::Number(idx) => {
                    let v = numbers[idx as usize] as u32;
                    let vs = crate::render::u32_string(v);
                    stack.push((v, vs));
                    proof {
                        assert(stack@.map_values(|p: (u32, String)| (p.0, p.1@)) =~= prepairs.push(
                            (v, dec_seq(v as nat)),
                        ));
                        assert(stack@.map_values(|p: (u32, String)| p.0) =~= prevals.push(v));
                    }
                },
                _ => {
                    assert(balance(iv, i + 1) >= 1);
                    assert(stack@.len() >= 2);
                    let p1 = stack.pop().unwrap();
                    let p2 = stack.pop().unwrap();
                    let n1 = p1.0;
                    let n2 = p2.0;
                    proof {
                        assert(prevals[prevals.len() - 2] == n2);
                        assert(prevals[prevals.len() - 1] == n1);
                        lemma_run_prefix_ok(iv, numbers@, prevals, i as int);
                        assert(apply_op(op@, n2, n1) is Ok);
                    }
                    let ans = apply_raw(op, n2, n1);
                    let ans_str = crate::render::u32_string(ans);
                    let mut line = p2.1;
                    line.append(sp.as_str());
                    let os = op.colour(numbers, colour);
                    line.append(os.as_str());
                    line.append(sp.as_str());
                    line.append(p1.1.as_str());
                    if colour {
                        let de = paint_equals();
                        line.append(sp.as_str());
                        line.append(de.as_str());
                    } else {
                        line.append(eq.as_str());
                    }
                    line.append(sp.as_str());
                    line.append(ans_str.as_str());
                    lines.push(line);
                    stack.push((ans, ans_str));
                    proof {
                        assert(stack@.map_values(|p: (u32, String)| p.0) =~= prevals.drop_last()
                            .drop_last().push(ans));
                        if !colour {
                            assert(stack@.map_values(|p: (u32, String)| (p.0, p.1@))
                                =~= prepairs.drop_last().drop_last().push(
                                (ans, dec_seq(ans as nat)),
                            ));
                            assert(lines@.map_values(|s: String| s@) =~= prelines.push(
                                step_line(op@, numbers@, prepairs[prepairs.len() - 2].1, prepairs[
                                    prepairs.len() - 1].1, ans),
                            ));
                        }
                    }
                },
            }
            i = i + 1;
        }
        lines
    }
}

/// Applies one operator without the evaluator's pruning rules, as the
/// step trace shows it. Meaningful only when the evaluator accepts the
/// operation.
fn apply_raw(op: ProgOp, n2: u32, n1: u32) -> (r: u32)
    requires
        op.valid(),
        !(op@ is Number),
        apply_op(op@, n2, n1) is Ok,
    ensures
        r == raw_op(op@, n2, n1),
        Ok::<u32, crate::progop::ProgErr>(r) == apply_op(op@, n2, n1),
{
    match op.kind() {
        ProgOpView::Add => n2.wrapping_add(n1),
        ProgOpView::Sub => n2 - n1,
        ProgOpView::Mul => n2.wrapping_mul(n1),
        ProgOpView::Div => n2 / n1,
        ProgOpView::Number(_) => 0,
    }
}

/// On a stream whose whole run succeeds, the operator reached at
/// position `i` succeeds on the two topmost stacked values.
proof fn lemma_run_prefix_ok(instrs: Seq<ProgOpView>, numbers: Seq<u8>, stack: Seq<u32>, i: int)
    requires
        0 <= i < instrs.len(),
        !(instrs[i] is Number),
        stack.len() >= 2,
        run_stack_model(instrs, numbers, stack, i) == run_stack_model(
            instrs,
            numbers,
            Seq::empty(),
            0,
        ),
        run_model(instrs, numbers) is Ok,
    ensures
        apply_op(instrs[i], stack[stack.len() - 2], stack[stack.len() - 1]) is Ok,
{
    match apply_op(instrs[i], stack[stack.len() - 2], stack[stack.len() - 1]) {
        Ok(_) => {},
        Err(e) => {
            assert(run_stack_model(instrs, numbers, stack, i) == Err::<Seq<u32>, crate::progop::ProgErr>(e));
        },
    }
}

/// A space followed by the equals sign.
fn equals_string() -> (r: String)
    ensures
        r@ == seq![' ', '='],
{
    proof {
        reveal_strlit(" =");
    }
    String::from_str(" =")
}

/// Relies on `colored`'s `Colorize::dimmed` to de-emphasise the equals
/// sign. Whether escape codes are added depends on the terminal
/// environment, but the sign itself comes back unaltered between a
/// possible style prefix and reset suffix.
#[verifier::external_body]
fn paint_equals() -> (r: String)
    ensures
        exists|pre: Seq<char>, post: Seq<char>| r@ == pre + seq!['='] + post,
{
    colored::Colorize::dimmed("=").to_string()
}

/// The fully bracketed infix state after folding the instructions from
/// `i` onward: every operator application is wrapped in brackets.
pub open spec fn full_stack_model(
    instrs: Seq<ProgOpView>,
    numbers: Seq<u8>,
    stack: Seq<Seq<char>>,
    i: int,
) -> Seq<Seq<char>>
    decreases instrs.len() - i,
{
    if i < 0 || i >= instrs.len() {
        stack
    } else {
        match instrs[i] {
            ProgOpView::Number(n) => full_stack_model(
                instrs,
                numbers,
                stack.push(op_token(instrs[i], numbers)),
                i + 1,
            ),
            op => {
                if stack.len() < 2 {
                    stack
                } else {
                    let s2 = stack[stack.len() - 2];
                    let s1 = stack[stack.len() - 1];
                    full_stack_model(
                        instrs,
                        numbers,
                        stack.drop_last().drop_last().push(
                            seq!['('] + s2 + seq![' '] + op_token(op, numbers) + seq![' '] + s1
                                + seq![')'],
                        ),
                        i + 1,
                    )
                }
            },
        }
    }
}

/// The fully bracketed infix rendering of a program, its outermost
/// brackets stripped.
pub open spec fn infix_full_model(instrs: Seq<ProgOpView>, numbers: Seq<u8>) -> Seq<char>
    recommends
        wf_postfix(instrs),
{
    let s = full_stack_model(instrs, numbers, Seq::empty(), 0).last();
    if s.len() >= 2 && s[0] == '(' {
        s.subrange(1, s.len() - 1)
    } else {
        s
    }
}

impl Programs {
    /// Converts one program to a fully bracketed infix rendering, the
    /// outermost brackets stripped.
    #[verifier::loop_isolation(false)]
    pub fn infix_full(&self, prog_elem: usize, numbers: &[u8], colour: bool) -> (r: String)
        requires
            self.wf(),
            prog_elem < self.prog_count(),
            wf_postfix(self.prog(prog_elem as int)),
            numbers.len() == self.num_count(),
        ensures
            !colour ==> r@ == infix_full_model(self.prog(prog_elem as int), numbers@),
    {
        let instructions = self.instructions(prog_elem);
        let ghost iv = self.prog(prog_elem as int);
        let mut stack: Vec<String> = Vec::new();
        proof {
            assert(stack@.map_values(|s: String| s@) =~= Seq::<Seq<char>>::empty());
        }
        let sp = crate::render::space_string();
        let lp = crate::render::lparen_string();
        let rp = crate::render::rparen_string();
        let n = instructions.len();
        let mut i: usize = 0;
        while i < n
            invariant
                0 <= i <= n,
                n == instructions@.len(),
                iv == ops_view(instructions@),
                all_valid(instructions@),
                operands_below(iv, numbers.len() as int),
                wf_postfix(iv),
                sp@ == seq![' '],
                lp@ == seq!['('],
                rp@ == seq![')'],
                stack@.len() == balance(iv, i as int),
                !colour ==> full_stack_model(
                    iv,
                    numbers@,
                    stack@.map_values(|s: String| s@),
                    i as int,
                ) == full_stack_model(iv, numbers@, Seq::empty(), 0),
            decreases n - i,
        {
            let op = instructions[i];
            assert(instructions@[i as int].valid());
            assert(iv[i as int] matches ProgOpView::Number(q) ==> q < numbers.len());
            let ghost pre = stack@.map_values(|s: String| s@);
            match op.kind() {
                ProgOpView::Number(_) => {
                    let ts = op.colour(numbers, colour);
                    stack.push(ts);
                    proof {
                        if !colour {
                            assert(stack@.map_values(|s: String| s@) =~= pre.push(
                                op_token(iv[i as int], numbers@),
                            ));
                        }
                    }
                },
                _ => {
                    assert(balance(iv, i + 1) >= 1);
                    assert(stack@.len() >= 2);
                    let s1 = stack.pop().unwrap();
                    let s2 = stack.pop().unwrap();
                    let mut t = lp.clone();
                    t.append(s2.as_str());
                    t.append(sp.as_str());
                    let os = op.colour(numbers, colour);
                    t.append(os.as_str());
                    t.append(sp.as_str());
                    t.append(s1.as_str());
                    t.append(rp.as_str());
                    stack.push(t);
                    proof {
                        if !colour {
                            assert(stack@.map_values(|s: String| s@) =~= pre.drop_last()
                                .drop_last().push(
                                seq!['('] + pre[pre.len() - 2] + seq![' '] + op_token(
                                    iv[i as int],
                                    numbers@,
                                ) + seq![' '] + pre[pre.len() - 1] + seq![')'],
                            ));
                        }
                    }
                },
            }
            i = i + 1;
        }
        assert(stack@.len() == 1);
        let top = stack.pop().unwrap();
        let len = top.as_str().unicode_len();
        if len >= 2 {
            let first = top.as_str().get_char(0);
            if first == '(' {
                let inner = top.as_str().substring_char(1, len - 1);
                let mut out = String::new();
                out.append(inner);
                return out;
            }
        }
        top
    }
}

/// The report ordering on solutions: result first, then instruction
/// count, then program index, all ascending.
pub open spec fn sol_le(a: (int, int, u32), b: (int, int, u32)) -> bool {
    ||| a.2 < b.2
    ||| (a.2 == b.2 && a.1 < b.1)
    ||| (a.2 == b.2 && a.1 == b.1 && a.0 <= b.0)
}

/// Compares two solutions by the report ordering.
fn sol_le_exec(a: &Solution, b: &Solution) -> (r: bool)
    ensures
        r == sol_le(a@, b@),
{
    if a.result != b.result {
        a.result < b.result
    } else if a.length != b.length {
        a.length < b.length
    } else {
        a.program <= b.program
    }
}

/// Sorts solutions into the report ordering, keeping exactly the same
/// solutions: result ascending, ties broken by instruction count and
/// then program index.
#[verifier::loop_isolation(false)]
pub fn sort_solutions(solutions: Vec<Solution>) -> (r: Vec<Solution>)
    ensures
        r@.len() == solutions@.len(),
        forall|i: int, j: int| 0 <= i < j < r@.len() ==> sol_le(r@[i]@, r@[j]@),
        r@.map_values(|s: Solution| s@).to_multiset() == solutions@.map_values(
            |s: Solution| s@,
        ).to_multiset(),
{
    broadcast use vstd::seq_lib::group_to_multiset_ensures;

    let ghost orig = solutions@.map_values(|s: Solution| s@);
    let mut rest = solutions;
    let mut out: Vec<Solution> = Vec::new();
    proof {
        assert(out@.map_values(|s: Solution| s@).to_multiset() =~= Multiset::<
            (int, int, u32),
        >::empty());
        assert(out@.map_values(|s: Solution| s@).to_multiset().add(
            rest@.map_values(|s: Solution| s@).to_multiset(),
        ) =~= orig.to_multiset());
    }
    while rest.len() > 0
        invariant
            out@.map_values(|s: Solution| s@).to_multiset().add(
                rest@.map_values(|s: Solution| s@).to_multiset(),
            ) == orig.to_multiset(),
            out@.len() + rest@.len() == orig.len(),
            forall|i: int, j: int| 0 <= i < j < out@.len() ==> sol_le(out@[i]@, out@[j]@),
            forall|i: int, j: int|
                0 <= i < out@.len() && 0 <= j < rest@.len() ==> sol_le(out@[i]@, rest@[j]@),
        decreases rest@.len(),
    {
        let mut m: usize = 0;
        let mut k: usize = 1;
        while k < rest.len()
            invariant
                0 <= m < rest@.len(),
                m < k <= rest@.len() || (k <= rest@.len() && m == 0),
                forall|j: int| 0 <= j < k ==> sol_le(rest@[m as int]@, #[trigger] rest@[j]@),
            decreases rest@.len() - k,
        {
            if !sol_le_exec(&rest[m], &rest[k]) {
                m = k;
            }
            k = k + 1;
        }
        let ghost restpre = rest@;
        let ghost outpre = out@;
        let x = rest.remove(m);
        out.push(x);
        proof {
            let ghost xm = x@;
            let rm = restpre.map_values(|s: Solution| s@);
            assert(rest@.map_values(|s: Solution| s@) =~= rm.remove(m as int));
            assert(out@.map_values(|s: Solution| s@) =~= outpre.map_values(
                |s: Solution| s@,
            ).push(xm));
            assert(rm[m as int] == xm);
            assert(rm.remove(m as int).to_multiset() =~= rm.to_multiset().remove(xm));
            assert(rm.to_multiset().count(xm) > 0) by {
                assert(rm[m as int] == xm);
                assert(rm.contains(xm));
            }
            assert(out@.map_values(|s: Solution| s@).to_multiset().add(
                rest@.map_values(|s: Solution| s@).to_multiset(),
            ) =~= orig.to_multiset());
            assert forall|i: int, j: int|
                0 <= i < out@.len() && 0 <= j < rest@.len() implies sol_le(
                out@[i]@,
                rest@[j]@,
            ) by {
                if i < outpre.len() {
                    if j < m {
                        assert(rest@[j] == restpre[j]);
                        assert(sol_le(outpre[i]@, restpre[j]@));
                    } else {
                        assert(rest@[j] == restpre[j + 1]);
                        assert(sol_le(outpre[i]@, restpre[j + 1]@));
                    }
                } else {
                    if j < m {
                        assert(rest@[j] == restpre[j]);
                        assert(sol_le(restpre[m as int]@, restpre[j]@));
                    } else {
                        assert(rest@[j] == restpre[j + 1]);
                        assert(sol_le(restpre[m as int]@, restpre[j + 1]@));
                    }
                }
            }
        }
    }
    proof {
        assert(rest@.map_values(|s: Solution| s@).to_multiset() =~= Multiset::<
            (int, int, u32),
        >::empty());
        assert(out@.map_values(|s: Solution| s@).to_multiset() =~= orig.to_multiset());
    }
    out
}

/// The instructions of one candidate program from slot `s` onward:
/// each later operand followed by the operators its slot was allotted,
/// `used` operators having been consumed by earlier slots.
pub open spec fn assemble_from(
    perm: Seq<u8>,
    c: Seq<u8>,
    o: Seq<ProgOpView>,
    s: int,
    used: int,
) -> Seq<ProgOpView>
    decreases c.len() - s,
{
    if s < 0 || s >= c.len() {
        Seq::empty()
    } else {
        seq![ProgOpView::Number(perm[s + 1])] + o.subrange(used, used + c[s]) + assemble_from(
            perm,
            c,
            o,
            s + 1,
            used + c[s],
        )
    }
}

/// The instruction stream of one candidate program: the first operand,
/// then each later operand followed by its slot's operators.
pub open spec fn assemble_model(perm: Seq<u8>, c: Seq<u8>, o: Seq<ProgOpView>) -> Seq<ProgOpView> {
    seq![ProgOpView::Number(perm[0])] + assemble_from(perm, c, o, 0, 0)
}

/// The stream is one of the candidates of the batch over `k` operands:
/// assembled from some operand permutation, slot distribution and
/// operator choice of that batch.
#[verifier::opaque]
pub open spec fn from_batch(s: Seq<ProgOpView>, n: u8, k: u8, ov: Seq<ProgOpView>) -> bool {
    exists|pi: int, ci: int, oi: int|
        0 <= pi < perms_of(n, k).len() && 0 <= ci < op_counts_model(k as int).len() && 0 <= oi
            < op_combs_model(k as int, ov).len() && s == assemble_model(
            perms_of(n, k)[pi],
            op_counts_model(k as int)[ci],
            op_combs_model(k as int, ov)[oi],
        )
}

/// The stream is one of the single-operand candidates: a push of one
/// slot drawn from the length-one permutations.
#[verifier::opaque]
pub open spec fn from_singleton_batch(s: Seq<ProgOpView>, n: u8) -> bool {
    exists|pi: int|
        0 <= pi < perms_of(n, 1u8).len() && s == seq![
            ProgOpView::Number(perms_of(n, 1u8)[pi][0]),
        ]
}

/// The single-operand candidate drawn from the `pi`-th length-one
/// permutation.
#[verifier::opaque]
pub open spec fn singleton_candidate(n: u8, pi: int) -> Seq<ProgOpView> {
    seq![ProgOpView::Number(perms_of(n, 1u8)[pi][0])]
}

/// The candidate program assembled from the `pi`-th permutation, the
/// `ci`-th slot distribution and the `oi`-th operator choice of the
/// batch over `k` operands.
#[verifier::opaque]
pub open spec fn candidate_of(n: u8, k: u8, ov: Seq<ProgOpView>, pi: int, ci: int, oi: int) -> Seq<ProgOpView> {
    assemble_model(
        perms_of(n, k)[pi],
        op_counts_model(k as int)[ci],
        op_combs_model(k as int, ov)[oi],
    )
}

/// The candidate was accounted for against the seen-set: it fails the
/// local ordering rules, or its canonical grouped form is in `seen`.
#[verifier::opaque]
pub open spec fn candidate_handled(
    n: u8,
    k: u8,
    ov: Seq<ProgOpView>,
    seen: Set<GrpView>,
    pi: int,
    ci: int,
    oi: int,
) -> bool {
    local_rules_ok(candidate_of(n, k, ov, pi, ci, oi)) ==> seen.contains(
        infix_tree_model(candidate_of(n, k, ov, pi, ci, oi)),
    )
}

/// Some program of `lo..hi` folds to the canonical grouped form `g`.
#[verifier::opaque]
pub open spec fn tree_kept(
    progs: Seq<ProgInstr>,
    instrs: Seq<ProgOp>,
    lo: int,
    hi: int,
    g: GrpView,
) -> bool {
    exists|j: int|
        lo <= j < hi && infix_tree_model(prog_of(instrs, #[trigger] progs[j])) == g
}

/// Duplicate filtering dropped only restatements from this batch:
/// every candidate either fails the local ordering rules or folds to
/// the same canonical form as some kept program of `lo..hi`.
#[verifier::opaque]
pub open spec fn batch_complete(
    progs: Seq<ProgInstr>,
    instrs: Seq<ProgOp>,
    lo: int,
    hi: int,
    n: u8,
    k: u8,
    ov: Seq<ProgOpView>,
) -> bool {
    forall|pi: int, ci: int, oi: int|
        0 <= pi < perms_of(n, k).len() && 0 <= ci < op_counts_model(k as int).len() && 0 <= oi
            < op_combs_model(k as int, ov).len() && local_rules_ok(
            #[trigger] candidate_of(n, k, ov, pi, ci, oi),
        ) ==> tree_kept(progs, instrs, lo, hi, infix_tree_model(candidate_of(n, k, ov, pi, ci, oi)))
}

} // verus!
