//! Enumeration of every valid postfix program shape.
//!
//! For `k` operands a program interleaves `k` operand pushes with `k-1`
//! operators spread over the `k-1` slots that follow the second and
//! later operands. A slot may hold at most one less than the number of
//! values stacked before it, and the last slot absorbs the rest; the
//! number of such distributions is the Catalan number of `k-1`. The full
//! space is the cross product of operand permutations, slot
//! distributions and operator symbol choices.

use vstd::prelude::*;

use itertools::Itertools;

use crate::progop::{all_valid, ops_view, ProgOp, ProgOpView};

verus! {

/// The rows of a vector of byte vectors, as sequences.
pub open spec fn u8_rows(s: Seq<Vec<u8>>) -> Seq<Seq<u8>> {
    s.map_values(|v: Vec<u8>| v@)
}

/// The rows of a vector of instruction vectors, as view sequences.
pub open spec fn op_rows(s: Seq<Vec<ProgOp>>) -> Seq<Seq<ProgOpView>> {
    s.map_values(|v: Vec<ProgOp>| ops_view(v@))
}

/// The slot distributions produced by trying `0..i` operators in the
/// current slot, each completed recursively over the later slots.
pub open spec fn counts_iter_model(
    current: Seq<u8>,
    slot: int,
    slots: int,
    to_alloc: int,
    stacked: int,
    i: int,
) -> Seq<Seq<u8>>
    decreases slots - slot, 0int, i,
{
    if i <= 0 || slot >= slots {
        Seq::empty()
    } else {
        counts_iter_model(current, slot, slots, to_alloc, stacked, i - 1) + counts_rec_model(
            current.push((i - 1) as u8),
            slot + 1,
            slots,
            to_alloc - (i - 1),
            stacked + 1 - (i - 1),
        )
    }
}

/// The slot distributions completing `current`: the last slot absorbs
/// everything left, and an earlier slot tries every count from zero up
/// to the stacked depth less one, never leaving the last slot empty.
pub open spec fn counts_rec_model(
    current: Seq<u8>,
    slot: int,
    slots: int,
    to_alloc: int,
    stacked: int,
) -> Seq<Seq<u8>>
    decreases slots - slot, 1int, 0int,
{
    if slot >= slots - 1 {
        seq![current.push(to_alloc as u8)]
    } else {
        let imax = if to_alloc - 1 <= stacked - 1 {
            to_alloc - 1
        } else {
            stacked - 1
        };
        counts_iter_model(current, slot, slots, to_alloc, stacked, imax + 1)
    }
}

/// Every distribution of `nums - 1` operators over the `nums - 1` slots
/// of a program with `nums` operands.
pub open spec fn op_counts_model(nums: int) -> Seq<Seq<u8>> {
    if nums > 1 {
        counts_rec_model(Seq::empty(), 0, nums - 1, nums - 1, 2)
    } else {
        Seq::empty()
    }
}

/// The operator choices produced by trying the first `i` operators in
/// the current slot.
pub open spec fn combs_iter_model(
    current: Seq<ProgOpView>,
    slot: int,
    slots: int,
    ops: Seq<ProgOpView>,
    i: int,
) -> Seq<Seq<ProgOpView>>
    decreases slots - slot, 0int, i,
{
    if i <= 0 || slot >= slots {
        Seq::empty()
    } else {
        combs_iter_model(current, slot, slots, ops, i - 1) + (if slot >= slots - 1 {
            seq![current.push(ops[i - 1])]
        } else {
            combs_rec_model(current.push(ops[i - 1]), slot + 1, slots, ops)
        })
    }
}

/// The operator choices completing `current` over the remaining slots:
/// every operator of the alphabet in every slot.
pub open spec fn combs_rec_model(
    current: Seq<ProgOpView>,
    slot: int,
    slots: int,
    ops: Seq<ProgOpView>,
) -> Seq<Seq<ProgOpView>>
    decreases slots - slot, 1int, 0int,
{
    combs_iter_model(current, slot, slots, ops, ops.len() as int)
}

/// Every choice of `nums - 1` operator symbols from the alphabet, in
/// enumeration order.
pub open spec fn op_combs_model(nums: int, ops: Seq<ProgOpView>) -> Seq<Seq<ProgOpView>> {
    if nums > 1 {
        combs_rec_model(Seq::empty(), 0, nums - 1, ops)
    } else {
        Seq::empty()
    }
}

/// The sum of the first `j` slot counts.
pub open spec fn psum(c: Seq<u8>, j: int) -> int
    decreases j,
{
    if j <= 0 {
        0
    } else {
        psum(c, j - 1) + c[j - 1]
    }
}

/// A valid slot distribution for `slots + 1` operands: one count per
/// slot, `slots` operators in all, and never more operators than the
/// operands already pushed can absorb while leaving one value stacked.
pub open spec fn counts_ok(c: Seq<u8>, slots: int) -> bool {
    &&& c.len() == slots
    &&& psum(c, slots) == slots
    &&& forall|j: int| 0 <= j < slots ==> #[trigger] psum(c, j + 1) <= j + 1
}

proof fn lemma_psum_nonneg(c: Seq<u8>, j: int)
    requires
        j <= c.len(),
    ensures
        psum(c, j) >= 0,
    decreases j,
{
    if j > 0 {
        lemma_psum_nonneg(c, j - 1);
    }
}

proof fn lemma_psum_push(c: Seq<u8>, x: u8, j: int)
    ensures
        j <= c.len() ==> psum(c.push(x), j) == psum(c, j),
        psum(c.push(x), c.len() as int + 1) == psum(c, c.len() as int) + x,
    decreases j,
{
    if j > 0 {
        lemma_psum_push(c, x, j - 1);
    }
    lemma_psum_push_full(c, x);
}

proof fn lemma_psum_push_full(c: Seq<u8>, x: u8)
    ensures
        psum(c.push(x), c.len() as int + 1) == psum(c, c.len() as int) + x,
    decreases c.len(),
{
    lemma_psum_prefix(c.push(x), c, c.len() as int);
}

proof fn lemma_psum_prefix(a: Seq<u8>, b: Seq<u8>, j: int)
    requires
        j <= a.len(),
        j <= b.len(),
        forall|i: int| 0 <= i < j ==> a[i] == b[i],
    ensures
        psum(a, j) == psum(b, j),
    decreases j,
{
    if j > 0 {
        lemma_psum_prefix(a, b, j - 1);
    }
}

/// Every distribution the recursion completes from a partial state is a
/// valid slot distribution.
proof fn lemma_counts_rec_props(
    current: Seq<u8>,
    slot: int,
    slots: int,
    to_alloc: int,
    stacked: int,
)
    requires
        0 <= slot < slots <= 255,
        current.len() == slot,
        1 <= to_alloc,
        2 <= stacked,
        stacked == slot + 2 - psum(current, slot),
        to_alloc <= (slots - slot - 1) + (stacked - 1),
        to_alloc + psum(current, slot) == slots,
        forall|j: int| 0 <= j < slot ==> #[trigger] psum(current, j + 1) <= j + 1,
    ensures
        forall|ci: int|
            0 <= ci < counts_rec_model(current, slot, slots, to_alloc, stacked).len()
                ==> counts_ok(
                #[trigger] counts_rec_model(current, slot, slots, to_alloc, stacked)[ci],
                slots,
            ),
    decreases slots - slot, 1int, 0int,
{
    if slot >= slots - 1 {
        let c = current.push(to_alloc as u8);
        lemma_psum_nonneg(current, slot);
        assert(to_alloc <= stacked - 1);
        assert(to_alloc < 256);
        lemma_psum_push(current, to_alloc as u8, slot);
        assert(psum(c, slots) == slots);
        assert forall|j: int| 0 <= j < slots implies #[trigger] psum(c, j + 1) <= j + 1 by {
            lemma_psum_push(current, to_alloc as u8, j + 1);
            if j < slot {
                assert(psum(c, j + 1) == psum(current, j + 1));
            } else {
                assert(psum(c, j + 1) == slots);
            }
        }
        assert(counts_ok(c, slots));
    } else {
        let imax = if to_alloc - 1 <= stacked - 1 {
            to_alloc - 1
        } else {
            stacked - 1
        };
        lemma_psum_nonneg(current, slot);
        lemma_counts_iter_props(current, slot, slots, to_alloc, stacked, imax + 1);
        assert forall|ci: int|
            0 <= ci < counts_rec_model(current, slot, slots, to_alloc, stacked).len()
                implies counts_ok(
            #[trigger] counts_rec_model(current, slot, slots, to_alloc, stacked)[ci],
            slots,
        ) by {
            assert(counts_rec_model(current, slot, slots, to_alloc, stacked)[ci]
                == counts_iter_model(current, slot, slots, to_alloc, stacked, imax + 1)[ci]);
        }
    }
}

proof fn lemma_counts_iter_props(
    current: Seq<u8>,
    slot: int,
    slots: int,
    to_alloc: int,
    stacked: int,
    i: int,
)
    requires
        0 <= slot < slots - 1,
        slots <= 255,
        current.len() == slot,
        1 <= to_alloc,
        2 <= stacked,
        stacked == slot + 2 - psum(current, slot),
        to_alloc <= (slots - slot - 1) + (stacked - 1),
        to_alloc + psum(current, slot) == slots,
        forall|j: int| 0 <= j < slot ==> #[trigger] psum(current, j + 1) <= j + 1,
        i <= to_alloc,
        i <= stacked,
    ensures
        forall|ci: int|
            0 <= ci < counts_iter_model(current, slot, slots, to_alloc, stacked, i).len()
                ==> counts_ok(
                #[trigger] counts_iter_model(current, slot, slots, to_alloc, stacked, i)[ci],
                slots,
            ),
    decreases slots - slot, 0int, i,
{
    if i > 0 && slot < slots {
        lemma_counts_iter_props(current, slot, slots, to_alloc, stacked, i - 1);
        lemma_psum_nonneg(current, slot);
        assert(0 <= i - 1 < 256);
        let x = (i - 1) as u8;
        let next = current.push(x);
        lemma_psum_push(current, x, slot);
        lemma_psum_push(current, x, slot + 1);
        assert(psum(next, slot + 1) == psum(current, slot) + (i - 1));
        assert forall|j: int| 0 <= j < slot + 1 implies #[trigger] psum(next, j + 1) <= j + 1 by {
            lemma_psum_push(current, x, j + 1);
            if j < slot {
                assert(psum(next, j + 1) == psum(current, j + 1));
            } else {
                assert(psum(next, slot + 1) == psum(current, slot) + (i - 1));
                assert(i - 1 <= stacked - 1);
            }
        }
        lemma_counts_rec_props(next, slot + 1, slots, to_alloc - (i - 1), stacked + 1 - (i - 1));
        assert forall|ci: int|
            0 <= ci < counts_iter_model(current, slot, slots, to_alloc, stacked, i).len()
                implies counts_ok(
            #[trigger] counts_iter_model(current, slot, slots, to_alloc, stacked, i)[ci],
            slots,
        ) by {
            let whole = counts_iter_model(current, slot, slots, to_alloc, stacked, i);
            let first = counts_iter_model(current, slot, slots, to_alloc, stacked, i - 1);
            let rest = counts_rec_model(next, slot + 1, slots, to_alloc - (i - 1), stacked + 1 - (
            i - 1));
            if ci < first.len() {
                assert(whole[ci] == first[ci]);
            } else {
                assert(whole[ci] == rest[ci - first.len()]);
            }
        }
    }
}

/// Every distribution of `nums - 1` operators over `nums - 1` slots is
/// valid.
pub proof fn lemma_op_counts_props(nums: int)
    requires
        2 <= nums <= 256,
    ensures
        forall|ci: int|
            0 <= ci < op_counts_model(nums).len() ==> counts_ok(
                #[trigger] op_counts_model(nums)[ci],
                nums - 1,
            ),
{
    lemma_counts_rec_props(Seq::empty(), 0, nums - 1, nums - 1, 2);
}

/// Every operator choice drawn from the alphabet has one operator per
/// slot, each from the alphabet.
pub proof fn lemma_combs_rec_props(current: Seq<ProgOpView>, slot: int, slots: int, ops: Seq<ProgOpView>)
    requires
        0 <= slot < slots,
        current.len() == slot,
    ensures
        forall|ci: int|
            0 <= ci < combs_rec_model(current, slot, slots, ops).len() ==> {
                let c = #[trigger] combs_rec_model(current, slot, slots, ops)[ci];
                c.len() == slots && (forall|j: int|
                    slot <= j < slots ==> ops.contains(#[trigger] c[j])) && (forall|j: int|
                    0 <= j < slot ==> c[j] == current[j])
            },
    decreases slots - slot, 1int, 0int,
{
    lemma_combs_iter_props(current, slot, slots, ops, ops.len() as int);
    assert forall|ci: int|
        0 <= ci < combs_rec_model(current, slot, slots, ops).len() implies {
        let c = #[trigger] combs_rec_model(current, slot, slots, ops)[ci];
        c.len() == slots && (forall|j: int| slot <= j < slots ==> ops.contains(#[trigger] c[j]))
            && (forall|j: int| 0 <= j < slot ==> c[j] == current[j])
    } by {
        assert(combs_rec_model(current, slot, slots, ops)[ci] == combs_iter_model(
            current,
            slot,
            slots,
            ops,
            ops.len() as int,
        )[ci]);
    }
}

proof fn lemma_combs_iter_props(
    current: Seq<ProgOpView>,
    slot: int,
    slots: int,
    ops: Seq<ProgOpView>,
    i: int,
)
    requires
        0 <= slot < slots,
        current.len() == slot,
        i <= ops.len(),
    ensures
        forall|ci: int|
            0 <= ci < combs_iter_model(current, slot, slots, ops, i).len() ==> {
                let c = #[trigger] combs_iter_model(current, slot, slots, ops, i)[ci];
                c.len() == slots && (forall|j: int|
                    slot <= j < slots ==> ops.contains(#[trigger] c[j])) && (forall|j: int|
                    0 <= j < slot ==> c[j] == current[j])
            },
    decreases slots - slot, 0int, i,
{
    if i > 0 && slot < slots {
        lemma_combs_iter_props(current, slot, slots, ops, i - 1);
        let next = current.push(ops[i - 1]);
        assert(ops.contains(ops[i - 1]));
        if slot < slots - 1 {
            lemma_combs_rec_props(next, slot + 1, slots, ops);
        }
        assert forall|ci: int|
            0 <= ci < combs_iter_model(current, slot, slots, ops, i).len() implies {
            let c = #[trigger] combs_iter_model(current, slot, slots, ops, i)[ci];
            c.len() == slots && (forall|j: int|
                slot <= j < slots ==> ops.contains(#[trigger] c[j])) && (forall|j: int|
                0 <= j < slot ==> c[j] == current[j])
        } by {
            let whole = combs_iter_model(current, slot, slots, ops, i);
            let first = combs_iter_model(current, slot, slots, ops, i - 1);
            if ci < first.len() {
                assert(whole[ci] == first[ci]);
            } else {
                if slot >= slots - 1 {
                    assert(whole[ci] == next);
                    assert forall|j: int| slot <= j < slots implies ops.contains(
                        #[trigger] next[j],
                    ) by {
                        assert(next[j] == ops[i - 1]);
                    }
                } else {
                    let rest = combs_rec_model(next, slot + 1, slots, ops);
                    assert(whole[ci] == rest[ci - first.len()]);
                    let c = rest[ci - first.len()];
                    assert forall|j: int| slot <= j < slots implies ops.contains(
                        #[trigger] c[j],
                    ) by {
                        if j == slot {
                            assert(c[j] == next[j]);
                            assert(next[j] == ops[i - 1]);
                        }
                    }
                }
            }
        }
    }
}

/// Byte-for-byte copy of a vector.
fn copy_u8_vec(v: &Vec<u8>) -> (r: Vec<u8>)
    ensures
        r@ == v@,
{
    let mut r: Vec<u8> = Vec::new();
    let mut i: usize = 0;
    while i < v.len()
        invariant
            0 <= i <= v@.len(),
            r@ == v@.take(i as int),
        decreases v@.len() - i,
    {
        r.push(v[i]);
        proof {
            assert(v@.take(i + 1) =~= v@.take(i as int).push(v@[i as int]));
        }
        i = i + 1;
    }
    proof {
        assert(v@.take(v@.len() as int) =~= v@);
    }
    r
}

/// Element-for-element copy of an instruction vector.
fn copy_op_vec(v: &Vec<ProgOp>) -> (r: Vec<ProgOp>)
    ensures
        r@ == v@,
{
    let mut r: Vec<ProgOp> = Vec::new();
    let mut i: usize = 0;
    while i < v.len()
        invariant
            0 <= i <= v@.len(),
            r@ == v@.take(i as int),
        decreases v@.len() - i,
    {
        r.push(v[i]);
        proof {
            assert(v@.take(i + 1) =~= v@.take(i as int).push(v@[i as int]));
        }
        i = i + 1;
    }
    proof {
        assert(v@.take(v@.len() as int) =~= v@);
    }
    r
}

fn op_counts_rec(
    results: &mut Vec<Vec<u8>>,
    current: Vec<u8>,
    slot: u8,
    slots: u8,
    to_alloc: u8,
    stacked: u8,
)
    requires
        slot < slots,
        slots <= 31,
        current@.len() == slot as int,
        1 <= to_alloc,
        2 <= stacked,
        stacked as int == slot + 2 - psum(current@, slot as int),
        to_alloc as int <= (slots - slot - 1) + (stacked - 1),
        to_alloc as int + psum(current@, slot as int) == slots as int,
    ensures
        u8_rows(final(results)@) == u8_rows(old(results)@) + counts_rec_model(
            current@,
            slot as int,
            slots as int,
            to_alloc as int,
            stacked as int,
        ),
    decreases slots - slot, 1int, 0int,
{
    let ghost results0 = results@;
    if slot == slots - 1 {
        let mut c = current;
        let ghost c0 = c@;
        c.push(to_alloc);
        let ghost cm = c@;
        results.push(c);
        proof {
            assert forall|i: int| 0 <= i < results@.len() implies u8_rows(results@)[i] == (
            u8_rows(results0) + seq![c0.push(to_alloc)])[i] by {
                if i < results0.len() {
                    assert(results@[i] == results0[i]);
                }
            }
            assert(u8_rows(results@) =~= u8_rows(results0) + seq![c0.push(to_alloc)]);
        }
    } else {
        proof {
            lemma_psum_nonneg(current@, slot as int);
        }
        let max_stack = stacked - 1;
        let bound = if to_alloc - 1 <= max_stack {
            to_alloc - 1
        } else {
            max_stack
        };
        let mut i: u8 = 0;
        while i <= bound
            invariant
                slot < slots,
                slots <= 31,
                slot as int + 1 < slots as int,
                current@.len() == slot as int,
                1 <= to_alloc,
                2 <= stacked,
                stacked as int == slot + 2 - psum(current@, slot as int),
                to_alloc as int <= (slots - slot - 1) + (stacked - 1),
                to_alloc as int + psum(current@, slot as int) == slots as int,
                psum(current@, slot as int) >= 0,
                bound as int == (if to_alloc - 1 <= stacked - 1 {
                    to_alloc - 1
                } else {
                    stacked - 1
                }),
                0 <= i <= bound + 1,
                u8_rows(results@) == u8_rows(results0) + counts_iter_model(
                    current@,
                    slot as int,
                    slots as int,
                    to_alloc as int,
                    stacked as int,
                    i as int,
                ),
            decreases bound + 1 - i,
        {
            let mut next = copy_u8_vec(&current);
            next.push(i);
            proof {
                lemma_psum_push(current@, i, slot as int);
                lemma_psum_push(current@, i, slot as int + 1);
            }
            let next_stacked = stacked + 1 - i;
            op_counts_rec(results, next, slot + 1, slots, to_alloc - i, next_stacked);
            i = i + 1;
        }
    }
}

/// Returns every distribution of `nums - 1` operators over the
/// `nums - 1` slots of a program with `nums` operands.
pub fn op_counts(nums: u8) -> (r: Vec<Vec<u8>>)
    requires
        nums <= 32,
    ensures
        u8_rows(r@) == op_counts_model(nums as int),
{
    let mut results: Vec<Vec<u8>> = Vec::new();
    proof {
        assert(u8_rows(results@) =~= Seq::<Seq<u8>>::empty());
    }
    if nums > 1 {
        let current: Vec<u8> = Vec::new();
        op_counts_rec(&mut results, current, 0, nums - 1, nums - 1, 2);
        proof {
            assert(Seq::<Seq<u8>>::empty() + op_counts_model(nums as int) =~= op_counts_model(
                nums as int,
            ));
        }
    }
    results
}

fn op_combs_rec(
    results: &mut Vec<Vec<ProgOp>>,
    current: Vec<ProgOp>,
    slot: u8,
    slots: u8,
    operators: &Vec<ProgOp>,
)
    requires
        slot < slots,
        slots <= 31,
        current@.len() == slot as int,
        all_valid(current@),
        all_valid(operators@),
    ensures
        op_rows(final(results)@) == op_rows(old(results)@) + combs_rec_model(
            ops_view(current@),
            slot as int,
            slots as int,
            ops_view(operators@),
        ),
        forall|i: int|
            0 <= i < old(results)@.len() ==> final(results)@[i] == old(results)@[i],
        forall|i: int|
            old(results)@.len() <= i < final(results)@.len() ==> all_valid(
                (#[trigger] final(results)@[i])@,
            ),
    decreases slots - slot, 1int, 0int,
{
    let ghost results0 = results@;
    let n = operators.len();
    let mut j: usize = 0;
    while j < n
        invariant
            slot < slots,
            slots <= 31,
            n == operators@.len(),
            current@.len() == slot as int,
            all_valid(current@),
            all_valid(operators@),
            0 <= j <= n,
            op_rows(results@) == op_rows(results0) + combs_iter_model(
                ops_view(current@),
                slot as int,
                slots as int,
                ops_view(operators@),
                j as int,
            ),
            forall|i: int| 0 <= i < results0.len() ==> results@[i] == results0[i],
            forall|i: int|
                results0.len() <= i < results@.len() ==> all_valid((#[trigger] results@[i])@),
        decreases n - j,
    {
        let mut next = copy_op_vec(&current);
        next.push(operators[j]);
        let ghost nextm = next@;
        proof {
            assert(all_valid(nextm)) by {
                assert(forall|x: int|
                    0 <= x < nextm.len() ==> nextm[x] == (if x < current@.len() {
                        current@[x]
                    } else {
                        operators@[j as int]
                    }));
            }
            assert(ops_view(nextm) =~= ops_view(current@).push(operators@[j as int]@));
        }
        if slot == slots - 1 {
            let ghost pre = results@;
            results.push(next);
            proof {
                assert forall|i: int| 0 <= i < results@.len() implies op_rows(results@)[i] == (
                op_rows(pre) + seq![ops_view(nextm)])[i] by {
                    if i < pre.len() {
                        assert(results@[i] == pre[i]);
                    }
                }
                assert(op_rows(results@) =~= op_rows(pre) + seq![ops_view(nextm)]);
            }
        } else {
            op_combs_rec(results, next, slot + 1, slots, operators);
        }
        j = j + 1;
    }
}

/// Returns every choice of `nums - 1` operator symbols drawn from the
/// given alphabet, in enumeration order.
pub fn op_combs(nums: u8, operators: &Vec<ProgOp>) -> (r: Vec<Vec<ProgOp>>)
    requires
        nums <= 32,
        all_valid(operators@),
    ensures
        op_rows(r@) == op_combs_model(nums as int, ops_view(operators@)),
        forall|i: int| 0 <= i < r@.len() ==> all_valid((#[trigger] r@[i])@),
{
    let mut results: Vec<Vec<ProgOp>> = Vec::new();
    proof {
        assert(op_rows(results@) =~= Seq::<Seq<ProgOpView>>::empty());
        assert(ops_view(Seq::<ProgOp>::empty()) =~= Seq::<ProgOpView>::empty());
    }
    if nums > 1 {
        let current: Vec<ProgOp> = Vec::new();
        op_combs_rec(&mut results, current, 0, nums - 1, operators);
        proof {
            assert(Seq::<Seq<ProgOpView>>::empty() + op_combs_model(
                nums as int,
                ops_view(operators@),
            ) =~= op_combs_model(nums as int, ops_view(operators@)));
        }
    }
    results
}

/// What the permutation enumeration yields for a slot count and
/// selection size: a name for `itertools`' output, fixed by its
/// arguments alone.
pub uninterp spec fn perms_of(n: u8, k: u8) -> Seq<Seq<u8>>;

/// An injective sequence of `k` operand slots drawn from `0..n`.
pub open spec fn is_k_permutation(s: Seq<u8>, n: u8, k: u8) -> bool {
    &&& s.len() == k as int
    &&& forall|i: int| 0 <= i < s.len() ==> #[trigger] s[i] < n
    &&& forall|i: int, j: int| 0 <= i < j < s.len() ==> s[i] != s[j]
}

/// Relies on itertools' `Itertools::permutations` over the range
/// `0..n`: it yields every `k`-permutation of the range's values — the
/// injective length-`k` sequences over `0..n` — each exactly once,
/// since the range's values are pairwise distinct. When `k` exceeds
/// `n` nothing is yielded; otherwise at least one permutation exists.
#[verifier::external_body]
pub(crate) fn permutations_of(n: u8, k: u8) -> (r: Vec<Vec<u8>>)
    ensures
        u8_rows(r@) == perms_of(n, k),
        forall|i: int| 0 <= i < r@.len() ==> is_k_permutation((#[trigger] r@[i])@, n, k),
        forall|i: int, j: int|
            0 <= i < j < r@.len() ==> (#[trigger] r@[i])@ != (#[trigger] r@[j])@,
        forall|s: Seq<u8>| #[trigger] is_k_permutation(s, n, k) ==> u8_rows(r@).contains(s),
        k <= n ==> r@.len() >= 1,
        k > n ==> r@.len() == 0,
{
    (0..n).permutations(k as usize).collect()
}

/// The number of programs one operand count contributes: permutations
/// of the selection, times slot distributions, times operator choices.
pub open spec fn batch_count_model(n: u8, k: int, ops: Seq<ProgOpView>) -> int {
    if k == 1 {
        perms_of(n, 1u8).len() as int
    } else {
        perms_of(n, k as u8).len() as int * op_counts_model(k).len() as int * op_combs_model(
            k,
            ops,
        ).len() as int
    }
}

/// The number of programs generated over all operand counts up to
/// `upto`, duplicates included.
pub open spec fn total_count_model(n: u8, upto: int, ops: Seq<ProgOpView>) -> int
    decreases upto,
{
    if upto <= 0 {
        0
    } else {
        total_count_model(n, upto - 1, ops) + batch_count_model(n, upto, ops)
    }
}

pub proof fn lemma_batch_nonneg(n: u8, k: int, ops: Seq<ProgOpView>)
    ensures
        batch_count_model(n, k, ops) >= 0,
{
    if k != 1 {
        let a = perms_of(n, k as u8).len() as int;
        let b = op_counts_model(k).len() as int;
        let c = op_combs_model(k, ops).len() as int;
        assert(a * b * c >= 0) by (nonlinear_arith)
            requires
                a >= 0,
                b >= 0,
                c >= 0,
        ;
    }
}

pub proof fn lemma_total_mono(n: u8, j: int, upto: int, ops: Seq<ProgOpView>)
    requires
        j <= upto,
    ensures
        total_count_model(n, j, ops) <= total_count_model(n, upto, ops),
    decreases upto - j,
{
    if j < upto {
        lemma_total_mono(n, j, upto - 1, ops);
        lemma_batch_nonneg(n, upto, ops);
    }
}

/// Calculates how many programs will be generated for a number of
/// operands; when duplicates are filtered the count is an estimate,
/// about a seventh of the full space.
pub fn calc_num_programs(nums: u8, inc_duplicated: bool, operators: &Vec<ProgOp>) -> (r: usize)
    requires
        nums <= 32,
        all_valid(operators@),
        total_count_model(nums, nums as int, ops_view(operators@)) <= usize::MAX,
    ensures
        r == (if inc_duplicated {
            total_count_model(nums, nums as int, ops_view(operators@))
        } else {
            total_count_model(nums, nums as int, ops_view(operators@)) / 7
        }),
{
    let ghost ov = ops_view(operators@);
    let mut total: usize = 0;
    let mut num_cnt: u8 = 1;
    while num_cnt <= nums
        invariant
            nums <= 32,
            all_valid(operators@),
            ov == ops_view(operators@),
            total_count_model(nums, nums as int, ov) <= usize::MAX,
            1 <= num_cnt <= nums + 1,
            total as int == total_count_model(nums, num_cnt - 1, ov),
        decreases nums + 1 - num_cnt,
    {
        proof {
            lemma_total_mono(nums, num_cnt as int, nums as int, ov);
            lemma_batch_nonneg(nums, num_cnt as int, ov);
        }
        let perms = permutations_of(nums, num_cnt);
        let p = perms.len();
        if num_cnt == 1 {
            total = total + p;
        } else {
            let counts = op_counts(num_cnt);
            let combs = op_combs(num_cnt, operators);
            let a = counts.len();
            let b = combs.len();
            assert(p as int == perms_of(nums, num_cnt).len());
            assert(a as int == op_counts_model(num_cnt as int).len());
            assert(b as int == op_combs_model(num_cnt as int, ov).len());
            if b == 0 {
                assert(batch_count_model(nums, num_cnt as int, ov) == 0) by {
                    assert(p as int * a as int * 0 == 0) by (nonlinear_arith);
                }
            } else {
                assert(p as int * a as int <= p as int * a as int * b as int) by (
                nonlinear_arith)
                    requires
                        p >= 0,
                        a >= 0,
                        b >= 1,
                ;
                let pa = p * a;
                let batch = pa * b;
                total = total + batch;
            }
        }
        num_cnt = num_cnt + 1;
    }
    if inc_duplicated {
        total
    } else {
        total / 7
    }
}

/// The sum of any prefix of slot counts is non-negative.
pub proof fn lemma_psum_nonneg_pub(c: Seq<u8>, j: int)
    requires
        j <= c.len(),
    ensures
        psum(c, j) >= 0,
    decreases j,
{
    if j > 0 {
        lemma_psum_nonneg_pub(c, j - 1);
    }
}

/// Calculates how many programs will be generated, after checking that
/// the count fits the machine word; returns nothing when it does not.
#[verifier::loop_isolation(false)]
pub fn try_calc_num_programs(nums: u8, inc_duplicated: bool, operators: &Vec<ProgOp>) -> (r:
    Option<usize>)
    requires
        nums <= 32,
        all_valid(operators@),
    ensures
        match r {
            Some(v) => v as int == (if inc_duplicated {
                total_count_model(nums, nums as int, ops_view(operators@))
            } else {
                total_count_model(nums, nums as int, ops_view(operators@)) / 7
            }),
            None => total_count_model(nums, nums as int, ops_view(operators@)) > usize::MAX,
        },
{
    let ghost ov = ops_view(operators@);
    let mut total: usize = 0;
    let mut k: u8 = 1;
    while k <= nums
        invariant
            1 <= k <= nums + 1,
            total as int == total_count_model(nums, k - 1, ov),
        decreases nums + 1 - k,
    {
        let perms = permutations_of(nums, k);
        let p = perms.len();
        let batch: usize;
        if k == 1 {
            batch = p;
        } else {
            let counts = op_counts(k);
            let combs = op_combs(k, operators);
            let a = counts.len();
            let b = combs.len();
            proof {
                assert(p as int == perms_of(nums, k).len());
                assert(a as int == op_counts_model(k as int).len());
                assert(b as int == op_combs_model(k as int, ov).len());
            }
            if b == 0 {
                batch = 0;
                proof {
                    assert(batch_count_model(nums, k as int, ov) == 0) by (nonlinear_arith)
                        requires
                            batch_count_model(nums, k as int, ov) == p as int * a as int * 0,
                    ;
                }
            } else {
                let pa = match p.checked_mul(a) {
                    Some(v) => v,
                    None => {
                        proof {
                            assert(batch_count_model(nums, k as int, ov) >= p as int
                                * a as int) by (nonlinear_arith)
                                requires
                                    batch_count_model(nums, k as int, ov) == p as int * a as int
                                        * b as int,
                                    p as int >= 0,
                                    a as int >= 0,
                                    b as int >= 1,
                            ;
                            lemma_total_overflow(nums, k as int, ov);
                        }
                        return None;
                    },
                };
                let pab = match pa.checked_mul(b) {
                    Some(v) => v,
                    None => {
                        proof {
                            assert(p as int * a as int * b as int > usize::MAX) by (
                            nonlinear_arith)
                                requires
                                    pa as int == p as int * a as int,
                                    pa as int * b as int > usize::MAX,
                            ;
                            lemma_total_overflow(nums, k as int, ov);
                        }
                        return None;
                    },
                };
                batch = pab;
            }
        }
        proof {
            assert(batch as int <= batch_count_model(nums, k as int, ov));
        }
        total = match total.checked_add(batch) {
            Some(v) => v,
            None => {
                proof {
                    lemma_total_step(nums, k as int, ov);
                    lemma_total_mono(nums, k as int, nums as int, ov);
                }
                return None;
            },
        };
        proof {
            lemma_total_step(nums, k as int, ov);
        }
        k = k + 1;
    }
    if inc_duplicated {
        Some(total)
    } else {
        Some(total / 7)
    }
}

proof fn lemma_total_step(n: u8, k: int, ov: Seq<ProgOpView>)
    requires
        k >= 1,
    ensures
        total_count_model(n, k, ov) == total_count_model(n, k - 1, ov) + batch_count_model(
            n,
            k,
            ov,
        ),
{
}

proof fn lemma_total_overflow(n: u8, k: int, ov: Seq<ProgOpView>)
    requires
        1 <= k <= n,
        batch_count_model(n, k, ov) > usize::MAX,
    ensures
        total_count_model(n, n as int, ov) > usize::MAX,
{
    lemma_total_step(n, k, ov);
    lemma_total_mono(n, 0, k - 1, ov);
    lemma_total_mono(n, k, n as int, ov);
}

} // verus!
