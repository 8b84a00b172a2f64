//! Conversion of postfix programs to infix expression trees.
//!
//! A postfix stream is folded bottom-up into a tree of grouped elements:
//! runs of operators from the same family ({+,-} or {x,/}) are flattened
//! into a single group, while a subtree of the other family stays nested
//! and is reported as a completed group of its own. The flattened form is
//! rendered for display and doubles as the canonical key for duplicate
//! detection.

use vstd::prelude::*;

use crate::progop::{all_valid, op_token, ops_view, ProgOp, ProgOpView};
use crate::render::{dec_seq, lparen_string, paint_number, rparen_string, space_string, u8_string};
use crate::eval::{balance, operands_below, wf_postfix};

verus! {

/// An element of the grouped infix form of a program.
#[derive(Debug, PartialEq, Eq, Hash)]
pub enum InfixGrpTypeElem {
    /// An operand slot reference.
    Number(u8),
    /// A two-sided expression whose sides are bracketed when rendered.
    /// The grouped builder never produces this variant; it survives for
    /// callers that assemble their own display elements.
    Term(Box<InfixGrpTypeElem>, ProgOp, Box<InfixGrpTypeElem>),
    /// A flattened run of same-family operators applied to elements. The
    /// operator paired with the first element tags the whole group; it is
    /// not rendered.
    Group(Vec<(ProgOp, InfixGrpTypeElem)>),
}

/// Mathematical value of a grouped infix element.
pub enum GrpView {
    /// An operand slot reference.
    Number(u8),
    /// A two-sided expression.
    Term(Box<GrpView>, ProgOpView, Box<GrpView>),
    /// A flattened operator run.
    Group(Seq<(ProgOpView, GrpView)>),
}

impl InfixGrpTypeElem {
    /// The mathematical value of this element.
    pub open spec fn model(self) -> GrpView
        decreases self,
    {
        match self {
            InfixGrpTypeElem::Number(n) => GrpView::Number(n),
            InfixGrpTypeElem::Term(l, op, r) => GrpView::Term(
                Box::new(l.model()),
                op@,
                Box::new(r.model()),
            ),
            InfixGrpTypeElem::Group(v) => GrpView::Group(items_model(v@)),
        }
    }

    /// Well-formed element: every operator byte is a legal encoding and
    /// every group is non-empty.
    pub open spec fn wf(self) -> bool
        decreases self,
    {
        match self {
            InfixGrpTypeElem::Number(_) => true,
            InfixGrpTypeElem::Term(l, op, r) => op.valid() && !(op@ is Number) && l.wf()
                && r.wf(),
            InfixGrpTypeElem::Group(v) => v@.len() > 0 && items_wf(v@),
        }
    }
}

/// The mathematical values of a sequence of grouped items.
pub open spec fn items_model(s: Seq<(ProgOp, InfixGrpTypeElem)>) -> Seq<(ProgOpView, GrpView)>
    decreases s,
{
    if s.len() == 0 {
        Seq::empty()
    } else {
        items_model(s.drop_last()).push((s.last().0@, s.last().1.model()))
    }
}

/// Well-formedness of a sequence of grouped items.
pub open spec fn items_wf(s: Seq<(ProgOp, InfixGrpTypeElem)>) -> bool
    decreases s,
{
    if s.len() == 0 {
        true
    } else {
        items_wf(s.drop_last()) && s.last().0.valid() && !(s.last().0@ is Number)
            && s.last().1.wf()
    }
}

/// The mathematical values of a sequence of elements.
pub open spec fn models_of(s: Seq<InfixGrpTypeElem>) -> Seq<GrpView> {
    s.map_values(|e: InfixGrpTypeElem| e.model())
}

/// `items_model` maps the sequence pointwise.
pub proof fn lemma_items_model_points(s: Seq<(ProgOp, InfixGrpTypeElem)>)
    ensures
        items_model(s).len() == s.len(),
        forall|i: int|
            0 <= i < s.len() ==> items_model(s)[i] == ((#[trigger] s[i]).0@, s[i].1.model()),
    decreases s,
{
    if s.len() > 0 {
        lemma_items_model_points(s.drop_last());
        assert forall|i: int| 0 <= i < s.len() implies items_model(s)[i] == (
            (#[trigger] s[i]).0@,
            s[i].1.model(),
        ) by {
            if i < s.len() - 1 {
                assert(s.drop_last()[i] == s[i]);
                assert(items_model(s)[i] == items_model(s.drop_last())[i]);
            } else {
                assert(s.last() == s[i]);
            }
        }
    }
}

/// `items_wf` holds exactly when it holds of every item.
pub proof fn lemma_items_wf_points(s: Seq<(ProgOp, InfixGrpTypeElem)>)
    ensures
        items_wf(s) <==> (forall|i: int|
            0 <= i < s.len() ==> (#[trigger] s[i]).0.valid() && !(s[i].0@ is Number)
                && s[i].1.wf()),
    decreases s,
{
    if s.len() > 0 {
        lemma_items_wf_points(s.drop_last());
        assert(forall|i: int| 0 <= i < s.len() - 1 ==> #[trigger] s.drop_last()[i] == s[i]);
        if items_wf(s) {
            assert forall|i: int| 0 <= i < s.len() implies (#[trigger] s[i]).0.valid() && !(
            s[i].0@ is Number) && s[i].1.wf() by {
                if i < s.len() - 1 {
                    assert(s.drop_last()[i] == s[i]);
                } else {
                    assert(s.last() == s[i]);
                }
            }
        }
        if forall|i: int|
            0 <= i < s.len() ==> (#[trigger] s[i]).0.valid() && !(s[i].0@ is Number)
                && s[i].1.wf() {
            assert(s.last() == s[s.len() - 1]);
            assert(items_wf(s.drop_last()));
        }
    }
}

/// Appending one item extends the item models by its model.
pub proof fn lemma_items_model_push(s: Seq<(ProgOp, InfixGrpTypeElem)>, p: (ProgOp, InfixGrpTypeElem))
    ensures
        items_model(s.push(p)) == items_model(s).push((p.0@, p.1.model())),
        items_wf(s.push(p)) <==> (items_wf(s) && p.0.valid() && !(p.0@ is Number)
            && p.1.wf()),
{
    assert(s.push(p).drop_last() =~= s);
    assert(s.push(p).last() == p);
}

/// Item models and well-formedness distribute over concatenation.
pub proof fn lemma_items_model_append(a: Seq<(ProgOp, InfixGrpTypeElem)>, b: Seq<(ProgOp, InfixGrpTypeElem)>)
    ensures
        items_model(a + b) == items_model(a) + items_model(b),
        items_wf(a + b) <==> (items_wf(a) && items_wf(b)),
    decreases b.len(),
{
    if b.len() == 0 {
        assert(a + b =~= a);
        assert(items_model(a) + items_model(b) =~= items_model(a));
    } else {
        lemma_items_model_append(a, b.drop_last());
        assert((a + b).drop_last() =~= a + b.drop_last());
        assert((a + b).last() == b.last());
        assert(items_model(a) + items_model(b) =~= (items_model(a) + items_model(
            b.drop_last(),
        )).push((b.last().0@, b.last().1.model())));
    }
}

/// The family partner of an operator: addition with subtraction, and
/// multiplication with division.
pub open spec fn family_other(op: ProgOpView) -> ProgOpView {
    match op {
        ProgOpView::Add => ProgOpView::Sub,
        ProgOpView::Sub => ProgOpView::Add,
        ProgOpView::Mul => ProgOpView::Div,
        ProgOpView::Div => ProgOpView::Mul,
        ProgOpView::Number(n) => ProgOpView::Number(n),
    }
}

/// Whether an operator also folds a compatible group on its right side:
/// true of the associative family leaders, addition and multiplication.
pub open spec fn merges_right(op: ProgOpView) -> bool {
    op is Add || op is Mul
}

/// How one side of an operator joins the new group: a group headed by an
/// operator of the same family is folded in (its head retagged with
/// `op`), any other group stays nested and is reported as completed, and
/// plain elements are appended. Returns the items contributed and the
/// groups reported.
pub open spec fn side_items(op: ProgOpView, t: GrpView, merge: bool) -> (
    Seq<(ProgOpView, GrpView)>,
    Seq<GrpView>,
) {
    match t {
        GrpView::Group(ts) => {
            if merge && ts.len() > 0 && (ts[0].0 == op || ts[0].0 == family_other(op)) {
                (ts.update(0, (op, ts[0].1)), Seq::empty())
            } else {
                (seq![(op, GrpView::Group(ts))], seq![GrpView::Group(ts)])
            }
        },
        _ => (seq![(op, t)], Seq::empty()),
    }
}

/// Combines an operator with its two subtrees, `t1` the left and `t2`
/// the right: returns the combined group and the nested groups reported
/// while building it, left side first.
pub open spec fn build_op_model(op: ProgOpView, t1: GrpView, t2: GrpView) -> (GrpView, Seq<GrpView>) {
    let left = side_items(op, t1, true);
    let right = side_items(op, t2, merges_right(op));
    (GrpView::Group(left.0 + right.0), left.1 + right.1)
}

/// The builder's stack and the groups reported so far, after folding the
/// instructions from position `i` onward. Only meaningful on well-formed
/// streams: an operator finding fewer than two stacked trees leaves the
/// state unchanged.
#[verifier::opaque]
pub open spec fn grp_stack_model(
    instrs: Seq<ProgOpView>,
    stack: Seq<GrpView>,
    acc: Seq<GrpView>,
    i: int,
) -> (Seq<GrpView>, Seq<GrpView>)
    decreases instrs.len() - i,
{
    if i < 0 || i >= instrs.len() {
        (stack, acc)
    } else {
        match instrs[i] {
            ProgOpView::Number(n) => grp_stack_model(instrs, stack.push(GrpView::Number(n)), acc, i + 1),
            op => {
                if stack.len() < 2 {
                    (stack, acc)
                } else {
                    let step = build_op_model(op, stack[stack.len() - 2], stack[stack.len() - 1]);
                    grp_stack_model(
                        instrs,
                        stack.drop_last().drop_last().push(step.0),
                        acc + step.1,
                        i + 1,
                    )
                }
            },
        }
    }
}

/// The grouped infix tree of a well-formed postfix stream.
pub open spec fn infix_tree_model(instrs: Seq<ProgOpView>) -> GrpView
    recommends
        wf_postfix(instrs),
{
    grp_stack_model(instrs, Seq::empty(), Seq::empty(), 0).0.last()
}

/// Every completed group of the stream, bottom-up, the outermost last.
/// A single-number program reports no group.
pub open spec fn reported_groups_model(instrs: Seq<ProgOpView>) -> Seq<GrpView>
    recommends
        wf_postfix(instrs),
{
    let folded = grp_stack_model(instrs, Seq::empty(), Seq::empty(), 0);
    let tree = folded.0.last();
    if tree is Group {
        folded.1.push(tree)
    } else {
        folded.1
    }
}

/// Every operand slot reference in the tree is below `b`.
pub open spec fn nums_below_view(t: GrpView, b: int) -> bool
    decreases t,
{
    match t {
        GrpView::Number(n) => n < b,
        GrpView::Term(l, _, r) => nums_below_view(*l, b) && nums_below_view(*r, b),
        GrpView::Group(items) => nums_below_items(items, b),
    }
}

/// Every operand slot reference in the items is below `b`.
pub open spec fn nums_below_items(s: Seq<(ProgOpView, GrpView)>, b: int) -> bool
    decreases s,
{
    if s.len() == 0 {
        true
    } else {
        nums_below_items(s.drop_last(), b) && nums_below_view(s.last().1, b)
    }
}

/// `nums_below_items` holds exactly when it holds of every item.
pub proof fn lemma_nums_below_points(s: Seq<(ProgOpView, GrpView)>, b: int)
    ensures
        nums_below_items(s, b) <==> (forall|i: int|
            0 <= i < s.len() ==> nums_below_view((#[trigger] s[i]).1, b)),
    decreases s,
{
    if s.len() > 0 {
        lemma_nums_below_points(s.drop_last(), b);
        assert(forall|i: int| 0 <= i < s.len() - 1 ==> #[trigger] s.drop_last()[i] == s[i]);
        if nums_below_items(s, b) {
            assert forall|i: int| 0 <= i < s.len() implies nums_below_view(
                (#[trigger] s[i]).1,
                b,
            ) by {
                if i < s.len() - 1 {
                    assert(s.drop_last()[i] == s[i]);
                } else {
                    assert(s.last() == s[i]);
                }
            }
        }
        if forall|i: int| 0 <= i < s.len() ==> nums_below_view((#[trigger] s[i]).1, b) {
            assert(s.last() == s[s.len() - 1]);
            assert(nums_below_items(s.drop_last(), b));
        }
    }
}

/// Folding an operator keeps every operand reference below the same
/// bound, in the combined group and in every reported group.
pub proof fn lemma_build_op_bound(op: ProgOpView, t1: GrpView, t2: GrpView, b: int)
    requires
        nums_below_view(t1, b),
        nums_below_view(t2, b),
    ensures
        nums_below_view(build_op_model(op, t1, t2).0, b),
        forall|i: int|
            0 <= i < build_op_model(op, t1, t2).1.len() ==> nums_below_view(
                #[trigger] build_op_model(op, t1, t2).1[i],
                b,
            ),
{
    let left = side_items(op, t1, true);
    let right = side_items(op, t2, merges_right(op));
    lemma_side_bound(op, t1, true, b);
    lemma_side_bound(op, t2, merges_right(op), b);
    lemma_nums_below_points(left.0, b);
    lemma_nums_below_points(right.0, b);
    lemma_nums_below_points(left.0 + right.0, b);
    assert(forall|i: int|
        0 <= i < (left.1 + right.1).len() ==> nums_below_view(#[trigger] (left.1 + right.1)[i], b));
}

/// Folding a whole stream keeps every operand reference below the bound
/// of its instruction stream, in the final stack and in every reported
/// group.
pub proof fn lemma_grp_stack_bound(
    instrs: Seq<ProgOpView>,
    stack: Seq<GrpView>,
    acc: Seq<GrpView>,
    i: int,
    b: int,
)
    requires
        operands_below(instrs, b),
        forall|j: int| 0 <= j < stack.len() ==> nums_below_view(#[trigger] stack[j], b),
        forall|j: int| 0 <= j < acc.len() ==> nums_below_view(#[trigger] acc[j], b),
    ensures
        forall|j: int|
            0 <= j < grp_stack_model(instrs, stack, acc, i).0.len() ==> nums_below_view(
                #[trigger] grp_stack_model(instrs, stack, acc, i).0[j],
                b,
            ),
        forall|j: int|
            0 <= j < grp_stack_model(instrs, stack, acc, i).1.len() ==> nums_below_view(
                #[trigger] grp_stack_model(instrs, stack, acc, i).1[j],
                b,
            ),
    decreases instrs.len() - i,
{
    reveal(grp_stack_model);
    if 0 <= i < instrs.len() {
        match instrs[i] {
            ProgOpView::Number(n) => {
                assert(instrs[i] matches ProgOpView::Number(k) ==> k < b);
                let s2 = stack.push(GrpView::Number(n));
                assert forall|j: int| 0 <= j < s2.len() implies nums_below_view(
                    #[trigger] s2[j],
                    b,
                ) by {
                    if j < stack.len() {
                        assert(s2[j] == stack[j]);
                    } else {
                        assert(s2[j] == GrpView::Number(n));
                    }
                }
                assert(grp_stack_model(instrs, stack, acc, i) == grp_stack_model(
                    instrs,
                    s2,
                    acc,
                    i + 1,
                ));
                lemma_grp_stack_bound(instrs, s2, acc, i + 1, b);
            },
            op => {
                if stack.len() >= 2 {
                    let t1 = stack[stack.len() - 2];
                    let t2 = stack[stack.len() - 1];
                    let step = build_op_model(op, t1, t2);
                    lemma_build_op_bound(op, t1, t2, b);
                    let s2 = stack.drop_last().drop_last().push(step.0);
                    let a2 = acc + step.1;
                    assert forall|j: int| 0 <= j < s2.len() implies nums_below_view(
                        #[trigger] s2[j],
                        b,
                    ) by {
                        if j < stack.len() - 2 {
                            assert(s2[j] == stack[j]);
                        } else {
                            assert(s2[j] == step.0);
                        }
                    }
                    assert forall|j: int| 0 <= j < a2.len() implies nums_below_view(
                        #[trigger] a2[j],
                        b,
                    ) by {
                        if j < acc.len() {
                            assert(a2[j] == acc[j]);
                        } else {
                            assert(a2[j] == step.1[j - acc.len()]);
                        }
                    }
                    assert(grp_stack_model(instrs, stack, acc, i) == grp_stack_model(
                        instrs,
                        s2,
                        a2,
                        i + 1,
                    ));
                    lemma_grp_stack_bound(instrs, s2, a2, i + 1, b);
                }
            },
        }
    }
}

proof fn lemma_side_bound(op: ProgOpView, t: GrpView, merge: bool, b: int)
    requires
        nums_below_view(t, b),
    ensures
        forall|i: int|
            0 <= i < side_items(op, t, merge).0.len() ==> nums_below_view(
                (#[trigger] side_items(op, t, merge).0[i]).1,
                b,
            ),
        forall|i: int|
            0 <= i < side_items(op, t, merge).1.len() ==> nums_below_view(
                #[trigger] side_items(op, t, merge).1[i],
                b,
            ),
{
    match t {
        GrpView::Group(ts) => {
            lemma_nums_below_points(ts, b);
            if merge && ts.len() > 0 && (ts[0].0 == op || ts[0].0 == family_other(op)) {
                lemma_nums_below_points(ts.update(0, (op, ts[0].1)), b);
            }
        },
        _ => {},
    }
}

impl InfixGrpTypeElem {
    /// Structure-preserving deep copy.
    pub fn duplicate(&self) -> (r: InfixGrpTypeElem)
        ensures
            r.model() == self.model(),
            self.wf() ==> r.wf(),
        decreases self,
    {
        match self {
            InfixGrpTypeElem::Number(n) => InfixGrpTypeElem::Number(*n),
            InfixGrpTypeElem::Term(l, op, rt) => InfixGrpTypeElem::Term(
                Box::new(l.duplicate()),
                *op,
                Box::new(rt.duplicate()),
            ),
            InfixGrpTypeElem::Group(v) => InfixGrpTypeElem::Group(duplicate_items(v)),
        }
    }
}

/// Structure-preserving deep copy of a group's items.
fn duplicate_items(v: &Vec<(ProgOp, InfixGrpTypeElem)>) -> (out: Vec<(ProgOp, InfixGrpTypeElem)>)
    ensures
        out@.len() == v@.len(),
        items_model(out@) == items_model(v@),
        items_wf(v@) ==> items_wf(out@),
    decreases v@,
{
    let mut out: Vec<(ProgOp, InfixGrpTypeElem)> = Vec::new();
    let mut i: usize = 0;
    while i < v.len()
        invariant
            0 <= i <= v@.len(),
            out@.len() == i,
            forall|j: int|
                0 <= j < i ==> (#[trigger] out@[j]).0 == v@[j].0 && out@[j].1.model()
                    == v@[j].1.model() && (v@[j].1.wf() ==> out@[j].1.wf()),
        decreases v@.len() - i,
    {
        let e = v[i].1.duplicate();
        out.push((v[i].0, e));
        i = i + 1;
    }
    proof {
        lemma_items_model_points(out@);
        lemma_items_model_points(v@);
        assert forall|j: int| 0 <= j < v@.len() implies items_model(out@)[j] == items_model(
            v@,
        )[j] by {
            assert((#[trigger] out@[j]).0 == v@[j].0);
        }
        assert(items_model(out@) =~= items_model(v@));
        if items_wf(v@) {
            lemma_items_wf_points(v@);
            lemma_items_wf_points(out@);
        }
    }
    out
}

/// Whether the head operator of a group belongs to the same family as
/// `op`, so that the group can be folded rather than nested.
fn head_compatible(ts: &Vec<(ProgOp, InfixGrpTypeElem)>, op: ProgOp) -> (r: bool)
    requires
        ts@.len() > 0,
        ts@[0].0.valid(),
        op.valid(),
    ensures
        r == (ts@[0].0@ == op@ || ts@[0].0@ == family_other(op@)),
{
    let k0 = ts[0].0.kind();
    let k = op.kind();
    let other = match k {
        ProgOpView::Add => ProgOpView::Sub,
        ProgOpView::Sub => ProgOpView::Add,
        ProgOpView::Mul => ProgOpView::Div,
        ProgOpView::Div => ProgOpView::Mul,
        ProgOpView::Number(n) => ProgOpView::Number(n),
    };
    k0 == k || k0 == other
}

/// Joins one side's subtree into the group under construction,
/// reporting a nested group when it is not folded in.
fn push_side(
    op: ProgOp,
    t: InfixGrpTypeElem,
    merge: bool,
    grp: &mut Vec<(ProgOp, InfixGrpTypeElem)>,
    groups: &mut Vec<InfixGrpTypeElem>,
)
    requires
        op.valid(),
        !(op@ is Number),
        t.wf(),
        items_wf(old(grp)@),
        forall|i: int| 0 <= i < old(groups)@.len() ==> (#[trigger] old(groups)@[i]).wf(),
    ensures
        items_model(final(grp)@) == items_model(old(grp)@) + side_items(op@, t.model(), merge).0,
        models_of(final(groups)@) == models_of(old(groups)@) + side_items(op@, t.model(), merge).1,
        items_wf(final(grp)@),
        final(grp)@.len() > old(grp)@.len(),
        forall|i: int| 0 <= i < final(groups)@.len() ==> (#[trigger] final(groups)@[i]).wf(),
{
    let ghost tm = t.model();
    let ghost grp0 = grp@;
    let ghost groups0 = groups@;
    match t {
        InfixGrpTypeElem::Group(mut ts) => {
            let ghost ts0 = ts@;
            proof {
                lemma_items_wf_points(ts0);
                lemma_items_model_points(ts0);
            }
            if merge && head_compatible(&ts, op) {
                let head = ts.remove(0);
                let ghost head0 = head;
                grp.push((op, head.1));
                grp.append(&mut ts);
                proof {
                    let tail = ts0.subrange(1, ts0.len() as int);
                    assert(ts0.remove(0) =~= tail);
                    assert(head0 == ts0[0]);
                    assert(grp@ == grp0.push((op, head0.1)) + tail);
                    lemma_items_model_push(grp0, (op, head0.1));
                    lemma_items_model_append(grp0.push((op, head0.1)), tail);
                    lemma_items_model_points(tail);
                    lemma_items_wf_points(tail);
                    assert forall|j: int| 0 <= j < tail.len() implies (#[trigger] tail[j]).0.valid()
                        && tail[j].1.wf() by {
                        assert(tail[j] == ts0[j + 1]);
                    }
                    let target = items_model(ts0).update(0, (op@, ts0[0].1.model()));
                    let rhs = seq![(op@, head0.1.model())] + items_model(tail);
                    assert forall|j: int| 0 <= j < target.len() implies target[j] == rhs[j] by {
                        if j > 0 {
                            assert(tail[j - 1] == ts0[j]);
                            assert(items_model(tail)[j - 1] == (tail[j - 1].0@, tail[j
                                - 1].1.model()));
                            assert(items_model(ts0)[j] == (ts0[j].0@, ts0[j].1.model()));
                        }
                    }
                    assert(target =~= rhs);
                    assert(items_model(grp@) =~= items_model(grp0) + items_model(ts0).update(
                        0,
                        (op@, ts0[0].1.model()),
                    ));
                    assert(models_of(groups@) =~= models_of(groups0) + Seq::<GrpView>::empty());
                }
            } else {
                let g = InfixGrpTypeElem::Group(ts);
                let ghost gsnap = g;
                let copy = g.duplicate();
                groups.push(copy);
                grp.push((op, g));
                proof {
                    assert(gsnap.model() == tm);
                    assert(grp@ == grp0.push((op, gsnap)));
                    lemma_items_model_push(grp0, (op, gsnap));
                    assert(items_model(grp@) =~= items_model(grp0) + seq![(op@, tm)]);
                    assert forall|j: int| 0 <= j < groups@.len() implies models_of(groups@)[j]
                        == (models_of(groups0) + seq![tm])[j] by {
                        if j < groups0.len() {
                            assert(groups@[j] == groups0[j]);
                        }
                    }
                    assert(models_of(groups@) =~= models_of(groups0) + seq![tm]);
                }
            }
        },
        plain => {
            let ghost psnap = plain;
            grp.push((op, plain));
            proof {
                assert(psnap.model() == tm);
                assert(grp@ == grp0.push((op, psnap)));
                lemma_items_model_push(grp0, (op, psnap));
                assert(items_model(grp@) =~= items_model(grp0) + seq![(op@, tm)]);
                assert(models_of(groups@) =~= models_of(groups0) + Seq::<GrpView>::empty());
            }
        },
    }
}

/// Combines an operator with its two subtrees, appending any completed
/// nested groups to `groups`.
fn build_op(
    op: ProgOp,
    t1: InfixGrpTypeElem,
    t2: InfixGrpTypeElem,
    groups: &mut Vec<InfixGrpTypeElem>,
) -> (r: InfixGrpTypeElem)
    requires
        op.valid(),
        !(op@ is Number),
        t1.wf(),
        t2.wf(),
        forall|i: int| 0 <= i < old(groups)@.len() ==> (#[trigger] old(groups)@[i]).wf(),
    ensures
        r.model() == build_op_model(op@, t1.model(), t2.model()).0,
        r.wf(),
        models_of(final(groups)@) == models_of(old(groups)@) + build_op_model(
            op@,
            t1.model(),
            t2.model(),
        ).1,
        forall|i: int| 0 <= i < final(groups)@.len() ==> (#[trigger] final(groups)@[i]).wf(),
{
    let ghost t1m = t1.model();
    let ghost t2m = t2.model();
    let ghost groups0 = groups@;
    let mut grp: Vec<(ProgOp, InfixGrpTypeElem)> = Vec::new();
    let mr = match op.kind() {
        ProgOpView::Add => true,
        ProgOpView::Mul => true,
        _ => false,
    };
    push_side(op, t1, true, &mut grp, groups);
    push_side(op, t2, mr, &mut grp, groups);
    proof {
        assert(items_model(grp@) =~= side_items(op@, t1m, true).0 + side_items(op@, t2m, mr).0);
        assert(models_of(groups@) =~= models_of(groups0) + (side_items(op@, t1m, true).1
            + side_items(op@, t2m, mr).1));
    }
    InfixGrpTypeElem::Group(grp)
}

/// Folds a postfix stream into its grouped infix tree, reusing the
/// caller's scratch stack, and collects every completed group, bottom-up
/// with the outermost last.
pub fn infix_group_stack(instructions: &[ProgOp], stack: &mut Vec<InfixGrpTypeElem>) -> (r: (
    InfixGrpTypeElem,
    Vec<InfixGrpTypeElem>,
))
    requires
        all_valid(instructions@),
        wf_postfix(ops_view(instructions@)),
    ensures
        r.0.model() == infix_tree_model(ops_view(instructions@)),
        r.0.wf(),
        models_of(r.1@) == reported_groups_model(ops_view(instructions@)),
        forall|i: int| 0 <= i < r.1@.len() ==> (#[trigger] r.1@[i]).wf(),
{
    let ghost iv = ops_view(instructions@);
    stack.clear();
    let mut groups: Vec<InfixGrpTypeElem> = Vec::new();
    proof {
        reveal(grp_stack_model);
        assert(models_of(stack@) =~= Seq::<GrpView>::empty());
        assert(models_of(groups@) =~= Seq::<GrpView>::empty());
    }
    let n = instructions.len();
    let mut i: usize = 0;
    while i < n
        invariant
            n == instructions.len(),
            0 <= i <= n,
            all_valid(instructions@),
            iv == ops_view(instructions@),
            wf_postfix(iv),
            stack@.len() == balance(iv, i as int),
            forall|j: int| 0 <= j < stack@.len() ==> (#[trigger] stack@[j]).wf(),
            forall|j: int| 0 <= j < groups@.len() ==> (#[trigger] groups@[j]).wf(),
            grp_stack_model(iv, models_of(stack@), models_of(groups@), i as int)
                == grp_stack_model(iv, Seq::empty(), Seq::empty(), 0),
        decreases n - i,
    {
        proof {
            reveal(grp_stack_model);
        }
        let op = instructions[i];
        assert(instructions@[i as int].valid());
        assert(op@ == iv[i as int]);
        let ghost pre = stack@;
        let ghost pregroups = groups@;
        match op.kind() {
            ProgOpView::Number(idx) => {
                stack.push(InfixGrpTypeElem::Number(idx));
                proof {
                    assert(models_of(stack@) =~= models_of(pre).push(GrpView::Number(idx)));
                }
            },
            _ => {
                assert(balance(iv, i + 1) >= 1);
                assert(stack@.len() >= 2);
                let t2 = stack.pop().unwrap();
                let t1 = stack.pop().unwrap();
                assert(t1.model() == models_of(pre)[pre.len() - 2]);
                assert(t2.model() == models_of(pre)[pre.len() - 1]);
                let t = build_op(op, t1, t2, &mut groups);
                stack.push(t);
                proof {
                    let step = build_op_model(
                        op@,
                        models_of(pre)[pre.len() - 2],
                        models_of(pre)[pre.len() - 1],
                    );
                    assert(models_of(stack@) =~= models_of(pre).drop_last().drop_last().push(
                        step.0,
                    ));
                    assert(models_of(groups@) =~= models_of(pregroups) + step.1);
                }
            },
        }
        i = i + 1;
    }
    assert(stack@.len() == 1);
    let tree = stack.pop().unwrap();
    proof {
        reveal(grp_stack_model);
        assert(grp_stack_model(iv, models_of(stack@).push(tree.model()), models_of(groups@),
            n as int) == (models_of(stack@).push(tree.model()), models_of(groups@)));
        assert(tree.model() == infix_tree_model(iv));
    }
    let is_group = match &tree {
        InfixGrpTypeElem::Group(_) => true,
        _ => false,
    };
    if is_group {
        let copy = tree.duplicate();
        let ghost pregroups = groups@;
        groups.push(copy);
        proof {
            assert(models_of(groups@) =~= models_of(pregroups).push(tree.model()));
        }
    }
    (tree, groups)
}

/// Returns the grouped infix tree of a well-formed postfix stream.
pub fn infix_group(instructions: &[ProgOp]) -> (r: InfixGrpTypeElem)
    requires
        all_valid(instructions@),
        wf_postfix(ops_view(instructions@)),
    ensures
        r.model() == infix_tree_model(ops_view(instructions@)),
        r.wf(),
{
    let mut stack: Vec<InfixGrpTypeElem> = Vec::new();
    let folded = infix_group_stack(instructions, &mut stack);
    folded.0
}

/// The unhighlighted rendering of a grouped element: numbers become the
/// concrete value their slot maps to, groups render their elements
/// separated by their operators (the first element's tag unrendered),
/// and a nested non-number element is bracketed.
pub open spec fn render_elem(t: GrpView, numbers: Seq<u8>, brackets: bool) -> Seq<char>
    decreases t,
{
    let inner = match t {
        GrpView::Number(n) => dec_seq(numbers[n as int] as nat),
        GrpView::Term(l, op, r) => render_elem(*l, numbers, true) + seq![' '] + op_token(
            op,
            numbers,
        ) + seq![' '] + render_elem(*r, numbers, true),
        GrpView::Group(items) => render_items(items, numbers),
    };
    if brackets && !(t is Number) {
        seq!['('] + inner + seq![')']
    } else {
        inner
    }
}

/// The unhighlighted rendering of a group's items, left to right.
pub open spec fn render_items(items: Seq<(ProgOpView, GrpView)>, numbers: Seq<u8>) -> Seq<char>
    decreases items,
{
    if items.len() == 0 {
        Seq::empty()
    } else if items.len() == 1 {
        render_elem(items[0].1, numbers, true)
    } else {
        render_items(items.drop_last(), numbers) + seq![' '] + op_token(items.last().0, numbers)
            + seq![' '] + render_elem(items.last().1, numbers, true)
    }
}

impl InfixGrpTypeElem {
    /// Formats the element against a concrete number assignment,
    /// optionally highlighted for terminal display.
    pub fn colour(&self, numbers: &[u8], colour: bool) -> (r: String)
        requires
            self.wf(),
            nums_below_view(self.model(), numbers.len() as int),
        ensures
            !colour ==> r@ == render_elem(self.model(), numbers@, false),
    {
        self.colour_internal(numbers, colour, false)
    }

    fn colour_internal(&self, numbers: &[u8], colour: bool, brackets: bool) -> (r: String)
        requires
            self.wf(),
            nums_below_view(self.model(), numbers.len() as int),
        ensures
            !colour ==> r@ == render_elem(self.model(), numbers@, brackets),
        decreases self,
    {
        match self {
            InfixGrpTypeElem::Number(n) => {
                let s = u8_string(numbers[*n as usize]);
                if colour {
                    proof {
                        crate::render::lemma_dec_seq_digits(numbers@[*n as int] as nat);
                    }
                    paint_number(s)
                } else {
                    s
                }
            },
            InfixGrpTypeElem::Term(l, op, rt) => {
                let mut s = if brackets {
                    lparen_string()
                } else {
                    String::new()
                };
                let ls = l.colour_internal(numbers, colour, true);
                s.append(ls.as_str());
                let sp = space_string();
                s.append(sp.as_str());
                let os = op.colour(numbers, colour);
                s.append(os.as_str());
                s.append(sp.as_str());
                let rs = rt.colour_internal(numbers, colour, true);
                s.append(rs.as_str());
                if brackets {
                    let rp = rparen_string();
                    s.append(rp.as_str());
                }
                s
            },
            InfixGrpTypeElem::Group(v) => {
                let mut s = if brackets {
                    lparen_string()
                } else {
                    String::new()
                };
                let ghost lead: Seq<char> = if brackets {
                    seq!['(']
                } else {
                    Seq::empty()
                };
                assert(s@ =~= lead);
                let inner = colour_items(v, numbers, colour);
                s.append(inner.as_str());
                if brackets {
                    let rp = rparen_string();
                    s.append(rp.as_str());
                }
                s
            },
        }
    }
}

/// Formats a group's items, left to right, separated by their operators.
fn colour_items(v: &Vec<(ProgOp, InfixGrpTypeElem)>, numbers: &[u8], colour: bool) -> (r: String)
    requires
        items_wf(v@),
        nums_below_items(items_model(v@), numbers.len() as int),
    ensures
        !colour ==> r@ == render_items(items_model(v@), numbers@),
    decreases v@,
{
    let ghost m = items_model(v@);
    proof {
        lemma_items_model_points(v@);
        lemma_items_wf_points(v@);
        lemma_nums_below_points(m, numbers.len() as int);
    }
    let mut s = String::new();
    let sp = space_string();
    let mut i: usize = 0;
    while i < v.len()
        invariant
            0 <= i <= v@.len(),
            m == items_model(v@),
            m.len() == v@.len(),
            items_wf(v@),
            forall|j: int|
                0 <= j < v@.len() ==> m[j] == ((#[trigger] v@[j]).0@, v@[j].1.model()),
            forall|j: int|
                0 <= j < v@.len() ==> (#[trigger] v@[j]).0.valid() && !(v@[j].0@ is Number)
                    && v@[j].1.wf(),
            forall|j: int|
                0 <= j < m.len() ==> nums_below_view((#[trigger] m[j]).1, numbers.len() as int),
            sp@ == seq![' '],
            !colour ==> s@ == render_items(m.take(i as int), numbers@),
        decreases v@.len() - i,
    {
        if i > 0 {
            s.append(sp.as_str());
            let os = v[i].0.colour(numbers, colour);
            s.append(os.as_str());
            s.append(sp.as_str());
        }
        let es = v[i].1.colour_internal(numbers, colour, true);
        s.append(es.as_str());
        proof {
            if !colour {
                let t1 = m.take(i + 1);
                assert(t1.drop_last() =~= m.take(i as int));
                assert(t1.last() == m[i as int]);
                if i == 0 {
                    assert(render_items(t1, numbers@) == render_elem(m[0].1, numbers@, true));
                }
            }
        }
        i = i + 1;
    }
    proof {
        assert(m.take(v@.len() as int) =~= m);
    }
    s
}

/// On a stream whose running balance stays positive, folding leaves a
/// stack whose depth is the final balance.
pub proof fn lemma_grp_stack_len(
    instrs: Seq<ProgOpView>,
    stack: Seq<GrpView>,
    acc: Seq<GrpView>,
    i: int,
)
    requires
        0 <= i <= instrs.len(),
        stack.len() == balance(instrs, i),
        forall|j: int| 1 <= j <= instrs.len() ==> balance(instrs, j) >= 1,
    ensures
        grp_stack_model(instrs, stack, acc, i).0.len() == balance(instrs, instrs.len() as int),
    decreases instrs.len() - i,
{
    reveal(grp_stack_model);
    if i < instrs.len() {
        match instrs[i] {
            ProgOpView::Number(n) => {
                lemma_grp_stack_len(instrs, stack.push(GrpView::Number(n)), acc, i + 1);
            },
            op => {
                assert(balance(instrs, i + 1) >= 1);
                if stack.len() >= 2 {
                    let step = build_op_model(op, stack[stack.len() - 2], stack[stack.len() - 1]);
                    lemma_grp_stack_len(
                        instrs,
                        stack.drop_last().drop_last().push(step.0),
                        acc + step.1,
                        i + 1,
                    );
                }
            },
        }
    }
}

} // verus!
