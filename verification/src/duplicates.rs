//! Detection of programs that are commutative or associative
//! restatements of a program already kept.
//!
//! Two checks run over the grouped infix form. First, local ordering
//! rules on every completed group: within a group the family leader
//! operators (+ or x) must all come before the family followers (- or /),
//! and within each run of one family member the plain numbers must come
//! in non-decreasing slot order, before any compound element. A program
//! breaking a rule is a `TermOrder` duplicate: some reordering of it
//! passes the rules and is generated separately. Second, the fully
//! folded tree is looked up in a set of canonical forms already seen; a
//! hit is an `Infix` duplicate. Rendered text would not be a safe key:
//! programs with identical renderings can evaluate in different orders,
//! so the tree itself is compared structurally.

use vstd::prelude::*;

use crate::eval::wf_postfix;
use crate::infix::{
    infix_group_stack, infix_tree_model, items_model, items_wf, lemma_items_model_points,
    lemma_items_wf_points, models_of, reported_groups_model, GrpView, InfixGrpTypeElem,
};
use crate::progop::{all_valid, lemma_op_view_injective, ops_view, ProgOp, ProgOpView};

verus! {

/// Why a program was classified a duplicate, or that it was not.
#[derive(Clone, Copy, Debug, PartialEq, Eq, Structural)]
pub enum DupReason {
    /// The program is kept.
    NotDup,
    /// A local ordering rule failed: a reordering of the program's terms
    /// is the kept representative.
    TermOrder,
    /// The canonical form was already produced by an earlier program.
    Infix,
}

/// The local ordering rules over a group's items, from position `i`
/// onward. `second_op` records whether a family follower (- or /) has
/// been seen, `in_terms` whether the current run has seen a compound
/// element, and `last_num` the last plain number of the current run.
pub open spec fn group_rule_from(
    items: Seq<(ProgOpView, GrpView)>,
    i: int,
    second_op: bool,
    in_terms: bool,
    last_num: u8,
) -> bool
    decreases items.len() - i,
{
    if i < 0 || i >= items.len() {
        true
    } else {
        let op = items[i].0;
        let e = items[i].1;
        if i > 0 && (op is Add || op is Mul) && second_op {
            false
        } else if i > 0 && op is Number {
            false
        } else {
            let entering = i > 0 && (op is Sub || op is Div) && !second_op;
            let so = second_op || entering;
            let it = if entering {
                false
            } else {
                in_terms
            };
            let ln = if entering {
                0u8
            } else {
                last_num
            };
            match e {
                GrpView::Number(n) => {
                    if it || n < ln {
                        false
                    } else {
                        group_rule_from(items, i + 1, so, it, n)
                    }
                },
                _ => group_rule_from(items, i + 1, so, true, ln),
            }
        }
    }
}

/// The local ordering rules over one whole group.
pub open spec fn group_rule(items: Seq<(ProgOpView, GrpView)>) -> bool {
    group_rule_from(items, 0, false, false, 0u8)
}

/// Every reported group of the sequence passes the local ordering rules.
pub open spec fn groups_ok(gs: Seq<GrpView>) -> bool {
    forall|i: int|
        0 <= i < gs.len() ==> ((#[trigger] gs[i]) matches GrpView::Group(items) ==> group_rule(
            items,
        ))
}

/// Every completed group of the program passes the local ordering rules.
pub open spec fn local_rules_ok(instrs: Seq<ProgOpView>) -> bool
    recommends
        wf_postfix(instrs),
{
    groups_ok(reported_groups_model(instrs))
}

/// The classification of a program against a set of canonical forms
/// already seen.
pub open spec fn classify_model(instrs: Seq<ProgOpView>, seen: Set<GrpView>) -> DupReason
    recommends
        wf_postfix(instrs),
{
    if !local_rules_ok(instrs) {
        DupReason::TermOrder
    } else if seen.contains(infix_tree_model(instrs)) {
        DupReason::Infix
    } else {
        DupReason::NotDup
    }
}

/// Classifying a program is deterministic, and its local ordering
/// verdict does not depend on the seen-set: the same instruction range
/// classified against any two seen-sets, and in particular against two
/// freshly created empty ones, gives the same `TermOrder` verdict, and
/// against equal seen-sets the same verdict altogether.
pub proof fn lemma_classify_deterministic(instrs: Seq<ProgOpView>, s1: Set<GrpView>, s2: Set<GrpView>)
    ensures
        (classify_model(instrs, s1) is TermOrder) == (classify_model(instrs, s2) is TermOrder),
        s1 == s2 ==> classify_model(instrs, s1) == classify_model(instrs, s2),
{
}

/// Structural equality of two elements' mathematical values.
fn eq_elem(a: &InfixGrpTypeElem, b: &InfixGrpTypeElem) -> (r: bool)
    requires
        a.wf(),
        b.wf(),
    ensures
        r == (a.model() == b.model()),
    decreases a,
{
    match (a, b) {
        (InfixGrpTypeElem::Number(n1), InfixGrpTypeElem::Number(n2)) => n1 == n2,
        (InfixGrpTypeElem::Term(l1, o1, r1), InfixGrpTypeElem::Term(l2, o2, r2)) => {
            proof {
                lemma_op_view_injective(*o1, *o2);
            }
            *o1 == *o2 && eq_elem(l1, l2) && eq_elem(r1, r2)
        },
        (InfixGrpTypeElem::Group(v1), InfixGrpTypeElem::Group(v2)) => eq_items(v1, v2),
        _ => false,
    }
}

/// Structural equality of two item sequences' mathematical values.
fn eq_items(v1: &Vec<(ProgOp, InfixGrpTypeElem)>, v2: &Vec<(ProgOp, InfixGrpTypeElem)>) -> (r:
    bool)
    requires
        items_wf(v1@),
        items_wf(v2@),
    ensures
        r == (items_model(v1@) == items_model(v2@)),
    decreases v1@,
{
    proof {
        lemma_items_model_points(v1@);
        lemma_items_model_points(v2@);
        lemma_items_wf_points(v1@);
        lemma_items_wf_points(v2@);
    }
    let ghost m1 = items_model(v1@);
    let ghost m2 = items_model(v2@);
    if v1.len() != v2.len() {
        return false;
    }
    let mut i: usize = 0;
    while i < v1.len()
        invariant
            0 <= i <= v1@.len(),
            v1@.len() == v2@.len(),
            m1 == items_model(v1@),
            m2 == items_model(v2@),
            m1.len() == v1@.len(),
            m2.len() == v2@.len(),
            items_wf(v1@),
            items_wf(v2@),
            forall|j: int| 0 <= j < v1@.len() ==> m1[j] == ((#[trigger] v1@[j]).0@, v1@[j].1.model()),
            forall|j: int| 0 <= j < v2@.len() ==> m2[j] == ((#[trigger] v2@[j]).0@, v2@[j].1.model()),
            forall|j: int|
                0 <= j < v1@.len() ==> (#[trigger] v1@[j]).0.valid() && v1@[j].1.wf(),
            forall|j: int|
                0 <= j < v2@.len() ==> (#[trigger] v2@[j]).0.valid() && v2@[j].1.wf(),
            forall|j: int| 0 <= j < i ==> m1[j] == m2[j],
        decreases v1@.len() - i,
    {
        proof {
            lemma_op_view_injective(v1@[i as int].0, v2@[i as int].0);
        }
        let ops_eq = v1[i].0 == v2[i].0;
        if !ops_eq {
            assert(m1[i as int] != m2[i as int]);
            return false;
        }
        let elems_eq = eq_elem(&v1[i].1, &v2[i].1);
        if !elems_eq {
            assert(m1[i as int] != m2[i as int]);
            return false;
        }
        i = i + 1;
    }
    proof {
        assert(m1 =~= m2);
    }
    true
}

/// The set of canonical grouped forms already produced during a
/// generation run. Grows monotonically; membership of a program's fully
/// folded tree marks the program an `Infix` duplicate.
pub struct CanonicalSeenSet {
    items: Vec<InfixGrpTypeElem>,
}

impl View for CanonicalSeenSet {
    type V = Set<GrpView>;

    closed spec fn view(&self) -> Set<GrpView> {
        Set::new(|g: GrpView| models_of(self.items@).contains(g))
    }
}

impl CanonicalSeenSet {
    /// Every stored element is well-formed.
    pub closed spec fn wf(&self) -> bool {
        forall|i: int| 0 <= i < self.items@.len() ==> (#[trigger] self.items@[i]).wf()
    }

    /// Creates an empty seen-set.
    pub fn new() -> (r: CanonicalSeenSet)
        ensures
            r@ == Set::<GrpView>::empty(),
            r.wf(),
    {
        let r = CanonicalSeenSet { items: Vec::new() };
        proof {
            assert(r@ =~= Set::<GrpView>::empty());
        }
        r
    }

    /// Adds a canonical form to the set; returns true when it was not
    /// there before.
    pub fn insert(&mut self, e: InfixGrpTypeElem) -> (r: bool)
        requires
            old(self).wf(),
            e.wf(),
        ensures
            r == !old(self)@.contains(e.model()),
            final(self)@ == old(self)@.insert(e.model()),
            final(self).wf(),
    {
        let ghost m = e.model();
        let ghost items0 = self.items@;
        let n = self.items.len();
        let mut i: usize = 0;
        while i < n
            invariant
                0 <= i <= n,
                n == self.items@.len(),
                self.items@ == items0,
                old(self).wf(),
                e.wf(),
                m == e.model(),
                forall|i2: int| 0 <= i2 < n ==> (#[trigger] items0[i2]).wf(),
                forall|j: int| 0 <= j < i ==> models_of(items0)[j] != m,
            decreases n - i,
        {
            let hit = eq_elem(&self.items[i], &e);
            if hit {
                proof {
                    assert(models_of(items0)[i as int] == m);
                    assert(old(self)@.contains(m));
                    assert(self@ =~= old(self)@.insert(m));
                }
                return false;
            }
            i = i + 1;
        }
        proof {
            assert(forall|j: int| 0 <= j < models_of(items0).len() ==> models_of(items0)[j] != m);
            assert(!models_of(items0).contains(m));
            assert(!old(self)@.contains(m));
        }
        self.items.push(e);
        proof {
            assert(models_of(self.items@) =~= models_of(items0).push(m));
            assert forall|g: GrpView| self@.contains(g) implies old(self)@.insert(m).contains(
                g,
            ) by {
                let j = choose|j: int|
                    0 <= j < models_of(self.items@).len() && models_of(self.items@)[j] == g;
                if j < items0.len() {
                    assert(models_of(items0)[j] == g);
                }
            }
            assert forall|g: GrpView| old(self)@.insert(m).contains(g) implies self@.contains(
                g,
            ) by {
                if g == m {
                    assert(models_of(self.items@)[items0.len() as int] == m);
                } else {
                    let j = choose|j: int|
                        0 <= j < models_of(items0).len() && models_of(items0)[j] == g;
                    assert(models_of(self.items@)[j] == g);
                }
            }
            assert(self@ =~= old(self)@.insert(m));
        }
        true
    }
}

/// Checks the local ordering rules on one group's items.
fn check_items(v: &Vec<(ProgOp, InfixGrpTypeElem)>) -> (r: bool)
    requires
        items_wf(v@),
    ensures
        r == group_rule(items_model(v@)),
{
    proof {
        lemma_items_model_points(v@);
        lemma_items_wf_points(v@);
    }
    let ghost m = items_model(v@);
    let mut second_op = false;
    let mut in_terms = false;
    let mut last_num: u8 = 0;
    let n = v.len();
    let mut i: usize = 0;
    while i < n
        invariant
            0 <= i <= n,
            n == v@.len(),
            m == items_model(v@),
            m.len() == v@.len(),
            items_wf(v@),
            forall|j: int| 0 <= j < v@.len() ==> m[j] == ((#[trigger] v@[j]).0@, v@[j].1.model()),
            forall|j: int|
                0 <= j < v@.len() ==> (#[trigger] v@[j]).0.valid() && !(v@[j].0@ is Number)
                    && v@[j].1.wf(),
            group_rule_from(m, i as int, second_op, in_terms, last_num) == group_rule(m),
        decreases n - i,
    {
        if i > 0 {
            match v[i].0.kind() {
                ProgOpView::Add | ProgOpView::Mul => {
                    if second_op {
                        return false;
                    }
                },
                _ => {
                    if !second_op {
                        second_op = true;
                        in_terms = false;
                        last_num = 0;
                    }
                },
            }
        }
        match &v[i].1 {
            InfixGrpTypeElem::Number(nn) => {
                if in_terms || *nn < last_num {
                    return false;
                }
                last_num = *nn;
            },
            _ => {
                in_terms = true;
            },
        }
        i = i + 1;
    }
    true
}

/// Classifies a program: whether it merely reorders or reassociates one
/// already seen. Reuses the caller's scratch stack, and on a locally
/// well-ordered program records its canonical form in the seen-set.
pub fn duplicated(
    instructions: &[ProgOp],
    stack: &mut Vec<InfixGrpTypeElem>,
    set: &mut CanonicalSeenSet,
) -> (r: DupReason)
    requires
        all_valid(instructions@),
        wf_postfix(ops_view(instructions@)),
        old(set).wf(),
    ensures
        r == classify_model(ops_view(instructions@), old(set)@),
        final(set)@ == if local_rules_ok(ops_view(instructions@)) {
            old(set)@.insert(infix_tree_model(ops_view(instructions@)))
        } else {
            old(set)@
        },
        final(set).wf(),
{
    let ghost iv = ops_view(instructions@);
    let folded = infix_group_stack(instructions, stack);
    let tree = folded.0;
    let groups = folded.1;
    let ghost gm = reported_groups_model(iv);
    let n = groups.len();
    let mut i: usize = 0;
    while i < n
        invariant
            0 <= i <= n,
            n == groups@.len(),
            iv == ops_view(instructions@),
            gm == reported_groups_model(iv),
            gm == models_of(groups@),
            gm.len() == groups@.len(),
            *set == *old(set),
            set.wf(),
            forall|j: int| 0 <= j < groups@.len() ==> (#[trigger] groups@[j]).wf(),
            forall|j: int|
                0 <= j < i ==> ((#[trigger] gm[j]) matches GrpView::Group(items) ==> group_rule(
                    items,
                )),
        decreases n - i,
    {
        match &groups[i] {
            InfixGrpTypeElem::Group(v) => {
                assert(gm[i as int] == groups@[i as int].model());
                assert(gm[i as int] == GrpView::Group(items_model(v@)));
                let pass = check_items(v);
                if !pass {
                    assert(!groups_ok(gm));
                    assert(gm == reported_groups_model(iv));
                    assert(!local_rules_ok(iv));
                    assert(classify_model(iv, old(set)@) == DupReason::TermOrder);
                    return DupReason::TermOrder;
                }
            },
            _ => {
                assert(gm[i as int] == groups@[i as int].model());
                assert(!(gm[i as int] is Group));
            },
        }
        i = i + 1;
    }
    assert(groups_ok(gm));
    let newly = set.insert(tree);
    if newly {
        DupReason::NotDup
    } else {
        DupReason::Infix
    }
}

} // verus!
