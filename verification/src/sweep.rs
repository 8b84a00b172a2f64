//! The work a full sweep performs per card selection, separated from
//! the thread pool and the files that carry it: computing the distinct
//! selections, naming each selection's result artifact, and deriving
//! the artifact's solution map from a run's results.

use vstd::prelude::*;

use itertools::Itertools;

use crate::programs::Solution;
use crate::render::{dec_seq, u8_string};

verus! {

/// What the combination enumeration yields for a card pool and
/// selection size: a name for `itertools`' output, fixed by its
/// arguments alone.
pub uninterp spec fn combs_of(cards: Seq<u8>, k: u8) -> Seq<Seq<u8>>;

/// True when `sel` picks `sub.len()` positions of `cards` in order.
pub open spec fn is_selection_of(sub: Seq<u8>, cards: Seq<u8>) -> bool
    decreases cards.len(),
{
    if sub.len() == 0 {
        true
    } else if cards.len() == 0 {
        false
    } else if sub[0] == cards[0] {
        is_selection_of(sub.drop_first(), cards.drop_first())
    } else {
        is_selection_of(sub, cards.drop_first())
    }
}

/// Some row of `rows` holds exactly the selection `sel`.
pub open spec fn covers(rows: Seq<Vec<u8>>, sel: Seq<u8>) -> bool {
    exists|j: int| 0 <= j < rows.len() && (#[trigger] rows[j])@ == sel
}

/// Relies on itertools' `Itertools::combinations` over the card pool:
/// it yields every `k`-length combination of the pool's elements, each
/// an in-order selection of `k` of its positions.
#[verifier::external_body]
pub(crate) fn combinations_of(cards: &Vec<u8>, k: u8) -> (r: Vec<Vec<u8>>)
    ensures
        r@.map_values(|v: Vec<u8>| v@) == combs_of(cards@, k),
        forall|i: int| 0 <= i < r@.len() ==> (#[trigger] r@[i])@.len() == k as int,
        forall|i: int| 0 <= i < r@.len() ==> is_selection_of((#[trigger] r@[i])@, cards@),
{
    cards.iter().map(|c| *c).combinations(k as usize).collect()
}

/// The distinct card selections of size `k` from a pool: the
/// combinations of the pool's positions, with selections repeating the
/// same values kept once.
#[verifier::loop_isolation(false)]
pub fn card_combinations(cards: &Vec<u8>, k: u8) -> (r: Vec<Vec<u8>>)
    ensures
        forall|i: int| 0 <= i < r@.len() ==> (#[trigger] r@[i])@.len() == k as int,
        forall|i: int| 0 <= i < r@.len() ==> is_selection_of((#[trigger] r@[i])@, cards@),
        forall|i: int, j: int| 0 <= i < j < r@.len() ==> (#[trigger] r@[i])@ != (#[trigger] r@[j])@,
        forall|i: int|
            0 <= i < combs_of(cards@, k).len() ==> covers(r@, #[trigger] combs_of(cards@, k)[i]),
{
    let all = combinations_of(cards, k);
    let mut r: Vec<Vec<u8>> = Vec::new();
    let n = all.len();
    let mut i: usize = 0;
    while i < n
        invariant
            0 <= i <= n,
            n == all@.len(),
            forall|x: int| 0 <= x < r@.len() ==> (#[trigger] r@[x])@.len() == k as int,
            forall|x: int| 0 <= x < r@.len() ==> is_selection_of((#[trigger] r@[x])@, cards@),
            forall|x: int, y: int|
                0 <= x < y < r@.len() ==> (#[trigger] r@[x])@ != (#[trigger] r@[y])@,
            forall|x: int|
                0 <= x < i ==> exists|j: int|
                    0 <= j < r@.len() && (#[trigger] all@[x])@ == r@[j]@,
        decreases n - i,
    {
        let cur = &all[i];
        let mut found = false;
        let m = r.len();
        let mut j: usize = 0;
        while j < m
            invariant
                0 <= j <= m,
                m == r@.len(),
                found <==> exists|y: int| 0 <= y < j && (#[trigger] r@[y])@ == cur@,
            decreases m - j,
        {
            if eq_u8_vec(&r[j], cur) {
                found = true;
            }
            j = j + 1;
        }
        let ghost pre = r@;
        if !found {
            let copy = copy_u8_slice(cur);
            r.push(copy);
        }
        proof {
            assert forall|x: int|
                0 <= x < i + 1 implies exists|jj: int|
                    0 <= jj < r@.len() && (#[trigger] all@[x])@ == r@[jj]@ by {
                if x < i {
                    let j0 = choose|j0: int| 0 <= j0 < pre.len() && (all@[x])@ == pre[j0]@;
                    assert(r@[j0]@ == all@[x]@);
                } else {
                    if found {
                        let y = choose|y: int| 0 <= y < pre.len() && pre[y]@ == cur@;
                        assert(r@[y]@ == all@[i as int]@);
                    } else {
                        assert(r@[r@.len() - 1]@ == all@[i as int]@);
                    }
                }
            }
        }
        i = i + 1;
    }
    proof {
        assert(combs_of(cards@, k).len() == all@.len());
        assert forall|i: int|
            0 <= i < combs_of(cards@, k).len() implies covers(
            r@,
            #[trigger] combs_of(cards@, k)[i],
        ) by {
            assert(all@[i]@ == combs_of(cards@, k)[i]);
            assert(exists|j: int| 0 <= j < r@.len() && (#[trigger] all@[i])@ == r@[j]@);
            let j0 = choose|j0: int| 0 <= j0 < r@.len() && (all@[i])@ == r@[j0]@;
            assert((#[trigger] r@[j0])@ == combs_of(cards@, k)[i]);
        }
    }
    r
}

/// Element equality of two byte vectors.
fn eq_u8_vec(a: &Vec<u8>, b: &Vec<u8>) -> (r: bool)
    ensures
        r == (a@ == b@),
{
    if a.len() != b.len() {
        return false;
    }
    let n = a.len();
    let mut i: usize = 0;
    while i < n
        invariant
            0 <= i <= n,
            n == a@.len(),
            a@.len() == b@.len(),
            forall|j: int| 0 <= j < i ==> a@[j] == b@[j],
        decreases n - i,
    {
        if a[i] != b[i] {
            return false;
        }
        i = i + 1;
    }
    proof {
        assert(a@ =~= b@);
    }
    true
}

/// A copy of a byte vector.
fn copy_u8_slice(v: &Vec<u8>) -> (r: Vec<u8>)
    ensures
        r@ == v@,
{
    let mut r: Vec<u8> = Vec::new();
    let mut i: usize = 0;
    while i < v.len()
        invariant
            0 <= i <= v@.len(),
            r@ == v@.take(i as int),
        decreases v@.len() - i,
    {
        r.push(v[i]);
        proof {
            assert(v@.take(i + 1) =~= v@.take(i as int).push(v@[i as int]));
        }
        i = i + 1;
    }
    proof {
        assert(v@.take(v@.len() as int) =~= v@);
    }
    r
}

/// The stem naming one selection's artifacts: its card values in
/// order, hyphen-separated.
pub open spec fn name_stem(numbers: Seq<u8>) -> Seq<char>
    decreases numbers.len(),
{
    if numbers.len() == 0 {
        Seq::empty()
    } else if numbers.len() == 1 {
        dec_seq(numbers[0] as nat)
    } else {
        name_stem(numbers.drop_last()) + seq!['-'] + dec_seq(numbers.last() as nat)
    }
}

/// The file names of one selection's result artifact and its optional
/// equation listing: the hyphen-separated card values with the fixed
/// suffixes.
pub fn file_names(numbers: &[u8]) -> (r: (String, String))
    ensures
        r.0@ == name_stem(numbers@) + txt_suffix(),
        r.1@ == name_stem(numbers@) + eqn_suffix(),
{
    let mut stem = String::new();
    let n = numbers.len();
    let mut i: usize = 0;
    while i < n
        invariant
            0 <= i <= n,
            n == numbers@.len(),
            stem@ == name_stem(numbers@.take(i as int)),
        decreases n - i,
    {
        if i > 0 {
            proof {
                reveal_strlit("-");
            }
            stem.append("-");
        }
        let d = u8_string(numbers[i]);
        stem.append(d.as_str());
        proof {
            let t1 = numbers@.take(i + 1);
            assert(t1.drop_last() =~= numbers@.take(i as int));
            assert(t1.last() == numbers@[i as int]);
            if i == 0 {
                assert(name_stem(t1) == dec_seq(numbers@[0] as nat));
            }
        }
        i = i + 1;
    }
    proof {
        assert(numbers@.take(n as int) =~= numbers@);
        reveal_strlit(".txt");
        reveal_strlit("-eqn.txt");
    }
    let mut file = stem.clone();
    file.append(".txt");
    let mut eqn = stem;
    eqn.append("-eqn.txt");
    (file, eqn)
}

/// The characters of the result artifact's file suffix.
pub open spec fn txt_suffix() -> Seq<char> {
    seq!['.', 't', 'x', 't']
}

/// The characters of the equation listing's file suffix.
pub open spec fn eqn_suffix() -> Seq<char> {
    seq!['-', 'e', 'q', 'n', '.', 't', 'x', 't']
}

/// How many solutions hit each target, counted from a run's solution
/// list: entry `t` counts results equal to `t + 100`.
pub open spec fn counts_model(sols: Seq<(int, int, u32)>, i: int) -> Seq<int>
    decreases i,
{
    if i <= 0 {
        Seq::new(900nat, |t: int| 0int)
    } else {
        let prev = counts_model(sols, i - 1);
        let res = sols[i - 1].2;
        if 100 <= res <= 999 {
            prev.update(res - 100, prev[res - 100] + 1)
        } else {
            prev
        }
    }
}

/// Counts how many solutions hit each target in the valid range.
#[verifier::loop_isolation(false)]
pub fn solution_counts(solutions: &Vec<Solution>) -> (r: Vec<u32>)
    requires
        solutions@.len() <= u32::MAX,
    ensures
        r@.len() == 900,
        r@.map_values(|c: u32| c as int) == counts_model(
            solutions@.map_values(|s: Solution| s@),
            solutions@.len() as int,
        ),
{
    let ghost sv = solutions@.map_values(|s: Solution| s@);
    let mut r: Vec<u32> = Vec::new();
    let mut t: usize = 0;
    while t < 900
        invariant
            0 <= t <= 900,
            r@.len() == t,
            forall|x: int| 0 <= x < t ==> r@[x] == 0,
        decreases 900 - t,
    {
        r.push(0);
        t = t + 1;
    }
    proof {
        assert(r@.map_values(|c: u32| c as int) =~= counts_model(sv, 0));
    }
    let n = solutions.len();
    let mut i: usize = 0;
    while i < n
        invariant
            0 <= i <= n,
            n == solutions@.len(),
            n <= u32::MAX,
            sv == solutions@.map_values(|s: Solution| s@),
            sv.len() == n,
            r@.len() == 900,
            r@.map_values(|c: u32| c as int) == counts_model(sv, i as int),
            forall|x: int| 0 <= x < 900 ==> r@[x] <= i,
        decreases n - i,
    {
        let res = solutions[i].result;
        let ghost pre = r@;
        proof {
            assert(sv[i as int] == solutions@[i as int]@);
            assert(sv[i as int].2 == res);
        }
        if res >= 100 && res <= 999 {
            let idx = (res - 100) as usize;
            let cur = r[idx];
            assert(cur as int == counts_model(sv, i as int)[res - 100]);
            assert(cur <= i);
            r.set(idx, cur + 1);
            proof {
                assert(r@.map_values(|c: u32| c as int) =~= pre.map_values(
                    |c: u32| c as int,
                ).update(res - 100, pre.map_values(|c: u32| c as int)[res - 100] + 1));
                assert(r@.map_values(|c: u32| c as int) == counts_model(sv, i + 1));
            }
        } else {
            proof {
                assert(counts_model(sv, i + 1) == counts_model(sv, i as int));
            }
        }
        i = i + 1;
    }
    r
}

/// The solution map line body: one character per target, a hash when
/// the target was reached and a dot when it was not.
pub open spec fn map_model(counts: Seq<int>, i: int) -> Seq<char>
    decreases i,
{
    if i <= 0 {
        Seq::empty()
    } else {
        map_model(counts, i - 1).push(
            if counts[i - 1] > 0 {
                '#'
            } else {
                '.'
            },
        )
    }
}

/// Renders the per-target counts as the artifact's solution map.
#[verifier::loop_isolation(false)]
pub fn solution_map(counts: &Vec<u32>) -> (r: String)
    requires
        counts@.len() == 900,
    ensures
        r@ == map_model(counts@.map_values(|c: u32| c as int), 900),
{
    let ghost cv = counts@.map_values(|c: u32| c as int);
    let mut r = String::new();
    proof {
        reveal_strlit("#");
        reveal_strlit(".");
    }
    let mut i: usize = 0;
    while i < 900
        invariant
            0 <= i <= 900,
            cv == counts@.map_values(|c: u32| c as int),
            cv.len() == 900,
            r@ == map_model(cv, i as int),
        decreases 900 - i,
    {
        if counts[i] > 0 {
            r.append("#");
        } else {
            r.append(".");
        }
        i = i + 1;
    }
    r
}

/// How many targets at least one solution reached.
pub open spec fn coverage_model(counts: Seq<int>, i: int) -> int
    decreases i,
{
    if i <= 0 {
        0
    } else {
        coverage_model(counts, i - 1) + (if counts[i - 1] > 0 {
            1int
        } else {
            0int
        })
    }
}

/// Counts how many targets were reached at all.
#[verifier::loop_isolation(false)]
pub fn coverage(counts: &Vec<u32>) -> (r: usize)
    requires
        counts@.len() == 900,
    ensures
        r as int == coverage_model(counts@.map_values(|c: u32| c as int), 900),
        r <= 900,
{
    let ghost cv = counts@.map_values(|c: u32| c as int);
    let mut r: usize = 0;
    let mut i: usize = 0;
    while i < 900
        invariant
            0 <= i <= 900,
            cv == counts@.map_values(|c: u32| c as int),
            cv.len() == 900,
            r as int == coverage_model(cv, i as int),
            r <= i,
        decreases 900 - i,
    {
        if counts[i] > 0 {
            r = r + 1;
        }
        i = i + 1;
    }
    r
}

} // verus!
