//! Aggregation of solution statistics across card selections.
//!
//! Each solved selection reports, for every target in the range 100 to
//! 999, whether at least one program reached it. The statistics track
//! per-target hit counts, bucketed per-selection solution counts, and
//! the selections reaching the fewest and most targets.

use vstd::prelude::*;

verus! {

/// The number of targets in the valid range.
pub const TARGET_COUNT: usize = 900;

/// The card selections a minimum or maximum list holds, as sequences.
pub open spec fn sel_views(o: Option<Vec<Vec<u8>>>) -> Seq<Seq<u8>> {
    match o {
        Some(v) => v@.map_values(|c: Vec<u8>| c@),
        None => Seq::empty(),
    }
}

/// Aggregated solution statistics over a set of card selections.
pub struct Stats {
    /// How many selections were aggregated.
    pub files: usize,
    /// Per-target count of selections that reached it.
    pub sol_count: Vec<usize>,
    /// The smallest per-selection count of reached targets.
    pub min_sol_cnt: usize,
    /// The selections reaching the fewest targets.
    pub min_sols: Option<Vec<Vec<u8>>>,
    /// The largest per-selection count of reached targets.
    pub max_sol_cnt: usize,
    /// The selections reaching the most targets.
    pub max_sols: Option<Vec<Vec<u8>>>,
    /// The sum of per-selection counts of reached targets.
    pub tot_sols: usize,
    /// Selections bucketed by reached-target count, buckets of 25.
    pub sol_25_bucket: Vec<usize>,
    /// Selections bucketed by reached-target count, buckets of 50.
    pub sol_50_bucket: Vec<usize>,
    /// Selections bucketed by reached-target count, buckets of 100.
    pub sol_100_bucket: Vec<usize>,
    /// Selection and target pairs considered.
    pub tot_combs: usize,
    /// Selection and target pairs reached.
    pub tot_combs_reached: usize,
}

impl Stats {
    /// Structurally sound statistics: the bucket vectors cover the
    /// whole target range and the counters have room for one more
    /// selection.
    pub open spec fn wf(self) -> bool {
        &&& self.sol_count@.len() == 900
        &&& self.sol_25_bucket@.len() == 36
        &&& self.sol_50_bucket@.len() == 18
        &&& self.sol_100_bucket@.len() == 9
    }

    /// Creates empty statistics.
    pub fn new() -> (r: Stats)
        ensures
            r.wf(),
            r.files == 0,
            r.sol_count@ == Seq::new(900nat, |i: int| 0usize),
            r.min_sol_cnt == 0,
            r.min_sols is None,
            r.max_sol_cnt == 0,
            r.max_sols is None,
            r.tot_sols == 0,
            r.tot_combs == 0,
            r.tot_combs_reached == 0,
    {
        let r = Stats {
            files: 0,
            sol_count: vec_zeroes(TARGET_COUNT),
            min_sol_cnt: 0,
            min_sols: None,
            max_sol_cnt: 0,
            max_sols: None,
            tot_sols: 0,
            sol_25_bucket: vec_zeroes(36),
            sol_50_bucket: vec_zeroes(18),
            sol_100_bucket: vec_zeroes(9),
            tot_combs: 0,
            tot_combs_reached: 0,
        };
        proof {
            assert(r.sol_count@ =~= Seq::new(900nat, |i: int| 0usize));
        }
        r
    }

    /// Folds one solved selection into the statistics: bumps the count
    /// of every target it reached, buckets its solution count, and
    /// keeps it in the minimum or maximum list when it matches or
    /// improves on them.
    #[verifier::loop_isolation(false)]
    pub fn update(&mut self, cards: &[u8], sols: usize, sol_reached: &[bool])
        requires
            old(self).wf(),
            sol_reached.len() == 900,
            sols <= 900,
            old(self).files < usize::MAX,
            old(self).tot_sols + sols <= usize::MAX,
            old(self).tot_combs + 900 <= usize::MAX,
            old(self).tot_combs_reached + sols <= usize::MAX,
            forall|i: int| 0 <= i < 900 ==> old(self).sol_count@[i] < usize::MAX,
            forall|i: int| 0 <= i < 36 ==> old(self).sol_25_bucket@[i] < usize::MAX,
            forall|i: int| 0 <= i < 18 ==> old(self).sol_50_bucket@[i] < usize::MAX,
            forall|i: int| 0 <= i < 9 ==> old(self).sol_100_bucket@[i] < usize::MAX,
        ensures
            final(self).wf(),
            final(self).files == old(self).files + 1,
            final(self).tot_sols == old(self).tot_sols + sols,
            final(self).tot_combs == old(self).tot_combs + 900,
            final(self).tot_combs_reached == old(self).tot_combs_reached + sols,
            forall|i: int|
                0 <= i < 900 ==> final(self).sol_count@[i] == old(self).sol_count@[i] + (
                if sol_reached@[i] {
                    1int
                } else {
                    0int
                }),
            sols > 0 ==> final(self).sol_25_bucket@ == old(self).sol_25_bucket@.update(
                (sols - 1) as int / 25,
                (old(self).sol_25_bucket@[(sols - 1) as int / 25] + 1) as usize,
            ),
            sols > 0 ==> final(self).sol_50_bucket@ == old(self).sol_50_bucket@.update(
                (sols - 1) as int / 50,
                (old(self).sol_50_bucket@[(sols - 1) as int / 50] + 1) as usize,
            ),
            sols > 0 ==> final(self).sol_100_bucket@ == old(self).sol_100_bucket@.update(
                (sols - 1) as int / 100,
                (old(self).sol_100_bucket@[(sols - 1) as int / 100] + 1) as usize,
            ),
            sols == 0 ==> final(self).sol_25_bucket@ == old(self).sol_25_bucket@
                && final(self).sol_50_bucket@ == old(self).sol_50_bucket@
                && final(self).sol_100_bucket@ == old(self).sol_100_bucket@,
            final(self).min_sols is Some && final(self).max_sols is Some,
            final(self).min_sol_cnt == (if old(self).min_sols is None {
                sols as int
            } else if sols < old(self).min_sol_cnt {
                sols as int
            } else {
                old(self).min_sol_cnt as int
            }),
            final(self).max_sol_cnt == (if old(self).max_sols is None {
                sols as int
            } else if sols > old(self).max_sol_cnt {
                sols as int
            } else {
                old(self).max_sol_cnt as int
            }),
            sel_views(final(self).min_sols) == (if old(self).min_sols is None || sols < old(
                self,
            ).min_sol_cnt {
                seq![cards@]
            } else if sols == old(self).min_sol_cnt {
                sel_views(old(self).min_sols).push(cards@)
            } else {
                sel_views(old(self).min_sols)
            }),
            sel_views(final(self).max_sols) == (if old(self).max_sols is None || sols > old(
                self,
            ).max_sol_cnt {
                seq![cards@]
            } else if sols == old(self).max_sol_cnt {
                sel_views(old(self).max_sols).push(cards@)
            } else {
                sel_views(old(self).max_sols)
            }),
    {
        let mut i: usize = 0;
        while i < 900
            invariant
                0 <= i <= 900,
                self.wf(),
                forall|j: int|
                    0 <= j < i ==> self.sol_count@[j] == old(self).sol_count@[j] + (
                    if sol_reached@[j] {
                        1int
                    } else {
                        0int
                    }),
                forall|j: int| i <= j < 900 ==> self.sol_count@[j] == old(self).sol_count@[j],
                self.files == old(self).files,
                self.tot_sols == old(self).tot_sols,
                self.tot_combs == old(self).tot_combs,
                self.tot_combs_reached == old(self).tot_combs_reached,
                self.min_sols == old(self).min_sols,
                self.max_sols == old(self).max_sols,
                self.min_sol_cnt == old(self).min_sol_cnt,
                self.max_sol_cnt == old(self).max_sol_cnt,
                self.sol_25_bucket@ == old(self).sol_25_bucket@,
                self.sol_50_bucket@ == old(self).sol_50_bucket@,
                self.sol_100_bucket@ == old(self).sol_100_bucket@,
            decreases 900 - i,
        {
            if sol_reached[i] {
                let c = self.sol_count[i];
                self.sol_count.set(i, c + 1);
            }
            i = i + 1;
        }
        self.files = self.files + 1;
        self.tot_sols = self.tot_sols + sols;
        if sols > 0 {
            let b25 = (sols - 1) / 25;
            let c25 = self.sol_25_bucket[b25];
            self.sol_25_bucket.set(b25, c25 + 1);
            let b50 = (sols - 1) / 50;
            let c50 = self.sol_50_bucket[b50];
            self.sol_50_bucket.set(b50, c50 + 1);
            let b100 = (sols - 1) / 100;
            let c100 = self.sol_100_bucket[b100];
            self.sol_100_bucket.set(b100, c100 + 1);
        }
        if self.min_sols.is_none() {
            self.min_sols = Some(Vec::new());
            self.min_sol_cnt = sols;
        }
        if sols < self.min_sol_cnt {
            match &mut self.min_sols {
                Some(v) => v.clear(),
                None => {},
            }
            self.min_sol_cnt = sols;
        }
        if sols == self.min_sol_cnt {
            match &mut self.min_sols {
                Some(v) => {
                    let copy = copy_cards(cards);
                    v.push(copy);
                },
                None => {},
            }
        }
        proof {
            let target = if old(self).min_sols is None || sols < old(self).min_sol_cnt {
                seq![cards@]
            } else if sols == old(self).min_sol_cnt {
                sel_views(old(self).min_sols).push(cards@)
            } else {
                sel_views(old(self).min_sols)
            };
            assert(sel_views(self.min_sols) =~= target);
        }
        if self.max_sols.is_none() {
            self.max_sols = Some(Vec::new());
            self.max_sol_cnt = sols;
        }
        if sols > self.max_sol_cnt {
            match &mut self.max_sols {
                Some(v) => v.clear(),
                None => {},
            }
            self.max_sol_cnt = sols;
        }
        if sols == self.max_sol_cnt {
            match &mut self.max_sols {
                Some(v) => {
                    let copy = copy_cards(cards);
                    v.push(copy);
                },
                None => {},
            }
        }
        proof {
            let target = if old(self).max_sols is None || sols > old(self).max_sol_cnt {
                seq![cards@]
            } else if sols == old(self).max_sol_cnt {
                sel_views(old(self).max_sols).push(cards@)
            } else {
                sel_views(old(self).max_sols)
            };
            assert(sel_views(self.max_sols) =~= target);
        }
        self.tot_combs = self.tot_combs + 900;
        self.tot_combs_reached = self.tot_combs_reached + sols;
    }
}

/// A vector of the given length holding zeroes.
fn vec_zeroes(n: usize) -> (r: Vec<usize>)
    ensures
        r@.len() == n,
        forall|i: int| 0 <= i < n ==> r@[i] == 0,
{
    let mut r: Vec<usize> = Vec::new();
    let mut i: usize = 0;
    while i < n
        invariant
            0 <= i <= n,
            r@.len() == i,
            forall|j: int| 0 <= j < i ==> r@[j] == 0,
        decreases n - i,
    {
        r.push(0);
        i = i + 1;
    }
    r
}

/// A copy of a card selection.
fn copy_cards(cards: &[u8]) -> (r: Vec<u8>)
    ensures
        r@ == cards@,
{
    let mut r: Vec<u8> = Vec::new();
    let mut i: usize = 0;
    while i < cards.len()
        invariant
            0 <= i <= cards@.len(),
            r@ == cards@.take(i as int),
        decreases cards@.len() - i,
    {
        r.push(cards[i]);
        proof {
            assert(cards@.take(i + 1) =~= cards@.take(i as int).push(cards@[i as int]));
        }
        i = i + 1;
    }
    proof {
        assert(cards@.take(cards@.len() as int) =~= cards@);
    }
    r
}

} // verus!
