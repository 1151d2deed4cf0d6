//! What is known so far: a solution for each length, and the totals over all of them.
use std::collections::HashMap;

use vstd::prelude::*;

use crate::clock::ClockTime;
use crate::combinatorics;
use crate::lower_bound;
use crate::lower_bound::get_num_segments_lower_bound;
use crate::range_search;
use crate::ranking;
use crate::ranking::{calculate_rank, can_rank, unrank};

verus! {

broadcast use vstd::std_specs::hash::group_hash_axioms;

/// What is known about one length.
pub struct Solution {
    pub completed: bool,
    pub lower_bound_num_segments: u8,
    pub num_segments: u8,
    pub rulers: Vec<Vec<u8>>,
    pub checkpoint_ruler: Option<Vec<u8>>,
    pub rulers_found: u64,
    pub total_rulers_evaluated: u64,
    pub total_clock_time: ClockTime,
    pub total_cpu_time: ClockTime,
}

/// The solutions by length, with totals over all of them.
pub struct State {
    pub version: String,
    pub lengths_solved: u8,
    pub total_rulers_found: u64,
    pub total_rulers_evaluated: u64,
    pub total_clock_time: ClockTime,
    pub total_cpu_time: ClockTime,
    pub solutions: HashMap<u8, Solution>,
}

/// Whether a search ran to its end.
#[derive(Clone, Copy, Debug, PartialEq, Eq, Structural)]
pub enum SearchStatus {
    Finished,
    Interrupted,
}

/// When a search began, as times already spent on it, and what it has taken since.
#[derive(Clone, Copy)]
pub struct SearchTiming {
    pub base_clock_time: ClockTime,
    pub base_cpu_time: ClockTime,
    pub clock_elapsed: ClockTime,
    pub cpu_elapsed: ClockTime,
}

impl SearchTiming {
    pub open spec fn clock_nanos(&self) -> nat {
        self.base_clock_time.total_nanos() + self.clock_elapsed.total_nanos()
    }

    pub open spec fn cpu_nanos(&self) -> nat {
        self.base_cpu_time.total_nanos() + self.cpu_elapsed.total_nanos()
    }

    /// Whether both sums can be held.
    pub open spec fn fits(&self) -> bool {
        ClockTime::fits(self.clock_nanos()) && ClockTime::fits(self.cpu_nanos())
    }
}

/// The figures that are added up over all solutions.
#[verifier::ext_equal]
pub struct Figures {
    pub evaluated: nat,
    pub found: nat,
    pub clock_nanos: nat,
    pub cpu_nanos: nat,
    pub solved: nat,
}

impl Figures {
    pub open spec fn none() -> Self {
        Figures { evaluated: 0, found: 0, clock_nanos: 0, cpu_nanos: 0, solved: 0 }
    }

    pub open spec fn plus(self, other: Self) -> Self {
        Figures {
            evaluated: self.evaluated + other.evaluated,
            found: self.found + other.found,
            clock_nanos: self.clock_nanos + other.clock_nanos,
            cpu_nanos: self.cpu_nanos + other.cpu_nanos,
            solved: self.solved + other.solved,
        }
    }

    /// Whether the figures can be held as totals.
    pub open spec fn fit(self) -> bool {
        &&& self.evaluated <= u64::MAX
        &&& self.found <= u64::MAX
        &&& ClockTime::fits(self.clock_nanos)
        &&& ClockTime::fits(self.cpu_nanos)
        &&& self.solved <= u8::MAX
    }

    /// No figure is larger than its counterpart.
    pub open spec fn at_most(self, other: Self) -> bool {
        &&& self.evaluated <= other.evaluated
        &&& self.found <= other.found
        &&& self.clock_nanos <= other.clock_nanos
        &&& self.cpu_nanos <= other.cpu_nanos
        &&& self.solved <= other.solved
    }

    /// The sum over the lengths below `upto`.
    pub open spec fn sum_below(figures: Map<u8, Figures>, upto: int) -> Self
        decreases upto,
    {
        if upto <= 0 {
            Self::none()
        } else {
            let before = Self::sum_below(figures, upto - 1);
            if figures.contains_key((upto - 1) as u8) {
                before.plus(figures[(upto - 1) as u8])
            } else {
                before
            }
        }
    }

    /// The sum over all lengths.
    pub open spec fn sum(figures: Map<u8, Figures>) -> Self {
        Self::sum_below(figures, 256)
    }
}

impl Solution {
    /// The figures of one solution.
    pub open spec fn figures(&self) -> Figures {
        Figures {
            evaluated: self.total_rulers_evaluated as nat,
            found: self.rulers_found as nat,
            clock_nanos: self.total_clock_time.total_nanos(),
            cpu_nanos: self.total_cpu_time.total_nanos(),
            solved: if self.completed { 1 } else { 0 },
        }
    }
}

/// The figures of all solutions.
pub open spec fn figures_of(solutions: Map<u8, Solution>) -> Map<u8, Figures> {
    solutions.map_values(|s: Solution| s.figures())
}

/// Sums grow with the number of terms.
proof fn lemma_sum_grows(figures: Map<u8, Figures>, i: int, j: int)
    requires
        i <= j,
    ensures
        Figures::sum_below(figures, i).at_most(Figures::sum_below(figures, j)),
    decreases j,
{
    if i < j && j > 0 {
        lemma_sum_grows(figures, i, j - 1);
    }
}

impl State {
    /// The totals that the state holds.
    pub open spec fn totals(&self) -> Figures {
        Figures {
            evaluated: self.total_rulers_evaluated as nat,
            found: self.total_rulers_found as nat,
            clock_nanos: self.total_clock_time.total_nanos(),
            cpu_nanos: self.total_cpu_time.total_nanos(),
            solved: self.lengths_solved as nat,
        }
    }

    /// The sum of the figures of all solutions.
    pub open spec fn sum_of_solutions(&self) -> Figures {
        Figures::sum(figures_of(self.solutions@))
    }

    /// A state that knows nothing yet.
    pub fn new(version: String) -> (res: Self)
        ensures
            res.version == version,
            res.solutions@ == Map::<u8, Solution>::empty(),
            res.lengths_solved == 0,
            res.total_rulers_found == 0,
            res.total_rulers_evaluated == 0,
            res.total_clock_time.total_nanos() == 0,
            res.total_cpu_time.total_nanos() == 0,
    {
        State {
            version,
            lengths_solved: 0,
            total_rulers_found: 0,
            total_rulers_evaluated: 0,
            total_clock_time: ClockTime::zero(),
            total_cpu_time: ClockTime::zero(),
            solutions: HashMap::new(),
        }
    }

    /// Computes the totals over all solutions afresh.
    pub fn recalculate_global_metrics(&mut self)
        requires
            old(self).sum_of_solutions().fit(),
        ensures
            final(self).totals() == old(self).sum_of_solutions(),
            final(self).solutions@ == old(self).solutions@,
            final(self).version == old(self).version,
    {
        self.total_rulers_evaluated = 0;
        self.total_rulers_found = 0;
        self.total_clock_time = ClockTime::zero();
        self.total_cpu_time = ClockTime::zero();
        self.lengths_solved = 0;

        let ghost figures = figures_of(self.solutions@);
        let mut length: u16 = 0;
        while length < 256
            invariant
                length <= 256,
                figures == figures_of(self.solutions@),
                Figures::sum(figures).fit(),
                self.solutions@ == old(self).solutions@,
                self.version == old(self).version,
                self.totals() == Figures::sum_below(figures, length as int),
            decreases 256 - length,
        {
            let key: u8 = length as u8;
            proof {
                lemma_sum_grows(figures, length + 1, 256);
            }
            match self.solutions.get(&key) {
                Some(solution) => {
                    assert(figures[key] == solution.figures());
                    self.total_rulers_evaluated = self.total_rulers_evaluated
                        + solution.total_rulers_evaluated;
                    self.total_rulers_found = self.total_rulers_found + solution.rulers_found;
                    self.total_clock_time = self.total_clock_time.plus(solution.total_clock_time);
                    self.total_cpu_time = self.total_cpu_time.plus(solution.total_cpu_time);
                    if solution.completed {
                        self.lengths_solved = self.lengths_solved + 1;
                    }
                },
                None => {},
            }
            length = length + 1;
        }
    }

    /// Whether nothing has changed but the solution for `length`, which is there, and the totals.
    pub open spec fn same_but_for(&self, before: &State, length: u8) -> bool {
        &&& self.version == before.version
        &&& self.solutions@.remove(length) == before.solutions@.remove(length)
        &&& self.solutions@.contains_key(length)
    }

    /// Whether a search with `num_segments` for `length` has been prepared: the solution is there,
    /// without rulers and checkpoint, which the search has taken over. A new one knows the lower
    /// bound, and one that is dropped starts over.
    pub open spec fn has_prepared(&self, before: &State, length: u8, num_segments: u8) -> bool {
        let now = self.solutions@[length];
        &&& self.same_but_for(before, length)
        &&& self.totals() == before.totals()
        &&& now.rulers@.len() == 0
        &&& now.checkpoint_ruler is None
        &&& if before.solutions@.contains_key(length) {
            let then = before.solutions@[length];
            let dropped = abandons(then, num_segments);
            &&& now.completed == then.completed
            &&& now.lower_bound_num_segments == then.lower_bound_num_segments
            &&& now.num_segments == if dropped { num_segments } else { then.num_segments }
            &&& now.rulers_found == then.rulers_found
            &&& now.total_rulers_evaluated == if dropped { 0 } else { then.total_rulers_evaluated }
            &&& now.total_clock_time == then.total_clock_time
            &&& now.total_cpu_time == then.total_cpu_time
        } else {
            &&& !now.completed
            &&& length == 0 ==> now.lower_bound_num_segments == 0
            &&& length >= 1 ==> lower_bound::least_with_enough_arcs(
                now.lower_bound_num_segments as int,
                length as int,
            )
            &&& now.num_segments == num_segments
            &&& now.rulers_found == 0
            &&& now.total_rulers_evaluated == 0
            &&& now.total_clock_time.total_nanos() == 0
            &&& now.total_cpu_time.total_nanos() == 0
        }
    }

    /// Prepares a search: makes sure that there is a solution for `length`, and takes from it
    /// what is known. A search with another number of segments than before starts from scratch,
    /// unless the length is completed. Returns the rank from which to search, the rulers found
    /// so far, and the times spent so far.
    pub fn initialize_solution(&mut self, length: u8, num_segments: u8) -> (res: (
        u64,
        Vec<Vec<u8>>,
        ClockTime,
        ClockTime,
    ))
        requires
            old(self).solutions@.contains_key(length) ==> resumable(
                old(self).solutions@[length],
                length,
                num_segments,
            ),
        ensures
            final(self).has_prepared(old(self), length, num_segments),
            res.2 == final(self).solutions@[length].total_clock_time,
            res.3 == final(self).solutions@[length].total_cpu_time,
            old(self).solutions@.contains_key(length) ==> {
                &&& res.0 == resume_rank(old(self).solutions@[length], length, num_segments)
                &&& res.1@ == old(self).solutions@[length].rulers@
            },
            !old(self).solutions@.contains_key(length) ==> res.0 == 0 && res.1@.len() == 0,
    {
        let known: Option<Solution> = self.solutions.remove(&length);
        let solution = match known {
            Some(solution) => solution,
            None => Solution {
                completed: false,
                lower_bound_num_segments: get_num_segments_lower_bound(length),
                num_segments,
                rulers: Vec::new(),
                checkpoint_ruler: None,
                rulers_found: 0,
                total_rulers_evaluated: 0,
                total_clock_time: ClockTime::zero(),
                total_cpu_time: ClockTime::zero(),
            },
        };
        let abandoned: bool = !solution.completed && solution.num_segments != num_segments;
        let segments_now: u8 = if abandoned {
            num_segments
        } else {
            solution.num_segments
        };
        let evaluated_now: u64 = if abandoned {
            0
        } else {
            solution.total_rulers_evaluated
        };
        let rank: u64 = if abandoned {
            0
        } else {
            match &solution.checkpoint_ruler {
                Some(r) => calculate_rank(length, num_segments, r.as_slice()),
                None => solution.total_rulers_evaluated,
            }
        };
        let res = (rank, solution.rulers, solution.total_clock_time, solution.total_cpu_time);
        self.solutions.insert(
            length,
            Solution {
                completed: solution.completed,
                lower_bound_num_segments: solution.lower_bound_num_segments,
                num_segments: segments_now,
                rulers: Vec::new(),
                checkpoint_ruler: None,
                rulers_found: solution.rulers_found,
                total_rulers_evaluated: evaluated_now,
                total_clock_time: solution.total_clock_time,
                total_cpu_time: solution.total_cpu_time,
            },
        );
        assert(self.solutions@.remove(length) =~= old(self).solutions@.remove(length));
        res
    }

    /// The figures of all solutions, with new ones for `length`.
    pub open spec fn figures_with(&self, length: u8, figures: Figures) -> Map<u8, Figures> {
        figures_of(self.solutions@).insert(length, figures)
    }

    /// The figures that a search for `length` leads to.
    pub open spec fn figures_after(
        &self,
        length: u8,
        evaluated: u64,
        found: nat,
        timing: &SearchTiming,
    ) -> Map<u8, Figures> {
        self.figures_with(
            length,
            Figures {
                evaluated: evaluated as nat,
                found,
                clock_nanos: timing.clock_nanos(),
                cpu_nanos: timing.cpu_nanos(),
                solved: if self.solutions@[length].completed { 1 } else { 0 },
            },
        )
    }

    /// Whether a search for `length` is on record as given.
    pub open spec fn has_recorded(
        &self,
        before: &State,
        length: u8,
        evaluated: u64,
        rulers: Seq<Seq<u8>>,
        timing: &SearchTiming,
    ) -> bool {
        let then = before.solutions@[length];
        let now = self.solutions@[length];
        &&& self.same_but_for(before, length)
        &&& self.totals() == self.sum_of_solutions()
        &&& self.totals() == Figures::sum(
            before.figures_after(length, evaluated, rulers.len(), timing),
        )
        &&& range_search::contents(now.rulers@) == rulers
        &&& now.rulers_found == rulers.len()
        &&& now.total_rulers_evaluated == evaluated
        &&& now.total_clock_time.total_nanos() == timing.clock_nanos()
        &&& now.total_cpu_time.total_nanos() == timing.cpu_nanos()
        &&& now.completed == then.completed
        &&& now.lower_bound_num_segments == then.lower_bound_num_segments
        &&& now.num_segments == then.num_segments
    }

    /// Whether the outcome of a search is on record as given, with a checkpoint at `current_rank`
    /// where it was interrupted.
    pub open spec fn has_finalized(
        &self,
        before: &State,
        length: u8,
        num_segments: u8,
        current_rank: u64,
        evaluated: u64,
        rulers: Seq<Seq<u8>>,
        timing: &SearchTiming,
        status: SearchStatus,
    ) -> bool {
        &&& self.has_recorded(before, length, evaluated, rulers, timing)
        &&& match self.solutions@[length].checkpoint_ruler {
            Some(r) => status == SearchStatus::Interrupted && r@ == ranking::unranked(
                length as int,
                num_segments as int,
                current_rank as int,
            ),
            None => status == SearchStatus::Finished,
        }
    }

    /// Decides whether the totals can be held, where the solution for `length`, if one is given,
    /// has other figures: evaluations, rulers found, nanoseconds of clock and processor time,
    /// and whether it is completed.
    fn sum_fits(&self, replaced: Option<(u8, u64, u64, u128, u128, bool)>) -> (res: bool)
        requires
            replaced matches Some(r) ==> r.3 <= 2 * 0x1_0000_0000_0000_0000 * 1_000_000_000 && r.4
                <= 2 * 0x1_0000_0000_0000_0000 * 1_000_000_000,
        ensures
            res == Figures::sum(
                match replaced {
                    Some(r) => self.figures_with(
                        r.0,
                        Figures {
                            evaluated: r.1 as nat,
                            found: r.2 as nat,
                            clock_nanos: r.3 as nat,
                            cpu_nanos: r.4 as nat,
                            solved: if r.5 { 1 } else { 0 },
                        },
                    ),
                    None => figures_of(self.solutions@),
                },
            ).fit(),
    {
        let ghost figures = match replaced {
            Some(r) => self.figures_with(
                r.0,
                Figures {
                    evaluated: r.1 as nat,
                    found: r.2 as nat,
                    clock_nanos: r.3 as nat,
                    cpu_nanos: r.4 as nat,
                    solved: if r.5 { 1 } else { 0 },
                },
            ),
            None => figures_of(self.solutions@),
        };
        let mut evaluated: u128 = 0;
        let mut found: u128 = 0;
        let mut clock_nanos: u128 = 0;
        let mut cpu_nanos: u128 = 0;
        let mut solved: u128 = 0;
        let mut length: u16 = 0;
        while length < 256
            invariant
                length <= 256,
                replaced matches Some(r) ==> r.3 <= 2 * 0x1_0000_0000_0000_0000 * 1_000_000_000
                    && r.4 <= 2 * 0x1_0000_0000_0000_0000 * 1_000_000_000,
                figures == match replaced {
                    Some(r) => self.figures_with(
                        r.0,
                        Figures {
                            evaluated: r.1 as nat,
                            found: r.2 as nat,
                            clock_nanos: r.3 as nat,
                            cpu_nanos: r.4 as nat,
                            solved: if r.5 { 1 } else { 0 },
                        },
                    ),
                    None => figures_of(self.solutions@),
                },
                Figures::sum_below(figures, length as int) == (Figures {
                    evaluated: evaluated as nat,
                    found: found as nat,
                    clock_nanos: clock_nanos as nat,
                    cpu_nanos: cpu_nanos as nat,
                    solved: solved as nat,
                }),
                evaluated <= length * 0x1_0000_0000_0000_0000,
                found <= length * 0x1_0000_0000_0000_0000,
                clock_nanos <= length * 2 * 0x1_0000_0000_0000_0000 * 1_000_000_000,
                cpu_nanos <= length * 2 * 0x1_0000_0000_0000_0000 * 1_000_000_000,
                solved <= length,
            decreases 256 - length,
        {
            let key: u8 = length as u8;
            let replaces: bool = match replaced {
                Some(r) => r.0 == key,
                None => false,
            };
            if replaces {
                if let Some(r) = replaced {
                    evaluated = evaluated + r.1 as u128;
                    found = found + r.2 as u128;
                    clock_nanos = clock_nanos + r.3;
                    cpu_nanos = cpu_nanos + r.4;
                    if r.5 {
                        solved = solved + 1;
                    }
                }
            } else {
                match self.solutions.get(&key) {
                    Some(solution) => {
                        assert(figures[key] == solution.figures());
                        evaluated = evaluated + solution.total_rulers_evaluated as u128;
                        found = found + solution.rulers_found as u128;
                        clock_nanos = clock_nanos + solution.total_clock_time.as_nanos();
                        cpu_nanos = cpu_nanos + solution.total_cpu_time.as_nanos();
                        if solution.completed {
                            solved = solved + 1;
                        }
                    },
                    None => {},
                }
            }
            length = length + 1;
        }
        let limit: u128 = 0x1_0000_0000_0000_0000 * 1_000_000_000;
        evaluated <= u64::MAX as u128 && found <= u64::MAX as u128 && clock_nanos < limit
            && cpu_nanos < limit && solved <= u8::MAX as u128
    }

    /// Decides whether the totals over all solutions can be held.
    pub fn can_recalculate(&self) -> (res: bool)
        ensures
            res == self.sum_of_solutions().fit(),
    {
        self.sum_fits(None)
    }

    /// Decides whether a search for `length` can be put on record with these figures.
    pub fn can_record(
        &self,
        length: u8,
        total_evaluated: u64,
        found: u64,
        timing: &SearchTiming,
    ) -> (res: bool)
        ensures
            res == (self.solutions@.contains_key(length) && timing.fits() && Figures::sum(
                self.figures_after(length, total_evaluated, found as nat, timing),
            ).fit()),
    {
        let clock_nanos: u128 = timing.base_clock_time.as_nanos()
            + timing.clock_elapsed.as_nanos();
        let cpu_nanos: u128 = timing.base_cpu_time.as_nanos() + timing.cpu_elapsed.as_nanos();
        let limit: u128 = 0x1_0000_0000_0000_0000 * 1_000_000_000;
        if clock_nanos >= limit || cpu_nanos >= limit {
            return false;
        }
        match self.solutions.get(&length) {
            Some(solution) => self.sum_fits(
                Some(
                    (length, total_evaluated, found, clock_nanos, cpu_nanos, solution.completed),
                ),
            ),
            None => false,
        }
    }

    /// Decides whether the totals can be held once the solution for `length` is completed.
    pub fn can_complete(&self, length: u8) -> (res: bool)
        ensures
            res == (self.solutions@.contains_key(length) && Figures::sum(
                self.completed_figures(length),
            ).fit()),
    {
        match self.solutions.get(&length) {
            Some(solution) => self.sum_fits(
                Some(
                    (
                        length,
                        solution.total_rulers_evaluated,
                        solution.rulers_found,
                        solution.total_clock_time.as_nanos(),
                        solution.total_cpu_time.as_nanos(),
                        true,
                    ),
                ),
            ),
            None => false,
        }
    }

    /// The figures once the solution for `length` is completed.
    pub open spec fn completed_figures(&self, length: u8) -> Map<u8, Figures> {
        let then = self.solutions@[length].figures();
        self.figures_with(length, Figures { solved: 1, ..then })
    }

    /// The figures once the one ruler of length 1 is known.
    pub open spec fn unit_figures(&self) -> Map<u8, Figures> {
        let then = if self.solutions@.contains_key(1) {
            self.solutions@[1].figures()
        } else {
            Figures::none()
        };
        self.figures_with(1, Figures { evaluated: 1, found: 1, solved: 1, ..then })
    }

    /// Whether a search can begin: its checkpoint, if it has one, can be ranked, and for the ruler
    /// of length 1, which is known at once, the totals can be held.
    pub open spec fn can_begin(&self, length: u8, num_segments: u8) -> bool {
        if length == 1 && num_segments == 1 {
            Figures::sum(self.unit_figures()).fit()
        } else {
            self.solutions@.contains_key(length) ==> resumable(
                self.solutions@[length],
                length,
                num_segments,
            )
        }
    }

    /// Decides whether a search can begin.
    pub fn can_begin_search(&self, length: u8, num_segments: u8) -> (res: bool)
        ensures
            res == self.can_begin(length, num_segments),
    {
        let known: Option<&Solution> = self.solutions.get(&length);
        if length == 1 && num_segments == 1 {
            let clock_nanos: u128 = match known {
                Some(solution) => solution.total_clock_time.as_nanos(),
                None => 0,
            };
            let cpu_nanos: u128 = match known {
                Some(solution) => solution.total_cpu_time.as_nanos(),
                None => 0,
            };
            return self.sum_fits(Some((1, 1, 1, clock_nanos, cpu_nanos, true)));
        }
        match known {
            Some(solution) => {
                if !solution.completed && solution.num_segments != num_segments {
                    return true;
                }
                match &solution.checkpoint_ruler {
                    Some(r) => can_rank(length, num_segments, r.as_slice()),
                    None => true,
                }
            },
            None => true,
        }
    }

    /// Puts the figures of a search for `length` on record and computes the totals afresh.
    fn record_search(
        &mut self,
        length: u8,
        checkpoint_ruler: Option<Vec<u8>>,
        total_evaluated: u64,
        rulers: Vec<Vec<u8>>,
        timing: &SearchTiming,
    )
        requires
            old(self).solutions@.contains_key(length),
            timing.fits(),
            Figures::sum(
                old(self).figures_after(length, total_evaluated, rulers@.len(), timing),
            ).fit(),
        ensures
            final(self).has_recorded(
                old(self),
                length,
                total_evaluated,
                range_search::contents(rulers@),
                timing,
            ),
            final(self).solutions@[length].checkpoint_ruler == checkpoint_ruler,
    {
        let known: Option<Solution> = self.solutions.remove(&length);
        if let Some(solution) = known {
            let found: u64 = rulers.len() as u64;
            self.solutions.insert(
                length,
                Solution {
                    completed: solution.completed,
                    lower_bound_num_segments: solution.lower_bound_num_segments,
                    num_segments: solution.num_segments,
                    rulers,
                    checkpoint_ruler,
                    rulers_found: found,
                    total_rulers_evaluated: total_evaluated,
                    total_clock_time: timing.base_clock_time.plus(timing.clock_elapsed),
                    total_cpu_time: timing.base_cpu_time.plus(timing.cpu_elapsed),
                },
            );
            assert(self.solutions@.remove(length) =~= old(self).solutions@.remove(length));
            assert(figures_of(self.solutions@) =~= old(self).figures_after(
                length,
                total_evaluated,
                rulers@.len(),
                timing,
            )) by {
                lemma_figures_insert(
                    old(self).solutions@.remove(length),
                    length,
                    self.solutions@[length],
                );
            }
        }
        self.recalculate_global_metrics();
    }

    /// Records how far a search has come, so that it can be resumed at `current_rank`. Returns
    /// the number of rulers found and the time spent so far.
    pub fn save_checkpoint(
        &mut self,
        length: u8,
        num_segments: u8,
        current_rank: u64,
        total_evaluated: u64,
        found_rulers: &Vec<Vec<u8>>,
        timing: &SearchTiming,
    ) -> (res: (u64, ClockTime))
        requires
            old(self).solutions@.contains_key(length),
            ranking::unrankable(length as int, num_segments as int, current_rank as int),
            timing.fits(),
            Figures::sum(
                old(self).figures_after(length, total_evaluated, found_rulers@.len(), timing),
            ).fit(),
        ensures
            final(self).has_recorded(
                old(self),
                length,
                total_evaluated,
                range_search::contents(found_rulers@),
                timing,
            ),
            final(self).solutions@[length].checkpoint_ruler matches Some(r) && r@
                == ranking::unranked(length as int, num_segments as int, current_rank as int),
            res.0 == found_rulers@.len(),
            res.1.total_nanos() == timing.clock_nanos(),
    {
        let checkpoint: Vec<u8> = unrank(length, num_segments, current_rank);
        let rulers: Vec<Vec<u8>> = copy_rulers(found_rulers);
        let found: u64 = rulers.len() as u64;
        self.record_search(length, Some(checkpoint), total_evaluated, rulers, timing);
        (found, timing.base_clock_time.plus(timing.clock_elapsed))
    }

    /// Records the outcome of a search. One that was interrupted can be resumed at `current_rank`.
    pub fn finalize_solution(
        &mut self,
        length: u8,
        num_segments: u8,
        current_rank: u64,
        total_evaluated: u64,
        found_rulers: Vec<Vec<u8>>,
        timing: &SearchTiming,
        status: SearchStatus,
    )
        requires
            old(self).solutions@.contains_key(length),
            status == SearchStatus::Interrupted ==> ranking::unrankable(
                length as int,
                num_segments as int,
                current_rank as int,
            ),
            timing.fits(),
            Figures::sum(
                old(self).figures_after(length, total_evaluated, found_rulers@.len(), timing),
            ).fit(),
        ensures
            final(self).has_finalized(
                old(self),
                length,
                num_segments,
                current_rank,
                total_evaluated,
                range_search::contents(found_rulers@),
                timing,
                status,
            ),
    {
        let checkpoint: Option<Vec<u8>> = if status == SearchStatus::Interrupted {
            Some(unrank(length, num_segments, current_rank))
        } else {
            None
        };
        self.record_search(length, checkpoint, total_evaluated, found_rulers, timing);
    }
}

/// Whether a search with `num_segments` drops what an unfinished one with another number of
/// segments has reached.
pub open spec fn abandons(solution: Solution, num_segments: u8) -> bool {
    !solution.completed && solution.num_segments != num_segments
}

/// Whether the checkpoint, where a search starts from one, can be ranked.
pub open spec fn resumable(solution: Solution, length: u8, num_segments: u8) -> bool {
    !abandons(solution, num_segments) ==> (solution.checkpoint_ruler matches Some(r)
        ==> ranking::rankable(r@, length as int, num_segments as int))
}

/// The rank from which a search goes on: that of the checkpoint, or else as many as have
/// been evaluated.
pub open spec fn resume_rank(solution: Solution, length: u8, num_segments: u8) -> int {
    if abandons(solution, num_segments) {
        0
    } else {
        match solution.checkpoint_ruler {
            Some(r) => combinatorics::capped(
                ranking::rank_of(r@, length as int, num_segments as int),
                u64::MAX as nat,
            ) as int,
            None => solution.total_rulers_evaluated as int,
        }
    }
}

/// A search that is recorded as interrupted at some rank of the search space goes on from that
/// rank.
pub proof fn law_interrupted_search_resumes(
    solution: Solution,
    length: u8,
    num_segments: u8,
    rank: u64,
)
    requires
        rank < ranking::space_size(length as int, num_segments as int),
        !abandons(solution, num_segments),
        solution.checkpoint_ruler matches Some(r) && r@ == ranking::unranked(
            length as int,
            num_segments as int,
            rank as int,
        ),
    ensures
        resumable(solution, length, num_segments),
        resume_rank(solution, length, num_segments) == rank,
{
    ranking::law_unranked_ranks_back(length as int, num_segments as int, rank as int);
}

/// A new solution brings its figures.
pub proof fn lemma_figures_insert(solutions: Map<u8, Solution>, length: u8, solution: Solution)
    ensures
        figures_of(solutions.insert(length, solution)) == figures_of(solutions).insert(
            length,
            solution.figures(),
        ),
{
    assert(figures_of(solutions.insert(length, solution)) =~= figures_of(solutions).insert(
        length,
        solution.figures(),
    ));
}

/// A copy of a list of rulers.
fn copy_rulers(rulers: &Vec<Vec<u8>>) -> (res: Vec<Vec<u8>>)
    ensures
        range_search::contents(res@) == range_search::contents(rulers@),
        res@.len() == rulers@.len(),
{
    let mut res: Vec<Vec<u8>> = Vec::new();
    let mut i: usize = 0;
    while i < rulers.len()
        invariant
            i <= rulers@.len(),
            res@.len() == i,
            forall|j: int| 0 <= j < i ==> #[trigger] res@[j]@ == rulers@[j]@,
        decreases rulers@.len() - i,
    {
        let copy: Vec<u8> = rulers[i].clone();
        assert(copy@ =~= rulers@[i as int]@);
        res.push(copy);
        i = i + 1;
    }
    assert(range_search::contents(res@) =~= range_search::contents(rulers@));
    res
}

/// The sum with a new solution is the sum of the others and its figures.
proof fn lemma_sum_insert(figures: Map<u8, Figures>, length: u8, added: Figures, upto: int)
    requires
        0 <= upto <= 256,
        !figures.contains_key(length),
    ensures
        Figures::sum_below(figures.insert(length, added), upto) == if length < upto {
            Figures::sum_below(figures, upto).plus(added)
        } else {
            Figures::sum_below(figures, upto)
        },
    decreases upto,
{
    if upto > 0 {
        lemma_sum_insert(figures, length, added, upto - 1);
        let key = (upto - 1) as u8;
        assert(figures.insert(length, added).contains_key(key) <==> figures.contains_key(key)
            || key == length);
    }
}

/// The totals count every solution, of whatever length, in full: where a solution is added to a
/// state whose totals are those of its solutions, each total grows by the figure of that solution.
pub proof fn law_totals_count_every_solution(
    before: &State,
    after: &State,
    length: u8,
    solution: Solution,
)
    requires
        !before.solutions@.contains_key(length),
        after.solutions@ == before.solutions@.insert(length, solution),
        before.totals() == before.sum_of_solutions(),
        after.totals() == after.sum_of_solutions(),
    ensures
        after.total_rulers_evaluated == before.total_rulers_evaluated
            + solution.total_rulers_evaluated,
        after.total_rulers_found == before.total_rulers_found + solution.rulers_found,
        after.total_clock_time.total_nanos() == before.total_clock_time.total_nanos()
            + solution.total_clock_time.total_nanos(),
        after.total_cpu_time.total_nanos() == before.total_cpu_time.total_nanos()
            + solution.total_cpu_time.total_nanos(),
        after.lengths_solved == before.lengths_solved + if solution.completed {
            1int
        } else {
            0
        },
{
    lemma_figures_insert(before.solutions@, length, solution);
    lemma_sum_insert(figures_of(before.solutions@), length, solution.figures(), 256);
}

/// Without solutions all totals are 0.
pub proof fn law_totals_of_nothing(state: &State)
    requires
        state.solutions@ == Map::<u8, Solution>::empty(),
        state.totals() == state.sum_of_solutions(),
    ensures
        state.total_rulers_evaluated == 0,
        state.total_rulers_found == 0,
        state.total_clock_time.total_nanos() == 0,
        state.total_cpu_time.total_nanos() == 0,
        state.lengths_solved == 0,
{
    lemma_sum_of_nothing(figures_of(state.solutions@), 256);
}

/// The sum over no solutions.
proof fn lemma_sum_of_nothing(figures: Map<u8, Figures>, upto: int)
    requires
        forall|i: u8| !figures.contains_key(i),
    ensures
        Figures::sum_below(figures, upto) == Figures::none(),
    decreases upto,
{
    if upto > 0 {
        lemma_sum_of_nothing(figures, upto - 1);
    }
}

/// Totals are refused only where one of them cannot be held: counts above 64 bits, times of more
/// seconds than 64 bits hold, or more than 255 completed lengths.
pub proof fn law_totals_are_refused_for_cause(figures: Figures)
    ensures
        figures.fit() <==> {
            &&& figures.evaluated <= u64::MAX
            &&& figures.found <= u64::MAX
            &&& figures.clock_nanos / 1_000_000_000 <= u64::MAX
            &&& figures.cpu_nanos / 1_000_000_000 <= u64::MAX
            &&& figures.solved <= 255
        },
{
}

/// What is on record after a search: its rulers, all of them, and how many they are, the
/// evaluations that were handed over, and what was known of the length beside them.
pub proof fn law_record_holds_the_search(
    before: &State,
    after: &State,
    length: u8,
    evaluated: u64,
    rulers: Seq<Seq<u8>>,
    timing: &SearchTiming,
    other: u8,
)
    requires
        after.has_recorded(before, length, evaluated, rulers, timing),
        other != length,
    ensures
        after.solutions@.contains_key(length),
        range_search::contents(after.solutions@[length].rulers@) == rulers,
        after.solutions@[length].rulers_found == after.solutions@[length].rulers@.len(),
        after.solutions@[length].total_rulers_evaluated == evaluated,
        after.solutions@[length].num_segments == before.solutions@[length].num_segments,
        after.solutions@[length].completed == before.solutions@[length].completed,
        after.solutions@.contains_key(other) == before.solutions@.contains_key(other),
        before.solutions@.contains_key(other) ==> after.solutions@[other]
            == before.solutions@[other],
        after.version == before.version,
{
    let rest = before.solutions@.remove(length);
    assert(after.solutions@.remove(length).contains_key(other) == rest.contains_key(other));
    if before.solutions@.contains_key(other) {
        assert(after.solutions@.remove(length)[other] == rest[other]);
    }
}

} // verus!
