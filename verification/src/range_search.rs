//! The search of a range of ranks for complete rulers.
use std::sync::atomic::{AtomicBool, AtomicU64, Ordering};
use std::sync::Mutex;

use vstd::prelude::*;

use crate::bitset;
use crate::completeness;
use crate::completeness::is_complete;
use crate::ranking;
use crate::ranking::unrank;
use crate::ruler;
use crate::successor;
use crate::successor::next_ruler;
use crate::symmetry;
use crate::symmetry::is_canonical;

verus! {

/// How many evaluations pass between two looks at the interrupt flag.
pub const INTERRUPT_CHECK_INTERVAL: u64 = 1_024;

/// How many evaluations pass, at least, between two updates of the shared counter.
pub const COUNTER_UPDATE_INTERVAL: u64 = 10_000;

/// The rulers that a search reports: complete ones, one for each circular ruler.
pub open spec fn is_solution(s: Seq<u8>) -> bool {
    symmetry::canonical(s) && ruler::complete(s)
}

/// The solutions with ranks from `from` up to, not including, `to`, in the order of their ranks.
pub open spec fn solutions_between(
    length: int,
    num_segments: int,
    from: int,
    to: int,
) -> Seq<Seq<u8>>
    decreases to - from,
{
    if to <= from {
        Seq::empty()
    } else {
        let before = solutions_between(length, num_segments, from, to - 1);
        let last = ranking::ruler_at(length, num_segments, to - 1);
        if is_solution(last) {
            before.push(last)
        } else {
            before
        }
    }
}

/// A list of rulers as mathematical sequences.
pub open spec fn contents(rulers: Seq<Vec<u8>>) -> Seq<Seq<u8>> {
    Seq::new(rulers.len(), |i: int| rulers[i]@)
}

/// Whether a ruler and all that follow it in its run are skipped.
pub open spec fn skips(s: Seq<u8>) -> bool {
    s.len() >= 3 && s[1] > s[s.len() - 1] && s[s.len() - 1] > 1
}

/// The number of evaluations that a full search of a range reports: one for each of its ranks,
/// those of skipped rulers included.
pub open spec fn evaluations_between(start_rank: int, end_rank: int) -> int {
    if start_rank >= end_rank {
        0
    } else {
        end_rank - start_rank
    }
}

/// What a search of a range may report: the rulers found, the number of evaluations, and
/// whether the range was searched to its end.
pub open spec fn range_outcome(
    length: int,
    num_segments: int,
    start_rank: int,
    end_rank: int,
    found: Seq<Seq<u8>>,
    evaluations: int,
    completed: bool,
) -> bool {
    if completed {
        &&& start_rank < end_rank ==> end_rank <= ranking::space_size(length, num_segments)
        &&& found == solutions_between(length, num_segments, start_rank, end_rank)
        &&& evaluations == evaluations_between(start_rank, end_rank)
    } else {
        &&& 0 <= evaluations
        &&& start_rank + evaluations < end_rank
        &&& found == solutions_between(
            length,
            num_segments,
            start_rank,
            start_rank + evaluations,
        )
        &&& evaluations % (INTERRUPT_CHECK_INTERVAL as int) == 0 || start_rank + evaluations
            == ranking::space_size(length, num_segments)
    }
}

/// Ranks whose rulers are no solutions add none.
proof fn lemma_no_solutions(length: int, num_segments: int, from: int, middle: int, to: int)
    requires
        from <= middle <= to,
        forall|r: int|
            middle <= r < to ==> !is_solution(#[trigger] ranking::ruler_at(length, num_segments, r)),
    ensures
        solutions_between(length, num_segments, from, to) == solutions_between(
            length,
            num_segments,
            from,
            middle,
        ),
    decreases to - middle,
{
    if middle < to {
        lemma_no_solutions(length, num_segments, from, middle, to - 1);
        assert(!is_solution(ranking::ruler_at(length, num_segments, to - 1)));
    }
}

/// A search in progress through a range of ranks.
pub struct RangeSearch {
    length: u8,
    num_segments: u8,
    start_rank: u64,
    end_rank: u64,
    u64_blocks: usize,
    bit_shift: usize,
    final_mask: u64,
    ruler: Vec<u8>,
    current_rank: u64,
    evaluations: u64,
    found: Vec<Vec<u8>>,
    outcome: Option<bool>,
}

impl RangeSearch {
    pub closed spec fn length(&self) -> int {
        self.length as int
    }

    pub closed spec fn num_segments(&self) -> int {
        self.num_segments as int
    }

    pub closed spec fn start_rank(&self) -> int {
        self.start_rank as int
    }

    pub closed spec fn end_rank(&self) -> int {
        self.end_rank as int
    }

    /// The rank from which the search goes on.
    pub closed spec fn current_rank(&self) -> int {
        self.current_rank as int
    }

    pub closed spec fn evaluations(&self) -> int {
        self.evaluations as int
    }

    /// The rulers found so far.
    pub closed spec fn found(&self) -> Seq<Seq<u8>> {
        contents(self.found@)
    }

    /// Whether the range was searched to its end, once the search is over.
    pub closed spec fn outcome(&self) -> Option<bool> {
        self.outcome
    }

    /// A search in progress stands at a ruler and has found all solutions before it. One that
    /// is over has an outcome that a search may report.
    pub closed spec fn wf(&self) -> bool {
        let length = self.length as int;
        let n = self.num_segments as int;
        &&& completeness::parameters_of(
            length,
            self.u64_blocks,
            self.bit_shift,
            self.final_mask,
        )
        &&& self.start_rank <= self.current_rank
        &&& match self.outcome {
            None => {
                &&& self.current_rank < self.end_rank
                &&& ranking::in_space(self.ruler@, length, n)
                &&& ranking::rank_of(self.ruler@, length, n) == self.current_rank
                &&& self.evaluations == self.current_rank - self.start_rank
                &&& contents(self.found@) == solutions_between(
                    length,
                    n,
                    self.start_rank as int,
                    self.current_rank as int,
                )
            },
            Some(completed) => range_outcome(
                length,
                n,
                self.start_rank as int,
                self.end_rank as int,
                contents(self.found@),
                self.evaluations as int,
                completed,
            ),
        }
    }

    /// Starts the search at the ruler with rank `start_rank`.
    pub fn new(length: u8, num_segments: u8, start_rank: u64, end_rank: u64) -> (res: Self)
        requires
            ranking::unrankable(length as int, num_segments as int, start_rank as int),
            start_rank < end_rank ==> start_rank < ranking::space_size(
                length as int,
                num_segments as int,
            ),
        ensures
            res.wf(),
            res.length() == length,
            res.num_segments() == num_segments,
            res.start_rank() == start_rank,
            res.end_rank() == end_rank,
            res.current_rank() == start_rank,
            res.evaluations() == 0,
            res.found() == Seq::<Seq<u8>>::empty(),
            res.outcome() == if start_rank < end_rank { None } else { Some(true) },
    {
        let u64_blocks: usize = length as usize / 64;
        let bit_shift: usize = length as usize % 64;
        let final_mask: u64 = partial_block_mask(bit_shift as u64);
        let ruler: Vec<u8> = unrank(length, num_segments, start_rank);
        let found: Vec<Vec<u8>> = Vec::new();
        let outcome: Option<bool> = if start_rank < end_rank {
            None
        } else {
            Some(true)
        };
        let res = RangeSearch {
            length,
            num_segments,
            start_rank,
            end_rank,
            u64_blocks,
            bit_shift,
            final_mask,
            ruler,
            current_rank: start_rank,
            evaluations: 0,
            found,
            outcome,
        };
        assert(contents(res.found@) =~= Seq::<Seq<u8>>::empty());
        res
    }

    /// Decides on the current ruler and moves on to the next one. Where the interrupt flag is due
    /// and `running` is not set, the search ends instead.
    pub fn advance(&mut self, running: bool)
        requires
            old(self).wf(),
            old(self).outcome() is None,
        ensures
            final(self).wf(),
            final(self).has_advanced(old(self), running),
    {
        let ghost length = self.length as int;
        let ghost n = self.num_segments as int;
        let ghost start = self.start_rank as int;
        let ghost end = self.end_rank as int;
        let ghost s = self.ruler@;
        let ghost rank = self.current_rank as int;
        proof {
            ranking::law_unrank_inverts_rank(s, length, n);
            ranking::lemma_rank_in_range(s, length, n);
            assert(self.current_ruler() == s);
        }
        if self.evaluations % INTERRUPT_CHECK_INTERVAL == 0 && !running {
            self.outcome = Some(false);
            return;
        }
        let count: usize = self.ruler.len();
        let canonical: bool = is_canonical(self.ruler.as_slice());
        if canonical {
            proof {
                completeness::law_parameters_demand_completeness(
                    s,
                    self.u64_blocks,
                    self.bit_shift,
                    self.final_mask,
                );
                if skips(s) {
                    successor::lemma_reflection_precedes(s, length, n);
                }
            }
            if is_complete(
                self.ruler.as_slice(),
                self.u64_blocks,
                self.bit_shift,
                self.final_mask,
            ) {
                let ghost before = self.found@;
                let copy: Vec<u8> = self.ruler.clone();
                assert(copy@ =~= s);
                self.found.push(copy);
                assert(contents(self.found@) =~= contents(before).push(s));
            }
        }
        self.current_rank = self.current_rank + 1;
        self.evaluations = self.evaluations + 1;
        if !canonical && count >= 3 && self.ruler[1] > self.ruler[count - 1] && self.ruler[count
            - 1] > 1 {
            let last: u8 = self.ruler[count - 1];
            let skip: u64 = (last - 1) as u64;
            proof {
                assert forall|r: int| rank <= r < rank + last implies !is_solution(
                    #[trigger] ranking::ruler_at(length, n, r),
                ) by {
                    law_skipped_rulers_are_no_solutions(s, length, n, r - rank);
                }
            }
            if skip <= self.end_rank - self.current_rank {
                let before: u8 = self.ruler[count - 2];
                proof {
                    successor::lemma_run(s, length, n, last - 1);
                    lemma_no_solutions(length, n, start, rank, rank + last);
                    ranking::lemma_rank_in_range(
                        successor::run_member(s, last - 1),
                        length,
                        n,
                    );
                }
                self.current_rank = self.current_rank + skip;
                self.evaluations = self.evaluations + skip;
                self.ruler[count - 2] = before + (last - 1);
                self.ruler[count - 1] = 1;
                assert(self.ruler@ =~= successor::run_member(s, last - 1));
            } else {
                proof {
                    lemma_no_solutions(length, n, start, rank, end);
                    successor::lemma_run(s, length, n, end - 1 - rank);
                    ranking::lemma_rank_in_range(
                        successor::run_member(s, end - 1 - rank),
                        length,
                        n,
                    );
                }
                self.evaluations = self.evaluations + (self.end_rank - self.current_rank);
                self.current_rank = self.end_rank;
                self.outcome = Some(true);
                return;
            }
        }
        if self.current_rank >= self.end_rank {
            self.outcome = Some(true);
            return;
        }
        if !next_ruler(&mut self.ruler, self.length) {
            self.outcome = Some(false);
        }
    }

    /// The number of rulers found so far.
    fn found_count(&self) -> (res: usize)
        ensures
            res == self.found().len(),
    {
        self.found.len()
    }

    /// Whether the search is over.
    pub fn is_over(&self) -> (res: bool)
        ensures
            res == self.outcome() is Some,
    {
        self.outcome.is_some()
    }

    /// The rulers found, the number of evaluations, and whether the range was searched to its end.
    pub fn finish(self) -> (res: (Vec<Vec<u8>>, u64, bool))
        ensures
            contents(res.0@) == self.found(),
            res.1 == self.evaluations(),
            res.2 == (self.outcome() == Some(true)),
            self.wf() && self.outcome() is Some ==> range_outcome(
                self.length(),
                self.num_segments(),
                self.start_rank(),
                self.end_rank(),
                contents(res.0@),
                res.1 as int,
                res.2,
            ),
    {
        (self.found, self.evaluations, self.outcome == Some(true))
    }

    /// Whether the search has gone one step on from `before`. Where the interrupt flag was due and
    /// `running` was not set, it has ended there. Otherwise the ruler at which it stood has been
    /// decided on, and it stands behind that ruler and those that are skipped with it.
    pub open spec fn has_advanced(&self, before: &RangeSearch, running: bool) -> bool {
        &&& self.length() == before.length()
        &&& self.num_segments() == before.num_segments()
        &&& self.start_rank() == before.start_rank()
        &&& self.end_rank() == before.end_rank()
        &&& if before.interrupt_due() && !running {
            &&& self.outcome() == Some(false)
            &&& self.found() == before.found()
            &&& self.evaluations() == before.evaluations()
            &&& self.current_rank() == before.current_rank()
        } else {
            &&& self.current_rank() == before.rank_after()
            &&& self.evaluations() == before.evaluations() + before.rank_after()
                - before.current_rank()
            &&& self.outcome() == if self.current_rank() >= before.end_rank() {
                Some(true)
            } else if self.current_rank() >= ranking::space_size(
                before.length(),
                before.num_segments(),
            ) {
                Some(false)
            } else {
                None
            }
            &&& self.found() == if is_solution(before.current_ruler()) {
                before.found().push(before.current_ruler())
            } else {
                before.found()
            }
        }
    }

    /// Whether the interrupt flag is looked at before the current ruler.
    pub open spec fn interrupt_due(&self) -> bool {
        self.evaluations() % (INTERRUPT_CHECK_INTERVAL as int) == 0
    }

    /// The ruler that is decided on next.
    pub open spec fn current_ruler(&self) -> Seq<u8> {
        ranking::ruler_at(self.length(), self.num_segments(), self.current_rank())
    }

    /// The rank after the current ruler and those that are skipped with it.
    pub open spec fn rank_after(&self) -> int {
        let s = self.current_ruler();
        let next = self.current_rank() + if skips(s) { s[s.len() - 1] as int } else { 1 };
        if next <= self.end_rank() {
            next
        } else {
            self.end_rank()
        }
    }
}

/// One step does not lead beyond the search space, and all rulers that it passes over, but for the
/// last, are skipped.
proof fn lemma_step_stays_inside(search: &RangeSearch)
    requires
        search.wf(),
        search.outcome() is None,
    ensures
        search.rank_after() <= ranking::space_size(search.length(), search.num_segments()),
        forall|r: int|
            search.current_rank() <= r < search.rank_after() - 1 ==> skips(
                #[trigger] ranking::ruler_at(search.length(), search.num_segments(), r),
            ),
{
    let length = search.length();
    let n = search.num_segments();
    let s = search.ruler@;
    let rank = search.current_rank();
    ranking::law_unrank_inverts_rank(s, length, n);
    ranking::lemma_rank_in_range(s, length, n);
    if skips(s) {
        let last = s[n - 1] as int;
        successor::lemma_run(s, length, n, last - 1);
        ranking::lemma_rank_in_range(successor::run_member(s, last - 1), length, n);
        assert forall|r: int| rank <= r < search.rank_after() - 1 implies skips(
            #[trigger] ranking::ruler_at(length, n, r),
        ) by {
            law_skipped_rulers_are_no_solutions(s, length, n, r - rank);
        }
    }
}

/// A search of a range of the search space stops short only where the flag, looked at when it was
/// due, is found cleared. Where it is found set, every step comes nearer to the end of the range,
/// and the search is over only once it is there.
pub proof fn law_only_the_flag_stops_a_search(
    before: &RangeSearch,
    after: &RangeSearch,
    running: bool,
)
    requires
        before.wf(),
        before.outcome() is None,
        before.end_rank() <= ranking::space_size(before.length(), before.num_segments()),
        after.has_advanced(before, running),
    ensures
        after.outcome() == Some(false) <==> before.interrupt_due() && !running,
        running ==> {
            &&& before.current_rank() < after.current_rank() <= before.end_rank()
            &&& after.outcome() is Some <==> after.current_rank() == before.end_rank()
        },
{
}

/// The rulers that are skipped are no solutions: where the second segment is longer than the last
/// one, it stays so while the last segment shrinks, and the ruler reads smaller backwards.
pub proof fn law_skipped_rulers_are_no_solutions(s: Seq<u8>, length: int, num_segments: int, t: int)
    requires
        ranking::in_space(s, length, num_segments),
        length <= 255,
        skips(s),
        0 <= t < s[num_segments - 1],
    ensures
        ranking::ruler_at(
            length,
            num_segments,
            ranking::rank_of(s, length, num_segments) + t,
        ) == successor::run_member(s, t),
        !is_solution(successor::run_member(s, t)),
        skips(successor::run_member(s, t)) <==> t < s[num_segments - 1] - 1,
{
    let n = num_segments;
    let u = successor::run_member(s, t);
    successor::lemma_run(s, length, n, t);
    ranking::law_unrank_inverts_rank(u, length, n);
    assert(u[1] >= s[1]);
    successor::lemma_reflection_precedes(u, length, n);
}

/// The word whose lowest `bits` bits are set.
fn partial_block_mask(bits: u64) -> (mask: u64)
    requires
        bits < 64,
    ensures
        forall|t: int| #[trigger] bitset::bit(mask, t) <==> 0 <= t < bits,
{
    if bits == 0 {
        proof {
            assert forall|t: int| !bitset::bit(0, t) by {
                bitset::lemma_bit_zero(t);
            }
        }
        return 0;
    }
    assert(1u64 << bits >= 1) by (bit_vector)
        requires
            bits < 64,
    ;
    let mask: u64 = (1u64 << bits) - 1;
    proof {
        assert forall|t: int| #[trigger] bitset::bit(mask, t) <==> 0 <= t < bits by {
            if 0 <= t < 64 {
                let u = t as u64;
                assert((mask >> u) & 1 == 1 <==> u < bits) by (bit_vector)
                    requires
                        bits < 64,
                        u < 64,
                        mask == (1u64 << bits) - 1,
                ;
            }
        }
    }
    mask
}

/// The standard library's mutual exclusion lock.
#[verifier::external_type_specification]
#[verifier::external_body]
#[verifier::reject_recursive_types(T)]
pub struct ExMutex<T: ?Sized>(Mutex<T>);

/// What the searches of several ranges share: which rulers are searched, the flag that stays set
/// while the search may go on, the counters of the progress display, and the ruler that it shows.
pub struct RangeContext<'a> {
    pub length: u8,
    pub num_segments: u8,
    pub interrupt: &'a AtomicBool,
    pub eval_counter: &'a AtomicU64,
    pub found_counter: &'a AtomicU64,
    pub latest_ruler: &'a Mutex<Option<Vec<u8>>>,
}

/// Whether a look at the flag may find this value: `AtomicBool::load` may return it.
pub open spec fn may_read(flag: &AtomicBool, value: bool) -> bool {
    call_ensures(AtomicBool::load, (flag, Ordering::Relaxed), value)
}

/// Whether a value is added to a counter, by `AtomicU64::fetch_add`, whatever the counter held.
pub open spec fn is_added(counter: &AtomicU64, value: u64) -> bool {
    exists|held: u64| #[trigger]
        call_ensures(AtomicU64::fetch_add, (counter, value, Ordering::Relaxed), held)
}

/// The sum of some updates.
pub open spec fn sum_of(updates: Seq<u64>) -> int
    decreases updates.len(),
{
    if updates.len() == 0 {
        0
    } else {
        sum_of(updates.drop_last()) + updates.last()
    }
}

/// Whether a total is added to a counter, in one or more updates or, where it is 0, in none.
pub open spec fn is_counted(counter: &AtomicU64, total: int) -> bool {
    exists|updates: Seq<u64>|
        #![trigger sum_of(updates)]
        sum_of(updates) == total && forall|i: int|
            0 <= i < updates.len() ==> is_added(counter, #[trigger] updates[i])
}

/// Whether a ruler is offered to the progress display.
pub closed spec fn is_offered(latest: &Mutex<Option<Vec<u8>>>, ruler: Seq<u8>) -> bool {
    exists|shown: &Vec<u8>| shown@ == ruler && #[trigger]
        call_ensures(show_latest, (latest, shown), ())
}

impl<'a> RangeContext<'a> {
    /// Looks at the flag that stays set while the search may go on.
    fn may_continue(&self) -> (res: bool)
        ensures
            may_read(self.interrupt, res),
    {
        self.interrupt.load(Ordering::Relaxed)
    }

    /// Counts one more ruler found.
    fn count_found(&self)
        ensures
            is_added(self.found_counter, 1),
    {
        self.found_counter.fetch_add(1, Ordering::Relaxed);
    }

    /// Counts a ruler that was found, and offers it to the progress display.
    fn announce(&self, ruler: &Vec<u8>)
        ensures
            is_added(self.found_counter, 1),
            is_offered(self.latest_ruler, ruler@),
    {
        self.count_found();
        show_latest(self.latest_ruler, ruler);
    }

    /// Counts evaluations.
    fn count_evaluations(&self, evaluations: u64)
        ensures
            is_added(self.eval_counter, evaluations),
    {
        self.eval_counter.fetch_add(evaluations, Ordering::Relaxed);
    }
}

/// A look at the flag of a context after so many evaluations.
struct Look<'a, 'b> {
    ctx: &'b RangeContext<'a>,
    evaluations: u64,
}

impl<'a, 'b> Look<'a, 'b> {
    /// Looks at the flag.
    fn may_continue(&self) -> (res: bool)
        ensures
            may_read(self.ctx.interrupt, res),
    {
        self.ctx.may_continue()
    }
}

/// Whether a look at the flag of a context, after so many evaluations of a search, may find this
/// value.
pub closed spec fn may_find(ctx: &RangeContext, evaluations: int, value: bool) -> bool {
    exists|look: &Look|
        look.ctx == ctx && look.evaluations == evaluations && #[trigger]
            call_ensures(Look::may_continue, (look,), value)
}

/// A look finds what the flag may be read as.
pub proof fn law_looks_read_the_flag(ctx: &RangeContext, evaluations: int, value: bool)
    requires
        may_find(ctx, evaluations, value),
    ensures
        may_read(ctx.interrupt, value),
{
}

/// Whether a search that starts at `start_rank` looks at the flag before it decides on the ruler
/// with this rank: one in 1024 evaluations is due, and rulers that are skipped are not decided on.
pub open spec fn looks_at(length: int, num_segments: int, start_rank: int, rank: int) -> bool {
    &&& (rank - start_rank) % 1024 == 0
    &&& rank == start_rank || !skips(ranking::ruler_at(length, num_segments, rank - 1))
}

/// Whether a ruler that was found is counted and offered to the progress display.
pub closed spec fn is_announced(ctx: &RangeContext, ruler: Seq<u8>) -> bool {
    exists|found: &Vec<u8>| found@ == ruler && #[trigger]
        call_ensures(RangeContext::announce, (ctx, found), ())
}

/// A ruler that is announced is counted, and offered to the progress display.
pub proof fn law_announced_rulers_are_counted(ctx: &RangeContext, ruler: Seq<u8>)
    requires
        is_announced(ctx, ruler),
    ensures
        is_added(ctx.found_counter, 1),
        is_offered(ctx.latest_ruler, ruler),
{
}

/// Offers a ruler to the progress display, by `std::sync::Mutex::try_lock`. Where another thread
/// holds the lock the display keeps what it has. Nothing is claimed: what the lock holds
/// afterwards rests on the other threads.
#[verifier::external_body]
fn show_latest(latest: &Mutex<Option<Vec<u8>>>, ruler: &Vec<u8>) {
    if let Ok(mut shown) = latest.try_lock() {
        *shown = Some(ruler.clone());
    }
}

/// Searches a range of ruler ranks for complete sparse rulers.
///
/// Returns:
/// 1. The list of found rulers.
/// 2. The number of evaluations performed, skipped rulers included.
/// 3. Whether the range was fully searched (true) or interrupted (false). A range that reaches
///    beyond the search space is never fully searched.
///
/// The counters of the context grow by what is returned, in steps, and the rulers are offered to the
/// progress display. What these hold is shared with other threads, and so is the flag: a search may
/// end wherever the flag is looked at, but a range of the search space is left unfinished only where
/// a look found the flag cleared.
pub fn search_range(shared: &RangeContext, start_rank: u64, end_rank: u64) -> (res: (
    Vec<Vec<u8>>,
    u64,
    bool,
))
    requires
        ranking::unrankable(shared.length as int, shared.num_segments as int, start_rank as int),
        start_rank < end_rank ==> start_rank < ranking::space_size(
            shared.length as int,
            shared.num_segments as int,
        ),
    ensures
        range_outcome(
            shared.length as int,
            shared.num_segments as int,
            start_rank as int,
            end_rank as int,
            contents(res.0@),
            res.1 as int,
            res.2,
        ),
        start_rank >= end_rank ==> res.2,
        !res.2 && end_rank <= ranking::space_size(shared.length as int, shared.num_segments as int)
            ==> may_read(shared.interrupt, false),
        res.2 && start_rank < end_rank ==> may_read(shared.interrupt, true),
        is_counted(shared.eval_counter, res.1 as int),
        !res.2 ==> may_find(shared, res.1 as int, false) || start_rank + res.1 == ranking::space_size(
            shared.length as int,
            shared.num_segments as int,
        ),
        forall|rank: int|
            start_rank <= rank < start_rank + res.1 && #[trigger] looks_at(
                shared.length as int,
                shared.num_segments as int,
                start_rank as int,
                rank,
            ) ==> may_find(shared, rank - start_rank, true),
        forall|i: int|
            #![trigger contents(res.0@)[i]]
            0 <= i < res.0@.len() ==> is_announced(shared, contents(res.0@)[i]),
{
    let mut search = RangeSearch::new(shared.length, shared.num_segments, start_rank, end_rank);
    let mut last_update: u64 = 0;
    let ghost mut updates: Seq<u64> = Seq::empty();
    while !search.is_over()
        invariant
            search.wf(),
            search.length() == shared.length,
            search.num_segments() == shared.num_segments,
            search.start_rank() == start_rank,
            search.end_rank() == end_rank,
            last_update <= search.evaluations(),
            start_rank >= end_rank ==> search.outcome() == Some(true),
            search.outcome() is None && search.evaluations() > 0 ==> may_read(shared.interrupt, true),
            search.outcome() == Some(true) && start_rank < end_rank ==> may_read(
                shared.interrupt,
                true,
            ),
            search.outcome() == Some(false) && end_rank <= ranking::space_size(
                shared.length as int,
                shared.num_segments as int,
            ) ==> may_read(shared.interrupt, false),
            sum_of(updates) == last_update,
            forall|i: int|
                0 <= i < updates.len() ==> is_added(shared.eval_counter, #[trigger] updates[i]),
            search.outcome() is Some ==> last_update == search.evaluations(),
            forall|i: int|
                #![trigger search.found()[i]]
                0 <= i < search.found().len() ==> is_announced(shared, search.found()[i]),
            search.outcome() == Some(false) ==> may_find(shared, search.evaluations(), false)
                || start_rank + search.evaluations() == ranking::space_size(
                shared.length as int,
                shared.num_segments as int,
            ),
            search.outcome() is None ==> search.current_rank() == start_rank + search.evaluations(),
            forall|rank: int|
                start_rank <= rank < start_rank + search.evaluations() && #[trigger] looks_at(
                    shared.length as int,
                    shared.num_segments as int,
                    start_rank as int,
                    rank,
                ) ==> may_find(shared, rank - start_rank, true),
        decreases
                (if search.outcome() is None {
                    1int
                } else {
                    0
                }),
                search.end_rank() - search.current_rank(),
    {
        let due: bool = search.evaluations % INTERRUPT_CHECK_INTERVAL == 0;
        let ctx = Look { ctx: shared, evaluations: search.evaluations };
        let running: bool = if due {
            ctx.may_continue()
        } else {
            true
        };
        let found_before: usize = search.found_count();
        let ghost before = search;
        search.advance(running);
        proof {
            lemma_step_stays_inside(&before);
            let length = shared.length as int;
            let n = shared.num_segments as int;
            if due {
                assert(call_ensures(Look::may_continue, (&ctx,), running));
                assert(may_find(shared, before.evaluations(), running));
            }
            assert forall|rank: int|
                start_rank <= rank < start_rank + search.evaluations() && #[trigger] looks_at(
                    length,
                    n,
                    start_rank as int,
                    rank,
                ) implies may_find(shared, rank - start_rank, true) by {
                if rank > before.current_rank() {
                    assert(skips(ranking::ruler_at(length, n, rank - 1)));
                }
            }
            if end_rank <= ranking::space_size(shared.length as int, shared.num_segments as int) {
                law_only_the_flag_stops_a_search(&before, &search, running);
            }
        }
        if search.found_count() > found_before {
            shared.announce(&search.found[found_before]);
            assert(search.found().last() == search.found@[found_before as int]@);
        }
        if search.evaluations - last_update >= COUNTER_UPDATE_INTERVAL || search.is_over() {
            shared.count_evaluations(search.evaluations - last_update);
            proof {
                let update = (search.evaluations - last_update) as u64;
                assert(updates.push(update).drop_last() =~= updates);
                updates = updates.push(update);
            }
            last_update = search.evaluations;
        }
    }
    search.finish()
}

} // verus!
