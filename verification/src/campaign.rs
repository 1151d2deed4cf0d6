//! The search across a range of lengths: for each length the number of segments grows from its
//! lower bound until rulers are found.
use vstd::prelude::*;

use crate::clock::ClockTime;
use crate::laws;
use crate::lower_bound;
use crate::lower_bound::get_num_segments_lower_bound;
use crate::range_search;
use crate::ranking;
use crate::ruler;
use crate::session;
use crate::session::SearchSession;
use crate::state;
use crate::state::{Figures, SearchStatus, SearchTiming, Solution, State};
use crate::symmetry;

verus! {

broadcast use vstd::std_specs::hash::group_hash_axioms;

/// What a completed length comes to.
#[derive(Clone, Copy)]
pub struct Conclusion {
    pub found: u64,
    pub num_segments: u8,
    pub clock_time: ClockTime,
}

impl State {
    /// Whether a length is completed.
    pub open spec fn has_completed(&self, length: u8) -> bool {
        self.solutions@.contains_key(length) && self.solutions@[length].completed
    }

    pub fn is_completed(&self, length: u8) -> (res: bool)
        ensures
            res == self.has_completed(length),
    {
        match self.solutions.get(&length) {
            Some(solution) => solution.completed,
            None => false,
        }
    }

    /// Whether the search for a length starts with so many segments: as many as on record,
    /// or else the lower bound.
    pub open spec fn starts_with_segments(&self, length: u8, num_segments: u8) -> bool {
        if self.solutions@.contains_key(length) {
            num_segments == self.solutions@[length].num_segments
        } else if length == 0 {
            num_segments == 0
        } else {
            lower_bound::least_with_enough_arcs(num_segments as int, length as int)
        }
    }

    /// Whether every length that was completed before still is.
    pub open spec fn forgets_nothing(&self, before: &State) -> bool {
        forall|i: u8| #[trigger]
            before.solutions@.contains_key(i) && before.solutions@[i].completed
                ==> self.solutions@.contains_key(i) && self.solutions@[i].completed
    }

    /// The number of segments with which the search for a length starts.
    pub fn first_num_segments(&self, length: u8) -> (res: u8)
        ensures
            self.starts_with_segments(length, res),
    {
        match self.solutions.get(&length) {
            Some(solution) => solution.num_segments,
            None => get_num_segments_lower_bound(length),
        }
    }

    /// The length with which to start: the one asked for, or the first uncompleted one where
    /// that is 0.
    pub fn start_length(&self, requested: u8) -> (res: u8)
        requires
            requested >= 1 || exists|i: u8| i >= 1 && !#[trigger] self.has_completed(i),
        ensures
            requested >= 1 ==> res == requested,
            requested == 0 ==> {
                &&& res >= 1
                &&& !self.has_completed(res)
                &&& forall|i: u8| 1 <= i < res ==> #[trigger] self.has_completed(i)
            },
    {
        if requested >= 1 {
            return requested;
        }
        let mut i: u8 = 1;
        while self.is_completed(i)
            invariant
                i >= 1,
                exists|i: u8| i >= 1 && !#[trigger] self.has_completed(i),
                forall|j: u8| 1 <= j < i ==> #[trigger] self.has_completed(j),
            decreases 255 - i,
        {
            assert(i < 255) by {
                let k = choose|i: u8| i >= 1 && !#[trigger] self.has_completed(i);
                if i == 255 {
                    assert(self.has_completed(k));
                }
            }
            i = i + 1;
        }
        i
    }

    /// Completes a length whose search came to its end, if it has rulers. Says what they come to,
    /// or that the search goes on with more segments.
    pub fn conclude_search(&mut self, length: u8) -> (res: Option<Conclusion>)
        requires
            old(self).solutions@.contains_key(length),
            old(self).solutions@[length].rulers@.len() > 0
                && old(self).solutions@[length].rulers_found > 0 ==> Figures::sum(
                old(self).completed_figures(length),
            ).fit(),
        ensures
            final(self).same_but_for(old(self), length),
            ({
                let then = old(self).solutions@[length];
                let now = final(self).solutions@[length];
                &&& now == Solution { completed: then.completed || then.rulers@.len() > 0, ..then }
                &&& match res {
                    Some(conclusion) => {
                        &&& then.rulers@.len() > 0 && then.rulers_found > 0
                        &&& conclusion.found == then.rulers_found
                        &&& conclusion.num_segments == then.num_segments
                        &&& conclusion.clock_time == then.total_clock_time
                        &&& final(self).totals() == final(self).sum_of_solutions()
                    },
                    None => {
                        &&& then.rulers@.len() == 0 || then.rulers_found == 0
                        &&& final(self).totals() == old(self).totals()
                    },
                }
            }),
    {
        let known: Option<Solution> = self.solutions.remove(&length);
        let mut conclusion: Option<Conclusion> = None;
        if let Some(solution) = known {
            let mut solution: Solution = solution;
            if solution.rulers.len() > 0 {
                solution.completed = true;
                if solution.rulers_found > 0 {
                    conclusion =
                    Some(
                        Conclusion {
                            found: solution.rulers_found,
                            num_segments: solution.num_segments,
                            clock_time: solution.total_clock_time,
                        },
                    );
                }
            }
            self.solutions.insert(length, solution);
        }
        assert(self.solutions@.remove(length) =~= old(self).solutions@.remove(length));
        if conclusion.is_some() {
            proof {
                state::lemma_figures_insert(
                    old(self).solutions@.remove(length),
                    length,
                    self.solutions@[length],
                );
                assert(self.solutions@ =~= old(self).solutions@.remove(length).insert(
                    length,
                    self.solutions@[length],
                ));
                assert(state::figures_of(self.solutions@) =~= old(self).completed_figures(length));
            }
            self.recalculate_global_metrics();
        }
        conclusion
    }
}

/// A run through a range of lengths.
pub struct Campaign {
    start_length: u8,
    next_length: u16,
    end_length: u8,
    current: Option<(u8, u8)>,
}

impl Campaign {
    /// The first length of the run.
    pub closed spec fn start_length(&self) -> int {
        self.start_length as int
    }

    /// The length from which the run goes on after the current one.
    pub closed spec fn next_length(&self) -> int {
        self.next_length as int
    }

    /// The last length of the run.
    pub closed spec fn end_length(&self) -> int {
        self.end_length as int
    }

    /// The length and number of segments that are searched.
    pub closed spec fn current(&self) -> Option<(u8, u8)> {
        self.current
    }

    /// Whether a run through the lengths from `start_length` to `end_length` is at its beginning.
    pub open spec fn is_new(&self, start_length: u8, end_length: u8) -> bool {
        &&& self.start_length() == start_length
        &&& self.next_length() == start_length
        &&& self.end_length() == end_length
        &&& self.current() is None
    }

    /// Whether the run has left no gap: every length from its first one up to where it goes on is
    /// completed, but for the one that is searched.
    pub open spec fn leaves_no_gap(&self, state: &State) -> bool {
        forall|i: u8|
            self.start_length() <= i < self.next_length() && !(self.current() matches Some(
                (length, _),
            ) && length == i) ==> #[trigger] state.solutions@.contains_key(i)
                && state.solutions@[i].completed
    }

    /// A run through the lengths from `start_length` to `end_length`.
    pub fn new(start_length: u8, end_length: u8) -> (res: Self)
        ensures
            res.is_new(start_length, end_length),
            res.next_length() == start_length,
            res.end_length() == end_length,
            res.current() is None,
    {
        Campaign { start_length, next_length: start_length as u16, end_length, current: None }
    }

    /// Whether `res` is what is searched next after `before`.
    pub open spec fn has_chosen(
        &self,
        before: &Campaign,
        state: &State,
        running: bool,
        res: Option<(u8, u8)>,
    ) -> bool {
        &&& self.start_length() == before.start_length()
        &&& self.end_length() == before.end_length()
        &&& !running ==> res is None && *self == *before
        &&& running && before.current() is Some ==> res == before.current() && *self == *before
        &&& running && before.current() is None ==> {
            &&& self.current() == res
            &&& match res {
                Some((length, num_segments)) => {
                    &&& before.next_length() <= length <= before.end_length()
                    &&& !state.has_completed(length)
                    &&& state.starts_with_segments(length, num_segments)
                    &&& self.next_length() == length + 1
                    &&& forall|i: u8|
                        before.next_length() <= i < length ==> #[trigger] state.has_completed(i)
                },
                None => {
                    &&& before.next_length() <= self.next_length()
                    &&& self.next_length() <= before.end_length() + 1 || self.next_length()
                        == before.next_length()
                    &&& forall|i: u8|
                        before.next_length() <= i <= before.end_length()
                            ==> #[trigger] state.has_completed(i)
                },
            }
        }
    }

    /// The length and number of segments to search next: those of the current search, or else those
    /// with which the next uncompleted length starts. Where `running` is not set, and after the
    /// last length, there is nothing to search.
    pub fn next_search(&mut self, state: &State, running: bool) -> (res: Option<(u8, u8)>)
        ensures
            final(self).has_chosen(old(self), state, running, res),
            old(self).leaves_no_gap(state) ==> final(self).leaves_no_gap(state),
            running && res is None && old(self).leaves_no_gap(state) ==> forall|i: u8|
                old(self).start_length() <= i <= old(self).end_length()
                    ==> #[trigger] state.solutions@.contains_key(i)
                    && state.solutions@[i].completed,
    {
        if !running {
            return None;
        }
        if self.current.is_some() {
            return self.current;
        }
        let ghost before = *self;
        while self.next_length <= self.end_length as u16
            invariant
                running,
                before == *old(self),
                old(self).current is None,
                self.start_length == old(self).start_length,
                self.end_length == old(self).end_length,
                self.current is None,
                old(self).next_length <= self.next_length,
                self.next_length <= self.end_length + 1 || self.next_length
                    == old(self).next_length,
                forall|i: u8|
                    old(self).next_length <= i < self.next_length ==> #[trigger] state.has_completed(
                        i,
                    ),
            decreases 256 - self.next_length,
        {
            let length: u8 = self.next_length as u8;
            self.next_length = self.next_length + 1;
            if !state.is_completed(length) {
                let num_segments: u8 = state.first_num_segments(length);
                self.current = Some((length, num_segments));
                proof {
                    if before.leaves_no_gap(state) {
                        law_choice_leaves_no_gap(&before, self, state, running, self.current);
                    }
                }
                return self.current;
            }
        }
        proof {
            if before.leaves_no_gap(state) {
                law_choice_leaves_no_gap(&before, self, state, running, None);
            }
        }
        None
    }

    /// Whether it has been noted that the current search came to its end, with `res` to say of it.
    pub open spec fn has_noted(
        &self,
        before: &Campaign,
        state_before: &State,
        state: &State,
        res: Option<Conclusion>,
    ) -> bool {
        &&& self.start_length() == before.start_length()
        &&& self.end_length() == before.end_length()
        &&& self.next_length() == before.next_length()
        &&& before.current() matches Some((length, num_segments)) && {
            let then = state_before.solutions@[length];
            let now = state.solutions@[length];
            &&& state.same_but_for(state_before, length)
            &&& now == Solution { completed: then.completed || then.rulers@.len() > 0, ..then }
            &&& match res {
                Some(conclusion) => {
                    &&& then.rulers@.len() > 0 && then.rulers_found > 0
                    &&& conclusion.found == then.rulers_found
                    &&& conclusion.num_segments == then.num_segments
                    &&& conclusion.clock_time == then.total_clock_time
                    &&& state.totals() == state.sum_of_solutions()
                    &&& self.current() is None
                },
                None => {
                    &&& then.rulers@.len() == 0 || then.rulers_found == 0
                    &&& state.totals() == state_before.totals()
                    &&& num_segments < 255
                    &&& self.current() == Some((length, (num_segments + 1) as u8))
                },
            }
        }
    }

    /// Takes note that the current search came to its end. Where it has rulers its length is
    /// completed and the run moves on to the next one. Otherwise one more segment is tried.
    pub fn search_finished(&mut self, state: &mut State) -> (res: Option<Conclusion>)
        requires
            old(self).current() matches Some((length, num_segments)) && {
                let then = old(state).solutions@[length];
                &&& old(state).solutions@.contains_key(length)
                &&& if then.rulers@.len() > 0 && then.rulers_found > 0 {
                    Figures::sum(old(state).completed_figures(length)).fit()
                } else {
                    num_segments < 255
                }
            },
        ensures
            final(self).has_noted(old(self), old(state), final(state), res),
            old(self).leaves_no_gap(old(state)) ==> final(self).leaves_no_gap(final(state)),
    {
        match self.current {
            Some((length, num_segments)) => {
                let ghost before = *self;
                let conclusion: Option<Conclusion> = state.conclude_search(length);
                if conclusion.is_some() {
                    self.current = None;
                } else {
                    self.current = Some((length, num_segments + 1));
                }
                proof {
                    if before.leaves_no_gap(old(state)) {
                        law_note_leaves_no_gap(&before, self, old(state), state, conclusion);
                    }
                }
                conclusion
            },
            None => None,
        }
    }
}

/// Choosing what to search next leaves no gap. Where there is nothing more to search, every length
/// of the run from its first to its last is completed.
pub proof fn law_choice_leaves_no_gap(
    before: &Campaign,
    after: &Campaign,
    state: &State,
    running: bool,
    res: Option<(u8, u8)>,
)
    requires
        before.leaves_no_gap(state),
        after.has_chosen(before, state, running, res),
    ensures
        after.leaves_no_gap(state),
        running && res is None ==> forall|i: u8|
            before.start_length() <= i <= before.end_length()
                ==> #[trigger] state.solutions@.contains_key(i) && state.solutions@[i].completed,
{
    if running && before.current() is None {
        assert forall|i: u8|
            after.start_length() <= i < after.next_length() && !(after.current() matches Some(
                (length, _),
            ) && length == i) implies #[trigger] state.solutions@.contains_key(i)
            && state.solutions@[i].completed by {
            if i >= before.next_length() {
                assert(state.has_completed(i));
            }
        }
        if res is None {
            assert forall|i: u8|
                before.start_length() <= i <= before.end_length() implies #[trigger] state.solutions@.contains_key(
                i,
            ) && state.solutions@[i].completed by {
                if i >= before.next_length() {
                    assert(state.has_completed(i));
                }
            }
        }
    }
}

/// Taking note of a search that came to its end leaves no gap.
pub proof fn law_note_leaves_no_gap(
    before: &Campaign,
    after: &Campaign,
    state_before: &State,
    state: &State,
    res: Option<Conclusion>,
)
    requires
        before.leaves_no_gap(state_before),
        after.has_noted(before, state_before, state, res),
    ensures
        after.leaves_no_gap(state),
{
    if let Some((length, _)) = before.current() {
        assert forall|i: u8|
            after.start_length() <= i < after.next_length() && !(after.current() matches Some(
                (current, _),
            ) && current == i) implies #[trigger] state.solutions@.contains_key(i)
            && state.solutions@[i].completed by {
            if i != length {
                assert(state_before.solutions@.contains_key(i));
                assert(state_before.solutions@.remove(length).contains_key(i));
                assert(state.solutions@.remove(length)[i] == state_before.solutions@.remove(
                    length,
                )[i]);
            }
        }
    }
}

/// A search that came to its end, with what it went through: the state before it, the state once it
/// had begun, where it stood step by step, the state into which its outcome was recorded, the state
/// after that, and what the campaign made of it.
pub struct SearchRun {
    pub before: State,
    pub begun: State,
    pub history: Seq<SearchSession>,
    pub interim: State,
    pub timing: SearchTiming,
    pub recorded: State,
    pub campaign: Campaign,
    pub concluded: State,
    pub campaign_after: Campaign,
    pub conclusion: Option<Conclusion>,
}

impl SearchRun {
    /// The number of segments that was searched.
    pub open spec fn num_segments(&self) -> int {
        match self.campaign.current() {
            Some((_, num_segments)) => num_segments as int,
            None => 0,
        }
    }

    /// The rulers that were found.
    pub open spec fn found(&self) -> Seq<Seq<u8>> {
        self.history.last().found()
    }

    /// Whether this is a search for `length` that was begun by [`State::begin_search`], went on
    /// step by step to its end, with any number of interruptions and resumptions, was recorded by
    /// [`State::finalize_solution`], and was noted by [`Campaign::search_finished`]. Checkpoints
    /// and resumptions keep the number of segments on record, and whether the length is completed.
    pub open spec fn is_run(&self, length: u8) -> bool {
        let last = self.history.last();
        let known = self.interim.solutions@[length];
        let begun = self.begun.solutions@[length];
        &&& self.campaign.current() matches Some((current_length, num_segments)) && {
            &&& current_length == length
            &&& self.begun.has_begun(&self.before, length, num_segments, &self.history[0])
            &&& self.history.len() > 0
            &&& session::is_chain(self.history)
            &&& last.status == SearchStatus::Finished && !last.can_go_on()
            &&& known.completed == begun.completed
            &&& known.num_segments == begun.num_segments
            &&& self.recorded.has_finalized(
                &self.interim,
                length,
                num_segments,
                last.current_rank,
                last.evaluated,
                last.found(),
                &self.timing,
                last.status,
            )
        }
        &&& self.campaign_after.has_noted(
            &self.campaign,
            &self.recorded,
            &self.concluded,
            self.conclusion,
        )
    }
}

/// Whether no complete ruler of the length has fewer than `num_segments` segments.
pub open spec fn none_with_fewer(length: int, num_segments: int) -> bool {
    forall|r: Seq<u8>, k: int|
        k < num_segments && #[trigger] ruler::is_ruler(r, length, k) ==> !ruler::complete(r)
}

/// The rank from which a record of an unfinished search says to go on: that of its checkpoint, or
/// else as many as have been evaluated.
pub open spec fn recorded_rank(entry: Solution, length: int) -> int {
    match entry.checkpoint_ruler {
        Some(r) => ranking::rank_of(r@, length, entry.num_segments as int) as int,
        None => entry.total_rulers_evaluated as int,
    }
}

/// Whether a record of an unfinished search tells the truth: no complete ruler has fewer segments
/// than it names, its rulers are solutions with that many, and all of those below the rank from
/// which it says to go on are among them.
pub open spec fn is_honest_record(entry: Solution, length: int) -> bool {
    let n = entry.num_segments as int;
    let space = ranking::space_size(length, n) as int;
    let rank = recorded_rank(entry, length);
    let rulers = range_search::contents(entry.rulers@);
    &&& !entry.completed
    &&& n >= 2
    &&& none_with_fewer(length, n)
    &&& entry.checkpoint_ruler matches Some(r) ==> ranking::rankable(r@, length, n)
    &&& rank <= space
    &&& forall|r: Seq<u8>| #[trigger]
        range_search::solutions_between(length, n, 0, rank).contains(r) ==> rulers.contains(r)
    &&& forall|r: Seq<u8>| #[trigger]
        rulers.contains(r) ==> range_search::solutions_between(length, n, 0, space).contains(r)
}

/// Whether what is known of a length tells the truth: nothing is known, or an honest record of an
/// unfinished search.
pub open spec fn is_honest_start(state: &State, length: u8) -> bool {
    state.solutions@.contains_key(length) ==> is_honest_record(
        state.solutions@[length],
        length as int,
    )
}

/// Whether a search with so many segments is what comes next for a length: no complete ruler has
/// fewer, and what is on record is honest and of the same number of segments, or leaves nothing
/// behind.
pub open spec fn is_next_search(state: &State, length: u8, num_segments: u8) -> bool {
    &&& num_segments >= 2
    &&& none_with_fewer(length as int, num_segments as int)
    &&& state.solutions@.contains_key(length) ==> {
        let entry = state.solutions@[length];
        if entry.num_segments == num_segments {
            is_honest_record(entry, length as int)
        } else {
            !entry.completed && entry.rulers@.len() == 0
        }
    }
}

/// Where an unfinished search for a length is on record, the campaign goes on with it: it chooses
/// the number of segments on record, and no other.
pub proof fn law_unfinished_search_is_taken_up(state: &State, length: u8, num_segments: u8)
    requires
        call_ensures(State::first_num_segments, (state, length), num_segments),
        state.solutions@.contains_key(length),
    ensures
        num_segments == state.solutions@[length].num_segments,
        !state::abandons(state.solutions@[length], num_segments),
{
}

/// Where nothing is known of a length, the campaign starts with the least number of segments that a
/// complete ruler can have: with fewer there are not enough arcs.
pub proof fn law_unknown_length_starts_low(
    state: &State,
    length: u8,
    num_segments: u8,
    r: Seq<u8>,
    k: int,
)
    requires
        call_ensures(State::first_num_segments, (state, length), num_segments),
        !state.solutions@.contains_key(length),
        length >= 1,
        ruler::is_ruler(r, length as int, k),
        ruler::complete(r),
    ensures
        k >= num_segments >= 1,
        num_segments >= 2 ==> (num_segments - 1) * (num_segments - 2) + 1 < length,
{
    lower_bound::law_lower_bound_is_sound(r, num_segments as int);
    if num_segments >= 2 {
        let m = num_segments - 1;
        assert(!lower_bound::enough_arcs(m, length as int));
        assert(m * m - m + 1 == (num_segments - 1) * (num_segments - 2) + 1) by (nonlinear_arith)
            requires
                m == num_segments - 1,
        ;
    }
}

/// An interrupted search goes on where it left off: once its outcome is on record, a campaign that
/// comes to its length chooses its number of segments, and the search that begins with them stands
/// at the mark of the interrupted one and holds its rulers.
pub proof fn law_interrupted_search_goes_on(
    stopped: &SearchSession,
    interim: &State,
    timing: &SearchTiming,
    recorded: &State,
    fresh: &Campaign,
    campaign: &Campaign,
    num_segments: u8,
    begun: &State,
    resumed: &SearchSession,
)
    requires
        stopped.wf(),
        stopped.status == SearchStatus::Interrupted,
        stopped.current_rank < stopped.total_space,
        !interim.solutions@[stopped.length].completed,
        interim.solutions@[stopped.length].num_segments == stopped.num_segments,
        recorded.has_finalized(
            interim,
            stopped.length,
            stopped.num_segments,
            stopped.current_rank,
            stopped.evaluated,
            stopped.found(),
            timing,
            stopped.status,
        ),
        fresh.current() is None,
        campaign.has_chosen(fresh, recorded, true, Some((stopped.length, num_segments))),
        begun.has_begun(recorded, stopped.length, num_segments, resumed),
    ensures
        num_segments == stopped.num_segments,
        resumed.length == stopped.length,
        resumed.num_segments == stopped.num_segments,
        resumed.current_rank == stopped.current_rank,
        resumed.found() == stopped.found(),
        resumed.follows(stopped),
{
    let entry = recorded.solutions@[stopped.length];
    session::law_interrupted_search_can_be_recorded(stopped);
    session::law_recorded_search_is_taken_up(stopped, interim, timing, recorded, begun, resumed);
    state::law_interrupted_search_resumes(
        entry,
        stopped.length,
        stopped.num_segments,
        stopped.current_rank,
    );
    assert(resumed.goes_on_from(stopped, entry));
}

/// What an honest search leaves on record with a checkpoint at its mark, whether it goes on or was
/// interrupted, is an honest record.
pub proof fn law_checkpoint_is_honest(session: &SearchSession, entry: Solution)
    requires
        session.length >= 2,
        session.num_segments >= 2,
        session.is_honest(),
        session.current_rank < session.total_space,
        ranking::space_size(session.length as int, session.num_segments as int) <= u64::MAX,
        none_with_fewer(session.length as int, session.num_segments as int),
        !entry.completed,
        entry.num_segments == session.num_segments,
        range_search::contents(entry.rulers@) == session.found(),
        entry.checkpoint_ruler matches Some(r) && r@ == ranking::unranked(
            session.length as int,
            session.num_segments as int,
            session.current_rank as int,
        ),
    ensures
        is_honest_record(entry, session.length as int),
        recorded_rank(entry, session.length as int) == session.current_rank,
{
    let length = session.length as int;
    let n = session.num_segments as int;
    ranking::law_unranked_ranks_back(length, n, session.current_rank as int);
    assert forall|r: Seq<u8>| #[trigger]
        range_search::solutions_between(
            length,
            n,
            0,
            recorded_rank(entry, length),
        ).contains(r) implies range_search::contents(entry.rulers@).contains(r) by {
        assert(session.solutions(0, session.current_rank as int).contains(r));
    }
    assert forall|r: Seq<u8>| #[trigger]
        range_search::contents(entry.rulers@).contains(r) implies range_search::solutions_between(
        length,
        n,
        0,
        ranking::space_size(length, n) as int,
    ).contains(r) by {
        assert(session.found().contains(r));
    }
}

/// A campaign that comes to a length of which what is known tells the truth chooses the search that
/// comes next for it.
pub proof fn law_campaign_chooses_the_next_search(
    before: &Campaign,
    after: &Campaign,
    state: &State,
    length: u8,
    num_segments: u8,
)
    requires
        length >= 2,
        is_honest_start(state, length),
        before.current() is None,
        after.has_chosen(before, state, true, Some((length, num_segments))),
    ensures
        is_next_search(state, length, num_segments),
{
    lemma_start_is_next_search(state, length, num_segments);
}

/// The number of segments with which the search for a length starts is what comes next for it.
proof fn lemma_start_is_next_search(state: &State, length: u8, num_segments: u8)
    requires
        length >= 2,
        is_honest_start(state, length),
        state.starts_with_segments(length, num_segments),
    ensures
        is_next_search(state, length, num_segments),
{
    if !state.solutions@.contains_key(length) {
        let n = num_segments as int;
        assert(!lower_bound::enough_arcs(1, length as int)) by (nonlinear_arith)
            requires
                length >= 2,
        ;
        assert(lower_bound::enough_arcs(n, length as int));
        assert forall|r: Seq<u8>, k: int|
            k < n && #[trigger] ruler::is_ruler(r, length as int, k) implies !ruler::complete(
            r,
        ) by {
            if ruler::complete(r) {
                lower_bound::law_lower_bound_is_sound(r, n);
            }
        }
    }
}

/// The search that comes next for a length begins as one that has missed nothing below its mark and
/// holds only solutions.
pub proof fn law_next_search_begins_honest(
    state: &State,
    length: u8,
    num_segments: u8,
    begun: &State,
    session: &SearchSession,
)
    requires
        length >= 2,
        is_next_search(state, length, num_segments),
        ranking::space_size(length as int, num_segments as int) <= u64::MAX,
        begun.has_begun(state, length, num_segments, session),
    ensures
        session.is_honest(),
        !begun.solutions@[length].completed,
        begun.solutions@[length].num_segments == num_segments,
{
    let l = length as int;
    let n = num_segments as int;
    let below = session.solutions(0, session.current_rank as int);
    let all = session.solutions(0, session.total_space as int);
    if !state.solutions@.contains_key(length) || state.solutions@[length].num_segments
        != num_segments {
        assert(below =~= Seq::<Seq<u8>>::empty());
        assert(session.found() =~= Seq::<Seq<u8>>::empty());
    } else {
        let entry = state.solutions@[length];
        assert(session.current_rank == recorded_rank(entry, l));
        assert(session.found() == range_search::contents(entry.rulers@));
        assert forall|r: Seq<u8>| #[trigger] below.contains(r) implies session.found().contains(
            r,
        ) by {
            assert(range_search::solutions_between(l, n, 0, recorded_rank(entry, l)).contains(r));
        }
        assert forall|r: Seq<u8>| #[trigger] session.found().contains(r) implies all.contains(
            r,
        ) by {
            assert(range_search::contents(entry.rulers@).contains(r));
        }
    }
}

/// Whether these are the runs for `length`, from the first one, which starts from nothing or from
/// an honest record of an unfinished search, each going on from what the one before it left.
pub open spec fn are_runs(length: u8, runs: Seq<SearchRun>) -> bool {
    &&& runs.len() > 0
    &&& is_honest_start(&runs[0].before, length)
    &&& runs[0].before.starts_with_segments(length, runs[0].num_segments() as u8)
    &&& forall|i: int| 0 <= i < runs.len() ==> #[trigger] runs[i].is_run(length)
    &&& forall|i: int, j: int|
        #![trigger runs[i], runs[j]]
        0 <= i && j == i + 1 && j < runs.len() ==> {
            &&& runs[j].campaign.current() == runs[i].campaign_after.current()
            &&& runs[j].before.solutions@.contains_key(length)
            &&& runs[j].before.solutions@[length] == runs[i].concluded.solutions@[length]
        }
}

/// A run that begins with the search that comes next for a length reports exactly the complete
/// rulers with that many segments that are least among their rotations and reflections, and has
/// evaluated the whole search space.
pub proof fn law_run_is_exhaustive(length: u8, run: SearchRun, r: Seq<u8>)
    requires
        length >= 2,
        run.is_run(length),
        is_next_search(&run.before, length, run.num_segments() as u8),
        ranking::space_size(length as int, run.num_segments()) <= u64::MAX,
    ensures
        run.found().contains(r) <==> ruler::is_ruler(r, length as int, run.num_segments())
            && ruler::complete(r) && symmetry::lex_least(r),
        range_search::contents(run.recorded.solutions@[length].rulers@) == run.found(),
        run.recorded.solutions@[length].rulers_found == run.found().len(),
        run.recorded.solutions@[length].total_rulers_evaluated == ranking::space_size(
            length as int,
            run.num_segments(),
        ),
        !run.recorded.solutions@[length].completed,
        run.recorded.solutions@[length].num_segments == run.num_segments(),
{
    let n = run.num_segments() as u8;
    law_next_search_begins_honest(&run.before, length, n, &run.begun, &run.history[0]);
    session::law_every_step_stays_honest(run.history, run.history.len() - 1);
    session::law_interruptions_change_nothing(&run.history.last(), r);
    laws::law_search_reports_least_complete_rulers(r, length as int, n as int);
}

/// Where a run leaves no rulers, no complete ruler has so many segments, and the search with one
/// more is what comes next: the campaign goes on with it, and so does one that starts anew from
/// what is on record, once it has seen that nothing is left of the finished search.
pub proof fn law_fruitless_run_leads_on(length: u8, run: SearchRun)
    requires
        length >= 2,
        run.is_run(length),
        is_next_search(&run.before, length, run.num_segments() as u8),
        ranking::space_size(length as int, run.num_segments()) <= u64::MAX,
        run.conclusion is None,
    ensures
        none_with_fewer(length as int, run.num_segments() + 1),
        run.num_segments() < 255,
        run.campaign_after.current() == Some((length, (run.num_segments() + 1) as u8)),
        run.concluded.solutions@.contains_key(length),
        is_next_search(&run.concluded, length, (run.num_segments() + 1) as u8),
        is_honest_start(&run.concluded, length),
{
    let n = run.num_segments();
    let entry = run.concluded.solutions@[length];
    let space = ranking::space_size(length as int, n) as int;
    law_run_is_exhaustive(length, run, Seq::empty());
    assert(run.found().len() == 0);
    assert forall|r: Seq<u8>, k: int|
        k < n + 1 && #[trigger] ruler::is_ruler(r, length as int, k) implies !ruler::complete(r) by {
        if ruler::complete(r) && k == n {
            let found = range_search::solutions_between(length as int, n, 0, space);
            laws::law_search_finds_each_complete_ruler_once(r, length as int, n);
            let i = choose|i: int|
                0 <= i < found.len() && symmetry::symmetric(r, #[trigger] found[i]);
            assert(found.contains(found[i]));
            laws::law_search_reports_least_complete_rulers(found[i], length as int, n);
            law_run_is_exhaustive(length, run, found[i]);
        }
    }
    assert forall|r: Seq<u8>| #[trigger]
        range_search::solutions_between(length as int, n, 0, space).contains(
            r,
        ) implies range_search::contents(entry.rulers@).contains(r) by {
        laws::law_search_reports_least_complete_rulers(r, length as int, n);
    }
    assert(entry.rulers@.len() == range_search::contents(entry.rulers@).len());
}

/// Each run searches one segment more than the one before it, and is what comes next.
proof fn lemma_runs(length: u8, runs: Seq<SearchRun>, i: int)
    requires
        length >= 2,
        are_runs(length, runs),
        0 <= i < runs.len(),
        forall|k: int| 0 <= k < runs.len() - 1 ==> #[trigger] runs[k].conclusion is None,
        forall|k: int|
            0 <= k < runs.len() ==> ranking::space_size(
                length as int,
                #[trigger] runs[k].num_segments(),
            ) <= u64::MAX,
    ensures
        runs[i].num_segments() == runs[0].num_segments() + i,
        is_next_search(&runs[i].before, length, runs[i].num_segments() as u8),
    decreases i,
{
    let run = runs[i];
    assert(run.is_run(length));
    if i == 0 {
        lemma_start_is_next_search(&run.before, length, run.num_segments() as u8);
    } else {
        let previous = runs[i - 1];
        lemma_runs(length, runs, i - 1);
        assert(previous.is_run(length));
        assert(previous.conclusion is None);
        assert(ranking::space_size(length as int, previous.num_segments()) <= u64::MAX);
        assert(run.before.solutions@[length] == previous.concluded.solutions@[length]);
        law_fruitless_run_leads_on(length, previous);
    }
}

/// A campaign finds minimal rulers: where the searches for a length came to their ends, starting
/// from its lower bound or from an honest record of an unfinished search, however often they were
/// interrupted and taken up again, and the last of them is the first to leave rulers, then the
/// length is completed on record with just that many segments, its rulers are exactly the complete
/// ones with that many segments that are least among their rotations and reflections, and no
/// complete ruler of the length has fewer segments. The conclusion says how many rulers there are,
/// with how many segments, and how long it took. The search spaces must be such that their ranks
/// can be held.
pub proof fn law_campaign_finds_minimal_rulers(length: u8, runs: Seq<SearchRun>)
    requires
        length >= 2,
        are_runs(length, runs),
        forall|i: int| 0 <= i < runs.len() - 1 ==> #[trigger] runs[i].conclusion is None,
        runs.last().conclusion is Some,
        forall|i: int|
            0 <= i < runs.len() ==> ranking::space_size(
                length as int,
                #[trigger] runs[i].num_segments(),
            ) <= u64::MAX,
    ensures
        ({
            let n = runs.last().num_segments();
            let entry = runs.last().concluded.solutions@[length];
            &&& runs.last().concluded.solutions@.contains_key(length)
            &&& entry.completed
            &&& entry.num_segments == n
            &&& entry.rulers@.len() > 0
            &&& entry.rulers_found == entry.rulers@.len()
            &&& entry.total_rulers_evaluated == ranking::space_size(length as int, n)
            &&& forall|r: Seq<u8>| #[trigger]
                range_search::contents(entry.rulers@).contains(r) <==> ruler::is_ruler(
                    r,
                    length as int,
                    n,
                ) && ruler::complete(r) && symmetry::lex_least(r)
            &&& forall|r: Seq<u8>, k: int|
                k < n && #[trigger] ruler::is_ruler(r, length as int, k) ==> !ruler::complete(r)
            &&& runs.last().conclusion matches Some(conclusion) && {
                &&& conclusion.found == entry.rulers@.len()
                &&& conclusion.num_segments == n
                &&& conclusion.clock_time == entry.total_clock_time
            }
            &&& runs.last().campaign_after.current() is None
        }),
{
    let last = runs.len() - 1;
    let run = runs[last];
    let n = run.num_segments();
    let entry = run.concluded.solutions@[length];
    assert(run.is_run(length));
    lemma_runs(length, runs, last);
    law_run_is_exhaustive(length, run, Seq::empty());
    assert(range_search::contents(entry.rulers@) == run.found());
    assert(entry.rulers@.len() == run.found().len());
    assert forall|r: Seq<u8>| #[trigger]
        range_search::contents(entry.rulers@).contains(r) <==> ruler::is_ruler(
            r,
            length as int,
            n,
        ) && ruler::complete(r) && symmetry::lex_least(r) by {
        law_run_is_exhaustive(length, run, r);
    }
}

/// One step of a campaign: what to search next is chosen, a search that came to its end is noted,
/// or a search works on the state, which forgets no completed length.
pub open spec fn is_step(
    before: &Campaign,
    state_before: &State,
    after: &Campaign,
    state: &State,
) -> bool {
    ||| state == state_before && exists|running: bool, res: Option<(u8, u8)>| #[trigger]
        after.has_chosen(before, state, running, res)
    ||| exists|res: Option<Conclusion>| #[trigger]
        after.has_noted(before, state_before, state, res)
    ||| after == before && state.forgets_nothing(state_before)
}

/// Whether these are the stages of a campaign from `start_length` to `end_length`, step by step.
pub open spec fn are_stages(
    start_length: u8,
    end_length: u8,
    campaigns: Seq<Campaign>,
    states: Seq<State>,
) -> bool {
    &&& campaigns.len() == states.len() > 0
    &&& campaigns[0].is_new(start_length, end_length)
    &&& forall|i: int, j: int|
        0 <= i && j == i + 1 && j < states.len() ==> #[trigger] is_step(
            &campaigns[i],
            &states[i],
            &campaigns[j],
            &states[j],
        )
}

/// A campaign leaves no gap, whatever happens on the way: at every stage all lengths from the first
/// one up to where it goes on are completed, but for the one that is searched.
pub proof fn law_every_stage_leaves_no_gap(
    start_length: u8,
    end_length: u8,
    campaigns: Seq<Campaign>,
    states: Seq<State>,
    i: int,
)
    requires
        are_stages(start_length, end_length, campaigns, states),
        0 <= i < states.len(),
    ensures
        campaigns[i].leaves_no_gap(&states[i]),
        campaigns[i].start_length() == start_length,
        campaigns[i].end_length() == end_length,
    decreases i,
{
    if i > 0 {
        let before = campaigns[i - 1];
        let then = states[i - 1];
        let after = campaigns[i];
        let state = states[i];
        law_every_stage_leaves_no_gap(start_length, end_length, campaigns, states, i - 1);
        assert(is_step(&before, &then, &after, &state));
        if state == then && exists|running: bool, res: Option<(u8, u8)>| #[trigger]
            after.has_chosen(&before, &state, running, res) {
            let (running, res) = choose|running: bool, res: Option<(u8, u8)>| #[trigger]
                after.has_chosen(&before, &state, running, res);
            law_choice_leaves_no_gap(&before, &after, &state, running, res);
        } else if exists|res: Option<Conclusion>| #[trigger]
            after.has_noted(&before, &then, &state, res) {
            let res = choose|res: Option<Conclusion>| #[trigger]
                after.has_noted(&before, &then, &state, res);
            law_note_leaves_no_gap(&before, &after, &then, &state, res);
        } else {
            assert forall|k: u8|
                after.start_length() <= k < after.next_length() && !(after.current() matches Some(
                    (length, _),
                ) && length == k) implies #[trigger] state.solutions@.contains_key(k)
                && state.solutions@[k].completed by {
                assert(then.solutions@.contains_key(k));
            }
        }
    }
}

/// A campaign that comes to its end has completed every length from its first to its last: where it
/// is not interrupted and there is nothing more to search, none is missing.
pub proof fn law_campaign_completes_every_length(
    start_length: u8,
    end_length: u8,
    campaigns: Seq<Campaign>,
    states: Seq<State>,
    last: &Campaign,
    length: u8,
)
    requires
        are_stages(start_length, end_length, campaigns, states),
        last.has_chosen(&campaigns.last(), &states.last(), true, None),
        start_length <= length <= end_length,
    ensures
        states.last().solutions@.contains_key(length),
        states.last().solutions@[length].completed,
{
    let i = states.len() - 1;
    law_every_stage_leaves_no_gap(start_length, end_length, campaigns, states, i);
    law_choice_leaves_no_gap(&campaigns[i], last, &states[i], true, None);
}

/// What is chosen next lies inside the run, behind what was chosen before, and is not completed.
/// While a search is under way, it is what is chosen, and nothing is chosen once the campaign is
/// interrupted.
pub proof fn law_choice_moves_on(
    before: &Campaign,
    after: &Campaign,
    state: &State,
    running: bool,
    length: u8,
    num_segments: u8,
)
    requires
        after.has_chosen(before, state, running, Some((length, num_segments))),
    ensures
        running,
        after.current() == Some((length, num_segments)),
        before.current() is Some ==> before.current() == Some((length, num_segments)),
        before.current() is None ==> {
            &&& before.next_length() <= length <= before.end_length()
            &&& after.next_length() > length
            &&& !(state.solutions@.contains_key(length) && state.solutions@[length].completed)
        },
{
}

/// The functions that work on a state in the course of a search forget no completed length.
pub proof fn law_searches_forget_nothing(
    before: &State,
    after: &State,
    length: u8,
    num_segments: u8,
    evaluated: u64,
    rulers: Seq<Seq<u8>>,
    timing: &SearchTiming,
)
    requires
        after.has_prepared(before, length, num_segments) || (before.solutions@.contains_key(length)
            && after.has_recorded(before, length, evaluated, rulers, timing))
            || after.knows_unit_ruler(before),
    ensures
        after.forgets_nothing(before),
{
    let touched: u8 = if after.has_prepared(before, length, num_segments) || (
    before.solutions@.contains_key(length) && after.has_recorded(
        before,
        length,
        evaluated,
        rulers,
        timing,
    )) {
        length
    } else {
        1
    };
    assert forall|i: u8| #[trigger]
        before.solutions@.contains_key(i)
            && before.solutions@[i].completed implies after.solutions@.contains_key(i)
        && after.solutions@[i].completed by {
        if i != touched {
            assert(before.solutions@.remove(touched).contains_key(i));
            assert(after.solutions@.remove(touched)[i] == before.solutions@.remove(touched)[i]);
        }
    }
}

/// The one ruler of length 1, which is known without a search, is complete, and there is no other.
pub proof fn law_unit_ruler_is_minimal(state: &State, before: &State, r: Seq<u8>, k: int)
    requires
        state.knows_unit_ruler(before),
    ensures
        state.has_completed(1),
        range_search::contents(state.solutions@[1].rulers@) == seq![seq![1u8]],
        state.solutions@[1].rulers_found == 1,
        state.solutions@[1].total_rulers_evaluated == 1,
        ruler::is_ruler(seq![1u8], 1, 1),
        ruler::complete(seq![1u8]),
        ruler::is_ruler(r, 1, k) ==> r == seq![1u8] && k == 1,
{
    let unit = seq![1u8];
    assert(ruler::mark(unit, 1) == ruler::mark(unit, 0) + unit[0]);
    if ruler::is_ruler(r, 1, k) {
        ruler::lemma_mark_grows(r, 0, k);
        assert(ruler::mark(r, 1) == ruler::mark(r, 0) + r[0]);
        assert(r =~= unit);
    }
}

} // verus!
