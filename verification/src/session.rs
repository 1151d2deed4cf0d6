//! The search for all rulers of one length and number of segments: chunk by chunk, on many
//! threads or on the GPU, with a mark below which the space has been searched.
use rayon::iter::{IntoParallelIterator, ParallelIterator};
use vstd::prelude::*;

use crate::clock::ClockTime;
use crate::combinatorics;
use crate::laws;
use crate::lower_bound;
use crate::range_search;
use crate::range_search::{search_range, RangeContext};
use crate::ranking;
use crate::ranking::calculate_total_space;
use crate::state;
use crate::state::{Figures, SearchStatus, Solution, State};

verus! {

broadcast use vstd::std_specs::hash::group_hash_axioms;

/// Ranks that are searched at a time.
pub const CHUNK_SIZE: u64 = 100_000_000;

/// Chunks that each thread gets of a batch.
pub const CHUNKS_PER_THREAD: u64 = 4;

/// Seconds between two checkpoints.
pub const CHECKPOINT_SECS: u64 = 10;

/// Where the chunk that starts at `start` ends.
pub open spec fn chunk_end(start: int, total_space: int) -> int {
    if start + CHUNK_SIZE <= total_space {
        start + CHUNK_SIZE
    } else {
        total_space
    }
}

/// Where a batch for so many threads ends.
pub open spec fn batch_end(current_rank: int, total_space: int, num_threads: int) -> int {
    let end = current_rank + num_threads * CHUNKS_PER_THREAD * CHUNK_SIZE;
    if end <= total_space {
        end
    } else {
        total_space
    }
}

/// What the searches of some chunks report: rulers, evaluations, and whether the chunk was
/// searched to its end.
pub type ChunkResult = (Vec<Vec<u8>>, u64, bool);

/// The rulers of the first `count` results, one after the other.
pub open spec fn gathered(results: Seq<ChunkResult>, count: int) -> Seq<Seq<u8>>
    decreases count,
{
    if count <= 0 {
        Seq::empty()
    } else {
        gathered(results, count - 1) + range_search::contents(results[count - 1].0@)
    }
}

/// The evaluations of the first `count` results.
pub open spec fn evaluated_in(results: Seq<ChunkResult>, count: int) -> nat
    decreases count,
{
    if count <= 0 {
        0
    } else {
        evaluated_in(results, count - 1) + results[count - 1].1 as nat
    }
}

/// Whether result `m` is the first of a chunk that was not searched to its end.
pub open spec fn first_incomplete(results: Seq<ChunkResult>, m: int) -> bool {
    &&& 0 <= m < results.len()
    &&& !results[m].2
    &&& forall|i: int| 0 <= i < m ==> #[trigger] results[i].2
}

/// Takes over the rulers of a batch up to and including the first chunk that was interrupted.
/// Returns the rank up to which everything has been searched, and whether that is the whole
/// batch.
pub fn process_search_results(
    found_rulers: &mut Vec<Vec<u8>>,
    results: Vec<ChunkResult>,
    current_rank: u64,
    batch_end: u64,
    chunk_size: u64,
) -> (res: (u64, bool))
    requires
        results@.len() > 0 ==> current_rank + (results@.len() - 1) * chunk_size <= u64::MAX,
    ensures
        res.1 == (forall|i: int| 0 <= i < results@.len() ==> #[trigger] results@[i].2),
        res.1 ==> {
            &&& res.0 == batch_end
            &&& range_search::contents(final(found_rulers)@) == range_search::contents(
                old(found_rulers)@,
            ) + gathered(results@, results@.len() as int)
        },
        !res.1 ==> exists|m: int|
            {
                &&& #[trigger] first_incomplete(results@, m)
                &&& res.0 == current_rank + m * chunk_size
                &&& range_search::contents(final(found_rulers)@) == range_search::contents(
                    old(found_rulers)@,
                ) + gathered(results@, m + 1)
            },
{
    let ghost before = range_search::contents(found_rulers@);
    let ghost given = results@;
    assert(before =~= before + gathered(given, 0));
    let count: usize = results.len();
    let mut index: u64 = 0;
    for result in it: results
        invariant
            it.seq() == given,
            given == results@,
            given.len() == count,
            before == range_search::contents(old(found_rulers)@),
            index == it.index(),
            given.len() > 0 ==> current_rank + (given.len() - 1) * chunk_size <= u64::MAX,
            forall|i: int| 0 <= i < index ==> #[trigger] given[i].2,
            range_search::contents(found_rulers@) == before + gathered(given, index as int),
    {
        let (mut chunk_found, _, completed) = result;
        let ghost added = chunk_found@;
        let ghost had = found_rulers@;
        found_rulers.append(&mut chunk_found);
        proof {
            assert(given[index as int].0@ == added);
            assert(range_search::contents(found_rulers@) =~= range_search::contents(had)
                + range_search::contents(added));
            assert(range_search::contents(found_rulers@) =~= before + gathered(given, index + 1));
        }
        if !completed {
            proof {
                assert(first_incomplete(given, index as int));
                assert(index * chunk_size <= (given.len() - 1) * chunk_size) by (nonlinear_arith)
                    requires
                        index <= given.len() - 1,
                        chunk_size >= 0,
                ;
            }
            return (current_rank + index * chunk_size, false);
        }
        index = index + 1;
    }
    (batch_end, true)
}

/// Evaluations add up.
proof fn lemma_evaluated_grows(results: Seq<ChunkResult>, i: int, j: int)
    requires
        i <= j,
    ensures
        evaluated_in(results, i) <= evaluated_in(results, j),
    decreases j,
{
    if i < j && j > 0 {
        lemma_evaluated_grows(results, i, j - 1);
    }
}

/// The evaluations of all results.
pub fn total_evaluations(results: &Vec<ChunkResult>) -> (res: u64)
    requires
        evaluated_in(results@, results@.len() as int) <= u64::MAX,
    ensures
        res == evaluated_in(results@, results@.len() as int),
{
    let mut total: u64 = 0;
    let mut i: usize = 0;
    while i < results.len()
        invariant
            i <= results@.len(),
            evaluated_in(results@, results@.len() as int) <= u64::MAX,
            total == evaluated_in(results@, i as int),
        decreases results@.len() - i,
    {
        proof {
            lemma_evaluated_grows(results@, i + 1, results@.len() as int);
        }
        total = total + results[i].1;
        i = i + 1;
    }
    total
}

/// The starts of the chunks of `current_rank..batch_end`.
fn chunk_starts(current_rank: u64, batch_end: u64) -> (starts: Vec<u64>)
    requires
        current_rank <= batch_end,
    ensures
        forall|i: int|
            0 <= i < starts@.len() ==> #[trigger] starts@[i] == current_rank + i * CHUNK_SIZE
                && starts@[i] < batch_end,
        current_rank + starts@.len() * CHUNK_SIZE >= batch_end,
{
    let mut starts: Vec<u64> = Vec::new();
    let mut start: u64 = current_rank;
    let mut more: bool = start < batch_end;
    while more
        invariant
            current_rank <= batch_end,
            more ==> start == current_rank + starts@.len() * CHUNK_SIZE && start < batch_end,
            !more ==> current_rank + starts@.len() * CHUNK_SIZE >= batch_end,
            forall|i: int|
                0 <= i < starts@.len() ==> #[trigger] starts@[i] == current_rank + i * CHUNK_SIZE
                    && starts@[i] < batch_end,
        decreases (if more { batch_end - start } else { 0 }), (if more { 1int } else { 0 }),
    {
        starts.push(start);
        if batch_end - start > CHUNK_SIZE {
            start = start + CHUNK_SIZE;
        } else {
            more = false;
        }
    }
    starts
}

/// Whether a result is one that the search of the chunk that starts at `start` may report.
pub open spec fn chunk_outcome(
    length: int,
    num_segments: int,
    start: int,
    total_space: int,
    result: ChunkResult,
) -> bool {
    range_search::range_outcome(
        length,
        num_segments,
        start,
        chunk_end(start, total_space),
        range_search::contents(result.0@),
        result.1 as int,
        result.2,
    )
}

/// Searches the chunk that starts at `start`.
fn search_chunk(ctx: &RangeContext, start: u64, total_space: u64) -> (res: ChunkResult)
    requires
        start < total_space,
        total_space <= ranking::space_size(ctx.length as int, ctx.num_segments as int),
    ensures
        chunk_outcome(
            ctx.length as int,
            ctx.num_segments as int,
            start as int,
            total_space as int,
            res,
        ),
        !res.2 ==> range_search::may_read(ctx.interrupt, false),
        res.2 ==> range_search::may_read(ctx.interrupt, true),
        call_ensures(
            search_range,
            (ctx, start, chunk_end(start as int, total_space as int) as u64),
            res,
        ),
{
    let end: u64 = if total_space - start >= CHUNK_SIZE {
        start + CHUNK_SIZE
    } else {
        total_space
    };
    search_range(ctx, start, end)
}

/// Searches chunks on many threads, by `rayon`'s `into_par_iter`, `map` and `collect`. Each chunk
/// is given to [`search_chunk`], and the results come back in the order of the chunks: each is what
/// a call of that function returned for its chunk.
#[verifier::external_body]
fn search_chunks(ctx: &RangeContext, starts: Vec<u64>, total_space: u64) -> (res: Vec<ChunkResult>)
    requires
        forall|i: int| 0 <= i < starts@.len() ==> #[trigger] starts@[i] < total_space,
        total_space <= ranking::space_size(ctx.length as int, ctx.num_segments as int),
    ensures
        res@.len() == starts@.len(),
        forall|i: int|
            0 <= i < starts@.len() ==> chunk_outcome(
                ctx.length as int,
                ctx.num_segments as int,
                starts@[i] as int,
                total_space as int,
                #[trigger] res@[i],
            ),
        forall|i: int|
            0 <= i < starts@.len() ==> call_ensures(
                search_chunk,
                (ctx, starts@[i], total_space),
                #[trigger] res@[i],
            ),
{
    starts.into_par_iter().map(|start| search_chunk(ctx, start, total_space)).collect()
}

/// The number of threads that share the work, by `rayon::current_num_threads`. It is that of the
/// current thread pool, which has at least one thread and at most 65535.
#[verifier::external_body]
fn current_num_threads() -> (res: usize)
    ensures
        1 <= res <= 65535,
{
    rayon::current_num_threads()
}

/// Whether so many threads may share the work.
pub closed spec fn is_thread_count(num_threads: int) -> bool {
    exists|count: usize| count == num_threads && #[trigger]
        call_ensures(current_num_threads, (), count)
}

/// A search for all rulers of one length and number of segments.
pub struct SearchSession {
    pub length: u8,
    pub num_segments: u8,
    pub total_space: u64,
    pub start_rank: u64,
    pub current_rank: u64,
    pub evaluated: u64,
    pub found_rulers: Vec<Vec<u8>>,
    pub base_clock_time: ClockTime,
    pub base_cpu_time: ClockTime,
    pub status: SearchStatus,
}

impl SearchSession {
    /// The size of the search space is that of the length and number of segments. A search that has
    /// not been interrupted counts one evaluation for each rank below its mark.
    pub open spec fn wf(&self) -> bool {
        &&& self.total_space == combinatorics::capped(
            ranking::space_size(self.length as int, self.num_segments as int),
            u64::MAX as nat,
        )
        &&& self.status == SearchStatus::Finished ==> self.evaluated == self.current_rank
    }

    /// The rulers found so far.
    pub open spec fn found(&self) -> Seq<Seq<u8>> {
        range_search::contents(self.found_rulers@)
    }

    /// The solutions with ranks from `from` up to, not including, `to`.
    pub open spec fn solutions(&self, from: int, to: int) -> Seq<Seq<u8>> {
        range_search::solutions_between(self.length as int, self.num_segments as int, from, to)
    }

    /// Whether only the progress of the search is not as before.
    pub open spec fn same_search(&self, before: &SearchSession) -> bool {
        &&& self.length == before.length
        &&& self.num_segments == before.num_segments
        &&& self.total_space == before.total_space
        &&& self.start_rank == before.start_rank
        &&& self.base_clock_time == before.base_clock_time
        &&& self.base_cpu_time == before.base_cpu_time
    }

    /// Whether there is more to search, and the search may go on.
    pub open spec fn can_go_on(&self) -> bool {
        self.status == SearchStatus::Finished && self.current_rank < self.total_space
    }

    /// Whether every solution below the mark has been found, in this search or in those that it
    /// resumes.
    pub open spec fn misses_nothing(&self) -> bool {
        forall|r: Seq<u8>| #[trigger]
            self.solutions(0, self.current_rank as int).contains(r) ==> self.found().contains(r)
    }

    /// Whether nothing but solutions has been found, in this search or in those that it resumes.
    pub open spec fn holds_only_solutions(&self) -> bool {
        forall|r: Seq<u8>| #[trigger]
            self.found().contains(r) ==> self.solutions(0, self.total_space as int).contains(r)
    }

    /// Whether nothing has been searched or found yet.
    pub open spec fn is_fresh(&self) -> bool {
        &&& self.wf()
        &&& self.current_rank == 0
        &&& self.found() == Seq::<Seq<u8>>::empty()
    }

    /// Whether the search has missed nothing below its mark and holds only solutions.
    pub open spec fn is_honest(&self) -> bool {
        &&& self.wf()
        &&& self.current_rank <= self.total_space
        &&& self.misses_nothing()
        &&& self.holds_only_solutions()
    }

    /// Whether the search was stopped before its next step.
    pub open spec fn was_stopped(&self, before: &SearchSession) -> bool {
        &&& before.can_go_on()
        &&& self.same_search(before)
        &&& self.current_rank == before.current_rank
        &&& self.evaluated == before.evaluated
        &&& self.found_rulers == before.found_rulers
        &&& self.status == SearchStatus::Interrupted
    }

    /// Whether this search begins with what an interrupted one left on record: its rulers, and a
    /// checkpoint at its mark.
    pub open spec fn goes_on_from(&self, stopped: &SearchSession, recorded: Solution) -> bool {
        &&& stopped.status == SearchStatus::Interrupted
        &&& stopped.current_rank < stopped.total_space
        &&& !state::abandons(recorded, stopped.num_segments)
        &&& range_search::contents(recorded.rulers@) == stopped.found()
        &&& recorded.checkpoint_ruler matches Some(r) && r@ == ranking::unranked(
            stopped.length as int,
            stopped.num_segments as int,
            stopped.current_rank as int,
        )
        &&& self.wf()
        &&& self.status == SearchStatus::Finished
        &&& self.length == stopped.length
        &&& self.num_segments == stopped.num_segments
        &&& self.start_rank == state::resume_rank(recorded, stopped.length, stopped.num_segments)
        &&& self.current_rank == self.start_rank
        &&& self.found_rulers@ == recorded.rulers@
    }

    /// Whether the GPU found nothing but solutions in the next chunk, and all of them where it
    /// completed the chunk.
    pub open spec fn chunk_brings(&self, found: Seq<Seq<u8>>, completed: bool) -> bool {
        let all = self.solutions(
            self.current_rank as int,
            chunk_end(self.current_rank as int, self.total_space as int),
        );
        &&& forall|r: Seq<u8>| #[trigger] found.contains(r) ==> all.contains(r)
        &&& completed ==> found == all
    }

    /// Whether this is where a search stands one step after `before`: after a batch, a chunk of a
    /// truthful GPU, an interruption, or as an interrupted search that is taken up again.
    pub open spec fn follows(&self, before: &SearchSession) -> bool {
        ||| before.can_go_on() && exists|num_threads: int|
            num_threads >= 1 && #[trigger] self.has_searched_batch(before, num_threads)
        ||| before.can_go_on() && exists|found: Seq<Seq<u8>>, evaluations: int, completed: bool|
            {
                &&& #[trigger] self.has_absorbed_chunk(before, found, evaluations, completed)
                &&& before.chunk_can_count(evaluations, completed)
                &&& before.chunk_brings(found, completed)
            }
        ||| self.was_stopped(before)
        ||| exists|recorded: Solution| #[trigger] self.goes_on_from(before, recorded)
    }

    /// Decides whether the search goes on. Where there is more to search but `running` is not
    /// set, the search is interrupted.
    pub fn goes_on(&mut self, running: bool) -> (res: bool)
        ensures
            res == (old(self).can_go_on() && running),
            old(self).can_go_on() && !running ==> final(self).was_stopped(old(self)),
            final(self).same_search(old(self)),
            old(self).wf() ==> final(self).wf(),
            final(self).current_rank == old(self).current_rank,
            final(self).evaluated == old(self).evaluated,
            final(self).found_rulers == old(self).found_rulers,
            final(self).status == if old(self).can_go_on() && !running {
                SearchStatus::Interrupted
            } else {
                old(self).status
            },
    {
        if self.status == SearchStatus::Interrupted || self.current_rank >= self.total_space {
            return false;
        }
        if !running {
            self.status = SearchStatus::Interrupted;
            return false;
        }
        true
    }

    /// Searches the next batch of chunks on the threads of the current thread pool.
    pub fn search_batch(&mut self, ctx: &RangeContext)
        requires
            old(self).wf(),
            old(self).can_go_on(),
            ctx.length == old(self).length,
            ctx.num_segments == old(self).num_segments,
        ensures
            final(self).wf(),
            final(self).status == SearchStatus::Interrupted ==> range_search::may_read(
                ctx.interrupt,
                false,
            ),
            final(self).status == SearchStatus::Finished ==> range_search::may_read(
                ctx.interrupt,
                true,
            ),
            exists|num_threads: int|
                1 <= num_threads <= 65535 && #[trigger] final(self).has_searched_batch(
                    old(self),
                    num_threads,
                ) && is_thread_count(num_threads),
    {
        let num_threads: usize = current_num_threads();
        self.search_batch_on(ctx, num_threads as u64);
    }

    /// Whether the results are those of the chunks of the next batch for so many threads, and have
    /// been taken over: the evaluations of all of them are counted, and the rulers have been added
    /// up to and including the first chunk that was not searched to its end. Such a chunk
    /// interrupts the search, and the mark stands at its start.
    pub open spec fn has_taken_over(
        &self,
        before: &SearchSession,
        num_threads: int,
        results: Seq<ChunkResult>,
    ) -> bool {
        let start = before.current_rank as int;
        let end = batch_end(start, before.total_space as int, num_threads);
        let count = results.len() as int;
        &&& start + (count - 1) * CHUNK_SIZE < end <= start + count * CHUNK_SIZE
        &&& forall|i: int|
            0 <= i < count ==> chunk_outcome(
                before.length as int,
                before.num_segments as int,
                start + i * CHUNK_SIZE,
                before.total_space as int,
                #[trigger] results[i],
            )
        &&& self.evaluated == before.evaluated + evaluated_in(results, count)
        &&& match self.status {
            SearchStatus::Finished => {
                &&& forall|i: int| 0 <= i < count ==> #[trigger] results[i].2
                &&& self.current_rank == end
                &&& self.found() == before.found() + gathered(results, count)
            },
            SearchStatus::Interrupted => exists|m: int|
                {
                    &&& #[trigger] first_incomplete(results, m)
                    &&& self.current_rank == start + m * CHUNK_SIZE
                    &&& self.found() == before.found() + gathered(results, m + 1)
                },
        }
    }

    /// Whether the next batch for so many threads has been searched. Where no chunk was
    /// interrupted, all solutions of the batch have been added and all its ranks counted. Otherwise
    /// the mark stands at the first chunk that was, solutions have been added up to some rank
    /// inside that chunk, and what was evaluated in all chunks is counted.
    pub open spec fn has_searched_batch(&self, before: &SearchSession, num_threads: int) -> bool {
        let end = batch_end(before.current_rank as int, before.total_space as int, num_threads);
        &&& self.same_search(before)
        &&& exists|results: Seq<ChunkResult>| #[trigger]
            self.has_taken_over(before, num_threads, results)
        &&& match self.status {
            SearchStatus::Finished => {
                &&& self.current_rank == end
                &&& self.evaluated == before.evaluated + (end - before.current_rank)
                &&& self.found() == before.found() + before.solutions(
                    before.current_rank as int,
                    end,
                )
            },
            SearchStatus::Interrupted => {
                &&& before.current_rank <= self.current_rank < end
                &&& before.evaluated <= self.evaluated < before.evaluated + (end
                    - before.current_rank)
                &&& (self.current_rank - before.current_rank) % (CHUNK_SIZE as int) == 0
                &&& exists|reached: int|
                    {
                        &&& self.current_rank <= reached < chunk_end(
                            self.current_rank as int,
                            before.total_space as int,
                        )
                        &&& self.found() == before.found() + #[trigger] before.solutions(
                            before.current_rank as int,
                            reached,
                        )
                    }
            },
        }
    }

    /// Searches the next batch of chunks, as many as `num_threads` threads get.
    pub fn search_batch_on(&mut self, ctx: &RangeContext, num_threads: u64)
        requires
            old(self).wf(),
            old(self).can_go_on(),
            ctx.length == old(self).length,
            ctx.num_segments == old(self).num_segments,
            num_threads >= 1,
        ensures
            final(self).wf(),
            final(self).has_searched_batch(old(self), num_threads as int),
            final(self).status == SearchStatus::Interrupted ==> range_search::may_read(
                ctx.interrupt,
                false,
            ),
            final(self).status == SearchStatus::Finished ==> range_search::may_read(
                ctx.interrupt,
                true,
            ),
    {
        let current: u64 = self.current_rank;
        let total: u64 = self.total_space;
        let wide_end: u128 = current as u128 + num_threads as u128 * 400_000_000u128;
        let end: u64 = if wide_end <= total as u128 {
            wide_end as u64
        } else {
            total
        };
        let ghost length = self.length as int;
        let ghost n = self.num_segments as int;
        let ghost before = self.found();
        assert(end == batch_end(current as int, total as int, num_threads as int));
        let starts: Vec<u64> = chunk_starts(current, end);
        let ghost given = starts@;
        let results: Vec<ChunkResult> = search_chunks(ctx, starts, total);
        let ghost outcomes = results@;
        proof {
            assert(given.len() > 0);
            assert(given[given.len() - 1] == current + (given.len() - 1) * CHUNK_SIZE);
            lemma_batch_counted(
                length,
                n,
                current as int,
                end as int,
                total as int,
                num_threads as int,
                given,
                outcomes,
                outcomes.len() as int,
            );
        }
        self.evaluated = self.evaluated + total_evaluations(&results);
        let (mark, completed) = process_search_results(
            &mut self.found_rulers,
            results,
            current,
            end,
            CHUNK_SIZE,
        );
        self.current_rank = mark;
        proof {
            if completed {
                assert(outcomes[0].2);
                assert(call_ensures(search_chunk, (ctx, given[0], total), outcomes[0]));
                lemma_batch_gathered(
                    length,
                    n,
                    current as int,
                    end as int,
                    total as int,
                    num_threads as int,
                    given,
                    outcomes,
                    outcomes.len() as int,
                );
            } else {
                let m = choose|m: int|
                    {
                        &&& #[trigger] first_incomplete(outcomes, m)
                        &&& mark == current + m * CHUNK_SIZE
                        &&& self.found() == before + gathered(outcomes, m + 1)
                    };
                lemma_batch_gathered(
                    length,
                    n,
                    current as int,
                    end as int,
                    total as int,
                    num_threads as int,
                    given,
                    outcomes,
                    m,
                );
                let reached = mark + outcomes[m].1;
                assert(given[m] == mark);
                assert(call_ensures(search_chunk, (ctx, given[m], total), outcomes[m]));
                assert(chunk_outcome(length, n, given[m] as int, total as int, outcomes[m]));
                laws::law_ranges_concatenate(length, n, current as int, mark as int, reached);
                assert(self.found() =~= before + old(self).solutions(current as int, reached));
                assert((mark - current) % (CHUNK_SIZE as int) == 0) by (nonlinear_arith)
                    requires
                        mark - current == m * CHUNK_SIZE,
                        CHUNK_SIZE == 100_000_000,
                ;
            }
        }
        if !completed {
            self.status = SearchStatus::Interrupted;
        }
        proof {
            assert forall|i: int| 0 <= i < outcomes.len() implies chunk_outcome(
                length,
                n,
                current + i * CHUNK_SIZE,
                total as int,
                #[trigger] outcomes[i],
            ) by {
                assert(given[i] == current + i * CHUNK_SIZE);
            }
            assert(self.has_taken_over(old(self), num_threads as int, outcomes));
        }
    }

    /// Where the next chunk for the GPU ends.
    pub fn gpu_chunk_end(&self) -> (res: u64)
        requires
            self.can_go_on(),
        ensures
            res == chunk_end(self.current_rank as int, self.total_space as int),
    {
        if self.total_space - self.current_rank >= CHUNK_SIZE {
            self.current_rank + CHUNK_SIZE
        } else {
            self.total_space
        }
    }

    /// Whether so many evaluations can come of the next chunk: no more than it has ranks, and where
    /// it is completed one for each of them.
    pub open spec fn chunk_can_count(&self, evaluations: int, completed: bool) -> bool {
        let ranks = chunk_end(self.current_rank as int, self.total_space as int)
            - self.current_rank;
        0 <= evaluations <= ranks && (completed ==> evaluations == ranks)
    }

    /// Whether the next chunk has been taken over with the rulers that the GPU found in it. A chunk
    /// that was completed moves the mark to its end. One that was not interrupts the search and
    /// leaves the mark at its start, so that the whole chunk is searched again.
    pub open spec fn has_absorbed_chunk(
        &self,
        before: &SearchSession,
        found: Seq<Seq<u8>>,
        evaluations: int,
        completed: bool,
    ) -> bool {
        &&& self.same_search(before)
        &&& self.evaluated == before.evaluated + evaluations
        &&& self.current_rank == if completed {
            chunk_end(before.current_rank as int, before.total_space as int)
        } else {
            before.current_rank as int
        }
        &&& self.found() == before.found() + found
        &&& self.status == if completed {
            SearchStatus::Finished
        } else {
            SearchStatus::Interrupted
        }
    }

    /// Takes over what the GPU found in the next chunk, how many of its ranks were searched, and
    /// whether the chunk was completed, which takes all its ranks.
    pub fn absorb_gpu_chunk(&mut self, found: Vec<Vec<u8>>, evaluations: u64, completed: bool)
        requires
            old(self).wf(),
            old(self).can_go_on(),
            old(self).chunk_can_count(evaluations as int, completed),
        ensures
            final(self).wf(),
            final(self).has_absorbed_chunk(
                old(self),
                range_search::contents(found@),
                evaluations as int,
                completed,
            ),
    {
        let end: u64 = self.gpu_chunk_end();
        self.evaluated = self.evaluated + evaluations;
        let mut chunk_found: Vec<Vec<u8>> = found;
        self.found_rulers.append(&mut chunk_found);
        assert(self.found() =~= old(self).found() + range_search::contents(found@));
        if completed {
            self.current_rank = end;
        } else {
            self.status = SearchStatus::Interrupted;
        }
    }
}

/// Results of chunks that were searched to their ends are the solutions of those chunks.
proof fn lemma_batch_gathered(
    length: int,
    num_segments: int,
    current: int,
    end: int,
    total: int,
    num_threads: int,
    starts: Seq<u64>,
    results: Seq<ChunkResult>,
    count: int,
)
    requires
        0 <= current < end <= total,
        end == batch_end(current, total, num_threads),
        results.len() == starts.len(),
        0 <= count <= results.len(),
        forall|i: int|
            0 <= i < starts.len() ==> #[trigger] starts[i] == current + i * CHUNK_SIZE && starts[i]
                < end,
        current + starts.len() * CHUNK_SIZE >= end,
        forall|i: int|
            0 <= i < starts.len() ==> chunk_outcome(
                length,
                num_segments,
                starts[i] as int,
                total,
                #[trigger] results[i],
            ),
        forall|i: int| 0 <= i < count ==> #[trigger] results[i].2,
    ensures
        gathered(results, count) == range_search::solutions_between(
            length,
            num_segments,
            current,
            if count < results.len() { current + count * CHUNK_SIZE } else { end },
        ),
    decreases count,
{
    if count > 0 {
        let i = count - 1;
        lemma_batch_gathered(
            length,
            num_segments,
            current,
            end,
            total,
            num_threads,
            starts,
            results,
            i,
        );
        let start = starts[i] as int;
        assert(chunk_outcome(length, num_segments, starts[i] as int, total, results[i]));
        assert(results[i].2);
        let stop = if count < results.len() { current + count * CHUNK_SIZE } else { end };
        if count < results.len() {
            assert(starts[count] == current + count * CHUNK_SIZE);
        }
        assert(stop == chunk_end(start, total)) by {
            if count == results.len() {
                lemma_batch_is_whole_chunks(current, end, total, num_threads, count);
            }
        }
        laws::law_ranges_concatenate(length, num_segments, current, start, stop);
    }
}

/// The chunks of a batch count no more evaluations than they have ranks, and just as many where
/// they were all searched to their ends.
proof fn lemma_batch_counted(
    length: int,
    num_segments: int,
    current: int,
    end: int,
    total: int,
    num_threads: int,
    starts: Seq<u64>,
    results: Seq<ChunkResult>,
    count: int,
)
    requires
        0 <= current < end <= total,
        end == batch_end(current, total, num_threads),
        results.len() == starts.len(),
        0 <= count <= results.len(),
        forall|i: int|
            0 <= i < starts.len() ==> #[trigger] starts[i] == current + i * CHUNK_SIZE && starts[i]
                < end,
        current + starts.len() * CHUNK_SIZE >= end,
        forall|i: int|
            0 <= i < starts.len() ==> chunk_outcome(
                length,
                num_segments,
                starts[i] as int,
                total,
                #[trigger] results[i],
            ),
    ensures
        ({
            let ranks = if count < results.len() {
                count * CHUNK_SIZE
            } else {
                end - current
            };
            &&& evaluated_in(results, count) <= ranks
            &&& evaluated_in(results, count) == ranks <==> forall|i: int|
                0 <= i < count ==> #[trigger] results[i].2
        }),
    decreases count,
{
    if count > 0 {
        let i = count - 1;
        lemma_batch_counted(
            length,
            num_segments,
            current,
            end,
            total,
            num_threads,
            starts,
            results,
            i,
        );
        let start = starts[i] as int;
        assert(chunk_outcome(length, num_segments, starts[i] as int, total, results[i]));
        let stop = if count < results.len() { current + count * CHUNK_SIZE } else { end };
        if count < results.len() {
            assert(starts[count] == current + count * CHUNK_SIZE);
        }
        assert(stop == chunk_end(start, total)) by {
            if count == results.len() {
                lemma_batch_is_whole_chunks(current, end, total, num_threads, count);
            }
        }
    }
}

/// A batch ends where its last chunk ends.
proof fn lemma_batch_is_whole_chunks(
    current: int,
    end: int,
    total: int,
    num_threads: int,
    count: int,
)
    requires
        end == batch_end(current, total, num_threads),
        current + (count - 1) * CHUNK_SIZE < end,
        current + count * CHUNK_SIZE >= end,
    ensures
        end == chunk_end(current + (count - 1) * CHUNK_SIZE, total),
{
    let chunks = num_threads * CHUNKS_PER_THREAD;
    assert(num_threads * CHUNKS_PER_THREAD * CHUNK_SIZE == chunks * CHUNK_SIZE);
    if end != total {
        assert(count == chunks) by (nonlinear_arith)
            requires
                end == current + chunks * 100_000_000,
                current + (count - 1) * 100_000_000 < end,
                current + count * 100_000_000 >= end,
        ;
    }
}

impl State {
    /// Starts the search for all rulers of `length` with `num_segments` segments, where the last
    /// one left off. The ruler of length 1 with one segment is known without a search.
    pub fn begin_search(&mut self, length: u8, num_segments: u8) -> (res: Option<SearchSession>)
        requires
            old(self).can_begin(length, num_segments),
        ensures
            res is None <==> length == 1 && num_segments == 1,
            res is None ==> final(self).knows_unit_ruler(old(self)),
            res matches Some(session) ==> final(self).has_begun(
                old(self),
                length,
                num_segments,
                &session,
            ),
    {
        if length == 1 && num_segments == 1 {
            self.record_unit_ruler();
            return None;
        }
        let (start_rank, found_rulers, base_clock_time, base_cpu_time) = self.initialize_solution(
            length,
            num_segments,
        );
        let total_space: u64 = calculate_total_space(length, num_segments);
        Some(
            SearchSession {
                length,
                num_segments,
                total_space,
                start_rank,
                current_rank: start_rank,
                evaluated: start_rank,
                found_rulers,
                base_clock_time,
                base_cpu_time,
                status: SearchStatus::Finished,
            },
        )
    }

    /// Whether a search has begun where the last one for the same number of segments left off, or
    /// from scratch.
    pub open spec fn has_begun(
        &self,
        before: &State,
        length: u8,
        num_segments: u8,
        session: &SearchSession,
    ) -> bool {
        &&& self.has_prepared(before, length, num_segments)
        &&& session.wf()
        &&& session.length == length
        &&& session.num_segments == num_segments
        &&& session.status == SearchStatus::Finished
        &&& session.current_rank == session.start_rank
        &&& session.evaluated == session.start_rank
        &&& session.base_clock_time == self.solutions@[length].total_clock_time
        &&& session.base_cpu_time == self.solutions@[length].total_cpu_time
        &&& if before.solutions@.contains_key(length) {
            let known = before.solutions@[length];
            &&& session.start_rank == state::resume_rank(known, length, num_segments)
            &&& session.found_rulers@ == known.rulers@
        } else {
            &&& session.start_rank == 0
            &&& session.found_rulers@.len() == 0
        }
    }

    /// Whether length 1 is completed with its one ruler, and what else was known of it is kept.
    pub open spec fn knows_unit_ruler(&self, before: &State) -> bool {
        let now = self.solutions@[1];
        let then = before.solutions@[1];
        &&& self.same_but_for(before, 1)
        &&& self.totals() == self.sum_of_solutions()
        &&& now.completed
        &&& range_search::contents(now.rulers@) == seq![seq![1u8]]
        &&& now.rulers_found == 1
        &&& now.total_rulers_evaluated == 1
        &&& before.solutions@.contains_key(1) ==> {
            &&& now.lower_bound_num_segments == then.lower_bound_num_segments
            &&& now.num_segments == then.num_segments
            &&& now.checkpoint_ruler == then.checkpoint_ruler
            &&& now.total_clock_time == then.total_clock_time
            &&& now.total_cpu_time == then.total_cpu_time
        }
        &&& !before.solutions@.contains_key(1) ==> {
            &&& now.lower_bound_num_segments == 1
            &&& now.num_segments == 1
            &&& now.checkpoint_ruler is None
            &&& now.total_clock_time.total_nanos() == 0
            &&& now.total_cpu_time.total_nanos() == 0
        }
    }

    /// Records the ruler of length 1.
    fn record_unit_ruler(&mut self)
        requires
            Figures::sum(old(self).unit_figures()).fit(),
        ensures
            final(self).knows_unit_ruler(old(self)),
    {
        let mut unit: Vec<u8> = Vec::new();
        unit.push(1);
        assert(unit@ =~= seq![1u8]);
        let mut rulers: Vec<Vec<u8>> = Vec::new();
        rulers.push(unit);
        assert(range_search::contents(rulers@) =~= seq![seq![1u8]]);
        let key: u8 = 1;
        let known: Option<Solution> = self.solutions.remove(&key);
        let solution = match known {
            Some(solution) => Solution {
                completed: true,
                lower_bound_num_segments: solution.lower_bound_num_segments,
                num_segments: solution.num_segments,
                rulers,
                checkpoint_ruler: solution.checkpoint_ruler,
                rulers_found: 1,
                total_rulers_evaluated: 1,
                total_clock_time: solution.total_clock_time,
                total_cpu_time: solution.total_cpu_time,
            },
            None => Solution {
                completed: true,
                lower_bound_num_segments: 1,
                num_segments: 1,
                rulers,
                checkpoint_ruler: None,
                rulers_found: 1,
                total_rulers_evaluated: 1,
                total_clock_time: ClockTime::zero(),
                total_cpu_time: ClockTime::zero(),
            },
        };
        self.solutions.insert(key, solution);
        proof {
            assert(self.solutions@.remove(1) =~= old(self).solutions@.remove(1));
            state::lemma_figures_insert(old(self).solutions@.remove(1), 1, self.solutions@[1]);
            assert(self.solutions@ =~= old(self).solutions@.remove(1).insert(
                1,
                self.solutions@[1],
            ));
            assert(state::figures_of(self.solutions@) =~= old(self).unit_figures());
        }
        self.recalculate_global_metrics();
    }
}

/// Whether the last checkpoint lies far enough back for a new one.
pub fn checkpoint_due(since_last: &ClockTime) -> (res: bool)
    ensures
        res == (since_last.total_nanos() >= CHECKPOINT_SECS * 1_000_000_000),
{
    let interval: ClockTime = ClockTime::new(CHECKPOINT_SECS, 0);
    since_last.at_least(&interval)
}

/// Batch by batch, as long as no chunk is interrupted, a session adds to what it started with
/// exactly the solutions between the rank where it started and the mark.
pub proof fn law_batches_accumulate(
    inherited: Seq<Seq<u8>>,
    before: &SearchSession,
    after: &SearchSession,
    num_threads: int,
)
    requires
        before.can_go_on(),
        num_threads >= 1,
        before.start_rank <= before.current_rank,
        before.found() == inherited + before.solutions(
            before.start_rank as int,
            before.current_rank as int,
        ),
        after.has_searched_batch(before, num_threads),
        after.status == SearchStatus::Finished,
    ensures
        after.start_rank <= after.current_rank,
        after.found() == inherited + after.solutions(
            after.start_rank as int,
            after.current_rank as int,
        ),
{
    laws::law_ranges_concatenate(
        before.length as int,
        before.num_segments as int,
        before.start_rank as int,
        before.current_rank as int,
        after.current_rank as int,
    );
    assert(after.found() =~= inherited + after.solutions(
        after.start_rank as int,
        after.current_rank as int,
    ));
}

/// Where a batch is interrupted, the mark still has everything below it: all solutions between
/// where the batch began and the mark have been added, and after them only solutions from the mark
/// on.
pub proof fn law_mark_has_everything_below(
    before: &SearchSession,
    after: &SearchSession,
    num_threads: int,
) -> (beyond: Seq<Seq<u8>>)
    requires
        after.has_searched_batch(before, num_threads),
        after.status == SearchStatus::Interrupted,
    ensures
        after.found() == before.found() + before.solutions(
            before.current_rank as int,
            after.current_rank as int,
        ) + beyond,
        exists|reached: int| beyond == #[trigger] before.solutions(after.current_rank as int, reached),
{
    let reached = choose|reached: int|
        {
            &&& after.current_rank <= reached < chunk_end(
                after.current_rank as int,
                before.total_space as int,
            )
            &&& after.found() == before.found() + #[trigger] before.solutions(
                before.current_rank as int,
                reached,
            )
        };
    let beyond = before.solutions(after.current_rank as int, reached);
    laws::law_ranges_concatenate(
        before.length as int,
        before.num_segments as int,
        before.current_rank as int,
        after.current_rank as int,
        reached,
    );
    assert(after.found() =~= before.found() + before.solutions(
        before.current_rank as int,
        after.current_rank as int,
    ) + beyond);
    beyond
}

/// A search that started from scratch and came to its end without interruption reports every
/// complete ruler of its length and number of segments once, up to symmetry. The search space must
/// be one whose ranks can be held.
pub proof fn law_finished_search_is_exhaustive(session: &SearchSession, s: Seq<u8>)
    requires
        session.wf(),
        session.num_segments >= 2,
        ranking::space_size(session.length as int, session.num_segments as int) <= u64::MAX,
        session.current_rank == session.total_space,
        session.found() == session.solutions(0, session.current_rank as int),
        crate::ruler::is_ruler(s, session.length as int, session.num_segments as int),
        crate::ruler::complete(s),
    ensures
        exists|i: int|
            0 <= i < session.found().len() && crate::symmetry::symmetric(
                s,
                #[trigger] session.found()[i],
            ),
        forall|i: int, j: int|
            0 <= i < session.found().len() && 0 <= j < session.found().len()
                && crate::symmetry::symmetric(s, #[trigger] session.found()[i])
                && crate::symmetry::symmetric(s, #[trigger] session.found()[j]) ==> i == j,
{
    laws::law_search_finds_each_complete_ruler_once(
        s,
        session.length as int,
        session.num_segments as int,
    );
}

/// No batch, whether it runs to its end or is interrupted, leaves a solution behind below the mark.
pub proof fn law_batch_misses_nothing(
    before: &SearchSession,
    after: &SearchSession,
    num_threads: int,
)
    requires
        before.can_go_on(),
        before.misses_nothing(),
        num_threads >= 1,
        after.has_searched_batch(before, num_threads),
    ensures
        after.misses_nothing(),
{
    let length = before.length as int;
    let n = before.num_segments as int;
    let from = before.current_rank as int;
    let mark = after.current_rank as int;
    let reached = match after.status {
        SearchStatus::Finished => mark,
        SearchStatus::Interrupted => choose|reached: int|
            {
                &&& mark <= reached < chunk_end(mark, before.total_space as int)
                &&& after.found() == before.found() + #[trigger] before.solutions(from, reached)
            },
    };
    laws::law_ranges_concatenate(length, n, 0, from, mark);
    laws::law_ranges_concatenate(length, n, from, mark, reached);
    let old_part = before.solutions(0, from);
    let new_part = before.solutions(from, mark);
    let all = after.solutions(0, mark);
    assert forall|r: Seq<u8>| #[trigger] all.contains(r) implies after.found().contains(r) by {
        let k = choose|k: int| 0 <= k < all.len() && all[k] == r;
        if k < old_part.len() {
            assert(old_part[k] == r);
            assert(old_part.contains(r));
            let j = choose|j: int| 0 <= j < before.found().len() && before.found()[j] == r;
            assert(after.found()[j] == r);
        } else {
            let j = k - old_part.len();
            assert(new_part[j] == r);
            assert(before.solutions(from, reached)[j] == r);
            assert(after.found()[before.found().len() + j] == r);
        }
    }
}

/// A search that goes on from what an interrupted one left on record, its rulers and its mark, has
/// missed nothing either.
pub proof fn law_resumed_search_misses_nothing(
    stopped: &SearchSession,
    recorded: Solution,
    resumed: &SearchSession,
)
    requires
        stopped.wf(),
        stopped.misses_nothing(),
        resumed.goes_on_from(stopped, recorded),
    ensures
        resumed.current_rank == stopped.current_rank,
        resumed.misses_nothing(),
{
    state::law_interrupted_search_resumes(
        recorded,
        stopped.length,
        stopped.num_segments,
        stopped.current_rank,
    );
    let all = resumed.solutions(0, resumed.current_rank as int);
    assert forall|r: Seq<u8>| #[trigger] all.contains(r) implies resumed.found().contains(r) by {
        assert(stopped.solutions(0, stopped.current_rank as int).contains(r));
    }
}

/// No chunk of a truthful GPU, whether it is completed or interrupted, leaves a solution behind
/// below the mark.
pub proof fn law_gpu_chunk_misses_nothing(
    before: &SearchSession,
    after: &SearchSession,
    found: Seq<Seq<u8>>,
    evaluations: int,
    completed: bool,
)
    requires
        before.can_go_on(),
        before.misses_nothing(),
        after.has_absorbed_chunk(before, found, evaluations, completed),
        before.chunk_brings(found, completed),
    ensures
        after.misses_nothing(),
{
    let from = before.current_rank as int;
    let mark = after.current_rank as int;
    laws::law_ranges_concatenate(
        before.length as int,
        before.num_segments as int,
        0,
        from,
        mark,
    );
    let old_part = before.solutions(0, from);
    let new_part = before.solutions(from, mark);
    let all = after.solutions(0, mark);
    assert forall|r: Seq<u8>| #[trigger] all.contains(r) implies after.found().contains(r) by {
        let k = choose|k: int| 0 <= k < all.len() && all[k] == r;
        if k < old_part.len() {
            assert(old_part[k] == r);
            assert(old_part.contains(r));
            let j = choose|j: int| 0 <= j < before.found().len() && before.found()[j] == r;
            assert(after.found()[j] == r);
        } else {
            let j = k - old_part.len();
            assert(new_part[j] == r);
            assert(after.found()[before.found().len() + j] == r);
        }
    }
}

/// What is found between two ranks of the space is found in the whole space.
proof fn lemma_solutions_widen(session: &SearchSession, from: int, to: int, r: Seq<u8>)
    requires
        0 <= from <= to <= session.total_space,
        session.solutions(from, to).contains(r),
    ensures
        session.solutions(0, session.total_space as int).contains(r),
{
    let length = session.length as int;
    let n = session.num_segments as int;
    let total = session.total_space as int;
    laws::law_ranges_concatenate(length, n, 0, from, to);
    laws::law_ranges_concatenate(length, n, 0, to, total);
    let part = session.solutions(from, to);
    let k = choose|k: int| 0 <= k < part.len() && part[k] == r;
    let at = session.solutions(0, from).len() + k;
    assert(session.solutions(0, to)[at] == r);
    assert(session.solutions(0, total)[at] == r);
}

/// No batch, whether it runs to its end or is interrupted, brings anything but solutions.
pub proof fn law_batch_holds_only_solutions(
    before: &SearchSession,
    after: &SearchSession,
    num_threads: int,
)
    requires
        before.can_go_on(),
        before.holds_only_solutions(),
        num_threads >= 1,
        after.has_searched_batch(before, num_threads),
    ensures
        after.holds_only_solutions(),
{
    let from = before.current_rank as int;
    let mark = after.current_rank as int;
    let reached = match after.status {
        SearchStatus::Finished => mark,
        SearchStatus::Interrupted => choose|reached: int|
            {
                &&& mark <= reached < chunk_end(mark, before.total_space as int)
                &&& after.found() == before.found() + #[trigger] before.solutions(from, reached)
            },
    };
    lemma_added_solutions(before, after, before.solutions(from, reached), from, reached);
}

/// No chunk of a truthful GPU, whether it is completed or interrupted, brings anything but
/// solutions.
pub proof fn law_gpu_chunk_holds_only_solutions(
    before: &SearchSession,
    after: &SearchSession,
    found: Seq<Seq<u8>>,
    evaluations: int,
    completed: bool,
)
    requires
        before.can_go_on(),
        before.holds_only_solutions(),
        after.has_absorbed_chunk(before, found, evaluations, completed),
        before.chunk_brings(found, completed),
    ensures
        after.holds_only_solutions(),
{
    let from = before.current_rank as int;
    lemma_added_solutions(before, after, found, from, chunk_end(from, before.total_space as int));
}

/// Where only solutions are added, only solutions are held.
proof fn lemma_added_solutions(
    before: &SearchSession,
    after: &SearchSession,
    added: Seq<Seq<u8>>,
    from: int,
    to: int,
)
    requires
        before.holds_only_solutions(),
        after.same_search(before),
        after.found() == before.found() + added,
        0 <= from <= to <= before.total_space,
        forall|r: Seq<u8>| #[trigger]
            added.contains(r) ==> before.solutions(from, to).contains(r),
    ensures
        after.holds_only_solutions(),
{
    let all = after.solutions(0, after.total_space as int);
    assert forall|r: Seq<u8>| #[trigger] after.found().contains(r) implies all.contains(r) by {
        let k = choose|k: int| 0 <= k < after.found().len() && after.found()[k] == r;
        if k < before.found().len() {
            assert(before.found()[k] == r);
            assert(before.found().contains(r));
        } else {
            assert(added[k - before.found().len()] == r);
            assert(added.contains(r));
            lemma_solutions_widen(before, from, to, r);
        }
    }
}

/// A search that goes on with the rulers that an interrupted one left on record holds only
/// solutions either.
pub proof fn law_resumed_search_holds_only_solutions(
    stopped: &SearchSession,
    recorded: Solution,
    resumed: &SearchSession,
)
    requires
        stopped.wf(),
        stopped.holds_only_solutions(),
        resumed.goes_on_from(stopped, recorded),
    ensures
        resumed.holds_only_solutions(),
{
    let all = resumed.solutions(0, resumed.total_space as int);
    assert forall|r: Seq<u8>| #[trigger] resumed.found().contains(r) implies all.contains(r) by {
        assert(stopped.found().contains(r));
    }
}

/// A search that has missed nothing, holds only solutions and whose mark has reached the end of the
/// space has found exactly the rulers of one uninterrupted search, however often it was interrupted
/// and resumed, on threads or on the GPU. Only how often each is listed may differ.
pub proof fn law_interruptions_change_nothing(session: &SearchSession, r: Seq<u8>)
    requires
        session.current_rank == session.total_space,
        session.misses_nothing(),
        session.holds_only_solutions(),
    ensures
        session.found().contains(r) <==> session.solutions(
            0,
            session.total_space as int,
        ).contains(r),
{
}

/// A mark short of the end, as every search has that is interrupted, lies inside the search space:
/// there is a ruler to resume from.
pub proof fn law_interrupted_search_can_be_recorded(session: &SearchSession)
    requires
        session.wf(),
        session.current_rank < session.total_space,
    ensures
        session.current_rank < ranking::space_size(
            session.length as int,
            session.num_segments as int,
        ),
        ranking::unrankable(
            session.length as int,
            session.num_segments as int,
            session.current_rank as int,
        ),
{
}

/// A search that has missed nothing and whose mark has reached the end of the space has found every
/// complete ruler of its length and number of segments, up to symmetry, however often it was
/// interrupted and resumed. The search space must be one whose ranks can be held.
pub proof fn law_interruptions_lose_no_ruler(session: &SearchSession, s: Seq<u8>)
    requires
        session.wf(),
        session.num_segments >= 2,
        ranking::space_size(session.length as int, session.num_segments as int) <= u64::MAX,
        session.current_rank == session.total_space,
        session.misses_nothing(),
        crate::ruler::is_ruler(s, session.length as int, session.num_segments as int),
        crate::ruler::complete(s),
    ensures
        exists|i: int|
            0 <= i < session.found().len() && crate::symmetry::symmetric(
                s,
                #[trigger] session.found()[i],
            ),
{
    laws::law_search_finds_each_complete_ruler_once(
        s,
        session.length as int,
        session.num_segments as int,
    );
    let all = session.solutions(0, session.current_rank as int);
    let k = choose|k: int| 0 <= k < all.len() && crate::symmetry::symmetric(s, #[trigger] all[k]);
    assert(all.contains(all[k]));
    let i = choose|i: int| 0 <= i < session.found().len() && session.found()[i] == all[k];
    assert(crate::symmetry::symmetric(s, session.found()[i]));
}

/// The outcome of an interrupted search, once it is on record, is what the next search for the same
/// number of segments goes on from.
pub proof fn law_recorded_search_is_taken_up(
    stopped: &SearchSession,
    interim: &State,
    timing: &state::SearchTiming,
    recorded: &State,
    begun: &State,
    resumed: &SearchSession,
)
    requires
        stopped.wf(),
        stopped.status == SearchStatus::Interrupted,
        stopped.current_rank < stopped.total_space,
        !state::abandons(interim.solutions@[stopped.length], stopped.num_segments),
        recorded.has_finalized(
            interim,
            stopped.length,
            stopped.num_segments,
            stopped.current_rank,
            stopped.evaluated,
            stopped.found(),
            timing,
            stopped.status,
        ),
        begun.has_begun(recorded, stopped.length, stopped.num_segments, resumed),
    ensures
        resumed.goes_on_from(stopped, recorded.solutions@[stopped.length]),
        !state::abandons(begun.solutions@[stopped.length], stopped.num_segments),
{
}

/// Where searches stand, step by step, with all interruptions and resumptions.
pub open spec fn is_history(history: Seq<SearchSession>) -> bool {
    &&& history.len() > 0
    &&& history[0].is_fresh()
    &&& is_chain(history)
}

/// Whether each session is where a search stands one step after the one before it.
pub open spec fn is_chain(history: Seq<SearchSession>) -> bool {
    forall|i: int, j: int|
        0 <= i && j == i + 1 && j < history.len() ==> #[trigger] history[j].follows(&history[i])
}

/// At every step of every history that starts from scratch the search has missed nothing below its
/// mark, and holds only solutions.
pub proof fn law_every_step_keeps_the_mark(history: Seq<SearchSession>, step: int)
    requires
        is_history(history),
        0 <= step < history.len(),
    ensures
        history[step].wf(),
        history[step].length == history[0].length,
        history[step].num_segments == history[0].num_segments,
        history[step].total_space == history[0].total_space,
        history[step].current_rank <= history[step].total_space,
        history[step].misses_nothing(),
        history[step].holds_only_solutions(),
{
    assert(history[0].solutions(0, 0) =~= Seq::<Seq<u8>>::empty());
    law_every_step_stays_honest(history, step);
}

/// At every step of a history that starts from a search which has missed nothing below its mark and
/// holds only solutions, the search still has missed nothing and holds only solutions.
pub proof fn law_every_step_stays_honest(history: Seq<SearchSession>, step: int)
    requires
        history.len() > 0,
        history[0].is_honest(),
        is_chain(history),
        0 <= step < history.len(),
    ensures
        history[step].is_honest(),
        history[step].length == history[0].length,
        history[step].num_segments == history[0].num_segments,
        history[step].total_space == history[0].total_space,
    decreases step,
{
    let after = history[step];
    if step > 0 {
        let before = history[step - 1];
        law_every_step_stays_honest(history, step - 1);
        assert(after.follows(&before));
        if before.can_go_on() && exists|num_threads: int|
            num_threads >= 1 && #[trigger] after.has_searched_batch(&before, num_threads) {
            let num_threads = choose|num_threads: int|
                num_threads >= 1 && #[trigger] after.has_searched_batch(&before, num_threads);
            law_batch_misses_nothing(&before, &after, num_threads);
            law_batch_holds_only_solutions(&before, &after, num_threads);
        } else if before.can_go_on() && exists|
            found: Seq<Seq<u8>>,
            evaluations: int,
            completed: bool,
        |
            {
                &&& #[trigger] after.has_absorbed_chunk(&before, found, evaluations, completed)
                &&& before.chunk_can_count(evaluations, completed)
                &&& before.chunk_brings(found, completed)
            } {
            let (found, evaluations, completed) = choose|
                found: Seq<Seq<u8>>,
                evaluations: int,
                completed: bool,
            |
                {
                    &&& #[trigger] after.has_absorbed_chunk(&before, found, evaluations, completed)
                    &&& before.chunk_can_count(evaluations, completed)
                    &&& before.chunk_brings(found, completed)
                };
            law_gpu_chunk_misses_nothing(&before, &after, found, evaluations, completed);
            law_gpu_chunk_holds_only_solutions(&before, &after, found, evaluations, completed);
        } else if after.was_stopped(&before) {
            assert(after.found() == before.found());
            let below = after.solutions(0, after.current_rank as int);
            let all = after.solutions(0, after.total_space as int);
            assert forall|r: Seq<u8>| #[trigger] below.contains(r) implies after.found().contains(
                r,
            ) by {
                assert(before.solutions(0, before.current_rank as int).contains(r));
            }
            assert forall|r: Seq<u8>| #[trigger] after.found().contains(r) implies all.contains(
                r,
            ) by {
                assert(before.found().contains(r));
            }
        } else {
            let recorded = choose|recorded: Solution| #[trigger]
                after.goes_on_from(&before, recorded);
            law_resumed_search_misses_nothing(&before, recorded, &after);
            law_resumed_search_holds_only_solutions(&before, recorded, &after);
        }
    }
}

/// However often a search is interrupted and taken up again, at whatever moments, on threads or on
/// a truthful GPU: once it has come to its end it holds exactly the rulers of one unbroken search.
pub proof fn law_any_history_finds_the_same(history: Seq<SearchSession>, r: Seq<u8>)
    requires
        is_history(history),
        history.last().status == SearchStatus::Finished,
        !history.last().can_go_on(),
    ensures
        history.last().found().contains(r) <==> history[0].solutions(
            0,
            history[0].total_space as int,
        ).contains(r),
{
    law_every_step_keeps_the_mark(history, history.len() - 1);
    law_interruptions_change_nothing(&history.last(), r);
}

/// Every batch that is finished moves the mark on, and not beyond the end of the space. No batch
/// loses a ruler that was found before it.
pub proof fn law_batch_makes_progress(
    before: &SearchSession,
    after: &SearchSession,
    num_threads: int,
)
    requires
        before.can_go_on(),
        num_threads >= 1,
        after.has_searched_batch(before, num_threads),
    ensures
        after.status == SearchStatus::Finished ==> before.current_rank < after.current_rank,
        before.current_rank <= after.current_rank <= before.total_space,
        before.found() =~= after.found().take(before.found().len() as int),
{
}

/// Every chunk that the GPU completes moves the mark on, and not beyond the end of the space. No
/// chunk loses a ruler that was found before it.
pub proof fn law_gpu_chunk_makes_progress(
    before: &SearchSession,
    after: &SearchSession,
    found: Seq<Seq<u8>>,
    evaluations: int,
    completed: bool,
)
    requires
        before.can_go_on(),
        after.has_absorbed_chunk(before, found, evaluations, completed),
    ensures
        completed ==> before.current_rank < after.current_rank,
        before.current_rank <= after.current_rank <= before.total_space,
        after.status == SearchStatus::Interrupted <==> !completed,
        after.evaluated == before.evaluated + evaluations,
        before.found() =~= after.found().take(before.found().len() as int),
        found =~= after.found().skip(before.found().len() as int),
{
}

/// The times on record add up over all searches for a length: what was on record before a search,
/// and what it has taken since it began.
pub proof fn law_times_add_up(
    before: &State,
    begun: &State,
    session: &SearchSession,
    interim: &State,
    timing: &state::SearchTiming,
    evaluated: u64,
    rulers: Seq<Seq<u8>>,
    recorded: &State,
)
    requires
        before.solutions@.contains_key(session.length),
        begun.has_begun(before, session.length, session.num_segments, session),
        timing.base_clock_time == session.base_clock_time,
        timing.base_cpu_time == session.base_cpu_time,
        recorded.has_recorded(interim, session.length, evaluated, rulers, timing),
    ensures
        recorded.solutions@[session.length].total_clock_time.total_nanos()
            == before.solutions@[session.length].total_clock_time.total_nanos()
            + timing.clock_elapsed.total_nanos(),
        recorded.solutions@[session.length].total_cpu_time.total_nanos()
            == before.solutions@[session.length].total_cpu_time.total_nanos()
            + timing.cpu_elapsed.total_nanos(),
{
}

/// Where a search begins. With the number of segments on record it goes on from the checkpoint, or
/// else behind what has been evaluated, and so it does for a completed length. With another number
/// of segments it starts over, and so it does where nothing is on record. It takes over the rulers
/// on record.
pub proof fn law_search_begins_where_it_left_off(
    before: &State,
    begun: &State,
    length: u8,
    num_segments: u8,
    session: &SearchSession,
)
    requires
        begun.has_begun(before, length, num_segments, session),
    ensures
        session.length == length && session.num_segments == num_segments,
        !before.solutions@.contains_key(length) ==> {
            &&& session.current_rank == 0
            &&& session.found_rulers@.len() == 0
        },
        before.solutions@.contains_key(length) ==> {
            let entry = before.solutions@[length];
            let rank = match entry.checkpoint_ruler {
                Some(r) => ranking::rank_of(r@, length as int, num_segments as int),
                None => entry.total_rulers_evaluated as nat,
            };
            &&& session.found_rulers@ == entry.rulers@
            &&& entry.num_segments == num_segments || entry.completed ==> (rank <= u64::MAX
                ==> session.current_rank == rank)
            &&& entry.num_segments != num_segments && !entry.completed ==> {
                &&& session.current_rank == 0
                &&& begun.solutions@[length].num_segments == num_segments
                &&& begun.solutions@[length].total_rulers_evaluated == 0
            }
        },
{
}

/// Evaluations are added up over all results, whether their chunks were searched to their ends or
/// not: of no results they are 0, and one more result adds its own.
pub proof fn law_evaluations_add_up(
    some: &Vec<ChunkResult>,
    more: &Vec<ChunkResult>,
    result: ChunkResult,
    res_some: u64,
    res_more: u64,
)
    requires
        call_requires(total_evaluations, (some,)),
        call_requires(total_evaluations, (more,)),
        call_ensures(total_evaluations, (some,), res_some),
        call_ensures(total_evaluations, (more,), res_more),
        more@ == some@.push(result),
    ensures
        res_more == res_some + result.1,
        some@.len() == 0 ==> res_some == 0,
{
    lemma_evaluated_frame(more@, some@, some@.len() as int);
}

/// Only the results that are counted matter.
proof fn lemma_evaluated_frame(a: Seq<ChunkResult>, b: Seq<ChunkResult>, count: int)
    requires
        count <= a.len(),
        count <= b.len(),
        forall|i: int| 0 <= i < count ==> #[trigger] a[i] == b[i],
    ensures
        evaluated_in(a, count) == evaluated_in(b, count),
    decreases count,
{
    if count > 0 {
        lemma_evaluated_frame(a, b, count - 1);
        assert(a[count - 1] == b[count - 1]);
    }
}

/// What becomes of the results of a batch. Where all chunks were searched to their ends, the search
/// goes on and holds the rulers of all of them. Otherwise it is interrupted, the mark stands at the
/// start of the first chunk that was not, and the rulers of that chunk and of those before it are
/// kept.
pub proof fn law_results_are_taken_over(
    before: &SearchSession,
    after: &SearchSession,
    num_threads: int,
    results: Seq<ChunkResult>,
    m: int,
    i: int,
    k: int,
)
    requires
        after.has_taken_over(before, num_threads, results),
        0 <= m < results.len(),
        forall|j: int| 0 <= j < m ==> (#[trigger] results[j]).2,
        results[m].2 ==> m == results.len() - 1,
        0 <= i <= m,
        0 <= k < results[i].0@.len(),
    ensures
        after.found().contains(results[i].0@[k]@),
        results[m].2 <==> after.status == SearchStatus::Finished,
        !results[m].2 ==> after.current_rank == before.current_rank + m * CHUNK_SIZE,
{
    if results[m].2 {
        lemma_gathered_holds(results, results.len() as int, i, k);
        if after.status == SearchStatus::Interrupted {
            let first = choose|first: int| #[trigger] first_incomplete(results, first);
            assert(results[first].2);
        }
    } else {
        assert(after.status == SearchStatus::Interrupted) by {
            if after.status == SearchStatus::Finished {
                assert(results[m].2);
            }
        }
        let first = choose|first: int|
            {
                &&& #[trigger] first_incomplete(results, first)
                &&& after.current_rank == before.current_rank + first * CHUNK_SIZE
                &&& after.found() == before.found() + gathered(results, first + 1)
            };
        assert(first == m) by {
            if first < m {
                assert(results[first].2);
            } else if m < first {
                assert(results[m].2);
            }
        }
        lemma_gathered_holds(results, m + 1, i, k);
    }
    let taken = if results[m].2 { results.len() as int } else { m + 1 };
    let all = gathered(results, taken);
    let at = choose|at: int| 0 <= at < all.len() && all[at] == results[i].0@[k]@;
    assert(after.found()[before.found().len() + at] == results[i].0@[k]@);
}

/// Gathered rulers are those of each result.
proof fn lemma_gathered_holds(results: Seq<ChunkResult>, count: int, i: int, k: int)
    requires
        0 <= i < count <= results.len(),
        0 <= k < results[i].0@.len(),
    ensures
        gathered(results, count).contains(results[i].0@[k]@),
    decreases count,
{
    let before = gathered(results, count - 1);
    let last = range_search::contents(results[count - 1].0@);
    let all = gathered(results, count);
    if i == count - 1 {
        assert(all[before.len() + k] == last[k]);
    } else {
        lemma_gathered_holds(results, count - 1, i, k);
        let at = choose|at: int| 0 <= at < before.len() && before[at] == results[i].0@[k]@;
        assert(all[at] == before[at]);
    }
}

/// What is put on record when a search begins for a length of which nothing was known: that it is
/// not completed, the number of segments that is searched, and the least number of segments whose
/// arcs are enough. What is known of other lengths stays as it was.
pub proof fn law_new_length_is_put_on_record(
    before: &State,
    begun: &State,
    length: u8,
    num_segments: u8,
    session: &SearchSession,
    other: u8,
)
    requires
        begun.has_begun(before, length, num_segments, session),
        other != length,
    ensures
        begun.solutions@.contains_key(length),
        !before.solutions@.contains_key(length) ==> {
            let entry = begun.solutions@[length];
            let bound = entry.lower_bound_num_segments as int;
            &&& !entry.completed
            &&& entry.num_segments == num_segments
            &&& entry.rulers_found == 0
            &&& length >= 1 ==> length <= bound * bound - bound + 1
            &&& length >= 2 ==> (bound - 1) * (bound - 1) - (bound - 1) + 1 < length
        },
        begun.solutions@.contains_key(other) == before.solutions@.contains_key(other),
        before.solutions@.contains_key(other) ==> begun.solutions@[other]
            == before.solutions@[other],
{
    let rest = before.solutions@.remove(length);
    assert(begun.solutions@.remove(length).contains_key(other) == rest.contains_key(other));
    if before.solutions@.contains_key(other) {
        assert(begun.solutions@.remove(length)[other] == rest[other]);
    }
    if !before.solutions@.contains_key(length) && length >= 1 {
        let bound = begun.solutions@[length].lower_bound_num_segments as int;
        assert(lower_bound::enough_arcs(bound, length as int));
        if length >= 2 {
            assert(!lower_bound::enough_arcs(1, length as int)) by (nonlinear_arith)
                requires
                    length >= 2,
            ;
            assert(!lower_bound::enough_arcs(bound - 1, length as int));
        }
    }
}

} // verus!
