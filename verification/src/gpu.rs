//! The part of a GPU search that is decided on the host: what is submitted, how the answers
//! are read, and which rulers they stand for.
use bytemuck::PodCastError;
use vstd::prelude::*;

use crate::bytes;
use crate::bytes::{bytes_as_longs, bytes_as_words, longs_as_bytes, words_as_bytes};
use crate::combinatorics;
use crate::combinatorics::binomial_u64;
use crate::range_search;
use crate::ranking;
use crate::ranking::unrank;
use crate::ruler;
use crate::sorting;
use crate::sorting::{sort_rulers, sorted_distinct};
use crate::symmetry;
use crate::symmetry::is_canonical;

verus! {

/// Ranks that each GPU thread searches.
pub const STEPS_PER_THREAD: u32 = 2048;

/// Threads of a full batch.
pub const THREADS_PER_BATCH: u32 = 131072;

/// Ranks that a full batch searches.
pub const STEPS_PER_BATCH: u64 = 268_435_456;

/// Batches that wait for the GPU at a time.
pub const MAX_IN_FLIGHT: usize = 2;

/// Work groups in one dimension of a dispatch.
pub const MAX_GROUPS_PER_DIMENSION: u32 = 65535;

/// Rows and columns of the table of binomial coefficients.
pub const TABLE_ROWS: u64 = 256;

pub const TABLE_COLUMNS: u64 = 33;

/// The parameters of one batch.
#[derive(Clone, Copy, Debug)]
pub struct SearchParams {
    pub length: u32,
    pub num_segments: u32,
    pub batch_size: u32,
    pub start_rank_low: u32,
    pub start_rank_high: u32,
    pub steps_per_thread: u32,
    pub _padding: [u32; 2],
}

impl SearchParams {
    /// The fields in the order in which the GPU reads them.
    pub open spec fn words(&self) -> Seq<u32> {
        seq![
            self.length,
            self.num_segments,
            self.batch_size,
            self.start_rank_low,
            self.start_rank_high,
            self.steps_per_thread,
            self._padding@[0],
            self._padding@[1],
        ]
    }

    /// The rank at which the batch starts.
    pub open spec fn start_rank(&self) -> int {
        self.start_rank_high * 0x1_0000_0000 + self.start_rank_low
    }

    /// The contents of the parameter buffer.
    pub fn to_bytes(&self) -> (res: Vec<u8>)
        ensures
            bytes::memory_of_words(self.words(), res@),
            res@.len() == 32,
    {
        let words: [u32; 8] = [
            self.length,
            self.num_segments,
            self.batch_size,
            self.start_rank_low,
            self.start_rank_high,
            self.steps_per_thread,
            self._padding[0],
            self._padding[1],
        ];
        assert(words@ =~= self.words());
        words_as_bytes(words.as_slice())
    }
}

/// How the work on one length is cut up.
pub struct GpuConfig {
    pub steps_per_thread: u32,
    pub threads_per_batch: u32,
}

impl GpuConfig {
    /// Short rulers are simple: few launches. From length 70 on threads diverge: fewer steps each.
    /// From length 110 on very large batches keep the GPU busy.
    pub fn for_length(length: u32) -> (res: Self)
        ensures
            length < 70 ==> res.steps_per_thread == 1024 && res.threads_per_batch == 131072,
            70 <= length < 110 ==> res.steps_per_thread == 128 && res.threads_per_batch == 1048576,
            110 <= length ==> res.steps_per_thread == 128 && res.threads_per_batch == 2097152,
    {
        if length < 70 {
            GpuConfig { steps_per_thread: 1024, threads_per_batch: 131072 }
        } else if length < 110 {
            GpuConfig { steps_per_thread: 128, threads_per_batch: 1048576 }
        } else {
            GpuConfig { steps_per_thread: 128, threads_per_batch: 2097152 }
        }
    }
}

/// The binomial coefficients `C(n, k)` for `n` up to 255 and `k` up to 32, row by row.
pub fn binomial_table() -> (table: Vec<u64>)
    ensures
        table@.len() == TABLE_ROWS * TABLE_COLUMNS,
        forall|n: int, k: int|
            0 <= n < TABLE_ROWS && 0 <= k < TABLE_COLUMNS ==> #[trigger] table@[n * TABLE_COLUMNS
                + k] == combinatorics::capped(
                combinatorics::choose_count(n as nat, k as nat),
                u64::MAX as nat,
            ),
{
    let mut table: Vec<u64> = Vec::new();
    let mut n: u64 = 0;
    while n < TABLE_ROWS
        invariant
            n <= TABLE_ROWS,
            table@.len() == n * TABLE_COLUMNS,
            forall|m: int, j: int|
                0 <= m < n && 0 <= j < TABLE_COLUMNS ==> #[trigger] table@[m * TABLE_COLUMNS + j]
                    == combinatorics::capped(
                    combinatorics::choose_count(m as nat, j as nat),
                    u64::MAX as nat,
                ),
        decreases TABLE_ROWS - n,
    {
        let mut k: u64 = 0;
        while k < TABLE_COLUMNS
            invariant
                n < TABLE_ROWS,
                k <= TABLE_COLUMNS,
                table@.len() == n * TABLE_COLUMNS + k,
                forall|m: int, j: int|
                    0 <= m <= n && 0 <= j < TABLE_COLUMNS && (m < n || j < k)
                        ==> #[trigger] table@[m * TABLE_COLUMNS + j] == combinatorics::capped(
                        combinatorics::choose_count(m as nat, j as nat),
                        u64::MAX as nat,
                    ),
            decreases TABLE_COLUMNS - k,
        {
            table.push(binomial_u64(n, k));
            k = k + 1;
        }
        n = n + 1;
    }
    table
}

/// The contents of the buffer that holds the table of binomial coefficients.
pub fn binomial_table_bytes() -> (res: Vec<u8>)
    ensures
        exists|table: Seq<u64>|
            {
                &&& #[trigger] bytes::memory_of_longs(table, res@)
                &&& table.len() == TABLE_ROWS * TABLE_COLUMNS
                &&& forall|n: int, k: int|
                    0 <= n < TABLE_ROWS && 0 <= k < TABLE_COLUMNS ==> #[trigger] table[n
                        * TABLE_COLUMNS + k] == combinatorics::capped(
                        combinatorics::choose_count(n as nat, k as nat),
                        u64::MAX as nat,
                    )
            },
{
    let table: Vec<u64> = binomial_table();
    let res: Vec<u8> = longs_as_bytes(table.as_slice());
    assert(bytes::memory_of_longs(table@, res@));
    res
}

/// The contents of the counter buffer before a batch: a count of 0.
pub fn counter_reset_bytes() -> (res: Vec<u8>)
    ensures
        res@ == seq![0u8, 0u8, 0u8, 0u8],
{
    let zero: [u32; 1] = [0];
    let res: Vec<u8> = words_as_bytes(zero.as_slice());
    proof {
        let values = zero@.map_values(|w: u32| w as nat);
        assert forall|k: int| 0 <= k < 4 implies #[trigger] res@[k] == 0 by {
            assert(res@[4 * 0 + k] == res@[k]);
            lemma_bytes_of_zero(k as nat);
            lemma_bytes_of_zero((3 - k) as nat);
        }
        assert(res@ =~= seq![0u8, 0u8, 0u8, 0u8]);
    }
    res
}

proof fn lemma_bytes_of_zero(k: nat)
    ensures
        bytes::byte_of(0, k) == 0,
    decreases k,
{
    if k > 0 {
        lemma_bytes_of_zero((k - 1) as nat);
    }
}

/// `a / b`, rounded up.
pub open spec fn ceil_div(a: int, b: int) -> int {
    (a + b - 1) / b
}

/// The work groups to dispatch, in three dimensions, so that groups of `workgroup_size` threads
/// cover a batch. More groups than one dimension takes are laid out in rows.
pub fn dispatch_size(batch_size: u32, workgroup_size: u32) -> (res: (u32, u32, u32))
    requires
        workgroup_size >= 1,
    ensures
        ({
            let groups = ceil_div(batch_size as int, workgroup_size as int);
            res == if groups <= MAX_GROUPS_PER_DIMENSION {
                (groups as u32, 1u32, 1u32)
            } else {
                (
                    MAX_GROUPS_PER_DIMENSION,
                    ceil_div(groups, MAX_GROUPS_PER_DIMENSION as int) as u32,
                    1u32,
                )
            }
        }),
        res.0 * res.1 * res.2 * workgroup_size >= batch_size,
        res.0 <= 65535,
        res.2 == 1,
        batch_size >= 1 ==> ((res.0 - 1) * workgroup_size < batch_size || res.1 > 1),
        res.1 > 1 ==> 65535 * (res.1 - 1) * workgroup_size < batch_size,
{
    proof {
        law_dispatch_covers_batch(batch_size as int, workgroup_size as int);
        law_dispatch_is_tight(batch_size as int, workgroup_size as int);
    }
    let groups: u64 = (batch_size as u64 + workgroup_size as u64 - 1) / workgroup_size as u64;
    assert(groups <= batch_size) by (nonlinear_arith)
        requires
            groups == (batch_size + workgroup_size - 1) / (workgroup_size as int),
            workgroup_size >= 1,
    ;
    if groups <= MAX_GROUPS_PER_DIMENSION as u64 {
        (groups as u32, 1, 1)
    } else {
        let rows: u64 = (groups + MAX_GROUPS_PER_DIMENSION as u64 - 1)
            / MAX_GROUPS_PER_DIMENSION as u64;
        (MAX_GROUPS_PER_DIMENSION, rows as u32, 1)
    }
}

/// The groups that are dispatched have a thread for every member of the batch.
pub proof fn law_dispatch_covers_batch(batch_size: int, workgroup_size: int)
    requires
        0 <= batch_size,
        1 <= workgroup_size,
    ensures
        ({
            let groups = ceil_div(batch_size, workgroup_size);
            let rows = ceil_div(groups, MAX_GROUPS_PER_DIMENSION as int);
            &&& groups * workgroup_size >= batch_size
            &&& rows * MAX_GROUPS_PER_DIMENSION >= groups
            &&& rows * MAX_GROUPS_PER_DIMENSION * workgroup_size >= batch_size
        }),
{
    let groups = ceil_div(batch_size, workgroup_size);
    let rows = ceil_div(groups, MAX_GROUPS_PER_DIMENSION as int);
    assert(groups * workgroup_size >= batch_size) by (nonlinear_arith)
        requires
            groups == (batch_size + workgroup_size - 1) / workgroup_size,
            workgroup_size >= 1,
    ;
    assert(rows * 65535 >= groups) by (nonlinear_arith)
        requires
            rows == (groups + 65535 - 1) / 65535,
    ;
    assert(rows * MAX_GROUPS_PER_DIMENSION * workgroup_size >= batch_size) by (nonlinear_arith)
        requires
            rows * MAX_GROUPS_PER_DIMENSION >= groups,
            groups * workgroup_size >= batch_size,
            workgroup_size >= 1,
    ;
}

/// No group, and no row of groups, is dispatched that has no thread for a member of the batch.
pub proof fn law_dispatch_is_tight(batch_size: int, workgroup_size: int)
    requires
        0 <= batch_size,
        1 <= workgroup_size,
    ensures
        ({
            let groups = ceil_div(batch_size, workgroup_size);
            let rows = ceil_div(groups, MAX_GROUPS_PER_DIMENSION as int);
            &&& batch_size >= 1 ==> (groups - 1) * workgroup_size < batch_size
            &&& groups >= 1 ==> MAX_GROUPS_PER_DIMENSION * (rows - 1) < groups
            &&& groups >= 1 ==> MAX_GROUPS_PER_DIMENSION * (rows - 1) * workgroup_size < batch_size
        }),
{
    let groups = ceil_div(batch_size, workgroup_size);
    let rows = ceil_div(groups, MAX_GROUPS_PER_DIMENSION as int);
    assert((groups - 1) * workgroup_size < batch_size || batch_size == 0) by (nonlinear_arith)
        requires
            groups == (batch_size + workgroup_size - 1) / workgroup_size,
            workgroup_size >= 1,
            batch_size >= 0,
    ;
    assert(groups >= 1 ==> batch_size >= 1) by (nonlinear_arith)
        requires
            groups == (batch_size + workgroup_size - 1) / workgroup_size,
            workgroup_size >= 1,
            batch_size >= 0,
    ;
    if groups >= 1 {
        assert(65535 * (rows - 1) * workgroup_size <= (groups - 1) * workgroup_size)
            by (nonlinear_arith)
            requires
                65535 * (rows - 1) <= groups - 1,
                workgroup_size >= 1,
        ;
    }
}

/// The ranks that a batch reports, in rising order and each of them once: the first `count` of
/// those that the GPU wrote down, or as many as it had room for.
pub fn collect_ranks(reported: &[u64], count: u32, max_results: u32) -> (res: Vec<u64>)
    requires
        reported@.len() >= max_results,
    ensures
        sorting::rising(res@),
        forall|x: u64| #[trigger]
            res@.contains(x) <==> reported@.take(
                if count <= max_results { count as int } else { max_results as int },
            ).contains(x),
{
    let kept: u32 = if count <= max_results {
        count
    } else {
        max_results
    };
    assert(reported@.take(kept as int) =~= reported@.subrange(0, kept as int));
    sorted_distinct(reported, 0, kept as usize)
}

/// Which of the buffers that come back from the GPU cannot be read.
#[derive(Clone, Copy, Debug, PartialEq, Eq, Structural)]
pub enum DecodeError {
    Counter,
    Results,
}

/// Whether reading these bytes as words may have this outcome.
pub closed spec fn words_read(bytes: &[u8], outcome: Result<Vec<u32>, PodCastError>) -> bool {
    call_ensures(bytes_as_words, (bytes,), outcome)
}

/// Whether these bytes may be refused as words.
pub closed spec fn may_refuse_words(bytes: &[u8]) -> bool {
    exists|outcome: Result<Vec<u32>, PodCastError>|
        outcome is Err && #[trigger] call_ensures(bytes_as_words, (bytes,), outcome)
}

/// Bytes may be refused as words exactly where reading them may fail.
pub proof fn law_refused_words_cannot_be_read(bytes: &[u8])
    ensures
        may_refuse_words(bytes) <==> exists|e: PodCastError| #[trigger] words_read(bytes, Err(e)),
{
    if may_refuse_words(bytes) {
        let outcome = choose|outcome: Result<Vec<u32>, PodCastError>|
            outcome is Err && #[trigger] call_ensures(bytes_as_words, (bytes,), outcome);
        assert(words_read(bytes, Err(outcome->Err_0)));
    }
}

/// Whether reading these bytes as double words may have this outcome.
pub closed spec fn longs_read(bytes: &[u8], outcome: Result<Vec<u64>, PodCastError>) -> bool {
    call_ensures(bytes_as_longs, (bytes,), outcome)
}

/// Reads the answer to a batch: the counter buffer holds how many ranks were found, the
/// results buffer the ranks. A buffer that is no whole number of elements, or not aligned for
/// them, cannot be read.
pub fn decode_ranks(counter: &[u8], results: &[u8], max_results: u32) -> (res: Result<
    Vec<u64>,
    DecodeError,
>)
    requires
        counter@.len() >= 4,
        results@.len() >= 8 * max_results,
    ensures
        res matches Ok(ranks) ==> exists|counts: Seq<u32>, reported: Seq<u64>|
            {
                &&& #[trigger] bytes::memory_of_words(counts, counter@)
                &&& #[trigger] bytes::memory_of_longs(reported, results@)
                &&& sorting::rising(ranks@)
                &&& forall|x: u64| #[trigger]
                    ranks@.contains(x) <==> reported.take(
                        if counts[0] <= max_results { counts[0] as int } else { max_results as int },
                    ).contains(x)
            },
        counter@.len() % 4 != 0 ==> res == Err::<Vec<u64>, DecodeError>(DecodeError::Counter),
        results@.len() % 8 != 0 ==> res is Err,
        res == Err::<Vec<u64>, DecodeError>(DecodeError::Results) ==> counter@.len() % 4 == 0,
        match res {
            Err(DecodeError::Counter) => may_refuse_words(counter),
            Err(DecodeError::Results) => {
                &&& exists|counts: Vec<u32>| #[trigger] words_read(counter, Ok(counts))
                &&& exists|e: PodCastError| #[trigger] longs_read(results, Err(e))
            },
            Ok(ranks) => exists|counts: Vec<u32>, reported: Vec<u64>|
                {
                    &&& #[trigger] words_read(counter, Ok(counts))
                    &&& #[trigger] longs_read(results, Ok(reported))
                    &&& sorting::rising(ranks@)
                    &&& forall|x: u64| #[trigger]
                        ranks@.contains(x) <==> exists|i: int|
                            0 <= i < counts@[0] && i < max_results && #[trigger] reported@[i] == x
                },
        },
{
    match bytes_as_words(counter) {
        Err(_) => Err(DecodeError::Counter),
        Ok(counts) => {
            match bytes_as_longs(results) {
                Err(e) => {
                    assert(words_read(counter, Ok(counts)));
                    assert(longs_read(results, Err(e)));
                    Err(DecodeError::Results)
                },
                Ok(reported) => {
                    assert(words_read(counter, Ok(counts)));
                    assert(longs_read(results, Ok(reported)));
                    assert(bytes::memory_of_words(counts@, counter@));
                    assert(bytes::memory_of_longs(reported@, results@));
                    let count: u32 = counts[0];
                    let ranks: Vec<u64> = collect_ranks(reported.as_slice(), count, max_results);
                    proof {
                        let kept = if count <= max_results { count as int } else { max_results as int };
                        assert forall|x: u64| #[trigger]
                            ranks@.contains(x) <==> exists|i: int|
                                0 <= i < counts@[0] && i < max_results && #[trigger] reported@[i]
                                    == x by {
                            let first = reported@.take(kept);
                            if first.contains(x) {
                                let i = choose|i: int| 0 <= i < first.len() && first[i] == x;
                                assert(reported@[i] == x);
                            }
                            if exists|i: int|
                                0 <= i < counts@[0] && i < max_results && #[trigger] reported@[i]
                                    == x {
                                let i = choose|i: int|
                                    0 <= i < counts@[0] && i < max_results
                                        && #[trigger] reported@[i] == x;
                                assert(first[i] == x);
                            }
                        }
                    }
                    Ok(ranks)
                },
            }
        },
    }
}

/// Buffers that can be read are read: where neither cast can fail the answer is read, and a buffer
/// is only refused where its own cast may fail, the results only where the counter could be read.
pub proof fn law_readable_buffers_are_read(
    counter: &[u8],
    results: &[u8],
    max_results: u32,
    res: Result<Vec<u64>, DecodeError>,
)
    requires
        call_requires(decode_ranks, (counter, results, max_results)),
        call_ensures(decode_ranks, (counter, results, max_results), res),
    ensures
        (forall|e: PodCastError| !#[trigger] words_read(counter, Err(e))) && (forall|
            e: PodCastError,
        | !#[trigger] longs_read(results, Err(e))) ==> res is Ok,
        (forall|e: PodCastError| !#[trigger] words_read(counter, Err(e))) ==> res != Err::<
            Vec<u64>,
            DecodeError,
        >(DecodeError::Counter),
        (forall|e: PodCastError| !#[trigger] longs_read(results, Err(e))) ==> res != Err::<
            Vec<u64>,
            DecodeError,
        >(DecodeError::Results),
        (forall|counts: Vec<u32>| !#[trigger] words_read(counter, Ok(counts))) ==> res
            == Err::<Vec<u64>, DecodeError>(DecodeError::Counter),
        (forall|reported: Vec<u64>| !#[trigger] longs_read(results, Ok(reported)))
            ==> res is Err,
{
    law_refused_words_cannot_be_read(counter);
}

/// What is read of an answer: each rank among the first that the GPU wrote down, as many as it
/// counted and had room for, is there once, smaller ones before larger ones, and nothing else.
pub proof fn law_answer_is_read_in_order(
    counter: &[u8],
    results: &[u8],
    max_results: u32,
    ranks: Vec<u64>,
    i: int,
    j: int,
)
    requires
        call_requires(decode_ranks, (counter, results, max_results)),
        call_ensures(
            decode_ranks,
            (counter, results, max_results),
            Ok::<Vec<u64>, DecodeError>(ranks),
        ),
        0 <= i < j < ranks@.len(),
    ensures
        ranks@[i] < ranks@[j],
        exists|counts: Vec<u32>, reported: Vec<u64>|
            {
                &&& #[trigger] words_read(counter, Ok(counts))
                &&& #[trigger] longs_read(results, Ok(reported))
                &&& forall|x: u64| #[trigger]
                    ranks@.contains(x) <==> exists|k: int|
                        0 <= k < counts@[0] && k < max_results && #[trigger] reported@[k] == x
            },
{
}

/// The canonical ones among the rulers with the first `count` of the given ranks, in that order.
pub open spec fn canonical_rulers(
    length: int,
    num_segments: int,
    ranks: Seq<u64>,
    count: int,
) -> Seq<Seq<u8>>
    decreases count,
{
    if count <= 0 {
        Seq::empty()
    } else {
        let before = canonical_rulers(length, num_segments, ranks, count - 1);
        let s = ranking::ruler_at(length, num_segments, ranks[count - 1] as int);
        if symmetry::canonical(s) {
            before.push(s)
        } else {
            before
        }
    }
}

/// Answers that come in one after the other lead to the rulers of all of them.
pub proof fn law_answers_add_up(
    length: int,
    num_segments: int,
    first: Seq<u64>,
    second: Seq<u64>,
    count: int,
)
    requires
        0 <= count <= second.len(),
    ensures
        canonical_rulers(length, num_segments, first + second, first.len() + count)
            == canonical_rulers(length, num_segments, first, first.len() as int)
            + canonical_rulers(length, num_segments, second, count),
    decreases count,
{
    let before = canonical_rulers(length, num_segments, first, first.len() as int);
    if count > 0 {
        law_answers_add_up(length, num_segments, first, second, count - 1);
        assert((first + second)[first.len() + count - 1] == second[count - 1]);
        assert(canonical_rulers(length, num_segments, first + second, first.len() + count)
            =~= before + canonical_rulers(length, num_segments, second, count));
    } else {
        lemma_canonical_rulers_frame(
            length,
            num_segments,
            first + second,
            first,
            first.len() as int,
        );
        assert(before =~= before + canonical_rulers(length, num_segments, second, 0));
    }
}

/// Only the ranks that are counted matter.
proof fn lemma_canonical_rulers_frame(
    length: int,
    num_segments: int,
    a: Seq<u64>,
    b: Seq<u64>,
    count: int,
)
    requires
        count <= a.len(),
        count <= b.len(),
        forall|i: int| 0 <= i < count ==> #[trigger] a[i] == b[i],
    ensures
        canonical_rulers(length, num_segments, a, count) == canonical_rulers(
            length,
            num_segments,
            b,
            count,
        ),
    decreases count,
{
    if count > 0 {
        lemma_canonical_rulers_frame(length, num_segments, a, b, count - 1);
        assert(a[count - 1] == b[count - 1]);
    }
}

/// The number of ranks that some batches cover together.
pub open spec fn covered_by(batches: Seq<u64>) -> int
    decreases batches.len(),
{
    if batches.len() == 0 {
        0
    } else {
        covered_by(batches.drop_last()) + batches.last()
    }
}

/// The oldest batch covers what is missing once it is taken away.
proof fn lemma_covered_by_oldest(batches: Seq<u64>)
    requires
        batches.len() > 0,
    ensures
        covered_by(batches) == batches[0] + covered_by(batches.drop_first()),
    decreases batches.len(),
{
    if batches.len() > 1 {
        lemma_covered_by_oldest(batches.drop_last());
        assert(batches.drop_last().drop_first() =~= batches.drop_first().drop_last());
    } else {
        assert(covered_by(batches.drop_last()) == 0);
    }
}

/// Batches cover no negative number of ranks.
proof fn lemma_covered_by_counts(batches: Seq<u64>)
    ensures
        covered_by(batches) >= 0,
    decreases batches.len(),
{
    if batches.len() > 0 {
        lemma_covered_by_counts(batches.drop_last());
    }
}

/// What the host does next.
pub enum GpuStep {
    /// Submit a batch.
    Submit(SearchParams),
    /// Wait for the oldest batch that is in flight, and hand over the ranks it reports.
    Wait,
    /// Stop, and finish the search.
    Stop,
}

/// A search of a range of ranks by the GPU, batch by batch.
pub struct GpuRange {
    length: u8,
    num_segments: u8,
    start_rank: u64,
    current_rank: u64,
    end_rank: u64,
    evaluated: u64,
    in_flight: Vec<u64>,
    found: Vec<Vec<u8>>,
    answered: bool,
}

impl GpuRange {
    pub closed spec fn length(&self) -> int {
        self.length as int
    }

    pub closed spec fn num_segments(&self) -> int {
        self.num_segments as int
    }

    pub closed spec fn start_rank(&self) -> int {
        self.start_rank as int
    }

    /// How many ranks the answered batches covered.
    pub closed spec fn evaluated(&self) -> int {
        self.evaluated as int
    }

    /// The rank up to which batches have been submitted.
    pub closed spec fn current_rank(&self) -> int {
        self.current_rank as int
    }

    pub closed spec fn end_rank(&self) -> int {
        self.end_rank as int
    }

    /// How many ranks each batch in flight covers, oldest first.
    pub closed spec fn in_flight(&self) -> Seq<u64> {
        self.in_flight@
    }

    /// The canonical rulers among those reported so far.
    pub closed spec fn found(&self) -> Seq<Seq<u8>> {
        range_search::contents(self.found@)
    }

    /// Whether a batch was answered since the last look at the interrupt flag.
    pub closed spec fn answered(&self) -> bool {
        self.answered
    }

    /// The rank up to which batches have been answered.
    pub open spec fn answered_upto(&self) -> int {
        self.current_rank() - covered_by(self.in_flight())
    }

    /// The batches in flight and those that have been answered make up what has been submitted, and
    /// nothing is submitted beyond the range.
    pub open spec fn wf(&self) -> bool {
        &&& self.start_rank() + self.evaluated() == self.answered_upto()
        &&& self.start_rank() <= self.current_rank()
        &&& self.start_rank() <= self.end_rank() ==> self.current_rank() <= self.end_rank()
    }

    /// Whether a batch is submitted next, if the search may go on.
    pub open spec fn has_room(&self) -> bool {
        self.current_rank() < self.end_rank() && self.in_flight().len() < MAX_IN_FLIGHT
    }

    /// The threads of the next batch: a full batch, or enough for what is left.
    pub open spec fn next_threads(&self) -> int {
        let left = self.end_rank() - self.current_rank();
        if left >= STEPS_PER_BATCH {
            THREADS_PER_BATCH as int
        } else {
            ceil_div(left, STEPS_PER_THREAD as int)
        }
    }

    /// The ranks that the next batch covers.
    pub open spec fn next_covers(&self) -> int {
        let left = self.end_rank() - self.current_rank();
        if left >= STEPS_PER_BATCH {
            STEPS_PER_BATCH as int
        } else {
            left
        }
    }

    /// Starts the search of ranks `start_rank..end_rank`.
    pub fn new(length: u8, num_segments: u8, start_rank: u64, end_rank: u64) -> (res: Self)
        ensures
            res.length() == length,
            res.num_segments() == num_segments,
            res.wf(),
            res.start_rank() == start_rank,
            res.evaluated() == 0,
            res.current_rank() == start_rank,
            res.end_rank() == end_rank,
            res.in_flight() == Seq::<u64>::empty(),
            res.found() == Seq::<Seq<u8>>::empty(),
            !res.answered(),
    {
        let res = GpuRange {
            length,
            num_segments,
            start_rank,
            current_rank: start_rank,
            end_rank,
            evaluated: 0,
            in_flight: Vec::new(),
            found: Vec::new(),
            answered: false,
        };
        assert(range_search::contents(res.found@) =~= Seq::<Seq<u8>>::empty());
        res
    }

    /// Whether `step` is what comes next after `before`, with what is then in flight.
    pub open spec fn has_decided(&self, before: &GpuRange, running: bool, step: GpuStep) -> bool {
        &&& self.length() == before.length()
        &&& self.num_segments() == before.num_segments()
        &&& self.start_rank() == before.start_rank()
        &&& self.end_rank() == before.end_rank()
        &&& self.evaluated() == before.evaluated()
        &&& self.found() == before.found()
        &&& !self.answered()
        &&& match step {
            GpuStep::Submit(params) => {
                &&& running && before.has_room()
                &&& params.length == before.length()
                &&& params.num_segments == before.num_segments()
                &&& params.batch_size == before.next_threads()
                &&& params.start_rank() == before.current_rank()
                &&& params.steps_per_thread == STEPS_PER_THREAD
                &&& params._padding@ == seq![0u32, 0u32]
                &&& self.current_rank() == before.current_rank() + before.next_covers()
                &&& self.in_flight() == before.in_flight().push(before.next_covers() as u64)
            },
            GpuStep::Wait => {
                &&& before.in_flight().len() > 0
                &&& !(running && before.has_room())
                &&& !(before.answered() && !running && before.current_rank() < before.end_rank())
                &&& self.current_rank() == before.current_rank()
                &&& self.in_flight() == before.in_flight()
            },
            GpuStep::Stop => {
                &&& !(running && before.has_room())
                &&& before.in_flight().len() == 0 || (before.answered() && !running
                    && before.current_rank() < before.end_rank())
                &&& self.current_rank() == before.current_rank()
                &&& self.in_flight() == before.in_flight()
            },
        }
    }

    /// Decides what comes next. While `running`, batches are submitted as long as there is room
    /// for them. Once the flag is cleared, and it stays cleared, a search that has not submitted
    /// its whole range takes one more answer and stops, whatever is still in flight.
    pub fn next(&mut self, running: bool) -> (step: GpuStep)
        requires
            old(self).wf(),
        ensures
            final(self).wf(),
            final(self).has_decided(old(self), running, step),
            step is Stop && running ==> {
                &&& old(self).current_rank() >= old(self).end_rank()
                &&& old(self).in_flight().len() == 0
            },
    {
        let answered: bool = self.answered;
        self.answered = false;
        if answered && !running && self.current_rank < self.end_rank {
            return GpuStep::Stop;
        }
        if running && self.current_rank < self.end_rank && self.in_flight.len() < MAX_IN_FLIGHT {
            let left: u64 = self.end_rank - self.current_rank;
            let threads: u32 = if left >= STEPS_PER_BATCH {
                THREADS_PER_BATCH
            } else {
                ((left + STEPS_PER_THREAD as u64 - 1) / STEPS_PER_THREAD as u64) as u32
            };
            let covers: u64 = if left >= STEPS_PER_BATCH {
                STEPS_PER_BATCH
            } else {
                left
            };
            let low: u64 = self.current_rank % 0x1_0000_0000;
            let high: u64 = self.current_rank / 0x1_0000_0000;
            let params = SearchParams {
                length: self.length as u32,
                num_segments: self.num_segments as u32,
                batch_size: threads,
                start_rank_low: low as u32,
                start_rank_high: high as u32,
                steps_per_thread: STEPS_PER_THREAD,
                _padding: [0, 0],
            };
            assert(params._padding@ =~= seq![0u32, 0u32]);
            self.in_flight.push(covers);
            assert(self.in_flight@.drop_last() =~= old(self).in_flight@);
            self.current_rank = self.current_rank + covers;
            return GpuStep::Submit(params);
        }
        if self.in_flight.len() > 0 {
            GpuStep::Wait
        } else {
            GpuStep::Stop
        }
    }

    /// Takes the answer to the oldest batch in flight. Returns how many ranks the batch covered.
    pub fn absorb(&mut self, ranks: &Vec<u64>) -> (covered: u64)
        requires
            old(self).wf(),
            old(self).in_flight().len() > 0,
            forall|i: int|
                0 <= i < ranks@.len() ==> #[trigger] ranks@[i] < ranking::space_size(
                    old(self).length(),
                    old(self).num_segments(),
                ),
        ensures
            covered == old(self).in_flight()[0],
            final(self).wf(),
            final(self).start_rank() == old(self).start_rank(),
            final(self).evaluated() == old(self).evaluated() + covered,
            final(self).in_flight() == old(self).in_flight().drop_first(),
            final(self).found() == old(self).found() + canonical_rulers(
                old(self).length(),
                old(self).num_segments(),
                ranks@,
                ranks@.len() as int,
            ),
            final(self).answered(),
            final(self).length() == old(self).length(),
            final(self).num_segments() == old(self).num_segments(),
            final(self).current_rank() == old(self).current_rank(),
            final(self).end_rank() == old(self).end_rank(),
    {
        let covered: u64 = self.in_flight.remove(0);
        assert(self.in_flight@ =~= old(self).in_flight@.drop_first());
        proof {
            lemma_covered_by_oldest(old(self).in_flight@);
            lemma_covered_by_counts(self.in_flight@);
        }
        self.evaluated = self.evaluated + covered;
        self.answered = true;
        let mut i: usize = 0;
        assert(range_search::contents(self.found@) =~= old(self).found() + Seq::<Seq<u8>>::empty());
        while i < ranks.len()
            invariant
                i <= ranks@.len(),
                self.length == old(self).length,
                self.num_segments == old(self).num_segments,
                self.start_rank == old(self).start_rank,
                self.evaluated == old(self).evaluated + covered,
                self.current_rank == old(self).current_rank,
                self.end_rank == old(self).end_rank,
                self.in_flight@ == old(self).in_flight@.drop_first(),
                self.answered,
                forall|i: int|
                    0 <= i < ranks@.len() ==> #[trigger] ranks@[i] < ranking::space_size(
                        old(self).length(),
                        old(self).num_segments(),
                    ),
                range_search::contents(self.found@) == old(self).found() + canonical_rulers(
                    old(self).length(),
                    old(self).num_segments(),
                    ranks@,
                    i as int,
                ),
            decreases ranks@.len() - i,
        {
            let rank: u64 = ranks[i];
            proof {
                let l = self.length as int;
                let n = self.num_segments as int;
                ranking::law_every_rank_has_a_ruler(l, n, rank as int);
                ruler::lemma_mark_grows(ranking::ruler_at(l, n, rank as int), 0, n);
            }
            let r: Vec<u8> = unrank(self.length, self.num_segments, rank);
            if is_canonical(r.as_slice()) {
                let ghost before = self.found@;
                let ghost now = r@;
                self.found.push(r);
                assert(range_search::contents(self.found@) =~= range_search::contents(
                    before,
                ).push(now));
            }
            assert(range_search::contents(self.found@) =~= old(self).found() + canonical_rulers(
                old(self).length(),
                old(self).num_segments(),
                ranks@,
                i + 1,
            ));
            i = i + 1;
        }
        covered
    }

    /// The canonical rulers among those reported so far.
    pub fn found_rulers(&self) -> (res: &Vec<Vec<u8>>)
        ensures
            range_search::contents(res@) == self.found(),
    {
        &self.found
    }

    /// The rulers found, sorted and each of them once, how many ranks were searched for them, and
    /// whether the whole range was submitted.
    pub fn finish(self) -> (res: (Vec<Vec<u8>>, u64, bool))
        ensures
            sorting::ascending(range_search::contents(res.0@)),
            forall|r: Seq<u8>| #[trigger]
                range_search::contents(res.0@).contains(r) <==> self.found().contains(r),
            res.1 == self.evaluated(),
            res.2 == (self.current_rank() >= self.end_rank()),
    {
        (sort_rulers(self.found), self.evaluated, self.current_rank >= self.end_rank)
    }
}

/// The threads of a batch have steps for all the ranks that it covers, and are no more than those
/// of a full batch.
pub proof fn law_batch_has_enough_steps(search: &GpuRange)
    requires
        search.current_rank() < search.end_rank(),
    ensures
        1 <= search.next_threads() <= THREADS_PER_BATCH,
        search.next_threads() * STEPS_PER_THREAD >= search.next_covers() >= 1,
        search.current_rank() + search.next_covers() <= search.end_rank(),
{
}

/// A range that is driven with the flag set is only stopped once it is finished: its whole range
/// has been submitted, every batch has been answered, and every rank has been counted.
pub proof fn law_running_range_is_finished(before: &GpuRange, after: &GpuRange)
    requires
        before.wf(),
        before.start_rank() <= before.end_rank(),
        after.has_decided(before, true, GpuStep::Stop),
    ensures
        after.current_rank() == after.end_rank() == before.end_rank(),
        after.in_flight().len() == 0,
        after.evaluated() == before.end_rank() - before.start_rank(),
        after.found() == before.found(),
{
}

/// A range that is driven with the flag set submits a batch as long as there is something left to
/// submit and nothing to wait for, and waits for an answer only where one is due.
pub proof fn law_running_range_goes_on(
    before: &GpuRange,
    after: &GpuRange,
    running: bool,
    step: GpuStep,
)
    requires
        before.wf(),
        before.start_rank() <= before.end_rank(),
        after.has_decided(before, running, step),
    ensures
        running && before.current_rank() < before.end_rank() && before.in_flight().len() == 0
            ==> step is Submit,
        before.in_flight().len() > 0 && running ==> step !is Stop,
        before.in_flight().len() == 0 ==> step !is Wait,
{
}

/// Batches are submitted one after the other without a gap: the threads of a batch, each with its
/// steps, search every rank from where the batch before it ended up to where the next one begins,
/// which lies further on and not beyond the range. The rank is handed over in two halves.
pub proof fn law_batches_leave_no_gap(
    before: &GpuRange,
    after: &GpuRange,
    running: bool,
    params: SearchParams,
)
    requires
        before.wf(),
        after.has_decided(before, running, GpuStep::Submit(params)),
    ensures
        running,
        params.length == before.length(),
        params.num_segments == before.num_segments(),
        params.start_rank_high * 0x1_0000_0000 + params.start_rank_low == before.current_rank(),
        before.current_rank() < after.current_rank() <= before.end_rank(),
        after.current_rank() <= before.current_rank() + params.batch_size * params.steps_per_thread,
        after.in_flight() == before.in_flight().push(
            (after.current_rank() - before.current_rank()) as u64,
        ),
{
    law_batch_has_enough_steps(before);
}

/// Once the flag is cleared nothing more is submitted, and a range with something left to submit
/// stops after the next answer.
pub proof fn law_cleared_range_stops(before: &GpuRange, after: &GpuRange, step: GpuStep)
    requires
        after.has_decided(before, false, step),
    ensures
        step !is Submit,
        before.answered() && before.current_rank() < before.end_rank() ==> step is Stop,
        before.in_flight().len() == 0 ==> step is Stop,
        before.in_flight().len() > 0 && before.current_rank() >= before.end_rank() ==> step is Wait,
{
}

/// A search never counts more ranks than it has submitted. Where it stops with its whole range
/// submitted and nothing in flight, it has counted every rank of the range.
pub proof fn law_stopped_search_is_answered(search: &GpuRange)
    requires
        search.wf(),
        search.start_rank() <= search.end_rank(),
    ensures
        search.evaluated() <= search.end_rank() - search.start_rank(),
        search.current_rank() == search.end_rank() && search.in_flight().len() == 0
            ==> search.evaluated() == search.end_rank() - search.start_rank(),
{
    lemma_covered_by_counts(search.in_flight());
}

/// A GPU that reports, for every rank of a range and no other, whether its ruler is complete
/// leads to the same rulers, in the same order, as a search of that range.
pub proof fn law_gpu_search_agrees(
    length: int,
    num_segments: int,
    start_rank: int,
    end_rank: int,
    ranks: Seq<u64>,
    found: Seq<Seq<u8>>,
)
    requires
        length <= 255,
        0 <= start_rank <= end_rank <= ranking::space_size(length, num_segments),
        forall|r: u64| #[trigger]
            ranks.contains(r) <==> start_rank <= r < end_rank && ruler::complete(
                ranking::ruler_at(length, num_segments, r as int),
            ),
        end_rank <= u64::MAX,
        sorting::ascending(found),
        forall|s: Seq<u8>| #[trigger]
            found.contains(s) <==> canonical_rulers(
                length,
                num_segments,
                ranks,
                ranks.len() as int,
            ).contains(s),
    ensures
        found == range_search::solutions_between(length, num_segments, start_rank, end_rank),
{
    let n = num_segments;
    let all = range_search::solutions_between(length, n, start_rank, end_rank);
    let picked = canonical_rulers(length, n, ranks, ranks.len() as int);
    assert forall|i: int, j: int| 0 <= i < j < all.len() implies symmetry::lex_less(
        #[trigger] all[i],
        #[trigger] all[j],
    ) by {
        crate::laws::law_found_rulers_are_in_order(length, n, start_rank, end_rank, i, j);
    }
    assert forall|s: Seq<u8>|
        #![trigger found.contains(s)]
        #![trigger all.contains(s)]
        found.contains(s) <==> all.contains(s) by {
        if all.contains(s) {
            let i = choose|i: int| 0 <= i < all.len() && all[i] == s;
            crate::laws::law_found_rulers_are_solutions(length, n, start_rank, end_rank, i);
            let r = ranking::rank_of(s, length, n) as u64;
            ranking::law_unrank_inverts_rank(s, length, n);
            assert(ranks.contains(r));
            let k = choose|k: int| 0 <= k < ranks.len() && ranks[k] == r;
            lemma_canonical_rulers(length, n, ranks, ranks.len() as int, s);
            assert(picked.contains(s));
        }
        if found.contains(s) {
            assert(picked.contains(s));
            law_gpu_reports_only_solutions(length, n, start_rank, end_rank, ranks, s);
        }
    }
    sorting::lemma_ascending_lists_agree(found, all);
}

/// A GPU that reports ranks of a range whose rulers are complete, and no others, leads only to
/// rulers that a search of that range finds, even where its answers are not all in.
pub proof fn law_gpu_reports_only_solutions(
    length: int,
    num_segments: int,
    start_rank: int,
    end_rank: int,
    ranks: Seq<u64>,
    s: Seq<u8>,
)
    requires
        length <= 255,
        0 <= start_rank <= end_rank <= ranking::space_size(length, num_segments),
        forall|r: u64| #[trigger]
            ranks.contains(r) ==> start_rank <= r < end_rank && ruler::complete(
                ranking::ruler_at(length, num_segments, r as int),
            ),
        canonical_rulers(length, num_segments, ranks, ranks.len() as int).contains(s),
    ensures
        range_search::solutions_between(length, num_segments, start_rank, end_rank).contains(s),
{
    lemma_canonical_rulers(length, num_segments, ranks, ranks.len() as int, s);
    let k = choose|k: int|
        0 <= k < ranks.len() && s == #[trigger] ranking::ruler_at(
            length,
            num_segments,
            ranks[k] as int,
        ) && symmetry::canonical(s);
    assert(ranks.contains(ranks[k]));
    ranking::law_every_rank_has_a_ruler(length, num_segments, ranks[k] as int);
    crate::laws::law_no_solution_is_missed(s, length, num_segments, start_rank, end_rank);
}

/// What [`canonical_rulers`] picks.
proof fn lemma_canonical_rulers(
    length: int,
    num_segments: int,
    ranks: Seq<u64>,
    count: int,
    s: Seq<u8>,
)
    requires
        0 <= count <= ranks.len(),
    ensures
        canonical_rulers(length, num_segments, ranks, count).contains(s) <==> exists|k: int|
            0 <= k < count && s == #[trigger] ranking::ruler_at(
                length,
                num_segments,
                ranks[k] as int,
            ) && symmetry::canonical(s),
    decreases count,
{
    if count > 0 {
        lemma_canonical_rulers(length, num_segments, ranks, count - 1, s);
        let before = canonical_rulers(length, num_segments, ranks, count - 1);
        let all = canonical_rulers(length, num_segments, ranks, count);
        let last = ranking::ruler_at(length, num_segments, ranks[count - 1] as int);
        if before.contains(s) {
            let i = choose|i: int| 0 <= i < before.len() && before[i] == s;
            assert(all[i] == s);
        }
        if s == last && symmetry::canonical(s) {
            assert(all[all.len() - 1] == s);
        }
        if all.contains(s) {
            let i = choose|i: int| 0 <= i < all.len() && all[i] == s;
            if i < before.len() {
                assert(before[i] == s);
            }
        }
    }
}

/// Of the ranks that a GPU reports, the rulers that are kept are those that are least among their
/// rotations and reflections, and all of them.
pub proof fn law_reported_rulers_are_least(
    length: int,
    num_segments: int,
    ranks: Seq<u64>,
    s: Seq<u8>,
)
    requires
        length <= 255,
        forall|i: int|
            0 <= i < ranks.len() ==> #[trigger] ranks[i] < ranking::space_size(
                length,
                num_segments,
            ),
    ensures
        canonical_rulers(length, num_segments, ranks, ranks.len() as int).contains(s) <==> {
            &&& ranking::in_space(s, length, num_segments)
            &&& symmetry::lex_least(s)
            &&& exists|k: int|
                0 <= k < ranks.len() && #[trigger] ranks[k] == ranking::rank_of(
                    s,
                    length,
                    num_segments,
                )
        },
{
    let n = num_segments;
    let picked = canonical_rulers(length, n, ranks, ranks.len() as int);
    lemma_canonical_rulers(length, n, ranks, ranks.len() as int, s);
    if picked.contains(s) {
        let k = choose|k: int|
            0 <= k < ranks.len() && s == #[trigger] ranking::ruler_at(length, n, ranks[k] as int)
                && symmetry::canonical(s);
        ranking::law_every_rank_has_a_ruler(length, n, ranks[k] as int);
        symmetry::law_canonical_is_lex_least(s);
        assert(ranks[k] == ranking::rank_of(s, length, n));
    }
    if ranking::in_space(s, length, n) && symmetry::lex_least(s) && exists|k: int|
        0 <= k < ranks.len() && #[trigger] ranks[k] == ranking::rank_of(s, length, n) {
        let k = choose|k: int|
            0 <= k < ranks.len() && #[trigger] ranks[k] == ranking::rank_of(s, length, n);
        ranking::law_unrank_inverts_rank(s, length, n);
        symmetry::law_canonical_is_lex_least(s);
        assert(s == ranking::ruler_at(length, n, ranks[k] as int));
    }
}

/// The order in which a batch's parameters lie in memory, a word each.
pub proof fn law_parameters_lie_in_order(params: &SearchParams)
    ensures
        params.words().len() == 8,
        params.words()[0] == params.length,
        params.words()[1] == params.num_segments,
        params.words()[2] == params.batch_size,
        params.words()[3] == params.start_rank_low,
        params.words()[4] == params.start_rank_high,
        params.words()[5] == params.steps_per_thread,
        params.words()[6] == params._padding@[0],
        params.words()[7] == params._padding@[1],
{
}

} // verus!
