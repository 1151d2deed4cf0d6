//! What a search of the whole space is good for: it finds every complete ruler once, and
//! a first success, counting segments upwards, is minimal.
use vstd::prelude::*;

use crate::lower_bound;
use crate::range_search;
use crate::range_search::{search_range, RangeContext};
use crate::ranking;
use crate::ruler;
use crate::symmetry;

verus! {

/// Searching two adjoining ranges finds what searching both at once finds.
pub proof fn law_ranges_concatenate(
    length: int,
    num_segments: int,
    from: int,
    middle: int,
    to: int,
)
    requires
        from <= middle <= to,
    ensures
        range_search::solutions_between(length, num_segments, from, to)
            == range_search::solutions_between(length, num_segments, from, middle)
            + range_search::solutions_between(length, num_segments, middle, to),
    decreases to - middle,
{
    if middle == to {
        assert(range_search::solutions_between(length, num_segments, middle, to) =~= Seq::<
            Seq<u8>,
        >::empty());
        assert(range_search::solutions_between(length, num_segments, from, to)
            =~= range_search::solutions_between(length, num_segments, from, middle)
            + range_search::solutions_between(length, num_segments, middle, to));
    } else {
        law_ranges_concatenate(length, num_segments, from, middle, to - 1);
        assert(range_search::solutions_between(length, num_segments, from, to)
            =~= range_search::solutions_between(length, num_segments, from, middle)
            + range_search::solutions_between(length, num_segments, middle, to));
    }
}

/// Each ruler that a search of ranks `from..to` reports is a complete and canonical ruler of the
/// search space with a rank in that range.
pub proof fn law_found_rulers_are_solutions(
    length: int,
    num_segments: int,
    from: int,
    to: int,
    i: int,
)
    requires
        length <= 255,
        0 <= from,
        to <= ranking::space_size(length, num_segments),
        0 <= i < range_search::solutions_between(length, num_segments, from, to).len(),
    ensures
        ({
            let s = range_search::solutions_between(length, num_segments, from, to)[i];
            &&& ranking::in_space(s, length, num_segments)
            &&& from <= ranking::rank_of(s, length, num_segments) < to
            &&& symmetry::canonical(s)
            &&& ruler::complete(s)
        }),
    decreases to - from,
{
    let before = range_search::solutions_between(length, num_segments, from, to - 1);
    ranking::law_every_rank_has_a_ruler(length, num_segments, to - 1);
    if i < before.len() {
        law_found_rulers_are_solutions(length, num_segments, from, to - 1, i);
    }
}

/// A search reports its rulers in the order of the dictionary, and none of them twice.
pub proof fn law_found_rulers_are_in_order(
    length: int,
    num_segments: int,
    from: int,
    to: int,
    i: int,
    j: int,
)
    requires
        length <= 255,
        0 <= from,
        to <= ranking::space_size(length, num_segments),
        0 <= i < j < range_search::solutions_between(length, num_segments, from, to).len(),
    ensures
        symmetry::lex_less(
            range_search::solutions_between(length, num_segments, from, to)[i],
            range_search::solutions_between(length, num_segments, from, to)[j],
        ),
    decreases to - from,
{
    let all = range_search::solutions_between(length, num_segments, from, to);
    let before = range_search::solutions_between(length, num_segments, from, to - 1);
    if j < before.len() {
        law_found_rulers_are_in_order(length, num_segments, from, to - 1, i, j);
    } else {
        law_found_rulers_are_solutions(length, num_segments, from, to - 1, i);
        law_found_rulers_are_solutions(length, num_segments, from, to, j);
        ranking::law_every_rank_has_a_ruler(length, num_segments, to - 1);
        ranking::law_rank_is_dictionary_order(all[i], all[j], length, num_segments);
    }
}

/// Each solution with a rank in the range is reported.
pub proof fn law_no_solution_is_missed(
    s: Seq<u8>,
    length: int,
    num_segments: int,
    from: int,
    to: int,
)
    requires
        ranking::in_space(s, length, num_segments),
        range_search::is_solution(s),
        from <= ranking::rank_of(s, length, num_segments) < to,
    ensures
        range_search::solutions_between(length, num_segments, from, to).contains(s),
    decreases to - from,
{
    let rank = ranking::rank_of(s, length, num_segments) as int;
    let all = range_search::solutions_between(length, num_segments, from, to);
    let before = range_search::solutions_between(length, num_segments, from, to - 1);
    if rank < to - 1 {
        law_no_solution_is_missed(s, length, num_segments, from, to - 1);
        let i = choose|i: int| 0 <= i < before.len() && before[i] == s;
        assert(all[i] == s);
    } else {
        ranking::law_unrank_inverts_rank(s, length, num_segments);
        assert(all[all.len() - 1] == s);
    }
}

/// A complete ruler of length at least 2 has a segment of length 1.
proof fn lemma_has_unit_segment(s: Seq<u8>) -> (i: int)
    requires
        s.len() >= 1,
        ruler::all_positive(s),
        ruler::complete(s),
        ruler::ruler_length(s) >= 2,
    ensures
        0 <= i < s.len(),
        s[i] == 1,
{
    let n = s.len() as int;
    assert(ruler::measures(s, 1));
    let (i, m) = choose|i: int, m: int|
        0 <= i < s.len() && 1 <= m <= s.len() && #[trigger] ruler::arc(s, i, m) == 1;
    lemma_arc_at_least(s, i, m - 1);
    let last = (i + m - 1) % n;
    assert(s[last] >= 1);
    vstd::arithmetic::div_mod::lemma_small_mod(i as nat, n as nat);
    assert(m == 1);
    assert(ruler::arc(s, i, 0) == 0);
    i
}

/// An arc of positive segments is at least as long as they are many.
proof fn lemma_arc_at_least(s: Seq<u8>, i: int, m: int)
    requires
        s.len() >= 1,
        ruler::all_positive(s),
        m >= 0,
    ensures
        ruler::arc(s, i, m) >= m,
    decreases m,
{
    if m > 0 {
        lemma_arc_at_least(s, i, m - 1);
        assert(s[(i + m - 1) % (s.len() as int)] >= 1);
    }
}

/// The search of the whole space finds every complete ruler: of all ways to write a complete ruler
/// down, by rotation and reflection, it reports exactly one.
pub proof fn law_search_finds_each_complete_ruler_once(
    s: Seq<u8>,
    length: int,
    num_segments: int,
)
    requires
        length <= 255,
        num_segments >= 2,
        ruler::is_ruler(s, length, num_segments),
        ruler::complete(s),
    ensures
        ({
            let found = range_search::solutions_between(
                length,
                num_segments,
                0,
                ranking::space_size(length, num_segments) as int,
            );
            &&& exists|i: int| 0 <= i < found.len() && symmetry::symmetric(s, #[trigger] found[i])
            &&& forall|i: int, j: int|
                0 <= i < found.len() && 0 <= j < found.len() && symmetry::symmetric(
                    s,
                    #[trigger] found[i],
                ) && symmetry::symmetric(s, #[trigger] found[j]) ==> i == j
        }),
{
    let n = num_segments;
    let size = ranking::space_size(length, n) as int;
    let found = range_search::solutions_between(length, n, 0, size);
    ruler::lemma_mark_grows(s, 0, n);
    let unit = lemma_has_unit_segment(s);
    let least = symmetry::law_lex_least_exists(s);
    symmetry::law_symmetry_keeps_rulers(s, least);
    lemma_least_starts_with_unit(s, least, unit);
    symmetry::law_canonical_is_lex_least(least);
    ranking::lemma_rank_in_range(least, length, n);
    law_no_solution_is_missed(least, length, n, 0, size);
    let i = choose|i: int| 0 <= i < found.len() && found[i] == least;
    assert(symmetry::symmetric(s, found[i]));
    assert forall|i: int, j: int|
        0 <= i < found.len() && 0 <= j < found.len() && symmetry::symmetric(s, #[trigger] found[i])
            && symmetry::symmetric(s, #[trigger] found[j]) implies i == j by {
        law_found_rulers_are_solutions(length, n, 0, size, i);
        law_found_rulers_are_solutions(length, n, 0, size, j);
        symmetry::law_canonical_is_lex_least(found[i]);
        symmetry::law_canonical_is_lex_least(found[j]);
        lemma_symmetric_through(s, found[i], found[j]);
        symmetry::law_lex_least_is_unique(found[i], found[j]);
        if i < j {
            law_found_rulers_are_in_order(length, n, 0, size, i, j);
            symmetry::lemma_lex_irreflexive(found[i]);
        } else if j < i {
            law_found_rulers_are_in_order(length, n, 0, size, j, i);
            symmetry::lemma_lex_irreflexive(found[i]);
        }
    }
}

/// The least image of a ruler with a segment of length 1 starts with one.
proof fn lemma_least_starts_with_unit(s: Seq<u8>, least: Seq<u8>, unit: int)
    requires
        0 <= unit < s.len(),
        s[unit] == 1,
        symmetry::symmetric(s, least),
        symmetry::lex_least(least),
        ruler::all_positive(least),
        least.len() == s.len(),
    ensures
        least[0] == 1,
{
    let n = s.len() as int;
    let from_unit = symmetry::image(s, unit, false);
    vstd::arithmetic::div_mod::lemma_small_mod(unit as nat, n as nat);
    assert(from_unit[0] == 1);
    assert(symmetry::symmetric(s, from_unit));
    lemma_symmetric_through(s, least, from_unit);
    let (i, b) = choose|i: int, b: bool|
        0 <= i < least.len() && from_unit == #[trigger] symmetry::image(least, i, b);
    assert(!symmetry::lex_less(symmetry::image(least, i, b), least));
    if least[0] > 1 {
        assert(symmetry::first_difference(from_unit, least, 0));
    }
}

/// What a search of the whole space reports are the complete rulers that are least among their
/// rotations and reflections, and all of them.
pub proof fn law_search_reports_least_complete_rulers(r: Seq<u8>, length: int, num_segments: int)
    requires
        2 <= length <= 255,
        num_segments >= 2,
    ensures
        range_search::solutions_between(
            length,
            num_segments,
            0,
            ranking::space_size(length, num_segments) as int,
        ).contains(r) <==> ruler::is_ruler(r, length, num_segments) && ruler::complete(r)
            && symmetry::lex_least(r),
{
    let n = num_segments;
    let size = ranking::space_size(length, n) as int;
    let found = range_search::solutions_between(length, n, 0, size);
    if found.contains(r) {
        let i = choose|i: int| 0 <= i < found.len() && found[i] == r;
        law_found_rulers_are_solutions(length, n, 0, size, i);
        symmetry::law_canonical_is_lex_least(r);
    }
    if ruler::is_ruler(r, length, n) && ruler::complete(r) && symmetry::lex_least(r) {
        let unit = lemma_has_unit_segment(r);
        symmetry::lemma_image_identity(r);
        lemma_least_starts_with_unit(r, r, unit);
        symmetry::law_canonical_is_lex_least(r);
        ranking::lemma_rank_in_range(r, length, n);
        law_no_solution_is_missed(r, length, n, 0, size);
    }
}

/// Two images of one ruler are images of each other.
proof fn lemma_symmetric_through(s: Seq<u8>, a: Seq<u8>, b: Seq<u8>)
    requires
        symmetry::symmetric(s, a),
        symmetry::symmetric(s, b),
    ensures
        symmetry::symmetric(a, b),
{
    let n = s.len() as int;
    symmetry::lemma_symmetric_back(s, a);
    let (i, c) = choose|i: int, c: bool| 0 <= i < a.len() && s == #[trigger] symmetry::image(a, i, c);
    let (k, d) = choose|k: int, d: bool| 0 <= k < s.len() && b == #[trigger] symmetry::image(s, k, d);
    symmetry::lemma_image_of_image(a, i, c, k, d);
    let turn = (if c { i - k } else { i + k }) % n;
    assert(b == symmetry::image(a, turn, c != d));
}

/// A first success is minimal: where the searches of the whole space find nothing for every number
/// of segments from the lower bound up to `num_segments`, and something for `num_segments`, there
/// is a complete ruler with that many segments and none with fewer.
pub proof fn law_first_success_is_minimal(length: int, bound: int, num_segments: int)
    requires
        2 <= length <= 255,
        lower_bound::least_with_enough_arcs(bound, length),
        bound <= num_segments,
        forall|k: int|
            bound <= k < num_segments ==> #[trigger] range_search::solutions_between(
                length,
                k,
                0,
                ranking::space_size(length, k) as int,
            ).len() == 0,
        range_search::solutions_between(
            length,
            num_segments,
            0,
            ranking::space_size(length, num_segments) as int,
        ).len() > 0,
    ensures
        exists|s: Seq<u8>| #[trigger]
            ruler::is_ruler(s, length, num_segments) && ruler::complete(s),
        forall|s: Seq<u8>, k: int|
            k < num_segments && #[trigger] ruler::is_ruler(s, length, k) ==> !ruler::complete(s),
{
    let size = ranking::space_size(length, num_segments) as int;
    let found = range_search::solutions_between(length, num_segments, 0, size);
    law_found_rulers_are_solutions(length, num_segments, 0, size, 0);
    assert(ruler::is_ruler(found[0], length, num_segments));
    assert forall|s: Seq<u8>, k: int|
        k < num_segments && #[trigger] ruler::is_ruler(s, length, k) implies !ruler::complete(
        s,
    ) by {
        if ruler::complete(s) {
            lower_bound::law_lower_bound_is_sound(s, bound);
            assert(bound >= 2) by {
                assert(!lower_bound::enough_arcs(1, length));
            }
            law_search_finds_each_complete_ruler_once(s, length, k);
            assert(range_search::solutions_between(
                length,
                k,
                0,
                ranking::space_size(length, k) as int,
            ).len() == 0);
        }
    }
}

/// A search of a range of the search space that is not interrupted, because no look at the flag
/// finds it cleared, is completed: of the rulers with ranks in the range it reports exactly the
/// complete ones that are least among their rotations and reflections, and it evaluates every rank.
pub proof fn law_undisturbed_search_is_complete(
    ctx: &RangeContext,
    start_rank: u64,
    end_rank: u64,
    res: (Vec<Vec<u8>>, u64, bool),
    s: Seq<u8>,
)
    requires
        call_requires(search_range, (ctx, start_rank, end_rank)),
        call_ensures(search_range, (ctx, start_rank, end_rank), res),
        start_rank <= end_rank <= ranking::space_size(ctx.length as int, ctx.num_segments as int),
        !range_search::may_read(ctx.interrupt, false),
        ranking::in_space(s, ctx.length as int, ctx.num_segments as int),
        start_rank <= ranking::rank_of(s, ctx.length as int, ctx.num_segments as int) < end_rank,
    ensures
        res.2,
        res.1 == end_rank - start_rank,
        range_search::contents(res.0@).contains(s) <==> ruler::complete(s) && symmetry::lex_least(
            s,
        ),
{
    let length = ctx.length as int;
    let n = ctx.num_segments as int;
    let found = range_search::contents(res.0@);
    symmetry::law_canonical_is_lex_least(s);
    if found.contains(s) {
        let i = choose|i: int| 0 <= i < found.len() && found[i] == s;
        law_found_rulers_are_solutions(length, n, start_rank as int, end_rank as int, i);
    }
    if ruler::complete(s) && symmetry::lex_least(s) {
        law_no_solution_is_missed(s, length, n, start_rank as int, end_rank as int);
    }
}

/// A search reports that a range of the search space was left unfinished only where a look at the
/// flag found it cleared. It has then evaluated some of the ranks at the start of the range, and
/// reports of their rulers exactly the complete ones that are least among their rotations and
/// reflections.
pub proof fn law_unfinished_search_was_interrupted(
    ctx: &RangeContext,
    start_rank: u64,
    end_rank: u64,
    res: (Vec<Vec<u8>>, u64, bool),
    s: Seq<u8>,
)
    requires
        call_requires(search_range, (ctx, start_rank, end_rank)),
        call_ensures(search_range, (ctx, start_rank, end_rank), res),
        end_rank <= ranking::space_size(ctx.length as int, ctx.num_segments as int),
        !res.2,
        ranking::in_space(s, ctx.length as int, ctx.num_segments as int),
    ensures
        range_search::may_read(ctx.interrupt, false),
        start_rank + res.1 < end_rank,
        range_search::contents(res.0@).contains(s) <==> {
            &&& start_rank <= ranking::rank_of(s, ctx.length as int, ctx.num_segments as int)
                < start_rank + res.1
            &&& ruler::complete(s)
            &&& symmetry::lex_least(s)
        },
{
    let length = ctx.length as int;
    let n = ctx.num_segments as int;
    let found = range_search::contents(res.0@);
    let reached = start_rank + res.1;
    symmetry::law_canonical_is_lex_least(s);
    if found.contains(s) {
        let i = choose|i: int| 0 <= i < found.len() && found[i] == s;
        law_found_rulers_are_solutions(length, n, start_rank as int, reached, i);
    }
    if start_rank <= ranking::rank_of(s, length, n) < reached && ruler::complete(s)
        && symmetry::lex_least(s) {
        law_no_solution_is_missed(s, length, n, start_rank as int, reached);
    }
}

/// Three searches, of two adjoining ranges and of both at once, that are all completed: the third
/// reports what the first and the second report, in that order, and counts as many evaluations.
pub proof fn law_searches_of_adjoining_ranges_agree(
    ctx: &RangeContext,
    from: u64,
    middle: u64,
    to: u64,
    first: (Vec<Vec<u8>>, u64, bool),
    second: (Vec<Vec<u8>>, u64, bool),
    both: (Vec<Vec<u8>>, u64, bool),
)
    requires
        from <= middle <= to,
        call_requires(search_range, (ctx, from, middle)),
        call_requires(search_range, (ctx, middle, to)),
        call_requires(search_range, (ctx, from, to)),
        call_ensures(search_range, (ctx, from, middle), first),
        call_ensures(search_range, (ctx, middle, to), second),
        call_ensures(search_range, (ctx, from, to), both),
        first.2 && second.2 && both.2,
    ensures
        range_search::contents(both.0@) == range_search::contents(first.0@)
            + range_search::contents(second.0@),
        both.1 == first.1 + second.1,
{
    law_ranges_concatenate(
        ctx.length as int,
        ctx.num_segments as int,
        from as int,
        middle as int,
        to as int,
    );
}

/// A cleared flag is noticed: where a look that is due before the ruler with some rank of the range
/// does not find the flag set, the search ends there at the latest and reports the range as
/// unfinished.
pub proof fn law_cleared_flag_is_noticed(
    ctx: &RangeContext,
    start_rank: u64,
    end_rank: u64,
    res: (Vec<Vec<u8>>, u64, bool),
    rank: int,
)
    requires
        call_requires(search_range, (ctx, start_rank, end_rank)),
        call_ensures(search_range, (ctx, start_rank, end_rank), res),
        start_rank <= rank < end_rank,
        range_search::looks_at(
            ctx.length as int,
            ctx.num_segments as int,
            start_rank as int,
            rank,
        ),
        !range_search::may_find(ctx, rank - start_rank, true),
    ensures
        !res.2,
        start_rank + res.1 <= rank,
{
}

/// The first look is due at once, and one at every 1024th rank from there on whose predecessor is
/// not skipped.
pub proof fn law_looks_are_due(length: int, num_segments: int, start_rank: int, count: int)
    requires
        count >= 0,
        count == 0 || !range_search::skips(
            ranking::ruler_at(length, num_segments, start_rank + 1024 * count - 1),
        ),
    ensures
        range_search::looks_at(length, num_segments, start_rank, start_rank + 1024 * count),
{
}

/// Every ruler that a search reports is counted and offered to the progress display, and every
/// evaluation is counted.
pub proof fn law_searches_are_counted(
    ctx: &RangeContext,
    start_rank: u64,
    end_rank: u64,
    res: (Vec<Vec<u8>>, u64, bool),
    i: int,
)
    requires
        call_requires(search_range, (ctx, start_rank, end_rank)),
        call_ensures(search_range, (ctx, start_rank, end_rank), res),
        0 <= i < res.0@.len(),
    ensures
        range_search::is_counted(ctx.eval_counter, res.1 as int),
        range_search::is_announced(ctx, res.0@[i]@),
        range_search::is_added(ctx.found_counter, 1),
        range_search::is_offered(ctx.latest_ruler, res.0@[i]@),
{
    assert(range_search::contents(res.0@)[i] == res.0@[i]@);
    range_search::law_announced_rulers_are_counted(ctx, res.0@[i]@);
}

} // verus!
