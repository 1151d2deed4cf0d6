//! The search space of rulers in dictionary order: its size, ranks, and their inverse.
use vstd::prelude::*;

use crate::combinatorics;
use crate::combinatorics::binomial;
use crate::ruler;
use crate::symmetry;

verus! {

/// The number of ways to write `rest` as a sum of `parts` positive parts, in order.
pub open spec fn compositions(rest: int, parts: int) -> nat {
    if rest < 1 || parts < 1 {
        0
    } else {
        combinatorics::choose_count((rest - 1) as nat, (parts - 1) as nat)
    }
}

/// The number of compositions of `rest` into `parts` parts whose first part is less than `v`.
pub open spec fn compositions_below(rest: int, parts: int, v: int) -> nat
    decreases v,
{
    if v <= 1 {
        0
    } else {
        compositions_below(rest, parts, v - 1) + compositions(rest - (v - 1), parts - 1)
    }
}

/// The rulers that are searched: circular rulers whose first segment is 1.
pub open spec fn in_space(s: Seq<u8>, length: int, num_segments: int) -> bool {
    &&& num_segments >= 2
    &&& ruler::is_ruler(s, length, num_segments)
    &&& s[0] == 1
}

/// The number of rulers that are searched. With the first segment fixed at 1 they are the
/// compositions of `length - 1` into `num_segments - 1` parts.
pub open spec fn space_size(length: int, num_segments: int) -> nat {
    compositions(length - 1, num_segments - 1)
}

/// What is left of the length, after a first segment of 1, for the segments from `i` on.
pub open spec fn remaining(s: Seq<u8>, length: int, i: int) -> int {
    length - 1 - (ruler::mark(s, i) - ruler::mark(s, 1))
}

/// The number of rulers before `s` that differ from it for the first time at one of the
/// segments `1..i`.
pub open spec fn rank_upto(s: Seq<u8>, length: int, num_segments: int, i: int) -> nat
    decreases i,
{
    if i <= 1 {
        0
    } else {
        rank_upto(s, length, num_segments, i - 1) + compositions_below(
            remaining(s, length, i - 1),
            num_segments - (i - 1),
            s[i - 1] as int,
        )
    }
}

/// The rank of `s`: the number of rulers of the search space that precede it in the dictionary.
/// The last segment is what the others leave over and takes no part.
pub open spec fn rank_of(s: Seq<u8>, length: int, num_segments: int) -> nat {
    rank_upto(s, length, num_segments, num_segments - 1)
}

/// The ruler with a given rank.
pub open spec fn ruler_at(length: int, num_segments: int, rank: int) -> Seq<u8> {
    choose|s: Seq<u8>|
        in_space(s, length, num_segments) && #[trigger] rank_of(s, length, num_segments) == rank
}

/// Whether segments can be ranked: those between the first and the last are positive and leave
/// something of the length, or at least do not exceed it.
pub open spec fn rankable(segments: Seq<u8>, length: int, num_segments: int) -> bool {
    &&& num_segments >= 2 ==> length >= 1 && segments.len() >= num_segments - 1
    &&& forall|i: int| 1 <= i < num_segments - 1 ==> #[trigger] segments[i] >= 1
    &&& num_segments >= 3 ==> remaining(segments, length, num_segments - 1) >= 0
}

/// Whether a ruler can be made of a rank. From four segments on the rank must lie in the
/// search space.
pub open spec fn unrankable(length: int, num_segments: int, rank: int) -> bool {
    &&& length >= 1
    &&& num_segments >= 1
    &&& num_segments == 3 ==> length >= 2
    &&& num_segments >= 4 ==> rank < space_size(length, num_segments)
}

/// The segments that are made of a rank: the ruler with that rank. With one or two segments
/// there is nothing to determine. With three, a rank beyond the search space leaves nothing for
/// the last segment.
pub open spec fn unranked(length: int, num_segments: int, rank: int) -> Seq<u8> {
    if num_segments == 1 {
        seq![(length - 1) as u8]
    } else if num_segments == 2 {
        seq![1u8, (length - 1) as u8]
    } else if num_segments == 3 && rank >= space_size(length, num_segments) {
        seq![1u8, (length - 1) as u8, 0u8]
    } else {
        ruler_at(length, num_segments, rank)
    }
}

/// A composition starts with 1 or can spare 1 from its first part.
proof fn lemma_compositions_step(rest: int, parts: int)
    requires
        parts >= 2,
    ensures
        compositions(rest, parts) == compositions(rest - 1, parts - 1) + compositions(
            rest - 1,
            parts,
        ),
{
}

/// The hockey-stick identity: the compositions that start below `v`, and those of what is left
/// when `v - 1` is taken off the first part, are all compositions.
pub proof fn lemma_hockey_stick(rest: int, parts: int, v: int)
    requires
        parts >= 2,
        v >= 1,
    ensures
        compositions_below(rest, parts, v) + compositions(rest - v + 1, parts) == compositions(
            rest,
            parts,
        ),
    decreases v,
{
    if v > 1 {
        lemma_hockey_stick(rest, parts, v - 1);
        lemma_compositions_step(rest - v + 2, parts);
    }
}

/// What is skipped at one segment in closed form: the compositions of `rest` into `parts` parts
/// that start below `v` are `C(rest - 1, parts - 1) - C(rest - v, parts - 1)` in number.
pub proof fn law_skipped_in_closed_form(rest: int, parts: int, v: int)
    requires
        parts >= 2,
        1 <= v <= rest,
    ensures
        compositions_below(rest, parts, v) == combinatorics::choose_count(
            (rest - 1) as nat,
            (parts - 1) as nat,
        ) - combinatorics::choose_count((rest - v) as nat, (parts - 1) as nat),
{
    lemma_hockey_stick(rest, parts, v);
}

proof fn lemma_below_grows(rest: int, parts: int, u: int, v: int)
    requires
        u <= v,
    ensures
        compositions_below(rest, parts, u) <= compositions_below(rest, parts, v),
    decreases v,
{
    if u < v && v > 1 {
        lemma_below_grows(rest, parts, u, v - 1);
    }
}

/// A partial rank depends on the segments before it alone.
proof fn lemma_rank_frame(s: Seq<u8>, t: Seq<u8>, length: int, num_segments: int, i: int)
    requires
        1 <= i <= s.len(),
        i <= t.len(),
        forall|j: int| 0 <= j < i ==> s[j] == t[j],
    ensures
        rank_upto(s, length, num_segments, i) == rank_upto(t, length, num_segments, i),
        ruler::mark(s, i) == ruler::mark(t, i),
    decreases i,
{
    if i > 1 {
        lemma_rank_frame(s, t, length, num_segments, i - 1);
        assert(ruler::mark(s, 1) == ruler::mark(s, 0) + s[0]);
        assert(ruler::mark(t, 1) == ruler::mark(t, 0) + t[0]);
    } else {
        assert(ruler::mark(s, 1) == ruler::mark(s, 0) + s[0]);
        assert(ruler::mark(t, 1) == ruler::mark(t, 0) + t[0]);
    }
}

/// What the segments from `i` on add to a rank stays below the number of ways to fill them.
proof fn lemma_rank_rest_bound(s: Seq<u8>, length: int, num_segments: int, i: int)
    requires
        in_space(s, length, num_segments),
        1 <= i < num_segments,
    ensures
        remaining(s, length, i) >= 1,
        rank_of(s, length, num_segments) - rank_upto(s, length, num_segments, i) < compositions(
            remaining(s, length, i),
            num_segments - i,
        ),
        rank_of(s, length, num_segments) >= rank_upto(s, length, num_segments, i),
    decreases num_segments - i,
{
    ruler::lemma_mark_grows(s, i, num_segments);
    assert(ruler::mark(s, 1) == ruler::mark(s, 0) + s[0]);
    if i < num_segments - 1 {
        lemma_rank_rest_bound(s, length, num_segments, i + 1);
        let rest = remaining(s, length, i);
        let parts = num_segments - i;
        let v = s[i] as int;
        assert(v >= 1);
        assert(remaining(s, length, i + 1) == rest - v);
        assert(rank_upto(s, length, num_segments, i + 1) == rank_upto(s, length, num_segments, i)
            + compositions_below(rest, parts, v));
        assert(compositions_below(rest, parts, v + 1) == compositions_below(rest, parts, v)
            + compositions(rest - v, parts - 1));
        lemma_hockey_stick(rest, parts, v + 1);
    }
}

/// Ranks are lexicographical: a ruler precedes another in the dictionary exactly when
/// its rank is the smaller one.
pub proof fn law_rank_is_dictionary_order(
    a: Seq<u8>,
    b: Seq<u8>,
    length: int,
    num_segments: int,
)
    requires
        in_space(a, length, num_segments),
        in_space(b, length, num_segments),
    ensures
        symmetry::lex_less(a, b) <==> rank_of(a, length, num_segments) < rank_of(
            b,
            length,
            num_segments,
        ),
{
    if symmetry::lex_less(a, b) {
        lemma_rank_increases(a, b, length, num_segments);
    } else {
        symmetry::lemma_lex_total(a, b);
        if symmetry::lex_less(b, a) {
            lemma_rank_increases(b, a, length, num_segments);
        }
    }
}

proof fn lemma_rank_increases(a: Seq<u8>, b: Seq<u8>, length: int, num_segments: int)
    requires
        in_space(a, length, num_segments),
        in_space(b, length, num_segments),
        symmetry::lex_less(a, b),
    ensures
        rank_of(a, length, num_segments) < rank_of(b, length, num_segments),
{
    let n = num_segments;
    let k = choose|k: int|
        #[trigger] symmetry::first_difference(a, b, k) && (k == a.len() || a[k] < b[k]);
    assert(k >= 1);
    lemma_rank_frame(a, b, length, n, k);
    assert(ruler::mark(a, 1) == ruler::mark(a, 0) + a[0]);
    assert(ruler::mark(b, 1) == ruler::mark(b, 0) + b[0]);
    if k == n - 1 {
        // The last segment is what the others leave over.
        assert(ruler::mark(a, n) == ruler::mark(a, k) + a[k]);
        assert(ruler::mark(b, n) == ruler::mark(b, k) + b[k]);
        assert(false);
    }
    let rest = remaining(a, length, k);
    let parts = n - k;
    assert(rest == remaining(b, length, k));
    lemma_rank_rest_bound(a, length, n, k + 1);
    lemma_rank_rest_bound(b, length, n, k + 1);
    assert(remaining(a, length, k + 1) == rest - a[k]);
    assert(rank_upto(a, length, n, k + 1) == rank_upto(a, length, n, k) + compositions_below(
        rest,
        parts,
        a[k] as int,
    ));
    assert(rank_upto(b, length, n, k + 1) == rank_upto(b, length, n, k) + compositions_below(
        rest,
        parts,
        b[k] as int,
    ));
    assert(compositions_below(rest, parts, a[k] + 1) == compositions_below(
        rest,
        parts,
        a[k] as int,
    ) + compositions(rest - a[k], parts - 1));
    lemma_below_grows(rest, parts, a[k] + 1, b[k] as int);
}

/// A rank names one ruler, and is smaller than the size of the search space.
pub proof fn law_rank_is_injective(a: Seq<u8>, b: Seq<u8>, length: int, num_segments: int)
    requires
        in_space(a, length, num_segments),
        in_space(b, length, num_segments),
        rank_of(a, length, num_segments) == rank_of(b, length, num_segments),
    ensures
        a == b,
        rank_of(a, length, num_segments) < space_size(length, num_segments),
{
    law_rank_is_dictionary_order(a, b, length, num_segments);
    law_rank_is_dictionary_order(b, a, length, num_segments);
    symmetry::lemma_lex_total(a, b);
    lemma_rank_in_range(a, length, num_segments);
}

/// The rank of a ruler is smaller than the size of the search space.
pub proof fn lemma_rank_in_range(s: Seq<u8>, length: int, num_segments: int)
    requires
        in_space(s, length, num_segments),
    ensures
        rank_of(s, length, num_segments) < space_size(length, num_segments),
{
    lemma_rank_rest_bound(s, length, num_segments, 1);
}

/// Fills the segments from `i` on so that they add `rank` to the rank.
proof fn lemma_fill(
    prefix: Seq<u8>,
    length: int,
    num_segments: int,
    rank: int,
) -> (s: Seq<u8>)
    requires
        length <= 255,
        1 <= prefix.len() < num_segments,
        prefix[0] == 1,
        ruler::all_positive(prefix),
        0 <= rank < compositions(
            remaining(prefix, length, prefix.len() as int),
            num_segments - prefix.len(),
        ),
    ensures
        in_space(s, length, num_segments),
        rank_of(s, length, num_segments) == rank_upto(
            prefix,
            length,
            num_segments,
            prefix.len() as int,
        ) + rank,
    decreases num_segments - prefix.len(),
{
    let i = prefix.len() as int;
    let rest = remaining(prefix, length, i);
    ruler::lemma_mark_grows(prefix, 1, i);
    assert(ruler::mark(prefix, 1) == ruler::mark(prefix, 0) + prefix[0]);
    if i == num_segments - 1 {
        let s = prefix.push(rest as u8);
        lemma_rank_frame(prefix, s, length, num_segments, i);
        assert(ruler::mark(s, i + 1) == ruler::mark(s, i) + s[i]);
        assert(compositions(rest, 1) == 1);
        s
    } else {
        let parts = num_segments - i;
        let v = lemma_first_part(rest, parts, rank, 1);
        let next = prefix.push(v as u8);
        lemma_rank_frame(prefix, next, length, num_segments, i);
        assert(ruler::mark(next, i + 1) == ruler::mark(next, i) + next[i]);
        assert(ruler::mark(next, 1) == ruler::mark(next, 0) + next[0]);
        assert(ruler::all_positive(next));
        lemma_fill(next, length, num_segments, rank - compositions_below(rest, parts, v))
    }
}

/// The first part of the composition with a given rank.
proof fn lemma_first_part(rest: int, parts: int, rank: int, from: int) -> (v: int)
    requires
        parts >= 2,
        1 <= from <= rest,
        compositions_below(rest, parts, from) <= rank < compositions(rest, parts),
    ensures
        1 <= v < rest,
        compositions_below(rest, parts, v) <= rank < compositions_below(rest, parts, v)
            + compositions(rest - v, parts - 1),
    decreases rest - from,
{
    lemma_hockey_stick(rest, parts, from);
    if from == rest {
        combinatorics::lemma_choose_above(0, (parts - 1) as nat);
        assert(false);
        from
    } else if rank < compositions_below(rest, parts, from + 1) {
        from
    } else {
        lemma_first_part(rest, parts, rank, from + 1)
    }
}

/// Every rank below the size of the search space names a ruler of it, and
/// ranking that ruler gives the rank back.
pub proof fn law_every_rank_has_a_ruler(length: int, num_segments: int, rank: int)
    requires
        length <= 255,
        0 <= rank < space_size(length, num_segments),
    ensures
        in_space(ruler_at(length, num_segments, rank), length, num_segments),
        rank_of(ruler_at(length, num_segments, rank), length, num_segments) == rank,
{
    let start = seq![1u8];
    assert(ruler::mark(start, 1) == ruler::mark(start, 0) + start[0]);
    let s = lemma_fill(start, length, num_segments, rank);
    assert(in_space(s, length, num_segments) && rank_of(s, length, num_segments) == rank);
}

/// Taking the rank of a ruler and the ruler of that rank leads back.
pub proof fn law_unrank_inverts_rank(s: Seq<u8>, length: int, num_segments: int)
    requires
        in_space(s, length, num_segments),
    ensures
        ruler_at(length, num_segments, rank_of(s, length, num_segments) as int) == s,
{
    let r = ruler_at(length, num_segments, rank_of(s, length, num_segments) as int);
    assert(in_space(s, length, num_segments) && rank_of(s, length, num_segments) == rank_of(
        s,
        length,
        num_segments,
    ));
    law_rank_is_injective(r, s, length, num_segments);
}

/// What is made of a rank of the search space can be ranked, and has that rank.
pub proof fn law_unranked_ranks_back(length: int, num_segments: int, rank: int)
    requires
        length <= 255,
        0 <= rank < space_size(length, num_segments),
    ensures
        unrankable(length, num_segments, rank),
        rankable(unranked(length, num_segments, rank), length, num_segments),
        rank_of(unranked(length, num_segments, rank), length, num_segments) == rank,
{
    law_every_rank_has_a_ruler(length, num_segments, rank);
    let s = ruler_at(length, num_segments, rank);
    ruler::lemma_mark_grows(s, 0, num_segments - 1);
    assert(ruler::mark(s, num_segments) == ruler::mark(s, num_segments - 1) + s[num_segments - 1]);
    assert(ruler::mark(s, 1) == ruler::mark(s, 0) + s[0]);
    if num_segments == 2 {
        assert(s =~= seq![1u8, (length - 1) as u8]);
    }
}

/// The number of rulers to search for a given length and number of segments, by "stars and
/// bars": with the first segment fixed at 1 they are the compositions of `length - 1` into
/// `num_segments - 1` positive parts, `C(length - 2, num_segments - 2)` in number. A space of
/// more than `u64::MAX` rulers counts as `u64::MAX`.
pub fn calculate_total_space(length: u8, num_segments: u8) -> (res: u64)
    ensures
        res == combinatorics::capped(
            space_size(length as int, num_segments as int),
            u64::MAX as nat,
        ),
{
    if num_segments < 2 || length < num_segments {
        proof {
            if num_segments >= 2 && length >= 2 {
                combinatorics::lemma_choose_above((length - 2) as nat, (num_segments - 2) as nat);
            }
        }
        return 0;
    }
    let count: u128 = binomial(length as u64 - 2, num_segments as u64 - 2);
    if count <= u64::MAX as u128 {
        count as u64
    } else {
        u64::MAX
    }
}

/// The lexicographical rank of a ruler in the search space.
///
/// At each segment `s_i` the rulers that have a smaller value there are skipped. They are the
/// sum over `j` from 1 to `s_i - 1` of the compositions of what `j` leaves into the parts that
/// remain. A rank above `u64::MAX` counts as `u64::MAX`.
pub fn calculate_rank(length: u8, num_segments: u8, segments: &[u8]) -> (res: u64)
    requires
        rankable(segments@, length as int, num_segments as int),
    ensures
        res == combinatorics::capped(
            rank_of(segments@, length as int, num_segments as int),
            u64::MAX as nat,
        ),
{
    if num_segments < 2 {
        return 0;
    }
    let ghost s = segments@;
    let ghost n = num_segments as int;
    let mut current_s: u64 = length as u64 - 1;
    let mut current_k: u64 = num_segments as u64 - 1;
    let mut rank: u128 = 0;
    let mut i: usize = 1;
    assert(n >= 3 ==> s.len() >= 2);
    while i < num_segments as usize - 1
        invariant
            s == segments@,
            n == num_segments,
            n >= 2,
            length >= 1,
            s.len() >= n - 1,
            1 <= i <= n - 1,
            current_k == n - i,
            current_s == remaining(s, length as int, i as int),
            current_s <= 254,
            n >= 3 ==> remaining(s, length as int, n - 1) >= 0,
            forall|i: int| 1 <= i < n - 1 ==> #[trigger] s[i] >= 1,
            rank == combinatorics::capped(
                rank_upto(s, length as int, n, i as int),
                u128::MAX as nat,
            ),
        decreases n - i,
    {
        let val: u64 = segments[i] as u64;
        proof {
            ruler::lemma_mark_grows(s, i + 1, n - 1);
            assert(ruler::mark(s, i + 1) == ruler::mark(s, i as int) + s[i as int]);
            assert(remaining(s, length as int, i + 1) == current_s - val);
        }
        let mut j: u64 = 1;
        while j < val
            invariant
                1 <= j <= val <= current_s <= 255,
                2 <= current_k <= 255,
                rank == combinatorics::capped(
                    rank_upto(s, length as int, n, i as int) + compositions_below(
                        current_s as int,
                        current_k as int,
                        j as int,
                    ),
                    u128::MAX as nat,
                ),
            decreases val - j,
        {
            let count: u128 = binomial(current_s - j - 1, current_k - 2);
            assert(compositions_below(current_s as int, current_k as int, j + 1)
                == compositions_below(current_s as int, current_k as int, j as int) + compositions(
                current_s - j,
                current_k - 1,
            ));
            rank = rank.saturating_add(count);
            j = j + 1;
        }
        current_s = current_s - val;
        current_k = current_k - 1;
        i = i + 1;
    }
    if rank <= u64::MAX as u128 {
        rank as u64
    } else {
        u64::MAX
    }
}

/// Decides whether segments can be ranked.
pub fn can_rank(length: u8, num_segments: u8, segments: &[u8]) -> (res: bool)
    ensures
        res == rankable(segments@, length as int, num_segments as int),
{
    if num_segments < 2 {
        return true;
    }
    if length < 1 || segments.len() < num_segments as usize - 1 {
        return false;
    }
    let ghost s = segments@;
    let ghost n = num_segments as int;
    let mut rest: u8 = length - 1;
    let mut i: usize = 1;
    while i < num_segments as usize - 1
        invariant
            s == segments@,
            n == num_segments,
            n >= 2,
            length >= 1,
            s.len() >= n - 1,
            1 <= i <= n - 1,
            rest == remaining(s, length as int, i as int),
            forall|j: int| 1 <= j < i ==> #[trigger] s[j] >= 1,
        decreases n - i,
    {
        let val: u8 = segments[i];
        proof {
            assert(ruler::mark(s, i + 1) == ruler::mark(s, i as int) + s[i as int]);
            ruler::lemma_mark_grows(s, i + 1, n - 1);
        }
        if val < 1 || val > rest {
            return false;
        }
        rest = rest - val;
        i = i + 1;
    }
    true
}

/// Decides whether a ruler can be made of a rank.
pub fn can_unrank(length: u8, num_segments: u8, rank: u64) -> (res: bool)
    ensures
        res == unrankable(length as int, num_segments as int, rank as int),
{
    if length < 1 || num_segments < 1 || (num_segments == 3 && length < 2) {
        return false;
    }
    if num_segments < 4 {
        return true;
    }
    if length < 2 {
        return false;
    }
    (rank as u128) < binomial(length as u64 - 2, num_segments as u64 - 2)
}

/// The first part of the composition of `rest` into `parts` parts that has a given rank, and the
/// rank of what follows it among the ways to continue. A rank beyond the last composition uses up
/// all of `rest`.
fn first_part(rest: u64, parts: u64, rank: u64) -> (res: (u64, u64))
    requires
        1 <= rest <= 255,
        2 <= parts,
    ensures
        1 <= res.0 <= rest,
        rank < compositions(rest as int, parts as int) ==> {
            &&& res.0 < rest
            &&& rank == compositions_below(rest as int, parts as int, res.0 as int) + res.1
            &&& res.1 < compositions(rest - res.0, parts - 1)
        },
        rank >= compositions(rest as int, parts as int) ==> res.0 == rest,
{
    let mut val: u64 = 1;
    let mut left: u64 = rank;
    proof {
        lemma_hockey_stick(rest as int, parts as int, 1);
    }
    while val < rest
        invariant
            1 <= val <= rest <= 255,
            2 <= parts,
            rank == left + compositions_below(rest as int, parts as int, val as int),
            rank < compositions(rest as int, parts as int) <==> left < compositions(
                rest - val + 1,
                parts as int,
            ),
        decreases rest - val,
    {
        let count: u128 = binomial(rest - val - 1, parts - 2);
        proof {
            lemma_compositions_step(rest - val + 1, parts as int);
            assert(compositions(rest - val, parts - 1) == combinatorics::choose_count(
                (rest - val - 1) as nat,
                (parts - 2) as nat,
            ));
            assert(compositions_below(rest as int, parts as int, val + 1) == compositions_below(
                rest as int,
                parts as int,
                val as int,
            ) + compositions(rest - val, parts - 1));
        }
        if (left as u128) < count {
            return (val, left);
        }
        left = left - count as u64;
        val = val + 1;
    }
    proof {
        combinatorics::lemma_choose_above(0, (parts - 1) as nat);
    }
    (val, left)
}

/// The ruler with a given lexicographical rank: the inverse of [`calculate_rank`]. Segment by
/// segment it determines how many rulers start with each possible value.
pub fn unrank(length: u8, num_segments: u8, rank: u64) -> (res: Vec<u8>)
    requires
        unrankable(length as int, num_segments as int, rank as int),
    ensures
        res@ == unranked(length as int, num_segments as int, rank as int),
        rank < space_size(length as int, num_segments as int) ==> {
            &&& in_space(res@, length as int, num_segments as int)
            &&& rank_of(res@, length as int, num_segments as int) == rank
            &&& res@ == ruler_at(length as int, num_segments as int, rank as int)
        },
{
    let n: usize = num_segments as usize;
    let mut segments: Vec<u8> = Vec::new();
    let mut current_s: u64 = length as u64 - 1;
    if n == 1 {
        segments.push(current_s as u8);
        assert(segments@ =~= seq![(length - 1) as u8]);
        return segments;
    }
    let mut current_k: u64 = num_segments as u64 - 1;
    let mut left: u64 = rank;
    segments.push(1);
    let ghost inside = rank < space_size(length as int, n as int);
    assert(ruler::mark(segments@, 1) == ruler::mark(segments@, 0) + segments@[0]);
    let mut i: usize = 1;
    while i < n - 1
        invariant
            n == num_segments,
            n >= 2,
            length >= 1,
            n == 3 ==> length >= 2,
            n >= 4 ==> inside,
            inside == (rank < space_size(length as int, n as int)),
            1 <= i <= n - 1,
            segments@.len() == i,
            current_k == n - i,
            ruler::all_positive(segments@),
            segments@[0] == 1,
            current_s == remaining(segments@, length as int, i as int),
            current_s <= 254,
            inside ==> left < compositions(current_s as int, current_k as int),
            inside ==> rank == left + rank_upto(segments@, length as int, n as int, i as int),
            !inside && n == 3 ==> (i == 1 && left == rank && current_s == length - 1) || (i == 2
                && segments@ == seq![1u8, (length - 1) as u8] && current_s == 0),
        decreases n - i,
    {
        let ghost before = segments@;
        let (val, next) = first_part(current_s, current_k, left);
        segments.push(val as u8);
        proof {
            lemma_rank_frame(before, segments@, length as int, n as int, i as int);
            ruler::lemma_mark_grows(segments@, 1, i as int);
            assert(ruler::mark(segments@, i + 1) == ruler::mark(segments@, i as int)
                + segments@[i as int]);
            assert(ruler::mark(segments@, 1) == ruler::mark(segments@, 0) + segments@[0]);
            assert(ruler::mark(before, 1) == ruler::mark(before, 0) + before[0]);
            if !inside {
                assert(segments@ =~= seq![1u8, (length - 1) as u8]);
            }
        }
        left = next;
        current_s = current_s - val;
        current_k = current_k - 1;
        i = i + 1;
    }
    let ghost before = segments@;
    segments.push(current_s as u8);
    proof {
        lemma_rank_frame(before, segments@, length as int, n as int, n - 1);
        assert(ruler::mark(segments@, n as int) == ruler::mark(segments@, n - 1) + segments@[n
            - 1]);
        assert(ruler::mark(segments@, 1) == ruler::mark(segments@, 0) + segments@[0]);
        assert(ruler::mark(before, 1) == ruler::mark(before, 0) + before[0]);
        if n == 2 {
            assert(segments@ =~= seq![1u8, (length - 1) as u8]);
        }
        if inside {
            assert(compositions(current_s as int, 1) == 1);
            assert(ruler::all_positive(segments@));
            assert(ruler::ruler_length(segments@) == length);
            law_unrank_inverts_rank(segments@, length as int, n as int);
        } else if n == 3 {
            assert(segments@ =~= seq![1u8, (length - 1) as u8, 0u8]);
        }
    }
    segments
}

} // verus!
