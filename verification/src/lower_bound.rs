//! How many segments a complete ruler of a given length needs at least.
use vstd::prelude::*;

use crate::ruler;

verus! {

/// Whether `n` segments can make as many as `length` distinct distances: there are
/// `n * (n - 1)` arcs short of a full turn, and the full turn.
pub open spec fn enough_arcs(n: int, length: int) -> bool {
    n * n - n + 1 >= length
}

/// Whether `n` is the least number of segments with enough arcs for `length`.
pub open spec fn least_with_enough_arcs(n: int, length: int) -> bool {
    &&& n >= 1
    &&& enough_arcs(n, length)
    &&& forall|m: int| 1 <= m < n ==> !#[trigger] enough_arcs(m, length)
}

/// The lower bound of the required number of segments for a sparse ruler. A ruler of `n` segments
/// has up to `n^2 - n + 1` unique lengths, so the bound is the least `n` for which these reach
/// `length`, `ceil((sqrt(4 * length - 3) + 1) / 2)`. For length 0 it is 0.
pub fn get_num_segments_lower_bound(length: u8) -> (res: u8)
    ensures
        length == 0 ==> res == 0,
        length >= 1 ==> least_with_enough_arcs(res as int, length as int),
{
    if length == 0 {
        return 0;
    }
    let target: u16 = length as u16;
    let mut n: u16 = 1;
    // n * n - n + 1
    let mut reach: u16 = 1;
    while reach < target
        invariant
            1 <= n <= 255,
            1 <= target <= 255,
            n <= reach <= 1000,
            reach == n * n - n + 1,
            forall|m: int| 1 <= m < n ==> !#[trigger] enough_arcs(m, target as int),
        decreases 255 - n,
    {
        assert(!enough_arcs(n as int, target as int));
        assert((n + 1) * (n + 1) - (n + 1) + 1 == n * n - n + 1 + 2 * n) by (nonlinear_arith);
        reach = reach + 2 * n;
        n = n + 1;
    }
    assert(enough_arcs(n as int, target as int));
    n as u8
}

/// The bound in the form of its formula, `n = ceil((sqrt(4 * length - 3) + 1) / 2)`: it is the
/// least `n` for which `2n - 1` is not less than the square root.
pub proof fn law_lower_bound_formula(n: int, length: int)
    requires
        n >= 1,
        length >= 1,
    ensures
        least_with_enough_arcs(n, length) <==> (2 * n - 1) * (2 * n - 1) >= 4 * length - 3 && (n
            >= 2 ==> (2 * n - 3) * (2 * n - 3) < 4 * length - 3),
{
    assert(4 * (n * n - n + 1) - 3 == (2 * n - 1) * (2 * n - 1)) by (nonlinear_arith);
    assert(4 * ((n - 1) * (n - 1) - (n - 1) + 1) - 3 == (2 * n - 3) * (2 * n - 3))
        by (nonlinear_arith);
    if n >= 2 && !enough_arcs(n - 1, length) {
        assert forall|m: int| 1 <= m < n implies !#[trigger] enough_arcs(m, length) by {
            assert(m * m - m <= (n - 1) * (n - 1) - (n - 1)) by (nonlinear_arith)
                requires
                    1 <= m <= n - 1,
            ;
        }
    }
    if least_with_enough_arcs(n, length) && n >= 2 {
        assert(!enough_arcs(n - 1, length));
    }
}

/// A ruler that is complete has no more length than its segments have arcs.
pub proof fn law_complete_ruler_has_enough_arcs(s: Seq<u8>)
    requires
        s.len() >= 1,
        ruler::all_positive(s),
        ruler::complete(s),
    ensures
        enough_arcs(s.len() as int, ruler::ruler_length(s)),
{
    let n = s.len() as int;
    let len = ruler::ruler_length(s);
    ruler::lemma_mark_grows(s, 0, n);
    // Where the arc for distance `d` begins and how many segments it has, in one number.
    let code = |d: int|
        {
            let p = arc_for(s, d);
            p.0 * (n - 1) + (p.1 - 1)
        };
    let codes = Seq::new((len - 1) as nat, |k: int| code(k + 1));
    let total = n * (n - 1);
    assert(total >= 0) by (nonlinear_arith)
        requires
            total == n * (n - 1),
            n >= 1,
    ;
    let range = vstd::set_lib::set_int_range(0, total);
    assert forall|k: int| 0 <= k < codes.len() implies range.contains(#[trigger] codes[k]) by {
        let p = arc_for(s, k + 1);
        lemma_arc_for(s, k + 1);
        assert(0 <= p.0 * (n - 1) + (p.1 - 1) < n * (n - 1)) by (nonlinear_arith)
            requires
                0 <= p.0 < n,
                1 <= p.1 < n,
        ;
    }
    assert forall|k: int, l: int| 0 <= k < codes.len() && 0 <= l < codes.len() && k != l implies
        codes[k] != codes[l] by {
        let p = arc_for(s, k + 1);
        let q = arc_for(s, l + 1);
        lemma_arc_for(s, k + 1);
        lemma_arc_for(s, l + 1);
        if codes[k] == codes[l] {
            assert(p.0 == q.0) by (nonlinear_arith)
                requires
                    p.0 * (n - 1) + (p.1 - 1) == q.0 * (n - 1) + (q.1 - 1),
                    1 <= p.1 < n,
                    1 <= q.1 < n,
            ;
        }
    }
    codes.unique_seq_to_set();
    vstd::set_lib::lemma_int_range(0, total);
    assert(codes.to_set().subset_of(range));
    vstd::set_lib::lemma_len_subset(codes.to_set(), range);
    assert(n * n - n == n * (n - 1)) by (nonlinear_arith);
}

/// An arc of length `d`: where it begins and how many segments it has.
spec fn arc_for(s: Seq<u8>, d: int) -> (int, int) {
    choose|p: (int, int)|
        0 <= p.0 < s.len() && 1 <= p.1 <= s.len() && #[trigger] ruler::arc(s, p.0, p.1) == d
}

/// A distance short of a full turn has an arc short of a full turn.
proof fn lemma_arc_for(s: Seq<u8>, d: int)
    requires
        ruler::complete(s),
        1 <= d < ruler::ruler_length(s),
    ensures
        0 <= arc_for(s, d).0 < s.len(),
        1 <= arc_for(s, d).1 < s.len(),
        ruler::arc(s, arc_for(s, d).0, arc_for(s, d).1) == d,
{
    assert(ruler::measures(s, d));
    let (i, m) = choose|i: int, m: int|
        0 <= i < s.len() && 1 <= m <= s.len() && #[trigger] ruler::arc(s, i, m) == d;
    let q = (i, m);
    assert(0 <= q.0 < s.len() && 1 <= q.1 <= s.len() && ruler::arc(s, q.0, q.1) == d);
    let p = arc_for(s, d);
    if p.1 == s.len() {
        ruler::lemma_arc_marks(s, p.0, p.1);
    }
}

/// No complete ruler has fewer segments than the lower bound of its length.
pub proof fn law_lower_bound_is_sound(s: Seq<u8>, bound: int)
    requires
        s.len() >= 1,
        ruler::all_positive(s),
        ruler::complete(s),
        least_with_enough_arcs(bound, ruler::ruler_length(s)),
    ensures
        s.len() >= bound,
{
    law_complete_ruler_has_enough_arcs(s);
    assert(enough_arcs(s.len() as int, ruler::ruler_length(s)));
}

} // verus!
