//! Circular rulers as sequences of segment lengths: marks, arcs, completeness.
use vstd::prelude::*;

verus! {

/// Position of the `i`-th mark: the sum of the first `i` segments.
pub open spec fn mark(s: Seq<u8>, i: int) -> int
    decreases i,
{
    if i <= 0 {
        0
    } else {
        mark(s, i - 1) + s[i - 1]
    }
}

/// Length of a ruler: the sum of its segments.
pub open spec fn ruler_length(s: Seq<u8>) -> int {
    mark(s, s.len() as int)
}

/// Whether every segment has at least length 1.
pub open spec fn all_positive(s: Seq<u8>) -> bool {
    forall|i: int| 0 <= i < s.len() ==> #[trigger] s[i] >= 1
}

/// A circular ruler of `length` with `num_segments` segments.
pub open spec fn is_ruler(s: Seq<u8>, length: int, num_segments: int) -> bool {
    &&& s.len() == num_segments
    &&& num_segments >= 1
    &&& all_positive(s)
    &&& ruler_length(s) == length
}

/// Sum of `m` consecutive segments that begin with segment `i`, going round the circle.
pub open spec fn arc(s: Seq<u8>, i: int, m: int) -> int
    decreases m,
{
    if m <= 0 {
        0
    } else {
        arc(s, i, m - 1) + s[(i + m - 1) % (s.len() as int)]
    }
}

/// Whether some contiguous run of segments (cyclically) sums to `d`.
pub open spec fn measures(s: Seq<u8>, d: int) -> bool {
    exists|i: int, m: int| 0 <= i < s.len() && 1 <= m <= s.len() && #[trigger] arc(s, i, m) == d
}

/// Whether a ruler measures every distance shorter than itself.
pub open spec fn complete(s: Seq<u8>) -> bool {
    forall|d: int| 1 <= d < ruler_length(s) ==> #[trigger] measures(s, d)
}

/// Marks do not move backwards, and move forwards where segments are positive.
pub proof fn lemma_mark_grows(s: Seq<u8>, i: int, j: int)
    requires
        0 <= i <= j <= s.len(),
    ensures
        0 <= mark(s, i) <= mark(s, j),
        all_positive(s) ==> mark(s, j) - mark(s, i) >= j - i,
    decreases j,
{
    if i < j {
        lemma_mark_grows(s, i, j - 1);
        assert(all_positive(s) ==> s[j - 1] >= 1);
    } else if i > 0 {
        lemma_mark_grows(s, i - 1, j - 1);
    }
}

/// An arc is a difference of marks, with one turn added where it passes the start.
pub proof fn lemma_arc_marks(s: Seq<u8>, i: int, m: int)
    requires
        0 <= i < s.len(),
        0 <= m <= s.len(),
    ensures
        i + m <= s.len() ==> arc(s, i, m) == mark(s, i + m) - mark(s, i),
        i + m >= s.len() ==> arc(s, i, m) == ruler_length(s) - mark(s, i) + mark(
            s,
            i + m - s.len(),
        ),
    decreases m,
{
    let n = s.len() as int;
    if m > 0 {
        lemma_arc_marks(s, i, m - 1);
        if i + m - 1 < n {
            vstd::arithmetic::div_mod::lemma_small_mod((i + m - 1) as nat, n as nat);
        } else {
            assert((i + m - 1) % n == i + m - 1 - n) by {
                vstd::arithmetic::div_mod::lemma_mod_add_multiples_vanish(i + m - 1 - n, n);
                vstd::arithmetic::div_mod::lemma_small_mod((i + m - 1 - n) as nat, n as nat);
            }
        }
    }
}

/// A distance is measured exactly when two marks lie that far apart, counted forwards
/// round the circle.
pub proof fn lemma_measures_by_marks(s: Seq<u8>, d: int)
    requires
        all_positive(s),
        1 <= d < ruler_length(s),
    ensures
        measures(s, d) <==> exists|i: int, j: int|
            0 <= i < s.len() && 0 <= j < s.len() && (#[trigger] mark(s, j) - #[trigger] mark(s, i)
                == d || mark(s, j) + ruler_length(s) - mark(s, i) == d),
{
    let n = s.len() as int;
    let len = ruler_length(s);
    if measures(s, d) {
        let (i, m) = choose|i: int, m: int|
            0 <= i < s.len() && 1 <= m <= s.len() && #[trigger] arc(s, i, m) == d;
        lemma_arc_marks(s, i, m);
        if i + m < n {
            assert(mark(s, i + m) - mark(s, i) == d);
        } else {
            let j = i + m - n;
            if j == n {
                assert(false);
            }
            assert(mark(s, j) + len - mark(s, i) == d);
        }
    }
    if exists|i: int, j: int|
        0 <= i < s.len() && 0 <= j < s.len() && (#[trigger] mark(s, j) - #[trigger] mark(s, i) == d
            || mark(s, j) + len - mark(s, i) == d) {
        let (i, j) = choose|i: int, j: int|
            0 <= i < s.len() && 0 <= j < s.len() && (#[trigger] mark(s, j) - #[trigger] mark(s, i)
                == d || mark(s, j) + len - mark(s, i) == d);
        if mark(s, j) - mark(s, i) == d {
            if j <= i {
                lemma_mark_grows(s, j, i);
            }
            lemma_arc_marks(s, i, j - i);
            assert(arc(s, i, j - i) == d);
        } else {
            if j >= i {
                lemma_mark_grows(s, i, j);
            }
            lemma_arc_marks(s, i, j + n - i);
            assert(arc(s, i, j + n - i) == d);
        }
    }
}

} // verus!
