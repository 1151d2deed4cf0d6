//! Stepping through the search space: the ruler that follows another, and runs of rulers
//! that differ in their last two segments only.
use vstd::prelude::*;

use crate::combinatorics;
use crate::ranking;
use crate::ruler;
use crate::symmetry;

verus! {

/// The ruler `t` places further on in the run of `s`: the last segment hands `t` to the one
/// before it.
pub open spec fn run_member(s: Seq<u8>, t: int) -> Seq<u8> {
    let n = s.len() as int;
    s.update(n - 2, (s[n - 2] + t) as u8).update(n - 1, (s[n - 1] - t) as u8)
}

/// A first part below `v` of two parts leaves one choice each.
proof fn lemma_below_two_parts(rest: int, v: int)
    requires
        1 <= v <= rest,
    ensures
        ranking::compositions_below(rest, 2, v) == v - 1,
    decreases v,
{
    if v > 1 {
        lemma_below_two_parts(rest, v - 1);
        assert(ranking::compositions(rest - (v - 1), 1) == 1);
    }
}

/// Marks and partial ranks up to `i` are those of any ruler with the same first `i` segments.
proof fn lemma_same_prefix(s: Seq<u8>, t: Seq<u8>, length: int, num_segments: int, i: int)
    requires
        1 <= i <= s.len(),
        s.len() == t.len(),
        forall|j: int| 0 <= j < i ==> s[j] == t[j],
    ensures
        ruler::mark(s, i) == ruler::mark(t, i),
        ranking::rank_upto(s, length, num_segments, i) == ranking::rank_upto(
            t,
            length,
            num_segments,
            i,
        ),
        ranking::remaining(s, length, i) == ranking::remaining(t, length, i),
    decreases i,
{
    assert(ruler::mark(s, 1) == ruler::mark(s, 0) + s[0]);
    assert(ruler::mark(t, 1) == ruler::mark(t, 0) + t[0]);
    if i > 1 {
        lemma_same_prefix(s, t, length, num_segments, i - 1);
    }
}

/// The members of a run are rulers of the search space with consecutive ranks.
pub proof fn lemma_run(s: Seq<u8>, length: int, num_segments: int, t: int)
    requires
        ranking::in_space(s, length, num_segments),
        length <= 255,
        num_segments >= 3,
        0 <= t < s[num_segments - 1],
    ensures
        ranking::in_space(run_member(s, t), length, num_segments),
        ranking::rank_of(run_member(s, t), length, num_segments) == ranking::rank_of(
            s,
            length,
            num_segments,
        ) + t,
        run_member(s, t)[num_segments - 2] == s[num_segments - 2] + t,
        run_member(s, t)[num_segments - 1] == s[num_segments - 1] - t,
{
    let n = num_segments;
    let u = run_member(s, t);
    ruler::lemma_mark_grows(s, 0, n - 2);
    assert(ruler::mark(s, n) == ruler::mark(s, n - 1) + s[n - 1]);
    assert(ruler::mark(s, n - 1) == ruler::mark(s, n - 2) + s[n - 2]);
    assert(u[n - 2] == s[n - 2] + t);
    assert(u[n - 1] == s[n - 1] - t);
    assert(u[0] == s[0]);
    assert(ruler::mark(u, n) == ruler::mark(u, n - 1) + u[n - 1]);
    assert(ruler::mark(u, n - 1) == ruler::mark(u, n - 2) + u[n - 2]);
    lemma_same_prefix(s, u, length, n, n - 2);
    assert(ruler::mark(s, 1) == ruler::mark(s, 0) + s[0]);
    let rest = ranking::remaining(s, length, n - 2);
    lemma_below_two_parts(rest, s[n - 2] as int);
    lemma_below_two_parts(rest, u[n - 2] as int);
    assert forall|i: int| 0 <= i < u.len() implies #[trigger] u[i] >= 1 by {
        assert(s[i] >= 1);
    }
}

/// Where every segment after `i` is 1, no way to fill the segments from `i` on comes later.
proof fn lemma_ones_come_last(s: Seq<u8>, length: int, num_segments: int, i: int)
    requires
        ranking::in_space(s, length, num_segments),
        1 <= i < num_segments,
        forall|j: int| i < j < num_segments ==> s[j] == 1,
    ensures
        ranking::rank_of(s, length, num_segments) + 1 == ranking::rank_upto(
            s,
            length,
            num_segments,
            i,
        ) + ranking::compositions(ranking::remaining(s, length, i), num_segments - i),
{
    let n = num_segments;
    ruler::lemma_mark_grows(s, i, n);
    assert(ruler::mark(s, 1) == ruler::mark(s, 0) + s[0]);
    let rest = ranking::remaining(s, length, i);
    lemma_ones(s, length, n, i + 1);
    assert(ruler::mark(s, i + 1) == ruler::mark(s, i) + s[i]);
    if i == n - 1 {
        assert(ranking::compositions(rest, 1) == 1);
    } else {
        let parts = n - i;
        let v = s[i] as int;
        assert(rest == v + parts - 1);
        ranking::lemma_hockey_stick(rest, parts, v);
        combinatorics::lemma_choose_all((parts - 1) as nat);
        assert(ranking::compositions(parts, parts) == 1);
        assert(ranking::rank_upto(s, length, n, i + 1) == ranking::rank_upto(s, length, n, i)
            + ranking::compositions_below(rest, parts, v));
    }
}

/// Segments of length 1 add nothing to the rank.
proof fn lemma_ones(s: Seq<u8>, length: int, num_segments: int, i: int)
    requires
        s.len() == num_segments,
        2 <= i <= num_segments,
        forall|j: int| i <= j < num_segments ==> s[j] == 1,
    ensures
        i < num_segments ==> ranking::rank_of(s, length, num_segments) == ranking::rank_upto(
            s,
            length,
            num_segments,
            i,
        ),
        ruler::mark(s, num_segments) == ruler::mark(s, i) + num_segments - i,
    decreases num_segments - i,
{
    if i < num_segments {
        lemma_ones(s, length, num_segments, i + 1);
        assert(ruler::mark(s, i + 1) == ruler::mark(s, i) + s[i]);
        if i < num_segments - 1 {
            assert(ranking::rank_upto(s, length, num_segments, i + 1) == ranking::rank_upto(
                s,
                length,
                num_segments,
                i,
            ) + ranking::compositions_below(
                ranking::remaining(s, length, i),
                num_segments - i,
                s[i] as int,
            ));
        }
    }
}

/// The ruler after one that has only segments of length 1 behind segment `i`.
proof fn lemma_carry(s: Seq<u8>, u: Seq<u8>, length: int, num_segments: int, i: int)
    requires
        ranking::in_space(s, length, num_segments),
        length <= 255,
        2 <= i < num_segments,
        s[i] > 1,
        forall|j: int| i < j < num_segments ==> s[j] == 1,
        u.len() == s.len(),
        u[i - 1] == s[i - 1] + 1,
        u[num_segments - 1] == s[i] - 1,
        forall|j: int| i <= j < num_segments - 1 ==> u[j] == 1,
        forall|j: int| 0 <= j < i - 1 ==> u[j] == s[j],
    ensures
        ranking::in_space(u, length, num_segments),
        ranking::rank_of(u, length, num_segments) == ranking::rank_of(s, length, num_segments) + 1,
{
    let n = num_segments;
    lemma_ones_come_last(s, length, n, i);
    lemma_same_prefix(s, u, length, n, i - 1);
    assert(ruler::mark(s, 1) == ruler::mark(s, 0) + s[0]);
    assert(ruler::mark(u, 1) == ruler::mark(u, 0) + u[0]);
    assert(ruler::mark(s, i) == ruler::mark(s, i - 1) + s[i - 1]);
    assert(ruler::mark(u, i) == ruler::mark(u, i - 1) + u[i - 1]);
    lemma_ones(s, length, n, i + 1);
    assert(ruler::mark(s, i + 1) == ruler::mark(s, i) + s[i]);
    // With a last segment of 1 the new ruler would end in ones.
    let v = u.update(n - 1, 1);
    lemma_ones(v, length, n, i);
    lemma_same_prefix(u, v, length, n, n - 1);
    lemma_same_prefix(u, v, length, n, i);
    assert(ruler::mark(v, n) == ruler::mark(v, n - 1) + v[n - 1]);
    assert(ruler::mark(u, n) == ruler::mark(u, n - 1) + u[n - 1]);
    assert(ruler::mark(u, n) == ruler::mark(s, n));
    let rest = ranking::remaining(s, length, i - 1);
    let parts = n - (i - 1);
    if i - 1 >= 1 {
        assert(ranking::rank_upto(u, length, n, i) == ranking::rank_upto(u, length, n, i - 1)
            + ranking::compositions_below(rest, parts, s[i - 1] + 1));
        assert(ranking::compositions_below(rest, parts, s[i - 1] + 1)
            == ranking::compositions_below(rest, parts, s[i - 1] as int) + ranking::compositions(
            rest - s[i - 1],
            parts - 1,
        ));
    }
    assert forall|j: int| 0 <= j < u.len() implies #[trigger] u[j] >= 1 by {
        assert(s[j] >= 1);
    }
}

/// Replaces a ruler by the next one of the search space, like an odometer. At the last ruler it
/// says so and leaves the ruler alone.
pub fn next_ruler(ruler: &mut Vec<u8>, length: u8) -> (moved: bool)
    requires
        ranking::in_space(old(ruler)@, length as int, old(ruler)@.len() as int),
    ensures
        final(ruler)@.len() == old(ruler)@.len(),
        moved == (ranking::rank_of(old(ruler)@, length as int, old(ruler)@.len() as int) + 1
            < ranking::space_size(length as int, old(ruler)@.len() as int)),
        moved ==> {
            &&& ranking::in_space(final(ruler)@, length as int, old(ruler)@.len() as int)
            &&& ranking::rank_of(final(ruler)@, length as int, old(ruler)@.len() as int)
                == ranking::rank_of(old(ruler)@, length as int, old(ruler)@.len() as int) + 1
        },
        !moved ==> final(ruler)@ == old(ruler)@,
{
    let ghost s = ruler@;
    let ghost len = length as int;
    let n: usize = ruler.len();
    let mut i: usize = n - 1;
    while i >= 2
        invariant
            n == s.len(),
            n >= 2,
            1 <= i <= n - 1,
            len == length,
            ruler@ == s,
            s == old(ruler)@,
            ranking::in_space(s, len, n as int),
            forall|j: int| i < j < n ==> s[j] == 1,
        decreases i,
    {
        if ruler[i] > 1 {
            let spare: u8 = ruler[i] - 1;
            let before: u8 = ruler[i - 1];
            proof {
                ruler::lemma_mark_grows(s, 0, i - 1);
                ruler::lemma_mark_grows(s, i + 1, n as int);
                assert(ruler::mark(s, i as int) == ruler::mark(s, i - 1) + s[i - 1]);
                assert(ruler::mark(s, i + 1) == ruler::mark(s, i as int) + s[i as int]);
            }
            ruler[i] = 1;
            ruler[i - 1] = before + 1;
            ruler[n - 1] = spare;
            proof {
                lemma_carry(s, ruler@, len, n as int, i as int);
                ranking::lemma_rank_in_range(ruler@, len, n as int);
            }
            return true;
        }
        assert(s[i as int] == 1);
        i = i - 1;
    }
    proof {
        lemma_ones_come_last(s, len, n as int, 1);
    }
    false
}

/// A ruler whose last segment is shorter than its second reads smaller backwards.
pub proof fn lemma_reflection_precedes(s: Seq<u8>, length: int, num_segments: int)
    requires
        ranking::in_space(s, length, num_segments),
        s[num_segments - 1] < s[1],
    ensures
        !symmetry::canonical(s),
{
    let n = num_segments;
    let other = symmetry::image(s, 0, true);
    assert((0 - 1) % n == n - 1) by {
        vstd::arithmetic::div_mod::lemma_mod_add_multiples_vanish(-1, n);
        vstd::arithmetic::div_mod::lemma_small_mod((n - 1) as nat, n as nat);
    }
    vstd::arithmetic::div_mod::lemma_small_mod(0, n as nat);
    assert(other[0] == s[0]);
    assert(other[1] == s[n - 1]);
    assert(symmetry::first_difference(other, s, 1));
    assert(symmetry::lex_less(other, s));
}

} // verus!
