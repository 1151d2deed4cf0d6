//! The bitwise test of whether a ruler is complete.
use vstd::prelude::*;

use crate::bitset;
use crate::bitset::or_word;
use crate::ruler;

verus! {

/// Whether some of the first `n` marks of `s` lies at position `p`.
pub open spec fn marked(s: Seq<u8>, n: int, p: int) -> bool {
    exists|k: int| 0 <= k < n && #[trigger] ruler::mark(s, k) == p
}

/// Whether two marks of `s` lie `d` apart, where a second copy of the marks is laid down
/// `shift` further on. Marks at position 256 and beyond are left out of what is reached.
pub open spec fn covered(s: Seq<u8>, shift: int, d: int) -> bool {
    exists|i: int, j: int|
        0 <= i < s.len() && 0 <= j < s.len() && ruler::mark(s, j) < 256 && (#[trigger] ruler::mark(
            s,
            j,
        ) - #[trigger] ruler::mark(s, i) == d || ruler::mark(s, j) + shift - ruler::mark(s, i) == d)
}

/// Whether every demanded distance is covered: those below `64 * u64_blocks`, as far as 256 bits
/// reach, and of the 64 from there on those whose bit is set in `final_mask`.
pub open spec fn all_covered(
    s: Seq<u8>,
    u64_blocks: usize,
    bit_shift: usize,
    final_mask: u64,
) -> bool {
    let shift = 64 * u64_blocks + bit_shift;
    &&& forall|d: int| 0 <= d < 64 * u64_blocks && d < 256 ==> #[trigger] covered(s, shift, d)
    &&& forall|t: int| #[trigger]
        bitset::bit(final_mask, t) ==> covered(s, shift, 64 * u64_blocks + t)
}

/// Whether the three parameters of [`is_complete`] are those of a ruler of `length`:
/// the full 64-bit blocks, the bits that remain, and the mask of those bits.
pub open spec fn parameters_of(
    length: int,
    u64_blocks: usize,
    bit_shift: usize,
    final_mask: u64,
) -> bool {
    &&& u64_blocks == length / 64
    &&& bit_shift == length % 64
    &&& forall|t: int| #[trigger] bitset::bit(final_mask, t) <==> 0 <= t < length % 64
}

/// Adds to `diffs` the positions of `source`, moved down by `pos`.
fn or_shifted(diffs: &mut [u64; 4], source: &[u64; 8], pos: usize)
    requires
        pos <= 256,
    ensures
        forall|d: int| #[trigger]
            bitset::has(final(diffs)@, d) <==> bitset::has(old(diffs)@, d) || (0 <= d < 256
                && bitset::has(source@, d + pos)),
{
    let u_shift: usize = pos / 64;
    let b_shift: u64 = (pos % 64) as u64;
    let mut j: usize = 0;
    while j < 4
        invariant
            j <= 4,
            pos <= 256,
            u_shift == pos / 64,
            b_shift == pos % 64,
            forall|d: int| #[trigger]
                bitset::has(diffs@, d) <==> bitset::has(old(diffs)@, d) || (0 <= d < 64 * j
                    && bitset::has(source@, d + pos)),
        decreases 4 - j,
    {
        let ghost before = diffs@;
        let word: u64 = if b_shift == 0 {
            source[j + u_shift]
        } else {
            (source[j + u_shift] >> b_shift) | (source[j + u_shift + 1] << (64 - b_shift))
        };
        or_word(diffs, j, word);
        proof {
            assert forall|d: int| 64 * j <= d < 64 * j + 64 implies (bitset::bit(word, d % 64)
                <==> #[trigger] bitset::has(source@, d + pos)) by {
                let t = d % 64;
                if b_shift == 0 {
                    assert((d + pos) / 64 == j + u_shift && (d + pos) % 64 == t);
                } else {
                    let low = source@[j + u_shift];
                    let high = source@[j + u_shift + 1];
                    bitset::lemma_bit_or(low >> b_shift, high << (64 - b_shift) as u64, t);
                    bitset::lemma_bit_shr(low, b_shift, t);
                    bitset::lemma_bit_shl(high, (64 - b_shift) as u64, t);
                    if t + b_shift < 64 {
                        assert((d + pos) / 64 == j + u_shift && (d + pos) % 64 == t + b_shift);
                    } else {
                        assert((d + pos) / 64 == j + u_shift + 1 && (d + pos) % 64 == t + b_shift
                            - 64);
                    }
                }
            }
            assert forall|d: int| #[trigger]
                bitset::has(diffs@, d) <==> bitset::has(old(diffs)@, d) || (0 <= d < 64 * (j + 1)
                    && bitset::has(source@, d + pos)) by {
                assert(bitset::has(before, d) <==> bitset::has(old(diffs)@, d) || (0 <= d < 64 * j
                    && bitset::has(source@, d + pos)));
                if d / 64 == j {
                    assert(64 * j <= d < 64 * j + 64);
                }
            }
        }
        j = j + 1;
    }
}

/// The set of mark positions below 256.
fn mark_set(segments: &[u8]) -> (marks: [u64; 4])
    requires
        segments@.len() >= 1,
        forall|i: int| 0 <= i < segments@.len() ==> #[trigger] ruler::mark(segments@, i) <= 256,
    ensures
        forall|p: int| #[trigger]
            bitset::has(marks@, p) <==> p < 256 && marked(segments@, segments@.len() as int, p),
{
    let n: usize = segments.len();
    let mut marks: [u64; 4] = [0u64, 0, 0, 0];
    proof {
        assert forall|p: int| !bitset::has(marks@, p) by {
            bitset::lemma_bit_zero(p % 64);
        }
    }
    let ghost empty = marks@;
    or_word(&mut marks, 0, 1);
    let mut current_pos: usize = 0;
    let mut i: usize = 0;
    proof {
        assert(1u64 << 0 == 1) by (bit_vector);
        assert forall|p: int| #[trigger]
            bitset::has(marks@, p) <==> p < 256 && marked(segments@, 1, p) by {
            bitset::lemma_bit_single(0, p % 64);
            assert(!bitset::has(empty, p));
            assert(ruler::mark(segments@, 0) == 0);
        }
    }
    while i < n - 1
        invariant
            n == segments@.len(),
            n >= 1,
            i < n,
            current_pos == ruler::mark(segments@, i as int),
            forall|i: int| 0 <= i < segments@.len() ==> #[trigger] ruler::mark(segments@, i) <= 256,
            forall|p: int| #[trigger]
                bitset::has(marks@, p) <==> p < 256 && marked(segments@, i + 1, p),
        decreases n - i,
    {
        assert(ruler::mark(segments@, i + 1) == current_pos + segments@[i as int]);
        let ghost before = marks@;
        current_pos = current_pos + segments[i] as usize;
        if current_pos < 256 {
            let index: usize = current_pos / 64;
            let offset: u64 = (current_pos % 64) as u64;
            or_word(&mut marks, index, 1u64 << offset);
            proof {
                assert forall|p: int| #[trigger]
                    bitset::has(marks@, p) <==> p < 256 && marked(segments@, i + 2, p) by {
                    bitset::lemma_bit_single(offset, p % 64);
                    assert(bitset::has(before, p) <==> p < 256 && marked(segments@, i + 1, p));
                    if p == current_pos {
                        assert(ruler::mark(segments@, i + 1) == p);
                    }
                }
            }
        } else {
            proof {
                assert forall|p: int| #[trigger]
                    bitset::has(marks@, p) <==> p < 256 && marked(segments@, i + 2, p) by {}
            }
        }
        i = i + 1;
    }
    marks
}

/// The marks together with a copy of them `64 * u64_blocks + bit_shift` further on.
fn doubled(marks: &[u64; 4], u64_blocks: usize, bit_shift: usize) -> (m2: [u64; 8])
    requires
        bit_shift < 64,
        u64_blocks <= usize::MAX - 4,
    ensures
        forall|p: int| #[trigger]
            bitset::has(m2@, p) <==> p < 512 && (bitset::has(marks@, p) || bitset::has(
                marks@,
                p - (64 * u64_blocks + bit_shift),
            )),
{
    let mut m2: [u64; 8] = [0u64, 0, 0, 0, 0, 0, 0, 0];
    let ghost shift = 64 * u64_blocks + bit_shift;
    proof {
        assert forall|p: int| !bitset::has(m2@, p) by {
            bitset::lemma_bit_zero(p % 64);
        }
    }
    let mut i: usize = 0;
    while i < 4
        invariant
            i <= 4,
            bit_shift < 64,
            u64_blocks <= usize::MAX - 4,
            shift == 64 * u64_blocks + bit_shift,
            forall|p: int| #[trigger]
                bitset::has(m2@, p) <==> (p < 64 * i && bitset::has(marks@, p)) || (p < 512 && p
                    - shift < 64 * i && bitset::has(marks@, p - shift)),
        decreases 4 - i,
    {
        let word: u64 = marks[i];
        let ghost m2_0 = m2@;
        or_word(&mut m2, i, word);
        let ghost m2_1 = m2@;
        if bit_shift == 0 {
            if i + u64_blocks < 8 {
                or_word(&mut m2, i + u64_blocks, word);
            }
            proof {
                assert forall|p: int| #[trigger]
                    bitset::has(m2@, p) <==> (p < 64 * (i + 1) && bitset::has(marks@, p)) || (p
                        < 512 && p - shift < 64 * (i + 1) && bitset::has(marks@, p - shift)) by {
                    let q = p - shift;
                    assert(bitset::has(m2_1, p) <==> bitset::has(m2_0, p) || (p / 64 == i
                        && bitset::bit(word, p % 64)));
                    assert(q / 64 == p / 64 - u64_blocks && q % 64 == p % 64);
                }
            }
        } else {
            let b_shift: u64 = bit_shift as u64;
            if i + u64_blocks < 8 {
                or_word(&mut m2, i + u64_blocks, word << b_shift);
            }
            let ghost m2_2 = m2@;
            if i + u64_blocks + 1 < 8 {
                or_word(&mut m2, i + u64_blocks + 1, word >> (64 - b_shift));
            }
            proof {
                assert forall|p: int| #[trigger]
                    bitset::has(m2@, p) <==> (p < 64 * (i + 1) && bitset::has(marks@, p)) || (p
                        < 512 && p - shift < 64 * (i + 1) && bitset::has(marks@, p - shift)) by {
                    let q = p - shift;
                    let t = p % 64;
                    assert(bitset::has(m2_2, p) <==> bitset::has(m2_1, p) || (i + u64_blocks < 8
                        && p / 64 == i + u64_blocks && bitset::bit(word << b_shift, t)));
                    assert(bitset::has(m2_1, p) <==> bitset::has(m2_0, p) || (p / 64 == i
                        && bitset::bit(word, t)));
                    bitset::lemma_bit_shl(word, b_shift, t);
                    bitset::lemma_bit_shr(word, (64 - b_shift) as u64, t);
                    if t >= bit_shift {
                        assert(q / 64 == p / 64 - u64_blocks && q % 64 == t - bit_shift);
                    } else {
                        assert(q / 64 == p / 64 - u64_blocks - 1 && q % 64 == t + 64 - bit_shift);
                    }
                }
            }
        }
        i = i + 1;
    }
    m2
}

/// Decides whether all demanded distances are covered.
fn demanded_are_covered(
    segments: &[u8],
    u64_blocks: usize,
    bit_shift: usize,
    final_mask: u64,
) -> (res: bool)
    requires
        segments@.len() >= 1,
        forall|i: int| 0 <= i < segments@.len() ==> #[trigger] ruler::mark(segments@, i) <= 256,
        bit_shift < 64,
        u64_blocks <= usize::MAX - 4,
        final_mask > 0 && u64_blocks >= 4 ==> exists|d: int|
            0 <= d < 256 && !#[trigger] covered(segments@, 64 * u64_blocks + bit_shift, d),
    ensures
        res == all_covered(segments@, u64_blocks, bit_shift, final_mask),
{
    let n: usize = segments.len();
    let ghost s = segments@;
    let ghost shift = 64 * u64_blocks + bit_shift;
    let marks: [u64; 4] = mark_set(segments);
    let m2: [u64; 8] = doubled(&marks, u64_blocks, bit_shift);

    // United with itself moved down by the marks seen so far.
    let mut diffs: [u64; 4] = [0u64, 0, 0, 0];
    proof {
        assert forall|d: int| !bitset::has(diffs@, d) by {
            bitset::lemma_bit_zero(d % 64);
        }
        assert(ruler::mark(s, 0) == 0);
    }
    let mut current_pos: usize = 0;
    or_shifted(&mut diffs, &m2, 0);
    let mut i: usize = 0;
    while i < n - 1
        invariant
            n == s.len(),
            n >= 1,
            i < n,
            s == segments@,
            current_pos == ruler::mark(s, i as int),
            forall|i: int| 0 <= i < s.len() ==> #[trigger] ruler::mark(s, i) <= 256,
            forall|d: int| #[trigger]
                bitset::has(diffs@, d) <==> 0 <= d < 256 && exists|k: int|
                    0 <= k <= i && bitset::has(m2@, d + #[trigger] ruler::mark(s, k)),
        decreases n - i,
    {
        assert(ruler::mark(s, i + 1) == current_pos + s[i as int]);
        let ghost before = diffs@;
        current_pos = current_pos + segments[i] as usize;
        or_shifted(&mut diffs, &m2, current_pos);
        proof {
            assert forall|d: int| #[trigger]
                bitset::has(diffs@, d) <==> 0 <= d < 256 && exists|k: int|
                    0 <= k <= i + 1 && bitset::has(m2@, d + #[trigger] ruler::mark(s, k)) by {
                assert(bitset::has(before, d) <==> 0 <= d < 256 && exists|k: int|
                    0 <= k <= i && bitset::has(m2@, d + #[trigger] ruler::mark(s, k)));
                if 0 <= d < 256 && bitset::has(m2@, d + ruler::mark(s, i + 1)) {
                    assert(bitset::has(diffs@, d));
                }
            }
        }
        i = i + 1;
    }
    proof {
        assert forall|d: int| 0 <= d < 256 implies (#[trigger] bitset::has(diffs@, d) <==> covered(
            s,
            shift,
            d,
        )) by {
            if bitset::has(diffs@, d) {
                let k = choose|k: int|
                    0 <= k <= n - 1 && bitset::has(m2@, d + #[trigger] ruler::mark(s, k));
                let p = d + ruler::mark(s, k);
                if bitset::has(marks@, p) {
                    let j = choose|j: int| 0 <= j < n && #[trigger] ruler::mark(s, j) == p;
                    assert(ruler::mark(s, j) - ruler::mark(s, k) == d);
                } else {
                    assert(bitset::has(marks@, p - shift));
                    let j = choose|j: int| 0 <= j < n && #[trigger] ruler::mark(s, j) == p - shift;
                    assert(ruler::mark(s, j) + shift - ruler::mark(s, k) == d);
                }
            }
            if covered(s, shift, d) {
                let (i, j) = choose|i: int, j: int|
                    0 <= i < s.len() && 0 <= j < s.len() && ruler::mark(s, j) < 256 && (
                    #[trigger] ruler::mark(s, j) - #[trigger] ruler::mark(s, i) == d || ruler::mark(
                        s,
                        j,
                    ) + shift - ruler::mark(s, i) == d);
                let p = d + ruler::mark(s, i);
                assert(marked(s, n as int, ruler::mark(s, j)));
                assert(bitset::has(marks@, ruler::mark(s, j)));
                assert(ruler::mark(s, i) <= 256);
                assert(bitset::has(m2@, p));
            }
        }
    }

    // All distances in the full blocks.
    let blocks: usize = if u64_blocks <= 4 {
        u64_blocks
    } else {
        4
    };
    let mut b: usize = 0;
    while b < blocks
        invariant
            b <= blocks,
            blocks <= 4,
            blocks == if u64_blocks <= 4 { u64_blocks } else { 4 },
            forall|d: int| 0 <= d < 64 * b ==> #[trigger] bitset::has(diffs@, d),
            forall|d: int|
                0 <= d < 256 ==> (#[trigger] bitset::has(diffs@, d) <==> covered(s, shift, d)),
            s == segments@,
            shift == 64 * u64_blocks + bit_shift,
        decreases blocks - b,
    {
        proof {
            bitset::lemma_bit_full(diffs@[b as int]);
        }
        if diffs[b] != !0u64 {
            proof {
                let t = choose|t: int| 0 <= t < 64 && !#[trigger] bitset::bit(diffs@[b as int], t);
                assert((64 * b + t) / 64 == b && (64 * b + t) % 64 == t);
                assert(!bitset::has(diffs@, 64 * b + t));
                assert(!covered(s, shift, 64 * b + t));
            }
            return false;
        }
        proof {
            assert forall|d: int| 64 * b <= d < 64 * b + 64 implies #[trigger] bitset::has(
                diffs@,
                d,
            ) by {
                assert(bitset::bit(diffs@[b as int], d % 64));
            }
        }
        b = b + 1;
    }
    proof {
        assert forall|t: int| !bitset::bit(0, t) by {
            bitset::lemma_bit_zero(t);
        }
        assert forall|d: int| 0 <= d < 64 * u64_blocks && d < 256 implies #[trigger] covered(
            s,
            shift,
            d,
        ) by {
            assert(bitset::has(diffs@, d));
        }
    }
    if final_mask > 0 {
        assert(u64_blocks < 4) by {
            if u64_blocks >= 4 {
                let d = choose|d: int| 0 <= d < 256 && !#[trigger] covered(s, shift, d);
                assert(bitset::has(diffs@, d));
            }
        }
        let last: u64 = diffs[u64_blocks];
        proof {
            bitset::lemma_mask_inside(last, final_mask);
            assert forall|t: int| 0 <= t < 64 implies (#[trigger] bitset::bit(last, t) <==> covered(
                s,
                shift,
                64 * u64_blocks + t,
            )) by {
                let d = 64 * u64_blocks + t;
                assert(d / 64 == u64_blocks && d % 64 == t);
                assert(bitset::has(diffs@, d) <==> covered(s, shift, d));
            }
        }
        proof {
            if last & final_mask != final_mask {
                let t = choose|t: int|
                    0 <= t < 64 && bitset::bit(final_mask, t) && !#[trigger] bitset::bit(last, t);
                assert(!covered(s, shift, 64 * u64_blocks + t));
            } else {
                assert forall|t: int| #[trigger] bitset::bit(final_mask, t) implies covered(
                    s,
                    shift,
                    64 * u64_blocks + t,
                ) by {
                    assert(bitset::bit(last, t));
                }
            }
        }
        last & final_mask == final_mask
    } else {
        true
    }
}

/// Verifies with bitwise operations that a ruler measures every distance.
///
/// The marks are laid down in a bitset, together with a copy of them one turn further on, and
/// the bitset is united with itself moved down by every mark. Bit `d` of the result says that
/// two marks lie `d` apart, counted round the circle.
///
/// * `u64_blocks`, `bit_shift`: the length of one turn, `64 * u64_blocks + bit_shift`. All
///   distances below `64 * u64_blocks` are demanded.
/// * `final_mask`: which distances are demanded of the 64 from there on.
pub fn is_complete(
    segments: &[u8],
    u64_blocks: usize,
    bit_shift: usize,
    final_mask: u64,
) -> (res: bool)
    requires
        segments@.len() >= 1,
        forall|i: int| 0 <= i < segments@.len() ==> #[trigger] ruler::mark(segments@, i) <= 256,
        bit_shift < 64,
        u64_blocks <= usize::MAX - 4,
        final_mask > 0 && u64_blocks >= 4 ==> exists|d: int|
            0 <= d < 256 && !#[trigger] covered(segments@, 64 * u64_blocks + bit_shift, d),
    ensures
        res == all_covered(segments@, u64_blocks, bit_shift, final_mask),
        ruler::all_positive(segments@) && ruler::ruler_length(segments@) <= 256 && parameters_of(
            ruler::ruler_length(segments@),
            u64_blocks,
            bit_shift,
            final_mask,
        ) ==> res == ruler::complete(segments@),
{
    proof {
        if ruler::all_positive(segments@) && ruler::ruler_length(segments@) <= 256 && parameters_of(
            ruler::ruler_length(segments@),
            u64_blocks,
            bit_shift,
            final_mask,
        ) {
            law_parameters_demand_completeness(segments@, u64_blocks, bit_shift, final_mask);
        }
    }
    demanded_are_covered(segments, u64_blocks, bit_shift, final_mask)
}

/// With the parameters of its own length, the distances that [`is_complete`] demands of a ruler
/// are all covered exactly when the ruler is complete.
pub proof fn law_parameters_demand_completeness(
    s: Seq<u8>,
    u64_blocks: usize,
    bit_shift: usize,
    final_mask: u64,
)
    requires
        s.len() >= 1,
        ruler::all_positive(s),
        ruler::ruler_length(s) <= 256,
        parameters_of(ruler::ruler_length(s), u64_blocks, bit_shift, final_mask),
    ensures
        forall|i: int| 0 <= i < s.len() ==> #[trigger] ruler::mark(s, i) <= 256,
        final_mask > 0 ==> u64_blocks < 4,
        all_covered(s, u64_blocks, bit_shift, final_mask) == ruler::complete(s),
{
    let n = s.len() as int;
    let len = ruler::ruler_length(s);
    assert(64 * u64_blocks + bit_shift == len);
    assert forall|i: int| 0 <= i < s.len() implies #[trigger] ruler::mark(s, i) < len by {
        ruler::lemma_mark_grows(s, i, n);
    }
    if final_mask > 0 {
        bitset::lemma_mask_inside(0, final_mask);
        assert(0u64 & final_mask == 0) by (bit_vector);
        let t = choose|t: int|
            0 <= t < 64 && bitset::bit(final_mask, t) && !#[trigger] bitset::bit(0, t);
        assert(0 <= t < len % 64);
    }
    assert(covered(s, len, 0)) by {
        assert(ruler::mark(s, 0) - ruler::mark(s, 0) == 0);
    }
    assert forall|d: int| 1 <= d < len implies (#[trigger] covered(s, len, d) <==> ruler::measures(
        s,
        d,
    )) by {
        ruler::lemma_measures_by_marks(s, d);
        if covered(s, len, d) {
            let (i, j) = choose|i: int, j: int|
                0 <= i < s.len() && 0 <= j < s.len() && ruler::mark(s, j) < 256 && (
                #[trigger] ruler::mark(s, j) - #[trigger] ruler::mark(s, i) == d || ruler::mark(
                    s,
                    j,
                ) + len - ruler::mark(s, i) == d);
            assert(ruler::mark(s, j) - ruler::mark(s, i) == d || ruler::mark(s, j)
                + ruler::ruler_length(s) - ruler::mark(s, i) == d);
        }
    }
    if ruler::complete(s) {
        assert forall|d: int| 0 <= d < len implies #[trigger] covered(s, len, d) by {
            if d >= 1 {
                assert(ruler::measures(s, d));
            }
        }
    } else {
        let d = choose|d: int| 1 <= d < len && !#[trigger] ruler::measures(s, d);
        assert(!covered(s, len, d));
        if d >= 64 * u64_blocks {
            let t = d - 64 * u64_blocks;
            assert(bitset::bit(final_mask, t));
            assert(64 * u64_blocks + t == d);
        }
    }
}

} // verus!
