//! Fixed-size sets of small positions, packed into 64-bit words.
use vstd::prelude::*;

verus! {

/// Bit `t` of a word.
pub open spec fn bit(w: u64, t: int) -> bool {
    0 <= t < 64 && (w >> (t as u64)) & 1 == 1
}

/// Whether position `p` is in the set that the words hold, 64 positions to a word.
pub open spec fn has(words: Seq<u64>, p: int) -> bool {
    0 <= p < 64 * words.len() && bit(words[p / 64], p % 64)
}

pub proof fn lemma_bit_zero(t: int)
    ensures
        !bit(0, t),
{
    let u = t as u64;
    assert((0u64 >> u) & 1 == 0) by (bit_vector);
}

pub proof fn lemma_bit_or(a: u64, b: u64, t: int)
    ensures
        bit(a | b, t) <==> bit(a, t) || bit(b, t),
{
    let u = t as u64;
    assert(((a | b) >> u) & 1 == 1 <==> (a >> u) & 1 == 1 || (b >> u) & 1 == 1) by (bit_vector);
}

pub proof fn lemma_bit_single(k: u64, t: int)
    requires
        k < 64,
    ensures
        bit(1u64 << k, t) <==> t == k,
{
    if 0 <= t < 64 {
        let u = t as u64;
        assert(((1u64 << k) >> u) & 1 == 1 <==> u == k) by (bit_vector)
            requires
                k < 64,
                u < 64,
        ;
    }
}

pub proof fn lemma_bit_shl(a: u64, k: u64, t: int)
    requires
        k < 64,
    ensures
        bit(a << k, t) <==> t < 64 && bit(a, t - k),
{
    if 0 <= t < 64 {
        let u = t as u64;
        if t < k {
            assert(((a << k) >> u) & 1 == 0) by (bit_vector)
                requires
                    u < k < 64,
            ;
        } else {
            let v = (t - k) as u64;
            assert(((a << k) >> u) & 1 == (a >> v) & 1) by (bit_vector)
                requires
                    k < 64,
                    u < 64,
                    u == v + k,
            ;
        }
    }
}

pub proof fn lemma_bit_shr(a: u64, k: u64, t: int)
    requires
        k < 64,
    ensures
        bit(a >> k, t) <==> 0 <= t && bit(a, t + k),
{
    if 0 <= t < 64 {
        let u = t as u64;
        if t + k < 64 {
            let v = (t + k) as u64;
            assert(((a >> k) >> u) & 1 == (a >> v) & 1) by (bit_vector)
                requires
                    v < 64,
                    v == u + k,
            ;
        } else {
            assert(((a >> k) >> u) & 1 == 0) by (bit_vector)
                requires
                    k < 64,
                    u < 64,
                    u + k >= 64,
            ;
        }
    }
}

/// `mask` lies inside `a` exactly when each of its bits does.
pub proof fn lemma_mask_inside(a: u64, mask: u64)
    ensures
        a & mask == mask <==> forall|t: int| 0 <= t < 64 && bit(mask, t) ==> #[trigger] bit(a, t),
{
    if a & mask == mask {
        assert forall|t: int| 0 <= t < 64 && bit(mask, t) implies #[trigger] bit(a, t) by {
            let u = t as u64;
            assert((a >> u) & 1 == 1) by (bit_vector)
                requires
                    a & mask == mask,
                    (mask >> u) & 1 == 1,
            ;
        }
    } else {
        let missing = mask & !a;
        assert(missing != 0) by (bit_vector)
            requires
                a & mask != mask,
                missing == mask & !a,
        ;
        vstd::std_specs::bits::axiom_u64_trailing_zeros(missing);
        let u = vstd::std_specs::bits::u64_trailing_zeros(missing) as u64;
        assert((mask >> u) & 1 == 1 && (a >> u) & 1 != 1) by (bit_vector)
            requires
                u < 64,
                missing == mask & !a,
                (missing >> u) & 1 == 1,
        ;
        assert(bit(mask, u as int) && !bit(a, u as int));
    }
}

/// The full word holds every bit.
pub proof fn lemma_bit_full(a: u64)
    ensures
        a == !0u64 <==> forall|t: int| 0 <= t < 64 ==> #[trigger] bit(a, t),
{
    let full = !0u64;
    assert(a & full == a) by (bit_vector)
        requires
            full == !0u64,
    ;
    lemma_mask_inside(a, full);
    assert forall|t: int| 0 <= t < 64 implies #[trigger] bit(full, t) by {
        let u = t as u64;
        assert((full >> u) & 1 == 1) by (bit_vector)
            requires
                full == !0u64,
                u < 64,
        ;
    }
}

/// Adds to the set the positions of `word`, as word number `index`.
pub fn or_word<const N: usize>(words: &mut [u64; N], index: usize, word: u64)
    requires
        index < N,
    ensures
        forall|p: int| #[trigger]
            has(final(words)@, p) <==> has(old(words)@, p) || (p / 64 == index && bit(word, p % 64)),
{
    let before: u64 = words[index];
    words[index] = before | word;
    proof {
        assert forall|p: int|
            has(words@, p) <==> #[trigger] has(old(words)@, p) || (p / 64 == index && bit(
                word,
                p % 64,
            )) by {
            lemma_bit_or(before, word, p % 64);
        }
    }
}

} // verus!
