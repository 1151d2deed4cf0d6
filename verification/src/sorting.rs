//! Sorting with duplicates removed.
use vstd::prelude::*;

use crate::range_search;
use crate::symmetry;

verus! {

/// Whether the numbers rise from each to the next.
pub open spec fn rising(s: Seq<u64>) -> bool {
    forall|i: int, j: int| 0 <= i < j < s.len() ==> s[i] < s[j]
}

/// Merges two rising lists into one that holds the numbers of both.
fn merge(a: &Vec<u64>, b: &Vec<u64>) -> (res: Vec<u64>)
    requires
        rising(a@),
        rising(b@),
    ensures
        rising(res@),
        forall|x: u64| #[trigger] res@.contains(x) <==> a@.contains(x) || b@.contains(x),
{
    let mut res: Vec<u64> = Vec::new();
    let mut i: usize = 0;
    let mut j: usize = 0;
    while i < a.len() || j < b.len()
        invariant
            i <= a.len(),
            j <= b.len(),
            rising(a@),
            rising(b@),
            rising(res@),
            forall|k: int, l: int| 0 <= k < res.len() && i <= l < a.len() ==> res@[k] < a@[l],
            forall|k: int, l: int| 0 <= k < res.len() && j <= l < b.len() ==> res@[k] < b@[l],
            forall|k: int|
                0 <= k < res.len() ==> a@.contains(#[trigger] res@[k]) || b@.contains(res@[k]),
            forall|k: int| 0 <= k < i ==> res@.contains(#[trigger] a@[k]),
            forall|k: int| 0 <= k < j ==> res@.contains(#[trigger] b@[k]),
        decreases a.len() - i + b.len() - j,
    {
        let ghost before = res@;
        if j >= b.len() || (i < a.len() && a[i] <= b[j]) {
            let x: u64 = a[i];
            res.push(x);
            if j < b.len() && b[j] == x {
                j = j + 1;
            }
            i = i + 1;
        } else {
            let x: u64 = b[j];
            res.push(x);
            j = j + 1;
        }
        proof {
            assert(res@[res@.len() - 1] == res@.last());
            assert forall|x: u64| before.contains(x) implies res@.contains(x) by {
                let k = choose|k: int| 0 <= k < before.len() && before[k] == x;
                assert(res@[k] == x);
            }
            assert(res@.contains(res@.last()));
        }
    }
    proof {
        assert forall|x: u64| #[trigger] res@.contains(x) <==> a@.contains(x) || b@.contains(x) by {
            if res@.contains(x) {
                let k = choose|k: int| 0 <= k < res@.len() && res@[k] == x;
            }
            if a@.contains(x) {
                let k = choose|k: int| 0 <= k < a@.len() && a@[k] == x;
            }
            if b@.contains(x) {
                let k = choose|k: int| 0 <= k < b@.len() && b@[k] == x;
            }
        }
    }
    res
}

/// The numbers of `values[from..to]` in rising order, each of them once.
pub fn sorted_distinct(values: &[u64], from: usize, to: usize) -> (res: Vec<u64>)
    requires
        from <= to <= values@.len(),
    ensures
        rising(res@),
        forall|x: u64| #[trigger]
            res@.contains(x) <==> values@.subrange(from as int, to as int).contains(x),
    decreases to - from,
{
    let ghost part = values@.subrange(from as int, to as int);
    if to - from == 0 {
        let res: Vec<u64> = Vec::new();
        return res;
    }
    if to - from == 1 {
        let mut res: Vec<u64> = Vec::new();
        res.push(values[from]);
        assert(res@ =~= part);
        return res;
    }
    let middle: usize = from + (to - from) / 2;
    let low: Vec<u64> = sorted_distinct(values, from, middle);
    let high: Vec<u64> = sorted_distinct(values, middle, to);
    let res: Vec<u64> = merge(&low, &high);
    proof {
        let a = values@.subrange(from as int, middle as int);
        let b = values@.subrange(middle as int, to as int);
        assert(part =~= a + b);
        assert forall|x: u64| #[trigger] res@.contains(x) <==> part.contains(x) by {
            if a.contains(x) {
                let k = choose|k: int| 0 <= k < a.len() && a[k] == x;
                assert(part[k] == x);
            }
            if b.contains(x) {
                let k = choose|k: int| 0 <= k < b.len() && b[k] == x;
                assert(part[a.len() + k] == x);
            }
            if part.contains(x) {
                let k = choose|k: int| 0 <= k < part.len() && part[k] == x;
                if k < a.len() {
                    assert(a[k] == x);
                } else {
                    assert(b[k - a.len()] == x);
                }
            }
        }
    }
    res
}

/// Whether the rulers come in the order of the dictionary, none of them twice.
pub open spec fn ascending(s: Seq<Seq<u8>>) -> bool {
    forall|i: int, j: int| 0 <= i < j < s.len() ==> symmetry::lex_less(#[trigger] s[i], #[trigger] s[j])
}

/// Compares two rulers in the dictionary: whether the first comes earlier, and whether they are
/// the same.
fn dictionary_order(a: &Vec<u8>, b: &Vec<u8>) -> (res: (bool, bool))
    ensures
        res.0 == symmetry::lex_less(a@, b@),
        res.1 == (a@ == b@),
{
    let mut k: usize = 0;
    while k < a.len() && k < b.len()
        invariant
            k <= a.len(),
            k <= b.len(),
            forall|j: int| 0 <= j < k ==> a@[j] == b@[j],
        decreases a.len() - k,
    {
        if a[k] < b[k] {
            assert(symmetry::first_difference(a@, b@, k as int));
            return (true, false);
        }
        if a[k] > b[k] {
            assert(symmetry::first_difference(b@, a@, k as int));
            assert(symmetry::lex_less(b@, a@));
            proof {
                symmetry::lemma_lex_asymmetric(b@, a@);
            }
            return (false, false);
        }
        k = k + 1;
    }
    if a.len() < b.len() {
        assert(symmetry::first_difference(a@, b@, k as int));
        (true, false)
    } else if a.len() > b.len() {
        assert(symmetry::first_difference(b@, a@, k as int));
        assert(symmetry::lex_less(b@, a@));
        proof {
            symmetry::lemma_lex_asymmetric(b@, a@);
        }
        (false, false)
    } else {
        assert(a@ =~= b@);
        proof {
            symmetry::lemma_lex_irreflexive(a@);
        }
        (false, true)
    }
}

/// Adds a ruler to an ascending list, unless the list has it already.
fn insert_ascending(list: &mut Vec<Vec<u8>>, ruler: Vec<u8>)
    requires
        ascending(range_search::contents(old(list)@)),
    ensures
        ascending(range_search::contents(final(list)@)),
        forall|r: Seq<u8>| #[trigger]
            range_search::contents(final(list)@).contains(r) <==> range_search::contents(
                old(list)@,
            ).contains(r) || r == ruler@,
{
    let ghost before = range_search::contents(list@);
    let mut place: usize = list.len();
    while place > 0
        invariant
            place <= list.len(),
            list@ == old(list)@,
            before == range_search::contents(list@),
            ascending(before),
            forall|i: int|
                place <= i < before.len() ==> symmetry::lex_less(ruler@, #[trigger] before[i]),
        ensures
            place > 0 ==> symmetry::lex_less(before[place - 1], ruler@),
        decreases place,
    {
        let (less, same) = dictionary_order(&list[place - 1], &ruler);
        assert(before[place - 1] == list@[place - 1]@);
        if same {
            return;
        }
        if less {
            break;
        }
        proof {
            symmetry::lemma_lex_total(ruler@, before[place - 1]);
        }
        place = place - 1;
    }
    list.insert(place, ruler);
    proof {
        let after = range_search::contents(list@);
        assert(after =~= before.insert(place as int, ruler@));
        assert forall|i: int, j: int| 0 <= i < j < after.len() implies symmetry::lex_less(
            #[trigger] after[i],
            #[trigger] after[j],
        ) by {
            if j == place {
                assert(after[i] == before[i]);
                if i < place - 1 {
                    assert(symmetry::lex_less(before[i], before[place - 1]));
                    symmetry::lemma_lex_transitive(before[i], before[place - 1], ruler@);
                }
            } else if i == place {
                assert(after[j] == before[j - 1]);
            } else {
                let i0 = if i < place { i } else { i - 1 };
                let j0 = if j < place { j } else { j - 1 };
                assert(after[i] == before[i0] && after[j] == before[j0]);
            }
        }
        assert forall|r: Seq<u8>| #[trigger] after.contains(r) <==> before.contains(r) || r
            == ruler@ by {
            if before.contains(r) {
                let k = choose|k: int| 0 <= k < before.len() && before[k] == r;
                assert(after[if k < place { k } else { k + 1 }] == r);
            }
            if r == ruler@ {
                assert(after[place as int] == r);
            }
            if after.contains(r) {
                let k = choose|k: int| 0 <= k < after.len() && after[k] == r;
                if k != place {
                    assert(before[if k < place { k } else { k - 1 }] == r);
                }
            }
        }
    }
}

/// Sorts rulers in the order of the dictionary and removes duplicates.
pub fn sort_rulers(rulers: Vec<Vec<u8>>) -> (res: Vec<Vec<u8>>)
    ensures
        ascending(range_search::contents(res@)),
        forall|r: Seq<u8>| #[trigger]
            range_search::contents(res@).contains(r) <==> range_search::contents(
                rulers@,
            ).contains(r),
{
    let ghost given = range_search::contents(rulers@);
    let mut res: Vec<Vec<u8>> = Vec::new();
    for ruler in it: rulers
        invariant
            it.seq() == rulers@,
            given == range_search::contents(rulers@),
            ascending(range_search::contents(res@)),
            forall|r: Seq<u8>| #[trigger]
                range_search::contents(res@).contains(r) <==> given.take(
                    it.index(),
                ).contains(r),
    {
        let ghost seen = it.index();
        let ghost now = ruler@;
        insert_ascending(&mut res, ruler);
        proof {
            assert(given[seen as int] == now);
            assert(given.take(seen + 1) =~= given.take(seen as int).push(now));
            assert forall|r: Seq<u8>| #[trigger]
                range_search::contents(res@).contains(r) <==> given.take(seen + 1).contains(r) by {
                let a = given.take(seen as int);
                let b = given.take(seen + 1);
                if a.contains(r) {
                    let k = choose|k: int| 0 <= k < a.len() && a[k] == r;
                    assert(b[k] == r);
                }
                assert(b[seen as int] == now);
                if b.contains(r) {
                    let k = choose|k: int| 0 <= k < b.len() && b[k] == r;
                    if k < seen {
                        assert(a[k] == r);
                    }
                }
            }
        }
    }
    assert(given.take(given.len() as int) =~= given);
    res
}

/// Two ascending lists with the same rulers are the same list.
pub proof fn lemma_ascending_lists_agree(a: Seq<Seq<u8>>, b: Seq<Seq<u8>>)
    requires
        ascending(a),
        ascending(b),
        forall|r: Seq<u8>|
            #![trigger a.contains(r)]
            #![trigger b.contains(r)]
            a.contains(r) <==> b.contains(r),
    ensures
        a == b,
    decreases a.len(),
{
    if a.len() == 0 {
        if b.len() > 0 {
            assert(b.contains(b[0]));
        }
        assert(a =~= b);
    } else {
        let x = a.last();
        assert(a.contains(x));
        assert(b.len() > 0);
        let y = b.last();
        assert(b.contains(y));
        let i = choose|i: int| 0 <= i < b.len() && b[i] == x;
        let j = choose|j: int| 0 <= j < a.len() && a[j] == y;
        if i < b.len() - 1 {
            assert(symmetry::lex_less(b[i], b[b.len() - 1]));
            if j < a.len() - 1 {
                assert(symmetry::lex_less(a[j], a[a.len() - 1]));
                symmetry::lemma_lex_asymmetric(x, y);
            } else {
                symmetry::lemma_lex_irreflexive(x);
            }
        }
        assert(x == y);
        let a0 = a.drop_last();
        let b0 = b.drop_last();
        assert forall|r: Seq<u8>|
            #![trigger a0.contains(r)]
            #![trigger b0.contains(r)]
            a0.contains(r) <==> b0.contains(r) by {
            if a0.contains(r) {
                lemma_not_last(a, b, r);
            }
            if b0.contains(r) {
                lemma_not_last(b, a, r);
            }
        }
        lemma_ascending_lists_agree(a0, b0);
        assert(a =~= a0.push(x));
        assert(b =~= b0.push(y));
    }
}

/// What an ascending list has before its last ruler is no last ruler of another.
proof fn lemma_not_last(a: Seq<Seq<u8>>, b: Seq<Seq<u8>>, r: Seq<u8>)
    requires
        a.len() > 0,
        b.len() > 0,
        ascending(a),
        a.last() == b.last(),
        forall|r: Seq<u8>|
            #![trigger a.contains(r)]
            #![trigger b.contains(r)]
            a.contains(r) <==> b.contains(r),
        a.drop_last().contains(r),
    ensures
        b.drop_last().contains(r),
{
    let a0 = a.drop_last();
    let k = choose|k: int| 0 <= k < a0.len() && a0[k] == r;
    assert(a[k] == r);
    assert(symmetry::lex_less(a[k], a[a.len() - 1]));
    symmetry::lemma_lex_irreflexive(r);
    assert(a.contains(r));
    let l = choose|l: int| 0 <= l < b.len() && b[l] == r;
    assert(b.drop_last()[l] == r);
}

/// A rising list is determined by what it holds: two rising lists of the same numbers are equal.
pub proof fn law_rising_lists_agree(a: Seq<u64>, b: Seq<u64>)
    requires
        rising(a),
        rising(b),
        forall|x: u64|
            #![trigger a.contains(x)]
            #![trigger b.contains(x)]
            a.contains(x) <==> b.contains(x),
    ensures
        a == b,
    decreases a.len(),
{
    if a.len() == 0 {
        if b.len() > 0 {
            assert(b.contains(b[0]));
        }
        assert(a =~= b);
    } else {
        assert(a.contains(a.last()));
        assert(b.contains(a.last()));
        assert(b.contains(b.last()));
        assert(a.contains(b.last()));
        let i = choose|i: int| 0 <= i < a.len() && a[i] == b.last();
        let j = choose|j: int| 0 <= j < b.len() && b[j] == a.last();
        assert(a.last() == b.last()) by {
            if i < a.len() - 1 {
                assert(a[i] < a[a.len() - 1]);
                if j < b.len() - 1 {
                    assert(b[j] < b[b.len() - 1]);
                }
            }
        }
        let a_rest = a.drop_last();
        let b_rest = b.drop_last();
        assert forall|x: u64|
            #![trigger a_rest.contains(x)]
            #![trigger b_rest.contains(x)]
            a_rest.contains(x) <==> b_rest.contains(x) by {
            if a_rest.contains(x) {
                let k = choose|k: int| 0 <= k < a_rest.len() && a_rest[k] == x;
                assert(a[k] == x && a[k] < a[a.len() - 1]);
                assert(a.contains(x));
                assert(b.contains(x));
                let m = choose|m: int| 0 <= m < b.len() && b[m] == x;
                assert(b_rest[m] == x);
            }
            if b_rest.contains(x) {
                let k = choose|k: int| 0 <= k < b_rest.len() && b_rest[k] == x;
                assert(b[k] == x && b[k] < b[b.len() - 1]);
                assert(b.contains(x));
                assert(a.contains(x));
                let m = choose|m: int| 0 <= m < a.len() && a[m] == x;
                assert(a_rest[m] == x);
            }
        }
        law_rising_lists_agree(a_rest, b_rest);
        assert(a =~= a_rest.push(a.last()));
        assert(b =~= b_rest.push(b.last()));
    }
}

} // verus!
