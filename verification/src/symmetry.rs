//! Rotations and reflections of circular rulers, and the canonical choice among them.
use vstd::arithmetic::div_mod::{
    lemma_add_mod_noop_right, lemma_mod_add_multiples_vanish, lemma_small_mod, lemma_sub_mod_noop_right,
};
use vstd::prelude::*;

use crate::ruler;

verus! {

/// Dictionary order: at the first place where they differ `a` has the smaller element,
/// or `a` ends there.
pub open spec fn lex_less(a: Seq<u8>, b: Seq<u8>) -> bool {
    exists|k: int| #[trigger] first_difference(a, b, k) && (k == a.len() || a[k] < b[k])
}

/// `a` and `b` agree before place `k`, where `a` may end but `b` does not.
pub open spec fn first_difference(a: Seq<u8>, b: Seq<u8>, k: int) -> bool {
    0 <= k <= a.len() && k < b.len() && forall|j: int| 0 <= j < k ==> a[j] == b[j]
}

/// The ruler read forwards from segment `i`.
pub open spec fn rotation(s: Seq<u8>, i: int) -> Seq<u8> {
    Seq::new(s.len(), |j: int| s[(i + j) % (s.len() as int)])
}

/// The ruler read backwards from segment `i`.
pub open spec fn reflection(s: Seq<u8>, i: int) -> Seq<u8> {
    Seq::new(s.len(), |j: int| s[(i - j) % (s.len() as int)])
}

/// The image of `s` that starts at segment `i`, in either direction.
pub open spec fn image(s: Seq<u8>, i: int, backwards: bool) -> Seq<u8> {
    if backwards {
        reflection(s, i)
    } else {
        rotation(s, i)
    }
}

/// Whether `a` and `b` are the same circular ruler, up to where and in which direction it is read.
pub open spec fn symmetric(a: Seq<u8>, b: Seq<u8>) -> bool {
    exists|i: int, backwards: bool| 0 <= i < a.len() && b == #[trigger] image(a, i, backwards)
}

/// Whether no image of `s` comes before `s` in the dictionary.
pub open spec fn lex_least(s: Seq<u8>) -> bool {
    forall|i: int, backwards: bool|
        0 <= i < s.len() ==> !lex_less(#[trigger] image(s, i, backwards), s)
}

/// Whether no image of `s` that starts with a segment of length 1 comes before `s`.
pub open spec fn canonical(s: Seq<u8>) -> bool {
    s.len() < 2 || forall|i: int, backwards: bool|
        0 <= i < s.len() && s[i] == 1 ==> !lex_less(#[trigger] image(s, i, backwards), s)
}

/// Compares with `ruler` its image that starts at segment `i`.
fn image_is_less(ruler: &[u8], i: usize, backwards: bool) -> (res: bool)
    requires
        i < ruler@.len(),
    ensures
        res == lex_less(image(ruler@, i as int, backwards), ruler@),
{
    let n: usize = ruler.len();
    let ghost other = image(ruler@, i as int, backwards);
    let mut j: usize = 0;
    while j < n
        invariant
            n == ruler@.len(),
            i < n,
            j <= n,
            other == image(ruler@, i as int, backwards),
            forall|l: int| 0 <= l < j ==> other[l] == ruler@[l],
        decreases n - j,
    {
        let index: usize = if backwards {
            if j <= i {
                i - j
            } else {
                i + (n - j)
            }
        } else {
            if j < n - i {
                i + j
            } else {
                j - (n - i)
            }
        };
        proof {
            lemma_wrap(index as int, if backwards { i - j } else { i + j }, n as int);
        }
        let a: u8 = ruler[j];
        let b: u8 = ruler[index];
        assert(other[j as int] == b);
        if b < a {
            assert(first_difference(other, ruler@, j as int));
            return true;
        }
        if b > a {
            assert forall|k: int| #[trigger] first_difference(other, ruler@, k) implies !(k
                == other.len() || other[k] < ruler@[k]) by {}
            return false;
        }
        j = j + 1;
    }
    false
}

/// A place in the range that is a full turn away is the remainder.
proof fn lemma_wrap(index: int, x: int, n: int)
    requires
        0 <= index < n,
        x == index || x == index + n || x == index - n,
    ensures
        x % n == index,
{
    lemma_small_mod(index as nat, n as nat);
    lemma_mod_add_multiples_vanish(index, n);
    lemma_mod_add_multiples_vanish(x, n);
}

/// Checks if a ruler is canonical: the least in the dictionary among its rotations and
/// reflections that start with a segment of length 1.
///
/// A circular ruler can be written down in many ways, depending on which segment comes first
/// and which direction is taken. To avoid duplicate solutions, only the least of them is
/// accepted. In a search that fixes the first segment at 1, the least possible length, the
/// images that start with a longer segment need no comparison.
pub fn is_canonical(ruler: &[u8]) -> (res: bool)
    ensures
        res == canonical(ruler@),
{
    let n: usize = ruler.len();
    if n < 2 {
        return true;
    }
    let mut i: usize = 0;
    while i < n
        invariant
            n == ruler@.len(),
            n >= 2,
            i <= n,
            forall|k: int, backwards: bool|
                0 <= k < i && ruler@[k] == 1 ==> !lex_less(
                    #[trigger] image(ruler@, k, backwards),
                    ruler@,
                ),
        decreases n - i,
    {
        if ruler[i] == 1 {
            if i > 0 && image_is_less(ruler, i, false) {
                return false;
            }
            if image_is_less(ruler, i, true) {
                return false;
            }
            proof {
                if i == 0 {
                    lemma_image_identity(ruler@);
                    lemma_lex_irreflexive(ruler@);
                }
            }
        }
        i = i + 1;
    }
    true
}

/// Read forwards from its first segment a ruler is itself.
pub proof fn lemma_image_identity(s: Seq<u8>)
    requires
        s.len() > 0,
    ensures
        image(s, 0, false) == s,
{
    assert forall|j: int| 0 <= j < s.len() implies rotation(s, 0)[j] == s[j] by {
        lemma_wrap(j, 0 + j, s.len() as int);
    }
    assert(rotation(s, 0) =~= s);
}

pub proof fn lemma_lex_irreflexive(a: Seq<u8>)
    ensures
        !lex_less(a, a),
{
}

/// Two sequences that differ are in one order or the other.
pub proof fn lemma_lex_total(a: Seq<u8>, b: Seq<u8>)
    ensures
        a == b || lex_less(a, b) || lex_less(b, a),
{
    lemma_lex_total_from(a, b, 0);
}

proof fn lemma_lex_total_from(a: Seq<u8>, b: Seq<u8>, k: int)
    requires
        0 <= k <= a.len(),
        k <= b.len(),
        forall|j: int| 0 <= j < k ==> a[j] == b[j],
    ensures
        a == b || lex_less(a, b) || lex_less(b, a),
    decreases a.len() - k,
{
    if k == a.len() {
        if k == b.len() {
            assert(a =~= b);
        } else {
            assert(first_difference(a, b, k));
        }
    } else if k == b.len() {
        assert(first_difference(b, a, k));
    } else if a[k] == b[k] {
        lemma_lex_total_from(a, b, k + 1);
    } else {
        assert(first_difference(a, b, k));
        assert(first_difference(b, a, k));
    }
}

pub proof fn lemma_lex_transitive(a: Seq<u8>, b: Seq<u8>, c: Seq<u8>)
    requires
        lex_less(a, b),
        lex_less(b, c),
    ensures
        lex_less(a, c),
{
    let k = choose|k: int| #[trigger] first_difference(a, b, k) && (k == a.len() || a[k] < b[k]);
    let l = choose|l: int| #[trigger] first_difference(b, c, l) && (l == b.len() || b[l] < c[l]);
    if k <= l {
        assert(first_difference(a, c, k));
    } else {
        assert(first_difference(a, c, l));
    }
}

/// The dictionary never has two sequences in both orders.
pub proof fn lemma_lex_asymmetric(a: Seq<u8>, b: Seq<u8>)
    requires
        lex_less(a, b),
    ensures
        !lex_less(b, a),
{
    if lex_less(b, a) {
        lemma_lex_transitive(a, b, a);
        lemma_lex_irreflexive(a);
    }
}

/// An image of an image is an image.
pub proof fn lemma_image_of_image(s: Seq<u8>, i: int, b: bool, k: int, c: bool)
    requires
        0 <= i < s.len(),
        0 <= k < s.len(),
    ensures
        image(image(s, i, b), k, c) == image(
            s,
            (if b { i - k } else { i + k }) % (s.len() as int),
            b != c,
        ),
{
    let n = s.len() as int;
    let once = image(s, i, b);
    let turn = if b { i - k } else { i + k };
    let direct = image(s, turn % n, b != c);
    assert forall|j: int| 0 <= j < n implies image(once, k, c)[j] == #[trigger] direct[j] by {
        let step = if c { k - j } else { k + j };
        // once[step % n] is s[(i +- step % n) % n]
        if b {
            lemma_sub_mod_noop_right(i, step, n);
        } else {
            lemma_add_mod_noop_right(i, step, n);
        }
        if b != c {
            lemma_add_mod_noop_right(-j, turn, n);
        } else {
            lemma_add_mod_noop_right(j, turn, n);
        }
    }
    assert(image(once, k, c) =~= direct);
}

/// Every ruler is an image of each of its images.
pub proof fn lemma_symmetric_back(a: Seq<u8>, b: Seq<u8>)
    requires
        symmetric(a, b),
    ensures
        symmetric(b, a),
{
    let n = a.len() as int;
    let (i, backwards) = choose|i: int, backwards: bool|
        0 <= i < a.len() && b == #[trigger] image(a, i, backwards);
    let k = if backwards || i == 0 { i } else { n - i };
    lemma_image_of_image(a, i, backwards, k, backwards);
    lemma_image_identity(a);
    lemma_wrap(0, if backwards { i - k } else { i + k }, n);
    assert(image(b, k, backwards) == a);
}

/// Where the first segment is 1 and none is shorter, the canonical rulers are those that are
/// least in the dictionary among all their `2n` rotations and reflections.
pub proof fn law_canonical_is_lex_least(s: Seq<u8>)
    requires
        s.len() >= 1,
        s[0] == 1,
        ruler::all_positive(s),
    ensures
        canonical(s) <==> lex_least(s),
{
    let n = s.len() as int;
    assert forall|i: int, backwards: bool|
        0 <= i < s.len() && s[i] != 1 implies !lex_less(#[trigger] image(s, i, backwards), s) by {
        let other = image(s, i, backwards);
        lemma_wrap(i, i, n);
        assert(other[0] == s[i]);
        assert(other[0] > s[0]);
        assert forall|k: int| #[trigger] first_difference(other, s, k) implies !(k == other.len()
            || other[k] < s[k]) by {}
    }
    if s.len() < 2 {
        assert forall|i: int, backwards: bool| 0 <= i < s.len() implies !lex_less(
            #[trigger] image(s, i, backwards),
            s,
        ) by {
            lemma_wrap(0, 0, n);
            assert(image(s, i, backwards) =~= s);
            lemma_lex_irreflexive(s);
        }
    }
}

/// Of the images of one circular ruler at most one is the least: two rulers that are
/// least among their images and are images of each other are equal.
pub proof fn law_lex_least_is_unique(a: Seq<u8>, b: Seq<u8>)
    requires
        lex_least(a),
        lex_least(b),
        symmetric(a, b),
    ensures
        a == b,
{
    lemma_symmetric_back(a, b);
    lemma_lex_total(a, b);
    if symmetric(a, b) && symmetric(b, a) {
        let (i, c) = choose|i: int, c: bool| 0 <= i < a.len() && b == #[trigger] image(a, i, c);
        let (k, d) = choose|k: int, d: bool| 0 <= k < b.len() && a == #[trigger] image(b, k, d);
        assert(!lex_less(image(a, i, c), a));
        assert(!lex_less(image(b, k, d), b));
    }
}

/// The least of the first `count` images in one direction, and of `best`.
proof fn lemma_least_of_images(s: Seq<u8>, backwards: bool, count: int, best: Seq<u8>) -> (least: Seq<
    u8,
>)
    requires
        0 <= count <= s.len(),
        symmetric(s, best),
    ensures
        symmetric(s, least),
        !lex_less(best, least),
        forall|i: int| 0 <= i < count ==> !lex_less(#[trigger] image(s, i, backwards), least),
    decreases count,
{
    if count == 0 {
        lemma_lex_irreflexive(best);
        best
    } else {
        let before = lemma_least_of_images(s, backwards, count - 1, best);
        let next = image(s, count - 1, backwards);
        if lex_less(next, before) {
            assert forall|i: int| 0 <= i < count implies !lex_less(
                #[trigger] image(s, i, backwards),
                next,
            ) by {
                if i < count - 1 {
                    if lex_less(image(s, i, backwards), next) {
                        lemma_lex_transitive(image(s, i, backwards), next, before);
                    }
                } else {
                    lemma_lex_irreflexive(next);
                }
            }
            if lex_less(best, next) {
                lemma_lex_transitive(best, next, before);
            }
            next
        } else {
            before
        }
    }
}

/// Every circular ruler has an image that is the least of its images.
pub proof fn law_lex_least_exists(s: Seq<u8>) -> (least: Seq<u8>)
    requires
        s.len() >= 1,
    ensures
        symmetric(s, least),
        lex_least(least),
{
    let n = s.len() as int;
    lemma_image_identity(s);
    assert(symmetric(s, s));
    let forwards = lemma_least_of_images(s, false, n, s);
    let least = lemma_least_of_images(s, true, n, forwards);
    assert forall|i: int, c: bool| 0 <= i < s.len() implies !lex_less(
        #[trigger] image(s, i, c),
        least,
    ) by {
        if !c {
            if lex_less(image(s, i, false), least) {
                lemma_lex_total(forwards, least);
                if lex_less(least, forwards) {
                    lemma_lex_transitive(image(s, i, false), least, forwards);
                }
            }
        }
    }
    let (i, b) = choose|i: int, b: bool| 0 <= i < s.len() && least == #[trigger] image(s, i, b);
    assert forall|k: int, c: bool| 0 <= k < least.len() implies !lex_less(
        #[trigger] image(least, k, c),
        least,
    ) by {
        lemma_image_of_image(s, i, b, k, c);
        let turn = (if b { i - k } else { i + k }) % n;
        assert(!lex_less(image(s, turn, b != c), least));
    }
    least
}

/// The arcs of an image are arcs of the ruler.
proof fn lemma_image_arc(s: Seq<u8>, i: int, backwards: bool, a: int, m: int)
    requires
        0 <= i < s.len(),
        0 <= a,
        0 <= m,
    ensures
        arc_of_image(s, i, backwards, a, m),
    decreases m,
{
    let n = s.len() as int;
    let other = image(s, i, backwards);
    if m > 0 {
        lemma_image_arc(s, i, backwards, a, m - 1);
        let step = a + m - 1;
        if backwards {
            lemma_sub_mod_noop_right(i, step, n);
            lemma_arc_front(s, i - a - m + 1, m);
        } else {
            lemma_add_mod_noop_right(i, step, n);
        }
    }
}

spec fn arc_of_image(s: Seq<u8>, i: int, backwards: bool, a: int, m: int) -> bool {
    ruler::arc(image(s, i, backwards), a, m) == ruler::arc(
        s,
        if backwards { i - a - m + 1 } else { i + a },
        m,
    )
}

/// An arc is its first segment and the arc after it.
proof fn lemma_arc_front(s: Seq<u8>, i: int, m: int)
    requires
        s.len() > 0,
        m >= 1,
    ensures
        ruler::arc(s, i, m) == s[i % (s.len() as int)] + ruler::arc(s, i + 1, m - 1),
    decreases m,
{
    if m > 1 {
        lemma_arc_front(s, i, m - 1);
        assert(ruler::arc(s, i + 1, m - 1) == ruler::arc(s, i + 1, m - 2) + s[(i + m - 1) % (
        s.len() as int)]);
    } else {
        assert(ruler::arc(s, i, 1) == ruler::arc(s, i, 0) + s[(i + 1 - 1) % (s.len() as int)]);
    }
}

/// An arc depends on where it begins only up to full turns.
proof fn lemma_arc_turn(s: Seq<u8>, i: int, m: int)
    requires
        s.len() > 0,
    ensures
        ruler::arc(s, i, m) == ruler::arc(s, i % (s.len() as int), m),
    decreases m,
{
    if m > 0 {
        lemma_arc_turn(s, i, m - 1);
        lemma_add_mod_noop_right(m - 1, i, s.len() as int);
    }
}

/// A mark is an arc from the start.
proof fn lemma_mark_arc(s: Seq<u8>, j: int)
    requires
        0 <= j <= s.len(),
    ensures
        ruler::mark(s, j) == ruler::arc(s, 0, j),
    decreases j,
{
    if j > 0 {
        lemma_mark_arc(s, j - 1);
        lemma_wrap(j - 1, 0 + j - 1, s.len() as int);
    }
}

/// A distance that a ruler measures its images measure too.
proof fn lemma_image_measures(s: Seq<u8>, i: int, backwards: bool, d: int)
    requires
        0 <= i < s.len(),
        ruler::measures(image(s, i, backwards), d),
    ensures
        ruler::measures(s, d),
{
    let n = s.len() as int;
    let other = image(s, i, backwards);
    let (a, m) = choose|a: int, m: int|
        0 <= a < other.len() && 1 <= m <= other.len() && #[trigger] ruler::arc(other, a, m) == d;
    lemma_image_arc(s, i, backwards, a, m);
    let begin = if backwards { i - a - m + 1 } else { i + a };
    lemma_arc_turn(s, begin, m);
    assert(ruler::arc(s, begin % n, m) == d);
}

/// Turning or reversing a ruler keeps its length, its number of segments, and
/// whether it is complete.
pub proof fn law_symmetry_keeps_rulers(a: Seq<u8>, b: Seq<u8>)
    requires
        symmetric(a, b),
    ensures
        b.len() == a.len(),
        ruler::all_positive(b) == ruler::all_positive(a),
        ruler::ruler_length(b) == ruler::ruler_length(a),
        ruler::complete(b) == ruler::complete(a),
{
    lemma_symmetric_back(a, b);
    lemma_symmetry_forwards(a, b);
    lemma_symmetry_forwards(b, a);
}

proof fn lemma_symmetry_forwards(a: Seq<u8>, b: Seq<u8>)
    requires
        symmetric(a, b),
    ensures
        b.len() == a.len(),
        ruler::all_positive(a) ==> ruler::all_positive(b),
        ruler::ruler_length(b) == ruler::ruler_length(a),
        ruler::complete(b) ==> ruler::complete(a),
{
    let n = a.len() as int;
    let (i, backwards) = choose|i: int, backwards: bool|
        0 <= i < a.len() && b == #[trigger] image(a, i, backwards);
    lemma_mark_arc(b, n);
    lemma_image_arc(a, i, backwards, 0, n);
    let begin = if backwards { i - n + 1 } else { i };
    lemma_arc_turn(a, begin, n);
    ruler::lemma_arc_marks(a, begin % n, n);
    if ruler::complete(b) {
        assert forall|d: int| 1 <= d < ruler::ruler_length(a) implies #[trigger] ruler::measures(
            a,
            d,
        ) by {
            assert(ruler::measures(b, d));
            lemma_image_measures(a, i, backwards, d);
        }
    }
}

} // verus!
