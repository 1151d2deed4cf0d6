//! How states and counts are written down.
use vstd::prelude::*;

verus! {

/// The version of a state that does not name one.
pub fn default_version() -> (res: String)
    ensures
        res@ == "0.0.0"@,
{
    "0.0.0".to_owned()
}

/// The layout of arrays in a document: the outermost ones are laid out as usual, one element to a
/// line, and arrays inside of arrays are written compactly on one line.
///
/// Each method says what to write, or nothing where the usual layout applies.
pub struct CompactArrayFormatter {
    depth: usize,
}

impl CompactArrayFormatter {
    /// How many arrays are open.
    pub closed spec fn depth(&self) -> int {
        self.depth as int
    }

    /// Whether the innermost open array is written compactly.
    pub open spec fn compact(&self) -> bool {
        self.depth() > 1
    }

    pub fn new() -> (res: Self)
        ensures
            res.depth() == 0,
    {
        CompactArrayFormatter { depth: 0 }
    }

    /// The number of open arrays.
    pub fn open_arrays(&self) -> (res: usize)
        ensures
            res == self.depth(),
    {
        self.depth
    }

    /// Opens an array.
    pub fn begin_array(&mut self) -> (res: Option<&'static str>)
        requires
            old(self).depth() < usize::MAX,
        ensures
            final(self).depth() == old(self).depth() + 1,
            res is Some <==> final(self).compact(),
            res matches Some(text) ==> text@ == "["@,
    {
        self.depth = self.depth + 1;
        if self.depth > 1 {
            Some("[")
        } else {
            None
        }
    }

    /// Closes the innermost open array.
    pub fn end_array(&mut self) -> (res: Option<&'static str>)
        requires
            old(self).depth() >= 1,
        ensures
            final(self).depth() == old(self).depth() - 1,
            res is Some <==> old(self).compact(),
            res matches Some(text) ==> text@ == "]"@,
    {
        let compact: bool = self.depth > 1;
        self.depth = self.depth - 1;
        if compact {
            Some("]")
        } else {
            None
        }
    }

    /// Begins an element of the innermost open array.
    pub fn begin_array_value(&self, first: bool) -> (res: Option<&'static str>)
        ensures
            res is Some <==> self.compact(),
            res matches Some(text) ==> text@ == if first { ""@ } else { ", "@ },
    {
        if self.depth > 1 {
            if first {
                Some("")
            } else {
                Some(", ")
            }
        } else {
            None
        }
    }

    /// Ends an element of the innermost open array.
    pub fn end_array_value(&self) -> (res: Option<&'static str>)
        ensures
            res is Some <==> self.compact(),
            res matches Some(text) ==> text@ == ""@,
    {
        if self.depth > 1 {
            Some("")
        } else {
            None
        }
    }
}

/// The character for a digit below 10.
pub open spec fn digit(d: nat) -> char {
    ('0' as nat + d) as char
}

/// A number in decimal.
pub open spec fn decimal(n: nat) -> Seq<char>
    decreases n,
{
    if n < 10 {
        seq![digit(n)]
    } else {
        decimal(n / 10).push(digit(n % 10))
    }
}

/// The first `count` characters of `digits`, with a comma before every group of three that
/// ends with the last character, but for the first group.
pub open spec fn grouped(digits: Seq<char>, count: int) -> Seq<char>
    decreases count,
{
    if count <= 0 {
        Seq::empty()
    } else {
        let i = count - 1;
        let before = grouped(digits, i);
        let separated = if i > 0 && (digits.len() - i) % 3 == 0 {
            before.push(',')
        } else {
            before
        };
        separated.push(digits[i])
    }
}

fn decimal_digits(n: u64) -> (res: Vec<char>)
    ensures
        res@ == decimal(n as nat),
    decreases n,
{
    let low: u8 = (n % 10) as u8;
    let last: char = (48u8 + low) as char;
    if n < 10 {
        let mut res: Vec<char> = Vec::new();
        res.push(last);
        assert(res@ =~= decimal(n as nat));
        res
    } else {
        let mut res: Vec<char> = decimal_digits(n / 10);
        res.push(last);
        res
    }
}

/// A number in decimal with its digits in groups of three, as in `1,234,567`.
pub fn group_thousands(n: u64) -> (res: Vec<char>)
    ensures
        res@ == grouped(decimal(n as nat), decimal(n as nat).len() as int),
{
    let digits: Vec<char> = decimal_digits(n);
    let len: usize = digits.len();
    let mut res: Vec<char> = Vec::new();
    let mut i: usize = 0;
    while i < len
        invariant
            len == digits@.len(),
            digits@ == decimal(n as nat),
            i <= len,
            res@ == grouped(digits@, i as int),
        decreases len - i,
    {
        if i > 0 && (len - i) % 3 == 0 {
            res.push(',');
        }
        res.push(digits[i]);
        i = i + 1;
    }
    res
}

/// The word for one thing or for several.
pub fn counted<'a>(count: u64, one: &'a str, several: &'a str) -> (res: &'a str)
    ensures
        res@ == if count == 1 { one@ } else { several@ },
{
    if count == 1 {
        one
    } else {
        several
    }
}

/// The number that some digits stand for.
pub open spec fn value_of(digits: Seq<char>) -> int
    decreases digits.len(),
{
    if digits.len() == 0 {
        0
    } else {
        10 * value_of(digits.drop_last()) + (digits.last() as int - '0' as int)
    }
}

/// A number in decimal reads back as that number, is made of digits, and has no leading zero.
pub proof fn law_decimal_reads_back(n: nat)
    ensures
        value_of(decimal(n)) == n,
        decimal(n).len() >= 1,
        forall|i: int| 0 <= i < decimal(n).len() ==> '0' <= #[trigger] decimal(n)[i] <= '9',
        n > 0 ==> decimal(n)[0] != '0',
    decreases n,
{
    if n < 10 {
        assert(value_of(Seq::<char>::empty()) == 0);
        assert(decimal(n).drop_last() =~= Seq::<char>::empty());
    } else {
        law_decimal_reads_back(n / 10);
        assert(decimal(n).drop_last() =~= decimal(n / 10));
    }
}

/// How many commas stand before digit number `count`, at least 1.
spec fn commas(total: int, count: int) -> int {
    (total - 1) / 3 - (total - count) / 3
}

/// The length of the first groups, and what stands where in them, counted from the end of all.
proof fn lemma_grouped(digits: Seq<char>, count: int)
    requires
        1 <= count <= digits.len(),
    ensures
        ({
            let total = digits.len() as int;
            let text = grouped(digits, count);
            let length = total + (total - 1) / 3;
            &&& text.len() == count + commas(total, count)
            &&& forall|m: int|
                total - count <= m < total ==> text[length - 1 - (m + m / 3)]
                    == #[trigger] digits[total - 1 - m]
            &&& forall|p: int|
                0 <= p < text.len() && (length - 1 - p) % 4 == 3 ==> #[trigger] text[p] == ','
        }),
    decreases count,
{
    let total = digits.len() as int;
    let i = count - 1;
    let before = grouped(digits, i);
    if i > 0 {
        lemma_grouped(digits, i);
    } else {
        assert(before =~= Seq::<char>::empty());
    }
}

/// The digits of a number in groups of three: read from the end, every fourth character is a comma,
/// the others are the digits in their order, and none of the digits is missing.
pub proof fn law_grouping_places_commas(digits: Seq<char>, j: int)
    requires
        digits.len() >= 1,
        0 <= j < grouped(digits, digits.len() as int).len(),
    ensures
        ({
            let total = digits.len() as int;
            let text = grouped(digits, total);
            &&& text.len() == total + (total - 1) / 3
            &&& text[text.len() - 1 - j] == if j % 4 == 3 {
                ','
            } else {
                digits[total - 1 - (j - j / 4)]
            }
        }),
{
    let total = digits.len() as int;
    let text = grouped(digits, total);
    lemma_grouped(digits, total);
    if j % 4 != 3 {
        let m = j - j / 4;
        assert(m + m / 3 == j);
        assert(text[text.len() - 1 - j] == digits[total - 1 - m]);
    }
}

/// An array is written compactly exactly where it stands inside another one.
pub proof fn law_inner_arrays_are_compact(layout: &CompactArrayFormatter)
    ensures
        layout.compact() <==> layout.depth() >= 2,
{
}

} // verus!
