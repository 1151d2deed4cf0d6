//! Integers as the bytes that hold them in memory, by `bytemuck`.
use bytemuck::PodCastError;
use vstd::prelude::*;

verus! {

/// The `k`-th byte of `w`, counted from the least significant one.
pub open spec fn byte_of(w: nat, k: nat) -> nat
    decreases k,
{
    if k == 0 {
        w % 256
    } else {
        byte_of(w / 256, (k - 1) as nat)
    }
}

/// Whether `bytes` holds the values one after the other, `size` bytes to each, with the
/// least significant byte first or, where `big_endian`, last.
pub open spec fn holds(values: Seq<nat>, size: int, bytes: Seq<u8>, big_endian: bool) -> bool {
    &&& bytes.len() == size * values.len()
    &&& forall|i: int, k: int|
        0 <= i < values.len() && 0 <= k < size ==> #[trigger] bytes[size * i + k] == byte_of(
            values[i],
            (if big_endian { size - 1 - k } else { k }) as nat,
        )
}

/// Whether `bytes` are the memory of the words, in one byte order or the other.
pub open spec fn memory_of_words(words: Seq<u32>, bytes: Seq<u8>) -> bool {
    let values = words.map_values(|w: u32| w as nat);
    holds(values, 4, bytes, false) || holds(values, 4, bytes, true)
}

/// Whether `bytes` are the memory of the double words, in one byte order or the other.
pub open spec fn memory_of_longs(longs: Seq<u64>, bytes: Seq<u8>) -> bool {
    let values = longs.map_values(|w: u64| w as nat);
    holds(values, 8, bytes, false) || holds(values, 8, bytes, true)
}

/// Why `bytemuck` refuses to reinterpret memory.
#[verifier::external_type_specification]
#[verifier::external_body]
pub struct ExPodCastError(PodCastError);

/// The memory of some words, by `bytemuck::cast_slice` from `u32` to `u8`. Bytes need no
/// alignment and words fill them exactly, so the cast does not fail. The result is the memory
/// of the words, four bytes each; which byte comes first is the machine's choice.
#[verifier::external_body]
pub(crate) fn words_as_bytes(words: &[u32]) -> (res: Vec<u8>)
    ensures
        memory_of_words(words@, res@),
{
    bytemuck::cast_slice::<u32, u8>(words).to_vec()
}

/// The memory of some double words, by `bytemuck::cast_slice` from `u64` to `u8`. Like
/// [`words_as_bytes`], with eight bytes each.
#[verifier::external_body]
pub(crate) fn longs_as_bytes(longs: &[u64]) -> (res: Vec<u8>)
    ensures
        memory_of_longs(longs@, res@),
{
    bytemuck::cast_slice::<u64, u8>(longs).to_vec()
}

/// Memory read as words, by `bytemuck::try_cast_slice` from `u8` to `u32`. Where it succeeds
/// the bytes are the memory of the words. It fails where the bytes are not a whole number of
/// words. It fails too where they do not lie at an address aligned for words, of which nothing
/// is said.
#[verifier::external_body]
pub(crate) fn bytes_as_words(bytes: &[u8]) -> (res: Result<Vec<u32>, PodCastError>)
    ensures
        res matches Ok(words) ==> memory_of_words(words@, bytes@),
        bytes@.len() % 4 != 0 ==> res is Err,
{
    bytemuck::try_cast_slice::<u8, u32>(bytes).map(|words| words.to_vec())
}

/// Memory read as double words, by `bytemuck::try_cast_slice` from `u8` to `u64`. Like
/// [`bytes_as_words`], with eight bytes each.
#[verifier::external_body]
pub(crate) fn bytes_as_longs(bytes: &[u8]) -> (res: Result<Vec<u64>, PodCastError>)
    ensures
        res matches Ok(longs) ==> memory_of_longs(longs@, bytes@),
        bytes@.len() % 8 != 0 ==> res is Err,
{
    bytemuck::try_cast_slice::<u8, u64>(bytes).map(|longs| longs.to_vec())
}

/// 256 to the power of `k`.
pub open spec fn power_of_256(k: nat) -> nat
    decreases k,
{
    if k == 0 {
        1
    } else {
        256 * power_of_256((k - 1) as nat)
    }
}

/// Two numbers that fit into `size` bytes and agree in each of them are equal.
pub proof fn law_bytes_determine_a_number(a: nat, b: nat, size: nat)
    requires
        a < power_of_256(size),
        b < power_of_256(size),
        forall|k: nat| k < size ==> #[trigger] byte_of(a, k) == byte_of(b, k),
    ensures
        a == b,
    decreases size,
{
    if size > 0 {
        assert(byte_of(a, 0) == byte_of(b, 0));
        let rest = (size - 1) as nat;
        assert forall|k: nat| k < rest implies #[trigger] byte_of(a / 256, k) == byte_of(
            b / 256,
            k,
        ) by {
            assert(byte_of(a, k + 1) == byte_of(b, k + 1));
        }
        law_bytes_determine_a_number(a / 256, b / 256, rest);
    }
}

/// Memory holds one list of numbers only: in one byte order, two lists of numbers that fit into
/// `size` bytes and are held by the same bytes are equal.
pub proof fn law_memory_determines_its_numbers(
    a: Seq<nat>,
    b: Seq<nat>,
    size: nat,
    bytes: Seq<u8>,
    big_endian: bool,
)
    requires
        size >= 1,
        holds(a, size as int, bytes, big_endian),
        holds(b, size as int, bytes, big_endian),
        forall|i: int| 0 <= i < a.len() ==> #[trigger] a[i] < power_of_256(size),
        forall|i: int| 0 <= i < b.len() ==> #[trigger] b[i] < power_of_256(size),
    ensures
        a =~= b,
{
    assert(a.len() == b.len()) by (nonlinear_arith)
        requires
            size * a.len() == size * b.len(),
            size >= 1,
    ;
    assert forall|i: int| 0 <= i < a.len() implies a[i] == b[i] by {
        assert forall|k: nat| k < size implies #[trigger] byte_of(a[i], k) == byte_of(b[i], k) by {
            let at = if big_endian {
                size - 1 - k
            } else {
                k as int
            };
            assert(bytes[size * i + at] == byte_of(a[i], k));
            assert(bytes[size * i + at] == byte_of(b[i], k));
        }
        law_bytes_determine_a_number(a[i], b[i], size);
    }
}

} // verus!
