use vstd::prelude::*;

verus! {

// The two fixed-width bitsets the search engine works with are bit-arrays
// from the bitvec crate. Verus cannot look inside them, so each is held in
// an opaque struct whose contents are modelled as a `Set<int>` of set bit
// indices, and the handful of bit-array operations the solver needs are
// trusted wrappers around bitvec's own methods.

/// Candidate-digit bitset: 16 bits, of which bits 1..=9 stand for the digits.
#[verifier::external_body]
pub struct DigitBits {
    bits: bitvec::array::BitArray<[u8; 2], bitvec::order::Lsb0>,
}

/// Unresolved-cell bitset: 88 bits, of which bits 0..81 stand for the cells.
#[verifier::external_body]
pub struct CellBits {
    bits: bitvec::array::BitArray<[u8; 11], bitvec::order::Lsb0>,
}

/// The set of bit indices that are set in a candidate-digit bitset.
pub uninterp spec fn digit_bits(a: DigitBits) -> Set<int>;

/// The set of bit indices that are set in an unresolved-cell bitset.
pub uninterp spec fn cell_bits(a: CellBits) -> Set<int>;

/// Relies on bitvec's `BitArray::ZERO`: a bit-array with every bit cleared.
#[verifier::external_body]
pub fn digit_bits_empty() -> (r: DigitBits)
    ensures
        digit_bits(r) == Set::<int>::empty(),
{
    DigitBits { bits: bitvec::array::BitArray::ZERO }
}

/// Relies on bitvec's `BitSlice::set`: writes one bit, leaving the others.
/// The array holds 16 bits, and `set` panics beyond them.
#[verifier::external_body]
pub fn digit_bits_set(a: &mut DigitBits, i: usize, v: bool)
    requires
        i < 16,
    ensures
        digit_bits(*final(a)) == if v {
            digit_bits(*old(a)).insert(i as int)
        } else {
            digit_bits(*old(a)).remove(i as int)
        },
{
    a.bits.set(i, v);
}

/// Relies on bitvec's `BitSlice` indexing: reads one bit. The array holds
/// 16 bits, and indexing panics beyond them.
#[verifier::external_body]
pub fn digit_bits_get(a: &DigitBits, i: usize) -> (r: bool)
    requires
        i < 16,
    ensures
        r == digit_bits(*a).contains(i as int),
{
    a.bits[i]
}

/// Relies on bitvec's `BitSlice::iter_ones`: the indices of the set bits,
/// enumerated in increasing order, each below the 16-bit length.
#[verifier::external_body]
pub fn digit_bits_ones(a: &DigitBits) -> (r: Vec<usize>)
    ensures
        forall|k: int|
            0 <= k < r@.len() ==> digit_bits(*a).contains(#[trigger] r@[k] as int) && r@[k] < 16,
        forall|d: int|
            0 <= d < 16 && digit_bits(*a).contains(d) ==> exists|k: int|
                0 <= k < r@.len() && #[trigger] r@[k] as int == d,
        forall|k1: int, k2: int| 0 <= k1 < k2 < r@.len() ==> r@[k1] < r@[k2],
{
    a.bits.iter_ones().collect()
}

/// Relies on bitvec's `BitArray::ZERO`: a bit-array with every bit cleared.
#[verifier::external_body]
pub fn cell_bits_empty() -> (r: CellBits)
    ensures
        cell_bits(r) == Set::<int>::empty(),
{
    CellBits { bits: bitvec::array::BitArray::ZERO }
}

/// Relies on bitvec's `BitSlice::set`: writes one bit, leaving the others.
/// The array holds 88 bits, and `set` panics beyond them.
#[verifier::external_body]
pub fn cell_bits_set(a: &mut CellBits, i: usize, v: bool)
    requires
        i < 88,
    ensures
        cell_bits(*final(a)) == if v {
            cell_bits(*old(a)).insert(i as int)
        } else {
            cell_bits(*old(a)).remove(i as int)
        },
{
    a.bits.set(i, v);
}

/// Relies on bitvec's `BitSlice::first_one`: the index of the lowest set
/// bit, or `None` when no bit in the 88-bit array is set.
#[verifier::external_body]
pub fn cell_bits_first_one(a: &CellBits) -> (r: Option<usize>)
    ensures
        match r {
            Some(i) => cell_bits(*a).contains(i as int) && i < 88 && forall|j: int|
                0 <= j < i ==> !cell_bits(*a).contains(j),
            None => forall|j: int| 0 <= j < 88 ==> !cell_bits(*a).contains(j),
        },
{
    a.bits.first_one()
}

} // verus!
