//! `fixedbitset::FixedBitSet` as the library sees it: a sequence of bits.
use fixedbitset::FixedBitSet;
use vstd::prelude::*;

verus! {

/// `fixedbitset::FixedBitSet`, carried opaquely and read through `bitset_bits`.
#[verifier::external_type_specification]
#[verifier::external_body]
pub struct ExFixedBitSet(FixedBitSet);

/// The bits of a `FixedBitSet`, one per index below its length (`FixedBitSet::len`).
pub uninterp spec fn bitset_bits(b: FixedBitSet) -> Seq<bool>;

/// Whether no bit is set in the storage blocks past the length. Only `as_mut_slice` and
/// `with_capacity_and_blocks` can set such bits; `grow`, `union_with` and `is_disjoint` work on
/// whole blocks, so what they do below the length depends on it.
pub uninterp spec fn bitset_tail_clear(b: FixedBitSet) -> bool;

/// Whether `bit` is set; bits at or past the length read as unset.
pub open spec fn bit_at(b: FixedBitSet, bit: int) -> bool {
    seq_bit(bitset_bits(b), bit)
}

/// Whether bit `i` of `s` is set; indices outside `s` read as unset.
pub open spec fn seq_bit(s: Seq<bool>, i: int) -> bool {
    0 <= i < s.len() && s[i]
}

/// `n` unset bits.
pub open spec fn cleared_bits(n: nat) -> Seq<bool> {
    Seq::new(n, |_i: int| false)
}

/// Number of set bits in `s`.
pub open spec fn count_true(s: Seq<bool>) -> nat
    decreases s.len(),
{
    if s.len() == 0 {
        0
    } else {
        count_true(s.drop_last()) + (if s.last() { 1nat } else { 0nat })
    }
}

/// `FixedBitSet::new`: a bit set of length zero.
#[verifier::external_body]
pub(crate) fn bitset_new() -> (r: FixedBitSet)
    ensures
        bitset_bits(r) == Seq::<bool>::empty(),
        bitset_tail_clear(r),
{
    FixedBitSet::new()
}

/// `FixedBitSet::with_capacity`: `bits` bits, all unset.
#[verifier::external_body]
pub(crate) fn bitset_with_capacity(bits: usize) -> (r: FixedBitSet)
    ensures
        bitset_bits(r) == cleared_bits(bits as nat),
        bitset_tail_clear(r),
{
    FixedBitSet::with_capacity(bits)
}

/// `FixedBitSet::contains` (also what `bitset[bit]` does): false past the length.
#[verifier::external_body]
pub(crate) fn bitset_contains(b: &FixedBitSet, bit: usize) -> (r: bool)
    ensures
        r == bit_at(*b, bit as int),
{
    b.contains(bit)
}

/// `FixedBitSet::insert`: sets `bit`; it panics past the length, which `requires` excludes.
#[verifier::external_body]
pub(crate) fn bitset_insert(b: &mut FixedBitSet, bit: usize)
    requires
        bit < bitset_bits(*old(b)).len(),
    ensures
        bitset_bits(*final(b)) == bitset_bits(*old(b)).update(bit as int, true),
        bitset_tail_clear(*final(b)) == bitset_tail_clear(*old(b)),
{
    b.insert(bit)
}

/// `FixedBitSet::put`: sets `bit` and returns its previous value; panics past the length.
#[verifier::external_body]
pub(crate) fn bitset_put(b: &mut FixedBitSet, bit: usize) -> (r: bool)
    requires
        bit < bitset_bits(*old(b)).len(),
    ensures
        r == bitset_bits(*old(b))[bit as int],
        bitset_bits(*final(b)) == bitset_bits(*old(b)).update(bit as int, true),
        bitset_tail_clear(*final(b)) == bitset_tail_clear(*old(b)),
{
    b.put(bit)
}

/// `FixedBitSet::clear`: unsets every bit of every storage block, keeping the length.
#[verifier::external_body]
pub(crate) fn bitset_clear(b: &mut FixedBitSet)
    ensures
        bitset_bits(*final(b)) == cleared_bits(bitset_bits(*old(b)).len()),
        bitset_tail_clear(*final(b)),
{
    b.clear()
}

/// `FixedBitSet::grow`: extends the length to `bits`, never shrinking; the bits below the old
/// length stay. The storage blocks that it adds are clear, but those it keeps come with whatever
/// they held past the old length, so the new bits read as unset only when that tail was clear.
#[verifier::external_body]
pub(crate) fn bitset_grow(b: &mut FixedBitSet, bits: usize)
    ensures
        bitset_bits(*final(b)).len() == if bits > bitset_bits(*old(b)).len() {
            bits as nat
        } else {
            bitset_bits(*old(b)).len()
        },
        forall|i: int|
            0 <= i < bitset_bits(*old(b)).len() ==> #[trigger] bitset_bits(*final(b))[i] == bitset_bits(*old(b))[i],
        bits <= bitset_bits(*old(b)).len() ==> *final(b) == *old(b),
        bitset_tail_clear(*old(b)) ==> bitset_tail_clear(*final(b)) && bitset_bits(*final(b)) == bitset_bits(*old(b))
            + cleared_bits((bitset_bits(*final(b)).len() - bitset_bits(*old(b)).len()) as nat),
{
    b.grow(bits)
}

/// `FixedBitSet::is_full`: every bit below the length is set (true for length zero).
#[verifier::external_body]
pub(crate) fn bitset_is_full(b: &FixedBitSet) -> (r: bool)
    ensures
        r == (forall|i: int| 0 <= i < bitset_bits(*b).len() ==> bitset_bits(*b)[i]),
{
    b.is_full()
}

/// `FixedBitSet::is_disjoint`: whether the storage blocks of the two, ANDed block by block, are
/// all zero. A common bit below both lengths makes it false; when neither holds a bit past its
/// length, it is true exactly when no index is set in both.
#[verifier::external_body]
pub(crate) fn bitset_is_disjoint(a: &FixedBitSet, b: &FixedBitSet) -> (r: bool)
    ensures
        r ==> (forall|i: int| !(#[trigger] bit_at(*a, i) && bit_at(*b, i))),
        bitset_tail_clear(*a) && bitset_tail_clear(*b) ==> r == (forall|i: int|
            !(#[trigger] bit_at(*a, i) && bit_at(*b, i))),
{
    a.is_disjoint(b)
}

/// `FixedBitSet::union_with`: grows `a` to the length of `b` if that is longer, then ORs into
/// the storage blocks of `a` those of `b`. When neither holds a bit past its length, every bit
/// below the new length is set exactly when it was set in `a` or in `b`, and the tail stays clear.
#[verifier::external_body]
pub(crate) fn bitset_union_with(a: &mut FixedBitSet, b: &FixedBitSet)
    ensures
        bitset_bits(*final(a)).len() == if bitset_bits(*b).len() > bitset_bits(*old(a)).len() {
            bitset_bits(*b).len()
        } else {
            bitset_bits(*old(a)).len()
        },
        bitset_tail_clear(*old(a)) && bitset_tail_clear(*b) ==> bitset_tail_clear(*final(a)),
        bitset_tail_clear(*old(a)) && bitset_tail_clear(*b) ==> forall|i: int|
            0 <= i < bitset_bits(*final(a)).len() ==> bitset_bits(*final(a))[i] == (bit_at(*old(a), i) || bit_at(
                *b,
                i,
            )),
{
    a.union_with(b)
}

/// `FixedBitSet::zeroes`, collected: the unset indices below the length, in increasing order.
#[verifier::external_body]
pub(crate) fn bitset_zeroes(b: &FixedBitSet) -> (r: Vec<usize>)
    ensures
        forall|i: int, j: int| 0 <= i < j < r@.len() ==> r@[i] < r@[j],
        forall|i: int| 0 <= i < r@.len() ==> r@[i] < bitset_bits(*b).len() && !bitset_bits(*b)[r@[i] as int],
        forall|k: int|
            0 <= k < bitset_bits(*b).len() && !bitset_bits(*b)[k] ==> #[trigger] r@.contains(k as usize),
{
    b.zeroes().collect()
}

/// `FixedBitSet::clone_from`: `a` becomes a copy of `b`, length included.
#[verifier::external_body]
pub(crate) fn bitset_clone_from(a: &mut FixedBitSet, b: &FixedBitSet)
    ensures
        bitset_bits(*final(a)) == bitset_bits(*b),
        bitset_tail_clear(*final(a)) == bitset_tail_clear(*b),
{
    a.clone_from(b)
}

} // verus!
