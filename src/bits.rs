//! Access to the flag bits and the size field packed into one header word.
use bit_field::BitField;
use vstd::prelude::*;

verus! {

/// Relies on `BitField::get_bit` for `usize`: tests the bit at position `bit`.
#[verifier::external_body]
pub(crate) fn word_get_bit(w: usize, bit: usize) -> (r: bool)
    requires
        bit < usize::BITS,
    ensures
        r == (w & (1usize << bit) != 0),
{
    w.get_bit(bit)
}

/// Relies on `BitField::set_bit` for `usize`: sets or clears the bit at position `bit`.
#[verifier::external_body]
pub(crate) fn word_set_bit(w: usize, bit: usize, value: bool) -> (r: usize)
    requires
        bit < usize::BITS,
    ensures
        r == (if value { w | (1usize << bit) } else { w & !(1usize << bit) }),
{
    let mut word = w;
    word.set_bit(bit, value);
    word
}

/// Relies on `BitField::get_bits` for `usize` over the range `lo..`: the bits from
/// position `lo` up, moved down to position 0.
#[verifier::external_body]
pub(crate) fn word_get_bits_from(w: usize, lo: usize) -> (r: usize)
    requires
        lo < usize::BITS,
    ensures
        r == w >> lo,
{
    w.get_bits(lo..)
}

/// Relies on `BitField::set_bits` for `usize` over the range `lo..`: keeps the bits
/// below `lo` and puts `value` above them. The call panics unless `value` fits in
/// the bits from `lo` up.
#[verifier::external_body]
pub(crate) fn word_set_bits_from(w: usize, lo: usize, value: usize) -> (r: usize)
    requires
        lo < usize::BITS,
        (value << lo) >> lo == value,
    ensures
        r == (w & !((!0usize >> lo) << lo)) | (value << lo),
{
    let mut word = w;
    word.set_bits(lo.., value);
    word
}

} // verus!
