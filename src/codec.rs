//! Record header words: the payload length in the low bits and one status bit
//! in the most significant bit.
use vstd::prelude::*;

verus! {

/// The status bit of a header word.
pub const STATUS_BIT: u64 = 0x8000_0000_0000_0000;

/// Lengths that a header word can carry without touching the status bit.
pub open spec fn length_fits(len: int) -> bool {
    0 <= len < 0x8000_0000_0000_0000
}

/// The length that a header word carries.
pub open spec fn header_len(w: u64) -> u64 {
    w & !STATUS_BIT
}

/// Whether the status bit of a header word is set.
pub open spec fn header_ready(w: u64) -> bool {
    w & STATUS_BIT != 0
}

/// The header word for a record of `len` bytes with the given status bit.
pub open spec fn header_word(len: nat, ready: bool) -> u64 {
    if ready {
        (len as u64) | STATUS_BIT
    } else {
        len as u64
    }
}

/// A header word decodes to the length and status bit it was built from.
pub proof fn lemma_header_word(len: nat, ready: bool)
    requires
        length_fits(len as int),
    ensures
        header_len(header_word(len, ready)) == len,
        header_ready(header_word(len, ready)) == ready,
{
    let x = len as u64;
    assert(x & !0x8000_0000_0000_0000u64 == x) by (bit_vector)
        requires x < 0x8000_0000_0000_0000u64;
    assert(x & 0x8000_0000_0000_0000u64 == 0) by (bit_vector)
        requires x < 0x8000_0000_0000_0000u64;
    assert((x | 0x8000_0000_0000_0000u64) & !0x8000_0000_0000_0000u64 == x) by (bit_vector)
        requires x < 0x8000_0000_0000_0000u64;
    assert((x | 0x8000_0000_0000_0000u64) & 0x8000_0000_0000_0000u64 != 0) by (bit_vector);
}

/// Whether `len` can be stored in a header word.
pub fn fits_header(len: u64) -> (r: bool)
    ensures
        r == length_fits(len as int),
{
    let b = len & STATUS_BIT;
    assert(b == 0 <==> len < 0x8000_0000_0000_0000u64) by (bit_vector)
        requires b == len & 0x8000_0000_0000_0000u64;
    b == 0
}

/// The header word of a record of `len` bytes that is not yet finished.
pub fn encode_header(len: u64) -> (w: u64)
    requires
        length_fits(len as int),
    ensures
        w == header_word(len as nat, false),
{
    len
}

/// The length carried by a header word.
pub fn decode_length(w: u64) -> (r: u64)
    ensures
        r == header_len(w),
{
    w & !STATUS_BIT
}

/// Whether the status bit of a header word is set.
pub fn is_ready(w: u64) -> (r: bool)
    ensures
        r == header_ready(w),
{
    w & STATUS_BIT != 0
}

/// The header word with its status bit set.
pub fn mark_ready(w: u64) -> (r: u64)
    requires
        length_fits(header_len(w) as int),
    ensures
        r == header_word(header_len(w) as nat, true),
{
    let r = w | STATUS_BIT;
    assert((w | 0x8000_0000_0000_0000u64) == ((w & !0x8000_0000_0000_0000u64) | 0x8000_0000_0000_0000u64)) by (bit_vector);
    r
}

/// The header word with its status bit cleared.
pub fn clear_ready(w: u64) -> (r: u64)
    ensures
        r == header_word(header_len(w) as nat, false),
{
    let r = w & !STATUS_BIT;
    r
}

} // verus!
