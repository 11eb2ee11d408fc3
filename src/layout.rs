//! Word alignment of offsets into the arena's byte store.
use vstd::prelude::*;

verus! {

/// Size in bytes of a record header word; every record starts on a multiple of it.
pub const WORD: usize = 8;

/// Rounds an offset up to the next multiple of the header word size.
pub open spec fn align_up(x: int) -> int {
    if x % 8 == 0 {
        x
    } else {
        x + (8 - x % 8)
    }
}

/// Rounds `offset` up to the next multiple of the header word size.
pub fn align_ptr_to_usize(offset: usize) -> (r: usize)
    requires
        offset + 7 <= usize::MAX,
    ensures
        r == align_up(offset as int),
        r % 8 == 0,
        offset <= r < offset + WORD,
{
    let modulo = offset % WORD;
    if modulo != 0 {
        return offset + (WORD - modulo);
    }
    offset
}

} // verus!
