//! Facts about the four passage bits.

use vstd::prelude::*;

verus! {

/// `b` is one of the four passage bits.
pub open spec fn is_passage_bit(b: u8) -> bool {
    b == 1 || b == 2 || b == 4 || b == 8
}

/// Setting one passage bit on a cell changes the test of that bit alone, never
/// gives zero, and stays within four bits.
pub proof fn lemma_set_bit(v: u8, b: u8, c: u8)
    requires
        is_passage_bit(b),
        is_passage_bit(c),
    ensures
        ((v | b) & c != 0) <==> ((v & c != 0) || b == c),
        (v | b) != 0,
        v < 16 ==> (v | b) < 16,
        v & c != 0 ==> v != 0,
        0u8 & c == 0,
{
    assert(((v | b) & c != 0) <==> ((v & c != 0) || b == c)) by (bit_vector)
        requires
            b == 1 || b == 2 || b == 4 || b == 8,
            c == 1 || c == 2 || c == 4 || c == 8,
    ;
    assert((v | b) != 0) by (bit_vector)
        requires
            b == 1 || b == 2 || b == 4 || b == 8,
    ;
    assert(v < 16 ==> (v | b) < 16) by (bit_vector)
        requires
            b == 1 || b == 2 || b == 4 || b == 8,
    ;
    assert(v & c != 0 ==> v != 0) by (bit_vector);
    assert(0u8 & c == 0) by (bit_vector);
}

} // verus!
