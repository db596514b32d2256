//! The byte layout shared with the code that reads the configuration at
//! run time: the configuration record and the units of the field table.

use vstd::prelude::*;

verus! {

/// Width in bytes of a length prefix, a count and an address.
pub const WORD: usize = 4;

/// Every table's length is a multiple of this.
pub const TABLE_ALIGN: usize = 8;

/// Offset of the override count in the configuration record.
pub const COUNT_OFFSET: usize = 4;

/// Offset of the table's address in the configuration record.
pub const TABLE_ADDR_OFFSET: usize = 8;

/// Size in bytes of the configuration record.
pub const RECORD_SIZE: usize = 12;

/// The four little-endian bytes of `n`, reduced modulo 2^32.
pub open spec fn le32(n: nat) -> Seq<u8> {
    seq![
        (n % 256) as u8,
        (n / 256 % 256) as u8,
        (n / 65536 % 256) as u8,
        (n / 16777216 % 256) as u8,
    ]
}

/// `n` zero bytes.
pub open spec fn zeros(n: nat) -> Seq<u8> {
    Seq::new(n, |i: int| 0u8)
}

/// The count and the address follow the reserved word, one word each, and
/// end the record.
pub proof fn lemma_record_layout()
    ensures
        WORD == 4,
        COUNT_OFFSET == WORD,
        TABLE_ADDR_OFFSET == COUNT_OFFSET + WORD,
        RECORD_SIZE == TABLE_ADDR_OFFSET + WORD,
        TABLE_ALIGN == 2 * WORD,
{
}

/// Appends the four little-endian bytes of `n`, reduced modulo 2^32.
pub fn push_le32(buf: &mut Vec<u8>, n: usize)
    ensures
        final(buf)@ == old(buf)@ + le32(n as nat),
{
    buf.push((n % 256) as u8);
    buf.push((n / 256 % 256) as u8);
    buf.push((n / 65536 % 256) as u8);
    buf.push((n / 16777216 % 256) as u8);
    assert(buf@ == old(buf)@ + le32(n as nat));
}

/// Appends `n` zero bytes.
pub fn push_zeros(buf: &mut Vec<u8>, n: usize)
    ensures
        final(buf)@ == old(buf)@ + zeros(n as nat),
{
    let mut i: usize = 0;
    while i < n
        invariant
            i <= n,
            buf@ == old(buf)@ + zeros(i as nat),
        decreases n - i,
    {
        buf.push(0u8);
        i += 1;
        assert(buf@ == old(buf)@ + zeros(i as nat));
    }
}

} // verus!
