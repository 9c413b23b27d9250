//! Little-endian integers at checked offsets.
use crate::error::Error;
use crate::seqs::occurs_at;
use vstd::prelude::*;

verus! {

/// The little-endian 16-bit number at `at`.
pub open spec fn le16(bytes: Seq<u8>, at: int) -> nat {
    (bytes[at] + 0x100 * bytes[at + 1]) as nat
}

/// The little-endian 32-bit number at `at`.
pub open spec fn le32(bytes: Seq<u8>, at: int) -> nat {
    (bytes[at] + 0x100 * bytes[at + 1] + 0x1_0000 * bytes[at + 2] + 0x100_0000 * bytes[at + 3]) as nat
}

/// Reads the 16-bit number at `offset`.
pub fn read_u16(data: &[u8], offset: usize) -> (value: Result<u16, Error>)
    ensures
        offset + 2 <= data@.len() ==> (value matches Ok(v) && v == le16(data@, offset as int)),
        offset + 2 > data@.len() ==> value == Err::<u16, Error>(Error::Truncated { offset }),
{
    if data.len() < 2 || offset > data.len() - 2 {
        return Err(Error::Truncated { offset });
    }
    Ok(data[offset] as u16 + 0x100 * data[offset + 1] as u16)
}

/// Reads the 32-bit number at `offset`.
pub fn read_u32(data: &[u8], offset: usize) -> (value: Result<u32, Error>)
    ensures
        offset + 4 <= data@.len() ==> (value matches Ok(v) && v == le32(data@, offset as int)),
        offset + 4 > data@.len() ==> value == Err::<u32, Error>(Error::Truncated { offset }),
{
    if data.len() < 4 || offset > data.len() - 4 {
        return Err(Error::Truncated { offset });
    }
    Ok(
        data[offset] as u32 + 0x100 * data[offset + 1] as u32 + 0x1_0000 * data[offset + 2] as u32
            + 0x100_0000 * data[offset + 3] as u32,
    )
}

/// The two bytes of a number, low byte first.
pub open spec fn written16(value: u16) -> Seq<u8> {
    seq![(value % 0x100) as u8, (value / 0x100) as u8]
}

/// The four bytes of a number, low byte first.
pub open spec fn written32(value: u32) -> Seq<u8> {
    written16((value % 0x1_0000) as u16) + written16((value / 0x1_0000) as u16)
}

/// A number of 16 bits that was written low byte first reads back, wherever it stands.
pub proof fn law_half_reads_back(bytes: Seq<u8>, at: int, value: u16)
    requires
        0 <= at,
        occurs_at(bytes, written16(value), at),
    ensures
        le16(bytes, at) == value,
{
    let part = bytes.subrange(at, at + 2);
    assert(part[0] == bytes[at] && part[1] == bytes[at + 1]);
}

/// A number of 32 bits that was written low byte first reads back, wherever it stands.
pub proof fn law_word_reads_back(bytes: Seq<u8>, at: int, value: u32)
    requires
        0 <= at,
        occurs_at(bytes, written32(value), at),
    ensures
        le32(bytes, at) == value,
{
    let part = bytes.subrange(at, at + 4);
    let low = (value % 0x1_0000) as u16;
    let high = (value / 0x1_0000) as u16;
    assert(part[0] == bytes[at] && part[1] == bytes[at + 1] && part[2] == bytes[at + 2] && part[3]
        == bytes[at + 3]);
    assert(written32(value)[0] == low % 0x100 && written32(value)[1] == low / 0x100);
    assert(written32(value)[2] == high % 0x100 && written32(value)[3] == high / 0x100);
}

} // verus!
