//! Reading a DEX image in its own byte order.
use super::error::DexError;
use crate::bytes::{le16, le32};
use crate::dex::uleb_at;
use vstd::prelude::*;

verus! {

/// The 16-bit number at `at`, in the given byte order.
pub open spec fn half_at(data: Seq<u8>, big_endian: bool, at: int) -> nat {
    if big_endian {
        (data[at] * 0x100 + data[at + 1]) as nat
    } else {
        le16(data, at)
    }
}

/// The 32-bit number at `at`, in the given byte order.
pub open spec fn word_at(data: Seq<u8>, big_endian: bool, at: int) -> nat {
    if big_endian {
        (data[at] * 0x100_0000 + data[at + 1] * 0x1_0000 + data[at + 2] * 0x100 + data[at + 3]) as nat
    } else {
        le32(data, at)
    }
}

/// A DEX image and a position in it.
#[derive(Debug)]
pub struct DexReader {
    pub bytes: Vec<u8>,
    pub big_endian: bool,
    pub position: usize,
}

/// Where the endianness tag stands.
pub const ENDIAN_TAG_OFFSET: usize = 40;

/// The byte order that the tag of an image states.
pub open spec fn byte_order(data: Seq<u8>) -> Result<bool, DexError> {
    if data.len() < ENDIAN_TAG_OFFSET + 4 {
        Err(DexError::UnexpectedEnd)
    } else if le32(data, ENDIAN_TAG_OFFSET as int) == 0x1234_5678 {
        Ok(false)
    } else if le32(data, ENDIAN_TAG_OFFSET as int) == 0x7856_3412 {
        Ok(true)
    } else {
        Err(DexError::InvalidEndianness)
    }
}

impl DexReader {
    /// Whether this reader is over the same image as another.
    pub open spec fn same_image(&self, other: &DexReader) -> bool {
        self.bytes == other.bytes && self.big_endian == other.big_endian
    }

    /// A reader over `data` at its first byte, in the byte order its tag states.
    pub fn build(data: Vec<u8>) -> (reader: Result<DexReader, DexError>)
        ensures
            match reader {
                Ok(reader) => reader.bytes == data && reader.position == 0 && byte_order(data@)
                    == Ok::<bool, DexError>(reader.big_endian),
                Err(error) => byte_order(data@) == Err::<bool, DexError>(error),
            },
    {
        if data.len() < ENDIAN_TAG_OFFSET + 4 {
            return Err(DexError::UnexpectedEnd);
        }
        let tag: u32 = data[40] as u32 + 0x100 * data[41] as u32 + 0x1_0000 * data[42] as u32
            + 0x100_0000 * data[43] as u32;
        if tag == 0x1234_5678 {
            Ok(DexReader { bytes: data, big_endian: false, position: 0 })
        } else if tag == 0x7856_3412 {
            Ok(DexReader { bytes: data, big_endian: true, position: 0 })
        } else {
            Err(DexError::InvalidEndianness)
        }
    }

    /// The 16-bit number at `at`, wherever the reader stands.
    pub fn half(&self, at: u64) -> (value: Result<u16, DexError>)
        ensures
            at + 2 <= self.bytes@.len() ==> (value matches Ok(v) && v == half_at(
                self.bytes@,
                self.big_endian,
                at as int,
            )),
            at + 2 > self.bytes@.len() ==> value == Err::<u16, DexError>(DexError::UnexpectedEnd),
    {
        let len: usize = self.bytes.len();
        if len < 2 || at > (len - 2) as u64 {
            return Err(DexError::UnexpectedEnd);
        }
        let first: u16 = self.bytes[at as usize] as u16;
        let second: u16 = self.bytes[at as usize + 1] as u16;
        if self.big_endian {
            Ok(first * 0x100 + second)
        } else {
            Ok(first + 0x100 * second)
        }
    }

    /// The 32-bit number at `at`, wherever the reader stands.
    pub fn word(&self, at: u64) -> (value: Result<u32, DexError>)
        ensures
            at + 4 <= self.bytes@.len() ==> (value matches Ok(v) && v == word_at(
                self.bytes@,
                self.big_endian,
                at as int,
            )),
            at + 4 > self.bytes@.len() ==> value == Err::<u32, DexError>(DexError::UnexpectedEnd),
    {
        let len: usize = self.bytes.len();
        if len < 4 || at > (len - 4) as u64 {
            return Err(DexError::UnexpectedEnd);
        }
        let start: usize = at as usize;
        let first: u32 = self.bytes[start] as u32;
        let second: u32 = self.bytes[start + 1] as u32;
        let third: u32 = self.bytes[start + 2] as u32;
        let fourth: u32 = self.bytes[start + 3] as u32;
        if self.big_endian {
            Ok(first * 0x100_0000 + second * 0x1_0000 + third * 0x100 + fourth)
        } else {
            Ok(first + 0x100 * second + 0x1_0000 * third + 0x100_0000 * fourth)
        }
    }

    /// The variable-length number at `at` and where it ends, wherever the reader stands.
    pub fn uleb(&self, at: usize) -> (value: Result<(u32, usize), DexError>)
        ensures
            match uleb_at(self.bytes@, at as int) {
                Some(found) => value matches Ok(pair) && pair.0 == found.0 && pair.1 == found.1 && at
                    < pair.1 <= self.bytes@.len(),
                None => value == Err::<(u32, usize), DexError>(DexError::InvalidUleb128),
            },
    {
        let mut cursor: usize = at;
        match crate::dex::read_uleb(self.bytes.as_slice(), &mut cursor) {
            Ok(number) => Ok((number, cursor)),
            Err(_error) => Err(DexError::InvalidUleb128),
        }
    }

    /// Moves to `offset`.
    pub fn seek(&mut self, offset: u32)
        ensures
            final(self).same_image(old(self)),
            final(self).position == offset,
    {
        self.position = offset as usize;
    }

    /// Reads a 16-bit number.
    pub fn read_u16(&mut self) -> (value: Result<u16, DexError>)
        ensures
            final(self).same_image(old(self)),
            old(self).position + 2 <= old(self).bytes@.len() ==> (value matches Ok(v) && v == half_at(
                old(self).bytes@,
                old(self).big_endian,
                old(self).position as int,
            ) && final(self).position == old(self).position + 2),
            old(self).position + 2 > old(self).bytes@.len() ==> value == Err::<u16, DexError>(
                DexError::UnexpectedEnd,
            ),
    {
        let len: usize = self.bytes.len();
        let at: usize = self.position;
        if len < 2 || at > len - 2 {
            return Err(DexError::UnexpectedEnd);
        }
        let first: u16 = self.bytes[at] as u16;
        let second: u16 = self.bytes[at + 1] as u16;
        self.position = at + 2;
        if self.big_endian {
            Ok(first * 0x100 + second)
        } else {
            Ok(first + 0x100 * second)
        }
    }

    /// Reads a 32-bit number.
    pub fn read_u32(&mut self) -> (value: Result<u32, DexError>)
        ensures
            final(self).same_image(old(self)),
            old(self).position + 4 <= old(self).bytes@.len() ==> (value matches Ok(v) && v == word_at(
                old(self).bytes@,
                old(self).big_endian,
                old(self).position as int,
            ) && final(self).position == old(self).position + 4),
            old(self).position + 4 > old(self).bytes@.len() ==> value == Err::<u32, DexError>(
                DexError::UnexpectedEnd,
            ),
    {
        let len: usize = self.bytes.len();
        let at: usize = self.position;
        if len < 4 || at > len - 4 {
            return Err(DexError::UnexpectedEnd);
        }
        let first: u32 = self.bytes[at] as u32;
        let second: u32 = self.bytes[at + 1] as u32;
        let third: u32 = self.bytes[at + 2] as u32;
        let fourth: u32 = self.bytes[at + 3] as u32;
        self.position = at + 4;
        if self.big_endian {
            Ok(first * 0x100_0000 + second * 0x1_0000 + third * 0x100 + fourth)
        } else {
            Ok(first + 0x100 * second + 0x1_0000 * third + 0x100_0000 * fourth)
        }
    }
}

/// The same bytes in the opposite order are the same number in the opposite byte order.
pub proof fn law_byte_orders_mirror_each_other(data: Seq<u8>, mirrored: Seq<u8>, at: int)
    requires
        0 <= at,
        at + 4 <= data.len(),
        mirrored.len() == data.len(),
    ensures
        mirrored[at] == data[at + 1] && mirrored[at + 1] == data[at] ==> half_at(mirrored, true, at)
            == half_at(data, false, at),
        mirrored[at] == data[at + 3] && mirrored[at + 1] == data[at + 2] && mirrored[at + 2] == data[at
            + 1] && mirrored[at + 3] == data[at] ==> word_at(mirrored, true, at) == word_at(
            data,
            false,
            at,
        ),
{
}

/// The tag states the byte order in which it reads as its own digits from one to eight.
pub proof fn law_the_tag_states_the_byte_order(data: Seq<u8>, big_endian: bool)
    requires
        44 <= data.len(),
    ensures
        byte_order(data) == Ok::<bool, DexError>(big_endian) <==> word_at(data, big_endian, 40)
            == 0x1234_5678,
{
}

} // verus!
