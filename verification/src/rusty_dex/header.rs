//! The header of a DEX image.
use super::error::DexError;
use super::reader::{word_at, DexReader};
use crate::bytes::{law_word_reads_back, written32};
use crate::seqs::occurs_at;
use vstd::prelude::*;

verus! {

/// The size of the header.
pub const HEADER_SIZE: usize = 0x70;

/// Where each table of the image stands and how many rows it has.
#[derive(Clone, Copy, Debug, PartialEq, Eq, Structural)]
pub struct DexHeader {
    pub checksum: u32,
    pub file_size: u32,
    pub header_size: u32,
    pub map_off: u32,
    pub string_ids_size: u32,
    pub string_ids_off: u32,
    pub type_ids_size: u32,
    pub type_ids_off: u32,
    pub proto_ids_size: u32,
    pub proto_ids_off: u32,
    pub fields_ids_size: u32,
    pub fields_ids_off: u32,
    pub method_ids_size: u32,
    pub method_ids_off: u32,
    pub class_defs_size: u32,
    pub class_defs_off: u32,
}

/// The header of an image that holds one.
pub open spec fn header_of(data: Seq<u8>, big_endian: bool) -> DexHeader {
    DexHeader {
        checksum: word_at(data, big_endian, 0x08) as u32,
        file_size: word_at(data, big_endian, 0x20) as u32,
        header_size: word_at(data, big_endian, 0x24) as u32,
        map_off: word_at(data, big_endian, 0x34) as u32,
        string_ids_size: word_at(data, big_endian, 0x38) as u32,
        string_ids_off: word_at(data, big_endian, 0x3C) as u32,
        type_ids_size: word_at(data, big_endian, 0x40) as u32,
        type_ids_off: word_at(data, big_endian, 0x44) as u32,
        proto_ids_size: word_at(data, big_endian, 0x48) as u32,
        proto_ids_off: word_at(data, big_endian, 0x4C) as u32,
        fields_ids_size: word_at(data, big_endian, 0x50) as u32,
        fields_ids_off: word_at(data, big_endian, 0x54) as u32,
        method_ids_size: word_at(data, big_endian, 0x58) as u32,
        method_ids_off: word_at(data, big_endian, 0x5C) as u32,
        class_defs_size: word_at(data, big_endian, 0x60) as u32,
        class_defs_off: word_at(data, big_endian, 0x64) as u32,
    }
}

impl DexHeader {
    /// Reads the header of the image.
    pub fn new(dex_reader: &DexReader) -> (header: Result<Self, DexError>)
        ensures
            dex_reader.bytes@.len() >= HEADER_SIZE ==> header == Ok::<DexHeader, DexError>(
                header_of(dex_reader.bytes@, dex_reader.big_endian),
            ),
            dex_reader.bytes@.len() < HEADER_SIZE ==> header == Err::<DexHeader, DexError>(
                DexError::UnexpectedEnd,
            ),
    {
        if dex_reader.bytes.len() < HEADER_SIZE {
            return Err(DexError::UnexpectedEnd);
        }
        Ok(
            DexHeader {
                checksum: Self::field(dex_reader, 0x08),
                file_size: Self::field(dex_reader, 0x20),
                header_size: Self::field(dex_reader, 0x24),
                map_off: Self::field(dex_reader, 0x34),
                string_ids_size: Self::field(dex_reader, 0x38),
                string_ids_off: Self::field(dex_reader, 0x3C),
                type_ids_size: Self::field(dex_reader, 0x40),
                type_ids_off: Self::field(dex_reader, 0x44),
                proto_ids_size: Self::field(dex_reader, 0x48),
                proto_ids_off: Self::field(dex_reader, 0x4C),
                fields_ids_size: Self::field(dex_reader, 0x50),
                fields_ids_off: Self::field(dex_reader, 0x54),
                method_ids_size: Self::field(dex_reader, 0x58),
                method_ids_off: Self::field(dex_reader, 0x5C),
                class_defs_size: Self::field(dex_reader, 0x60),
                class_defs_off: Self::field(dex_reader, 0x64),
            },
        )
    }

    fn field(dex_reader: &DexReader, at: u64) -> (value: u32)
        requires
            at + 4 <= dex_reader.bytes@.len(),
        ensures
            value == word_at(dex_reader.bytes@, dex_reader.big_endian, at as int),
    {
        match dex_reader.word(at) {
            Ok(value) => value,
            Err(_error) => 0,
        }
    }
}

/// The numbers of a header that was written read back, each from its own place.
pub proof fn law_header_reads_back(
    data: Seq<u8>,
    checksum: u32,
    file_size: u32,
    header_size: u32,
    map_off: u32,
)
    requires
        occurs_at(data, written32(checksum), 8),
        occurs_at(data, written32(file_size), 32),
        occurs_at(data, written32(header_size), 36),
        occurs_at(data, written32(map_off), 52),
    ensures
        header_of(data, false).checksum == checksum,
        header_of(data, false).file_size == file_size,
        header_of(data, false).header_size == header_size,
        header_of(data, false).map_off == map_off,
{
    law_word_reads_back(data, 8, checksum);
    law_word_reads_back(data, 32, file_size);
    law_word_reads_back(data, 36, header_size);
    law_word_reads_back(data, 52, map_off);
}

} // verus!
