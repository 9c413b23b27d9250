//! Methods identifiers
//!
//! Each DEX file contains a list of identifiers for all methods referred to in the code. The
//! list is sorted by the defining type, method name and method prototype, and cannot contain
//! duplicates.
use super::error::DexError;
use super::protos::{opt_string, proto_text_of, proto_views, DexProtos};
use super::reader::{half_at, word_at, DexReader};
use super::strings::{string_units, DexStrings};
use super::types::{descriptor_of, text_at, DexTypes};
use crate::bytes::{law_half_reads_back, law_word_reads_back, written16, written32};
use crate::seqs::{collect, lemma_both_occur, lemma_collect_fails, occurs_at};
use vstd::prelude::*;

verus! {

/// One row of the DEX `method_ids` table.
#[derive(Clone, Copy, Debug)]
pub struct MethodRow {
    pub class_idx: u16,
    pub proto_idx: u16,
    pub name_idx: u32,
}

/// Sorted list of method IDs
#[derive(Debug)]
pub struct DexMethods {
    pub items: Vec<MethodRow>,
}

/// The row at `at`, in a file of `types` types, `protos` prototypes and `strings` strings.
pub open spec fn method_row_at(
    data: Seq<u8>,
    big_endian: bool,
    at: int,
    types: int,
    protos: int,
    strings: int,
) -> Result<MethodRow, DexError> {
    if at + 8 > data.len() {
        Err(DexError::UnexpectedEnd)
    } else if half_at(data, big_endian, at) >= types || half_at(data, big_endian, at + 2) >= protos {
        Err(DexError::InvalidTypeIdx)
    } else if word_at(data, big_endian, at + 4) >= strings {
        Err(DexError::InvalidStringIdx)
    } else {
        Ok(
            MethodRow {
                class_idx: half_at(data, big_endian, at) as u16,
                proto_idx: half_at(data, big_endian, at + 2) as u16,
                name_idx: word_at(data, big_endian, at + 4) as u32,
            },
        )
    }
}

/// The rows of the method table at `offset`, by index.
pub open spec fn method_row(
    data: Seq<u8>,
    big_endian: bool,
    offset: int,
    types: int,
    protos: int,
    strings: int,
) -> spec_fn(int) -> Result<MethodRow, DexError> {
    |index: int| method_row_at(data, big_endian, offset + 8 * index, types, protos, strings)
}

/// The text of the method with the given index, where there is one: its class, its name and its
/// prototype.
pub open spec fn method_text_of(
    methods: Seq<MethodRow>,
    protos: Seq<(u32, Seq<u32>)>,
    types: Seq<u32>,
    strings: Seq<Seq<u16>>,
    index: int,
) -> Option<Seq<char>> {
    if index >= methods.len() {
        None
    } else {
        let row = methods[index];
        match (
            descriptor_of(types, strings, row.class_idx as int),
            text_at(strings, row.name_idx as int),
            proto_text_of(protos, types, strings, row.proto_idx as int),
        ) {
            (Some(class), Some(name), Some(proto)) => Some(class + "->"@ + name + proto),
            _ => None,
        }
    }
}

impl DexMethods {
    /// Build the list of method identifiers from a file
    ///
    /// Every row must name a type, a prototype and a string of the given lists; the
    /// `Lcls;->name(proto)` text is rendered on demand.
    pub fn build(
        dex_reader: &mut DexReader,
        offset: u32,
        size: u32,
        types_list: &DexTypes,
        protos_list: &DexProtos,
        strings_list: &DexStrings,
    ) -> (methods: Result<Self, DexError>)
        ensures
            final(dex_reader).same_image(old(dex_reader)),
            ({
                let rows = collect(
                    size as int,
                    method_row(
                        old(dex_reader).bytes@,
                        old(dex_reader).big_endian,
                        offset as int,
                        types_list.items@.len() as int,
                        protos_list.items@.len() as int,
                        strings_list.strings@.len() as int,
                    ),
                );
                match methods {
                    Ok(list) => rows == Ok::<Seq<MethodRow>, DexError>(list.items@),
                    Err(error) => rows == Err::<Seq<MethodRow>, DexError>(error),
                }
            }),
    {
        let ghost f = method_row(
            dex_reader.bytes@,
            dex_reader.big_endian,
            offset as int,
            types_list.items@.len() as int,
            protos_list.items@.len() as int,
            strings_list.strings@.len() as int,
        );
        dex_reader.seek(offset);
        let mut items: Vec<MethodRow> = Vec::new();
        let mut index: u32 = 0;
        while index < size
            invariant
                dex_reader.same_image(old(dex_reader)),
                f == method_row(
                    old(dex_reader).bytes@,
                    old(dex_reader).big_endian,
                    offset as int,
                    types_list.items@.len() as int,
                    protos_list.items@.len() as int,
                    strings_list.strings@.len() as int,
                ),
                index <= size,
                dex_reader.position == offset + 8 * index,
                collect(index as int, f) == Ok::<Seq<MethodRow>, DexError>(items@),
            decreases size - index,
        {
            match Self::read_row(dex_reader, types_list, protos_list, strings_list) {
                Ok(row) => {
                    items.push(row);
                },
                Err(error) => {
                    proof {
                        lemma_collect_fails(size as int, index as int, f);
                    }
                    return Err(error);
                },
            }
            index = index + 1;
        }
        Ok(DexMethods { items })
    }

    /// Reads the row at the reader's position and moves past it.
    fn read_row(
        dex_reader: &mut DexReader,
        types_list: &DexTypes,
        protos_list: &DexProtos,
        strings_list: &DexStrings,
    ) -> (row: Result<MethodRow, DexError>)
        ensures
            final(dex_reader).same_image(old(dex_reader)),
            row == method_row_at(
                old(dex_reader).bytes@,
                old(dex_reader).big_endian,
                old(dex_reader).position as int,
                types_list.items@.len() as int,
                protos_list.items@.len() as int,
                strings_list.strings@.len() as int,
            ),
            row is Ok ==> final(dex_reader).position == old(dex_reader).position + 8,
    {
        let class_idx: u16 = match dex_reader.read_u16() {
            Ok(value) => value,
            Err(error) => {
                return Err(error);
            },
        };
        let proto_idx: u16 = match dex_reader.read_u16() {
            Ok(value) => value,
            Err(error) => {
                return Err(error);
            },
        };
        let name_idx: u32 = match dex_reader.read_u32() {
            Ok(value) => value,
            Err(error) => {
                return Err(error);
            },
        };
        if class_idx as usize >= types_list.items.len() || proto_idx as usize
            >= protos_list.items.len() {
            return Err(DexError::InvalidTypeIdx);
        }
        if name_idx as usize >= strings_list.strings.len() {
            return Err(DexError::InvalidStringIdx);
        }
        Ok(MethodRow { class_idx, proto_idx, name_idx })
    }

    /// Render method `idx` as `Lcls;->name(proto)`.
    pub fn render(
        &self,
        types: &DexTypes,
        protos: &DexProtos,
        strings: &DexStrings,
        idx: u32,
    ) -> (text: Option<String>)
        ensures
            opt_string(text) == method_text_of(
                self.items@,
                proto_views(protos.items@),
                types.items@,
                string_units(strings.strings@),
                idx as int,
            ),
    {
        if idx as usize >= self.items.len() {
            return None;
        }
        let row = self.items[idx as usize];
        let mut text = String::new();
        match types.descriptor(strings, row.class_idx as u32) {
            Some(part) => {
                text.push_str(part);
                assert(text@ =~= part@);
            },
            None => {
                return None;
            },
        }
        text.push_str("->");
        match strings.text(row.name_idx) {
            Some(part) => {
                text.push_str(part);
            },
            None => {
                return None;
            },
        }
        match protos.render(types, strings, row.proto_idx as u32) {
            Some(part) => {
                text.push_str(part.as_str());
            },
            None => {
                return None;
            },
        }
        Some(text)
    }
}

/// A row of the method table that was written reads back, if the file has its type, its prototype
/// and its string.
pub proof fn law_method_row_reads_back(
    data: Seq<u8>,
    offset: int,
    index: int,
    row: MethodRow,
    types: int,
    protos: int,
    strings: int,
)
    requires
        0 <= offset,
        0 <= index,
        occurs_at(
            data,
            written16(row.class_idx) + (written16(row.proto_idx) + written32(row.name_idx)),
            offset + 8 * index,
        ),
    ensures
        method_row(data, false, offset, types, protos, strings)(index) == (if row.class_idx >= types || row.proto_idx
            >= protos {
            Err::<MethodRow, DexError>(DexError::InvalidTypeIdx)
        } else if row.name_idx >= strings {
            Err(DexError::InvalidStringIdx)
        } else {
            Ok(row)
        }),
{
    let at = offset + 8 * index;
    let rest = written16(row.proto_idx) + written32(row.name_idx);
    lemma_both_occur(data, written16(row.class_idx), rest, at);
    lemma_both_occur(data, written16(row.proto_idx), written32(row.name_idx), at + 2);
    law_half_reads_back(data, at, row.class_idx);
    law_half_reads_back(data, at + 2, row.proto_idx);
    law_word_reads_back(data, at + 4, row.name_idx);
}

} // verus!
