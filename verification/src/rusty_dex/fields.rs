//! Representation of class fields
//!
//! This module decodes fields from a DEX file and returns them in the order of the file.
use super::error::DexError;
use super::protos::opt_string;
use super::reader::{half_at, word_at, DexReader};
use super::strings::{string_units, DexStrings};
use super::types::{descriptor_of, text_at, DexTypes};
use crate::bytes::{law_half_reads_back, law_word_reads_back, written16, written32};
use crate::seqs::{collect, lemma_both_occur, lemma_collect_fails, occurs_at};
use vstd::prelude::*;

verus! {

/// One row of the DEX `field_ids` table.
#[derive(Clone, Copy, Debug)]
pub struct FieldRow {
    pub class_idx: u16,
    pub type_idx: u16,
    pub name_idx: u32,
}

/// Representation of the fields in a DEX file, in the order of the file.
#[derive(Debug)]
pub struct DexFields {
    /// Vector of field rows in the correct order
    pub items: Vec<FieldRow>,
}

/// The row at `at`, in a file of `types` types and `strings` strings.
pub open spec fn field_row_at(data: Seq<u8>, big_endian: bool, at: int, types: int, strings: int) -> Result<
    FieldRow,
    DexError,
> {
    if at + 8 > data.len() {
        Err(DexError::UnexpectedEnd)
    } else if half_at(data, big_endian, at) >= types || half_at(data, big_endian, at + 2) >= types {
        Err(DexError::InvalidTypeIdx)
    } else if word_at(data, big_endian, at + 4) >= strings {
        Err(DexError::InvalidStringIdx)
    } else {
        Ok(
            FieldRow {
                class_idx: half_at(data, big_endian, at) as u16,
                type_idx: half_at(data, big_endian, at + 2) as u16,
                name_idx: word_at(data, big_endian, at + 4) as u32,
            },
        )
    }
}

/// The rows of the field table at `offset`, by index.
pub open spec fn field_row(
    data: Seq<u8>,
    big_endian: bool,
    offset: int,
    types: int,
    strings: int,
) -> spec_fn(int) -> Result<FieldRow, DexError> {
    |index: int| field_row_at(data, big_endian, offset + 8 * index, types, strings)
}

/// The text of the field with the given index, where there is one: its class, its name and its
/// type.
pub open spec fn field_text_of(
    fields: Seq<FieldRow>,
    types: Seq<u32>,
    strings: Seq<Seq<u16>>,
    index: int,
) -> Option<Seq<char>> {
    if index >= fields.len() {
        None
    } else {
        let row = fields[index];
        match (
            descriptor_of(types, strings, row.class_idx as int),
            text_at(strings, row.name_idx as int),
            descriptor_of(types, strings, row.type_idx as int),
        ) {
            (Some(class), Some(name), Some(kind)) => Some(
                class + "->"@ + name + seq![':'] + kind,
            ),
            _ => None,
        }
    }
}

impl DexFields {
    /// Parse the fields from the DEX file
    ///
    /// Every row must name types and a string of the given lists; the `Lcls;->name:type` text
    /// is rendered on demand.
    pub fn build(
        dex_reader: &mut DexReader,
        offset: u32,
        size: u32,
        types_list: &DexTypes,
        strings_list: &DexStrings,
    ) -> (fields: Result<Self, DexError>)
        ensures
            final(dex_reader).same_image(old(dex_reader)),
            ({
                let rows = collect(
                    size as int,
                    field_row(
                        old(dex_reader).bytes@,
                        old(dex_reader).big_endian,
                        offset as int,
                        types_list.items@.len() as int,
                        strings_list.strings@.len() as int,
                    ),
                );
                match fields {
                    Ok(list) => rows == Ok::<Seq<FieldRow>, DexError>(list.items@),
                    Err(error) => rows == Err::<Seq<FieldRow>, DexError>(error),
                }
            }),
    {
        let ghost f = field_row(
            dex_reader.bytes@,
            dex_reader.big_endian,
            offset as int,
            types_list.items@.len() as int,
            strings_list.strings@.len() as int,
        );
        dex_reader.seek(offset);
        let mut items: Vec<FieldRow> = Vec::new();
        let mut index: u32 = 0;
        while index < size
            invariant
                dex_reader.same_image(old(dex_reader)),
                f == field_row(
                    old(dex_reader).bytes@,
                    old(dex_reader).big_endian,
                    offset as int,
                    types_list.items@.len() as int,
                    strings_list.strings@.len() as int,
                ),
                index <= size,
                dex_reader.position == offset + 8 * index,
                collect(index as int, f) == Ok::<Seq<FieldRow>, DexError>(items@),
            decreases size - index,
        {
            match Self::read_row(dex_reader, types_list, strings_list) {
                Ok(row) => {
                    items.push(row);
                },
                Err(error) => {
                    proof {
                        lemma_collect_fails(size as int, index as int, f);
                    }
                    return Err(error);
                },
            }
            index = index + 1;
        }
        Ok(DexFields { items })
    }

    /// Reads the row at the reader's position and moves past it.
    fn read_row(dex_reader: &mut DexReader, types_list: &DexTypes, strings_list: &DexStrings) -> (row:
        Result<FieldRow, DexError>)
        ensures
            final(dex_reader).same_image(old(dex_reader)),
            row == field_row_at(
                old(dex_reader).bytes@,
                old(dex_reader).big_endian,
                old(dex_reader).position as int,
                types_list.items@.len() as int,
                strings_list.strings@.len() as int,
            ),
            row is Ok ==> final(dex_reader).position == old(dex_reader).position + 8,
    {
        let class_idx: u16 = match dex_reader.read_u16() {
            Ok(value) => value,
            Err(error) => {
                return Err(error);
            },
        };
        let type_idx: u16 = match dex_reader.read_u16() {
            Ok(value) => value,
            Err(error) => {
                return Err(error);
            },
        };
        let name_idx: u32 = match dex_reader.read_u32() {
            Ok(value) => value,
            Err(error) => {
                return Err(error);
            },
        };
        if class_idx as usize >= types_list.items.len() || type_idx as usize
            >= types_list.items.len() {
            return Err(DexError::InvalidTypeIdx);
        }
        if name_idx as usize >= strings_list.strings.len() {
            return Err(DexError::InvalidStringIdx);
        }
        Ok(FieldRow { class_idx, type_idx, name_idx })
    }

    /// Render field `idx` as `Lcls;->name:type`.
    pub fn render(&self, types: &DexTypes, strings: &DexStrings, idx: u32) -> (text: Option<String>)
        ensures
            opt_string(text) == field_text_of(
                self.items@,
                types.items@,
                string_units(strings.strings@),
                idx as int,
            ),
    {
        if idx as usize >= self.items.len() {
            return None;
        }
        let row = self.items[idx as usize];
        let mut text = String::new();
        match types.descriptor(strings, row.class_idx as u32) {
            Some(part) => {
                text.push_str(part);
                assert(text@ =~= part@);
            },
            None => {
                return None;
            },
        }
        text.push_str("->");
        match strings.text(row.name_idx) {
            Some(part) => {
                text.push_str(part);
            },
            None => {
                return None;
            },
        }
        let ghost before = text@;
        text.push(':');
        assert(text@ =~= before + seq![':']);
        match types.descriptor(strings, row.type_idx as u32) {
            Some(part) => {
                text.push_str(part);
            },
            None => {
                return None;
            },
        }
        Some(text)
    }
}

/// A row of the field table that was written reads back, if the file has its types and its string.
pub proof fn law_field_row_reads_back(
    data: Seq<u8>,
    offset: int,
    index: int,
    row: FieldRow,
    types: int,
    strings: int,
)
    requires
        0 <= offset,
        0 <= index,
        occurs_at(
            data,
            written16(row.class_idx) + (written16(row.type_idx) + written32(row.name_idx)),
            offset + 8 * index,
        ),
    ensures
        field_row(data, false, offset, types, strings)(index) == (if row.class_idx >= types || row.type_idx
            >= types {
            Err::<FieldRow, DexError>(DexError::InvalidTypeIdx)
        } else if row.name_idx >= strings {
            Err(DexError::InvalidStringIdx)
        } else {
            Ok(row)
        }),
{
    let at = offset + 8 * index;
    let rest = written16(row.type_idx) + written32(row.name_idx);
    lemma_both_occur(data, written16(row.class_idx), rest, at);
    lemma_both_occur(data, written16(row.type_idx), written32(row.name_idx), at + 2);
    law_half_reads_back(data, at, row.class_idx);
    law_half_reads_back(data, at + 2, row.type_idx);
    law_word_reads_back(data, at + 4, row.name_idx);
}

} // verus!
