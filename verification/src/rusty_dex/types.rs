//! DEX types
//!
//! A type is named by a string; the type table holds the index of that string.
use super::error::DexError;
use super::mutf8::text_from;
use super::reader::{word_at, DexReader};
use super::strings::{string_units, DexStrings};
use crate::bytes::{law_word_reads_back, written32};
use crate::seqs::{collect, lemma_collect_fails, lemma_collect_succeeds, occurs_at};
use vstd::prelude::*;

verus! {

/// Index into the DEX `type_ids` table.
pub type TypeIdx = u32;

/// List of types defined in the DEX file.
///
/// A row is just a string index; the descriptor text is looked up on demand through
/// [`DexTypes::descriptor`].
#[derive(Debug)]
pub struct DexTypes {
    pub items: Vec<u32>,
}

/// The rows of the type table at `offset`, by index, in a file of `strings` strings.
pub open spec fn type_row(data: Seq<u8>, big_endian: bool, offset: int, strings: int) -> spec_fn(
    int,
) -> Result<u32, DexError> {
    |index: int|
        if offset + 4 * index + 4 > data.len() {
            Err(DexError::UnexpectedEnd)
        } else if word_at(data, big_endian, offset + 4 * index) >= strings {
            Err(DexError::InvalidStringIdx)
        } else {
            Ok(word_at(data, big_endian, offset + 4 * index) as u32)
        }
}

/// The text of the string with the given index, where there is one.
pub open spec fn text_at(strings: Seq<Seq<u16>>, index: int) -> Option<Seq<char>> {
    if index < strings.len() {
        Some(text_from(strings[index], 0))
    } else {
        None
    }
}

/// The descriptor of the type with the given index, where there is one.
pub open spec fn descriptor_of(types: Seq<u32>, strings: Seq<Seq<u16>>, index: int) -> Option<
    Seq<char>,
> {
    if index < types.len() {
        text_at(strings, types[index] as int)
    } else {
        None
    }
}

/// A text that is borrowed or absent, as characters.
pub open spec fn opt_text(text: Option<&str>) -> Option<Seq<char>> {
    match text {
        Some(text) => Some(text@),
        None => None,
    }
}

impl DexStrings {
    /// The text of the string with the given index, where there is one.
    pub fn text(&self, index: u32) -> (text: Option<&str>)
        ensures
            opt_text(text) == text_at(string_units(self.strings@), index as int),
    {
        if (index as usize) < self.strings.len() {
            Some(self.strings[index as usize].as_str())
        } else {
            None
        }
    }
}

impl DexTypes {
    /// Parse the types from a DEX reader
    ///
    /// Every row must name a string of `strings_list`.
    pub fn build(
        dex_reader: &mut DexReader,
        offset: u32,
        size: u32,
        strings_list: &DexStrings,
    ) -> (types: Result<Self, DexError>)
        ensures
            final(dex_reader).same_image(old(dex_reader)),
            ({
                let rows = collect(
                    size as int,
                    type_row(
                        old(dex_reader).bytes@,
                        old(dex_reader).big_endian,
                        offset as int,
                        strings_list.strings@.len() as int,
                    ),
                );
                match types {
                    Ok(list) => rows == Ok::<Seq<u32>, DexError>(list.items@),
                    Err(error) => rows == Err::<Seq<u32>, DexError>(error),
                }
            }),
    {
        let ghost f = type_row(
            dex_reader.bytes@,
            dex_reader.big_endian,
            offset as int,
            strings_list.strings@.len() as int,
        );
        dex_reader.seek(offset);
        let mut items: Vec<u32> = Vec::new();
        let mut index: u32 = 0;
        while index < size
            invariant
                dex_reader.same_image(old(dex_reader)),
                f == type_row(
                    old(dex_reader).bytes@,
                    old(dex_reader).big_endian,
                    offset as int,
                    strings_list.strings@.len() as int,
                ),
                index <= size,
                dex_reader.position == offset + 4 * index,
                collect(index as int, f) == Ok::<Seq<u32>, DexError>(items@),
            decreases size - index,
        {
            let string_index: u32 = match dex_reader.read_u32() {
                Ok(string_index) => string_index,
                Err(error) => {
                    proof {
                        lemma_collect_fails(size as int, index as int, f);
                    }
                    return Err(error);
                },
            };
            if string_index as usize >= strings_list.strings.len() {
                proof {
                    lemma_collect_fails(size as int, index as int, f);
                }
                return Err(DexError::InvalidStringIdx);
            }
            items.push(string_index);
            index = index + 1;
        }
        Ok(DexTypes { items })
    }

    /// The descriptor named by type index `idx`.
    pub fn descriptor<'a>(&self, strings: &'a DexStrings, idx: u32) -> (text: Option<&'a str>)
        ensures
            opt_text(text) == descriptor_of(self.items@, string_units(strings.strings@), idx as int),
    {
        if (idx as usize) < self.items.len() {
            strings.text(self.items[idx as usize])
        } else {
            None
        }
    }
}

/// Every type of a table that was read against a list of strings has a descriptor in it.
pub proof fn law_read_types_have_descriptors(
    data: Seq<u8>,
    big_endian: bool,
    offset: int,
    size: int,
    strings: Seq<Seq<u16>>,
    types: Seq<u32>,
    index: int,
)
    requires
        0 <= size,
        collect(size, type_row(data, big_endian, offset, strings.len() as int)) == Ok::<
            Seq<u32>,
            DexError,
        >(types),
        0 <= index,
    ensures
        descriptor_of(types, strings, index) is Some <==> index < size,
{
    let f = type_row(data, big_endian, offset, strings.len() as int);
    lemma_collect_succeeds(size, f);
    if index < size {
        assert(f(index) == Ok::<u32, DexError>(types[index]));
    }
}

/// A row of the type table that was written reads back, if the file has its string.
pub proof fn law_type_row_reads_back(
    data: Seq<u8>,
    offset: int,
    index: int,
    string: u32,
    strings: int,
)
    requires
        0 <= offset,
        0 <= index,
        occurs_at(data, written32(string), offset + 4 * index),
    ensures
        type_row(data, false, offset, strings)(index) == (if string < strings {
            Ok::<u32, DexError>(string)
        } else {
            Err(DexError::InvalidStringIdx)
        }),
{
    law_word_reads_back(data, offset + 4 * index, string);
}

} // verus!
