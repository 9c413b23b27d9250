//! Representation of method prototypes
//!
//! This module contains the logic to decode method prototypes from a DEX file.
use super::error::DexError;
use super::reader::{half_at, word_at, DexReader};
use super::strings::{string_units, DexStrings};
use super::types::{descriptor_of, DexTypes};
use crate::bytes::{law_word_reads_back, written32};
use crate::seqs::{collect, joined, lemma_both_occur, lemma_collect_fails, occurs_at};
use vstd::prelude::*;

verus! {

/// One row of the DEX `proto_ids` table.
///
/// The parameters list is copied as type indices; the prototype text is rendered on demand.
#[derive(Debug)]
pub struct ProtoRow {
    pub return_type_idx: u32,
    pub parameters: Vec<u32>,
}

impl View for ProtoRow {
    type V = (u32, Seq<u32>);

    open spec fn view(&self) -> (u32, Seq<u32>) {
        (self.return_type_idx, self.parameters@)
    }
}

/// List of decoded prototypes in the DEX files
#[derive(Debug)]
pub struct DexProtos {
    pub items: Vec<ProtoRow>,
}

/// The views of a list of rows.
pub open spec fn proto_views(rows: Seq<ProtoRow>) -> Seq<(u32, Seq<u32>)> {
    rows.map_values(|row: ProtoRow| row@)
}

/// The type indices of the parameter list at `at`, by position.
pub open spec fn parameter_row(data: Seq<u8>, big_endian: bool, at: int, types: int) -> spec_fn(
    int,
) -> Result<u32, DexError> {
    |k: int|
        if at + 4 + 2 * k + 2 > data.len() {
            Err(DexError::UnexpectedEnd)
        } else if half_at(data, big_endian, at + 4 + 2 * k) >= types {
            Err(DexError::InvalidTypeIdx)
        } else {
            Ok(half_at(data, big_endian, at + 4 + 2 * k) as u32)
        }
}

/// The type indices of the parameter list at `at`; a prototype without one takes no parameters.
pub open spec fn parameter_list(data: Seq<u8>, big_endian: bool, at: int, types: int) -> Result<
    Seq<u32>,
    DexError,
> {
    if at == 0 {
        Ok(Seq::empty())
    } else if at + 4 > data.len() {
        Err(DexError::UnexpectedEnd)
    } else {
        collect(
            word_at(data, big_endian, at) as int,
            parameter_row(data, big_endian, at, types),
        )
    }
}

/// The rows of the prototype table at `offset`, by index, in a file of `types` types.
pub open spec fn proto_row(data: Seq<u8>, big_endian: bool, offset: int, types: int) -> spec_fn(
    int,
) -> Result<(u32, Seq<u32>), DexError> {
    |index: int|
        {
            let at = offset + 12 * index;
            if at + 12 > data.len() {
                Err(DexError::UnexpectedEnd)
            } else {
                match parameter_list(
                    data,
                    big_endian,
                    word_at(data, big_endian, at + 8) as int,
                    types,
                ) {
                    Err(error) => Err(error),
                    Ok(parameters) => if word_at(data, big_endian, at + 4) >= types {
                        Err(DexError::InvalidTypeIdx)
                    } else {
                        Ok((word_at(data, big_endian, at + 4) as u32, parameters))
                    },
                }
            }
        }
}

/// The descriptors of parameters, by position.
pub open spec fn parameter_text(
    types: Seq<u32>,
    strings: Seq<Seq<u16>>,
    parameters: Seq<u32>,
) -> spec_fn(int) -> Result<Seq<char>, ()> {
    |k: int|
        match descriptor_of(types, strings, parameters[k] as int) {
            Some(text) => Ok(text),
            None => Err(()),
        }
}

/// The text of a prototype: the parameters in parentheses, then the return type.
pub open spec fn row_text(types: Seq<u32>, strings: Seq<Seq<u16>>, row: (u32, Seq<u32>)) -> Option<
    Seq<char>,
> {
    match collect(row.1.len() as int, parameter_text(types, strings, row.1)) {
        Err(_) => None,
        Ok(parameters) => match descriptor_of(types, strings, row.0 as int) {
            None => None,
            Some(result) => Some("("@ + joined(parameters) + seq![')'] + result),
        },
    }
}

/// The text of the prototype with the given index, where there is one.
pub open spec fn proto_text_of(
    protos: Seq<(u32, Seq<u32>)>,
    types: Seq<u32>,
    strings: Seq<Seq<u16>>,
    index: int,
) -> Option<Seq<char>> {
    if index < protos.len() {
        row_text(types, strings, protos[index])
    } else {
        None
    }
}

/// A string that may be absent, as characters.
pub open spec fn opt_string(text: Option<String>) -> Option<Seq<char>> {
    match text {
        Some(text) => Some(text@),
        None => None,
    }
}

/// Reads the parameter list at `at` and leaves the reader where it was.
fn read_parameters(dex_reader: &mut DexReader, at: u32, types: usize) -> (parameters: Result<
    Vec<u32>,
    DexError,
>)
    ensures
        final(dex_reader).same_image(old(dex_reader)),
        match parameters {
            Ok(list) => parameter_list(
                old(dex_reader).bytes@,
                old(dex_reader).big_endian,
                at as int,
                types as int,
            ) == Ok::<Seq<u32>, DexError>(list@) && final(dex_reader).position == old(dex_reader).position,
            Err(error) => parameter_list(
                old(dex_reader).bytes@,
                old(dex_reader).big_endian,
                at as int,
                types as int,
            ) == Err::<Seq<u32>, DexError>(error),
        },
{
    let mut parameters: Vec<u32> = Vec::new();
    if at == 0 {
        return Ok(parameters);
    }
    let current: usize = dex_reader.position;
    let ghost f = parameter_row(
        dex_reader.bytes@,
        dex_reader.big_endian,
        at as int,
        types as int,
    );
    dex_reader.seek(at);
    let count: u32 = match dex_reader.read_u32() {
        Ok(count) => count,
        Err(error) => {
            return Err(error);
        },
    };
    let mut k: u32 = 0;
    while k < count
        invariant
            dex_reader.same_image(old(dex_reader)),
            f == parameter_row(
                old(dex_reader).bytes@,
                old(dex_reader).big_endian,
                at as int,
                types as int,
            ),
            at != 0,
            at + 4 <= old(dex_reader).bytes@.len(),
            count == word_at(old(dex_reader).bytes@, old(dex_reader).big_endian, at as int),
            k <= count,
            dex_reader.position == at + 4 + 2 * k,
            collect(k as int, f) == Ok::<Seq<u32>, DexError>(parameters@),
        decreases count - k,
    {
        let index: u16 = match dex_reader.read_u16() {
            Ok(index) => index,
            Err(error) => {
                proof {
                    lemma_collect_fails(count as int, k as int, f);
                }
                return Err(error);
            },
        };
        if index as usize >= types {
            proof {
                lemma_collect_fails(count as int, k as int, f);
            }
            return Err(DexError::InvalidTypeIdx);
        }
        parameters.push(index as u32);
        k = k + 1;
    }
    dex_reader.position = current;
    Ok(parameters)
}

impl DexProtos {
    /// Parse the prototypes from the reader
    pub fn build(
        dex_reader: &mut DexReader,
        offset: u32,
        size: u32,
        types_list: &DexTypes,
    ) -> (protos: Result<Self, DexError>)
        ensures
            final(dex_reader).same_image(old(dex_reader)),
            ({
                let rows = collect(
                    size as int,
                    proto_row(
                        old(dex_reader).bytes@,
                        old(dex_reader).big_endian,
                        offset as int,
                        types_list.items@.len() as int,
                    ),
                );
                match protos {
                    Ok(list) => rows == Ok::<Seq<(u32, Seq<u32>)>, DexError>(
                        proto_views(list.items@),
                    ),
                    Err(error) => rows == Err::<Seq<(u32, Seq<u32>)>, DexError>(error),
                }
            }),
    {
        let ghost f = proto_row(
            dex_reader.bytes@,
            dex_reader.big_endian,
            offset as int,
            types_list.items@.len() as int,
        );
        dex_reader.seek(offset);
        let mut items: Vec<ProtoRow> = Vec::new();
        let mut index: u32 = 0;
        assert(proto_views(items@) =~= Seq::empty());
        while index < size
            invariant
                dex_reader.same_image(old(dex_reader)),
                f == proto_row(
                    old(dex_reader).bytes@,
                    old(dex_reader).big_endian,
                    offset as int,
                    types_list.items@.len() as int,
                ),
                index <= size,
                dex_reader.position == offset + 12 * index,
                collect(index as int, f) == Ok::<Seq<(u32, Seq<u32>)>, DexError>(
                    proto_views(items@),
                ),
            decreases size - index,
        {
            match Self::read_row(dex_reader, types_list) {
                Ok(row) => {
                    let ghost before = items@;
                    items.push(row);
                    assert(proto_views(items@) =~= proto_views(before).push(row@));
                },
                Err(error) => {
                    proof {
                        lemma_collect_fails(size as int, index as int, f);
                    }
                    return Err(error);
                },
            }
            index = index + 1;
        }
        Ok(DexProtos { items })
    }

    /// Reads the row at the reader's position and moves past it.
    fn read_row(dex_reader: &mut DexReader, types_list: &DexTypes) -> (row: Result<ProtoRow, DexError>)
        ensures
            final(dex_reader).same_image(old(dex_reader)),
            ({
                let expected = (proto_row(
                    old(dex_reader).bytes@,
                    old(dex_reader).big_endian,
                    old(dex_reader).position as int,
                    types_list.items@.len() as int,
                ))(0);
                match row {
                    Ok(row) => expected == Ok::<(u32, Seq<u32>), DexError>(row@) && final(dex_reader).position == old(dex_reader).position + 12,
                    Err(error) => expected == Err::<(u32, Seq<u32>), DexError>(error),
                }
            }),
    {
        let _shorty_idx: u32 = match dex_reader.read_u32() {
            Ok(value) => value,
            Err(error) => {
                return Err(error);
            },
        };
        let return_type_idx: u32 = match dex_reader.read_u32() {
            Ok(value) => value,
            Err(error) => {
                return Err(error);
            },
        };
        let parameters_off: u32 = match dex_reader.read_u32() {
            Ok(value) => value,
            Err(error) => {
                return Err(error);
            },
        };
        let parameters = match read_parameters(dex_reader, parameters_off, types_list.items.len()) {
            Ok(parameters) => parameters,
            Err(error) => {
                return Err(error);
            },
        };
        if return_type_idx as usize >= types_list.items.len() {
            return Err(DexError::InvalidTypeIdx);
        }
        Ok(ProtoRow { return_type_idx, parameters })
    }

    /// Render prototype `idx` as `(` + parameter descriptors + `)` + return descriptor.
    pub fn render(&self, types: &DexTypes, strings: &DexStrings, idx: u32) -> (text: Option<String>)
        ensures
            opt_string(text) == proto_text_of(
                proto_views(self.items@),
                types.items@,
                string_units(strings.strings@),
                idx as int,
            ),
    {
        if idx as usize >= self.items.len() {
            return None;
        }
        let row = &self.items[idx as usize];
        let ghost units = string_units(strings.strings@);
        let ghost f = parameter_text(types.items@, units, row.parameters@);
        let mut text = String::new();
        text.push_str("(");
        assert(text@ =~= "("@ + joined(Seq::<Seq<char>>::empty()));
        let count: usize = row.parameters.len();
        let mut k: usize = 0;
        while k < count
            invariant
                count == row.parameters@.len(),
                units == string_units(strings.strings@),
                f == parameter_text(types.items@, units, row.parameters@),
                idx < self.items@.len(),
                *row == self.items@[idx as int],
                k <= count,
                collect(k as int, f) matches Ok(parts) && text@ == "("@ + joined(parts),
            decreases count - k,
        {
            match types.descriptor(strings, row.parameters[k]) {
                Some(part) => {
                    proof {
                        let parts = collect(k as int, f)->Ok_0;
                        assert(parts.push(part@).drop_last() =~= parts);
                        assert(("("@ + joined(parts)) + part@ =~= "("@ + (joined(parts) + part@));
                    }
                    text.push_str(part);
                },
                None => {
                    proof {
                        lemma_collect_fails(count as int, k as int, f);
                    }
                    return None;
                },
            }
            k = k + 1;
        }
        text.push(')');
        match types.descriptor(strings, row.return_type_idx) {
            Some(part) => {
                proof {
                    let parts = collect(count as int, f)->Ok_0;
                    assert(("("@ + joined(parts)).push(')') =~= "("@ + joined(parts) + seq![')']);
                }
                text.push_str(part);
                Some(text)
            },
            None => None,
        }
    }
}

/// A row of the prototype table without parameters that was written reads back, if the file has its
/// return type.
pub proof fn law_bare_proto_row_reads_back(
    data: Seq<u8>,
    offset: int,
    index: int,
    shorty: u32,
    result: u32,
    types: int,
)
    requires
        0 <= offset,
        0 <= index,
        occurs_at(
            data,
            written32(shorty) + (written32(result) + written32(0)),
            offset + 12 * index,
        ),
    ensures
        proto_row(data, false, offset, types)(index) == (if result < types {
            Ok::<(u32, Seq<u32>), DexError>((result, Seq::empty()))
        } else {
            Err(DexError::InvalidTypeIdx)
        }),
{
    let at = offset + 12 * index;
    lemma_both_occur(data, written32(shorty), written32(result) + written32(0), at);
    lemma_both_occur(data, written32(result), written32(0), at + 4);
    law_word_reads_back(data, at + 4, result);
    law_word_reads_back(data, at + 8, 0);
}

} // verus!
