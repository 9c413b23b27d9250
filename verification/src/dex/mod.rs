//! DEX files: the reader and what is answered from one.
use crate::bytes::{law_word_reads_back, le16, le32, read_u16, read_u32, written32};
use crate::error::{Error, Table};
use crate::search::same_bytes;
use crate::seqs::{collect, joined, lemma_collect_all, lemma_collect_fails};
use crate::seqs::{lemma_collect_succeeds, occurs_at};
use mutf8::{decode_owned, law_ascii_text_has_one_spelling, plain_ascii, push_decoded, shown};
use vstd::prelude::*;
use vstd::utf8::encode_utf8;

pub mod code;
pub mod container;
pub mod fields;
pub mod filter;
pub mod index;
pub mod members;
pub mod mutf8;
pub mod prefix;
pub mod scan;
pub mod targets;

verus! {

/// The length of a DEX header.
pub const HEADER_SIZE: usize = 0x70;

/// The bytes a DEX file starts with, before its version.
pub open spec fn dex_magic() -> Seq<u8> {
    seq![0x64, 0x65, 0x78, 0x0A]
}

/// Whether `data` starts with a whole DEX header.
pub open spec fn has_header(data: Seq<u8>) -> bool {
    data.len() >= HEADER_SIZE && occurs_at(data, dex_magic(), 0)
}

/// Whether `data` starts with a whole DEX header.
pub fn starts_with_header(data: &[u8]) -> (found: bool)
    ensures
        found == has_header(data@),
{
    if data.len() < HEADER_SIZE {
        return false;
    }
    let found = data[0] == 0x64 && data[1] == 0x65 && data[2] == 0x78 && data[3] == 0x0A;
    proof {
        let part = data@.subrange(0, 4);
        assert(part[0] == data@[0] && part[1] == data@[1] && part[2] == data@[2] && part[3]
            == data@[3]);
        if found {
            assert(part =~= dex_magic());
        } else {
            assert(part[0] != dex_magic()[0] || part[1] != dex_magic()[1] || part[2] != dex_magic()[2]
                || part[3] != dex_magic()[3]);
        }
    }
    found
}

/// Where the header keeps the size of a table; its offset stands behind it.
pub open spec fn table_slot(table: Table) -> int {
    match table {
        Table::Strings => 0x38,
        Table::Types => 0x40,
        Table::Protos => 0x48,
        Table::Fields => 0x50,
        Table::Methods => 0x58,
        Table::Classes => 0x60,
    }
}

/// The size of one row of a table.
pub open spec fn row_size(table: Table) -> int {
    match table {
        Table::Strings => 4,
        Table::Types => 4,
        Table::Protos => 12,
        Table::Fields => 8,
        Table::Methods => 8,
        Table::Classes => 32,
    }
}

/// How many rows a table has.
pub open spec fn table_size(data: Seq<u8>, table: Table) -> int {
    le32(data, table_slot(table)) as int
}

/// Where a table starts.
pub open spec fn table_off(data: Seq<u8>, table: Table) -> int {
    le32(data, table_slot(table) + 4) as int
}

/// Where a row of a table starts.
pub open spec fn row_off(data: Seq<u8>, table: Table, index: int) -> int {
    table_off(data, table) + index * row_size(table)
}

/// Whether a table is in the file from its first row to its last.
pub open spec fn table_fits(data: Seq<u8>, table: Table) -> bool {
    row_off(data, table, table_size(data, table)) <= data.len()
}

/// What keeps `data` from being read as a DEX file, if anything does.
pub open spec fn dex_error(data: Seq<u8>) -> Option<Error> {
    if !has_header(data) {
        Some(Error::InvalidDexHeader)
    } else if !table_fits(data, Table::Strings) {
        Some(Error::BadTable { table: Table::Strings })
    } else if !table_fits(data, Table::Types) {
        Some(Error::BadTable { table: Table::Types })
    } else if !table_fits(data, Table::Protos) {
        Some(Error::BadTable { table: Table::Protos })
    } else if !table_fits(data, Table::Fields) {
        Some(Error::BadTable { table: Table::Fields })
    } else if !table_fits(data, Table::Methods) {
        Some(Error::BadTable { table: Table::Methods })
    } else if !table_fits(data, Table::Classes) {
        Some(Error::BadTable { table: Table::Classes })
    } else {
        None
    }
}

/// The variable-length number at `at`, of which `done` bytes were read before: its value and
/// where it ends.
pub open spec fn uleb_from(data: Seq<u8>, at: int, done: int) -> Option<(int, int)>
    decreases 5 - done,
{
    if done >= 5 || at >= data.len() || (done == 4 && data[at] > 0x0F) {
        None
    } else if data[at] < 0x80 {
        Some((data[at] as int, at + 1))
    } else {
        match uleb_from(data, at + 1, done + 1) {
            Some(rest) => Some((data[at] - 0x80 + 0x80 * rest.0, rest.1)),
            None => None,
        }
    }
}

/// The variable-length number at `at`: its value and where it ends.
pub open spec fn uleb_at(data: Seq<u8>, at: int) -> Option<(int, int)> {
    uleb_from(data, at, 0)
}

/// A number ends behind where it begins, inside the data.
pub proof fn lemma_uleb_moves(data: Seq<u8>, at: int, done: int)
    ensures
        uleb_from(data, at, done) matches Some(found) ==> at < found.1 <= data.len(),
    decreases 5 - done,
{
    if done < 5 && at < data.len() && data[at] >= 0x80 {
        lemma_uleb_moves(data, at + 1, done + 1);
    }
}

/// What a number may be of which `done` seven-bit groups were read before.
spec fn uleb_bound(done: int) -> int {
    if done <= 0 {
        0x1_0000_0000
    } else if done == 1 {
        0x200_0000
    } else if done == 2 {
        0x4_0000
    } else if done == 3 {
        0x800
    } else {
        0x10
    }
}

fn read_uleb_from(data: &[u8], at: usize, done: usize) -> (found: Option<(u32, usize)>)
    requires
        done <= 5,
    ensures
        match found {
            Some(pair) => uleb_from(data@, at as int, done as int) == Some(
                (pair.0 as int, pair.1 as int),
            ) && pair.0 < uleb_bound(done as int) && at < pair.1 <= data@.len(),
            None => uleb_from(data@, at as int, done as int) is None,
        },
    decreases 5 - done,
{
    if done >= 5 || at >= data.len() || (done == 4 && data[at] > 0x0F) {
        return None;
    }
    if data[at] < 0x80 {
        return Some((data[at] as u32, at + 1));
    }
    match read_uleb_from(data, at + 1, done + 1) {
        Some(rest) => Some(((data[at] - 0x80) as u32 + 0x80 * rest.0, rest.1)),
        None => None,
    }
}

/// Reads the variable-length number at `cursor` and moves the cursor past it.
pub fn read_uleb(data: &[u8], cursor: &mut usize) -> (value: Result<u32, Error>)
    ensures
        match value {
            Ok(number) => uleb_at(data@, *old(cursor) as int) == Some(
                (number as int, *final(cursor) as int),
            ) && *old(cursor) < *final(cursor) <= data@.len(),
            Err(error) => uleb_at(data@, *old(cursor) as int) is None && error == (Error::BadUleb {
                offset: *old(cursor),
            }) && *final(cursor) == *old(cursor),
        },
{
    match read_uleb_from(data, *cursor, 0) {
        Some(found) => {
            *cursor = found.1;
            Ok(found.0)
        },
        None => Err(Error::BadUleb { offset: *cursor }),
    }
}

/// The index of the first NUL byte at or after `at`, or the length when there is none.
pub open spec fn nul_from(data: Seq<u8>, at: int) -> int
    decreases data.len() - at,
{
    if at >= data.len() {
        data.len() as int
    } else if data[at] == 0 {
        at
    } else {
        nul_from(data, at + 1)
    }
}

/// The bytes of the string data at `at`, without its length and its terminator.
pub open spec fn string_data(data: Seq<u8>, at: int) -> Option<Seq<u8>> {
    match uleb_at(data, at) {
        Some(found) => if nul_from(data, found.1) < data.len() {
            Some(data.subrange(found.1, nul_from(data, found.1)))
        } else {
            None
        },
        None => None,
    }
}

/// What stands before the first NUL byte can be skipped.
pub proof fn lemma_nul_from(data: Seq<u8>, at: int, end: int)
    requires
        0 <= at <= end <= data.len(),
        forall|j: int| at <= j < end ==> #[trigger] data[j] != 0,
        end < data.len() ==> data[end] == 0,
    ensures
        nul_from(data, at) == end,
    decreases end - at,
{
    if at < end {
        assert(data[at] != 0);
        lemma_nul_from(data, at + 1, end);
    }
}

/// The bytes of the string data at `offset`, without its length and its terminator.
pub fn string_at(data: &[u8], offset: usize) -> (found: Option<&[u8]>)
    ensures
        match found {
            Some(bytes) => string_data(data@, offset as int) == Some(bytes@),
            None => string_data(data@, offset as int) is None,
        },
{
    let mut cursor: usize = offset;
    match read_uleb(data, &mut cursor) {
        Ok(_length) => {},
        Err(_error) => {
            return None;
        },
    }
    let tail = vstd::slice::slice_subrange(data, cursor, data.len());
    match memchr::memchr(0, tail) {
        Some(end) => {
            proof {
                assert forall|j: int| cursor <= j < cursor + end implies #[trigger] data@[j] != 0 by {
                    assert(data@[j] == tail@[j - cursor]);
                }
                assert(data@[cursor + end] == tail@[end as int]);
                lemma_nul_from(data@, cursor as int, cursor + end);
                assert(tail@.subrange(0, end as int) =~= data@.subrange(
                    cursor as int,
                    cursor + end,
                ));
            }
            Some(vstd::slice::slice_subrange(tail, 0, end))
        },
        None => {
            proof {
                assert forall|j: int| cursor <= j < data@.len() implies #[trigger] data@[j] != 0 by {
                    assert(data@[j] == tail@[j - cursor]);
                }
                lemma_nul_from(data@, cursor as int, data@.len() as int);
            }
            None
        },
    }
}

/// The raw bytes of the string with the given index.
pub open spec fn raw_string(data: Seq<u8>, index: int) -> Result<Seq<u8>, Error> {
    if index >= table_size(data, Table::Strings) {
        Err(Error::BadIndex { table: Table::Strings, index: index as usize })
    } else {
        match string_data(data, le32(data, row_off(data, Table::Strings, index)) as int) {
            Some(bytes) => Ok(bytes),
            None => Err(Error::BadStringData { index: index as usize }),
        }
    }
}

/// The raw descriptor of the type with the given index.
pub open spec fn raw_type(data: Seq<u8>, index: int) -> Result<Seq<u8>, Error> {
    if index >= table_size(data, Table::Types) {
        Err(Error::BadIndex { table: Table::Types, index: index as usize })
    } else {
        raw_string(data, le32(data, row_off(data, Table::Types, index)) as int)
    }
}

/// The text that raw bytes are shown as.
pub open spec fn shown_result(raw: Result<Seq<u8>, Error>) -> Result<Seq<char>, Error> {
    match raw {
        Ok(bytes) => Ok(shown(bytes)),
        Err(error) => Err(error),
    }
}

/// The outcome of a call that returns a string, with the string as characters.
pub open spec fn text_outcome(result: Result<String, Error>) -> Result<Seq<char>, Error> {
    match result {
        Ok(text) => Ok(text@),
        Err(error) => Err(error),
    }
}

/// Where the parts of a DEX file are.
pub struct Header {
    pub strings_size: usize,
    pub strings_off: usize,
    pub types_size: usize,
    pub types_off: usize,
    pub protos_size: usize,
    pub protos_off: usize,
    pub fields_size: usize,
    pub fields_off: usize,
    pub methods_size: usize,
    pub methods_off: usize,
    pub classes_size: usize,
    pub classes_off: usize,
}

/// Whether `header` is what the header of `data` says.
pub open spec fn header_of(data: Seq<u8>, header: Header) -> bool {
    &&& header.strings_size == table_size(data, Table::Strings)
    &&& header.strings_off == table_off(data, Table::Strings)
    &&& header.types_size == table_size(data, Table::Types)
    &&& header.types_off == table_off(data, Table::Types)
    &&& header.protos_size == table_size(data, Table::Protos)
    &&& header.protos_off == table_off(data, Table::Protos)
    &&& header.fields_size == table_size(data, Table::Fields)
    &&& header.fields_off == table_off(data, Table::Fields)
    &&& header.methods_size == table_size(data, Table::Methods)
    &&& header.methods_off == table_off(data, Table::Methods)
    &&& header.classes_size == table_size(data, Table::Classes)
    &&& header.classes_off == table_off(data, Table::Classes)
}

/// A DEX file whose header was read and whose id tables were found to be in it.
pub struct Dex<'a> {
    pub data: &'a [u8],
    pub header: Header,
}

/// Reads a size or an offset of the header.
fn header_word(data: &[u8], at: usize) -> (word: usize)
    requires
        at + 4 <= HEADER_SIZE <= data@.len(),
    ensures
        word == le32(data@, at as int),
{
    match read_u32(data, at) {
        Ok(word) => word as usize,
        Err(_error) => 0,
    }
}

/// Where a table of `count` rows of `stride` bytes at `offset` ends.
pub fn table_end(offset: usize, count: usize, stride: usize) -> (end: Option<usize>)
    ensures
        end == (if offset + count * stride <= usize::MAX {
            Some((offset + count * stride) as usize)
        } else {
            None
        }),
{
    assert(0 <= count * stride) by (nonlinear_arith);
    match count.checked_mul(stride) {
        Some(size) => offset.checked_add(size),
        None => None,
    }
}

/// Whether a table of `count` rows of `stride` bytes at `offset` ends inside `len` bytes.
pub fn table_inside(offset: usize, count: usize, stride: usize, len: usize) -> (inside: bool)
    ensures
        inside == (offset + count * stride <= len),
{
    match table_end(offset, count, stride) {
        Some(end) => end <= len,
        None => false,
    }
}

/// The offset of row `index` of a table whose rows up to that one are in `data`.
pub fn row_at(data: &[u8], offset: usize, index: usize, stride: usize) -> (at: usize)
    requires
        offset + index * stride <= data@.len(),
    ensures
        at == offset + index * stride,
{
    let _len: usize = data.len();
    assert(0 <= index * stride) by (nonlinear_arith);
    offset + index * stride
}

/// Whether row `index` of a table that fits ends inside the file.
pub proof fn lemma_row_inside(data: Seq<u8>, table: Table, index: int)
    requires
        table_fits(data, table),
        0 <= index < table_size(data, table),
    ensures
        0 <= table_off(data, table) <= row_off(data, table, index),
        row_off(data, table, index) + row_size(table) <= data.len(),
{
    let size = table_size(data, table);
    let stride = row_size(table);
    assert(index * stride + stride <= size * stride) by (nonlinear_arith)
        requires
            index < size,
            stride > 0,
    ;
    assert(0 <= index * stride) by (nonlinear_arith)
        requires
            0 <= index,
            stride > 0,
    ;
}

impl<'a> Dex<'a> {
    /// Whether the header is that of the data, and every table is in the data.
    pub open spec fn valid(&self) -> bool {
        dex_error(self.data@) is None && header_of(self.data@, self.header)
    }

    /// Reads the header of `data` and checks that every id table is in the file.
    pub fn parse(data: &'a [u8]) -> (dex: Result<Dex<'a>, Error>)
        ensures
            match dex {
                Ok(dex) => dex.valid() && dex.data == data,
                Err(error) => dex_error(data@) == Some(error),
            },
    {
        if !starts_with_header(data) {
            return Err(Error::InvalidDexHeader);
        }
        let header = Header {
            strings_size: header_word(data, 0x38),
            strings_off: header_word(data, 0x3C),
            types_size: header_word(data, 0x40),
            types_off: header_word(data, 0x44),
            protos_size: header_word(data, 0x48),
            protos_off: header_word(data, 0x4C),
            fields_size: header_word(data, 0x50),
            fields_off: header_word(data, 0x54),
            methods_size: header_word(data, 0x58),
            methods_off: header_word(data, 0x5C),
            classes_size: header_word(data, 0x60),
            classes_off: header_word(data, 0x64),
        };
        let len = data.len();
        if !table_inside(header.strings_off, header.strings_size, 4, len) {
            return Err(Error::BadTable { table: Table::Strings });
        }
        if !table_inside(header.types_off, header.types_size, 4, len) {
            return Err(Error::BadTable { table: Table::Types });
        }
        if !table_inside(header.protos_off, header.protos_size, 12, len) {
            return Err(Error::BadTable { table: Table::Protos });
        }
        if !table_inside(header.fields_off, header.fields_size, 8, len) {
            return Err(Error::BadTable { table: Table::Fields });
        }
        if !table_inside(header.methods_off, header.methods_size, 8, len) {
            return Err(Error::BadTable { table: Table::Methods });
        }
        if !table_inside(header.classes_off, header.classes_size, 32, len) {
            return Err(Error::BadTable { table: Table::Classes });
        }
        Ok(Dex { data, header })
    }

    /// The 32-bit number at `offset`.
    pub fn u32(&self, offset: usize) -> (value: Result<u32, Error>)
        ensures
            offset + 4 <= self.data@.len() ==> (value matches Ok(v) && v == le32(
                self.data@,
                offset as int,
            )),
            offset + 4 > self.data@.len() ==> value == Err::<u32, Error>(
                Error::Truncated { offset },
            ),
    {
        read_u32(self.data, offset)
    }

    /// The raw bytes of the string with the given index.
    pub fn raw_string(&self, index: usize) -> (bytes: Result<&'a [u8], Error>)
        requires
            self.valid(),
        ensures
            match bytes {
                Ok(slice) => raw_string(self.data@, index as int) == Ok::<Seq<u8>, Error>(slice@),
                Err(error) => raw_string(self.data@, index as int) == Err::<Seq<u8>, Error>(error),
            },
    {
        if index >= self.header.strings_size {
            return Err(Error::BadIndex { table: Table::Strings, index });
        }
        proof {
            lemma_row_inside(self.data@, Table::Strings, index as int);
        }
        let offset = match self.u32(
            row_at(self.data, self.header.strings_off, index, 4),
        ) {
            Ok(offset) => offset as usize,
            Err(error) => {
                return Err(error);
            },
        };
        match string_at(self.data, offset) {
            Some(bytes) => Ok(bytes),
            None => Err(Error::BadStringData { index }),
        }
    }

    /// The string with the given index.
    pub fn string(&self, index: usize) -> (text: Result<String, Error>)
        requires
            self.valid(),
        ensures
            text_outcome(text) == shown_result(raw_string(self.data@, index as int)),
    {
        match self.raw_string(index) {
            Ok(bytes) => Ok(decode_owned(bytes)),
            Err(error) => Err(error),
        }
    }

    /// The raw descriptor of the type with the given index.
    pub fn raw_type(&self, index: usize) -> (bytes: Result<&'a [u8], Error>)
        requires
            self.valid(),
        ensures
            match bytes {
                Ok(slice) => raw_type(self.data@, index as int) == Ok::<Seq<u8>, Error>(slice@),
                Err(error) => raw_type(self.data@, index as int) == Err::<Seq<u8>, Error>(error),
            },
    {
        if index >= self.header.types_size {
            return Err(Error::BadIndex { table: Table::Types, index });
        }
        proof {
            lemma_row_inside(self.data@, Table::Types, index as int);
        }
        let string = match self.u32(row_at(self.data, self.header.types_off, index, 4)) {
            Ok(string) => string as usize,
            Err(error) => {
                return Err(error);
            },
        };
        self.raw_string(string)
    }

    /// The descriptor of the type with the given index.
    pub fn type_text(&self, index: usize) -> (text: Result<String, Error>)
        requires
            self.valid(),
        ensures
            text_outcome(text) == shown_result(raw_type(self.data@, index as int)),
    {
        match self.raw_type(index) {
            Ok(bytes) => Ok(decode_owned(bytes)),
            Err(error) => Err(error),
        }
    }
}

/// Where the parameter list of a prototype is, or zero when it takes none.
pub open spec fn parameters_off(data: Seq<u8>, index: int) -> int {
    le32(data, row_off(data, Table::Protos, index) + 8) as int
}

/// The descriptors of the types in the type list at `at`, by position.
pub open spec fn listed_types(data: Seq<u8>, at: int) -> spec_fn(int) -> Result<Seq<char>, Error> {
    |k: int| shown_result(raw_type(data, le16(data, at + 4 + 2 * k) as int))
}

/// The descriptors of the types in the type list at `at`.
pub open spec fn type_list(data: Seq<u8>, at: int) -> Result<Seq<Seq<char>>, Error> {
    if at == 0 {
        Ok(Seq::empty())
    } else if at + 4 > data.len() || at + 4 + 2 * le32(data, at) > data.len() {
        Err(Error::BadTypeList { offset: at as usize })
    } else {
        collect(le32(data, at) as int, listed_types(data, at))
    }
}

/// A prototype in descriptor form: the parameters in parentheses, then the return type.
pub open spec fn proto_text(data: Seq<u8>, index: int) -> Result<Seq<char>, Error> {
    if index >= table_size(data, Table::Protos) {
        Err(Error::BadIndex { table: Table::Protos, index: index as usize })
    } else {
        match type_list(data, parameters_off(data, index)) {
            Err(error) => Err(error),
            Ok(parameters) => match shown_result(
                raw_type(data, le32(data, row_off(data, Table::Protos, index) + 4) as int),
            ) {
                Err(error) => Err(error),
                Ok(result) => Ok(seq!['('] + joined(parameters) + seq![')'] + result),
            },
        }
    }
}

impl<'a> Dex<'a> {
    /// Appends the descriptors of the type list at `at`.
    fn push_type_list(&self, out: &mut String, at: usize) -> (done: Result<(), Error>)
        requires
            self.valid(),
        ensures
            match type_list(self.data@, at as int) {
                Ok(types) => done is Ok && final(out)@ == old(out)@ + joined(types),
                Err(error) => done == Err::<(), Error>(error),
            },
    {
        let data = self.data;
        let len: usize = data.len();
        if at == 0 {
            assert(out@ + Seq::<char>::empty() =~= out@);
            return Ok(());
        }
        if at > len || len - at < 4 {
            return Err(Error::BadTypeList { offset: at });
        }
        let count: u32 = match read_u32(data, at) {
            Ok(count) => count,
            Err(error) => {
                return Err(error);
            },
        };
        if (len - at - 4) as u64 / 2 < count as u64 {
            return Err(Error::BadTypeList { offset: at });
        }
        let ghost before = out@;
        let ghost f = listed_types(data@, at as int);
        let mut k: u32 = 0;
        assert(before + joined(Seq::<Seq<char>>::empty()) =~= before);
        while k < count
            invariant
                self.valid(),
                data == self.data,
                len == data@.len(),
                count == le32(data@, at as int),
                at + 4 + 2 * count <= len,
                k <= count,
                f == listed_types(data@, at as int),
                at != 0,
                collect(k as int, f) matches Ok(types) && out@ == before + joined(types),
            decreases count - k,
        {
            let index = match read_u16(data, at + 4 + 2 * k as usize) {
                Ok(index) => index as usize,
                Err(error) => {
                    return Err(error);
                },
            };
            match self.raw_type(index) {
                Ok(bytes) => {
                    proof {
                        let types = collect(k as int, f)->Ok_0;
                        assert(types.push(shown(bytes@)).drop_last() =~= types);
                        assert((before + joined(types)) + shown(bytes@) =~= before + (joined(types)
                            + shown(bytes@)));
                    }
                    push_decoded(out, bytes);
                },
                Err(error) => {
                    proof {
                        lemma_collect_fails(count as int, k as int, f);
                    }
                    return Err(error);
                },
            }
            k = k + 1;
        }
        Ok(())
    }

    /// The prototype with the given index, in descriptor form.
    pub fn proto(&self, index: usize) -> (text: Result<String, Error>)
        requires
            self.valid(),
        ensures
            text_outcome(text) == proto_text(self.data@, index as int),
    {
        if index >= self.header.protos_size {
            return Err(Error::BadIndex { table: Table::Protos, index });
        }
        proof {
            lemma_row_inside(self.data@, Table::Protos, index as int);
        }
        let row = row_at(self.data, self.header.protos_off, index, 12);
        let len: usize = self.data.len();
        let result = match self.u32(row + 4) {
            Ok(result) => result as usize,
            Err(error) => {
                return Err(error);
            },
        };
        let parameters = match self.u32(row + 8) {
            Ok(parameters) => parameters as usize,
            Err(error) => {
                return Err(error);
            },
        };
        let mut out = String::new();
        out.push('(');
        match self.push_type_list(&mut out, parameters) {
            Ok(_) => {},
            Err(error) => {
                return Err(error);
            },
        }
        out.push(')');
        match self.raw_type(result) {
            Ok(bytes) => {
                push_decoded(&mut out, bytes);
            },
            Err(error) => {
                return Err(error);
            },
        }
        proof {
            let types = type_list(self.data@, parameters as int)->Ok_0;
            assert(Seq::<char>::empty().push('(') =~= seq!['(']);
            assert((seq!['('] + joined(types)).push(')') =~= seq!['('] + joined(types) + seq![')']);
        }
        Ok(out)
    }
}

/// The type index of the class in the given row of the class table.
pub open spec fn class_type(data: Seq<u8>, index: int) -> int {
    le32(data, row_off(data, Table::Classes, index)) as int
}

/// The descriptors of the classes a file defines, by row.
pub open spec fn class_text(data: Seq<u8>) -> spec_fn(int) -> Result<Seq<char>, Error> {
    |index: int| shown_result(raw_type(data, class_type(data, index)))
}

/// The descriptors of the classes a file defines, in the order of its class table.
pub open spec fn class_texts(data: Seq<u8>) -> Result<Seq<Seq<char>>, Error> {
    match dex_error(data) {
        Some(error) => Err(error),
        None => collect(table_size(data, Table::Classes), class_text(data)),
    }
}

/// The texts of a list of strings.
pub open spec fn texts(strings: Seq<String>) -> Seq<Seq<char>> {
    strings.map_values(|text: String| text@)
}

impl<'a> Dex<'a> {
    /// The type index of the class in the given row of the class table.
    pub fn class_type(&self, index: usize) -> (found: Result<usize, Error>)
        requires
            self.valid(),
            index < self.header.classes_size,
        ensures
            found matches Ok(value) && value == class_type(self.data@, index as int),
    {
        proof {
            lemma_row_inside(self.data@, Table::Classes, index as int);
        }
        match self.u32(row_at(self.data, self.header.classes_off, index, 32)) {
            Ok(value) => Ok(value as usize),
            Err(error) => Err(error),
        }
    }
}

/// The descriptors of the classes a file defines, in the order of its class table.
pub fn class_names(data: &[u8]) -> (names: Result<Vec<String>, Error>)
    ensures
        match names {
            Ok(list) => class_texts(data@) == Ok::<Seq<Seq<char>>, Error>(texts(list@)),
            Err(error) => class_texts(data@) == Err::<Seq<Seq<char>>, Error>(error),
        },
{
    let dex = match Dex::parse(data) {
        Ok(dex) => dex,
        Err(error) => {
            return Err(error);
        },
    };
    let count = dex.header.classes_size;
    let mut names: Vec<String> = Vec::new();
    let mut index: usize = 0;
    assert(texts(names@) =~= Seq::empty());
    while index < count
        invariant
            dex.valid(),
            dex.data == data,
            count == dex.header.classes_size,
            index <= count,
            collect(index as int, class_text(data@)) == Ok::<Seq<Seq<char>>, Error>(texts(names@)),
        decreases count - index,
    {
        let ghost before = names@;
        let kind = match dex.class_type(index) {
            Ok(kind) => kind,
            Err(error) => {
                return Err(error);
            },
        };
        match dex.type_text(kind) {
            Ok(name) => {
                names.push(name);
                assert(texts(names@) =~= texts(before).push(name@));
            },
            Err(error) => {
                proof {
                    lemma_collect_fails(count as int, index as int, class_text(data@));
                }
                return Err(error);
            },
        }
        index = index + 1;
    }
    Ok(names)
}

/// Whether one of the rows from `index` on defines `descriptor`, or the first row that cannot
/// be read before one that does.
pub open spec fn defines_from(data: Seq<u8>, descriptor: Seq<u8>, index: int) -> Result<bool, Error>
    decreases table_size(data, Table::Classes) - index,
{
    if index >= table_size(data, Table::Classes) {
        Ok(false)
    } else {
        match raw_type(data, class_type(data, index)) {
            Err(error) => Err(error),
            Ok(bytes) => if bytes == descriptor {
                Ok(true)
            } else {
                defines_from(data, descriptor, index + 1)
            },
        }
    }
}

/// Whether a file defines the class with the raw descriptor `descriptor`.
pub open spec fn defines(data: Seq<u8>, descriptor: Seq<u8>) -> Result<bool, Error> {
    match dex_error(data) {
        Some(error) => Err(error),
        None => defines_from(data, descriptor, 0),
    }
}

/// Whether a file defines the class with the raw descriptor `descriptor`.
pub fn defines_class(data: &[u8], descriptor: &[u8]) -> (found: Result<bool, Error>)
    ensures
        found == defines(data@, descriptor@),
{
    let dex = match Dex::parse(data) {
        Ok(dex) => dex,
        Err(error) => {
            return Err(error);
        },
    };
    let mut index: usize = 0;
    while index < dex.header.classes_size
        invariant
            dex.valid(),
            dex.data == data,
            index <= dex.header.classes_size,
            defines_from(data@, descriptor@, 0) == defines_from(data@, descriptor@, index as int),
        decreases dex.header.classes_size - index,
    {
        let kind = match dex.class_type(index) {
            Ok(kind) => kind,
            Err(error) => {
                return Err(error);
            },
        };
        match dex.raw_type(kind) {
            Ok(bytes) => {
                if same_bytes(bytes, descriptor) {
                    return Ok(true);
                }
            },
            Err(error) => {
                return Err(error);
            },
        }
        index = index + 1;
    }
    Ok(false)
}

/// Nothing before the first NUL byte is one.
proof fn lemma_before_nul(data: Seq<u8>, at: int)
    requires
        0 <= at <= data.len(),
    ensures
        at <= nul_from(data, at) <= data.len(),
        forall|j: int| at <= j < nul_from(data, at) ==> #[trigger] data[j] != 0,
    decreases data.len() - at,
{
    if at < data.len() && data[at] != 0 {
        lemma_before_nul(data, at + 1);
    }
}

/// The bytes of a string hold no NUL: the first one ended it.
pub proof fn law_string_holds_no_nul(data: Seq<u8>, at: int)
    requires
        0 <= at,
        string_data(data, at) is Some,
    ensures
        forall|i: int|
            0 <= i < string_data(data, at)->0.len() ==> #[trigger] string_data(data, at)->0[i] != 0,
{
    lemma_uleb_moves(data, at, 0);
    let start = (uleb_at(data, at)->0).1;
    lemma_before_nul(data, start);
    let bytes = string_data(data, at)->0;
    assert forall|i: int| 0 <= i < bytes.len() implies #[trigger] bytes[i] != 0 by {
        assert(bytes[i] == data[start + i]);
    }
}

proof fn lemma_defines_listed(data: Seq<u8>, descriptor: Seq<char>, names: Seq<Seq<char>>, index: int)
    requires
        class_texts(data) == Ok::<Seq<Seq<char>>, Error>(names),
        plain_ascii(descriptor),
        0 <= index <= names.len(),
    ensures
        defines_from(data, encode_utf8(descriptor), index) == Ok::<bool, Error>(
            names.skip(index).contains(descriptor),
        ),
    decreases names.len() - index,
{
    let n = table_size(data, Table::Classes);
    lemma_collect_succeeds(n, class_text(data));
    let rest = names.skip(index);
    if index < n {
        assert((class_text(data))(index) == Ok::<Seq<char>, Error>(names[index]));
        let raw = raw_type(data, class_type(data, index))->Ok_0;
        let string = le32(data, row_off(data, Table::Types, class_type(data, index))) as int;
        law_string_holds_no_nul(data, le32(data, row_off(data, Table::Strings, string)) as int);
        law_ascii_text_has_one_spelling(raw, descriptor);
        lemma_defines_listed(data, descriptor, names, index + 1);
        let later = names.skip(index + 1);
        assert(rest[0] == names[index]);
        if later.contains(descriptor) {
            let k = choose|k: int| 0 <= k < later.len() && later[k] == descriptor;
            assert(rest[k + 1] == descriptor);
        }
        if rest.contains(descriptor) && names[index] != descriptor {
            let k = choose|k: int| 0 <= k < rest.len() && rest[k] == descriptor;
            assert(later[k - 1] == descriptor);
        }
    }
}

/// A file whose classes can be listed defines a class with an ASCII descriptor exactly when the
/// list holds it, although one goes by bytes and the other by text.
pub proof fn law_lookup_agrees_with_the_listing(
    data: Seq<u8>,
    descriptor: Seq<char>,
    names: Seq<Seq<char>>,
)
    requires
        class_texts(data) == Ok::<Seq<Seq<char>>, Error>(names),
        plain_ascii(descriptor),
    ensures
        defines(data, encode_utf8(descriptor)) == Ok::<bool, Error>(names.contains(descriptor)),
{
    lemma_defines_listed(data, descriptor, names, 0);
    assert(names.skip(0) =~= names);
}

/// A type list as it is written: how many types there are, in 32 bits, and the index of each, in 16.
pub open spec fn written_types(indices: Seq<u16>) -> Seq<u8> {
    let count = indices.len() as int;
    seq![
        (count % 0x100) as u8,
        (count / 0x100 % 0x100) as u8,
        (count / 0x1_0000 % 0x100) as u8,
        (count / 0x100_0000) as u8,
    ] + joined(indices.map_values(|index: u16| seq![(index % 0x100) as u8, (index / 0x100) as u8]))
}

/// Where each of the indices of a written list stands.
proof fn lemma_written_index(indices: Seq<u16>, k: int)
    requires
        0 <= k < indices.len(),
    ensures
        ({
            let f = |index: u16| seq![(index % 0x100) as u8, (index / 0x100) as u8];
            let bytes = joined(indices.map_values(f));
            &&& bytes.len() == 2 * indices.len()
            &&& bytes[2 * k] == indices[k] % 0x100
            &&& bytes[2 * k + 1] == indices[k] / 0x100
        }),
    decreases indices.len(),
{
    let f = |index: u16| seq![(index % 0x100) as u8, (index / 0x100) as u8];
    let front = indices.drop_last();
    assert(indices.map_values(f).drop_last() =~= front.map_values(f));
    assert(indices.map_values(f).last() == f(indices.last()));
    if k < front.len() {
        lemma_written_index(front, k);
    } else if front.len() > 0 {
        lemma_written_index(front, 0);
    } else {
        assert(joined(front.map_values(f)) =~= Seq::empty());
    }
}

/// What stands where a type list was written.
proof fn lemma_written_bytes(data: Seq<u8>, at: int, indices: Seq<u16>, j: int)
    requires
        0 <= at,
        occurs_at(data, written_types(indices), at),
        0 <= j < written_types(indices).len(),
    ensures
        data[at + j] == written_types(indices)[j],
        at + written_types(indices).len() <= data.len(),
{
    let written = written_types(indices);
    assert(data.subrange(at, at + written.len())[j] == data[at + j]);
}

/// The count of a written type list.
proof fn lemma_written_count(data: Seq<u8>, at: int, indices: Seq<u16>)
    requires
        0 <= at,
        indices.len() <= u32::MAX,
        occurs_at(data, written_types(indices), at),
    ensures
        at + 4 + 2 * indices.len() <= data.len(),
        le32(data, at) == indices.len(),
{
    let f = |index: u16| seq![(index % 0x100) as u8, (index / 0x100) as u8];
    if indices.len() > 0 {
        lemma_written_index(indices, 0);
    } else {
        assert(indices.map_values(f) =~= Seq::empty());
    }
    assert(written_types(indices).len() == 4 + 2 * indices.len());
    lemma_written_bytes(data, at, indices, 0);
    lemma_written_bytes(data, at, indices, 1);
    lemma_written_bytes(data, at, indices, 2);
    lemma_written_bytes(data, at, indices, 3);
    let count = indices.len() as int;
    let a = count % 0x100;
    let b = count / 0x100 % 0x100;
    let c = count / 0x1_0000 % 0x100;
    let d = count / 0x100_0000;
    assert(a + 0x100 * b + 0x1_0000 * c + 0x100_0000 * d == count);
    assert(d < 0x100);
}

/// The k-th index of a written type list.
proof fn lemma_written_type(data: Seq<u8>, at: int, indices: Seq<u16>, k: int)
    requires
        0 <= at,
        occurs_at(data, written_types(indices), at),
        0 <= k < indices.len(),
    ensures
        le16(data, at + 4 + 2 * k) == indices[k],
{
    lemma_written_index(indices, k);
    assert(written_types(indices).len() == 4 + 2 * indices.len());
    lemma_written_bytes(data, at, indices, 4 + 2 * k);
    lemma_written_bytes(data, at, indices, 5 + 2 * k);
}

/// A type list that was written reads back: as many types as were listed, and each the one that its
/// own index names, in their order.
pub proof fn law_type_list_reads_back(data: Seq<u8>, at: int, indices: Seq<u16>, types: Seq<Seq<char>>)
    requires
        0 < at,
        indices.len() <= u32::MAX,
        occurs_at(data, written_types(indices), at),
        types.len() == indices.len(),
        forall|k: int|
            0 <= k < indices.len() ==> shown_result(raw_type(data, indices[k] as int)) == Ok::<
                Seq<char>,
                Error,
            >(#[trigger] types[k]),
    ensures
        type_list(data, at) == Ok::<Seq<Seq<char>>, Error>(types),
{
    lemma_written_count(data, at, indices);
    let f = listed_types(data, at);
    assert forall|k: int| 0 <= k < types.len() implies f(k) == Ok::<Seq<char>, Error>(
        #[trigger] types[k],
    ) by {
        lemma_written_type(data, at, indices, k);
    }
    lemma_collect_all(types.len() as int, f, types);
}

/// The bytes of a variable-length number: seven bits in each, the lowest first, and the top bit set
/// in all but the last.
pub open spec fn written_uleb(value: nat) -> Seq<u8>
    decreases value,
{
    if value < 0x80 {
        seq![value as u8]
    } else {
        seq![(0x80 + value % 0x80) as u8] + written_uleb(value / 0x80)
    }
}

proof fn lemma_uleb_reads_back(data: Seq<u8>, at: int, value: nat, done: int)
    requires
        0 <= at,
        0 <= done < 5,
        value < (if done == 0 {
            0x1_0000_0000int
        } else if done == 1 {
            0x200_0000
        } else if done == 2 {
            0x4_0000
        } else if done == 3 {
            0x800
        } else {
            0x10
        }),
        occurs_at(data, written_uleb(value), at),
    ensures
        uleb_from(data, at, done) == Some((value as int, at + written_uleb(value).len())),
    decreases value,
{
    let written = written_uleb(value);
    let part = data.subrange(at, at + written.len());
    assert(part[0] == data[at]);
    if value >= 0x80 {
        let rest = written_uleb(value / 0x80);
        assert(data.subrange(at + 1, at + 1 + rest.len()) =~= rest) by {
            assert forall|j: int| 0 <= j < rest.len() implies data[at + 1 + j] == rest[j] by {
                assert(part[1 + j] == written[1 + j]);
            }
        }
        lemma_uleb_reads_back(data, at + 1, value / 0x80, done + 1);
    }
}

/// A variable-length number of up to 32 bits that was written reads back, and what stands behind it
/// is next.
pub proof fn law_uleb_reads_back(data: Seq<u8>, at: int, value: u32)
    requires
        0 <= at,
        occurs_at(data, written_uleb(value as nat), at),
    ensures
        uleb_at(data, at) == Some((value as int, at + written_uleb(value as nat).len())),
{
    lemma_uleb_reads_back(data, at, value as nat, 0);
}

/// A string that was written, behind the count of its units and in front of a NUL, reads back.
pub proof fn law_string_reads_back(data: Seq<u8>, at: int, units: u32, bytes: Seq<u8>)
    requires
        0 <= at,
        occurs_at(data, written_uleb(units as nat) + bytes + seq![0u8], at),
        forall|i: int| 0 <= i < bytes.len() ==> #[trigger] bytes[i] != 0,
    ensures
        string_data(data, at) == Some(bytes),
{
    let count = written_uleb(units as nat);
    let written = count + bytes + seq![0u8];
    let part = data.subrange(at, at + written.len());
    assert forall|j: int| 0 <= j < written.len() implies #[trigger] data[at + j] == written[j] by {
        assert(part[j] == data[at + j]);
    }
    assert(data.subrange(at, at + count.len()) =~= count) by {
        assert forall|j: int| 0 <= j < count.len() implies data[at + j] == count[j] by {
            assert(written[j] == count[j]);
        }
    }
    law_uleb_reads_back(data, at, units);
    let start = at + count.len();
    let end = start + bytes.len();
    assert forall|j: int| start <= j < end implies #[trigger] data[j] != 0 by {
        assert(data[at + (j - at)] == written[j - at]);
        assert(written[j - at] == bytes[j - start]);
    }
    assert(data[at + (end - at)] == written[end - at]);
    lemma_nul_from(data, start as int, end as int);
    assert(data.subrange(start as int, end as int) =~= bytes) by {
        assert forall|j: int| 0 <= j < bytes.len() implies data[start + j] == bytes[j] by {
            assert(data[at + (count.len() + j)] == written[count.len() + j]);
        }
    }
}

/// A file is read as a DEX file exactly where it starts as one and each of its six tables lies in
/// it, row by row: strings and types of four bytes, prototypes of twelve, fields and methods of
/// eight, classes of thirty-two.
pub proof fn law_every_table_has_to_fit(data: Seq<u8>)
    requires
        0x70 <= data.len(),
    ensures
        dex_error(data) is None <==> {
            &&& data[0] == 0x64 && data[1] == 0x65 && data[2] == 0x78 && data[3] == 0x0A
            &&& le32(data, 0x3C) + 4 * le32(data, 0x38) <= data.len()
            &&& le32(data, 0x44) + 4 * le32(data, 0x40) <= data.len()
            &&& le32(data, 0x4C) + 12 * le32(data, 0x48) <= data.len()
            &&& le32(data, 0x54) + 8 * le32(data, 0x50) <= data.len()
            &&& le32(data, 0x5C) + 8 * le32(data, 0x58) <= data.len()
            &&& le32(data, 0x64) + 32 * le32(data, 0x60) <= data.len()
        },
{
    let part = data.subrange(0, 4);
    assert(part[0] == data[0] && part[1] == data[1] && part[2] == data[2] && part[3] == data[3]);
    if data[0] == 0x64 && data[1] == 0x65 && data[2] == 0x78 && data[3] == 0x0A {
        assert(part =~= dex_magic());
    }
    assert(has_header(data) ==> part == dex_magic());
    assert(dex_magic()[0] == 0x64 && dex_magic()[1] == 0x65 && dex_magic()[2] == 0x78
        && dex_magic()[3] == 0x0A);
}

/// A table that does not lie in the file is the one that is reported, if those before it do.
pub proof fn law_the_first_table_that_does_not_fit_is_reported(data: Seq<u8>, table: Table)
    requires
        dex_error(data) == Some(Error::BadTable { table }),
    ensures
        table_off(data, table) + table_size(data, table) * row_size(table) > data.len(),
{
}

/// A string that was written, and whose place was written into its row, is the string of that row;
/// a row past the last has none.
pub proof fn law_string_row_reads_back(
    data: Seq<u8>,
    index: int,
    place: u32,
    units: u32,
    bytes: Seq<u8>,
)
    requires
        0 <= index,
        occurs_at(data, written32(place), table_off(data, Table::Strings) + 4 * index),
        occurs_at(data, written_uleb(units as nat) + bytes + seq![0u8], place as int),
        forall|i: int| 0 <= i < bytes.len() ==> #[trigger] bytes[i] != 0,
    ensures
        raw_string(data, index) == (if index < table_size(data, Table::Strings) {
            Ok::<Seq<u8>, Error>(bytes)
        } else {
            Err(Error::BadIndex { table: Table::Strings, index: index as usize })
        }),
{
    law_word_reads_back(data, table_off(data, Table::Strings) + 4 * index, place);
    law_string_reads_back(data, place as int, units, bytes);
}

/// The descriptor of a type is the string that its row names; a row past the last has none.
pub proof fn law_type_row_reads_back(data: Seq<u8>, index: int, string: u32)
    requires
        0 <= index,
        occurs_at(data, written32(string), table_off(data, Table::Types) + 4 * index),
    ensures
        raw_type(data, index) == (if index < table_size(data, Table::Types) {
            raw_string(data, string as int)
        } else {
            Err(Error::BadIndex { table: Table::Types, index: index as usize })
        }),
{
    law_word_reads_back(data, table_off(data, Table::Types) + 4 * index, string);
}

} // verus!
