//! String-only DEX prefix reader.
//!
//! A class index or a class lookup needs the header, the id tables that name classes, the
//! class rows and the string data, and nothing after it. This module decodes exactly that
//! much, sharing the full reader's decoding rules, and answers `None` whenever the prefix
//! does not reach far enough so the caller falls back instead of trusting a guess.
use super::mutf8::{
    decode_owned, encode_mutf8, encoded, law_ascii_text_has_one_spelling, plain_ascii, shown,
};
use super::scan::{references_of, RowView};
use super::targets::{kind_table, marked, member_owner, query_kind, row_wanted};
use super::{
    class_text, class_texts, class_type, defines, defines_from, dex_error, has_header,
    law_string_holds_no_nul, lemma_row_inside, nul_from, raw_type, row_at, row_off,
    starts_with_header, string_at, string_data, table_end, table_fits, table_inside, table_off, table_size, texts, uleb_at,
    uleb_from,
};
use crate::bytes::{le32, read_u32};
use crate::error::{Error, Table};
use crate::query::{ClassQuery, ClassQueryView, Query, QueryView};
use crate::search::same_bytes;
use crate::seqs::{collect, lemma_collect_all, lemma_collect_fails, lemma_collect_succeeds};
use vstd::prelude::*;
use vstd::utf8::encode_utf8;

verus! {

/// Whether a prefix holds the header and the tables that name classes, each in full.
pub open spec fn names_tables(prefix: Seq<u8>) -> bool {
    &&& has_header(prefix)
    &&& table_fits(prefix, Table::Strings)
    &&& table_fits(prefix, Table::Types)
    &&& table_fits(prefix, Table::Classes)
}

/// The raw descriptor of a class, when the prefix reaches it.
pub open spec fn reached_class(prefix: Seq<u8>, index: int) -> Option<Seq<u8>> {
    let kind = class_type(prefix, index);
    let string = le32(prefix, row_off(prefix, Table::Types, kind)) as int;
    if kind >= table_size(prefix, Table::Types) || string >= table_size(prefix, Table::Strings) {
        None
    } else {
        string_data(prefix, le32(prefix, row_off(prefix, Table::Strings, string)) as int)
    }
}

/// The text of each class's descriptor, by row, where the prefix reaches it.
pub open spec fn reached_text(prefix: Seq<u8>) -> spec_fn(int) -> Result<Seq<char>, ()> {
    |index: int|
        match reached_class(prefix, index) {
            Some(bytes) => Ok(shown(bytes)),
            None => Err(()),
        }
}

/// The class descriptors of a prefix, or `None` when it does not hold them all.
pub open spec fn prefix_names(prefix: Seq<u8>) -> Option<Seq<Seq<char>>> {
    if !names_tables(prefix) {
        None
    } else {
        match collect(table_size(prefix, Table::Classes), reached_text(prefix)) {
            Ok(names) => Some(names),
            Err(_) => None,
        }
    }
}

/// Whether one of the rows from `index` on defines `descriptor`, or `None` when a row before
/// one that does is out of reach.
pub open spec fn prefix_defines_from(prefix: Seq<u8>, descriptor: Seq<u8>, index: int) -> Option<bool>
    decreases table_size(prefix, Table::Classes) - index,
{
    if index >= table_size(prefix, Table::Classes) {
        Some(false)
    } else {
        match reached_class(prefix, index) {
            None => None,
            Some(bytes) => if bytes == descriptor {
                Some(true)
            } else {
                prefix_defines_from(prefix, descriptor, index + 1)
            },
        }
    }
}

/// Whether a prefix shows that the file defines `descriptor`, or `None` when it cannot tell.
pub open spec fn prefix_defines(prefix: Seq<u8>, descriptor: Seq<u8>) -> Option<bool> {
    if !names_tables(prefix) {
        None
    } else {
        prefix_defines_from(prefix, descriptor, 0)
    }
}

/// The largest string data offset among the first `n` strings.
pub open spec fn last_string(prefix: Seq<u8>, n: int) -> int
    decreases n,
{
    if n <= 0 {
        0
    } else {
        let offset = le32(prefix, row_off(prefix, Table::Strings, n - 1)) as int;
        let before = last_string(prefix, n - 1);
        if offset > before {
            offset
        } else {
            before
        }
    }
}

/// Where the tables that name classes are, once they were found to be in a prefix.
struct NameTables {
    strings_size: usize,
    strings_off: usize,
    types_size: usize,
    types_off: usize,
    classes_size: usize,
    classes_off: usize,
}

spec fn tables_of(prefix: Seq<u8>, tables: NameTables) -> bool {
    &&& tables.strings_size == table_size(prefix, Table::Strings)
    &&& tables.strings_off == table_off(prefix, Table::Strings)
    &&& tables.types_size == table_size(prefix, Table::Types)
    &&& tables.types_off == table_off(prefix, Table::Types)
    &&& tables.classes_size == table_size(prefix, Table::Classes)
    &&& tables.classes_off == table_off(prefix, Table::Classes)
}

/// A number that is in the prefix.
fn word(prefix: &[u8], at: usize) -> (value: usize)
    requires
        at + 4 <= prefix@.len(),
    ensures
        value == le32(prefix@, at as int),
{
    match read_u32(prefix, at) {
        Ok(value) => value as usize,
        Err(_error) => 0,
    }
}

/// The tables that name classes; every one has to be present in full before a single
/// descriptor is trusted.
fn name_tables(prefix: &[u8]) -> (found: Option<NameTables>)
    ensures
        match found {
            Some(tables) => names_tables(prefix@) && tables_of(prefix@, tables),
            None => !names_tables(prefix@),
        },
{
    if !starts_with_header(prefix) {
        return None;
    }
    let tables = NameTables {
        strings_size: word(prefix, 0x38),
        strings_off: word(prefix, 0x3C),
        types_size: word(prefix, 0x40),
        types_off: word(prefix, 0x44),
        classes_size: word(prefix, 0x60),
        classes_off: word(prefix, 0x64),
    };
    let len = prefix.len();
    if table_inside(tables.strings_off, tables.strings_size, 4, len) && table_inside(
        tables.types_off,
        tables.types_size,
        4,
        len,
    ) && table_inside(tables.classes_off, tables.classes_size, 32, len) {
        Some(tables)
    } else {
        None
    }
}

/// The raw descriptor of the class in row `index`, when the prefix reaches it.
fn class_at<'a>(prefix: &'a [u8], tables: &NameTables, index: usize) -> (found: Option<&'a [u8]>)
    requires
        names_tables(prefix@),
        tables_of(prefix@, *tables),
        index < tables.classes_size,
    ensures
        match found {
            Some(bytes) => reached_class(prefix@, index as int) == Some(bytes@),
            None => reached_class(prefix@, index as int) is None,
        },
{
    proof {
        lemma_row_inside(prefix@, Table::Classes, index as int);
    }
    let kind = word(prefix, row_at(prefix, tables.classes_off, index, 32));
    if kind >= tables.types_size {
        return None;
    }
    proof {
        lemma_row_inside(prefix@, Table::Types, kind as int);
    }
    let string = word(prefix, row_at(prefix, tables.types_off, kind, 4));
    if string >= tables.strings_size {
        return None;
    }
    proof {
        lemma_row_inside(prefix@, Table::Strings, string as int);
    }
    string_at(prefix, word(prefix, row_at(prefix, tables.strings_off, string, 4)))
}

/// Class descriptors of `prefix`, or `None` when it is too short to hold them all.
pub fn class_names(prefix: &[u8]) -> (names: Result<Option<Vec<String>>, Error>)
    ensures
        match names {
            Ok(Some(list)) => prefix_names(prefix@) == Some(texts(list@)),
            Ok(None) => prefix_names(prefix@) is None,
            Err(_) => false,
        },
{
    let tables = match name_tables(prefix) {
        Some(tables) => tables,
        None => {
            return Ok(None);
        },
    };
    let mut names: Vec<String> = Vec::new();
    let mut index: usize = 0;
    let ghost f = reached_text(prefix@);
    assert(texts(names@) =~= Seq::empty());
    while index < tables.classes_size
        invariant
            names_tables(prefix@),
            tables_of(prefix@, tables),
            index <= tables.classes_size,
            f == reached_text(prefix@),
            collect(index as int, f) == Ok::<Seq<Seq<char>>, ()>(texts(names@)),
        decreases tables.classes_size - index,
    {
        match class_at(prefix, &tables, index) {
            Some(bytes) => {
                let ghost before = names@;
                names.push(decode_owned(bytes));
                assert(texts(names@) =~= texts(before).push(shown(bytes@)));
            },
            None => {
                proof {
                    lemma_collect_fails(tables.classes_size as int, index as int, f);
                }
                return Ok(None);
            },
        }
        index = index + 1;
    }
    Ok(Some(names))
}

/// The byte just past the string_ids table, from the header alone.
///
/// The table holds one 4-byte offset per string, so this is the smallest read that can
/// answer where the string data ends: the id tables that follow it are needed to *decode* a
/// string, but not to find the last one.
///
/// `None` when the header is not readable or the table's extent overflows.
pub fn string_ids_end(prefix: &[u8]) -> (end: Option<usize>)
    ensures
        match end {
            Some(end) => has_header(prefix@) && end == row_off(
                prefix@,
                Table::Strings,
                table_size(prefix@, Table::Strings),
            ),
            None => !has_header(prefix@) || row_off(
                prefix@,
                Table::Strings,
                table_size(prefix@, Table::Strings),
            ) > usize::MAX,
        },
{
    if !starts_with_header(prefix) {
        return None;
    }
    table_end(word(prefix, 0x3C), word(prefix, 0x38), 4)
}

/// The largest offset of a string data item, or `None` when the string_ids table is not
/// complete yet.
///
/// Every offset in the table is absolute, so the table alone says where the last string data
/// item starts. That is the byte count a caller has to inflate before the descriptors of the
/// classes, types and members it is after can be read - and it is far less than the whole
/// entry, because the code section comes after the string data.
pub fn string_data_end(prefix: &[u8]) -> (end: Option<usize>)
    ensures
        match end {
            Some(end) => has_header(prefix@) && table_fits(prefix@, Table::Strings) && end
                == last_string(prefix@, table_size(prefix@, Table::Strings)),
            None => !has_header(prefix@) || !table_fits(prefix@, Table::Strings),
        },
{
    if !starts_with_header(prefix) {
        return None;
    }
    let size = word(prefix, 0x38);
    let offset = word(prefix, 0x3C);
    if !table_inside(offset, size, 4, prefix.len()) {
        return None;
    }
    let mut end: usize = 0;
    let mut index: usize = 0;
    while index < size
        invariant
            has_header(prefix@),
            table_fits(prefix@, Table::Strings),
            size == table_size(prefix@, Table::Strings),
            offset == table_off(prefix@, Table::Strings),
            index <= size,
            end == last_string(prefix@, index as int),
        decreases size - index,
    {
        proof {
            lemma_row_inside(prefix@, Table::Strings, index as int);
        }
        let at = word(prefix, row_at(prefix, offset, index, 4));
        if at > end {
            end = at;
        }
        index = index + 1;
    }
    Some(end)
}

/// Whether `prefix` shows that this DEX defines `descriptor`, or `None` when the prefix
/// cannot answer.
pub fn defines_class(prefix: &[u8], descriptor: &[u8]) -> (found: Result<Option<bool>, Error>)
    ensures
        found == Ok::<Option<bool>, Error>(prefix_defines(prefix@, descriptor@)),
{
    let tables = match name_tables(prefix) {
        Some(tables) => tables,
        None => {
            return Ok(None);
        },
    };
    let mut index: usize = 0;
    while index < tables.classes_size
        invariant
            names_tables(prefix@),
            tables_of(prefix@, tables),
            index <= tables.classes_size,
            prefix_defines_from(prefix@, descriptor@, 0) == prefix_defines_from(
                prefix@,
                descriptor@,
                index as int,
            ),
        decreases tables.classes_size - index,
    {
        match class_at(prefix, &tables, index) {
            Some(bytes) => {
                if same_bytes(bytes, descriptor) {
                    return Ok(Some(true));
                }
            },
            None => {
                return Ok(None);
            },
        }
        index = index + 1;
    }
    Ok(Some(false))
}

/// The raw descriptor of a type, when the prefix reaches it.
pub open spec fn reached_type(prefix: Seq<u8>, index: int) -> Option<Seq<u8>> {
    let string = le32(prefix, row_off(prefix, Table::Types, index)) as int;
    if string >= table_size(prefix, Table::Strings) {
        None
    } else {
        string_data(prefix, le32(prefix, row_off(prefix, Table::Strings, string)) as int)
    }
}

/// Whether one of the types from `index` on has the given descriptor, or `None` when a type
/// before one that does is out of reach.
pub open spec fn prefix_types_from(prefix: Seq<u8>, descriptor: Seq<u8>, index: int) -> Option<bool>
    decreases table_size(prefix, Table::Types) - index,
{
    if index >= table_size(prefix, Table::Types) {
        Some(false)
    } else {
        match reached_type(prefix, index) {
            None => None,
            Some(bytes) => if bytes == descriptor {
                Some(true)
            } else {
                prefix_types_from(prefix, descriptor, index + 1)
            },
        }
    }
}

/// Whether a prefix shows that the file has a type with the given descriptor, or `None` when it
/// cannot tell.
pub open spec fn prefix_types(prefix: Seq<u8>, descriptor: Seq<u8>) -> Option<bool> {
    if !names_tables(prefix) {
        None
    } else {
        prefix_types_from(prefix, descriptor, 0)
    }
}

/// Whether a prefix shows that the file may hold a target of a query: of one that names a class
/// exactly, a file without that type holds none. `None` when it cannot tell.
pub open spec fn prefix_targets(prefix: Seq<u8>, query: QueryView) -> Option<bool> {
    match named_class(query) {
        Some(descriptor) => prefix_types(prefix, encoded(descriptor)),
        None => None,
    }
}

/// The class that a query names exactly, if it does.
pub open spec fn named_class(query: QueryView) -> Option<Seq<char>> {
    let class = match query {
        QueryView::Method(member) => member.class,
        QueryView::Field(member) => member.class,
        _ => None,
    };
    match class {
        Some(ClassQueryView::Exact(descriptor)) => Some(descriptor),
        _ => None,
    }
}

/// The raw descriptor of the type with the given index, when the prefix reaches it.
fn type_at<'a>(prefix: &'a [u8], tables: &NameTables, index: usize) -> (found: Option<&'a [u8]>)
    requires
        names_tables(prefix@),
        tables_of(prefix@, *tables),
        index < tables.types_size,
    ensures
        match found {
            Some(bytes) => reached_type(prefix@, index as int) == Some(bytes@),
            None => reached_type(prefix@, index as int) is None,
        },
{
    proof {
        lemma_row_inside(prefix@, Table::Types, index as int);
    }
    let string = word(prefix, row_at(prefix, tables.types_off, index, 4));
    if string >= tables.strings_size {
        return None;
    }
    proof {
        lemma_row_inside(prefix@, Table::Strings, string as int);
    }
    string_at(prefix, word(prefix, row_at(prefix, tables.strings_off, string, 4)))
}

/// Whether `prefix` shows that this DEX may hold a target of a query, or `None` when the prefix
/// cannot answer.
///
/// Only a query that names one class by its full descriptor is answered: every member it can
/// match belongs to that class, and a DEX without the descriptor cannot hold one.
pub fn prefix_has_targets(prefix: &[u8], query: &Query) -> (answer: Result<Option<bool>, Error>)
    ensures
        answer == Ok::<Option<bool>, Error>(prefix_targets(prefix@, query@)),
{
    let class = match query {
        Query::Method(member) => &member.class,
        Query::Field(member) => &member.class,
        _ => {
            return Ok(None);
        },
    };
    let descriptor = match class {
        Some(ClassQuery::Exact(descriptor)) => encode_mutf8(descriptor.as_str()),
        _ => {
            return Ok(None);
        },
    };
    let tables = match name_tables(prefix) {
        Some(tables) => tables,
        None => {
            return Ok(None);
        },
    };
    let mut index: usize = 0;
    while index < tables.types_size
        invariant
            names_tables(prefix@),
            tables_of(prefix@, tables),
            named_class(query@) matches Some(name) && descriptor@ == encoded(name),
            index <= tables.types_size,
            prefix_types_from(prefix@, descriptor@, 0) == prefix_types_from(
                prefix@,
                descriptor@,
                index as int,
            ),
        decreases tables.types_size - index,
    {
        match type_at(prefix, &tables, index) {
            Some(bytes) => {
                if same_bytes(bytes, descriptor.as_slice()) {
                    return Ok(Some(true));
                }
            },
            None => {
                return Ok(None);
            },
        }
        index = index + 1;
    }
    Ok(Some(false))
}

/// A prefix reads as the whole does.
proof fn lemma_prefix_words(prefix: Seq<u8>, data: Seq<u8>)
    requires
        prefix.is_prefix_of(data),
    ensures
        forall|at: int|
            0 <= at && at + 4 <= prefix.len() ==> #[trigger] le32(prefix, at) == le32(data, at),
        has_header(prefix) ==> has_header(data),
{
    assert forall|i: int| 0 <= i < prefix.len() implies #[trigger] prefix[i] == data[i] by {}
    if has_header(prefix) {
        assert(data.subrange(0, 4) =~= prefix.subrange(0, 4));
    }
}

proof fn lemma_prefix_uleb(prefix: Seq<u8>, data: Seq<u8>, at: int, done: int)
    requires
        prefix.is_prefix_of(data),
        0 <= at,
        uleb_from(prefix, at, done) is Some,
    ensures
        uleb_from(data, at, done) == uleb_from(prefix, at, done),
        (uleb_from(prefix, at, done)->0).1 > at,
    decreases 5 - done,
{
    assert(prefix[at] == data[at]);
    if prefix[at] >= 0x80 {
        lemma_prefix_uleb(prefix, data, at + 1, done + 1);
    }
}

proof fn lemma_prefix_nul(prefix: Seq<u8>, data: Seq<u8>, at: int)
    requires
        prefix.is_prefix_of(data),
        0 <= at,
        nul_from(prefix, at) < prefix.len(),
    ensures
        at <= nul_from(prefix, at),
        nul_from(data, at) == nul_from(prefix, at),
    decreases prefix.len() - at,
{
    assert(prefix[at] == data[at]);
    if prefix[at] != 0 {
        lemma_prefix_nul(prefix, data, at + 1);
    }
}

/// A string that a prefix holds is the one the file holds.
pub proof fn law_reached_string_is_exact(prefix: Seq<u8>, data: Seq<u8>, at: int)
    requires
        prefix.is_prefix_of(data),
        0 <= at,
        string_data(prefix, at) is Some,
    ensures
        string_data(data, at) == string_data(prefix, at),
{
    lemma_prefix_uleb(prefix, data, at, 0);
    let start = (uleb_at(prefix, at)->0).1;
    lemma_prefix_nul(prefix, data, start);
    assert(prefix.subrange(start, nul_from(prefix, start)) =~= data.subrange(
        start,
        nul_from(prefix, start),
    ));
}

proof fn lemma_reached_class(prefix: Seq<u8>, data: Seq<u8>, index: int)
    requires
        prefix.is_prefix_of(data),
        names_tables(prefix),
        0 <= index < table_size(prefix, Table::Classes),
        reached_class(prefix, index) is Some,
    ensures
        table_size(data, Table::Classes) == table_size(prefix, Table::Classes),
        raw_type(data, class_type(data, index)) == Ok::<Seq<u8>, Error>(
            reached_class(prefix, index)->0,
        ),
{
    lemma_prefix_words(prefix, data);
    lemma_row_inside(prefix, Table::Classes, index);
    let kind = class_type(prefix, index);
    lemma_row_inside(prefix, Table::Types, kind);
    let string = le32(prefix, row_off(prefix, Table::Types, kind)) as int;
    lemma_row_inside(prefix, Table::Strings, string);
    law_reached_string_is_exact(
        prefix,
        data,
        le32(prefix, row_off(prefix, Table::Strings, string)) as int,
    );
}

/// The class names a prefix answers with are those of the whole file.
pub proof fn law_prefix_names_are_exact(prefix: Seq<u8>, data: Seq<u8>)
    requires
        prefix.is_prefix_of(data),
        dex_error(data) is None,
        prefix_names(prefix) is Some,
    ensures
        class_texts(data) == Ok::<Seq<Seq<char>>, Error>(prefix_names(prefix)->0),
{
    lemma_prefix_words(prefix, data);
    let n = table_size(prefix, Table::Classes);
    let names = prefix_names(prefix)->0;
    lemma_collect_succeeds(n, reached_text(prefix));
    assert forall|i: int| 0 <= i < n implies (class_text(data))(i) == Ok::<Seq<char>, Error>(
        #[trigger] names[i],
    ) by {
        assert((reached_text(prefix))(i) == Ok::<Seq<char>, ()>(names[i]));
        lemma_reached_class(prefix, data, i);
    }
    lemma_collect_all(n, class_text(data), names);
}

/// The rows that a prefix answers a lookup from are those of the whole file.
pub(crate) proof fn lemma_prefix_defines_from(prefix: Seq<u8>, data: Seq<u8>, descriptor: Seq<u8>, index: int)
    requires
        prefix.is_prefix_of(data),
        names_tables(prefix),
        0 <= index,
        prefix_defines_from(prefix, descriptor, index) is Some,
    ensures
        defines_from(data, descriptor, index) == Ok::<bool, Error>(
            prefix_defines_from(prefix, descriptor, index)->0,
        ),
    decreases table_size(prefix, Table::Classes) - index,
{
    lemma_prefix_words(prefix, data);
    if index < table_size(prefix, Table::Classes) {
        lemma_reached_class(prefix, data, index);
        if reached_class(prefix, index)->0 != descriptor {
            lemma_prefix_defines_from(prefix, data, descriptor, index + 1);
        }
    }
}

/// What a prefix answers to a class lookup is what the whole file answers.
pub proof fn law_prefix_lookup_is_exact(prefix: Seq<u8>, data: Seq<u8>, descriptor: Seq<u8>)
    requires
        prefix.is_prefix_of(data),
        dex_error(data) is None,
        prefix_defines(prefix, descriptor) is Some,
    ensures
        defines(data, descriptor) == Ok::<bool, Error>(prefix_defines(prefix, descriptor)->0),
{
    lemma_prefix_defines_from(prefix, data, descriptor, 0);
}

proof fn lemma_last_string(prefix: Seq<u8>, data: Seq<u8>, n: int)
    requires
        prefix.is_prefix_of(data),
        has_header(prefix),
        table_fits(prefix, Table::Strings),
        n <= table_size(prefix, Table::Strings),
    ensures
        last_string(data, n) == last_string(prefix, n),
    decreases n,
{
    lemma_prefix_words(prefix, data);
    if n > 0 {
        lemma_row_inside(prefix, Table::Strings, n - 1);
        lemma_last_string(prefix, data, n - 1);
    }
}

/// A prefix that holds the string table says of the string data what the whole file says.
pub proof fn law_prefix_sizes_are_exact(prefix: Seq<u8>, data: Seq<u8>)
    requires
        prefix.is_prefix_of(data),
        has_header(prefix),
        table_fits(prefix, Table::Strings),
    ensures
        has_header(data),
        table_fits(data, Table::Strings),
        table_size(data, Table::Strings) == table_size(prefix, Table::Strings),
        row_off(data, Table::Strings, table_size(data, Table::Strings)) == row_off(
            prefix,
            Table::Strings,
            table_size(prefix, Table::Strings),
        ),
        last_string(data, table_size(data, Table::Strings)) == last_string(
            prefix,
            table_size(prefix, Table::Strings),
        ),
{
    lemma_prefix_words(prefix, data);
    lemma_last_string(prefix, data, table_size(prefix, Table::Strings));
}

proof fn lemma_prefix_types_from(
    prefix: Seq<u8>,
    data: Seq<u8>,
    descriptor: Seq<u8>,
    index: int,
    kind: int,
)
    requires
        prefix.is_prefix_of(data),
        names_tables(prefix),
        0 <= index <= kind < table_size(prefix, Table::Types),
        prefix_types_from(prefix, descriptor, index) == Some(false),
    ensures
        table_size(data, Table::Types) == table_size(prefix, Table::Types),
        raw_type(data, kind) is Ok,
        raw_type(data, kind)->Ok_0 != descriptor,
    decreases table_size(prefix, Table::Types) - index,
{
    lemma_prefix_words(prefix, data);
    if index < kind {
        lemma_prefix_types_from(prefix, data, descriptor, index + 1, kind);
    } else {
        lemma_row_inside(prefix, Table::Types, kind);
        let string = le32(prefix, row_off(prefix, Table::Types, kind)) as int;
        lemma_row_inside(prefix, Table::Strings, string);
        law_reached_string_is_exact(
            prefix,
            data,
            le32(prefix, row_off(prefix, Table::Strings, string)) as int,
        );
    }
}

proof fn lemma_nothing_marked(marks: Seq<bool>)
    requires
        forall|i: int| 0 <= i < marks.len() ==> !#[trigger] marks[i],
    ensures
        marked(marks) == Seq::<u32>::empty(),
    decreases marks.len(),
{
    if marks.len() > 0 {
        assert(!marks[marks.len() - 1]);
        lemma_nothing_marked(marks.drop_last());
    }
}

/// A file that is skipped because its prefix shows no target holds none: scanning it whole finds
/// no row.
pub proof fn law_skipped_file_has_no_rows(prefix: Seq<u8>, data: Seq<u8>, query: QueryView)
    requires
        prefix.is_prefix_of(data),
        prefix_targets(prefix, query) == Some(false),
        references_of(data, query) is Ok,
    ensures
        references_of(data, query) == Ok::<Seq<RowView>, Error>(Seq::empty()),
{
    lemma_prefix_words(prefix, data);
    let descriptor = encoded(named_class(query)->0);
    let f = row_wanted(data, query);
    let n = table_size(data, kind_table(query_kind(query)));
    let marks = collect(n, f)->Ok_0;
    lemma_collect_succeeds(n, f);
    let table = kind_table(query_kind(query));
    assert forall|i: int| 0 <= i < marks.len() implies !#[trigger] marks[i] by {
        assert(f(i) == Ok::<bool, Error>(marks[i]));
        let owner = member_owner(data, table, i);
        assert(raw_type(data, owner) is Ok);
        lemma_prefix_types_from(prefix, data, descriptor, 0, owner);
    }
    lemma_nothing_marked(marks);
}

proof fn lemma_prefix_defines_named(
    prefix: Seq<u8>,
    descriptor: Seq<char>,
    names: Seq<Seq<char>>,
    index: int,
)
    requires
        prefix_names(prefix) == Some(names),
        plain_ascii(descriptor),
        0 <= index <= names.len(),
    ensures
        prefix_defines_from(prefix, encode_utf8(descriptor), index) == Some(
            names.skip(index).contains(descriptor),
        ),
    decreases names.len() - index,
{
    let n = table_size(prefix, Table::Classes);
    lemma_collect_succeeds(n, reached_text(prefix));
    let rest = names.skip(index);
    if index < n {
        assert((reached_text(prefix))(index) == Ok::<Seq<char>, ()>(names[index]));
        let raw = reached_class(prefix, index)->0;
        let string = le32(prefix, row_off(prefix, Table::Types, class_type(prefix, index))) as int;
        law_string_holds_no_nul(prefix, le32(prefix, row_off(prefix, Table::Strings, string)) as int);
        law_ascii_text_has_one_spelling(raw, descriptor);
        lemma_prefix_defines_named(prefix, descriptor, names, index + 1);
        let later = names.skip(index + 1);
        assert(rest[0] == names[index]);
        if later.contains(descriptor) {
            let k = choose|k: int| 0 <= k < later.len() && later[k] == descriptor;
            assert(rest[k + 1] == descriptor);
        }
        if rest.contains(descriptor) && names[index] != descriptor {
            let k = choose|k: int| 0 <= k < rest.len() && rest[k] == descriptor;
            assert(later[k - 1] == descriptor);
        }
    }
}

/// A prefix that names all its classes defines a class with an ASCII descriptor exactly when it
/// names it, although one goes by bytes and the other by text.
pub proof fn law_prefix_lookup_agrees_with_the_names(
    prefix: Seq<u8>,
    descriptor: Seq<char>,
    names: Seq<Seq<char>>,
)
    requires
        prefix_names(prefix) == Some(names),
        plain_ascii(descriptor),
    ensures
        prefix_defines(prefix, encode_utf8(descriptor)) == Some(names.contains(descriptor)),
{
    lemma_prefix_defines_named(prefix, descriptor, names, 0);
    assert(names.skip(0) =~= names);
}

} // verus!
