//! The rows of a file's tables that a query is about.
//!
//! Queries are literal: a value is looked for as a substring of the table's own bytes, a member
//! name has to be the whole name, and a class is named exactly or by a substring.
use super::code::ReferenceKind;
use super::mutf8::{all_ascii, decoded_from, encode_mutf8, encoded, shown};
use super::mutf8::{
    law_decoding_is_canonical, law_encoding_decodes_back, law_shortcut_agrees_with_the_decoder,
};
use super::{
    law_string_holds_no_nul, lemma_nul_from, lemma_row_inside, raw_string, raw_type, row_at, row_off, shown_result, table_size,
    text_outcome, Dex,
};
use crate::bytes::{le16, le32, read_u16};
use crate::error::{Error, Table};
use crate::query::{ClassQuery, ClassQueryView, MemberQuery, MemberQueryView, Query, QueryView};
use crate::search::same_bytes;
use crate::seqs::{collect, lemma_collect_fails, lemma_collect_succeeds, occurs, occurs_at};
use crate::text::lemma_cut;
use vstd::prelude::*;

verus! {

/// Which references a query looks for.
pub open spec fn query_kind(query: QueryView) -> ReferenceKind {
    match query {
        QueryView::String(_) => ReferenceKind::String,
        QueryView::Type(_) => ReferenceKind::Type,
        QueryView::Method(_) => ReferenceKind::Method,
        QueryView::Field(_) => ReferenceKind::Field,
    }
}

/// The table that the references of a kind name rows of.
pub open spec fn kind_table(kind: ReferenceKind) -> Table {
    match kind {
        ReferenceKind::String => Table::Strings,
        ReferenceKind::Type => Table::Types,
        ReferenceKind::Field => Table::Fields,
        ReferenceKind::Method => Table::Methods,
    }
}

/// Whether a class constraint admits a class with the given raw descriptor.
pub open spec fn admits(class: ClassQueryView, raw: Seq<u8>) -> bool {
    match class {
        ClassQueryView::Exact(descriptor) => raw == encoded(descriptor),
        ClassQueryView::Fuzzy(pattern) => occurs(raw, encoded(pattern)),
    }
}

/// The type index of the class that a member belongs to.
pub open spec fn member_owner(data: Seq<u8>, table: Table, index: int) -> int {
    le16(data, row_off(data, table, index)) as int
}

/// The string index of the name of a member.
pub open spec fn member_name_idx(data: Seq<u8>, table: Table, index: int) -> int {
    le32(data, row_off(data, table, index) + 4) as int
}

/// Whether the member in a row is one that a query is about.
pub open spec fn member_wanted(data: Seq<u8>, table: Table, index: int, query: MemberQueryView) -> Result<
    bool,
    Error,
> {
    match class_wanted(data, table, index, query.class) {
        Err(error) => Err(error),
        Ok(false) => Ok(false),
        Ok(true) => match query.name {
            None => Ok(true),
            Some(name) => match raw_string(data, member_name_idx(data, table, index)) {
                Err(error) => Err(error),
                Ok(raw) => Ok(raw == encoded(name)),
            },
        },
    }
}

/// Whether the class of the member in a row is one that a query admits.
pub open spec fn class_wanted(
    data: Seq<u8>,
    table: Table,
    index: int,
    class: Option<ClassQueryView>,
) -> Result<bool, Error> {
    match class {
        None => Ok(true),
        Some(class) => match raw_type(data, member_owner(data, table, index)) {
            Err(error) => Err(error),
            Ok(raw) => Ok(admits(class, raw)),
        },
    }
}

/// Whether the row with the given index is one that a query is about, by index.
pub open spec fn row_wanted(data: Seq<u8>, query: QueryView) -> spec_fn(int) -> Result<bool, Error> {
    |index: int|
        match query {
            QueryView::String(value) => match raw_string(data, index) {
                Err(error) => Err(error),
                Ok(raw) => Ok(occurs(raw, encoded(value))),
            },
            QueryView::Type(value) => match raw_type(data, index) {
                Err(error) => Err(error),
                Ok(raw) => Ok(occurs(raw, encoded(value))),
            },
            QueryView::Method(member) => member_wanted(data, Table::Methods, index, member),
            QueryView::Field(member) => member_wanted(data, Table::Fields, index, member),
        }
}

/// The indices that are marked.
pub open spec fn marked(marks: Seq<bool>) -> Seq<u32>
    decreases marks.len(),
{
    if marks.len() == 0 {
        Seq::empty()
    } else if marks.last() {
        marked(marks.drop_last()).push((marks.len() - 1) as u32)
    } else {
        marked(marks.drop_last())
    }
}

/// The rows of a file that a query is about, in the order of their table.
pub open spec fn query_targets(data: Seq<u8>, query: QueryView) -> Result<Seq<u32>, Error> {
    match collect(table_size(data, kind_table(query_kind(query))), row_wanted(data, query)) {
        Err(error) => Err(error),
        Ok(marks) => Ok(marked(marks)),
    }
}

/// Whether `needle` stands anywhere in `hay`.
fn holds(hay: &[u8], needle: &Vec<u8>) -> (found: bool)
    ensures
        found == occurs(hay@, needle@),
{
    match memchr::memmem::find(hay, needle.as_slice()) {
        Some(_at) => true,
        None => false,
    }
}

/// A query with its texts as a file has them.
enum Needle {
    String(Vec<u8>),
    Type(Vec<u8>),
    Member(Table, Option<Vec<u8>>, Option<ClassNeedle>),
}

enum ClassNeedle {
    Exact(Vec<u8>),
    Fuzzy(Vec<u8>),
}

impl ClassNeedle {
    spec fn is_of(&self, class: ClassQueryView) -> bool {
        match (self, class) {
            (ClassNeedle::Exact(raw), ClassQueryView::Exact(text)) => raw@ == encoded(text),
            (ClassNeedle::Fuzzy(raw), ClassQueryView::Fuzzy(text)) => raw@ == encoded(text),
            _ => false,
        }
    }
}

spec fn class_is_of(needle: Option<ClassNeedle>, class: Option<ClassQueryView>) -> bool {
    match (needle, class) {
        (Some(needle), Some(class)) => needle.is_of(class),
        (None, None) => true,
        _ => false,
    }
}

spec fn name_is_of(needle: Option<Vec<u8>>, name: Option<Seq<char>>) -> bool {
    match (needle, name) {
        (Some(raw), Some(text)) => raw@ == encoded(text),
        (None, None) => true,
        _ => false,
    }
}

impl Needle {
    spec fn is_of(&self, query: QueryView) -> bool {
        match (self, query) {
            (Needle::String(raw), QueryView::String(text)) => raw@ == encoded(text),
            (Needle::Type(raw), QueryView::Type(text)) => raw@ == encoded(text),
            (Needle::Member(table, name, class), QueryView::Method(member)) => *table
                == Table::Methods && name_is_of(*name, member.name) && class_is_of(
                *class,
                member.class,
            ),
            (Needle::Member(table, name, class), QueryView::Field(member)) => *table
                == Table::Fields && name_is_of(*name, member.name) && class_is_of(
                *class,
                member.class,
            ),
            _ => false,
        }
    }

    fn of(query: &Query) -> (needle: Needle)
        ensures
            needle.is_of(query@),
    {
        match query {
            Query::String(value) => Needle::String(encode_mutf8(value.as_str())),
            Query::Type(value) => Needle::Type(encode_mutf8(value.as_str())),
            Query::Method(member) => Needle::member(Table::Methods, member),
            Query::Field(member) => Needle::member(Table::Fields, member),
        }
    }

    fn member(table: Table, member: &MemberQuery) -> (needle: Needle)
        ensures
            needle matches Needle::Member(of, name, class) && of == table && name_is_of(
                name,
                member@.name,
            ) && class_is_of(class, member@.class),
    {
        let name = match &member.name {
            Some(name) => Some(encode_mutf8(name.as_str())),
            None => None,
        };
        let class = match &member.class {
            Some(ClassQuery::Exact(text)) => Some(ClassNeedle::Exact(encode_mutf8(text.as_str()))),
            Some(ClassQuery::Fuzzy(text)) => Some(ClassNeedle::Fuzzy(encode_mutf8(text.as_str()))),
            None => None,
        };
        Needle::Member(table, name, class)
    }
}

/// The size of a table of members.
fn members_size(dex: &Dex<'_>, table: Table) -> (size: usize)
    requires
        dex.valid(),
        table == Table::Fields || table == Table::Methods,
    ensures
        size == table_size(dex.data@, table),
{
    match table {
        Table::Fields => dex.header.fields_size,
        _ => dex.header.methods_size,
    }
}

/// Where the row of a member is.
fn member_at(dex: &Dex<'_>, table: Table, index: usize) -> (at: usize)
    requires
        dex.valid(),
        table == Table::Fields || table == Table::Methods,
        index < table_size(dex.data@, table),
    ensures
        at == row_off(dex.data@, table, index as int),
        at + 8 <= dex.data@.len(),
{
    proof {
        lemma_row_inside(dex.data@, table, index as int);
    }
    match table {
        Table::Fields => row_at(dex.data, dex.header.fields_off, index, 8),
        _ => row_at(dex.data, dex.header.methods_off, index, 8),
    }
}

/// The type index of the class that a member belongs to.
pub fn owner_of(dex: &Dex<'_>, table: Table, index: usize) -> (owner: usize)
    requires
        dex.valid(),
        table == Table::Fields || table == Table::Methods,
        index < table_size(dex.data@, table),
    ensures
        owner == member_owner(dex.data@, table, index as int),
{
    let at = member_at(dex, table, index);
    match read_u16(dex.data, at) {
        Ok(owner) => owner as usize,
        Err(_error) => 0,
    }
}

/// The string index of the name of a member.
pub fn name_of(dex: &Dex<'_>, table: Table, index: usize) -> (name: usize)
    requires
        dex.valid(),
        table == Table::Fields || table == Table::Methods,
        index < table_size(dex.data@, table),
    ensures
        name == member_name_idx(dex.data@, table, index as int),
{
    let at = member_at(dex, table, index);
    let _len: usize = dex.data.len();
    match dex.u32(at + 4) {
        Ok(name) => name as usize,
        Err(_error) => 0,
    }
}

/// Whether a member is one that a query is about.
fn wants_member(
    dex: &Dex<'_>,
    table: Table,
    index: usize,
    name: &Option<Vec<u8>>,
    class: &Option<ClassNeedle>,
    Ghost(query): Ghost<MemberQueryView>,
) -> (wanted: Result<bool, Error>)
    requires
        dex.valid(),
        table == Table::Fields || table == Table::Methods,
        index < table_size(dex.data@, table),
        name_is_of(*name, query.name),
        class_is_of(*class, query.class),
    ensures
        wanted == member_wanted(dex.data@, table, index as int, query),
{
    if let Some(class) = class {
        let raw = match dex.raw_type(owner_of(dex, table, index)) {
            Ok(raw) => raw,
            Err(error) => {
                return Err(error);
            },
        };
        let admitted = match class {
            ClassNeedle::Exact(descriptor) => same_bytes(raw, descriptor.as_slice()),
            ClassNeedle::Fuzzy(pattern) => holds(raw, pattern),
        };
        if !admitted {
            return Ok(false);
        }
    }
    match name {
        None => Ok(true),
        Some(name) => match dex.raw_string(name_of(dex, table, index)) {
            Ok(raw) => Ok(same_bytes(raw, name.as_slice())),
            Err(error) => Err(error),
        },
    }
}

/// Whether a row is one that a query is about.
fn wants_row(dex: &Dex<'_>, index: usize, needle: &Needle, Ghost(query): Ghost<QueryView>) -> (wanted:
    Result<bool, Error>)
    requires
        dex.valid(),
        needle.is_of(query),
        index < table_size(dex.data@, kind_table(query_kind(query))),
    ensures
        wanted == (row_wanted(dex.data@, query))(index as int),
{
    match needle {
        Needle::String(value) => match dex.raw_string(index) {
            Ok(raw) => Ok(holds(raw, value)),
            Err(error) => Err(error),
        },
        Needle::Type(value) => match dex.raw_type(index) {
            Ok(raw) => Ok(holds(raw, value)),
            Err(error) => Err(error),
        },
        Needle::Member(table, name, class) => {
            let ghost member = match query {
                QueryView::Method(member) => member,
                QueryView::Field(member) => member,
                _ => arbitrary(),
            };
            wants_member(dex, *table, index, name, class, Ghost(member))
        },
    }
}

/// Which references a query looks for.
pub fn kind_of(query: &Query) -> (kind: ReferenceKind)
    ensures
        kind == query_kind(query@),
{
    match query {
        Query::String(_) => ReferenceKind::String,
        Query::Type(_) => ReferenceKind::Type,
        Query::Method(_) => ReferenceKind::Method,
        Query::Field(_) => ReferenceKind::Field,
    }
}

impl<'a> Dex<'a> {
    /// The size of the table that the references of a kind name rows of.
    fn kind_size(&self, kind: ReferenceKind) -> (size: usize)
        requires
            self.valid(),
        ensures
            size == table_size(self.data@, kind_table(kind)),
            size <= u32::MAX,
    {
        match kind {
            ReferenceKind::String => self.header.strings_size,
            ReferenceKind::Type => self.header.types_size,
            ReferenceKind::Field => self.header.fields_size,
            ReferenceKind::Method => self.header.methods_size,
        }
    }

    /// The rows of this file that a query is about, in the order of their table.
    pub fn resolve_targets(&self, query: &Query) -> (targets: Result<
        (ReferenceKind, Vec<u32>),
        Error,
    >)
        requires
            self.valid(),
        ensures
            match targets {
                Ok(found) => found.0 == query_kind(query@) && query_targets(self.data@, query@)
                    == Ok::<Seq<u32>, Error>(found.1@),
                Err(error) => query_targets(self.data@, query@) == Err::<Seq<u32>, Error>(error),
            },
    {
        let kind = kind_of(query);
        let needle = Needle::of(query);
        let size = self.kind_size(kind);
        let ghost f = row_wanted(self.data@, query@);
        let ghost mut marks: Seq<bool> = Seq::empty();
        let mut found: Vec<u32> = Vec::new();
        let mut index: usize = 0;
        while index < size
            invariant
                self.valid(),
                needle.is_of(query@),
                size == table_size(self.data@, kind_table(query_kind(query@))),
                size <= u32::MAX,
                f == row_wanted(self.data@, query@),
                index <= size,
                marks.len() == index,
                collect(index as int, f) == Ok::<Seq<bool>, Error>(marks),
                found@ == marked(marks),
            decreases size - index,
        {
            match wants_row(self, index, &needle, Ghost(query@)) {
                Ok(wanted) => {
                    proof {
                        let before = marks;
                        marks = marks.push(wanted);
                        assert(marks.drop_last() =~= before);
                    }
                    if wanted {
                        found.push(index as u32);
                    }
                },
                Err(error) => {
                    proof {
                        lemma_collect_fails(size as int, index as int, f);
                    }
                    return Err(error);
                },
            }
            index = index + 1;
        }
        Ok((kind, found))
    }
}

/// How a row of the given kind is shown.
pub open spec fn target_text(data: Seq<u8>, kind: ReferenceKind, index: int) -> Result<Seq<char>, Error> {
    match kind {
        ReferenceKind::String => shown_result(raw_string(data, index)),
        ReferenceKind::Type => shown_result(raw_type(data, index)),
        ReferenceKind::Field => member_text(data, Table::Fields, index),
        ReferenceKind::Method => member_text(data, Table::Methods, index),
    }
}

/// A member as `Lcls;->name`.
pub open spec fn member_text(data: Seq<u8>, table: Table, index: int) -> Result<Seq<char>, Error> {
    if index >= table_size(data, table) {
        Err(Error::BadIndex { table, index: index as usize })
    } else {
        match shown_result(raw_type(data, member_owner(data, table, index))) {
            Err(error) => Err(error),
            Ok(class) => match shown_result(
                raw_string(data, member_name_idx(data, table, index)),
            ) {
                Err(error) => Err(error),
                Ok(name) => Ok(class + "->"@ + name),
            },
        }
    }
}

impl<'a> Dex<'a> {
    /// A member as `Lcls;->name`.
    pub fn show_member(&self, table: Table, index: usize) -> (text: Result<String, Error>)
        requires
            self.valid(),
            table == Table::Fields || table == Table::Methods,
        ensures
            text_outcome(text) == member_text(self.data@, table, index as int),
    {
        if index >= members_size(self, table) {
            return Err(Error::BadIndex { table, index });
        }
        let mut text = match self.type_text(owner_of(self, table, index)) {
            Ok(class) => class,
            Err(error) => {
                return Err(error);
            },
        };
        match self.string(name_of(self, table, index)) {
            Ok(name) => {
                text.push_str("->");
                text.push_str(name.as_str());
                Ok(text)
            },
            Err(error) => Err(error),
        }
    }

    /// How a row of the given kind is shown.
    pub fn show_target(&self, kind: ReferenceKind, index: u32) -> (text: Result<String, Error>)
        requires
            self.valid(),
        ensures
            text_outcome(text) == target_text(self.data@, kind, index as int),
    {
        match kind {
            ReferenceKind::String => self.string(index as usize),
            ReferenceKind::Type => self.type_text(index as usize),
            ReferenceKind::Field => self.show_member(Table::Fields, index as usize),
            ReferenceKind::Method => self.show_member(Table::Methods, index as usize),
        }
    }
}

proof fn lemma_marked(marks: Seq<bool>)
    requires
        marks.len() <= u32::MAX,
    ensures
        forall|k: int|
            0 <= k < marked(marks).len() ==> (#[trigger] marked(marks)[k]) < marks.len()
                && marks[marked(marks)[k] as int],
        forall|i: int| 0 <= i < marks.len() && #[trigger] marks[i] ==> marked(marks).contains(i as u32),
    decreases marks.len(),
{
    if marks.len() > 0 {
        let front = marks.drop_last();
        lemma_marked(front);
        let all = marked(marks);
        let before = marked(front);
        assert forall|k: int| 0 <= k < all.len() implies (#[trigger] all[k]) < marks.len()
            && marks[all[k] as int] by {
            if k < before.len() {
                assert(all[k] == before[k]);
                assert(front[before[k] as int]);
            }
        }
        assert forall|i: int| 0 <= i < marks.len() && #[trigger] marks[i] implies all.contains(
            i as u32,
        ) by {
            if i < front.len() {
                assert(front[i]);
                assert(before.contains(i as u32));
                let k = choose|k: int| 0 <= k < before.len() && before[k] == i as u32;
                assert(all[k] == i as u32);
            } else {
                assert(all[all.len() - 1] == i as u32);
            }
        }
    }
}

/// The targets of a query are exactly the rows that it is about.
pub proof fn law_targets_are_the_wanted_rows(data: Seq<u8>, query: QueryView, index: u32)
    requires
        query_targets(data, query) is Ok,
    ensures
        query_targets(data, query)->Ok_0.contains(index) <==> index < table_size(
            data,
            kind_table(query_kind(query)),
        ) && (row_wanted(data, query))(index as int) == Ok::<bool, Error>(true),
{
    let n = table_size(data, kind_table(query_kind(query)));
    let f = row_wanted(data, query);
    let marks = collect(n, f)->Ok_0;
    lemma_collect_succeeds(n, f);
    lemma_marked(marks);
    if index < n {
        assert(f(index as int) == Ok::<bool, Error>(marks[index as int]));
    }
}

/// The bytes of a text in parts are those of the parts.
proof fn lemma_encoded_parts(front: Seq<char>, back: Seq<char>)
    ensures
        encoded(front + back) == encoded(front) + encoded(back),
    decreases back.len(),
{
    let all = front + back;
    if back.len() == 0 {
        assert(all =~= front);
        assert(encoded(front) + encoded(back) =~= encoded(front));
    } else {
        lemma_encoded_parts(front, back.drop_last());
        assert(all.drop_last() =~= front + back.drop_last());
        assert(encoded(all) =~= encoded(front) + encoded(back));
    }
}

/// The bytes of a part of a text stand among its bytes.
proof fn lemma_part_is_held(text: Seq<char>, part: Seq<char>, at: int)
    requires
        occurs_at(text, part, at),
    ensures
        occurs(encoded(text), encoded(part)),
{
    let front = text.take(at);
    let back = text.skip(at + part.len());
    assert(text =~= front + part + back);
    lemma_encoded_parts(front + part, back);
    lemma_encoded_parts(front, part);
    let bytes = encoded(text);
    let start = encoded(front).len() as int;
    let own = encoded(part);
    assert(bytes.subrange(start, start + own.len()) =~= own);
    assert(occurs_at(bytes, own, start));
}

/// What a string of a table holds is what its text holds: looking for the bytes of a value finds
/// every text with the value in it, and looking for the bytes of a whole name finds that name alone.
pub proof fn law_bytes_are_searched_like_the_text(raw: Seq<u8>, value: Seq<char>)
    requires
        forall|i: int| 0 <= i < raw.len() ==> #[trigger] raw[i] != 0,
        decoded_from(raw, 0) is Ok,
    ensures
        occurs(shown(raw), value) ==> occurs(raw, encoded(value)),
        (shown(raw) == value) == (raw == encoded(value)),
{
    let text = decoded_from(raw, 0)->Ok_0;
    law_decoding_is_canonical(raw, text);
    lemma_nul_from(raw, 0, raw.len() as int);
    assert(raw.subrange(0, raw.len() as int) =~= raw);
    if all_ascii(raw) {
        law_shortcut_agrees_with_the_decoder(raw);
    }
    assert(shown(raw) == text);
    if occurs(text, value) {
        let at = choose|at: int| #[trigger] occurs_at(text, value, at);
        lemma_part_is_held(text, value, at);
    }
    if raw == encoded(value) {
        law_encoding_decodes_back(value);
    }
}

/// A search for a value is about every string, and a search for a type about every type, whose text
/// holds the value.
pub proof fn law_every_text_that_holds_the_value_is_a_target(
    data: Seq<u8>,
    value: Seq<char>,
    index: u32,
)
    requires
        index < table_size(data, Table::Strings),
        raw_string(data, index as int) matches Ok(raw) && decoded_from(raw, 0) is Ok && occurs(
            shown(raw),
            value,
        ),
        query_targets(data, QueryView::String(value)) is Ok,
    ensures
        query_targets(data, QueryView::String(value))->Ok_0.contains(index),
{
    law_targets_are_the_wanted_rows(data, QueryView::String(value), index);
    let raw = raw_string(data, index as int)->Ok_0;
    law_string_holds_no_nul(data, le32(data, row_off(data, Table::Strings, index as int)) as int);
    law_bytes_are_searched_like_the_text(raw, value);
}

/// A search for a type is about every type whose descriptor holds the value.
pub proof fn law_every_descriptor_that_holds_the_value_is_a_target(
    data: Seq<u8>,
    value: Seq<char>,
    index: u32,
)
    requires
        index < table_size(data, Table::Types),
        raw_type(data, index as int) matches Ok(raw) && decoded_from(raw, 0) is Ok && occurs(
            shown(raw),
            value,
        ),
        query_targets(data, QueryView::Type(value)) is Ok,
    ensures
        query_targets(data, QueryView::Type(value))->Ok_0.contains(index),
{
    law_targets_are_the_wanted_rows(data, QueryView::Type(value), index);
    let raw = raw_type(data, index as int)->Ok_0;
    let string = le32(data, row_off(data, Table::Types, index as int)) as int;
    law_string_holds_no_nul(data, le32(data, row_off(data, Table::Strings, string)) as int);
    law_bytes_are_searched_like_the_text(raw, value);
}

/// A search for a member by its class and its name is about exactly the rows of the member table
/// whose first 16 bits name that class and whose last 32 name that name, of methods and of fields
/// alike.
pub proof fn law_a_member_is_found_by_its_class_and_name(
    data: Seq<u8>,
    table: Table,
    class: Seq<char>,
    name: Seq<char>,
    index: u32,
)
    requires
        table == Table::Methods || table == Table::Fields,
        index < table_size(data, table),
        ({
            let row = row_off(data, table, index as int);
            let owner = raw_type(data, data[row] + 0x100 * data[row + 1]);
            let own = raw_string(
                data,
                data[row + 4] + 0x100 * data[row + 5] + 0x1_0000 * data[row + 6] + 0x100_0000
                    * data[row + 7],
            );
            &&& owner is Ok && decoded_from(owner->Ok_0, 0) is Ok
            &&& own is Ok && decoded_from(own->Ok_0, 0) is Ok
        }),
        query_targets(data, member_query(table, class, name)) is Ok,
    ensures
        ({
            let row = row_off(data, table, index as int);
            let owner = raw_type(data, data[row] + 0x100 * data[row + 1])->Ok_0;
            let own = raw_string(
                data,
                data[row + 4] + 0x100 * data[row + 5] + 0x1_0000 * data[row + 6] + 0x100_0000
                    * data[row + 7],
            )->Ok_0;
            query_targets(data, member_query(table, class, name))->Ok_0.contains(index) <==> shown(
                owner,
            ) == class && shown(own) == name
        }),
{
    let query = member_query(table, class, name);
    law_targets_are_the_wanted_rows(data, query, index);
    let owner_at = member_owner(data, table, index as int);
    let name_at = member_name_idx(data, table, index as int);
    let owner = raw_type(data, owner_at)->Ok_0;
    let own = raw_string(data, name_at)->Ok_0;
    let string = le32(data, row_off(data, Table::Types, owner_at)) as int;
    law_string_holds_no_nul(data, le32(data, row_off(data, Table::Strings, string)) as int);
    law_string_holds_no_nul(data, le32(data, row_off(data, Table::Strings, name_at)) as int);
    law_bytes_are_searched_like_the_text(owner, class);
    law_bytes_are_searched_like_the_text(own, name);
}

/// The query for the member of a class with a name.
pub open spec fn member_query(table: Table, class: Seq<char>, name: Seq<char>) -> QueryView {
    let member = MemberQueryView {
        class: Some(ClassQueryView::Exact(class)),
        name: Some(name),
    };
    if table == Table::Methods {
        QueryView::Method(member)
    } else {
        QueryView::Field(member)
    }
}

/// A class that is asked for by a part of its descriptor admits every class whose descriptor has the
/// part in it.
pub proof fn law_a_fuzzy_class_admits_its_descriptors(raw: Seq<u8>, pattern: Seq<char>)
    requires
        forall|i: int| 0 <= i < raw.len() ==> #[trigger] raw[i] != 0,
        decoded_from(raw, 0) is Ok,
        occurs(shown(raw), pattern),
    ensures
        admits(ClassQueryView::Fuzzy(pattern), raw),
{
    law_bytes_are_searched_like_the_text(raw, pattern);
}

/// The targets of a search for a value are only those rows whose bytes hold those of the value.
pub proof fn law_every_target_holds_the_value(data: Seq<u8>, value: Seq<char>, index: u32)
    ensures
        query_targets(data, QueryView::String(value)) matches Ok(targets) ==> (targets.contains(index)
            ==> index < table_size(data, Table::Strings) && (raw_string(data, index as int) matches Ok(
            raw,
        ) && occurs(raw, encoded(value)))),
        query_targets(data, QueryView::Type(value)) matches Ok(targets) ==> (targets.contains(index)
            ==> index < table_size(data, Table::Types) && (raw_type(data, index as int) matches Ok(raw)
            && occurs(raw, encoded(value)))),
{
    if query_targets(data, QueryView::String(value)) is Ok {
        law_targets_are_the_wanted_rows(data, QueryView::String(value), index);
    }
    if query_targets(data, QueryView::Type(value)) is Ok {
        law_targets_are_the_wanted_rows(data, QueryView::Type(value), index);
    }
}

/// A search for members by one thing alone is about the rows with that thing: by a name about those
/// of that name, by a class about those of that class, by a part of a class about those whose class
/// has the part.
pub proof fn law_members_are_found_by_one_thing(
    data: Seq<u8>,
    text: Seq<char>,
    index: u32,
    owner: Seq<u8>,
    own: Seq<u8>,
)
    requires
        index < table_size(data, Table::Methods),
        raw_type(data, member_owner(data, Table::Methods, index as int)) == Ok::<Seq<u8>, Error>(
            owner,
        ),
        raw_string(data, member_name_idx(data, Table::Methods, index as int)) == Ok::<
            Seq<u8>,
            Error,
        >(own),
    ensures
        ({
            let by_name = QueryView::Method(MemberQueryView { name: Some(text), class: None });
            query_targets(data, by_name) matches Ok(targets) ==> (targets.contains(index) <==> own
                == encoded(text))
        }),
        ({
            let by_class = QueryView::Method(
                MemberQueryView { name: None, class: Some(ClassQueryView::Exact(text)) },
            );
            query_targets(data, by_class) matches Ok(targets) ==> (targets.contains(index) <==> owner
                == encoded(text))
        }),
        ({
            let by_part = QueryView::Method(
                MemberQueryView { name: None, class: Some(ClassQueryView::Fuzzy(text)) },
            );
            query_targets(data, by_part) matches Ok(targets) ==> (targets.contains(index) <==> occurs(
                owner,
                encoded(text),
            ))
        }),
{
    let by_name = QueryView::Method(MemberQueryView { name: Some(text), class: None });
    let by_class = QueryView::Method(
        MemberQueryView { name: None, class: Some(ClassQueryView::Exact(text)) },
    );
    let by_part = QueryView::Method(
        MemberQueryView { name: None, class: Some(ClassQueryView::Fuzzy(text)) },
    );
    if query_targets(data, by_name) is Ok {
        law_targets_are_the_wanted_rows(data, by_name, index);
    }
    if query_targets(data, by_class) is Ok {
        law_targets_are_the_wanted_rows(data, by_class, index);
    }
    if query_targets(data, by_part) is Ok {
        law_targets_are_the_wanted_rows(data, by_part, index);
    }
}

/// A member is shown as its class, an arrow and its name, and both can be told from it where the
/// class has no arrow in it.
pub proof fn law_shown_member_reads_back(
    data: Seq<u8>,
    table: Table,
    index: int,
    class: Seq<char>,
    name: Seq<char>,
)
    requires
        member_text(data, table, index) == Ok::<Seq<char>, Error>(class + "->"@ + name),
        !class.contains('-'),
        shown_result(raw_type(data, member_owner(data, table, index))) matches Ok(own)
            && !own.contains('-'),
    ensures
        shown_result(raw_type(data, member_owner(data, table, index))) == Ok::<Seq<char>, Error>(
            class,
        ),
        shown_result(raw_string(data, member_name_idx(data, table, index))) == Ok::<
            Seq<char>,
            Error,
        >(name),
{
    reveal_strlit("->");
    let own = shown_result(raw_type(data, member_owner(data, table, index)))->Ok_0;
    let own_name = shown_result(raw_string(data, member_name_idx(data, table, index)))->Ok_0;
    lemma_cut(own, own_name, class, name, "->"@);
}

} // verus!
