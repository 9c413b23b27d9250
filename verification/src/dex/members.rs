//! Class members in DEX order, and the lookups that go from an index to a member.
//!
//! Three callers need this and none of them can guess it: a script that has to know
//! which instance slots hold references before it dereferences them, and a reader that
//! holds a `field_ids` or `method_ids` index from the runtime and wants the member
//! behind it. Everything here is answered from the DEX the class actually came from.
//!
//! The order is the load-bearing part. `class_data_item` stores static fields, instance
//! fields, direct methods and virtual methods, each as a chain of index deltas, so every
//! sequence below is ascending `field_ids` / `method_ids` order within its kind - which is
//! exactly the order the runtime's own field and method arrays follow. The instance
//! reference mask is defined over the instance sequence: bit *j* describes the *j*-th
//! instance field.
use super::mutf8::shown;
use super::{
    class_type, dex_error, law_uleb_reads_back, lemma_row_inside, proto_text, raw_string, raw_type,
    read_uleb, row_at, row_off, shown_result, table_off, table_size, texts, uleb_at, written_uleb, Dex,
};
use crate::bytes::{le16, le32, read_u16};
use crate::error::{Error, Table};
use crate::json::{lemma_quoted_cut, quoted};
use crate::seqs::{
    collect, lemma_both_occur, lemma_collect_fails, lemma_collect_succeeds, occurs_at,
};
use crate::text::{
    decimal, hexadecimal, law_decimal_reads_back, law_hexadecimal_reads_back, lemma_behind_two,
    lemma_cut, lemma_cut_four, lemma_cut_last, lemma_cut_three, lemma_digits_have_no, lemma_same_rest,
    push_decimal, push_hexadecimal, same_text, value_of,
};
use vstd::prelude::*;

verus! {

/// One field as the DEX declares it.
#[derive(Debug, PartialEq, Eq)]
pub struct FieldRow {
    /// The `field_ids` index. A runtime's field index refers to this, not to the
    /// position in this list, so it is reported alongside the position.
    pub field_index: u32,
    pub name: String,
    pub type_descriptor: String,
    pub access_flags: u32,
}

/// One method as the DEX declares it.
#[derive(Clone, Debug, PartialEq, Eq)]
pub struct MethodRow {
    /// The `method_ids` index - the value a runtime reports as its method index.
    pub method_index: u32,
    /// The `proto_ids` index, for rendering the prototype on demand.
    pub proto_idx: u32,
    pub name: String,
    pub access_flags: u32,
}

/// One class's members, every kind kept apart and each in declaration order.
#[derive(Clone, Debug, PartialEq, Eq)]
pub struct ClassMembers {
    pub descriptor: String,
    pub dex_class_def_idx: u32,
    pub dex_type_idx: u32,
    pub access_flags: u32,
    pub statics: Vec<FieldRow>,
    pub instance: Vec<FieldRow>,
    pub direct_methods: Vec<MethodRow>,
    pub virtual_methods: Vec<MethodRow>,
}

/// One class's field layout, both kinds kept apart and each in declaration order.
///
/// The three identity fields are how a consumer ties this plan back to the class it
/// observed at runtime: a descriptor alone does not distinguish two definitions of the
/// same class name, the indices do.
#[derive(Clone, Debug, PartialEq, Eq)]
pub struct FieldPlan {
    pub descriptor: String,
    /// Index of the class's `class_defs` row in the DEX this plan came from.
    pub dex_class_def_idx: u32,
    /// The class's `type_ids` index in that DEX.
    pub dex_type_idx: u32,
    /// The class's own access flags, as the DEX declares them.
    pub access_flags: u32,
    pub instance: Vec<FieldRow>,
    pub statics: Vec<FieldRow>,
}

/// A field, with its texts as characters.
#[verifier::ext_equal]
pub struct FieldView {
    pub field_index: u32,
    pub name: Seq<char>,
    pub type_descriptor: Seq<char>,
    pub access_flags: u32,
}

/// A method, with its name as characters.
#[verifier::ext_equal]
pub struct MethodView {
    pub method_index: u32,
    pub proto_idx: u32,
    pub name: Seq<char>,
    pub access_flags: u32,
}

/// The members of a class, with their texts as characters.
#[verifier::ext_equal]
pub struct MembersView {
    pub descriptor: Seq<char>,
    pub dex_class_def_idx: u32,
    pub dex_type_idx: u32,
    pub access_flags: u32,
    pub statics: Seq<FieldView>,
    pub instance: Seq<FieldView>,
    pub direct_methods: Seq<MethodView>,
    pub virtual_methods: Seq<MethodView>,
}

/// A field layout and what identifies its class, with its texts as characters.
#[verifier::ext_equal]
pub struct LayoutView {
    pub descriptor: Seq<char>,
    pub dex_class_def_idx: u32,
    pub dex_type_idx: u32,
    pub access_flags: u32,
    pub instance: Seq<FieldView>,
    pub statics: Seq<FieldView>,
}

impl View for FieldPlan {
    type V = LayoutView;

    open spec fn view(&self) -> LayoutView {
        LayoutView {
            descriptor: self.descriptor@,
            dex_class_def_idx: self.dex_class_def_idx,
            dex_type_idx: self.dex_type_idx,
            access_flags: self.access_flags,
            instance: field_views(self.instance@),
            statics: field_views(self.statics@),
        }
    }
}

impl View for FieldRow {
    type V = FieldView;

    open spec fn view(&self) -> FieldView {
        FieldView {
            field_index: self.field_index,
            name: self.name@,
            type_descriptor: self.type_descriptor@,
            access_flags: self.access_flags,
        }
    }
}

impl View for MethodRow {
    type V = MethodView;

    open spec fn view(&self) -> MethodView {
        MethodView {
            method_index: self.method_index,
            proto_idx: self.proto_idx,
            name: self.name@,
            access_flags: self.access_flags,
        }
    }
}

/// The views of a list of fields.
pub open spec fn field_views(rows: Seq<FieldRow>) -> Seq<FieldView> {
    rows.map_values(|row: FieldRow| row@)
}

/// The views of a list of methods.
pub open spec fn method_views(rows: Seq<MethodRow>) -> Seq<MethodView> {
    rows.map_values(|row: MethodRow| row@)
}

impl View for ClassMembers {
    type V = MembersView;

    open spec fn view(&self) -> MembersView {
        MembersView {
            descriptor: self.descriptor@,
            dex_class_def_idx: self.dex_class_def_idx,
            dex_type_idx: self.dex_type_idx,
            access_flags: self.access_flags,
            statics: field_views(self.statics@),
            instance: field_views(self.instance@),
            direct_methods: method_views(self.direct_methods@),
            virtual_methods: method_views(self.virtual_methods@),
        }
    }
}

impl Clone for FieldRow {
    fn clone(&self) -> (copy: Self)
        ensures
            copy == *self,
    {
        FieldRow {
            field_index: self.field_index,
            name: self.name.clone(),
            type_descriptor: self.type_descriptor.clone(),
            access_flags: self.access_flags,
        }
    }
}

/// The row of a member table, where the member that `index` names is described: which class
/// owns it, and the offset of the row.
pub open spec fn member_row(data: Seq<u8>, table: Table, class_type: int, index: int) -> Result<
    int,
    Error,
> {
    let at = row_off(data, table, index);
    if at > usize::MAX {
        Err(Error::MemberRowOverflow { table })
    } else if at + 2 > data.len() {
        Err(Error::Truncated { offset: at as usize })
    } else if le16(data, at) != class_type {
        Err(
            Error::ForeignMember {
                table,
                class_type: class_type as usize,
                index: index as u32,
                owner: le16(data, at) as usize,
            },
        )
    } else if at + 4 > data.len() {
        Err(Error::Truncated { offset: (at + 2) as usize })
    } else if at + 8 > data.len() {
        Err(Error::Truncated { offset: (at + 4) as usize })
    } else {
        Ok(at)
    }
}

/// The field whose entry stands at `at`, behind one with the given index, and where the entry
/// ends.
pub open spec fn field_entry(data: Seq<u8>, at: int, index: int, class_type: int) -> Result<
    (FieldView, int),
    Error,
> {
    match uleb_at(data, at) {
        None => Err(Error::BadUleb { offset: at as usize }),
        Some(difference) => match uleb_at(data, difference.1) {
            None => Err(Error::BadUleb { offset: difference.1 as usize }),
            Some(flags) => {
                let next = index + difference.0;
                if next > u32::MAX {
                    Err(Error::MemberIndexOverflow { table: Table::Fields })
                } else {
                    match member_row(data, Table::Fields, class_type, next) {
                        Err(error) => Err(error),
                        Ok(row) => match shown_result(raw_string(data, le32(data, row + 4) as int)) {
                            Err(error) => Err(error),
                            Ok(name) => match shown_result(
                                raw_type(data, le16(data, row + 2) as int),
                            ) {
                                Err(error) => Err(error),
                                Ok(type_descriptor) => Ok(
                                    (
                                        FieldView {
                                            field_index: next as u32,
                                            name,
                                            type_descriptor,
                                            access_flags: flags.0 as u32,
                                        },
                                        flags.1,
                                    ),
                                ),
                            },
                        },
                    }
                }
            },
        },
    }
}

/// The `count` fields whose entries start at `at`, behind one with the given index, and where
/// the last entry ends.
pub open spec fn fields_from(data: Seq<u8>, at: int, index: int, count: int, class_type: int) -> Result<
    (Seq<FieldView>, int),
    Error,
>
    decreases count,
{
    if count <= 0 {
        Ok((Seq::empty(), at))
    } else {
        match field_entry(data, at, index, class_type) {
            Err(error) => Err(error),
            Ok(first) => match fields_from(
                data,
                first.1,
                first.0.field_index as int,
                count - 1,
                class_type,
            ) {
                Err(error) => Err(error),
                Ok(rest) => Ok((seq![first.0] + rest.0, rest.1)),
            },
        }
    }
}

/// The method whose entry stands at `at`, behind one with the given index, and where the entry
/// ends.
pub open spec fn method_entry(data: Seq<u8>, at: int, index: int, class_type: int) -> Result<
    (MethodView, int),
    Error,
> {
    match uleb_at(data, at) {
        None => Err(Error::BadUleb { offset: at as usize }),
        Some(difference) => match uleb_at(data, difference.1) {
            None => Err(Error::BadUleb { offset: difference.1 as usize }),
            Some(flags) => match uleb_at(data, flags.1) {
                None => Err(Error::BadUleb { offset: flags.1 as usize }),
                Some(code) => {
                    let next = index + difference.0;
                    if next > u32::MAX {
                        Err(Error::MemberIndexOverflow { table: Table::Methods })
                    } else {
                        match member_row(data, Table::Methods, class_type, next) {
                            Err(error) => Err(error),
                            Ok(row) => match shown_result(
                                raw_string(data, le32(data, row + 4) as int),
                            ) {
                                Err(error) => Err(error),
                                Ok(name) => Ok(
                                    (
                                        MethodView {
                                            method_index: next as u32,
                                            proto_idx: le16(data, row + 2) as u32,
                                            name,
                                            access_flags: flags.0 as u32,
                                        },
                                        code.1,
                                    ),
                                ),
                            },
                        }
                    }
                },
            },
        },
    }
}

/// The `count` methods whose entries start at `at`, behind one with the given index, and where
/// the last entry ends.
pub open spec fn methods_from(data: Seq<u8>, at: int, index: int, count: int, class_type: int) -> Result<
    (Seq<MethodView>, int),
    Error,
>
    decreases count,
{
    if count <= 0 {
        Ok((Seq::empty(), at))
    } else {
        match method_entry(data, at, index, class_type) {
            Err(error) => Err(error),
            Ok(first) => match methods_from(
                data,
                first.1,
                first.0.method_index as int,
                count - 1,
                class_type,
            ) {
                Err(error) => Err(error),
                Ok(rest) => Ok((seq![first.0] + rest.0, rest.1)),
            },
        }
    }
}

/// The four member counts at the start of a class's data, and where they end.
pub open spec fn member_counts(data: Seq<u8>, at: int) -> Result<(int, int, int, int, int), Error> {
    match uleb_at(data, at) {
        None => Err(Error::BadUleb { offset: at as usize }),
        Some(statics) => match uleb_at(data, statics.1) {
            None => Err(Error::BadUleb { offset: statics.1 as usize }),
            Some(instance) => match uleb_at(data, instance.1) {
                None => Err(Error::BadUleb { offset: instance.1 as usize }),
                Some(direct) => match uleb_at(data, direct.1) {
                    None => Err(Error::BadUleb { offset: direct.1 as usize }),
                    Some(virtuals) => Ok(
                        (statics.0, instance.0, direct.0, virtuals.0, virtuals.1),
                    ),
                },
            },
        },
    }
}

/// The static and the instance fields of the class whose data stands at `at`, and what follows
/// them: the two method counts and where the first method entry starts.
pub open spec fn class_fields(data: Seq<u8>, at: int, class_type: int) -> Result<
    (Seq<FieldView>, Seq<FieldView>, int, int, int),
    Error,
> {
    match member_counts(data, at) {
        Err(error) => Err(error),
        Ok(counts) => match fields_from(data, counts.4, 0, counts.0, class_type) {
            Err(error) => Err(error),
            Ok(statics) => match fields_from(data, statics.1, 0, counts.1, class_type) {
                Err(error) => Err(error),
                Ok(instance) => Ok((statics.0, instance.0, counts.2, counts.3, instance.1)),
            },
        },
    }
}

/// The access flags of the class in row `index` of the class table.
pub open spec fn class_flags(data: Seq<u8>, index: int) -> int {
    le32(data, row_off(data, Table::Classes, index) + 4) as int
}

/// Where the data of the class in row `index` of the class table is, or zero when it has none.
pub open spec fn class_data_off(data: Seq<u8>, index: int) -> int {
    le32(data, row_off(data, Table::Classes, index) + 24) as int
}

/// The members of the class in row `index` of the class table.
pub open spec fn members_of_row(data: Seq<u8>, descriptor: Seq<char>, index: int) -> Result<
    MembersView,
    Error,
> {
    let at = class_data_off(data, index);
    let kind = class_type(data, index);
    let bare = MembersView {
        descriptor,
        dex_class_def_idx: index as u32,
        dex_type_idx: kind as u32,
        access_flags: class_flags(data, index) as u32,
        statics: Seq::empty(),
        instance: Seq::empty(),
        direct_methods: Seq::empty(),
        virtual_methods: Seq::empty(),
    };
    if at == 0 {
        Ok(bare)
    } else {
        match class_fields(data, at, kind) {
            Err(error) => Err(error),
            Ok(fields) => match methods_from(data, fields.4, 0, fields.2, kind) {
                Err(error) => Err(error),
                Ok(direct) => match methods_from(data, direct.1, 0, fields.3, kind) {
                    Err(error) => Err(error),
                    Ok(virtuals) => Ok(
                        MembersView {
                            statics: fields.0,
                            instance: fields.1,
                            direct_methods: direct.0,
                            virtual_methods: virtuals.0,
                            ..bare
                        },
                    ),
                },
            },
        }
    }
}

/// The first row at or after `index` that defines `descriptor`, or the first before it whose
/// descriptor cannot be read.
pub open spec fn class_row_from(data: Seq<u8>, descriptor: Seq<char>, index: int) -> Result<
    Option<int>,
    Error,
>
    decreases table_size(data, Table::Classes) - index,
{
    if index >= table_size(data, Table::Classes) {
        Ok(None)
    } else {
        match shown_result(raw_type(data, class_type(data, index))) {
            Err(error) => Err(error),
            Ok(text) => if text == descriptor {
                Ok(Some(index))
            } else {
                class_row_from(data, descriptor, index + 1)
            },
        }
    }
}

/// The row that defines `descriptor` in a DEX file, if there is one.
pub open spec fn class_row(data: Seq<u8>, descriptor: Seq<char>) -> Result<Option<int>, Error> {
    match dex_error(data) {
        Some(error) => Err(error),
        None => class_row_from(data, descriptor, 0),
    }
}

/// The members of the class `descriptor` in a DEX file, if it defines the class.
pub open spec fn members_of(data: Seq<u8>, descriptor: Seq<char>) -> Result<
    Option<MembersView>,
    Error,
> {
    match class_row(data, descriptor) {
        Err(error) => Err(error),
        Ok(None) => Ok(None),
        Ok(Some(index)) => match members_of_row(data, descriptor, index) {
            Err(error) => Err(error),
            Ok(members) => Ok(Some(members)),
        },
    }
}

/// The `class_defs` row index and the class's `type_ids` index, for `descriptor`.
pub fn find_class(dex: &Dex<'_>, descriptor: &str) -> (found: Result<Option<(usize, usize)>, Error>)
    requires
        dex.valid(),
    ensures
        match class_row_from(dex.data@, descriptor@, 0) {
            Err(error) => found == Err::<Option<(usize, usize)>, Error>(error),
            Ok(None) => found == Ok::<Option<(usize, usize)>, Error>(None),
            Ok(Some(index)) => found matches Ok(Some(pair)) && pair.0 == index && pair.1
                == class_type(dex.data@, index) && index < dex.header.classes_size,
        },
{
    let mut index: usize = 0;
    while index < dex.header.classes_size
        invariant
            dex.valid(),
            index <= dex.header.classes_size,
            class_row_from(dex.data@, descriptor@, 0) == class_row_from(
                dex.data@,
                descriptor@,
                index as int,
            ),
        decreases dex.header.classes_size - index,
    {
        let kind = match dex.class_type(index) {
            Ok(kind) => kind,
            Err(error) => {
                return Err(error);
            },
        };
        match dex.type_text(kind) {
            Ok(text) => {
                if same_text(text.as_str(), descriptor) {
                    return Ok(Some((index, kind)));
                }
            },
            Err(error) => {
                return Err(error);
            },
        }
        index = index + 1;
    }
    Ok(None)
}

/// The row that describes the member `index`, once it was found to belong to `class_type`.
fn read_member_row(
    data: &[u8],
    table: Table,
    table_offset: usize,
    class_type: usize,
    index: u32,
) -> (row: Result<usize, Error>)
    requires
        table is Fields || table is Methods,
        table_offset == table_off(data@, table),
    ensures
        match row {
            Ok(at) => member_row(data@, table, class_type as int, index as int) == Ok::<int, Error>(
                at as int,
            ) && at + 8 <= usize::MAX,
            Err(error) => member_row(data@, table, class_type as int, index as int) == Err::<
                int,
                Error,
            >(error),
        },
{
    let row = match super::table_end(table_offset, index as usize, 8) {
        Some(row) => row,
        None => {
            return Err(Error::MemberRowOverflow { table });
        },
    };
    let owner = match read_u16(data, row) {
        Ok(owner) => owner as usize,
        Err(error) => {
            return Err(error);
        },
    };
    if owner != class_type {
        return Err(Error::ForeignMember { table, class_type, index, owner });
    }
    let len: usize = data.len();
    if len - row < 4 {
        return Err(Error::Truncated { offset: row + 2 });
    }
    if len - row < 8 {
        return Err(Error::Truncated { offset: row + 4 });
    }
    Ok(row)
}

/// Reads one `encoded_field` (`field_idx_diff`, `access_flags`) and resolves it.
///
/// `class_type` is the planned class's `type_ids` index: a `field_ids` row names its
/// declaring class by *type* index, not by its position in `class_defs`.
pub fn read_encoded_field(
    dex: &Dex<'_>,
    offset: &mut usize,
    field_index: &mut u32,
    class_type: usize,
) -> (row: Result<FieldRow, Error>)
    requires
        dex.valid(),
    ensures
        match row {
            Ok(row) => field_entry(
                dex.data@,
                *old(offset) as int,
                *old(field_index) as int,
                class_type as int,
            ) == Ok::<(FieldView, int), Error>((row@, *final(offset) as int)) && *final(field_index)
                == row.field_index,
            Err(error) => field_entry(
                dex.data@,
                *old(offset) as int,
                *old(field_index) as int,
                class_type as int,
            ) == Err::<(FieldView, int), Error>(error),
        },
{
    let data = dex.data;
    let difference = match read_uleb(data, offset) {
        Ok(difference) => difference,
        Err(error) => {
            return Err(error);
        },
    };
    let access_flags = match read_uleb(data, offset) {
        Ok(access_flags) => access_flags,
        Err(error) => {
            return Err(error);
        },
    };
    match field_index.checked_add(difference) {
        Some(next) => {
            *field_index = next;
        },
        None => {
            return Err(Error::MemberIndexOverflow { table: Table::Fields });
        },
    }
    let row = match read_member_row(
        data,
        Table::Fields,
        dex.header.fields_off,
        class_type,
        *field_index,
    ) {
        Ok(row) => row,
        Err(error) => {
            return Err(error);
        },
    };
    let type_idx = match read_u16(data, row + 2) {
        Ok(type_idx) => type_idx as usize,
        Err(error) => {
            return Err(error);
        },
    };
    let name_idx = match dex.u32(row + 4) {
        Ok(name_idx) => name_idx as usize,
        Err(error) => {
            return Err(error);
        },
    };
    let name = match dex.string(name_idx) {
        Ok(name) => name,
        Err(error) => {
            return Err(error);
        },
    };
    let type_descriptor = match dex.type_text(type_idx) {
        Ok(type_descriptor) => type_descriptor,
        Err(error) => {
            return Err(error);
        },
    };
    Ok(FieldRow { field_index: *field_index, name, type_descriptor, access_flags })
}

/// Reads one `encoded_method` (`method_idx_diff`, `access_flags`, `code_off`) and
/// resolves its name through `method_ids.name_idx`.
///
/// The name is not parsed out of a rendered prototype: a name may contain characters
/// that no separated text form can carry unambiguously.
fn read_encoded_method(
    dex: &Dex<'_>,
    offset: &mut usize,
    method_index: &mut u32,
    class_type: usize,
) -> (row: Result<MethodRow, Error>)
    requires
        dex.valid(),
    ensures
        match row {
            Ok(row) => method_entry(
                dex.data@,
                *old(offset) as int,
                *old(method_index) as int,
                class_type as int,
            ) == Ok::<(MethodView, int), Error>((row@, *final(offset) as int))
                && *final(method_index) == row.method_index,
            Err(error) => method_entry(
                dex.data@,
                *old(offset) as int,
                *old(method_index) as int,
                class_type as int,
            ) == Err::<(MethodView, int), Error>(error),
        },
{
    let data = dex.data;
    let difference = match read_uleb(data, offset) {
        Ok(difference) => difference,
        Err(error) => {
            return Err(error);
        },
    };
    let access_flags = match read_uleb(data, offset) {
        Ok(access_flags) => access_flags,
        Err(error) => {
            return Err(error);
        },
    };
    let _code_off = match read_uleb(data, offset) {
        Ok(code_off) => code_off,
        Err(error) => {
            return Err(error);
        },
    };
    match method_index.checked_add(difference) {
        Some(next) => {
            *method_index = next;
        },
        None => {
            return Err(Error::MemberIndexOverflow { table: Table::Methods });
        },
    }
    let row = match read_member_row(
        data,
        Table::Methods,
        dex.header.methods_off,
        class_type,
        *method_index,
    ) {
        Ok(row) => row,
        Err(error) => {
            return Err(error);
        },
    };
    let proto_idx = match read_u16(data, row + 2) {
        Ok(proto_idx) => proto_idx as u32,
        Err(error) => {
            return Err(error);
        },
    };
    let name_idx = match dex.u32(row + 4) {
        Ok(name_idx) => name_idx as usize,
        Err(error) => {
            return Err(error);
        },
    };
    let name = match dex.string(name_idx) {
        Ok(name) => name,
        Err(error) => {
            return Err(error);
        },
    };
    Ok(MethodRow { method_index: *method_index, proto_idx, name, access_flags })
}

/// Reads `count` field entries.
pub fn read_fields(dex: &Dex<'_>, offset: &mut usize, count: u32, class_type: usize) -> (rows: Result<
    Vec<FieldRow>,
    Error,
>)
    requires
        dex.valid(),
    ensures
        match rows {
            Ok(list) => fields_from(
                dex.data@,
                *old(offset) as int,
                0,
                count as int,
                class_type as int,
            ) == Ok::<(Seq<FieldView>, int), Error>((field_views(list@), *final(offset) as int)),
            Err(error) => fields_from(
                dex.data@,
                *old(offset) as int,
                0,
                count as int,
                class_type as int,
            ) == Err::<(Seq<FieldView>, int), Error>(error),
        },
{
    let ghost data = dex.data@;
    let ghost all = fields_from(data, *offset as int, 0, count as int, class_type as int);
    let mut rows: Vec<FieldRow> = Vec::new();
    let mut field_index: u32 = 0;
    let mut done: u32 = 0;
    proof {
        if all is Ok {
            assert(field_views(rows@) + all->Ok_0.0 =~= all->Ok_0.0);
        }
    }
    while done < count
        invariant
            dex.valid(),
            data == dex.data@,
            all == fields_from(data, *old(offset) as int, 0, count as int, class_type as int),
            done <= count,
            match fields_from(
                data,
                *offset as int,
                field_index as int,
                count - done,
                class_type as int,
            ) {
                Ok(rest) => all == Ok::<(Seq<FieldView>, int), Error>(
                    (field_views(rows@) + rest.0, rest.1),
                ),
                Err(error) => all == Err::<(Seq<FieldView>, int), Error>(error),
            },
        decreases count - done,
    {
        let ghost before = rows@;
        match read_encoded_field(dex, offset, &mut field_index, class_type) {
            Ok(row) => {
                rows.push(row);
                proof {
                    assert(field_views(rows@) =~= field_views(before).push(row@));
                    let rest = fields_from(
                        data,
                        *offset as int,
                        field_index as int,
                        count - done - 1,
                        class_type as int,
                    );
                    if rest is Ok {
                        assert(field_views(before) + (seq![row@] + rest->Ok_0.0) =~= field_views(
                            rows@,
                        ) + rest->Ok_0.0);
                    }
                }
            },
            Err(error) => {
                return Err(error);
            },
        }
        done = done + 1;
    }
    assert(field_views(rows@) + Seq::<FieldView>::empty() =~= field_views(rows@));
    Ok(rows)
}

/// Reads `count` method entries.
fn read_methods(dex: &Dex<'_>, offset: &mut usize, count: u32, class_type: usize) -> (rows: Result<
    Vec<MethodRow>,
    Error,
>)
    requires
        dex.valid(),
    ensures
        match rows {
            Ok(list) => methods_from(
                dex.data@,
                *old(offset) as int,
                0,
                count as int,
                class_type as int,
            ) == Ok::<(Seq<MethodView>, int), Error>((method_views(list@), *final(offset) as int)),
            Err(error) => methods_from(
                dex.data@,
                *old(offset) as int,
                0,
                count as int,
                class_type as int,
            ) == Err::<(Seq<MethodView>, int), Error>(error),
        },
{
    let ghost data = dex.data@;
    let ghost all = methods_from(data, *offset as int, 0, count as int, class_type as int);
    let mut rows: Vec<MethodRow> = Vec::new();
    let mut method_index: u32 = 0;
    let mut done: u32 = 0;
    proof {
        if all is Ok {
            assert(method_views(rows@) + all->Ok_0.0 =~= all->Ok_0.0);
        }
    }
    while done < count
        invariant
            dex.valid(),
            data == dex.data@,
            all == methods_from(data, *old(offset) as int, 0, count as int, class_type as int),
            done <= count,
            match methods_from(
                data,
                *offset as int,
                method_index as int,
                count - done,
                class_type as int,
            ) {
                Ok(rest) => all == Ok::<(Seq<MethodView>, int), Error>(
                    (method_views(rows@) + rest.0, rest.1),
                ),
                Err(error) => all == Err::<(Seq<MethodView>, int), Error>(error),
            },
        decreases count - done,
    {
        let ghost before = rows@;
        match read_encoded_method(dex, offset, &mut method_index, class_type) {
            Ok(row) => {
                rows.push(row);
                proof {
                    assert(method_views(rows@) =~= method_views(before).push(row@));
                    let rest = methods_from(
                        data,
                        *offset as int,
                        method_index as int,
                        count - done - 1,
                        class_type as int,
                    );
                    if rest is Ok {
                        assert(method_views(before) + (seq![row@] + rest->Ok_0.0) =~= method_views(
                            rows@,
                        ) + rest->Ok_0.0);
                    }
                }
            },
            Err(error) => {
                return Err(error);
            },
        }
        done = done + 1;
    }
    assert(method_views(rows@) + Seq::<MethodView>::empty() =~= method_views(rows@));
    Ok(rows)
}

/// The static and the instance fields of a class, and what follows them.
pub struct FieldLists {
    pub statics: Vec<FieldRow>,
    pub instance: Vec<FieldRow>,
    pub direct_size: u32,
    pub virtual_size: u32,
    /// Where the first method entry starts.
    pub methods_off: usize,
}

/// Reads the member counts and the fields of the class whose data stands at `at`.
pub fn read_class_fields(dex: &Dex<'_>, at: usize, class_type: usize) -> (lists: Result<
    FieldLists,
    Error,
>)
    requires
        dex.valid(),
    ensures
        match lists {
            Ok(lists) => class_fields(dex.data@, at as int, class_type as int) == Ok::<
                (Seq<FieldView>, Seq<FieldView>, int, int, int),
                Error,
            >(
                (
                    field_views(lists.statics@),
                    field_views(lists.instance@),
                    lists.direct_size as int,
                    lists.virtual_size as int,
                    lists.methods_off as int,
                ),
            ),
            Err(error) => class_fields(dex.data@, at as int, class_type as int) == Err::<
                (Seq<FieldView>, Seq<FieldView>, int, int, int),
                Error,
            >(error),
        },
{
    let data = dex.data;
    let mut offset: usize = at;
    let static_size = match read_uleb(data, &mut offset) {
        Ok(size) => size,
        Err(error) => {
            return Err(error);
        },
    };
    let instance_size = match read_uleb(data, &mut offset) {
        Ok(size) => size,
        Err(error) => {
            return Err(error);
        },
    };
    let direct_size = match read_uleb(data, &mut offset) {
        Ok(size) => size,
        Err(error) => {
            return Err(error);
        },
    };
    let virtual_size = match read_uleb(data, &mut offset) {
        Ok(size) => size,
        Err(error) => {
            return Err(error);
        },
    };
    let statics = match read_fields(dex, &mut offset, static_size, class_type) {
        Ok(rows) => rows,
        Err(error) => {
            return Err(error);
        },
    };
    let instance = match read_fields(dex, &mut offset, instance_size, class_type) {
        Ok(rows) => rows,
        Err(error) => {
            return Err(error);
        },
    };
    Ok(FieldLists { statics, instance, direct_size, virtual_size, methods_off: offset })
}

/// A word of a row of the class table.
pub fn class_word(dex: &Dex<'_>, index: usize, slot: usize) -> (value: u32)
    requires
        dex.valid(),
        index < dex.header.classes_size,
        slot + 4 <= 32,
    ensures
        value == le32(dex.data@, row_off(dex.data@, Table::Classes, index as int) + slot),
{
    proof {
        lemma_row_inside(dex.data@, Table::Classes, index as int);
    }
    let row = row_at(dex.data, dex.header.classes_off, index, 32);
    let _len: usize = dex.data.len();
    match dex.u32(row + slot) {
        Ok(value) => value,
        Err(_error) => 0,
    }
}

/// Walks one class's `class_data_item`: every field and method it declares.
///
/// Rows come from the class's own `class_data`, so a malformed entry - one that points
/// at a `field_ids` or `method_ids` row belonging to another class - is an error rather
/// than a row from the wrong class.
pub fn class_members(data: &[u8], descriptor: &str) -> (members: Result<Option<ClassMembers>, Error>)
    ensures
        match members {
            Ok(Some(found)) => members_of(data@, descriptor@) == Ok::<Option<MembersView>, Error>(
                Some(found@),
            ),
            Ok(None) => members_of(data@, descriptor@) == Ok::<Option<MembersView>, Error>(None),
            Err(error) => members_of(data@, descriptor@) == Err::<Option<MembersView>, Error>(error),
        },
{
    let dex = match Dex::parse(data) {
        Ok(dex) => dex,
        Err(error) => {
            return Err(error);
        },
    };
    let (class_index, class_type_idx) = match find_class(&dex, descriptor) {
        Ok(Some(found)) => found,
        Ok(None) => {
            return Ok(None);
        },
        Err(error) => {
            return Err(error);
        },
    };
    let access_flags = class_word(&dex, class_index, 4);
    let class_data = class_word(&dex, class_index, 24);
    // A class with no members at all has no class_data.
    if class_data == 0 {
        let statics: Vec<FieldRow> = Vec::new();
        let instance: Vec<FieldRow> = Vec::new();
        let direct_methods: Vec<MethodRow> = Vec::new();
        let virtual_methods: Vec<MethodRow> = Vec::new();
        assert(field_views(statics@) =~= Seq::empty() && field_views(instance@) =~= Seq::empty());
        assert(method_views(direct_methods@) =~= Seq::empty());
        assert(method_views(virtual_methods@) =~= Seq::empty());
        return Ok(
            Some(
                ClassMembers {
                    descriptor: descriptor.to_owned(),
                    dex_class_def_idx: class_index as u32,
                    dex_type_idx: class_type_idx as u32,
                    access_flags,
                    statics,
                    instance,
                    direct_methods,
                    virtual_methods,
                },
            ),
        );
    }
    let fields = match read_class_fields(&dex, class_data as usize, class_type_idx) {
        Ok(fields) => fields,
        Err(error) => {
            return Err(error);
        },
    };
    let mut offset: usize = fields.methods_off;
    let direct_methods = match read_methods(&dex, &mut offset, fields.direct_size, class_type_idx) {
        Ok(rows) => rows,
        Err(error) => {
            return Err(error);
        },
    };
    let virtual_methods = match read_methods(
        &dex,
        &mut offset,
        fields.virtual_size,
        class_type_idx,
    ) {
        Ok(rows) => rows,
        Err(error) => {
            return Err(error);
        },
    };
    Ok(
        Some(
            ClassMembers {
                descriptor: descriptor.to_owned(),
                dex_class_def_idx: class_index as u32,
                dex_type_idx: class_type_idx as u32,
                access_flags,
                statics: fields.statics,
                instance: fields.instance,
                direct_methods,
                virtual_methods,
            },
        ),
    )
}

/// Whether a type descriptor is that of a reference.
pub open spec fn is_reference(descriptor: Seq<char>) -> bool {
    descriptor.len() > 0 && (descriptor[0] == 'L' || descriptor[0] == '[')
}

/// Whether a type descriptor is that of a reference.
fn reference_type(descriptor: &str) -> (reference: bool)
    ensures
        reference == is_reference(descriptor@),
{
    let chars = crate::text::chars_of(descriptor);
    chars.len() > 0 && (chars[0] == 'L' || chars[0] == '[')
}

/// The mask over the first `n` fields: the bit of each of the first 64 that is a reference.
pub open spec fn ref_mask(fields: Seq<FieldView>, n: int) -> u64
    decreases n,
{
    if n <= 0 {
        0
    } else {
        let before = ref_mask(fields, n - 1);
        if n <= 64 && is_reference(fields[n - 1].type_descriptor) {
            before | (1u64 << ((n - 1) as u64))
        } else {
            before
        }
    }
}

/// Bit *j* is set when the *j*-th instance field has a reference type (`L...;` or `[...`).
///
/// Fields from the 65th on are not represented: the mask is one word.
pub fn rows_ref_mask(rows: &[FieldRow]) -> (mask: u64)
    ensures
        mask == ref_mask(field_views(rows@), rows@.len() as int),
{
    let mut mask: u64 = 0;
    for position in 0..rows.len()
        invariant
            mask == ref_mask(field_views(rows@), position as int),
    {
        if position < 64 && reference_type(rows[position].type_descriptor.as_str()) {
            mask = mask | (1u64 << (position as u64));
        }
    }
    mask
}

proof fn lemma_ref_mask_bit(fields: Seq<FieldView>, n: int, j: u64)
    requires
        0 <= n <= fields.len(),
        j < 64,
    ensures
        (ref_mask(fields, n) >> j) & 1 == 1 <==> j < n && is_reference(
            fields[j as int].type_descriptor,
        ),
    decreases n,
{
    if n == 0 {
        assert((0u64 >> j) & 1 == 0) by (bit_vector);
    } else {
        lemma_ref_mask_bit(fields, n - 1, j);
        let before = ref_mask(fields, n - 1);
        if n <= 64 {
            let last = (n - 1) as u64;
            assert(((before | (1u64 << last)) >> j) & 1 == (if j == last {
                1
            } else {
                (before >> j) & 1
            })) by (bit_vector)
                requires
                    j < 64,
                    last < 64,
            ;
        }
    }
}

/// The mask is what a collector takes it for: bit `j` tells whether instance slot `j` holds a
/// reference, and no bit past the last field is set.
pub proof fn law_mask_marks_reference_slots(fields: Seq<FieldView>, j: u64)
    requires
        j < 64,
    ensures
        (ref_mask(fields, fields.len() as int) >> j) & 1 == 1 <==> j < fields.len() && is_reference(
            fields[j as int].type_descriptor,
        ),
{
    lemma_ref_mask_bit(fields, fields.len() as int, j);
}

/// One field of a record.
pub open spec fn field_json(field: FieldView) -> Seq<char> {
    "{\"field_index\":"@ + decimal(field.field_index as nat) + ",\"name\":"@ + quoted(field.name)
        + ",\"type\":"@ + quoted(field.type_descriptor) + ",\"access_flags\":"@ + decimal(
        field.access_flags as nat,
    ) + seq!['}']
}

/// The fields of a record, comma separated.
pub open spec fn fields_json(fields: Seq<FieldView>) -> Seq<char>
    decreases fields.len(),
{
    if fields.len() == 0 {
        Seq::empty()
    } else if fields.len() == 1 {
        field_json(fields[0])
    } else {
        fields_json(fields.drop_last()) + seq![','] + field_json(fields.last())
    }
}

/// Appends the fields as a JSON list.
pub fn push_rows(out: &mut String, rows: &[FieldRow])
    ensures
        final(out)@ == old(out)@ + seq!['['] + fields_json(field_views(rows@)) + seq![']'],
{
    let ghost start = out@;
    let ghost views = field_views(rows@);
    out.push('[');
    assert(out@ =~= start + seq!['['] + fields_json(views.take(0)));
    for position in 0..rows.len()
        invariant
            views == field_views(rows@),
            out@ == start + seq!['['] + fields_json(views.take(position as int)),
    {
        let ghost before = out@;
        if position > 0 {
            out.push(',');
        }
        let ghost opened = out@;
        let row = &rows[position];
        out.push_str("{\"field_index\":");
        push_decimal(out, row.field_index as u64);
        out.push_str(",\"name\":");
        push_json_string(out, row.name.as_str());
        out.push_str(",\"type\":");
        push_json_string(out, row.type_descriptor.as_str());
        out.push_str(",\"access_flags\":");
        push_decimal(out, row.access_flags as u64);
        out.push('}');
        proof {
            let k = position as int;
            assert(out@ =~= opened + field_json(views[k]));
            assert(views.take(k + 1).drop_last() =~= views.take(k));
            assert(views.take(k + 1).last() == views[k]);
            if k == 0 {
                assert(fields_json(views.take(0)) =~= Seq::empty());
                assert(views.take(1)[0] == views[0]);
            }
            assert(out@ =~= start + seq!['['] + fields_json(views.take(k + 1)));
        }
    }
    assert(views.take(views.len() as int) =~= views);
    out.push(']');
    assert(out@ =~= start + seq!['['] + fields_json(views) + seq![']']);
}

/// Writes `value` as a JSON string.
///
/// The names a record carries come from an untrusted file: DEX member names may contain `"`,
/// `\`, and control characters, all of which have to be escaped or the record becomes
/// unparseable exactly when it matters.
pub fn push_json_string(out: &mut String, value: &str)
    ensures
        final(out)@ == old(out)@ + quoted(value@),
{
    crate::json::escape(value, out);
}

/// What every plan record ends with: the field lists, their counts and the reference mask.
pub open spec fn plan_tail(instance: Seq<FieldView>, statics: Seq<FieldView>) -> Seq<char> {
    ",\"instance_fields\":"@ + seq!['['] + fields_json(instance) + seq![']'] + ",\"static_fields\":"@
        + seq!['['] + fields_json(statics) + seq![']'] + ",\"counts\":{\"instance\":"@ + decimal(
        instance.len(),
    ) + ",\"static\":"@ + decimal(statics.len()) + "},\"instance_ref_mask\":\""@ + "0x"@
        + hexadecimal(ref_mask(instance, instance.len() as int) as nat) + "\"}"@
}

/// Appends what every plan record ends with.
pub fn push_plan_tail(out: &mut String, instance: &[FieldRow], statics: &[FieldRow])
    ensures
        final(out)@ == old(out)@ + plan_tail(field_views(instance@), field_views(statics@)),
{
    let ghost start = out@;
    let ghost own = field_views(instance@);
    let ghost shared = field_views(statics@);
    out.push_str(",\"instance_fields\":");
    push_rows(out, instance);
    let ghost first = ",\"instance_fields\":"@ + seq!['['] + fields_json(own) + seq![']'];
    assert(out@ =~= start + first);
    out.push_str(",\"static_fields\":");
    push_rows(out, statics);
    let ghost lists = first + ",\"static_fields\":"@ + seq!['['] + fields_json(shared) + seq![']'];
    assert(out@ =~= start + lists);
    out.push_str(",\"counts\":{\"instance\":");
    push_decimal(out, instance.len() as u64);
    let ghost counted = lists + ",\"counts\":{\"instance\":"@ + decimal(own.len());
    assert(out@ =~= start + counted);
    out.push_str(",\"static\":");
    push_decimal(out, statics.len() as u64);
    let ghost counts = counted + ",\"static\":"@ + decimal(shared.len());
    assert(out@ =~= start + counts);
    out.push_str("},\"instance_ref_mask\":\"");
    out.push_str("0x");
    push_hexadecimal(out, rows_ref_mask(instance));
    out.push_str("\"}");
    assert(out@ =~= start + plan_tail(own, shared));
}

/// A position in a class's field numbering: instance fields first, then statics.
pub open spec fn field_at(members: MembersView, position: int) -> Option<(FieldView, bool)> {
    if position < members.instance.len() {
        Some((members.instance[position], false))
    } else if position - members.instance.len() < members.statics.len() {
        Some((members.statics[position - members.instance.len()], true))
    } else {
        None
    }
}

/// The index of the first method with the given `method_ids` index, or the length.
pub open spec fn method_position(methods: Seq<MethodView>, index: u32) -> int {
    crate::seqs::first_where(methods, |method: MethodView| method.method_index == index)
}

fn find_method(rows: &[MethodRow], index: u32) -> (found: Option<&MethodRow>)
    ensures
        match found {
            Some(row) => method_position(method_views(rows@), index) < rows@.len() && row@
                == method_views(rows@)[method_position(method_views(rows@), index)],
            None => method_position(method_views(rows@), index) == rows@.len(),
        },
{
    let ghost views = method_views(rows@);
    let ghost wanted = |method: MethodView| method.method_index == index;
    for i in 0..rows.len()
        invariant
            views == method_views(rows@),
            wanted == (|method: MethodView| method.method_index == index),
            forall|j: int| 0 <= j < i ==> !wanted(#[trigger] views[j]),
    {
        if rows[i].method_index == index {
            proof {
                assert(wanted(views[i as int]));
                crate::seqs::lemma_first_where(views, wanted, i as int);
            }
            return Some(&rows[i]);
        }
        assert(!wanted(views[i as int]));
    }
    proof {
        crate::seqs::lemma_first_where(views, wanted, views.len() as int);
    }
    None
}

impl ClassMembers {
    /// The field at the position a runtime reports: instance fields first, then
    /// statics.
    ///
    /// This is the numbering a field probe carries (`ifields_` then `sfields_` order),
    /// and it is deliberately not the `field_ids` index each row also carries. The
    /// second element says whether the position landed in the static block.
    pub fn field_at_position(&self, position: u32) -> (found: Option<(&FieldRow, bool)>)
        ensures
            match found {
                Some(pair) => field_at(self@, position as int) == Some((pair.0@, pair.1)),
                None => field_at(self@, position as int) is None,
            },
    {
        let at: usize = position as usize;
        if at < self.instance.len() {
            return Some((&self.instance[at], false));
        }
        let rest = at - self.instance.len();
        if rest < self.statics.len() {
            Some((&self.statics[rest], true))
        } else {
            None
        }
    }

    /// The method carrying `index`. Direct methods are asked before virtual ones; the two share
    /// one `method_ids` table.
    pub fn method(&self, index: u32) -> (found: Option<&MethodRow>)
        ensures
            ({
                let direct = method_position(self@.direct_methods, index);
                let virtuals = method_position(self@.virtual_methods, index);
                match found {
                    Some(row) => if direct < self@.direct_methods.len() {
                        row@ == self@.direct_methods[direct]
                    } else {
                        virtuals < self@.virtual_methods.len() && row@
                            == self@.virtual_methods[virtuals]
                    },
                    None => direct == self@.direct_methods.len() && virtuals
                        == self@.virtual_methods.len(),
                }
            }),
    {
        match find_method(self.direct_methods.as_slice(), index) {
            Some(row) => Some(row),
            None => find_method(self.virtual_methods.as_slice(), index),
        }
    }

    /// The fields-only view `field_plan` publishes.
    pub fn field_plan(&self) -> (plan: FieldPlan)
        ensures
            plan@ == layout_of(self@),
    {
        let plan = FieldPlan {
            descriptor: self.descriptor.clone(),
            dex_class_def_idx: self.dex_class_def_idx,
            dex_type_idx: self.dex_type_idx,
            access_flags: self.access_flags,
            instance: self.instance.clone(),
            statics: self.statics.clone(),
        };
        assert(plan.instance@ =~= self.instance@);
        assert(plan.statics@ =~= self.statics@);
        plan
    }
}

/// The fields-only view of `members`.
pub open spec fn layout_of(members: MembersView) -> LayoutView {
    LayoutView {
        descriptor: members.descriptor,
        dex_class_def_idx: members.dex_class_def_idx,
        dex_type_idx: members.dex_type_idx,
        access_flags: members.access_flags,
        instance: members.instance,
        statics: members.statics,
    }
}

impl FieldPlan {
    /// Bit *j* is set when the *j*-th instance field (ascending `field_index`) has a
    /// reference type (`L...;` or `[...`).
    ///
    /// This is a runtime contract, not a convenience: a collector uses
    /// `(mask >> i) & 1` to decide whether instance slot *i* may be dereferenced as a
    /// pointer, so a mask that is off by one bit makes it read a non-reference slot as
    /// a pointer. Fields from the 65th on are not represented (the mask is one word).
    pub fn instance_ref_mask(&self) -> (mask: u64)
        ensures
            mask == ref_mask(field_views(self.instance@), self.instance@.len() as int),
    {
        rows_ref_mask(self.instance.as_slice())
    }

    /// The one-object JSONL record this plan is handed around as.
    ///
    /// `field_index` is in here as well as the position, because a caller that has an
    /// index from the runtime has to be able to find the row it belongs to.
    pub fn render_json(&self) -> (json: String)
        ensures
            json@ == plan_json(self@),
    {
        let mut out = String::new();
        out.push_str("{\"schema\":\"rasc.fields-plan/v1\",\"descriptor\":");
        push_json_string(&mut out, self.descriptor.as_str());
        out.push_str(",\"dex_class_def_idx\":");
        push_decimal(&mut out, self.dex_class_def_idx as u64);
        out.push_str(",\"dex_type_idx\":");
        push_decimal(&mut out, self.dex_type_idx as u64);
        out.push_str(",\"class_access_flags\":");
        push_decimal(&mut out, self.access_flags as u64);
        push_plan_tail(&mut out, self.instance.as_slice(), self.statics.as_slice());
        assert(out@ =~= plan_json(self@));
        out
    }
}

/// The record of a plan.
pub open spec fn plan_json(plan: LayoutView) -> Seq<char> {
    "{\"schema\":\"rasc.fields-plan/v1\",\"descriptor\":"@ + quoted(plan.descriptor)
        + ",\"dex_class_def_idx\":"@ + decimal(plan.dex_class_def_idx as nat)
        + ",\"dex_type_idx\":"@ + decimal(plan.dex_type_idx as nat) + ",\"class_access_flags\":"@
        + decimal(plan.access_flags as nat) + plan_tail(plan.instance, plan.statics)
}

/// Builds the field plan for `descriptor`, or `None` when this DEX does not define it.
///
/// `descriptor` must already be in DEX form (`Lcom/foo/Bar;`).
pub fn field_plan(data: &[u8], descriptor: &str) -> (plan: Result<Option<FieldPlan>, Error>)
    ensures
        match members_of(data@, descriptor@) {
            Ok(Some(members)) => plan matches Ok(Some(found)) && found@ == layout_of(members),
            Ok(None) => plan == Ok::<Option<FieldPlan>, Error>(None),
            Err(error) => plan == Err::<Option<FieldPlan>, Error>(error),
        },
{
    match class_members(data, descriptor) {
        Ok(Some(members)) => Ok(Some(members.field_plan())),
        Ok(None) => Ok(None),
        Err(error) => Err(error),
    }
}

/// Whether fields are in ascending order of their indices, none below `index`, and each belongs
/// to the class with the given type.
pub open spec fn fields_ordered(data: Seq<u8>, fields: Seq<FieldView>, index: int, class_type: int) -> bool {
    &&& forall|i: int|
        0 <= i < fields.len() ==> {
            let field = #[trigger] fields[i];
            index <= field.field_index && le16(
                data,
                row_off(data, Table::Fields, field.field_index as int),
            ) == class_type
        }
    &&& forall|i: int, j: int|
        0 <= i <= j < fields.len() ==> (#[trigger] fields[i]).field_index <= (
        #[trigger] fields[j]).field_index
}

/// Whether methods are in ascending order of their indices, none below `index`, and each belongs
/// to the class with the given type.
pub open spec fn methods_ordered(
    data: Seq<u8>,
    methods: Seq<MethodView>,
    index: int,
    class_type: int,
) -> bool {
    &&& forall|i: int|
        0 <= i < methods.len() ==> {
            let method = #[trigger] methods[i];
            index <= method.method_index && le16(
                data,
                row_off(data, Table::Methods, method.method_index as int),
            ) == class_type
        }
    &&& forall|i: int, j: int|
        0 <= i <= j < methods.len() ==> (#[trigger] methods[i]).method_index <= (
        #[trigger] methods[j]).method_index
}

/// A number is never negative, and never past what 32 bits hold.
pub(crate) proof fn lemma_uleb_range(data: Seq<u8>, at: int, done: int)
    requires
        0 <= done,
        super::uleb_from(data, at, done) is Some,
    ensures
        0 <= (super::uleb_from(data, at, done)->0).0 <= u32::MAX,
        done >= 1 ==> (super::uleb_from(data, at, done)->0).0 < 0x200_0000,
        done >= 2 ==> (super::uleb_from(data, at, done)->0).0 < 0x4_0000,
        done >= 3 ==> (super::uleb_from(data, at, done)->0).0 < 0x800,
        done >= 4 ==> (super::uleb_from(data, at, done)->0).0 < 0x10,
    decreases 5 - done,
{
    if data[at] >= 0x80 {
        lemma_uleb_range(data, at + 1, done + 1);
    }
}

/// The fields of a class are as many as it declares, in ascending `field_ids` order, and all its
/// own.
pub proof fn law_fields_are_in_order(data: Seq<u8>, at: int, index: int, count: int, class_type: int)
    requires
        0 <= index,
        0 <= count,
        fields_from(data, at, index, count, class_type) is Ok,
    ensures
        (fields_from(data, at, index, count, class_type)->Ok_0).0.len() == count,
        fields_ordered(
            data,
            (fields_from(data, at, index, count, class_type)->Ok_0).0,
            index,
            class_type,
        ),
    decreases count,
{
    if count > 0 {
        let first = field_entry(data, at, index, class_type)->Ok_0;
        lemma_uleb_range(data, at, 0);
        let next = first.0.field_index as int;
        law_fields_are_in_order(data, first.1, next, count - 1, class_type);
        let rest = (fields_from(data, first.1, next, count - 1, class_type)->Ok_0).0;
        let all = (fields_from(data, at, index, count, class_type)->Ok_0).0;
        assert(all == seq![first.0] + rest);
        assert forall|i: int| 0 <= i < all.len() implies index <= (#[trigger] all[i]).field_index
            && le16(data, row_off(data, Table::Fields, all[i].field_index as int)) == class_type by {
            if i > 0 {
                assert(all[i] == rest[i - 1]);
            }
        }
        assert forall|i: int, j: int| 0 <= i <= j < all.len() implies (#[trigger] all[i]).field_index
            <= (#[trigger] all[j]).field_index by {
            if i > 0 {
                assert(all[i] == rest[i - 1] && all[j] == rest[j - 1]);
            } else if j > 0 {
                assert(all[j] == rest[j - 1]);
            }
        }
    }
}

/// The methods of a class are as many as it declares, in ascending `method_ids` order, and all
/// its own.
pub proof fn law_methods_are_in_order(
    data: Seq<u8>,
    at: int,
    index: int,
    count: int,
    class_type: int,
)
    requires
        0 <= index,
        0 <= count,
        methods_from(data, at, index, count, class_type) is Ok,
    ensures
        (methods_from(data, at, index, count, class_type)->Ok_0).0.len() == count,
        methods_ordered(
            data,
            (methods_from(data, at, index, count, class_type)->Ok_0).0,
            index,
            class_type,
        ),
    decreases count,
{
    if count > 0 {
        let first = method_entry(data, at, index, class_type)->Ok_0;
        lemma_uleb_range(data, at, 0);
        let next = first.0.method_index as int;
        law_methods_are_in_order(data, first.1, next, count - 1, class_type);
        let rest = (methods_from(data, first.1, next, count - 1, class_type)->Ok_0).0;
        let all = (methods_from(data, at, index, count, class_type)->Ok_0).0;
        assert(all == seq![first.0] + rest);
        assert forall|i: int| 0 <= i < all.len() implies index <= (#[trigger] all[i]).method_index
            && le16(data, row_off(data, Table::Methods, all[i].method_index as int)) == class_type by {
            if i > 0 {
                assert(all[i] == rest[i - 1]);
            }
        }
        assert forall|i: int, j: int| 0 <= i <= j < all.len() implies (
        #[trigger] all[i]).method_index <= (#[trigger] all[j]).method_index by {
            if i > 0 {
                assert(all[i] == rest[i - 1] && all[j] == rest[j - 1]);
            } else if j > 0 {
                assert(all[j] == rest[j - 1]);
            }
        }
    }
}

/// Every member of a class that a DEX file defines is one of the class's own, and each kind is
/// in the order of its table.
pub proof fn law_members_are_the_classes_own(data: Seq<u8>, descriptor: Seq<char>, members: MembersView)
    requires
        members_of(data, descriptor) == Ok::<Option<MembersView>, Error>(Some(members)),
    ensures
        fields_ordered(data, members.statics, 0, members.dex_type_idx as int),
        fields_ordered(data, members.instance, 0, members.dex_type_idx as int),
        methods_ordered(data, members.direct_methods, 0, members.dex_type_idx as int),
        methods_ordered(data, members.virtual_methods, 0, members.dex_type_idx as int),
        members.statics.len() <= u32::MAX,
        members.instance.len() <= u32::MAX,
{
    let index = class_row(data, descriptor)->Ok_0->0;
    let at = class_data_off(data, index);
    let kind = class_type(data, index);
    if at != 0 {
        let counts = member_counts(data, at)->Ok_0;
        let a = uleb_at(data, at)->0;
        let b = uleb_at(data, a.1)->0;
        let c = uleb_at(data, b.1)->0;
        lemma_uleb_range(data, at, 0);
        lemma_uleb_range(data, a.1, 0);
        lemma_uleb_range(data, b.1, 0);
        lemma_uleb_range(data, c.1, 0);
        let statics = fields_from(data, counts.4, 0, counts.0, kind)->Ok_0;
        law_fields_are_in_order(data, counts.4, 0, counts.0, kind);
        let instance = fields_from(data, statics.1, 0, counts.1, kind)->Ok_0;
        law_fields_are_in_order(data, statics.1, 0, counts.1, kind);
        let direct = methods_from(data, instance.1, 0, counts.2, kind)->Ok_0;
        law_methods_are_in_order(data, instance.1, 0, counts.2, kind);
        law_methods_are_in_order(data, direct.1, 0, counts.3, kind);
    }
}

/// The line of one field.
pub open spec fn field_line_text(field: FieldView, slot: nat, is_static: bool) -> Seq<char> {
    "# members fields: field_ids="@ + decimal(field.field_index as nat) + " slot="@ + decimal(slot)
        + " static="@ + (if is_static {
        "true"@
    } else {
        "false"@
    }) + " flags=0x"@ + hexadecimal(field.access_flags as nat) + " type="@ + field.type_descriptor
        + " name="@ + field.name
}

/// The line of one method, given its prototype.
pub open spec fn method_line_text(method: MethodView, proto: Seq<char>) -> Seq<char> {
    "# members methods: method_ids="@ + decimal(method.method_index as nat) + " proto="@ + proto
        + " flags=0x"@ + hexadecimal(method.access_flags as nat) + " name="@ + method.name
}

/// The lines of the fields, instance fields first, then statics.
pub open spec fn field_lines(members: MembersView) -> Seq<Seq<char>> {
    Seq::new(
        members.instance.len() + members.statics.len(),
        |slot: int|
            if slot < members.instance.len() {
                field_line_text(members.instance[slot], slot as nat, false)
            } else {
                field_line_text(
                    members.statics[slot - members.instance.len()],
                    slot as nat,
                    true,
                )
            },
    )
}

/// The lines of the methods, direct before virtual, by position.
pub open spec fn method_line(data: Seq<u8>, members: MembersView) -> spec_fn(int) -> Result<
    Seq<char>,
    Error,
> {
    |k: int| method_row_line(data, (members.direct_methods + members.virtual_methods)[k])
}

/// The member table of a class: a line for each field, then one for each method.
pub open spec fn lines_of(data: Seq<u8>, members: MembersView) -> Result<Seq<Seq<char>>, Error> {
    match collect(
        (members.direct_methods.len() + members.virtual_methods.len()) as int,
        method_line(data, members),
    ) {
        Ok(methods) => Ok(field_lines(members) + methods),
        Err(error) => Err(error),
    }
}

/// The line of one field.
pub(crate) fn field_line(field: &FieldRow, slot: u64, is_static: bool) -> (line: String)
    ensures
        line@ == field_line_text(field@, slot as nat, is_static),
{
    let mut line = String::new();
    line.push_str("# members fields: field_ids=");
    push_decimal(&mut line, field.field_index as u64);
    line.push_str(" slot=");
    push_decimal(&mut line, slot);
    line.push_str(" static=");
    if is_static {
        line.push_str("true");
    } else {
        line.push_str("false");
    }
    line.push_str(" flags=0x");
    push_hexadecimal(&mut line, field.access_flags as u64);
    line.push_str(" type=");
    line.push_str(field.type_descriptor.as_str());
    line.push_str(" name=");
    line.push_str(field.name.as_str());
    assert(line@ =~= field_line_text(field@, slot as nat, is_static));
    line
}

/// The line of a method, as its prototype has it.
pub open spec fn method_row_line(data: Seq<u8>, method: MethodView) -> Result<Seq<char>, Error> {
    match proto_text(data, method.proto_idx as int) {
        Ok(proto) => Ok(method_line_text(method, proto)),
        Err(error) => Err(error),
    }
}

/// The line of one method.
pub(crate) fn row_line(dex: &Dex<'_>, method: &MethodRow) -> (line: Result<String, Error>)
    requires
        dex.valid(),
    ensures
        match line {
            Ok(line) => method_row_line(dex.data@, method@) == Ok::<Seq<char>, Error>(line@),
            Err(error) => method_row_line(dex.data@, method@) == Err::<Seq<char>, Error>(error),
        },
{
    let proto = match dex.proto(method.proto_idx as usize) {
        Ok(proto) => proto,
        Err(error) => {
            return Err(error);
        },
    };
    let mut line = String::new();
    line.push_str("# members methods: method_ids=");
    push_decimal(&mut line, method.method_index as u64);
    line.push_str(" proto=");
    line.push_str(proto.as_str());
    line.push_str(" flags=0x");
    push_hexadecimal(&mut line, method.access_flags as u64);
    line.push_str(" name=");
    line.push_str(method.name.as_str());
    assert(line@ =~= method_line_text(method@, proto@));
    Ok(line)
}

/// Appends the lines of some methods, as far as their prototypes can be read.
fn push_method_lines(dex: &Dex<'_>, lines: &mut Vec<String>, rows: &[MethodRow]) -> (done: Result<
    (),
    Error,
>)
    requires
        dex.valid(),
    ensures
        ({
            let f = rows_line(dex.data@, method_views(rows@));
            match collect(rows@.len() as int, f) {
                Ok(methods) => done is Ok && texts(final(lines)@) == texts(old(lines)@) + methods,
                Err(error) => done == Err::<(), Error>(error),
            }
        }),
{
    let ghost f = rows_line(dex.data@, method_views(rows@));
    let ghost start = texts(lines@);
    let count: usize = rows.len();
    let mut k: usize = 0;
    assert(start + Seq::<Seq<char>>::empty() =~= start);
    while k < count
        invariant
            dex.valid(),
            count == rows@.len(),
            f == rows_line(dex.data@, method_views(rows@)),
            k <= count,
            collect(k as int, f) matches Ok(methods) && texts(lines@) == start + methods,
        decreases count - k,
    {
        let method = &rows[k];
        let line = match row_line(dex, method) {
            Ok(line) => line,
            Err(error) => {
                proof {
                    assert(f(k as int) == Err::<Seq<char>, Error>(error));
                    lemma_collect_fails(count as int, k as int, f);
                }
                return Err(error);
            },
        };
        let ghost before = lines@;
        assert(f(k as int) == Ok::<Seq<char>, Error>(line@));
        lines.push(line);
        proof {
            let methods = collect(k as int, f)->Ok_0;
            assert(texts(lines@) =~= texts(before).push(line@));
            assert((start + methods).push(line@) =~= start + methods.push(line@));
        }
        k = k + 1;
    }
    Ok(())
}

/// The lines of some methods, by position.
pub open spec fn rows_line(data: Seq<u8>, methods: Seq<MethodView>) -> spec_fn(int) -> Result<
    Seq<char>,
    Error,
> {
    |k: int| method_row_line(data, methods[k])
}

/// The lines of two lists of methods are those of the one behind those of the other.
proof fn lemma_method_lines(data: Seq<u8>, members: MembersView, n: int)
    requires
        0 <= n <= members.direct_methods.len() + members.virtual_methods.len(),
    ensures
        ({
            let d = members.direct_methods.len() as int;
            let both = collect(n, method_line(data, members));
            let direct = rows_line(data, members.direct_methods);
            let virtuals = rows_line(data, members.virtual_methods);
            if n <= d {
                both == collect(n, direct)
            } else {
                match collect(d, direct) {
                    Err(error) => both == Err::<Seq<Seq<char>>, Error>(error),
                    Ok(first) => match collect(n - d, virtuals) {
                        Err(error) => both == Err::<Seq<Seq<char>>, Error>(error),
                        Ok(second) => both == Ok::<Seq<Seq<char>>, Error>(first + second),
                    },
                }
            }
        }),
    decreases n,
{
    if n > 0 {
        lemma_method_lines(data, members, n - 1);
        let d = members.direct_methods.len() as int;
        let all = members.direct_methods + members.virtual_methods;
        let direct = rows_line(data, members.direct_methods);
        let virtuals = rows_line(data, members.virtual_methods);
        if n <= d {
            assert(all[n - 1] == members.direct_methods[n - 1]);
        } else {
            assert(all[n - 1] == members.virtual_methods[n - 1 - d]);
            if collect(d, direct) is Ok {
                let first = collect(d, direct)->Ok_0;
                if n - 1 == d {
                    assert(first + Seq::<Seq<char>>::empty() =~= first);
                }
                if collect(n - d, virtuals) is Ok {
                    let before = collect(n - 1 - d, virtuals)->Ok_0;
                    let last = virtuals(n - 1 - d)->Ok_0;
                    assert((first + before).push(last) =~= first + before.push(last));
                }
            }
        }
    }
}

/// The lines of the fields of a class.
fn members_field_lines(members: &ClassMembers) -> (lines: Vec<String>)
    requires
        members.instance@.len() <= u32::MAX,
        members.statics@.len() <= u32::MAX,
    ensures
        texts(lines@) == field_lines(members@),
{
    let ghost view = members@;
    let ghost expected = field_lines(view);
    let mut lines: Vec<String> = Vec::new();
    let instance_count: usize = members.instance.len();
    assert(texts(lines@) =~= expected.take(0));
    for slot in 0..instance_count
        invariant
            view == members@,
            expected == field_lines(view),
            instance_count == members.instance@.len(),
            texts(lines@) == expected.take(slot as int),
    {
        let ghost before = lines@;
        lines.push(field_line(&members.instance[slot], slot as u64, false));
        proof {
            assert(texts(lines@) =~= texts(before).push(expected[slot as int]));
            assert(expected.take(slot + 1) =~= expected.take(slot as int).push(expected[slot as int]));
        }
    }
    for offset in 0..members.statics.len()
        invariant
            view == members@,
            expected == field_lines(view),
            instance_count == members.instance@.len(),
            members.instance@.len() <= u32::MAX,
            members.statics@.len() <= u32::MAX,
            texts(lines@) == expected.take(instance_count + offset),
    {
        let ghost before = lines@;
        let ghost slot = instance_count + offset;
        lines.push(
            field_line(&members.statics[offset], instance_count as u64 + offset as u64, true),
        );
        proof {
            assert(texts(lines@) =~= texts(before).push(expected[slot]));
            assert(expected.take(slot + 1) =~= expected.take(slot).push(expected[slot]));
        }
    }
    assert(expected.take(expected.len() as int) =~= expected);
    lines
}

/// Appends the lines of the methods of a class, direct before virtual.
fn push_all_method_lines(dex: &Dex<'_>, lines: &mut Vec<String>, members: &ClassMembers) -> (done: Result<
    (),
    Error,
>)
    requires
        dex.valid(),
    ensures
        match collect(
            (members@.direct_methods.len() + members@.virtual_methods.len()) as int,
            method_line(dex.data@, members@),
        ) {
            Ok(methods) => done is Ok && texts(final(lines)@) == texts(old(lines)@) + methods,
            Err(error) => done == Err::<(), Error>(error),
        },
{
    let ghost view = members@;
    let ghost start = texts(lines@);
    proof {
        lemma_method_lines(
            dex.data@,
            view,
            (view.direct_methods.len() + view.virtual_methods.len()) as int,
        );
        lemma_method_lines(dex.data@, view, view.direct_methods.len() as int);
        assert(collect(0, rows_line(dex.data@, view.virtual_methods)) == Ok::<Seq<Seq<char>>, Error>(
            Seq::empty(),
        ));
    }
    match push_method_lines(dex, lines, members.direct_methods.as_slice()) {
        Ok(_) => {},
        Err(error) => {
            return Err(error);
        },
    }
    match push_method_lines(dex, lines, members.virtual_methods.as_slice()) {
        Ok(_) => {},
        Err(error) => {
            return Err(error);
        },
    }
    proof {
        let first = collect(
            view.direct_methods.len() as int,
            rows_line(dex.data@, view.direct_methods),
        )->Ok_0;
        let second = collect(
            view.virtual_methods.len() as int,
            rows_line(dex.data@, view.virtual_methods),
        )->Ok_0;
        assert(first + Seq::<Seq<char>>::empty() =~= first);
        assert((start + first) + second =~= start + (first + second));
        if view.virtual_methods.len() == 0 {
            assert(second =~= Seq::empty());
        }
    }
    Ok(())
}

/// The machine-readable member table for one class: one line per field and per method.
///
/// The lines read as comments to a human and as records to a program, which is what lets
/// them sit in front of unchanged source. They exist because a *name* is not an identity:
/// `a(II)V` and `a()V` are different methods, so a runtime index cannot be matched to a member
/// without the prototype. `slot` is the position a runtime field index refers to (instance
/// fields first, then statics); `field_ids`/`method_ids` are the DEX indices.
///
/// `name=` is written last on purpose: a DEX member name may contain spaces, so everything
/// after the first `name=` is the name.
pub fn member_lines(data: &[u8], descriptor: &str) -> (lines: Result<Option<Vec<String>>, Error>)
    ensures
        match members_of(data@, descriptor@) {
            Err(error) => lines == Err::<Option<Vec<String>>, Error>(error),
            Ok(None) => lines == Ok::<Option<Vec<String>>, Error>(None),
            Ok(Some(members)) => match lines_of(data@, members) {
                Ok(expected) => lines matches Ok(Some(list)) && texts(list@) == expected,
                Err(error) => lines == Err::<Option<Vec<String>>, Error>(error),
            },
        },
{
    let members = match class_members(data, descriptor) {
        Ok(Some(members)) => members,
        Ok(None) => {
            return Ok(None);
        },
        Err(error) => {
            return Err(error);
        },
    };
    let dex = match Dex::parse(data) {
        Ok(dex) => dex,
        Err(error) => {
            return Err(error);
        },
    };
    proof {
        law_members_are_the_classes_own(data@, descriptor@, members@);
    }
    let mut lines = members_field_lines(&members);
    match push_all_method_lines(&dex, &mut lines, &members) {
        Ok(_) => Ok(Some(lines)),
        Err(error) => Err(error),
    }
}

/// Whether a field is what its row of the field table says: the 16-bit number in the middle of the
/// row names its type, and the 32-bit number at the end of the row its name.
pub open spec fn field_is_its_row(data: Seq<u8>, field: FieldView) -> bool {
    let row = row_off(data, Table::Fields, field.field_index as int);
    let kind = data[row + 2] + 0x100 * data[row + 3];
    let name = data[row + 4] + 0x100 * data[row + 5] + 0x1_0000 * data[row + 6] + 0x100_0000
        * data[row + 7];
    &&& raw_type(data, kind) is Ok
    &&& field.type_descriptor == shown(raw_type(data, kind)->Ok_0)
    &&& raw_string(data, name) is Ok
    &&& field.name == shown(raw_string(data, name)->Ok_0)
}

/// Whether a method is what its row of the method table says: the 16-bit number in the middle of
/// the row names its prototype, and the 32-bit number at the end of the row its name.
pub open spec fn method_is_its_row(data: Seq<u8>, method: MethodView) -> bool {
    let row = row_off(data, Table::Methods, method.method_index as int);
    let name = data[row + 4] + 0x100 * data[row + 5] + 0x1_0000 * data[row + 6] + 0x100_0000
        * data[row + 7];
    &&& method.proto_idx == data[row + 2] + 0x100 * data[row + 3]
    &&& raw_string(data, name) is Ok
    &&& method.name == shown(raw_string(data, name)->Ok_0)
}

proof fn lemma_fields_are_their_rows(
    data: Seq<u8>,
    at: int,
    index: int,
    count: int,
    class_type: int,
)
    requires
        0 <= index,
        fields_from(data, at, index, count, class_type) is Ok,
    ensures
        forall|i: int|
            0 <= i < (fields_from(data, at, index, count, class_type)->Ok_0).0.len()
                ==> field_is_its_row(
                data,
                #[trigger] (fields_from(data, at, index, count, class_type)->Ok_0).0[i],
            ),
    decreases count,
{
    if count > 0 {
        let first = field_entry(data, at, index, class_type)->Ok_0;
        lemma_uleb_range(data, at, 0);
        let next = first.0.field_index as int;
        lemma_fields_are_their_rows(data, first.1, next, count - 1, class_type);
        let rest = (fields_from(data, first.1, next, count - 1, class_type)->Ok_0).0;
        let all = (fields_from(data, at, index, count, class_type)->Ok_0).0;
        assert(all == seq![first.0] + rest);
        assert(field_is_its_row(data, first.0));
        assert forall|i: int| 0 <= i < all.len() implies field_is_its_row(data, #[trigger] all[i]) by {
            if i > 0 {
                assert(all[i] == rest[i - 1]);
            }
        }
    }
}

pub(crate) proof fn lemma_methods_are_their_rows(
    data: Seq<u8>,
    at: int,
    index: int,
    count: int,
    class_type: int,
)
    requires
        0 <= index,
        methods_from(data, at, index, count, class_type) is Ok,
    ensures
        forall|i: int|
            0 <= i < (methods_from(data, at, index, count, class_type)->Ok_0).0.len()
                ==> method_is_its_row(
                data,
                #[trigger] (methods_from(data, at, index, count, class_type)->Ok_0).0[i],
            ),
    decreases count,
{
    if count > 0 {
        let first = method_entry(data, at, index, class_type)->Ok_0;
        lemma_uleb_range(data, at, 0);
        let next = first.0.method_index as int;
        lemma_methods_are_their_rows(data, first.1, next, count - 1, class_type);
        let rest = (methods_from(data, first.1, next, count - 1, class_type)->Ok_0).0;
        let all = (methods_from(data, at, index, count, class_type)->Ok_0).0;
        assert(all == seq![first.0] + rest);
        assert(method_is_its_row(data, first.0));
        assert forall|i: int| 0 <= i < all.len() implies method_is_its_row(data, #[trigger] all[i]) by {
            if i > 0 {
                assert(all[i] == rest[i - 1]);
            }
        }
    }
}

/// Every member of a class is what its row of the member table says, by the whole of the row:
/// the type of a field and the prototype of a method are those whose index stands in it, and so is
/// the name. So fields with one type index have one type, and fields whose types differ show it.
pub proof fn law_members_are_their_rows(data: Seq<u8>, descriptor: Seq<char>, members: MembersView)
    requires
        members_of(data, descriptor) == Ok::<Option<MembersView>, Error>(Some(members)),
    ensures
        forall|i: int|
            0 <= i < members.statics.len() ==> field_is_its_row(data, #[trigger] members.statics[i]),
        forall|i: int|
            0 <= i < members.instance.len() ==> field_is_its_row(
                data,
                #[trigger] members.instance[i],
            ),
        forall|i: int|
            0 <= i < members.direct_methods.len() ==> method_is_its_row(
                data,
                #[trigger] members.direct_methods[i],
            ),
        forall|i: int|
            0 <= i < members.virtual_methods.len() ==> method_is_its_row(
                data,
                #[trigger] members.virtual_methods[i],
            ),
{
    let index = class_row(data, descriptor)->Ok_0->0;
    let at = class_data_off(data, index);
    let kind = class_type(data, index);
    if at != 0 {
        let counts = member_counts(data, at)->Ok_0;
        let statics = fields_from(data, counts.4, 0, counts.0, kind)->Ok_0;
        lemma_fields_are_their_rows(data, counts.4, 0, counts.0, kind);
        let instance = fields_from(data, statics.1, 0, counts.1, kind)->Ok_0;
        lemma_fields_are_their_rows(data, statics.1, 0, counts.1, kind);
        let direct = methods_from(data, instance.1, 0, counts.2, kind)->Ok_0;
        lemma_methods_are_their_rows(data, instance.1, 0, counts.2, kind);
        lemma_methods_are_their_rows(data, direct.1, 0, counts.3, kind);
    }
}

/// However the line of a field is cut at its labels, the numbers are those of the field.
pub proof fn law_field_line_reads_back(
    field: FieldView,
    slot: nat,
    is_static: bool,
    index: Seq<char>,
    place: Seq<char>,
    word: Seq<char>,
    flags: Seq<char>,
    rest: Seq<char>,
)
    requires
        field_line_text(field, slot, is_static) == "# members fields: field_ids="@ + index + " slot="@
            + place + " static="@ + word + " flags=0x"@ + flags + " type="@ + rest,
        !index.contains(' '),
        !place.contains(' '),
        !word.contains(' '),
        !flags.contains(' '),
    ensures
        value_of(index, 10) == field.field_index,
        value_of(place, 10) == slot,
        word == "true"@ <==> is_static,
        value_of(flags, 16) == field.access_flags,
        rest == field.type_descriptor + " name="@ + field.name,
{
    let start = "# members fields: field_ids="@;
    let own_word = if is_static {
        "true"@
    } else {
        "false"@
    };
    let own_rest = field.type_descriptor + " name="@ + field.name;
    let own = (
        decimal(field.field_index as nat),
        decimal(slot),
        own_word,
        hexadecimal(field.access_flags as nat),
        own_rest,
    );
    let given = (index, place, word, flags, rest);
    let marks = (" slot="@, " static="@, " flags=0x"@, " type="@);
    law_decimal_reads_back(field.field_index as nat);
    law_decimal_reads_back(slot);
    law_hexadecimal_reads_back(field.access_flags as nat);
    lemma_digits_have_no(field.field_index as nat, ' ');
    lemma_digits_have_no(slot, ' ');
    lemma_digits_have_no(field.access_flags as nat, ' ');
    assert(!own_word.contains(' ') && ("true"@ != "false"@)) by {
        reveal_strlit("true");
        reveal_strlit("false");
        assert("true"@.len() == 4 && "false"@.len() == 5);
    }
    assert(marks.0.len() > 0 && marks.0[0] == ' ' && marks.1.len() > 0 && marks.1[0] == ' '
        && marks.2.len() > 0 && marks.2[0] == ' ' && marks.3.len() > 0 && marks.3[0] == ' ') by {
        reveal_strlit(" slot=");
        reveal_strlit(" static=");
        reveal_strlit(" flags=0x");
        reveal_strlit(" type=");
    }
    let front = start + own.0 + marks.0 + own.1 + marks.1 + own.2 + marks.2 + own.3 + marks.3;
    assert(front + field.type_descriptor + " name="@ + field.name =~= front + own_rest);
    lemma_cut_four(start, own, given, marks, ' ');
}

/// However the line of a method is cut at its labels, the numbers are those of the method.
pub proof fn law_method_line_reads_back(
    method: MethodView,
    proto: Seq<char>,
    index: Seq<char>,
    shown_proto: Seq<char>,
    flags: Seq<char>,
    name: Seq<char>,
)
    requires
        method_line_text(method, proto) == "# members methods: method_ids="@ + index + " proto="@
            + shown_proto + " flags=0x"@ + flags + " name="@ + name,
        !index.contains(' '),
        !proto.contains(' '),
        !shown_proto.contains(' '),
        !flags.contains(' '),
    ensures
        value_of(index, 10) == method.method_index,
        shown_proto == proto,
        value_of(flags, 16) == method.access_flags,
        name == method.name,
{
    reveal_strlit(" proto=");
    reveal_strlit(" flags=0x");
    reveal_strlit(" name=");
    let line = method_line_text(method, proto);
    let start = "# members methods: method_ids="@;
    let own_index = decimal(method.method_index as nat);
    let own_flags = hexadecimal(method.access_flags as nat);
    law_decimal_reads_back(method.method_index as nat);
    law_hexadecimal_reads_back(method.access_flags as nat);
    lemma_digits_have_no(method.method_index as nat, ' ');
    lemma_digits_have_no(method.access_flags as nat, ' ');
    let own3 = own_flags + " name="@ + method.name;
    let own2 = proto + " flags=0x"@ + own3;
    let own1 = own_index + " proto="@ + own2;
    let given3 = flags + " name="@ + name;
    let given2 = shown_proto + " flags=0x"@ + given3;
    let given1 = index + " proto="@ + given2;
    assert(line =~= start + own1);
    assert(line =~= start + given1);
    lemma_same_rest(start, own1, given1);
    lemma_cut(own_index, own2, index, given2, " proto="@);
    lemma_cut(proto, own3, shown_proto, given3, " flags=0x"@);
    lemma_cut(own_flags, method.name, flags, name, " name="@);
}

/// The member table has a line for every field and every method: instance fields, statics, direct
/// methods and virtual methods, each in the order of the class.
pub proof fn law_every_member_has_a_line(data: Seq<u8>, members: MembersView, k: int)
    requires
        lines_of(data, members) is Ok,
        0 <= k < members.instance.len() + members.statics.len() + members.direct_methods.len()
            + members.virtual_methods.len(),
    ensures
        ({
            let lines = lines_of(data, members)->Ok_0;
            let fields = members.instance + members.statics;
            let methods = members.direct_methods + members.virtual_methods;
            &&& lines.len() == fields.len() + methods.len()
            &&& k < fields.len() ==> lines[k] == field_line_text(
                fields[k],
                k as nat,
                k >= members.instance.len(),
            )
            &&& k >= fields.len() ==> (proto_text(
                data,
                methods[k - fields.len()].proto_idx as int,
            ) matches Ok(proto) && lines[k] == method_line_text(methods[k - fields.len()], proto))
        }),
{
    let methods = members.direct_methods + members.virtual_methods;
    let f = method_line(data, members);
    let n = methods.len() as int;
    lemma_collect_succeeds(n, f);
    let shown = collect(n, f)->Ok_0;
    let fields = field_lines(members);
    if k >= fields.len() {
        let j = k - fields.len();
        assert(f(j) == Ok::<Seq<char>, Error>(shown[j]));
        assert(lines_of(data, members)->Ok_0[k] == shown[j]);
    }
}

/// However the record of a field is cut at its labels, the parts are those of the field.
pub proof fn law_field_record_reads_back(
    field: FieldView,
    index: Seq<char>,
    name: Seq<char>,
    type_descriptor: Seq<char>,
    flags: Seq<char>,
)
    requires
        field_json(field) == "{\"field_index\":"@ + index + ",\"name\":"@ + quoted(name)
            + ",\"type\":"@ + quoted(type_descriptor) + ",\"access_flags\":"@ + flags + seq!['}'],
        !index.contains(','),
    ensures
        value_of(index, 10) == field.field_index,
        name == field.name,
        type_descriptor == field.type_descriptor,
        value_of(flags, 10) == field.access_flags,
{
    reveal_strlit(",\"name\":");
    let line = field_json(field);
    let start = "{\"field_index\":"@;
    let own_index = decimal(field.field_index as nat);
    let own_flags = decimal(field.access_flags as nat);
    law_decimal_reads_back(field.field_index as nat);
    law_decimal_reads_back(field.access_flags as nat);
    lemma_digits_have_no(field.field_index as nat, ',');
    let own4 = own_flags + seq!['}'];
    let own3 = quoted(field.type_descriptor) + (",\"access_flags\":"@ + own4);
    let own2 = quoted(field.name) + (",\"type\":"@ + own3);
    let own1 = own_index + ",\"name\":"@ + own2;
    let given4 = flags + seq!['}'];
    let given3 = quoted(type_descriptor) + (",\"access_flags\":"@ + given4);
    let given2 = quoted(name) + (",\"type\":"@ + given3);
    let given1 = index + ",\"name\":"@ + given2;
    assert(line =~= start + own1);
    assert(line =~= start + given1);
    lemma_same_rest(start, own1, given1);
    lemma_cut(own_index, own2, index, given2, ",\"name\":"@);
    lemma_quoted_cut(field.name, ",\"type\":"@ + own3, name, ",\"type\":"@ + given3);
    lemma_same_rest(",\"type\":"@, own3, given3);
    lemma_quoted_cut(
        field.type_descriptor,
        ",\"access_flags\":"@ + own4,
        type_descriptor,
        ",\"access_flags\":"@ + given4,
    );
    lemma_same_rest(",\"access_flags\":"@, own4, given4);
    assert(own4.drop_last() =~= own_flags);
    assert(given4.drop_last() =~= flags);
}

/// However the end of a plan is cut at its labels, the counts are those of the two lists and the
/// mask is that of the instance fields.
pub proof fn law_plan_counts_read_back(
    instance: Seq<FieldView>,
    statics: Seq<FieldView>,
    front: Seq<char>,
    first: Seq<char>,
    second: Seq<char>,
    mask: Seq<char>,
)
    requires
        plan_tail(instance, statics) == front + seq!['{'] + ("\"instance\":"@ + first
            + ",\"static\":"@ + second + "},\"instance_ref_mask\":\"0x"@ + mask + "\"}"@),
        !first.contains(',') && !first.contains('{'),
        !second.contains('}') && !second.contains('{'),
        !mask.contains('{'),
    ensures
        value_of(first, 10) == instance.len(),
        value_of(second, 10) == statics.len(),
        value_of(mask, 16) == ref_mask(instance, instance.len() as int),
{
    let bits = ref_mask(instance, instance.len() as int) as nat;
    let own = (decimal(instance.len()), decimal(statics.len()), hexadecimal(bits));
    let given = (first, second, mask);
    let labels = ("\"instance\":"@, ",\"static\":"@, "},\"instance_ref_mask\":\"0x"@, "\"}"@);
    law_decimal_reads_back(instance.len());
    law_decimal_reads_back(statics.len());
    law_hexadecimal_reads_back(bits);
    lemma_digits_have_no(instance.len(), ',');
    lemma_digits_have_no(instance.len(), '{');
    lemma_digits_have_no(statics.len(), '}');
    lemma_digits_have_no(statics.len(), '{');
    lemma_digits_have_no(bits, '{');
    assert(!labels.0.contains('{') && !labels.1.contains('{') && !labels.2.contains('{')
        && !labels.3.contains('{') && labels.1.len() > 0 && labels.1[0] == ',' && labels.2.len() > 0
        && labels.2[0] == '}') by {
        reveal_strlit("\"instance\":");
        reveal_strlit(",\"static\":");
        reveal_strlit("},\"instance_ref_mask\":\"0x");
        reveal_strlit("\"}");
    }
    let own_front = lemma_tail_ends(instance, statics);
    lemma_no_brace(own, labels);
    lemma_no_brace(given, labels);
    lemma_cut_last(own_front, counts_text(own, labels), front, counts_text(given, labels), '{');
    lemma_counts_cut(own, given, labels);
}

/// Three numbers with their labels.
spec fn counts_text(
    numbers: (Seq<char>, Seq<char>, Seq<char>),
    labels: (Seq<char>, Seq<char>, Seq<char>, Seq<char>),
) -> Seq<char> {
    labels.0 + numbers.0 + labels.1 + numbers.1 + labels.2 + numbers.2 + labels.3
}

proof fn lemma_tail_ends(instance: Seq<FieldView>, statics: Seq<FieldView>) -> (front: Seq<char>)
    ensures
        plan_tail(instance, statics) == front + seq!['{'] + counts_text(
            (
                decimal(instance.len()),
                decimal(statics.len()),
                hexadecimal(ref_mask(instance, instance.len() as int) as nat),
            ),
            ("\"instance\":"@, ",\"static\":"@, "},\"instance_ref_mask\":\"0x"@, "\"}"@),
        ),
{
    let bits = ref_mask(instance, instance.len() as int) as nat;
    let lists = ",\"instance_fields\":"@ + seq!['['] + fields_json(instance) + seq![']']
        + ",\"static_fields\":"@ + seq!['['] + fields_json(statics) + seq![']'];
    let counts = ",\"counts\":{\"instance\":"@;
    let label = "},\"instance_ref_mask\":\"0x"@;
    assert(counts =~= counts.take(10) + seq!['{'] + "\"instance\":"@) by {
        reveal_strlit(",\"counts\":{\"instance\":");
        reveal_strlit("\"instance\":");
    }
    assert(label =~= "},\"instance_ref_mask\":\""@ + "0x"@) by {
        reveal_strlit("},\"instance_ref_mask\":\"");
        reveal_strlit("},\"instance_ref_mask\":\"0x");
        reveal_strlit("0x");
    }
    let front = lists + counts.take(10);
    let open = front + seq!['{'];
    let first = "\"instance\":"@ + decimal(instance.len());
    let second = first + ",\"static\":"@ + decimal(statics.len());
    assert(lists + counts + decimal(instance.len()) =~= open + first);
    assert(open + first + ",\"static\":"@ + decimal(statics.len()) =~= open + second);
    let masked = second + label + hexadecimal(bits);
    assert(open + second + "},\"instance_ref_mask\":\""@ + "0x"@ + hexadecimal(bits) =~= open
        + masked);
    assert(open + masked + "\"}"@ =~= open + (masked + "\"}"@));
    front
}

proof fn lemma_no_brace(
    numbers: (Seq<char>, Seq<char>, Seq<char>),
    labels: (Seq<char>, Seq<char>, Seq<char>, Seq<char>),
)
    requires
        !numbers.0.contains('{') && !numbers.1.contains('{') && !numbers.2.contains('{'),
        !labels.0.contains('{') && !labels.1.contains('{'),
        !labels.2.contains('{') && !labels.3.contains('{'),
    ensures
        !counts_text(numbers, labels).contains('{'),
{
    let a = labels.0 + numbers.0;
    let b = a + labels.1;
    let c = b + numbers.1;
    let d = c + labels.2;
    let e = d + numbers.2;
    lemma_neither_has(labels.0, numbers.0, '{');
    lemma_neither_has(a, labels.1, '{');
    lemma_neither_has(b, numbers.1, '{');
    lemma_neither_has(c, labels.2, '{');
    lemma_neither_has(d, numbers.2, '{');
    lemma_neither_has(e, labels.3, '{');
}

proof fn lemma_neither_has(one: Seq<char>, other: Seq<char>, c: char)
    requires
        !one.contains(c),
        !other.contains(c),
    ensures
        !(one + other).contains(c),
{
    let both = one + other;
    assert forall|i: int| 0 <= i < both.len() implies both[i] != c by {
        if i < one.len() {
            assert(one.contains(one[i]));
        } else {
            assert(other.contains(other[i - one.len()]));
        }
    }
}

proof fn lemma_counts_cut(
    one: (Seq<char>, Seq<char>, Seq<char>),
    other: (Seq<char>, Seq<char>, Seq<char>),
    labels: (Seq<char>, Seq<char>, Seq<char>, Seq<char>),
)
    requires
        counts_text(one, labels) == counts_text(other, labels),
        labels.1.len() > 0 && !one.0.contains(labels.1[0]) && !other.0.contains(labels.1[0]),
        labels.2.len() > 0 && !one.1.contains(labels.2[0]) && !other.1.contains(labels.2[0]),
    ensures
        one == other,
{
    let own2 = one.2 + labels.3;
    let own1 = one.1 + labels.2 + own2;
    let own = one.0 + labels.1 + own1;
    let given2 = other.2 + labels.3;
    let given1 = other.1 + labels.2 + given2;
    let given = other.0 + labels.1 + given1;
    assert(counts_text(one, labels) =~= labels.0 + own);
    assert(counts_text(other, labels) =~= labels.0 + given);
    lemma_same_rest(labels.0, own, given);
    lemma_cut(one.0, own1, other.0, given1, labels.1);
    lemma_cut(one.1, own2, other.1, given2, labels.2);
    assert(own2.take(own2.len() - labels.3.len()) =~= one.2);
    assert(given2.take(given2.len() - labels.3.len()) =~= other.2);
}

/// However a record is cut at its labels, the parts are what identifies the class and its layout.
pub proof fn law_plan_record_reads_back(
    plan: LayoutView,
    descriptor: Seq<char>,
    row: Seq<char>,
    type_row: Seq<char>,
    flags: Seq<char>,
    rest: Seq<char>,
)
    requires
        plan_json(plan) == "{\"schema\":\"rasc.fields-plan/v1\",\"descriptor\":"@ + quoted(
            descriptor,
        ) + ",\"dex_class_def_idx\":"@ + row + ",\"dex_type_idx\":"@ + type_row
            + ",\"class_access_flags\":"@ + flags + ",\"instance_fields\":"@ + rest,
        !row.contains(','),
        !type_row.contains(','),
        !flags.contains(','),
    ensures
        descriptor == plan.descriptor,
        value_of(row, 10) == plan.dex_class_def_idx,
        value_of(type_row, 10) == plan.dex_type_idx,
        value_of(flags, 10) == plan.access_flags,
        plan_tail(plan.instance, plan.statics) == ",\"instance_fields\":"@ + rest,
{
    let start = "{\"schema\":\"rasc.fields-plan/v1\",\"descriptor\":"@;
    let label = ",\"dex_class_def_idx\":"@;
    let types = ",\"dex_type_idx\":"@;
    let access = ",\"class_access_flags\":"@;
    let fields = ",\"instance_fields\":"@;
    let tail = plan_tail(plan.instance, plan.statics);
    let own_rest = lemma_tail_starts(plan.instance, plan.statics);
    let own_row = decimal(plan.dex_class_def_idx as nat);
    let own_type = decimal(plan.dex_type_idx as nat);
    let own_flags = decimal(plan.access_flags as nat);
    law_decimal_reads_back(plan.dex_class_def_idx as nat);
    law_decimal_reads_back(plan.dex_type_idx as nat);
    law_decimal_reads_back(plan.access_flags as nat);
    lemma_digits_have_no(plan.dex_class_def_idx as nat, ',');
    lemma_digits_have_no(plan.dex_type_idx as nat, ',');
    lemma_digits_have_no(plan.access_flags as nat, ',');
    let own_front = start + quoted(plan.descriptor) + label + own_row + types + own_type + access
        + own_flags;
    assert(own_front + tail =~= own_front + fields + own_rest);
    lemma_behind_two(
        start,
        quoted(plan.descriptor),
        (label, own_row, types, own_type, access, own_flags, fields, own_rest),
    );
    lemma_behind_two(
        start,
        quoted(descriptor),
        (label, row, types, type_row, access, flags, fields, rest),
    );
    let own_behind = label + own_row + types + own_type + access + own_flags + fields + own_rest;
    let behind = label + row + types + type_row + access + flags + fields + rest;
    lemma_same_rest(start, quoted(plan.descriptor) + own_behind, quoted(descriptor) + behind);
    lemma_quoted_cut(plan.descriptor, own_behind, descriptor, behind);
    assert(types.len() > 0 && types[0] == ',' && access.len() > 0 && access[0] == ',' && fields.len()
        > 0 && fields[0] == ',') by {
        reveal_strlit(",\"dex_type_idx\":");
        reveal_strlit(",\"class_access_flags\":");
        reveal_strlit(",\"instance_fields\":");
    }
    lemma_cut_three(
        label,
        (own_row, own_type, own_flags, own_rest),
        (row, type_row, flags, rest),
        (types, access, fields),
        ',',
    );
}

/// What a plan ends with starts with the list of its instance fields.
proof fn lemma_tail_starts(instance: Seq<FieldView>, statics: Seq<FieldView>) -> (rest: Seq<char>)
    ensures
        plan_tail(instance, statics) == ",\"instance_fields\":"@ + rest,
{
    let label = ",\"instance_fields\":"@;
    let tail = plan_tail(instance, statics);
    let rest = tail.skip(label.len() as int);
    assert(tail =~= label + rest);
    rest
}

/// The records of one list of fields and of another behind it are the records of both, with a
/// comma where they meet.
pub proof fn law_field_records_follow_each_other(one: Seq<FieldView>, other: Seq<FieldView>)
    requires
        one.len() > 0,
        other.len() > 0,
    ensures
        fields_json(one + other) == fields_json(one) + seq![','] + fields_json(other),
        fields_json(seq![one[0]]) == field_json(one[0]),
    decreases other.len(),
{
    let all = one + other;
    assert(all.drop_last() =~= one + other.drop_last());
    assert(all.last() == other.last());
    if other.len() == 1 {
        assert(other.drop_last() =~= Seq::empty());
        assert(one + other.drop_last() =~= one);
        assert(fields_json(all) =~= fields_json(one) + seq![','] + fields_json(other));
    } else {
        law_field_records_follow_each_other(one, other.drop_last());
        assert(fields_json(all) =~= fields_json(one) + seq![','] + fields_json(other));
    }
}

/// The row that defines a class is the first whose type has its descriptor, and what identifies the
/// class is what that row says: its own index, its type and its flags.
pub proof fn law_the_first_row_of_a_descriptor_defines_it(
    data: Seq<u8>,
    descriptor: Seq<char>,
    row: int,
)
    requires
        dex_error(data) is None,
        0 <= row < table_size(data, Table::Classes),
        shown_result(raw_type(data, class_type(data, row))) == Ok::<Seq<char>, Error>(descriptor),
        forall|j: int|
            0 <= j < row ==> (#[trigger] shown_result(raw_type(data, class_type(data, j))) matches Ok(
                text,
            ) && text != descriptor),
    ensures
        class_row(data, descriptor) == Ok::<Option<int>, Error>(Some(row)),
        members_of(data, descriptor) matches Ok(found) ==> found is Some
            && found->0.dex_class_def_idx == row as u32 && found->0.dex_type_idx == class_type(
            data,
            row,
        ) as u32 && found->0.access_flags == class_flags(data, row) as u32 && found->0.descriptor
            == descriptor,
{
    lemma_first_row(data, descriptor, 0, row);
}

proof fn lemma_first_row(data: Seq<u8>, descriptor: Seq<char>, from: int, row: int)
    requires
        0 <= from <= row < table_size(data, Table::Classes),
        shown_result(raw_type(data, class_type(data, row))) == Ok::<Seq<char>, Error>(descriptor),
        forall|j: int|
            from <= j < row ==> (#[trigger] shown_result(raw_type(data, class_type(data, j))) matches Ok(
                text,
            ) && text != descriptor),
    ensures
        class_row_from(data, descriptor, from) == Ok::<Option<int>, Error>(Some(row)),
    decreases row - from,
{
    if from < row {
        assert(shown_result(raw_type(data, class_type(data, from))) is Ok);
        lemma_first_row(data, descriptor, from + 1, row);
    }
}

/// The four counts of a class that were written read back, statics first.
pub proof fn law_counts_read_back(
    data: Seq<u8>,
    at: int,
    statics: u32,
    instance: u32,
    direct: u32,
    virtuals: u32,
)
    requires
        0 <= at,
        occurs_at(
            data,
            written_uleb(statics as nat) + (written_uleb(instance as nat) + (written_uleb(
                direct as nat,
            ) + written_uleb(virtuals as nat))),
            at,
        ),
    ensures
        member_counts(data, at) matches Ok(counts) && counts.0 == statics && counts.1 == instance
            && counts.2 == direct && counts.3 == virtuals,
{
    let first = written_uleb(statics as nat);
    let second = written_uleb(instance as nat);
    let third = written_uleb(direct as nat);
    let fourth = written_uleb(virtuals as nat);
    lemma_both_occur(data, first, second + (third + fourth), at);
    lemma_both_occur(data, second, third + fourth, at + first.len());
    lemma_both_occur(data, third, fourth, at + first.len() + second.len());
    law_uleb_reads_back(data, at, statics);
    law_uleb_reads_back(data, at + first.len(), instance);
    law_uleb_reads_back(data, at + first.len() + second.len(), direct);
    law_uleb_reads_back(data, at + first.len() + second.len() + third.len(), virtuals);
}

/// A field that was written reads back: how far its index is from the one before it and its flags,
/// if its row is one of the class and its name and type can be read.
pub proof fn law_field_entry_reads_back(
    data: Seq<u8>,
    at: int,
    index: u32,
    class_type: int,
    step: u32,
    flags: u32,
)
    requires
        0 <= at,
        index + step <= u32::MAX,
        occurs_at(data, written_uleb(step as nat) + written_uleb(flags as nat), at),
        member_row(data, Table::Fields, class_type, index + step) matches Ok(row) && raw_string(
            data,
            le32(data, row + 4) as int,
        ) is Ok && raw_type(data, le16(data, row + 2) as int) is Ok,
    ensures
        field_entry(data, at, index as int, class_type) matches Ok(found) && found.0.field_index
            == index + step && found.0.access_flags == flags && found.1 == at + written_uleb(
            step as nat,
        ).len() + written_uleb(flags as nat).len(),
{
    let first = written_uleb(step as nat);
    let second = written_uleb(flags as nat);
    lemma_both_occur(data, first, second, at);
    law_uleb_reads_back(data, at, step);
    law_uleb_reads_back(data, at + first.len(), flags);
}

/// A method that was written reads back: how far its index is from the one before it, its flags and
/// where its code is, if its row is one of the class and its name can be read.
pub proof fn law_method_entry_reads_back(
    data: Seq<u8>,
    at: int,
    index: u32,
    class_type: int,
    step: u32,
    flags: u32,
    code: u32,
)
    requires
        0 <= at,
        index + step <= u32::MAX,
        occurs_at(
            data,
            written_uleb(step as nat) + (written_uleb(flags as nat) + written_uleb(code as nat)),
            at,
        ),
        member_row(data, Table::Methods, class_type, index + step) matches Ok(row) && raw_string(
            data,
            le32(data, row + 4) as int,
        ) is Ok,
    ensures
        method_entry(data, at, index as int, class_type) matches Ok(found) && found.0.method_index
            == index + step && found.0.access_flags == flags && found.1 == at + written_uleb(
            step as nat,
        ).len() + written_uleb(flags as nat).len() + written_uleb(code as nat).len(),
{
    let first = written_uleb(step as nat);
    let second = written_uleb(flags as nat);
    let third = written_uleb(code as nat);
    lemma_both_occur(data, first, second + third, at);
    lemma_both_occur(data, second, third, at + first.len());
    law_uleb_reads_back(data, at, step);
    law_uleb_reads_back(data, at + first.len(), flags);
    law_uleb_reads_back(data, at + first.len() + second.len(), code);
}

/// A row that lies in the file is one of a class exactly where its first 16 bits name that class,
/// and a row of another class is reported with the class that it is of.
pub proof fn law_rows_belong_to_their_class(data: Seq<u8>, table: Table, class: int, index: int)
    requires
        0 <= index,
        table == Table::Fields || table == Table::Methods,
        table_off(data, table) + 8 * index + 8 <= data.len() <= usize::MAX,
    ensures
        ({
            let at = table_off(data, table) + 8 * index;
            let owner = data[at] + 0x100 * data[at + 1];
            &&& owner == class ==> member_row(data, table, class, index) == Ok::<int, Error>(at)
            &&& owner != class ==> (member_row(data, table, class, index) matches Err(
                Error::ForeignMember { table: own, class_type: wanted, index: member, owner: other },
            ) && own == table && wanted == class as usize && member == index as u32 && other == owner)
        }),
{
}

} // verus!
