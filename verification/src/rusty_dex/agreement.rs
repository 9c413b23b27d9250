//! The reader of a DEX file in place and the decoder of a whole image agree.
//!
//! The two read the same bytes for different callers, each by itself. What one finds in a row, a
//! list or a string, the other finds there too.
use super::class_data::{class_data_at, counts_at, member_at, members_at, DataView, MemberKind};
use super::classes::{class_row_at, Tables};
use super::code_item::{code_at, unit_row};
use super::error::{DexError, Mutf8Error};
use super::file::image_tables;
use super::header::header_of;
use super::mutf8::{paired, text_from, units_from};
use super::protos::{parameter_list, parameter_row, parameter_text, proto_row, proto_text_of};
use super::strings::string_row;
use super::types::{descriptor_of, text_at, type_row};
use crate::bytes::le16;
use crate::dex::code::ReferenceKind;
use crate::dex::members::{
    class_data_off, class_flags, field_entry, field_is_its_row, fields_from, member_counts,
    members_of_row, method_entry, method_is_its_row, methods_from, FieldView, MembersView, MethodView,
};
use crate::dex::mutf8::{decoded_from, law_shortcut_agrees_with_the_decoder, sequence_at, shown};
use crate::dex::scan::{behind_fields, class_codes, code_entry, codes_from, instructions};
use crate::dex::targets::target_text;
use crate::dex::{
    class_type, dex_error, law_string_holds_no_nul, lemma_row_inside, listed_types, proto_text,
    raw_string, raw_type, row_off, shown_result, table_off, table_size, type_list,
};
use crate::error::{Error, Table};
use crate::seqs::{collect, lemma_collect_all, lemma_collect_succeeds};
use vstd::prelude::*;

verus! {

/// Whether an image in the common byte order was decoded to the given tables, and the file can be
/// read in place too.
pub open spec fn both_read(data: Seq<u8>, tables: Tables) -> bool {
    &&& dex_error(data) is None
    &&& image_tables(data, false, header_of(data, false)) == Ok::<Tables, DexError>(tables)
}

/// Where the rows of the member tables start.
proof fn lemma_member_rows(data: Seq<u8>, index: int)
    ensures
        row_off(data, Table::Fields, index) == table_off(data, Table::Fields) + 8 * index,
        row_off(data, Table::Methods, index) == table_off(data, Table::Methods) + 8 * index,
{
}

/// The row of a field, as the decoder of the whole image has it.
proof fn lemma_field_row(data: Seq<u8>, tables: Tables, index: int)
    requires
        both_read(data, tables),
        0 <= index < table_size(data, Table::Fields),
    ensures
        tables.fields.len() == table_size(data, Table::Fields),
        super::fields::field_row_at(
            data,
            false,
            row_off(data, Table::Fields, index),
            tables.types.len() as int,
            tables.strings.len() as int,
        ) == Ok::<super::fields::FieldRow, DexError>(tables.fields[index]),
{
    let off = table_off(data, Table::Fields);
    let n = table_size(data, Table::Fields);
    let f = super::fields::field_row(
        data,
        false,
        off,
        tables.types.len() as int,
        tables.strings.len() as int,
    );
    assert(collect(n, f) == Ok::<Seq<super::fields::FieldRow>, DexError>(tables.fields));
    lemma_collect_succeeds(n, f);
    assert(f(index) == Ok::<super::fields::FieldRow, DexError>(tables.fields[index]));
    lemma_member_rows(data, index);
}

/// The row of a method, as the decoder of the whole image has it.
proof fn lemma_method_row(data: Seq<u8>, tables: Tables, index: int)
    requires
        both_read(data, tables),
        0 <= index < table_size(data, Table::Methods),
    ensures
        tables.methods.len() == table_size(data, Table::Methods),
        super::methods::method_row_at(
            data,
            false,
            row_off(data, Table::Methods, index),
            tables.types.len() as int,
            tables.protos.len() as int,
            tables.strings.len() as int,
        ) == Ok::<super::methods::MethodRow, DexError>(tables.methods[index]),
{
    let off = table_off(data, Table::Methods);
    let n = table_size(data, Table::Methods);
    let f = super::methods::method_row(
        data,
        false,
        off,
        tables.types.len() as int,
        tables.protos.len() as int,
        tables.strings.len() as int,
    );
    assert(collect(n, f) == Ok::<Seq<super::methods::MethodRow>, DexError>(tables.methods));
    lemma_collect_succeeds(n, f);
    assert(f(index) == Ok::<super::methods::MethodRow, DexError>(tables.methods[index]));
    lemma_member_rows(data, index);
}

/// Both readers find the tables of a file in the same places and of the same sizes.
pub proof fn law_readers_find_the_same_tables(data: Seq<u8>)
    ensures
        ({
            let header = header_of(data, false);
            &&& header.string_ids_size == table_size(data, Table::Strings)
            &&& header.string_ids_off == table_off(data, Table::Strings)
            &&& header.type_ids_size == table_size(data, Table::Types)
            &&& header.type_ids_off == table_off(data, Table::Types)
            &&& header.proto_ids_size == table_size(data, Table::Protos)
            &&& header.proto_ids_off == table_off(data, Table::Protos)
            &&& header.fields_ids_size == table_size(data, Table::Fields)
            &&& header.fields_ids_off == table_off(data, Table::Fields)
            &&& header.method_ids_size == table_size(data, Table::Methods)
            &&& header.method_ids_off == table_off(data, Table::Methods)
            &&& header.class_defs_size == table_size(data, Table::Classes)
            &&& header.class_defs_off == table_off(data, Table::Classes)
        }),
{
}

/// Text behind some units does not depend on them.
proof fn lemma_text_behind(front: Seq<u16>, units: Seq<u16>, at: int)
    requires
        0 <= at,
    ensures
        text_from(front + units, front.len() + at) == text_from(units, at),
    decreases units.len() - at,
{
    let all = front + units;
    if at < units.len() {
        assert(all[front.len() + at] == units[at]);
        if at + 1 < units.len() {
            assert(all[front.len() + at + 1] == units[at + 1]);
            lemma_text_behind(front, units, at + 2);
        }
        lemma_text_behind(front, units, at + 1);
    }
}

/// One more character in front of a text.
proof fn lemma_text_front(unit: u16, rest: Seq<u16>)
    requires
        unit < 0xD800 || unit > 0xDFFF,
    ensures
        text_from(seq![unit] + rest, 0) == seq![unit as char] + text_from(rest, 0),
{
    lemma_text_behind(seq![unit], rest, 0);
    assert((seq![unit] + rest)[0] == unit);
}

/// One more surrogate pair in front of a text.
proof fn lemma_pair_front(high: u16, low: u16, rest: Seq<u16>)
    requires
        0xD800 <= high <= 0xDBFF,
        0xDC00 <= low <= 0xDFFF,
    ensures
        text_from(seq![high] + (seq![low] + rest), 0) == seq![paired(high, low)] + text_from(rest, 0),
{
    let all = seq![high] + (seq![low] + rest);
    assert(all =~= seq![high, low] + rest);
    lemma_text_behind(seq![high, low], rest, 0);
    assert(all[0] == high && all[1] == low);
}

proof fn lemma_decoders_agree_from(bytes: Seq<u8>, at: int)
    requires
        0 <= at <= bytes.len(),
        forall|i: int| 0 <= i < bytes.len() ==> #[trigger] bytes[i] != 0,
        decoded_from(bytes, at) is Ok,
    ensures
        units_from(bytes, at) matches Ok(units) && text_from(units, 0) == decoded_from(
            bytes,
            at,
        )->Ok_0,
    decreases bytes.len() - at,
{
    if at < bytes.len() {
        assert(bytes[at] != 0);
        let found = sequence_at(bytes, at)->0;
        lemma_decoders_agree_from(bytes, at + found.1);
        let rest = units_from(bytes, at + found.1)->Ok_0;
        if found.1 == 6 {
            let high = crate::dex::mutf8::three_bytes(bytes, at);
            let low = crate::dex::mutf8::three_bytes(bytes, at + 3);
            assert(0xD800 <= high <= 0xDBFF);
            assert(bytes[at + 3] == 0xED);
            assert(0xDC00 <= low <= 0xDFFF);
            assert(units_from(bytes, at + 3) == Ok::<Seq<u16>, Mutf8Error>(
                seq![low as u16] + rest,
            ));
            lemma_pair_front(high as u16, low as u16, rest);
        } else {
            let unit = found.0 as u16;
            assert(found.0 as u32 == unit);
            lemma_text_front(unit, rest);
        }
    }
}

/// The decoder into UTF-16 shows the text that the other decoder shows, for every string that is
/// well-formed, also beyond the characters of one unit.
pub proof fn law_decoders_show_one_text(bytes: Seq<u8>)
    requires
        forall|i: int| 0 <= i < bytes.len() ==> #[trigger] bytes[i] != 0,
        decoded_from(bytes, 0) is Ok,
    ensures
        units_from(bytes, 0) matches Ok(units) && text_from(units, 0) == shown(bytes),
{
    lemma_decoders_agree_from(bytes, 0);
    if crate::dex::mutf8::all_ascii(bytes) {
        law_shortcut_agrees_with_the_decoder(bytes);
    }
}

/// Both readers find the same strings: as many, and in each the units of its bytes.
pub proof fn law_readers_find_the_same_strings(data: Seq<u8>, tables: Tables, index: int)
    requires
        both_read(data, tables),
    ensures
        tables.strings.len() == table_size(data, Table::Strings),
        0 <= index < tables.strings.len() ==> raw_string(data, index) is Ok && units_from(
            raw_string(data, index)->Ok_0,
            0,
        ) == Ok::<Seq<u16>, Mutf8Error>(tables.strings[index]),
{
    let off = table_off(data, Table::Strings);
    let n = table_size(data, Table::Strings);
    let f = string_row(data, false, off);
    assert(collect(n, f) == Ok::<Seq<Seq<u16>>, DexError>(tables.strings));
    lemma_collect_succeeds(n, f);
    if 0 <= index < n {
        assert(f(index) == Ok::<Seq<u16>, DexError>(tables.strings[index]));
        assert(row_off(data, Table::Strings, index) == off + 4 * index);
    }
}

/// Both readers find the same types: as many, and for each the string that describes it.
pub proof fn law_readers_find_the_same_types(data: Seq<u8>, tables: Tables, index: int)
    requires
        both_read(data, tables),
    ensures
        tables.types.len() == table_size(data, Table::Types),
        0 <= index < tables.types.len() ==> tables.types[index] < tables.strings.len() && raw_type(
            data,
            index,
        ) == raw_string(data, tables.types[index] as int),
{
    let off = table_off(data, Table::Types);
    let n = table_size(data, Table::Types);
    let f = type_row(data, false, off, tables.strings.len() as int);
    assert(collect(n, f) == Ok::<Seq<u32>, DexError>(tables.types));
    lemma_collect_succeeds(n, f);
    if 0 <= index < n {
        assert(f(index) == Ok::<u32, DexError>(tables.types[index]));
        assert(row_off(data, Table::Types, index) == off + 4 * index);
    }
}

/// Whether every string of a file is well-formed.
pub open spec fn all_decode(data: Seq<u8>) -> bool {
    forall|index: int|
        0 <= index < table_size(data, Table::Strings) ==> (#[trigger] raw_string(data, index)
            matches Ok(raw) && decoded_from(raw, 0) is Ok)
}

/// Both readers show the same text of a string.
pub proof fn law_readers_show_the_same_string(data: Seq<u8>, tables: Tables, index: int)
    requires
        both_read(data, tables),
        all_decode(data),
        0 <= index < tables.strings.len(),
    ensures
        text_at(tables.strings, index) == Some(shown(raw_string(data, index)->Ok_0)),
        shown_result(raw_string(data, index)) == Ok::<Seq<char>, Error>(
            text_at(tables.strings, index)->0,
        ),
{
    law_readers_find_the_same_strings(data, tables, index);
    let raw = raw_string(data, index)->Ok_0;
    assert(decoded_from(raw, 0) is Ok);
    law_string_holds_no_nul(
        data,
        crate::bytes::le32(data, row_off(data, Table::Strings, index)) as int,
    );
    law_decoders_show_one_text(raw);
}

/// Both readers show the same descriptor of a type.
pub proof fn law_readers_show_the_same_type(data: Seq<u8>, tables: Tables, index: int)
    requires
        both_read(data, tables),
        all_decode(data),
        0 <= index < tables.types.len(),
    ensures
        descriptor_of(tables.types, tables.strings, index) is Some,
        shown_result(raw_type(data, index)) == Ok::<Seq<char>, Error>(
            descriptor_of(tables.types, tables.strings, index)->0,
        ),
{
    law_readers_find_the_same_types(data, tables, index);
    law_readers_find_the_same_strings(data, tables, 0);
    law_readers_show_the_same_string(data, tables, tables.types[index] as int);
}

/// The parameters of a prototype, by the two readers.
proof fn lemma_parameters_agree(data: Seq<u8>, tables: Tables, at: int, parameters: Seq<u32>)
    requires
        both_read(data, tables),
        all_decode(data),
        0 <= at,
        parameter_list(data, false, at, tables.types.len() as int) == Ok::<Seq<u32>, DexError>(
            parameters,
        ),
    ensures
        collect(
            parameters.len() as int,
            parameter_text(tables.types, tables.strings, parameters),
        ) matches Ok(texts) && type_list(data, at) == Ok::<Seq<Seq<char>>, Error>(texts),
{
    let types = tables.types;
    let strings = tables.strings;
    let f = parameter_text(types, strings, parameters);
    if at == 0 {
        assert(collect(0, f) == Ok::<Seq<Seq<char>>, ()>(Seq::empty()));
    } else {
        let n = crate::bytes::le32(data, at) as int;
        let g = parameter_row(data, false, at, types.len() as int);
        lemma_collect_succeeds(n, g);
        let texts = Seq::new(n as nat, |k: int| descriptor_of(types, strings, parameters[k] as int)->0);
        assert forall|k: int| 0 <= k < n implies f(k) == Ok::<Seq<char>, ()>(#[trigger] texts[k])
            && (listed_types(data, at))(k) == Ok::<Seq<char>, Error>(texts[k]) && at + 4 + 2 * k + 2
            <= data.len() by {
            assert(g(k) == Ok::<u32, DexError>(parameters[k]));
            law_readers_show_the_same_type(data, tables, parameters[k] as int);
        }
        lemma_collect_all(n, f, texts);
        lemma_collect_all(n, listed_types(data, at), texts);
        if n > 0 {
            assert(texts[n - 1] == texts[n - 1]);
        }
    }
}

/// Both readers show the same text of a prototype.
pub proof fn law_readers_show_the_same_prototype(data: Seq<u8>, tables: Tables, index: int)
    requires
        both_read(data, tables),
        all_decode(data),
    ensures
        tables.protos.len() == table_size(data, Table::Protos),
        0 <= index < tables.protos.len() ==> proto_text_of(
            tables.protos,
            tables.types,
            tables.strings,
            index,
        ) is Some && proto_text(data, index) == Ok::<Seq<char>, Error>(
            proto_text_of(tables.protos, tables.types, tables.strings, index)->0,
        ),
{
    let off = table_off(data, Table::Protos);
    let n = table_size(data, Table::Protos);
    let f = proto_row(data, false, off, tables.types.len() as int);
    assert(collect(n, f) == Ok::<Seq<(u32, Seq<u32>)>, DexError>(tables.protos));
    lemma_collect_succeeds(n, f);
    if 0 <= index < n {
        let row = tables.protos[index];
        assert(f(index) == Ok::<(u32, Seq<u32>), DexError>(row));
        let at = row_off(data, Table::Protos, index);
        assert(at == off + 12 * index);
        lemma_parameters_agree(data, tables, crate::bytes::le32(data, at + 8) as int, row.1);
        law_readers_show_the_same_type(data, tables, row.0 as int);
        reveal_strlit("(");
        assert("("@ =~= seq!['(']);
    }
}

/// Both readers show the same name and type of a field.
pub proof fn law_readers_show_the_same_field(data: Seq<u8>, tables: Tables, field: FieldView)
    requires
        both_read(data, tables),
        all_decode(data),
        field.field_index < table_size(data, Table::Fields),
        field_is_its_row(data, field),
    ensures
        tables.fields.len() == table_size(data, Table::Fields),
        ({
            let row = tables.fields[field.field_index as int];
            &&& text_at(tables.strings, row.name_idx as int) == Some(field.name)
            &&& descriptor_of(tables.types, tables.strings, row.type_idx as int) == Some(
                field.type_descriptor,
            )
        }),
{
    let index = field.field_index as int;
    lemma_field_row(data, tables, index);
    let row = tables.fields[index];
    law_readers_show_the_same_string(data, tables, row.name_idx as int);
    law_readers_show_the_same_type(data, tables, row.type_idx as int);
}

/// Both readers show the same name and prototype of a method.
pub proof fn law_readers_show_the_same_method(data: Seq<u8>, tables: Tables, method: MethodView)
    requires
        both_read(data, tables),
        all_decode(data),
        method.method_index < table_size(data, Table::Methods),
        method_is_its_row(data, method),
    ensures
        tables.methods.len() == table_size(data, Table::Methods),
        ({
            let row = tables.methods[method.method_index as int];
            &&& text_at(tables.strings, row.name_idx as int) == Some(method.name)
            &&& row.proto_idx == method.proto_idx
            &&& proto_text(data, method.proto_idx as int) == Ok::<Seq<char>, Error>(
                proto_text_of(tables.protos, tables.types, tables.strings, row.proto_idx as int)->0,
            )
        }),
{
    let index = method.method_index as int;
    lemma_method_row(data, tables, index);
    let row = tables.methods[index];
    law_readers_show_the_same_string(data, tables, row.name_idx as int);
    law_readers_show_the_same_prototype(data, tables, row.proto_idx as int);
}

/// Both readers find the same type, flags and class data of a class.
pub proof fn law_readers_find_the_same_class(data: Seq<u8>, index: int, types: int)
    requires
        dex_error(data) is None,
        0 <= index < table_size(data, Table::Classes),
    ensures
        class_row_at(data, false, table_off(data, Table::Classes) + 32 * index, types) matches Ok(row)
            ==> row.class_idx == class_type(data, index) && row.access_flags == class_flags(data, index)
            && row.class_data_off == class_data_off(data, index),
{
    lemma_row_inside(data, Table::Classes, index);
    assert(row_off(data, Table::Classes, index) == table_off(data, Table::Classes) + 32 * index);
}

proof fn lemma_fields_are_listed(data: Seq<u8>, at: int, index: int, count: int, limit: int)
    requires
        members_at(data, at, count, MemberKind::Field, index, limit) is Ok,
    ensures
        behind_fields(data, at, count) == Ok::<int, Error>(
            (members_at(data, at, count, MemberKind::Field, index, limit)->Ok_0).1,
        ),
    decreases count,
{
    if count > 0 {
        let first = member_at(data, at, MemberKind::Field, index, limit)->Ok_0;
        lemma_fields_are_listed(data, first.1, first.0.index as int, count - 1, limit);
    }
}

proof fn lemma_methods_are_listed(data: Seq<u8>, at: int, index: int, count: int, limit: int)
    requires
        members_at(data, at, count, MemberKind::Method, index, limit) is Ok,
    ensures
        codes_from(data, at, index, count) matches Ok(codes) && {
            let members = members_at(data, at, count, MemberKind::Method, index, limit)->Ok_0;
            &&& codes.1 == members.1
            &&& codes.0.len() == members.0.len()
            &&& forall|k: int|
                0 <= k < members.0.len() ==> #[trigger] codes.0[k] == (
                    members.0[k].index,
                    members.0[k].code,
                )
        },
    decreases count,
{
    if count > 0 {
        let first = member_at(data, at, MemberKind::Method, index, limit)->Ok_0;
        let next = first.0.index as int;
        lemma_methods_are_listed(data, first.1, next, count - 1, limit);
        assert(code_entry(data, at, index) == Ok::<((u32, u32), int), Error>(
            ((first.0.index, first.0.code), first.1),
        ));
        let members = members_at(data, at, count, MemberKind::Method, index, limit)->Ok_0;
        let rest = members_at(data, first.1, count - 1, MemberKind::Method, next, limit)->Ok_0;
        let codes = codes_from(data, at, index, count)->Ok_0;
        let more = codes_from(data, first.1, next, count - 1)->Ok_0;
        assert forall|k: int| 0 <= k < members.0.len() implies #[trigger] codes.0[k] == (
            members.0[k].index,
            members.0[k].code,
        ) by {
            if k > 0 {
                assert(codes.0[k] == more.0[k - 1]);
                assert(members.0[k] == rest.0[k - 1]);
            }
        }
    }
}

/// The methods that a search reads of a class are those that the decoder of the whole image lists,
/// each with the place of its code: the direct ones, then the virtual ones.
pub proof fn law_readers_find_the_same_code(
    data: Seq<u8>,
    at: int,
    fields: int,
    methods: int,
    lists: DataView,
)
    requires
        class_data_at(data, at, fields, methods) == Ok::<DataView, DexError>(lists),
    ensures
        class_codes(data, at) matches Ok(codes) && {
            let all = lists.direct_methods + lists.virtual_methods;
            &&& codes.len() == all.len()
            &&& forall|k: int|
                0 <= k < all.len() ==> #[trigger] codes[k] == (all[k].index, all[k].code)
        },
{
    let counts = counts_at(data, at)->0;
    assert(member_counts(data, at) == Ok::<(int, int, int, int, int), Error>(counts));
    let statics = members_at(data, counts.4, counts.0, MemberKind::Field, 0, fields)->Ok_0;
    lemma_fields_are_listed(data, counts.4, 0, counts.0, fields);
    let instance = members_at(data, statics.1, counts.1, MemberKind::Field, 0, fields)->Ok_0;
    lemma_fields_are_listed(data, statics.1, 0, counts.1, fields);
    let direct = members_at(data, instance.1, counts.2, MemberKind::Method, 0, methods)->Ok_0;
    lemma_methods_are_listed(data, instance.1, 0, counts.2, methods);
    lemma_methods_are_listed(data, direct.1, 0, counts.3, methods);
    let codes = class_codes(data, at)->Ok_0;
    let all = lists.direct_methods + lists.virtual_methods;
    let first = (codes_from(data, instance.1, 0, counts.2)->Ok_0).0;
    let second = (codes_from(data, direct.1, 0, counts.3)->Ok_0).0;
    assert forall|k: int| 0 <= k < all.len() implies #[trigger] codes[k] == (
        all[k].index,
        all[k].code,
    ) by {
        if k < first.len() {
            assert(codes[k] == first[k]);
        } else {
            assert(codes[k] == second[k - first.len()]);
            assert(all[k] == lists.virtual_methods[k - first.len()]);
        }
    }
}

proof fn lemma_fields_are_members(
    data: Seq<u8>,
    at: int,
    index: int,
    count: int,
    limit: int,
    kind: int,
)
    requires
        members_at(data, at, count, MemberKind::Field, index, limit) is Ok,
        fields_from(data, at, index, count, kind) is Ok,
    ensures
        ({
            let members = members_at(data, at, count, MemberKind::Field, index, limit)->Ok_0;
            let fields = fields_from(data, at, index, count, kind)->Ok_0;
            &&& fields.1 == members.1
            &&& fields.0.len() == members.0.len()
            &&& forall|k: int|
                0 <= k < members.0.len() ==> (#[trigger] fields.0[k]).field_index
                    == members.0[k].index && fields.0[k].access_flags == members.0[k].access_flags
        }),
    decreases count,
{
    if count > 0 {
        let first = member_at(data, at, MemberKind::Field, index, limit)->Ok_0;
        let one = field_entry(data, at, index, kind)->Ok_0;
        let next = first.0.index as int;
        lemma_fields_are_members(data, first.1, next, count - 1, limit, kind);
        let members = members_at(data, at, count, MemberKind::Field, index, limit)->Ok_0;
        let rest = members_at(data, first.1, count - 1, MemberKind::Field, next, limit)->Ok_0;
        let fields = fields_from(data, at, index, count, kind)->Ok_0;
        let more = fields_from(data, one.1, one.0.field_index as int, count - 1, kind)->Ok_0;
        assert forall|k: int| 0 <= k < members.0.len() implies (#[trigger] fields.0[k]).field_index
            == members.0[k].index && fields.0[k].access_flags == members.0[k].access_flags by {
            if k > 0 {
                assert(fields.0[k] == more.0[k - 1]);
                assert(members.0[k] == rest.0[k - 1]);
            }
        }
    }
}

proof fn lemma_methods_are_members(
    data: Seq<u8>,
    at: int,
    index: int,
    count: int,
    limit: int,
    kind: int,
)
    requires
        members_at(data, at, count, MemberKind::Method, index, limit) is Ok,
        methods_from(data, at, index, count, kind) is Ok,
    ensures
        ({
            let members = members_at(data, at, count, MemberKind::Method, index, limit)->Ok_0;
            let methods = methods_from(data, at, index, count, kind)->Ok_0;
            &&& methods.1 == members.1
            &&& methods.0.len() == members.0.len()
            &&& forall|k: int|
                0 <= k < members.0.len() ==> (#[trigger] methods.0[k]).method_index
                    == members.0[k].index && methods.0[k].access_flags == members.0[k].access_flags
        }),
    decreases count,
{
    if count > 0 {
        let first = member_at(data, at, MemberKind::Method, index, limit)->Ok_0;
        let one = method_entry(data, at, index, kind)->Ok_0;
        let next = first.0.index as int;
        lemma_methods_are_members(data, first.1, next, count - 1, limit, kind);
        let members = members_at(data, at, count, MemberKind::Method, index, limit)->Ok_0;
        let rest = members_at(data, first.1, count - 1, MemberKind::Method, next, limit)->Ok_0;
        let methods = methods_from(data, at, index, count, kind)->Ok_0;
        let more = methods_from(data, one.1, one.0.method_index as int, count - 1, kind)->Ok_0;
        assert forall|k: int| 0 <= k < members.0.len() implies (#[trigger] methods.0[k]).method_index
            == members.0[k].index && methods.0[k].access_flags == members.0[k].access_flags by {
            if k > 0 {
                assert(methods.0[k] == more.0[k - 1]);
                assert(members.0[k] == rest.0[k - 1]);
            }
        }
    }
}

/// The members of a class are those that the decoder of the whole image lists: the same indices
/// with the same flags in each of the four lists, in the same order.
pub proof fn law_readers_find_the_same_members(
    data: Seq<u8>,
    descriptor: Seq<char>,
    class: int,
    members: MembersView,
    fields: int,
    methods: int,
    lists: DataView,
)
    requires
        class_data_off(data, class) != 0,
        members_of_row(data, descriptor, class) == Ok::<MembersView, Error>(members),
        class_data_at(data, class_data_off(data, class), fields, methods) == Ok::<DataView, DexError>(
            lists,
        ),
    ensures
        members.statics.len() == lists.static_fields.len(),
        forall|k: int|
            0 <= k < members.statics.len() ==> (#[trigger] members.statics[k]).field_index
                == lists.static_fields[k].index && members.statics[k].access_flags
                == lists.static_fields[k].access_flags,
        members.instance.len() == lists.instance_fields.len(),
        forall|k: int|
            0 <= k < members.instance.len() ==> (#[trigger] members.instance[k]).field_index
                == lists.instance_fields[k].index && members.instance[k].access_flags
                == lists.instance_fields[k].access_flags,
        members.direct_methods.len() == lists.direct_methods.len(),
        forall|k: int|
            0 <= k < members.direct_methods.len() ==> (
            #[trigger] members.direct_methods[k]).method_index == lists.direct_methods[k].index
                && members.direct_methods[k].access_flags == lists.direct_methods[k].access_flags,
        members.virtual_methods.len() == lists.virtual_methods.len(),
        forall|k: int|
            0 <= k < members.virtual_methods.len() ==> (
            #[trigger] members.virtual_methods[k]).method_index == lists.virtual_methods[k].index
                && members.virtual_methods[k].access_flags == lists.virtual_methods[k].access_flags,
{
    let at = class_data_off(data, class);
    let kind = class_type(data, class);
    let counts = counts_at(data, at)->0;
    assert(member_counts(data, at) == Ok::<(int, int, int, int, int), Error>(counts));
    let statics = members_at(data, counts.4, counts.0, MemberKind::Field, 0, fields)->Ok_0;
    lemma_fields_are_members(data, counts.4, 0, counts.0, fields, kind);
    let instance = members_at(data, statics.1, counts.1, MemberKind::Field, 0, fields)->Ok_0;
    lemma_fields_are_members(data, statics.1, 0, counts.1, fields, kind);
    let direct = members_at(data, instance.1, counts.2, MemberKind::Method, 0, methods)->Ok_0;
    lemma_methods_are_members(data, instance.1, 0, counts.2, methods, kind);
    lemma_methods_are_members(data, direct.1, 0, counts.3, methods, kind);
}

/// The instructions that a search reads are the units that the decoder of the whole image lists.
pub proof fn law_readers_find_the_same_instructions(data: Seq<u8>, at: int, units: Seq<u16>)
    requires
        0 <= at,
        code_at(data, false, at) matches Ok(code) && code.insns == Some(units),
    ensures
        instructions(data, at) matches Ok(code) && code.len() == 2 * units.len() && forall|k: int|
            0 <= k < units.len() ==> le16(code, 2 * k) == #[trigger] units[k],
{
    let n = crate::bytes::le32(data, at + 12) as int;
    let f = unit_row(data, false, at + 16);
    lemma_collect_succeeds(n, f);
    if n > 0 {
        assert(f(n - 1) == Ok::<u16, DexError>(units[n - 1]));
    }
    let code = data.subrange(at + 16, at + 16 + 2 * n);
    assert forall|k: int| 0 <= k < units.len() implies le16(code, 2 * k) == #[trigger] units[k] by {
        assert(f(k) == Ok::<u16, DexError>(units[k]));
        assert(code[2 * k] == data[at + 16 + 2 * k] && code[2 * k + 1] == data[at + 16 + 2 * k + 1]);
    }
}

/// What a search shows of a method is the front of what the decoder of the whole image shows of it:
/// the class and the name, without the prototype.
pub proof fn law_readers_show_the_same_reference(data: Seq<u8>, tables: Tables, index: int)
    requires
        both_read(data, tables),
        all_decode(data),
        0 <= index < table_size(data, Table::Methods),
    ensures
        target_text(data, ReferenceKind::Method, index) matches Ok(text)
            && super::methods::method_text_of(
            tables.methods,
            tables.protos,
            tables.types,
            tables.strings,
            index,
        ) == Some(
            text + proto_text_of(
                tables.protos,
                tables.types,
                tables.strings,
                tables.methods[index].proto_idx as int,
            )->0,
        ),
{
    lemma_method_row(data, tables, index);
    let row = tables.methods[index];
    law_readers_show_the_same_type(data, tables, row.class_idx as int);
    law_readers_show_the_same_string(data, tables, row.name_idx as int);
    law_readers_show_the_same_prototype(data, tables, row.proto_idx as int);
}

/// What a search shows of a field is the front of what the decoder of the whole image shows of it:
/// the class and the name, without the type.
pub proof fn law_readers_show_the_same_field_reference(data: Seq<u8>, tables: Tables, index: int)
    requires
        both_read(data, tables),
        all_decode(data),
        0 <= index < table_size(data, Table::Fields),
    ensures
        target_text(data, ReferenceKind::Field, index) matches Ok(text)
            && super::fields::field_text_of(tables.fields, tables.types, tables.strings, index) == Some(
            text + seq![':'] + descriptor_of(
                tables.types,
                tables.strings,
                tables.fields[index].type_idx as int,
            )->0,
        ),
{
    lemma_field_row(data, tables, index);
    let row = tables.fields[index];
    law_readers_show_the_same_type(data, tables, row.class_idx as int);
    law_readers_show_the_same_type(data, tables, row.type_idx as int);
    law_readers_show_the_same_string(data, tables, row.name_idx as int);
}

} // verus!
