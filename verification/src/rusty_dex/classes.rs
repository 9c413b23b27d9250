//! Class definitions
//!
//! A class is decoded as far as it is asked for: its declaration alone, its members too, or the
//! code of its methods as well.
use super::class_data::{
    class_data_at, counts_at, member_at, members_at, read_class_data, DataView, EncodedMember,
    MemberKind,
};
use super::code_item::{code_at, CodeItem, CodeView};
use super::error::DexError;
use super::fields::{DexFields, FieldRow};
use super::methods::{method_text_of, DexMethods, MethodRow};
use super::protos::{proto_views, DexProtos};
use super::reader::{word_at, DexReader};
use super::strings::{string_units, DexStrings};
use super::types::{descriptor_of, opt_text, text_at, DexTypes};
use crate::dex::members::lemma_uleb_range;
use crate::bytes::{law_word_reads_back, written32};
use crate::seqs::{
    collect, first_where, lemma_both_occur, lemma_collect_fails, lemma_collect_succeeds,
    lemma_first_where, lemma_first_where_is, occurs_at,
};
use crate::text::same_text;
use vstd::prelude::*;

verus! {

/// How far a class is decoded.
#[derive(Clone, Copy, Debug, PartialEq, Eq, Structural)]
pub enum ClassDecodeLevel {
    Declaration,
    Members,
    Bytecode,
}

/// The tables of an image that its classes refer to.
#[verifier::ext_equal]
pub struct Tables {
    pub strings: Seq<Seq<u16>>,
    pub types: Seq<u32>,
    pub protos: Seq<(u32, Seq<u32>)>,
    pub fields: Seq<FieldRow>,
    pub methods: Seq<MethodRow>,
}

/// One row of the DEX `class_defs` table.
#[derive(Clone, Copy, Debug, PartialEq, Eq, Structural)]
pub struct ClassRow {
    pub class_idx: u32,
    pub access_flags: u32,
    pub superclass_idx: u32,
    pub interfaces_off: u32,
    pub source_file_idx: u32,
    pub annotations_off: u32,
    pub class_data_off: u32,
    pub static_values_off: u32,
}

/// A method that a class declares.
#[derive(Debug)]
pub struct EncodedMethod {
    pub method_idx: u32,
    pub name: String,
    /// The method as `Lcls;->name(proto)`.
    pub proto: String,
    pub access_flags: u32,
    /// Where the code of the method is, if it has any.
    pub code_offset: Option<u32>,
    /// The code of the method, if it has any and it was decoded.
    pub code_item: Option<CodeItem>,
}

/// A method, with its texts as characters and its code as a view.
#[verifier::ext_equal]
pub struct MethodView {
    pub method_idx: u32,
    pub name: Seq<char>,
    pub proto: Seq<char>,
    pub access_flags: u32,
    pub code_offset: Option<u32>,
    pub code_item: Option<CodeView>,
}

impl View for EncodedMethod {
    type V = MethodView;

    open spec fn view(&self) -> MethodView {
        MethodView {
            method_idx: self.method_idx,
            name: self.name@,
            proto: self.proto@,
            access_flags: self.access_flags,
            code_offset: self.code_offset,
            code_item: match self.code_item {
                Some(code) => Some(code@),
                None => None,
            },
        }
    }
}

/// The views of a list of methods.
pub open spec fn method_views(list: Seq<EncodedMethod>) -> Seq<MethodView> {
    list.map_values(|method: EncodedMethod| method@)
}

/// The members of a class.
#[derive(Debug)]
pub struct ClassMembers {
    pub static_fields: Vec<EncodedMember>,
    pub instance_fields: Vec<EncodedMember>,
    pub direct_methods: Vec<EncodedMethod>,
    pub virtual_methods: Vec<EncodedMethod>,
}

/// The members of a class, as sequences.
#[verifier::ext_equal]
pub struct MembersView {
    pub static_fields: Seq<EncodedMember>,
    pub instance_fields: Seq<EncodedMember>,
    pub direct_methods: Seq<MethodView>,
    pub virtual_methods: Seq<MethodView>,
}

impl View for ClassMembers {
    type V = MembersView;

    open spec fn view(&self) -> MembersView {
        MembersView {
            static_fields: self.static_fields@,
            instance_fields: self.instance_fields@,
            direct_methods: method_views(self.direct_methods@),
            virtual_methods: method_views(self.virtual_methods@),
        }
    }
}

/// A class definition, and its members once they are decoded.
#[derive(Debug)]
pub struct ClassDefItem {
    pub row: ClassRow,
    pub members: Option<ClassMembers>,
}

/// A class definition, with its members as a view.
#[verifier::ext_equal]
pub struct ClassView {
    pub row: ClassRow,
    pub members: Option<MembersView>,
}

impl View for ClassDefItem {
    type V = ClassView;

    open spec fn view(&self) -> ClassView {
        ClassView {
            row: self.row,
            members: match self.members {
                Some(members) => Some(members@),
                None => None,
            },
        }
    }
}

/// The views of a list of classes.
pub open spec fn class_views(list: Seq<ClassDefItem>) -> Seq<ClassView> {
    list.map_values(|class: ClassDefItem| class@)
}

/// The classes of an image, in the order of the file.
#[derive(Debug)]
pub struct DexClasses {
    pub items: Vec<ClassDefItem>,
}

/// Where the code of a member is, if it has any.
pub open spec fn code_place(member: EncodedMember) -> Option<u32> {
    if member.code == 0 {
        None
    } else {
        Some(member.code)
    }
}

/// A method that a class declares, decoded to the given level.
pub open spec fn method_of(
    data: Seq<u8>,
    big_endian: bool,
    tables: Tables,
    level: ClassDecodeLevel,
    member: EncodedMember,
) -> Result<MethodView, DexError> {
    let row = tables.methods[member.index as int];
    match (
        text_at(tables.strings, row.name_idx as int),
        method_text_of(
            tables.methods,
            tables.protos,
            tables.types,
            tables.strings,
            member.index as int,
        ),
    ) {
        (Some(name), Some(proto)) => {
            let plain = MethodView {
                method_idx: member.index,
                name,
                proto,
                access_flags: member.access_flags,
                code_offset: code_place(member),
                code_item: None,
            };
            if level is Bytecode && member.code != 0 {
                match code_at(data, big_endian, member.code as int) {
                    Err(error) => Err(error),
                    Ok(code) => Ok(MethodView { code_item: Some(code), ..plain }),
                }
            } else {
                Ok(plain)
            }
        },
        _ => Err(DexError::InvalidMethodIdx),
    }
}

/// The methods of a list, by position.
pub open spec fn method_list(
    data: Seq<u8>,
    big_endian: bool,
    tables: Tables,
    level: ClassDecodeLevel,
    members: Seq<EncodedMember>,
) -> spec_fn(int) -> Result<MethodView, DexError> {
    |k: int| method_of(data, big_endian, tables, level, members[k])
}

/// The members of a class, with its methods decoded to the given level.
pub open spec fn members_of(
    data: Seq<u8>,
    big_endian: bool,
    tables: Tables,
    level: ClassDecodeLevel,
    lists: DataView,
) -> Result<MembersView, DexError> {
    match collect(
        lists.direct_methods.len() as int,
        method_list(data, big_endian, tables, level, lists.direct_methods),
    ) {
        Err(error) => Err(error),
        Ok(direct_methods) => match collect(
            lists.virtual_methods.len() as int,
            method_list(data, big_endian, tables, level, lists.virtual_methods),
        ) {
            Err(error) => Err(error),
            Ok(virtual_methods) => Ok(
                MembersView {
                    static_fields: lists.static_fields,
                    instance_fields: lists.instance_fields,
                    direct_methods,
                    virtual_methods,
                },
            ),
        },
    }
}

/// The class with the given row, decoded to the given level. A class without class data has no
/// members.
pub open spec fn class_of(
    data: Seq<u8>,
    big_endian: bool,
    tables: Tables,
    level: ClassDecodeLevel,
    row: ClassRow,
) -> Result<ClassView, DexError> {
    if level is Declaration {
        Ok(ClassView { row, members: None })
    } else if row.class_data_off == 0 {
        Ok(
            ClassView {
                row,
                members: Some(
                    MembersView {
                        static_fields: Seq::empty(),
                        instance_fields: Seq::empty(),
                        direct_methods: Seq::empty(),
                        virtual_methods: Seq::empty(),
                    },
                ),
            },
        )
    } else {
        match class_data_at(
            data,
            row.class_data_off as int,
            tables.fields.len() as int,
            tables.methods.len() as int,
        ) {
            Err(error) => Err(error),
            Ok(lists) => match members_of(data, big_endian, tables, level, lists) {
                Err(error) => Err(error),
                Ok(members) => Ok(ClassView { row, members: Some(members) }),
            },
        }
    }
}

/// The row at `at`, in a file of `types` types.
pub open spec fn class_row_at(data: Seq<u8>, big_endian: bool, at: int, types: int) -> Result<
    ClassRow,
    DexError,
> {
    if at + 32 > data.len() {
        Err(DexError::UnexpectedEnd)
    } else if word_at(data, big_endian, at) >= types {
        Err(DexError::InvalidTypeIdx)
    } else {
        Ok(
            ClassRow {
                class_idx: word_at(data, big_endian, at) as u32,
                access_flags: word_at(data, big_endian, at + 4) as u32,
                superclass_idx: word_at(data, big_endian, at + 8) as u32,
                interfaces_off: word_at(data, big_endian, at + 12) as u32,
                source_file_idx: word_at(data, big_endian, at + 16) as u32,
                annotations_off: word_at(data, big_endian, at + 20) as u32,
                class_data_off: word_at(data, big_endian, at + 24) as u32,
                static_values_off: word_at(data, big_endian, at + 28) as u32,
            },
        )
    }
}

/// The classes of the table at `offset`, by index.
pub open spec fn class_item(
    data: Seq<u8>,
    big_endian: bool,
    tables: Tables,
    level: ClassDecodeLevel,
    offset: int,
) -> spec_fn(int) -> Result<ClassView, DexError> {
    |index: int|
        match class_row_at(data, big_endian, offset + 32 * index, tables.types.len() as int) {
            Err(error) => Err(error),
            Ok(row) => class_of(data, big_endian, tables, level, row),
        }
}

/// The tables that the given lists hold.
pub open spec fn tables_of(
    strings: DexStrings,
    types: DexTypes,
    protos: DexProtos,
    fields: DexFields,
    methods: DexMethods,
) -> Tables {
    Tables {
        strings: string_units(strings.strings@),
        types: types.items@,
        protos: proto_views(protos.items@),
        fields: fields.items@,
        methods: methods.items@,
    }
}

/// The name of a class, where its type has one.
pub open spec fn name_of(tables: Tables, class: ClassView) -> Option<Seq<char>> {
    descriptor_of(tables.types, tables.strings, class.row.class_idx as int)
}

/// Whether a class has the given name.
pub open spec fn is_named(tables: Tables, name: Seq<char>) -> spec_fn(ClassView) -> bool {
    |class: ClassView| name_of(tables, class) == Some(name)
}

/// The first class with the given name.
pub open spec fn class_named(tables: Tables, classes: Seq<ClassView>, name: Seq<char>) -> Option<
    ClassView,
> {
    let k = first_where(classes, is_named(tables, name));
    if k < classes.len() {
        Some(classes[k])
    } else {
        None
    }
}

/// The methods of a class, direct ones first.
pub open spec fn all_methods(class: ClassView) -> Seq<MethodView> {
    match class.members {
        Some(members) => members.direct_methods + members.virtual_methods,
        None => Seq::empty(),
    }
}

/// Whether a method has the given name.
pub open spec fn has_name(name: Seq<char>) -> spec_fn(MethodView) -> bool {
    |method: MethodView| method.name == name
}

/// The first method of a class with the given name.
pub open spec fn method_named(class: ClassView, name: Seq<char>) -> Option<MethodView> {
    let k = first_where(all_methods(class), has_name(name));
    if k < all_methods(class).len() {
        Some(all_methods(class)[k])
    } else {
        None
    }
}

/// The views of borrowed methods.
pub open spec fn borrowed_views(list: Seq<&EncodedMethod>) -> Seq<MethodView> {
    list.map_values(|method: &EncodedMethod| method@)
}

/// The view of a class that may be absent.
pub open spec fn opt_class(class: Option<&ClassDefItem>) -> Option<ClassView> {
    match class {
        Some(class) => Some(class@),
        None => None,
    }
}

/// The view of a method that may be absent.
pub open spec fn opt_method(method: Option<&EncodedMethod>) -> Option<MethodView> {
    match method {
        Some(method) => Some(method@),
        None => None,
    }
}

impl EncodedMethod {
    /// The name of the method.
    pub fn get_method_name(&self) -> (name: &str)
        ensures
            name@ == self.name@,
    {
        self.name.as_str()
    }
}

impl ClassDefItem {
    /// Whether the members of the class are decoded.
    pub fn members_loaded(&self) -> (loaded: bool)
        ensures
            loaded == (self.members is Some),
    {
        self.members.is_some()
    }

    /// Where the annotations of the class are.
    pub fn annotations_offset(&self) -> (offset: u32)
        ensures
            offset == self.row.annotations_off,
    {
        self.row.annotations_off
    }

    /// The name of the class.
    pub fn class_name<'a>(&self, types: &DexTypes, strings: &'a DexStrings) -> (name: Option<&'a str>)
        ensures
            opt_text(name) == descriptor_of(
                types.items@,
                string_units(strings.strings@),
                self.row.class_idx as int,
            ),
    {
        types.descriptor(strings, self.row.class_idx)
    }

    /// The methods of the class, direct ones first.
    pub fn get_methods(&self) -> (methods: Vec<&EncodedMethod>)
        ensures
            borrowed_views(methods@) == all_methods(self@),
    {
        let mut methods: Vec<&EncodedMethod> = Vec::new();
        if let Some(members) = &self.members {
            let ghost direct = method_views(members.direct_methods@);
            let ghost virtuals = method_views(members.virtual_methods@);
            let direct_count: usize = members.direct_methods.len();
            let mut k: usize = 0;
            while k < direct_count
                invariant
                    direct_count == members.direct_methods@.len(),
                    direct == method_views(members.direct_methods@),
                    k <= direct_count,
                    borrowed_views(methods@) =~= direct.take(k as int),
                decreases direct_count - k,
            {
                let ghost before = methods@;
                let method: &EncodedMethod = &members.direct_methods[k];
                methods.push(method);
                proof {
                    assert(borrowed_views(methods@) =~= borrowed_views(before).push(method@));
                    assert(direct[k as int] == method@);
                    assert(direct.take(k + 1) =~= direct.take(k as int).push(method@));
                }
                k = k + 1;
            }
            assert(borrowed_views(methods@) =~= direct + virtuals.take(0));
            let virtual_count: usize = members.virtual_methods.len();
            let mut i: usize = 0;
            while i < virtual_count
                invariant
                    virtual_count == members.virtual_methods@.len(),
                    virtuals == method_views(members.virtual_methods@),
                    i <= virtual_count,
                    borrowed_views(methods@) =~= direct + virtuals.take(i as int),
                decreases virtual_count - i,
            {
                let ghost before = methods@;
                let method: &EncodedMethod = &members.virtual_methods[i];
                methods.push(method);
                proof {
                    assert(borrowed_views(methods@) =~= borrowed_views(before).push(method@));
                    assert(virtuals[i as int] == method@);
                    assert(virtuals.take(i + 1) =~= virtuals.take(i as int).push(method@));
                }
                i = i + 1;
            }
            assert(borrowed_views(methods@) =~= direct + virtuals);
        }
        assert(borrowed_views(methods@) =~= all_methods(self@));
        methods
    }

    /// The first method of the class with the given name, direct ones first.
    pub fn get_encoded_method(&self, name: &str) -> (method: Option<&EncodedMethod>)
        ensures
            opt_method(method) == method_named(self@, name@),
    {
        let methods = self.get_methods();
        let ghost views = all_methods(self@);
        let ghost p = has_name(name@);
        let mut k: usize = 0;
        while k < methods.len()
            invariant
                borrowed_views(methods@) == views,
                views == all_methods(self@),
                p == has_name(name@),
                k <= methods@.len(),
                forall|j: int| 0 <= j < k ==> !p(#[trigger] views[j]),
            decreases methods@.len() - k,
        {
            let method: &EncodedMethod = methods[k];
            assert(views[k as int] == method@);
            if same_text(method.get_method_name(), name) {
                proof {
                    lemma_first_where(views, p, k as int);
                }
                return Some(method);
            }
            k = k + 1;
        }
        proof {
            lemma_first_where(views, p, k as int);
        }
        None
    }
}

/// The outcome of a call that returns a method, with the method as a view.
pub open spec fn method_outcome(result: Result<EncodedMethod, DexError>) -> Result<
    MethodView,
    DexError,
> {
    match result {
        Ok(method) => Ok(method@),
        Err(error) => Err(error),
    }
}

/// Decodes a method that a class declares.
fn read_method(
    dex_reader: &DexReader,
    types: &DexTypes,
    protos: &DexProtos,
    strings: &DexStrings,
    fields: &DexFields,
    methods: &DexMethods,
    level: ClassDecodeLevel,
    member: EncodedMember,
) -> (method: Result<EncodedMethod, DexError>)
    requires
        member.index < methods.items@.len(),
    ensures
        method_outcome(method) == method_of(
            dex_reader.bytes@,
            dex_reader.big_endian,
            tables_of(*strings, *types, *protos, *fields, *methods),
            level,
            member,
        ),
{
    let row = methods.items[member.index as usize];
    let name = match strings.text(row.name_idx) {
        Some(name) => name.to_owned(),
        None => {
            return Err(DexError::InvalidMethodIdx);
        },
    };
    let proto = match methods.render(types, protos, strings, member.index) {
        Some(proto) => proto,
        None => {
            return Err(DexError::InvalidMethodIdx);
        },
    };
    let mut code_offset: Option<u32> = None;
    let mut code_item: Option<CodeItem> = None;
    if member.code != 0 {
        code_offset = Some(member.code);
        if level == ClassDecodeLevel::Bytecode {
            match CodeItem::build(dex_reader, member.code) {
                Ok(code) => {
                    code_item = Some(code);
                },
                Err(error) => {
                    return Err(error);
                },
            }
        }
    }
    Ok(
        EncodedMethod {
            method_idx: member.index,
            name,
            proto,
            access_flags: member.access_flags,
            code_offset,
            code_item,
        },
    )
}

/// Decodes the methods of a list.
fn read_methods(
    dex_reader: &DexReader,
    types: &DexTypes,
    protos: &DexProtos,
    strings: &DexStrings,
    fields: &DexFields,
    methods: &DexMethods,
    level: ClassDecodeLevel,
    members: &Vec<EncodedMember>,
) -> (list: Result<Vec<EncodedMethod>, DexError>)
    requires
        forall|k: int| 0 <= k < members@.len() ==> (#[trigger] members@[k]).index < methods.items@.len(),
    ensures
        ({
            let all = collect(
                members@.len() as int,
                method_list(
                    dex_reader.bytes@,
                    dex_reader.big_endian,
                    tables_of(*strings, *types, *protos, *fields, *methods),
                    level,
                    members@,
                ),
            );
            match list {
                Ok(list) => all == Ok::<Seq<MethodView>, DexError>(method_views(list@)),
                Err(error) => all == Err::<Seq<MethodView>, DexError>(error),
            }
        }),
{
    let ghost tables = tables_of(*strings, *types, *protos, *fields, *methods);
    let ghost f = method_list(
        dex_reader.bytes@,
        dex_reader.big_endian,
        tables,
        level,
        members@,
    );
    let count: usize = members.len();
    let mut list: Vec<EncodedMethod> = Vec::new();
    let mut k: usize = 0;
    assert(method_views(list@) =~= Seq::empty());
    while k < count
        invariant
            forall|k: int|
                0 <= k < members@.len() ==> (#[trigger] members@[k]).index < methods.items@.len(),
            tables == tables_of(*strings, *types, *protos, *fields, *methods),
            f == method_list(dex_reader.bytes@, dex_reader.big_endian, tables, level, members@),
            count == members@.len(),
            k <= count,
            collect(k as int, f) == Ok::<Seq<MethodView>, DexError>(method_views(list@)),
        decreases count - k,
    {
        let member = members[k];
        match read_method(dex_reader, types, protos, strings, fields, methods, level, member) {
            Ok(method) => {
                let ghost before = list@;
                list.push(method);
                assert(method_views(list@) =~= method_views(before).push(method@));
            },
            Err(error) => {
                proof {
                    lemma_collect_fails(count as int, k as int, f);
                }
                return Err(error);
            },
        }
        k = k + 1;
    }
    Ok(list)
}

/// The members that class data lists are in the tables of the file.
proof fn lemma_members_listed(
    data: Seq<u8>,
    at: int,
    count: int,
    kind: MemberKind,
    previous: int,
    limit: int,
)
    requires
        members_at(data, at, count, kind, previous, limit) is Ok,
        0 <= previous,
    ensures
        forall|k: int|
            0 <= k < members_at(data, at, count, kind, previous, limit)->Ok_0.0.len() ==> (
            #[trigger] members_at(data, at, count, kind, previous, limit)->Ok_0.0[k]).index < limit,
    decreases count,
{
    if count > 0 {
        let first = member_at(data, at, kind, previous, limit)->Ok_0;
        lemma_uleb_range(data, at, 0);
        lemma_members_listed(data, first.1, count - 1, kind, first.0.index as int, limit);
        let rest = members_at(data, first.1, count - 1, kind, first.0.index as int, limit)->Ok_0.0;
        let all = members_at(data, at, count, kind, previous, limit)->Ok_0.0;
        assert(all =~= seq![first.0] + rest);
        assert forall|k: int| 0 <= k < all.len() implies (#[trigger] all[k]).index < limit by {
            if k > 0 {
                assert(all[k] == rest[k - 1]);
            }
        }
    }
}

/// The methods that class data lists are in the method table of the file.
proof fn lemma_methods_listed(data: Seq<u8>, at: int, fields: int, methods: int)
    requires
        class_data_at(data, at, fields, methods) is Ok,
    ensures
        forall|k: int|
            0 <= k < class_data_at(data, at, fields, methods)->Ok_0.direct_methods.len() ==> (
            #[trigger] class_data_at(data, at, fields, methods)->Ok_0.direct_methods[k]).index
                < methods,
        forall|k: int|
            0 <= k < class_data_at(data, at, fields, methods)->Ok_0.virtual_methods.len() ==> (
            #[trigger] class_data_at(data, at, fields, methods)->Ok_0.virtual_methods[k]).index
                < methods,
{
    let counts = counts_at(data, at)->0;
    let statics = members_at(data, counts.4, counts.0, MemberKind::Field, 0, fields)->Ok_0;
    let instances = members_at(data, statics.1, counts.1, MemberKind::Field, 0, fields)->Ok_0;
    lemma_members_listed(data, instances.1, counts.2, MemberKind::Method, 0, methods);
    let directs = members_at(data, instances.1, counts.2, MemberKind::Method, 0, methods)->Ok_0;
    lemma_members_listed(data, directs.1, counts.3, MemberKind::Method, 0, methods);
}

/// The outcome of a call that returns a class, with the class as a view.
pub open spec fn class_outcome(result: Result<ClassDefItem, DexError>) -> Result<
    ClassView,
    DexError,
> {
    match result {
        Ok(class) => Ok(class@),
        Err(error) => Err(error),
    }
}

/// Decodes the class with the given row.
fn read_class(
    dex_reader: &DexReader,
    types: &DexTypes,
    protos: &DexProtos,
    strings: &DexStrings,
    fields: &DexFields,
    methods: &DexMethods,
    level: ClassDecodeLevel,
    row: ClassRow,
) -> (class: Result<ClassDefItem, DexError>)
    ensures
        class_outcome(class) == class_of(
            dex_reader.bytes@,
            dex_reader.big_endian,
            tables_of(*strings, *types, *protos, *fields, *methods),
            level,
            row,
        ),
{
    if level == ClassDecodeLevel::Declaration {
        return Ok(ClassDefItem { row, members: None });
    }
    if row.class_data_off == 0 {
        let members = ClassMembers {
            static_fields: Vec::new(),
            instance_fields: Vec::new(),
            direct_methods: Vec::new(),
            virtual_methods: Vec::new(),
        };
        assert(method_views(members.direct_methods@) =~= Seq::empty());
        assert(method_views(members.virtual_methods@) =~= Seq::empty());
        return Ok(ClassDefItem { row, members: Some(members) });
    }
    let lists = match read_class_data(
        dex_reader,
        row.class_data_off,
        fields.items.len(),
        methods.items.len(),
    ) {
        Ok(lists) => lists,
        Err(error) => {
            return Err(error);
        },
    };
    proof {
        lemma_methods_listed(
            dex_reader.bytes@,
            row.class_data_off as int,
            fields.items@.len() as int,
            methods.items@.len() as int,
        );
        assert(lists@.direct_methods == lists.direct_methods@);
        assert(lists@.virtual_methods == lists.virtual_methods@);
    }
    let direct_methods = match read_methods(
        dex_reader,
        types,
        protos,
        strings,
        fields,
        methods,
        level,
        &lists.direct_methods,
    ) {
        Ok(list) => list,
        Err(error) => {
            return Err(error);
        },
    };
    let virtual_methods = match read_methods(
        dex_reader,
        types,
        protos,
        strings,
        fields,
        methods,
        level,
        &lists.virtual_methods,
    ) {
        Ok(list) => list,
        Err(error) => {
            return Err(error);
        },
    };
    Ok(
        ClassDefItem {
            row,
            members: Some(
                ClassMembers {
                    static_fields: lists.static_fields,
                    instance_fields: lists.instance_fields,
                    direct_methods,
                    virtual_methods,
                },
            ),
        },
    )
}

/// Reads the row at `at`.
fn read_row(dex_reader: &DexReader, at: u64, types: usize) -> (row: Result<ClassRow, DexError>)
    requires
        at <= 0xFFFF_FFFF_FFFF,
    ensures
        row == class_row_at(dex_reader.bytes@, dex_reader.big_endian, at as int, types as int),
{
    let static_values_off: u32 = match dex_reader.word(at + 28) {
        Ok(value) => value,
        Err(error) => {
            return Err(error);
        },
    };
    let class_idx: u32 = row_field(dex_reader, at);
    if class_idx as usize >= types {
        return Err(DexError::InvalidTypeIdx);
    }
    Ok(
        ClassRow {
            class_idx,
            access_flags: row_field(dex_reader, at + 4),
            superclass_idx: row_field(dex_reader, at + 8),
            interfaces_off: row_field(dex_reader, at + 12),
            source_file_idx: row_field(dex_reader, at + 16),
            annotations_off: row_field(dex_reader, at + 20),
            class_data_off: row_field(dex_reader, at + 24),
            static_values_off,
        },
    )
}

fn row_field(dex_reader: &DexReader, at: u64) -> (value: u32)
    requires
        at + 4 <= dex_reader.bytes@.len(),
    ensures
        value == word_at(dex_reader.bytes@, dex_reader.big_endian, at as int),
{
    match dex_reader.word(at) {
        Ok(value) => value,
        Err(_error) => 0,
    }
}

impl DexClasses {
    /// Decodes `size` classes of the table at `offset` to the given level.
    pub fn build_with_level(
        dex_reader: &DexReader,
        offset: u32,
        size: u32,
        fields: &DexFields,
        types: &DexTypes,
        protos: &DexProtos,
        strings: &DexStrings,
        methods: &DexMethods,
        level: ClassDecodeLevel,
    ) -> (classes: Result<Self, DexError>)
        ensures
            ({
                let all = collect(
                    size as int,
                    class_item(
                        dex_reader.bytes@,
                        dex_reader.big_endian,
                        tables_of(*strings, *types, *protos, *fields, *methods),
                        level,
                        offset as int,
                    ),
                );
                match classes {
                    Ok(list) => all == Ok::<Seq<ClassView>, DexError>(class_views(list.items@)),
                    Err(error) => all == Err::<Seq<ClassView>, DexError>(error),
                }
            }),
    {
        let ghost data = dex_reader.bytes@;
        let ghost big_endian = dex_reader.big_endian;
        let ghost tables = tables_of(*strings, *types, *protos, *fields, *methods);
        let ghost f = class_item(data, big_endian, tables, level, offset as int);
        let mut items: Vec<ClassDefItem> = Vec::new();
        let mut index: u32 = 0;
        assert(class_views(items@) =~= Seq::empty());
        while index < size
            invariant
                data == dex_reader.bytes@,
                big_endian == dex_reader.big_endian,
                tables == tables_of(*strings, *types, *protos, *fields, *methods),
                f == class_item(data, big_endian, tables, level, offset as int),
                index <= size,
                collect(index as int, f) == Ok::<Seq<ClassView>, DexError>(class_views(items@)),
            decreases size - index,
        {
            let at: u64 = offset as u64 + 32 * index as u64;
            let row = match read_row(dex_reader, at, types.items.len()) {
                Ok(row) => row,
                Err(error) => {
                    proof {
                        lemma_collect_fails(size as int, index as int, f);
                    }
                    return Err(error);
                },
            };
            match read_class(dex_reader, types, protos, strings, fields, methods, level, row) {
                Ok(class) => {
                    let ghost before = items@;
                    items.push(class);
                    assert(class_views(items@) =~= class_views(before).push(class@));
                },
                Err(error) => {
                    proof {
                        lemma_collect_fails(size as int, index as int, f);
                    }
                    return Err(error);
                },
            }
            index = index + 1;
        }
        Ok(DexClasses { items })
    }

    /// The first class with the given name.
    pub fn get_class_def(&self, types: &DexTypes, strings: &DexStrings, name: &str) -> (class:
        Option<&ClassDefItem>)
        ensures
            forall|tables: Tables|
                tables.types == types.items@ && tables.strings == string_units(strings.strings@)
                    ==> opt_class(class) == #[trigger] class_named(
                    tables,
                    class_views(self.items@),
                    name@,
                ),
    {
        let ghost views = class_views(self.items@);
        let ghost units = string_units(strings.strings@);
        let mut k: usize = 0;
        while k < self.items.len()
            invariant
                views == class_views(self.items@),
                units == string_units(strings.strings@),
                k <= self.items@.len(),
                forall|j: int|
                    0 <= j < k ==> descriptor_of(
                        types.items@,
                        units,
                        (#[trigger] views[j]).row.class_idx as int,
                    ) != Some(name@),
            decreases self.items@.len() - k,
        {
            let class: &ClassDefItem = &self.items[k];
            assert(views[k as int] == class@);
            if let Some(found) = class.class_name(types, strings) {
                if same_text(found, name) {
                    proof {
                        assert forall|tables: Tables|
                            tables.types == types.items@ && tables.strings == units implies Some(
                            class@,
                        ) == #[trigger] class_named(tables, views, name@) by {
                            lemma_first_where(views, is_named(tables, name@), k as int);
                        }
                    }
                    return Some(class);
                }
            }
            k = k + 1;
        }
        proof {
            assert forall|tables: Tables|
                tables.types == types.items@ && tables.strings == units implies None::<ClassView>
                == #[trigger] class_named(tables, views, name@) by {
                lemma_first_where(views, is_named(tables, name@), k as int);
            }
        }
        None
    }
}

/// The row of a class as it is written: eight words.
pub open spec fn written_row(row: ClassRow) -> Seq<u8> {
    written32(row.class_idx) + (written32(row.access_flags) + (written32(row.superclass_idx) + (
    written32(row.interfaces_off) + (written32(row.source_file_idx) + (written32(row.annotations_off)
        + (written32(row.class_data_off) + written32(row.static_values_off)))))))
}

/// The row of a class that was written reads back, if the file has its type.
pub proof fn law_class_row_reads_back(data: Seq<u8>, at: int, row: ClassRow, types: int)
    requires
        0 <= at,
        occurs_at(data, written_row(row), at),
    ensures
        class_row_at(data, false, at, types) == (if row.class_idx < types {
            Ok::<ClassRow, DexError>(row)
        } else {
            Err(DexError::InvalidTypeIdx)
        }),
{
    let tail6 = written32(row.class_data_off) + written32(row.static_values_off);
    let tail5 = written32(row.annotations_off) + tail6;
    let tail4 = written32(row.source_file_idx) + tail5;
    let tail3 = written32(row.interfaces_off) + tail4;
    let tail2 = written32(row.superclass_idx) + tail3;
    let tail1 = written32(row.access_flags) + tail2;
    lemma_both_occur(data, written32(row.class_idx), tail1, at);
    lemma_both_occur(data, written32(row.access_flags), tail2, at + 4);
    lemma_both_occur(data, written32(row.superclass_idx), tail3, at + 8);
    lemma_both_occur(data, written32(row.interfaces_off), tail4, at + 12);
    lemma_both_occur(data, written32(row.source_file_idx), tail5, at + 16);
    lemma_both_occur(data, written32(row.annotations_off), tail6, at + 20);
    lemma_both_occur(
        data,
        written32(row.class_data_off),
        written32(row.static_values_off),
        at + 24,
    );
    law_word_reads_back(data, at, row.class_idx);
    law_word_reads_back(data, at + 4, row.access_flags);
    law_word_reads_back(data, at + 8, row.superclass_idx);
    law_word_reads_back(data, at + 12, row.interfaces_off);
    law_word_reads_back(data, at + 16, row.source_file_idx);
    law_word_reads_back(data, at + 20, row.annotations_off);
    law_word_reads_back(data, at + 24, row.class_data_off);
    law_word_reads_back(data, at + 28, row.static_values_off);
}

/// A class is found by its name if one has it, and the one that is found is the first.
pub proof fn law_a_class_is_found_by_its_name(
    tables: Tables,
    classes: Seq<ClassView>,
    name: Seq<char>,
    k: int,
)
    requires
        0 <= k < classes.len(),
        name_of(tables, classes[k]) == Some(name),
        forall|j: int| 0 <= j < k ==> name_of(tables, #[trigger] classes[j]) != Some(name),
    ensures
        class_named(tables, classes, name) == Some(classes[k]),
{
    lemma_first_where(classes, is_named(tables, name), k);
}

/// A name that no class has finds none.
pub proof fn law_an_unknown_name_finds_no_class(
    tables: Tables,
    classes: Seq<ClassView>,
    name: Seq<char>,
)
    requires
        forall|j: int| 0 <= j < classes.len() ==> name_of(tables, #[trigger] classes[j]) != Some(name),
    ensures
        class_named(tables, classes, name) is None,
{
    lemma_first_where(classes, is_named(tables, name), classes.len() as int);
}

/// A method is found by its name among the direct and the virtual methods, and the one that is
/// found is the first of them. A name that none has finds none.
pub proof fn law_a_method_is_found_by_its_name(members: MembersView, row: ClassRow, name: Seq<char>)
    ensures
        ({
            let class = ClassView { row, members: Some(members) };
            let all = members.direct_methods + members.virtual_methods;
            match method_named(class, name) {
                Some(method) => exists|k: int|
                    0 <= k < all.len() && #[trigger] all[k] == method && method.name == name && (
                    forall|j: int| 0 <= j < k ==> (#[trigger] all[j]).name != name),
                None => forall|j: int| 0 <= j < all.len() ==> (#[trigger] all[j]).name != name,
            }
        }),
{
    let all = members.direct_methods + members.virtual_methods;
    let p = has_name(name);
    lemma_first_where_is(all, p);
    let k = first_where(all, p);
    assert forall|j: int| 0 <= j < k implies (#[trigger] all[j]).name != name by {
        assert(!p(all[j]));
    }
    if k < all.len() {
        assert(p(all[k]));
    }
}

/// A method of a class has the index, the flags and the place of the code that the class data
/// states, and its code is decoded exactly where that is asked for and it has any.
pub proof fn law_methods_are_those_of_the_class_data(
    data: Seq<u8>,
    big_endian: bool,
    tables: Tables,
    level: ClassDecodeLevel,
    member: EncodedMember,
    method: MethodView,
)
    requires
        method_of(data, big_endian, tables, level, member) == Ok::<MethodView, DexError>(method),
    ensures
        method.method_idx == member.index,
        method.access_flags == member.access_flags,
        member.code == 0 ==> method.code_offset is None && method.code_item is None,
        member.code != 0 ==> method.code_offset == Some(member.code),
        method.code_item is Some <==> level is Bytecode && member.code != 0,
        method.code_item matches Some(code) ==> code_at(data, big_endian, member.code as int) == Ok::<
            CodeView,
            DexError,
        >(code),
        text_at(
            tables.strings,
            tables.methods[member.index as int].name_idx as int,
        ) == Some(method.name),
{
}

/// Every member that the class data states is a member of the class, in its own list and place.
pub proof fn law_every_member_is_decoded(
    data: Seq<u8>,
    big_endian: bool,
    tables: Tables,
    level: ClassDecodeLevel,
    lists: DataView,
    members: MembersView,
    k: int,
)
    requires
        members_of(data, big_endian, tables, level, lists) == Ok::<MembersView, DexError>(members),
    ensures
        members.static_fields == lists.static_fields,
        members.instance_fields == lists.instance_fields,
        members.direct_methods.len() == lists.direct_methods.len(),
        members.virtual_methods.len() == lists.virtual_methods.len(),
        0 <= k < members.direct_methods.len() ==> members.direct_methods[k].method_idx
            == lists.direct_methods[k].index,
        0 <= k < members.virtual_methods.len() ==> members.virtual_methods[k].method_idx
            == lists.virtual_methods[k].index,
{
    let f = method_list(data, big_endian, tables, level, lists.direct_methods);
    let g = method_list(data, big_endian, tables, level, lists.virtual_methods);
    lemma_collect_succeeds(lists.direct_methods.len() as int, f);
    lemma_collect_succeeds(lists.virtual_methods.len() as int, g);
    if 0 <= k < members.direct_methods.len() {
        assert(f(k) == Ok::<MethodView, DexError>(members.direct_methods[k]));
    }
    if 0 <= k < members.virtual_methods.len() {
        assert(g(k) == Ok::<MethodView, DexError>(members.virtual_methods[k]));
    }
}

} // verus!
