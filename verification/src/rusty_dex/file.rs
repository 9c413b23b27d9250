//! Representation of a DEX file
//!
//! This is the main type of the parser. Building a [`DexFile`] reads the header and from there
//! decodes the contents of the file: strings, types, prototypes, fields, methods and classes.
use super::annotations::{
    directory_at, nested_outcome, not_nested, read_class_annotations_directory,
    ClassNestedMetadata, NestedView,
};
use super::classes::{
    all_methods, borrowed_views, class_item, class_named, class_views, name_of, opt_class,
    tables_of, ClassDecodeLevel, ClassDefItem, ClassView, DexClasses, EncodedMethod, MethodView,
    Tables,
};
use super::code_item::{code_at, CodeItem, CodeView};
use super::error::DexError;
use super::fields::{field_row, DexFields};
use super::header::{header_of, DexHeader, HEADER_SIZE};
use super::methods::{method_row, DexMethods};
use super::protos::{proto_row, DexProtos};
use super::reader::DexReader;
use super::strings::{string_row, DexStrings};
use super::types::{type_row, DexTypes};
use crate::seqs::{collect, lemma_collect_succeeds};
use vstd::prelude::*;

verus! {

/// Representation of a DEX file
#[derive(Debug)]
pub struct DexFile {
    /// The image the file was read from, if it is kept.
    pub source: Option<DexReader>,
    /// Header of the file
    pub header: DexHeader,
    /// List of strings defined in the DEX file
    pub strings: DexStrings,
    /// List of types defined in the DEX file
    pub types: DexTypes,
    /// List of prototypes defined in the DEX file
    pub protos: DexProtos,
    /// List of class fields defined in the DEX file
    pub fields: DexFields,
    /// List of methods defined in the DEX file
    pub methods: DexMethods,
    /// List of classes defined in the DEX file
    pub classes: DexClasses,
}

/// What a DEX file holds.
#[verifier::ext_equal]
pub struct FileView {
    pub header: DexHeader,
    pub tables: Tables,
    pub classes: Seq<ClassView>,
}

impl View for DexFile {
    type V = FileView;

    open spec fn view(&self) -> FileView {
        FileView {
            header: self.header,
            tables: tables_of(self.strings, self.types, self.protos, self.fields, self.methods),
            classes: class_views(self.classes.items@),
        }
    }
}

/// The tables of an image with the given header.
pub open spec fn image_tables(data: Seq<u8>, big_endian: bool, header: DexHeader) -> Result<
    Tables,
    DexError,
> {
    match collect(
        header.string_ids_size as int,
        string_row(data, big_endian, header.string_ids_off as int),
    ) {
        Err(error) => Err(error),
        Ok(strings) => match collect(
            header.type_ids_size as int,
            type_row(data, big_endian, header.type_ids_off as int, strings.len() as int),
        ) {
            Err(error) => Err(error),
            Ok(types) => match collect(
                header.proto_ids_size as int,
                proto_row(data, big_endian, header.proto_ids_off as int, types.len() as int),
            ) {
                Err(error) => Err(error),
                Ok(protos) => match collect(
                    header.fields_ids_size as int,
                    field_row(
                        data,
                        big_endian,
                        header.fields_ids_off as int,
                        types.len() as int,
                        strings.len() as int,
                    ),
                ) {
                    Err(error) => Err(error),
                    Ok(fields) => match collect(
                        header.method_ids_size as int,
                        method_row(
                            data,
                            big_endian,
                            header.method_ids_off as int,
                            types.len() as int,
                            protos.len() as int,
                            strings.len() as int,
                        ),
                    ) {
                        Err(error) => Err(error),
                        Ok(methods) => Ok(Tables { strings, types, protos, fields, methods }),
                    },
                },
            },
        },
    }
}

/// What an image holds, with its classes decoded to the given level.
pub open spec fn image(data: Seq<u8>, big_endian: bool, level: ClassDecodeLevel) -> Result<
    FileView,
    DexError,
> {
    if data.len() < HEADER_SIZE {
        Err(DexError::UnexpectedEnd)
    } else {
        let header = header_of(data, big_endian);
        match image_tables(data, big_endian, header) {
            Err(error) => Err(error),
            Ok(tables) => match collect(
                header.class_defs_size as int,
                class_item(data, big_endian, tables, level, header.class_defs_off as int),
            ) {
                Err(error) => Err(error),
                Ok(classes) => Ok(FileView { header, tables, classes }),
            },
        }
    }
}

/// The outcome of building a file, with the file as a view.
pub open spec fn file_outcome(result: Result<DexFile, DexError>) -> Result<FileView, DexError> {
    match result {
        Ok(file) => Ok(file@),
        Err(error) => Err(error),
    }
}

/// Whether a file keeps the image that the given reader is over.
pub open spec fn keeps_image(file: DexFile, reader: DexReader) -> bool {
    file.source matches Some(source) && source.same_image(&reader)
}

/// The code of a method, where it has any.
pub open spec fn method_code(source: Option<DexReader>, code_offset: Option<u32>) -> Result<
    Option<CodeView>,
    DexError,
> {
    match code_offset {
        None => Ok(None),
        Some(offset) => match source {
            None => Err(DexError::NoDataLeftError),
            Some(reader) => match code_at(reader.bytes@, reader.big_endian, offset as int) {
                Err(error) => Err(error),
                Ok(code) => Ok(Some(code)),
            },
        },
    }
}

/// The class with the given index and its members, or the reason it cannot be decoded.
pub open spec fn materialized(source: Option<DexReader>, file: FileView, class_index: int) -> Result<
    ClassView,
    DexError,
> {
    if class_index >= file.classes.len() {
        Err(DexError::InvalidClassIdx)
    } else if file.classes[class_index].members is Some {
        Ok(file.classes[class_index])
    } else if file.header.class_defs_off + 32 * class_index > u32::MAX {
        Err(DexError::InvalidClassIdx)
    } else {
        match source {
            None => Err(DexError::NoDataLeftError),
            Some(reader) => (class_item(
                reader.bytes@,
                reader.big_endian,
                file.tables,
                ClassDecodeLevel::Members,
                file.header.class_defs_off as int,
            ))(class_index),
        }
    }
}

/// How the class with the given index is nested, or the reason its annotations cannot be read.
pub open spec fn nested(source: Option<DexReader>, file: FileView, class_index: int) -> Result<
    NestedView,
    DexError,
> {
    if class_index >= file.classes.len() {
        Err(DexError::InvalidClassIdx)
    } else if file.classes[class_index].row.annotations_off == 0 {
        Ok(not_nested())
    } else {
        match source {
            None => Err(DexError::NoDataLeftError),
            Some(reader) => directory_at(
                reader.bytes@,
                reader.big_endian,
                file.tables,
                file.classes[class_index].row.annotations_off as int,
            ),
        }
    }
}

/// The names of classes, of those that have one.
pub open spec fn names_of(tables: Tables, classes: Seq<ClassView>) -> Seq<Seq<char>>
    decreases classes.len(),
{
    if classes.len() == 0 {
        Seq::empty()
    } else {
        let front = names_of(tables, classes.drop_last());
        match name_of(tables, classes.last()) {
            Some(name) => front.push(name),
            None => front,
        }
    }
}

/// The texts of borrowed strings.
pub open spec fn borrowed_texts(list: Seq<&str>) -> Seq<Seq<char>> {
    list.map_values(|text: &str| text@)
}

impl DexFile {
    /// Parse a DEX file from the reader and create a `DexFile` object
    pub fn build(dex_reader: DexReader) -> (file: Result<Self, DexError>)
        ensures
            file_outcome(file) == image(
                dex_reader.bytes@,
                dex_reader.big_endian,
                ClassDecodeLevel::Bytecode,
            ),
            file matches Ok(file) ==> keeps_image(file, dex_reader),
    {
        Self::build_with_level(dex_reader, ClassDecodeLevel::Bytecode)
    }

    /// Parse the class directory while deferring members and bytecode.
    pub fn build_metadata(dex_reader: DexReader) -> (file: Result<Self, DexError>)
        ensures
            file_outcome(file) == image(
                dex_reader.bytes@,
                dex_reader.big_endian,
                ClassDecodeLevel::Declaration,
            ),
            file matches Ok(file) ==> keeps_image(file, dex_reader),
    {
        Self::build_with_level(dex_reader, ClassDecodeLevel::Declaration)
    }

    /// Parse a DEX file, with its classes decoded to the given level.
    pub fn build_with_level(dex_reader: DexReader, level: ClassDecodeLevel) -> (file: Result<
        Self,
        DexError,
    >)
        ensures
            file_outcome(file) == image(dex_reader.bytes@, dex_reader.big_endian, level),
            file matches Ok(file) ==> keeps_image(file, dex_reader),
    {
        let mut reader = dex_reader;
        let header = match DexHeader::new(&reader) {
            Ok(header) => header,
            Err(error) => {
                return Err(error);
            },
        };
        let strings = match DexStrings::build(
            &mut reader,
            header.string_ids_off,
            header.string_ids_size,
        ) {
            Ok(strings) => strings,
            Err(error) => {
                return Err(error);
            },
        };
        let types = match DexTypes::build(
            &mut reader,
            header.type_ids_off,
            header.type_ids_size,
            &strings,
        ) {
            Ok(types) => types,
            Err(error) => {
                return Err(error);
            },
        };
        let protos = match DexProtos::build(
            &mut reader,
            header.proto_ids_off,
            header.proto_ids_size,
            &types,
        ) {
            Ok(protos) => protos,
            Err(error) => {
                return Err(error);
            },
        };
        let fields = match DexFields::build(
            &mut reader,
            header.fields_ids_off,
            header.fields_ids_size,
            &types,
            &strings,
        ) {
            Ok(fields) => fields,
            Err(error) => {
                return Err(error);
            },
        };
        let methods = match DexMethods::build(
            &mut reader,
            header.method_ids_off,
            header.method_ids_size,
            &types,
            &protos,
            &strings,
        ) {
            Ok(methods) => methods,
            Err(error) => {
                return Err(error);
            },
        };
        let classes = match DexClasses::build_with_level(
            &reader,
            header.class_defs_off,
            header.class_defs_size,
            &fields,
            &types,
            &protos,
            &strings,
            &methods,
            level,
        ) {
            Ok(classes) => classes,
            Err(error) => {
                return Err(error);
            },
        };
        Ok(
            DexFile {
                source: Some(reader),
                header,
                strings,
                types,
                protos,
                fields,
                methods,
                classes,
            },
        )
    }

    /// Create a `DexFile` from a collection of `DexReader`.
    ///
    /// The id pools store file-local string and type indices, so files cannot be merged.
    pub fn merge(_readers: Vec<DexReader>) -> (file: Result<Self, DexError>)
        ensures
            file_outcome(file) == Err::<FileView, DexError>(DexError::MergeUnsupported),
    {
        Err(DexError::MergeUnsupported)
    }

    /// Decode the code of a method, if it has any.
    pub fn decode_code_item(&self, method: &EncodedMethod) -> (code: Result<
        Option<CodeItem>,
        DexError,
    >)
        ensures
            match code {
                Ok(Some(code)) => method_code(self.source, method.code_offset) == Ok::<
                    Option<CodeView>,
                    DexError,
                >(Some(code@)),
                Ok(None) => method_code(self.source, method.code_offset) == Ok::<
                    Option<CodeView>,
                    DexError,
                >(None),
                Err(error) => method_code(self.source, method.code_offset) == Err::<
                    Option<CodeView>,
                    DexError,
                >(error),
            },
    {
        let offset: u32 = match method.code_offset {
            Some(offset) => offset,
            None => {
                return Ok(None);
            },
        };
        match &self.source {
            None => Err(DexError::NoDataLeftError),
            Some(source) => match CodeItem::build(source, offset) {
                Ok(code) => Ok(Some(code)),
                Err(error) => Err(error),
            },
        }
    }

    /// Decode a class's fields and methods on first use.
    pub fn materialize_class(&mut self, class_index: usize) -> (done: Result<(), DexError>)
        ensures
            final(self).source == old(self).source,
            match materialized(old(self).source, old(self)@, class_index as int) {
                Ok(class) => done is Ok && final(self)@ == (FileView {
                    classes: old(self)@.classes.update(class_index as int, class),
                    ..old(self)@
                }),
                Err(error) => done == Err::<(), DexError>(error) && final(self)@ == old(self)@,
            },
    {
        let ghost before = self@;
        if class_index >= self.classes.items.len() {
            return Err(DexError::InvalidClassIdx);
        }
        assert(before.classes[class_index as int] == self.classes.items@[class_index as int]@);
        if self.classes.items[class_index].members_loaded() {
            assert(before.classes.update(class_index as int, before.classes[class_index as int])
                =~= before.classes);
            return Ok(());
        }
        if class_index as u64 > (u32::MAX - self.header.class_defs_off) as u64 / 32 {
            return Err(DexError::InvalidClassIdx);
        }
        let offset: u32 = self.header.class_defs_off + 32 * class_index as u32;
        let decoded = match &self.source {
            None => {
                return Err(DexError::NoDataLeftError);
            },
            Some(source) => DexClasses::build_with_level(
                source,
                offset,
                1,
                &self.fields,
                &self.types,
                &self.protos,
                &self.strings,
                &self.methods,
                ClassDecodeLevel::Members,
            ),
        };
        proof {
            lemma_one_class(
                self.source->0.bytes@,
                self.source->0.big_endian,
                before.tables,
                ClassDecodeLevel::Members,
                before.header.class_defs_off as int,
                class_index as int,
            );
        }
        let mut items = match decoded {
            Ok(classes) => classes.items,
            Err(error) => {
                return Err(error);
            },
        };
        let ghost found = items@;
        proof {
            assert(class_views(found).len() == found.len());
            assert(found.len() == 1);
            assert(class_views(found)[0] == found[0]@);
        }
        match items.pop() {
            Some(class) => {
                let ghost rows = self.classes.items@;
                self.classes.items.set(class_index, class);
                assert(class_views(self.classes.items@) =~= class_views(rows).update(
                    class_index as int,
                    class@,
                ));
                Ok(())
            },
            None => Err(DexError::InvalidClassIdx),
        }
    }

    /// Resolve a class's lexical / nested-class metadata, decoding only that class's class-level
    /// annotations.
    ///
    /// `build_metadata` leaves class annotations undecoded, so lexical analysis can ask about one
    /// class without paying for the whole directory.
    pub fn nested_metadata(&self, class_index: usize) -> (metadata: Result<
        ClassNestedMetadata,
        DexError,
    >)
        ensures
            nested_outcome(metadata) == nested(self.source, self@, class_index as int),
    {
        if class_index >= self.classes.items.len() {
            return Err(DexError::InvalidClassIdx);
        }
        assert(self@.classes[class_index as int] == self.classes.items@[class_index as int]@);
        let annotations_off: u32 = self.classes.items[class_index].annotations_offset();
        if annotations_off == 0 {
            return Ok(Default::default());
        }
        match &self.source {
            None => Err(DexError::NoDataLeftError),
            Some(source) => read_class_annotations_directory(
                source,
                annotations_off,
                &self.types,
                &self.strings,
                &self.protos,
                &self.fields,
                &self.methods,
            ),
        }
    }

    /// Returns a vector containing the names of all the classes defined in the DEX file
    pub fn get_classes_names(&self) -> (names: Vec<&str>)
        ensures
            borrowed_texts(names@) == names_of(self@.tables, self@.classes),
    {
        let ghost tables = self@.tables;
        let ghost classes = self@.classes;
        let mut names: Vec<&str> = Vec::new();
        let count: usize = self.classes.items.len();
        let mut k: usize = 0;
        assert(borrowed_texts(names@) =~= Seq::empty());
        assert(classes.take(0) =~= Seq::empty());
        while k < count
            invariant
                tables == self@.tables,
                classes == self@.classes,
                count == self.classes.items@.len(),
                k <= count,
                borrowed_texts(names@) == names_of(tables, classes.take(k as int)),
            decreases count - k,
        {
            let class: &ClassDefItem = &self.classes.items[k];
            proof {
                assert(classes[k as int] == class@);
                assert(classes.take(k + 1).drop_last() =~= classes.take(k as int));
                assert(classes.take(k + 1).last() == class@);
            }
            if let Some(name) = class.class_name(&self.types, &self.strings) {
                let ghost before = names@;
                names.push(name);
                assert(borrowed_texts(names@) =~= borrowed_texts(before).push(name@));
            }
            k = k + 1;
        }
        assert(classes.take(count as int) =~= classes);
        names
    }

    /// Get the `ClassDefItem` object for a given class name
    pub fn get_class_def(&self, class_name: &str) -> (class: Option<&ClassDefItem>)
        ensures
            opt_class(class) == class_named(self@.tables, self@.classes, class_name@),
    {
        self.classes.get_class_def(&self.types, &self.strings, class_name)
    }

    /// Get the methods of a given class as a vector of `EncodedMethod` objects
    pub fn get_methods_for_class(&self, class_name: &str) -> (methods: Vec<&EncodedMethod>)
        ensures
            borrowed_views(methods@) == methods_for(self@, class_name@),
    {
        if let Some(class_def) = self.get_class_def(class_name) {
            return class_def.get_methods();
        }
        let methods: Vec<&EncodedMethod> = Vec::new();
        assert(borrowed_views(methods@) =~= Seq::empty());
        methods
    }
}

/// The methods of the first class with the given name.
pub open spec fn methods_for(file: FileView, class_name: Seq<char>) -> Seq<MethodView> {
    match class_named(file.tables, file.classes, class_name) {
        Some(class) => all_methods(class),
        None => Seq::empty(),
    }
}

/// One class read on its own is the class of that index.
proof fn lemma_one_class(
    data: Seq<u8>,
    big_endian: bool,
    tables: Tables,
    level: ClassDecodeLevel,
    offset: int,
    index: int,
)
    ensures
        ({
            let alone = collect(
                1,
                class_item(data, big_endian, tables, level, offset + 32 * index),
            );
            match (class_item(data, big_endian, tables, level, offset))(index) {
                Ok(class) => alone matches Ok(list) && list.len() == 1 && list[0] == class,
                Err(error) => alone == Err::<Seq<ClassView>, DexError>(error),
            }
        }),
{
    let f = class_item(data, big_endian, tables, level, offset + 32 * index);
    assert(collect(0, f) == Ok::<Seq<ClassView>, DexError>(Seq::empty()));
    assert(f(0) == (class_item(data, big_endian, tables, level, offset))(index));
    assert(collect(1, f) == match f(0) {
        Ok(class) => Ok::<Seq<ClassView>, DexError>(Seq::empty().push(class)),
        Err(error) => Err(error),
    });
}

/// A class of a file whose members were deferred becomes, once they are decoded, the class that
/// decoding all members at once gives.
pub proof fn law_deferred_members_are_the_same(
    reader: DexReader,
    class_index: int,
)
    requires
        image(reader.bytes@, reader.big_endian, ClassDecodeLevel::Declaration) is Ok,
        image(reader.bytes@, reader.big_endian, ClassDecodeLevel::Members) is Ok,
        0 <= class_index < header_of(reader.bytes@, reader.big_endian).class_defs_size,
        header_of(reader.bytes@, reader.big_endian).class_defs_off + 32 * class_index <= u32::MAX,
    ensures
        ({
            let deferred = image(
                reader.bytes@,
                reader.big_endian,
                ClassDecodeLevel::Declaration,
            )->Ok_0;
            let eager = image(reader.bytes@, reader.big_endian, ClassDecodeLevel::Members)->Ok_0;
            materialized(Some(reader), deferred, class_index) == Ok::<ClassView, DexError>(
                eager.classes[class_index],
            )
        }),
{
    let data = reader.bytes@;
    let header = header_of(data, reader.big_endian);
    let tables = image_tables(data, reader.big_endian, header)->Ok_0;
    let size = header.class_defs_size as int;
    let offset = header.class_defs_off as int;
    let declared = class_item(data, reader.big_endian, tables, ClassDecodeLevel::Declaration, offset);
    let full = class_item(data, reader.big_endian, tables, ClassDecodeLevel::Members, offset);
    lemma_collect_succeeds(size, declared);
    lemma_collect_succeeds(size, full);
    assert(declared(class_index) == Ok::<ClassView, DexError>(
        collect(size, declared)->Ok_0[class_index],
    ));
    assert(full(class_index) == Ok::<ClassView, DexError>(collect(size, full)->Ok_0[class_index]));
}

/// Decoding the members of a class leaves it with its members, so a second call changes nothing.
pub proof fn law_members_are_decoded_once(
    source: Option<DexReader>,
    file: FileView,
    class_index: int,
)
    requires
        0 <= class_index,
        materialized(source, file, class_index) is Ok,
    ensures
        ({
            let class = materialized(source, file, class_index)->Ok_0;
            let after = FileView { classes: file.classes.update(class_index, class), ..file };
            &&& class.members is Some
            &&& materialized(source, after, class_index) == Ok::<ClassView, DexError>(class)
            &&& after.classes.update(class_index, class) == after.classes
        }),
{
    let class = materialized(source, file, class_index)->Ok_0;
    let after = FileView { classes: file.classes.update(class_index, class), ..file };
    assert(after.classes.update(class_index, class) =~= after.classes);
}

/// Decoding the members of one class of a file leaves how every class is nested.
pub proof fn law_members_do_not_change_nesting(reader: DexReader, class_index: int, other: int)
    requires
        image(reader.bytes@, reader.big_endian, ClassDecodeLevel::Declaration) is Ok,
        0 <= class_index,
        0 <= other,
        materialized(
            Some(reader),
            image(reader.bytes@, reader.big_endian, ClassDecodeLevel::Declaration)->Ok_0,
            class_index,
        ) is Ok,
    ensures
        ({
            let file = image(
                reader.bytes@,
                reader.big_endian,
                ClassDecodeLevel::Declaration,
            )->Ok_0;
            let class = materialized(Some(reader), file, class_index)->Ok_0;
            let after = FileView { classes: file.classes.update(class_index, class), ..file };
            nested(Some(reader), after, other) == nested(Some(reader), file, other)
        }),
{
    let file = image(reader.bytes@, reader.big_endian, ClassDecodeLevel::Declaration)->Ok_0;
    let size = file.header.class_defs_size as int;
    let declared = class_item(
        reader.bytes@,
        reader.big_endian,
        file.tables,
        ClassDecodeLevel::Declaration,
        file.header.class_defs_off as int,
    );
    lemma_collect_succeeds(size, declared);
    assert(declared(class_index) == Ok::<ClassView, DexError>(
        collect(size, declared)->Ok_0[class_index],
    ));
}

/// The names of one list of classes and of another behind it are those of the two lists, and a
/// class has the name it has.
pub proof fn law_names_follow_each_other(
    tables: Tables,
    one: Seq<ClassView>,
    other: Seq<ClassView>,
    class: ClassView,
)
    ensures
        names_of(tables, one + other) == names_of(tables, one) + names_of(tables, other),
        match name_of(tables, class) {
            Some(name) => names_of(tables, seq![class]) == seq![name],
            None => names_of(tables, seq![class]).len() == 0,
        },
    decreases other.len(),
{
    assert(seq![class].drop_last() =~= Seq::empty());
    assert(names_of(tables, seq![class].drop_last()) =~= Seq::empty());
    if name_of(tables, class) is Some {
        assert(names_of(tables, seq![class]) =~= seq![name_of(tables, class)->0]);
    }
    if other.len() == 0 {
        assert(one + other =~= one);
        assert(names_of(tables, one) + names_of(tables, other) =~= names_of(tables, one));
    } else {
        law_names_follow_each_other(tables, one, other.drop_last(), class);
        assert((one + other).drop_last() =~= one + other.drop_last());
        assert(names_of(tables, one + other) =~= names_of(tables, one) + names_of(tables, other));
    }
}

} // verus!
