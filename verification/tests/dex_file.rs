//! A whole DEX image, decoded as far as it is asked for.
use rasc::rusty_dex::annotations::{ClassNestedMetadata, InnerClass};
use rasc::rusty_dex::error::DexError;
use rasc::rusty_dex::file::DexFile;
use rasc::rusty_dex::{get_bytecode_for_method, get_qualified_method_names, parse};
use rasc::rusty_dex::reader::DexReader;

/// Writes a little-endian number over four bytes.
fn put(data: &mut [u8], offset: usize, value: usize) {
    data[offset..offset + 4].copy_from_slice(&(value as u32).to_le_bytes());
}

/// A DEX file at `base` of a larger file: `classes` classes `LFixture0;`, `LFixture1;` and so on,
/// each with one direct method `m0`, `m1` and so on that loads the string "Authorization".
///
/// The tables follow the header in the order of the format, then come the strings, and behind them
/// the class data and the code.
fn dex_at(base: usize, classes: usize, header_size: usize) -> Vec<u8> {
    let mut strings: Vec<String> = vec!["Authorization".to_owned()];
    for i in 0..classes {
        strings.push(format!("LFixture{i};"));
    }
    let object = strings.len();
    strings.push("Ljava/lang/Object;".to_owned());
    let void = strings.len();
    strings.push("V".to_owned());
    let first_method = strings.len();
    for i in 0..classes {
        strings.push(format!("m{i}"));
    }
    let string_ids = header_size;
    let type_ids = string_ids + 4 * strings.len();
    let types = classes + 2;
    let proto_ids = type_ids + 4 * types;
    let method_ids = proto_ids + 12;
    let class_defs = method_ids + 8 * classes;
    let mut data = vec![0u8; class_defs + 32 * classes];
    let mut offsets = Vec::new();
    for string in &strings {
        offsets.push(data.len());
        data.push(string.len() as u8);
        data.extend_from_slice(string.as_bytes());
        data.push(0);
    }
    while data.len() % 4 != 0 {
        data.push(0);
    }
    let mut codes = Vec::new();
    for _ in 0..classes {
        codes.push(data.len());
        data.extend_from_slice(&[1, 0, 0, 0, 0, 0, 0, 0, 0, 0, 0, 0, 3, 0, 0, 0]);
        data.extend_from_slice(&[0x1A, 0, 0, 0, 0x0E, 0, 0, 0]);
    }
    let mut class_data = Vec::new();
    for i in 0..classes {
        class_data.push(data.len());
        data.extend_from_slice(&[0, 0, 1, 0]);
        data.extend_from_slice(&uleb(i));
        data.push(1);
        data.extend_from_slice(&uleb(base + codes[i]));
    }
    while data.len() % 4 != 0 {
        data.push(0);
    }
    data[..8].copy_from_slice(if header_size == 0x78 { b"dex\n041\0" } else { b"dex\n039\0" });
    let size = data.len();
    put(&mut data, 0x20, size);
    put(&mut data, 0x24, header_size);
    put(&mut data, 0x28, 0x1234_5678);
    for (slot, count, at) in [
        (0x38, strings.len(), string_ids),
        (0x40, types, type_ids),
        (0x48, 1, proto_ids),
        (0x58, classes, method_ids),
        (0x60, classes, class_defs),
    ] {
        put(&mut data, slot, count);
        put(&mut data, slot + 4, base + at);
    }
    for (i, offset) in offsets.iter().enumerate() {
        put(&mut data, string_ids + 4 * i, base + offset);
    }
    put(&mut data, type_ids, object);
    for i in 0..classes {
        put(&mut data, type_ids + 4 * (i + 1), i + 1);
    }
    put(&mut data, type_ids + 4 * (classes + 1), void);
    put(&mut data, proto_ids, void);
    put(&mut data, proto_ids + 4, classes + 1);
    for i in 0..classes {
        let row = method_ids + 8 * i;
        data[row..row + 2].copy_from_slice(&((i + 1) as u16).to_le_bytes());
        put(&mut data, row + 4, first_method + i);
        let row = class_defs + 32 * i;
        put(&mut data, row, i + 1);
        put(&mut data, row + 4, 1);
        put(&mut data, row + 16, 0xFFFF_FFFF);
        put(&mut data, row + 24, base + class_data[i]);
    }
    data
}

/// A number as ULEB128.
fn uleb(mut value: usize) -> Vec<u8> {
    let mut out = Vec::new();
    loop {
        let low = (value % 128) as u8;
        value /= 128;
        if value == 0 {
            out.push(low);
            return out;
        }
        out.push(low + 128);
    }
}

/// A DEX file of `classes` classes.
fn const_string_fixture(classes: usize) -> Vec<u8> {
    dex_at(0, classes, 0x70)
}

/// The file of an image, decoded whole.
fn build(data: Vec<u8>) -> Result<DexFile, DexError> {
    DexFile::build(DexReader::build(data)?)
}

/// The file of an image, with its members deferred.
fn build_metadata(data: Vec<u8>) -> Result<DexFile, DexError> {
    DexFile::build_metadata(DexReader::build(data)?)
}

#[test]
fn a_file_is_decoded_down_to_the_code() {
    let file = build(const_string_fixture(2)).unwrap();
    assert_eq!(file.get_classes_names(), vec!["LFixture0;", "LFixture1;"]);
    assert_eq!(
        get_qualified_method_names(&file),
        vec!["LFixture0;->m0", "LFixture1;->m1"]
    );
    assert_eq!(
        get_bytecode_for_method(&file, &"LFixture1;".to_owned(), &"m1".to_owned()),
        Some(vec![0x1A, 0, 0x0E])
    );
    assert_eq!(
        get_bytecode_for_method(&file, &"LFixture1;".to_owned(), &"m0".to_owned()),
        None
    );
    assert_eq!(
        get_bytecode_for_method(&file, &"LMissing;".to_owned(), &"m0".to_owned()),
        None
    );
    let class = file.get_class_def("LFixture0;").unwrap();
    assert_eq!(class.row.access_flags, 1);
    let methods = file.get_methods_for_class("LFixture0;");
    assert_eq!(methods.len(), 1);
    assert_eq!(methods[0].get_method_name(), "m0");
    assert_eq!(methods[0].proto, "LFixture0;->m0()V");
    assert_eq!(methods[0].access_flags, 1);
    let code = methods[0].code_item.as_ref().unwrap();
    assert_eq!(code.registers_size, 1);
    assert_eq!(code.insns, Some(vec![0x1A, 0, 0x0E]));
    assert!(file.get_class_def("LMissing;").is_none());
    assert!(file.get_methods_for_class("LMissing;").is_empty());
}

#[test]
fn deferred_members_are_decoded_on_first_use() {
    let mut file = build_metadata(const_string_fixture(2)).unwrap();
    assert_eq!(file.get_classes_names(), vec!["LFixture0;", "LFixture1;"]);
    assert!(get_qualified_method_names(&file).is_empty());
    assert!(!file.classes.items[1].members_loaded());
    file.materialize_class(1).unwrap();
    assert!(!file.classes.items[0].members_loaded());
    assert!(file.classes.items[1].members_loaded());
    assert_eq!(get_qualified_method_names(&file), vec!["LFixture1;->m1"]);
    // A second call changes nothing.
    file.materialize_class(1).unwrap();
    assert_eq!(get_qualified_method_names(&file), vec!["LFixture1;->m1"]);
    assert_eq!(file.materialize_class(2), Err(DexError::InvalidClassIdx));
    // Members come without their code, which is decoded on its own.
    let method = file.get_methods_for_class("LFixture1;")[0];
    assert!(method.code_item.is_none());
    let code = file.decode_code_item(method).unwrap().unwrap();
    assert_eq!(code.insns, Some(vec![0x1A, 0, 0x0E]));
}

#[test]
fn code_cannot_be_decoded_without_the_image() {
    let mut file = build_metadata(const_string_fixture(1)).unwrap();
    file.materialize_class(0).unwrap();
    file.source = None;
    let method = file.get_methods_for_class("LFixture0;")[0];
    assert!(matches!(
        file.decode_code_item(method),
        Err(DexError::NoDataLeftError)
    ));
    let mut file = build_metadata(const_string_fixture(1)).unwrap();
    file.source = None;
    assert_eq!(file.materialize_class(0), Err(DexError::NoDataLeftError));
}

#[test]
fn images_cannot_be_merged() {
    let image = const_string_fixture(1);
    let reader = DexReader::build(image.clone()).unwrap();
    assert!(matches!(
        DexFile::merge(vec![reader]),
        Err(DexError::MergeUnsupported)
    ));
    assert!(matches!(
        parse(vec![image.clone(), image.clone()]),
        Err(DexError::MergeUnsupported)
    ));
    // The first image without a byte order decides.
    let mut odd = image.clone();
    odd[0x28] = 0;
    assert!(matches!(
        parse(vec![image.clone(), odd, vec![0; 3]]),
        Err(DexError::InvalidEndianness)
    ));
    assert!(matches!(
        parse(vec![image, vec![0; 3]]),
        Err(DexError::UnexpectedEnd)
    ));
}

#[test]
fn a_big_endian_image_reads_the_same() {
    // One string "A", one type of that name, and one class of that type without members.
    let mut data = vec![0u8; 0x70 + 8 + 32 + 3];
    let big = |data: &mut Vec<u8>, offset: usize, value: u32| {
        data[offset..offset + 4].copy_from_slice(&value.to_be_bytes());
    };
    big(&mut data, 0x28, 0x1234_5678);
    for (slot, count, at) in [(0x38, 1, 0x70), (0x40, 1, 0x74), (0x60, 1, 0x78)] {
        big(&mut data, slot, count);
        big(&mut data, slot + 4, at);
    }
    big(&mut data, 0x70, 0x98);
    big(&mut data, 0x7C, 0x0102);
    data[0x98..].copy_from_slice(&[1, b'A', 0]);
    let file = build(data).unwrap();
    assert_eq!(file.get_classes_names(), vec!["A"]);
    assert_eq!(file.classes.items[0].row.access_flags, 0x0102);
    assert!(file.classes.items[0].members_loaded());
    assert!(file.get_methods_for_class("A").is_empty());
}

/// Where row `row` of the table whose count is at `slot` stands.
fn row_at(data: &[u8], slot: usize, width: usize, row: usize) -> usize {
    let mut word = [0; 4];
    word.copy_from_slice(&data[slot + 4..slot + 8]);
    u32::from_le_bytes(word) as usize + width * row
}

#[test]
fn each_table_is_checked_against_the_one_before() {
    let image = const_string_fixture(1);
    let broken = |at: usize, bytes: &[u8]| {
        let mut data = image.clone();
        data[at..at + bytes.len()].copy_from_slice(bytes);
        build(data).unwrap_err()
    };
    assert_eq!(broken(0x3C, &[0xFF; 4]), DexError::UnexpectedEnd);
    let types = row_at(&image, 0x40, 4, 0);
    assert_eq!(broken(types, &[0xFF; 4]), DexError::InvalidStringIdx);
    let protos = row_at(&image, 0x48, 12, 0);
    assert_eq!(broken(protos + 4, &[0xFF; 4]), DexError::InvalidTypeIdx);
    let methods = row_at(&image, 0x58, 8, 0);
    assert_eq!(broken(methods, &[0xFF; 2]), DexError::InvalidTypeIdx);
    assert_eq!(broken(methods + 4, &[0xFF; 4]), DexError::InvalidStringIdx);
    let classes = row_at(&image, 0x60, 32, 0);
    assert_eq!(broken(classes, &[0xFF; 4]), DexError::InvalidTypeIdx);
    // The class data: a field of no table, a method past the table, a number that never ends.
    let mut word = [0; 4];
    word.copy_from_slice(&image[classes + 24..classes + 28]);
    let members = u32::from_le_bytes(word) as usize;
    assert_eq!(broken(members, &[1]), DexError::InvalidFieldIdx);
    assert_eq!(broken(members + 4, &[7]), DexError::InvalidMethodIdx);
    assert_eq!(broken(members, &[0xFF; 5]), DexError::InvalidUleb128);
    // The first string: its declared length, its bytes.
    let strings = row_at(&image, 0x38, 4, 0);
    word.copy_from_slice(&image[strings..strings + 4]);
    let first = u32::from_le_bytes(word) as usize;
    assert_eq!(
        broken(first, &[12]),
        DexError::InvalidStringLength {
            expected: 12,
            actual: 13
        }
    );
    assert!(matches!(
        broken(first + 1, &[0xFF]),
        DexError::InvalidMutf8(_)
    ));
}

/// The strings of the image that [`annotated`] builds. The first eight name its types.
const STRINGS: [&str; 15] = [
    "Ldalvik/annotation/EnclosingClass;",
    "Ldalvik/annotation/EnclosingMethod;",
    "Ldalvik/annotation/InnerClass;",
    "Ldalvik/annotation/MemberClasses;",
    "Ldalvik/annotation/Signature;",
    "LOuter$Inner;",
    "LOuter;",
    "V",
    "accessFlags",
    "name",
    "value",
    "Inner",
    "<T:",
    "Ljava/lang/Object;>",
    "run",
];

/// An image of one class `LOuter$Inner;` with the given annotations, and one method
/// `LOuter;->run()V`.
fn annotated(annotations: &[&[u8]]) -> Vec<u8> {
    let string_ids = 0x70;
    let type_ids = string_ids + 4 * STRINGS.len();
    let proto_ids = type_ids + 4 * 8;
    let method_ids = proto_ids + 12;
    let class_defs = method_ids + 8;
    let mut data = vec![0u8; class_defs + 32];
    for (i, string) in STRINGS.iter().enumerate() {
        let at = data.len();
        put(&mut data, string_ids + 4 * i, at);
        data.push(string.len() as u8);
        data.extend_from_slice(string.as_bytes());
        data.push(0);
    }
    let mut items = Vec::new();
    for annotation in annotations {
        items.push(data.len());
        data.push(2);
        data.extend_from_slice(annotation);
    }
    let set = data.len();
    data.extend_from_slice(&(items.len() as u32).to_le_bytes());
    for item in items {
        data.extend_from_slice(&(item as u32).to_le_bytes());
    }
    let directory = data.len();
    data.extend_from_slice(&(set as u32).to_le_bytes());
    data.extend_from_slice(&[0; 12]);
    put(&mut data, 0x28, 0x1234_5678);
    for (slot, count, at) in [
        (0x38, STRINGS.len(), string_ids),
        (0x40, 8, type_ids),
        (0x48, 1, proto_ids),
        (0x58, 1, method_ids),
        (0x60, 1, class_defs),
    ] {
        put(&mut data, slot, count);
        put(&mut data, slot + 4, at);
    }
    for i in 0..8 {
        put(&mut data, type_ids + 4 * i, i);
    }
    put(&mut data, proto_ids, 7);
    put(&mut data, proto_ids + 4, 7);
    data[method_ids] = 6;
    put(&mut data, method_ids + 4, 14);
    put(&mut data, class_defs, 5);
    put(&mut data, class_defs + 20, directory);
    data
}

/// How the class of an annotated image is nested.
fn nesting(annotations: &[&[u8]]) -> Result<ClassNestedMetadata, DexError> {
    build_metadata(annotated(annotations)).unwrap().nested_metadata(0)
}

#[test]
fn annotations_say_how_a_class_is_nested() {
    let metadata = nesting(&[
        // EnclosingClass { value = LOuter; }
        &[0, 1, 10, 0x18, 6],
        // EnclosingMethod { value = LOuter;->run()V }
        &[1, 1, 10, 0x1A, 0],
        // InnerClass { accessFlags = 0x4009, name = "Inner" }
        &[2, 2, 8, 0x24, 0x09, 0x40, 9, 0x17, 11],
        // MemberClasses { value = { LOuter$Inner;, LOuter; } }
        &[3, 1, 10, 0x1C, 2, 0x18, 5, 0x38, 6, 0],
        // Signature { value = { "<T:", "Ljava/lang/Object;>" } }
        &[4, 1, 10, 0x1C, 2, 0x17, 12, 0x17, 13],
    ])
    .unwrap();
    assert_eq!(
        metadata,
        ClassNestedMetadata {
            signature: Some("<T:Ljava/lang/Object;>".to_owned()),
            inner_class: Some(InnerClass {
                name: Some("Inner".to_owned()),
                access_flags: 0x4009,
            }),
            member_classes: vec![5, 6],
            enclosing_class: Some(6),
            enclosing_method: Some(0),
        }
    );
}

#[test]
fn an_anonymous_class_has_flags_and_no_name() {
    let metadata = nesting(&[&[2, 2, 8, 0x04, 0x08, 9, 0x1E]]).unwrap();
    assert_eq!(
        metadata.inner_class,
        Some(InnerClass {
            name: None,
            access_flags: 8,
        })
    );
    // A short number keeps its sign.
    let metadata = nesting(&[&[2, 1, 8, 0x04, 0x80]]).unwrap();
    assert_eq!(metadata.inner_class.unwrap().access_flags, 0xFFFF_FF80);
}

#[test]
fn a_class_without_annotations_is_not_nested() {
    let file = build_metadata(const_string_fixture(1)).unwrap();
    assert_eq!(file.nested_metadata(0), Ok(ClassNestedMetadata::default()));
    assert_eq!(file.nested_metadata(1), Err(DexError::InvalidClassIdx));
    assert_eq!(nesting(&[]), Ok(ClassNestedMetadata::default()));
    let mut file = build_metadata(annotated(&[])).unwrap();
    file.source = None;
    assert_eq!(file.nested_metadata(0), Err(DexError::NoDataLeftError));
}

#[test]
fn members_do_not_change_how_a_class_is_nested() {
    let mut file = build_metadata(annotated(&[&[0, 1, 10, 0x18, 6]])).unwrap();
    let before = file.nested_metadata(0).unwrap();
    assert_eq!(before.enclosing_class, Some(6));
    file.materialize_class(0).unwrap();
    assert_eq!(file.nested_metadata(0), Ok(before));
}

#[test]
fn every_other_annotation_is_skipped_value_by_value() {
    let metadata = nesting(&[
        // An annotation of another type: a list of a number, a truth value, an annotation with an
        // empty list, and nothing.
        &[7, 1, 10, 0x1C, 4, 0x66, 1, 2, 3, 4, 0x3F, 0x1D, 7, 1, 9, 0x1C, 0, 0x1E],
        // An element that a class is not asked for.
        &[0, 2, 9, 0x1F, 10, 0x18, 6],
    ])
    .unwrap();
    assert_eq!(metadata.enclosing_class, Some(6));
}

#[test]
fn malformed_annotations_are_rejected() {
    // A value of no known type, and one of another type than it has to be.
    assert_eq!(nesting(&[&[7, 1, 10, 0x01]]), Err(DexError::InvalidEncodedValue));
    assert_eq!(nesting(&[&[0, 1, 10, 0x17, 6]]), Err(DexError::InvalidEncodedValue));
    assert_eq!(nesting(&[&[3, 1, 10, 0x18, 6]]), Err(DexError::InvalidEncodedValue));
    // Indices past their tables.
    assert_eq!(nesting(&[&[0, 1, 10, 0x18, 8]]), Err(DexError::InvalidTypeIdx));
    assert_eq!(nesting(&[&[1, 1, 10, 0x1A, 1]]), Err(DexError::InvalidMethodIdx));
    assert_eq!(nesting(&[&[4, 1, 10, 0x1C, 1, 0x17, 99]]), Err(DexError::InvalidStringIdx));
    assert_eq!(nesting(&[&[8, 0]]), Err(DexError::InvalidTypeIdx));
    assert_eq!(nesting(&[&[7, 1, 99, 0x1E]]), Err(DexError::InvalidStringIdx));
    // A count that never ends, and one that runs past the image.
    assert_eq!(
        nesting(&[&[7, 0xFF, 0xFF, 0xFF, 0xFF, 0xFF]]),
        Err(DexError::InvalidUleb128)
    );
    assert!(nesting(&[&[7, 1, 10, 0x1C, 0xFF, 0xFF, 0x03]]).is_err());
    let mut data = annotated(&[]);
    let at = row_at(&data, 0x60, 32, 0) + 20;
    put(&mut data, at, 0xFFFF_FFFF);
    assert_eq!(
        build_metadata(data).unwrap().nested_metadata(0),
        Err(DexError::UnexpectedEnd)
    );
}
