//! The tables of a whole DEX image.
use rasc::rusty_dex::error::DexError;
use rasc::rusty_dex::protos::{DexProtos, ProtoRow};
use rasc::rusty_dex::reader::DexReader;
use rasc::rusty_dex::strings::DexStrings;
use rasc::rusty_dex::types::DexTypes;

#[test]
fn render_concatenates_parameters_then_return() {
    let strings = DexStrings {
        strings: vec![
            "Ljava/lang/Class;".into(),
            "Ljava/lang/reflect/Field;".into(),
            "V".into(),
        ],
    };
    let types = DexTypes { items: vec![0, 1, 2] };
    let protos = DexProtos {
        items: vec![ProtoRow {
            return_type_idx: 2,
            parameters: vec![0, 1],
        }],
    };

    assert_eq!(
        protos.render(&types, &strings, 0),
        Some("(Ljava/lang/Class;Ljava/lang/reflect/Field;)V".to_string())
    );
    assert_eq!(protos.render(&types, &strings, 1), None);
}

#[test]
fn test_build_with_empty_strings() {
    let data = vec![
        0x64, 0x65, 0x78, 0x0a, 0x30, 0x33, 0x35, 0x00, 0x00, 0x00, // DEX magic
        0x00, 0x00, 0x00, 0x00, 0x00, 0x00, 0x00, 0x00, 0x00, 0x00, // nothing
        0x00, 0x00, 0x00, 0x00, 0x00, 0x00, 0x00, 0x00, 0x00, 0x00, // nothing
        0x00, 0x00, 0x00, 0x00, 0x00, 0x00, 0x00, 0x00, 0x00, 0x00, // nothing
        0x78, 0x56, 0x34, 0x12, 0x00, 0x00, 0x00, 0x00, 0x00, 0x00, // endianness tag
    ];
    let mut dex_reader = DexReader::build(data).unwrap();
    let dex_strings = DexStrings::build(&mut dex_reader, 44, 0).unwrap();

    assert_eq!(dex_strings.strings.len(), 0);
}

#[test]
fn test_build_with_non_empty_strings() {
    let data = vec![
        0x64, 0x65, 0x78, 0x0a, 0x30, 0x33, 0x35, 0x00, 0x00, 0x00, // DEX magic
        0x00, 0x00, 0x00, 0x00, 0x00, 0x00, 0x00, 0x00, 0x00, 0x00, // nothing
        0x00, 0x00, 0x00, 0x00, 0x00, 0x00, 0x00, 0x00, 0x00, 0x00, // nothing
        0x00, 0x00, 0x00, 0x00, 0x00, 0x00, 0x00, 0x00, 0x00, 0x00, // nothing
        0x78, 0x56, 0x34, 0x12, 0x00, 0x00, 0x00, 0x00, 0x00, 0x00, // endianness tag
        // offsets
        0x3E, 0x00, 0x00, 0x00, 0x46, 0x00, 0x00, 0x00, 0x68, 0x00, 0x00, 0x00,
        // strings size and data
        0x06, b'H', b'e', b'l', b'l', b'o', b'!', 0x00, // string #0 value
        0x20, b'T', b'h', b'i', b's', b' ', b'i', b's', b' ', b'a', b' ', b't', b'e', b's',
        b't', b'.', b' ', b'\"', b'A', b'B', b'C', b'D', b'\"', b' ', b'i', b'n', b' ', b'M',
        b'U', b'T', b'F', b'-', b'8', 0x00, // string #1 value
        0x00, 0x00,
    ];

    let mut dex_reader = DexReader::build(data).unwrap();
    let dex_strings = DexStrings::build(&mut dex_reader, 50, 3).unwrap();

    assert_eq!(dex_strings.strings.len(), 3);
    assert_eq!(dex_strings.strings[0].as_str(), "Hello!");
    assert_eq!(
        dex_strings.strings[1].as_str(),
        "This is a test. \"ABCD\" in MUTF-8"
    );
    assert_eq!(dex_strings.strings[2].as_str(), "");
}

#[test]
fn test_build_with_invalid_string() {
    let data = vec![
        0x64, 0x65, 0x78, 0x0a, 0x30, 0x33, 0x35, 0x00, 0x00, 0x00, // DEX magic
        0x00, 0x00, 0x00, 0x00, 0x00, 0x00, 0x00, 0x00, 0x00, 0x00, // nothing
        0x00, 0x00, 0x00, 0x00, 0x00, 0x00, 0x00, 0x00, 0x00, 0x00, // nothing
        0x00, 0x00, 0x00, 0x00, 0x00, 0x00, 0x00, 0x00, 0x00, 0x00, // nothing
        0x78, 0x56, 0x34, 0x12, 0x00, 0x00, 0x00, 0x00, 0x00, 0x00, // endianness tag
        // offsets
        0x36, 0x00, 0x00, 0x00, // string size and data
        0x02, 0xc3, 0x00, // incomplete MUTF-8 two-byte sequence
    ];

    let mut dex_reader = DexReader::build(data).unwrap();
    assert!(matches!(
        DexStrings::build(&mut dex_reader, 50, 1),
        Err(DexError::InvalidMutf8(_))
    ));
}

#[test]
fn test_build_dex_types_empty() {
    let dex_data = vec![
        0x64, 0x65, 0x78, 0x0a, 0x30, 0x33, 0x35, 0x00, 0x00, 0x00, // DEX magic
        0x00, 0x00, 0x00, 0x00, 0x00, 0x00, 0x00, 0x00, 0x00, 0x00, // nothing
        0x00, 0x00, 0x00, 0x00, 0x00, 0x00, 0x00, 0x00, 0x00, 0x00, // nothing
        0x00, 0x00, 0x00, 0x00, 0x00, 0x00, 0x00, 0x00, 0x00, 0x00, // nothing
        0x78, 0x56, 0x34, 0x12, 0x00, 0x00, 0x00, 0x00, 0x00, 0x00, // endianness tag
    ];

    let mut dex_reader = DexReader::build(dex_data).unwrap();
    let strings_list = DexStrings {
        strings: Vec::new(),
    };

    let dex_types = DexTypes::build(&mut dex_reader, 0, 0, &strings_list).unwrap();

    assert_eq!(dex_types.items.len(), 0);
}

#[test]
fn test_build_dex_types() {
    let dex_data = vec![
        0x64, 0x65, 0x78, 0x0a, 0x30, 0x33, 0x35, 0x00, 0x00, 0x00, // DEX magic
        0x00, 0x00, 0x00, 0x00, 0x00, 0x00, 0x00, 0x00, 0x00, 0x00, // nothing
        0x00, 0x00, 0x00, 0x00, 0x00, 0x00, 0x00, 0x00, 0x00, 0x00, // nothing
        0x00, 0x00, 0x00, 0x00, 0x00, 0x00, 0x00, 0x00, 0x00, 0x00, // nothing
        0x78, 0x56, 0x34, 0x12, 0x00, 0x00, 0x00, 0x00, 0x00, 0x00, // endianness tag
        0x00, 0x00, 0x00, 0x00, // type 0 offset
        0x01, 0x00, 0x00, 0x00, // type 1 offset
        0x02, 0x00, 0x00, 0x00, // type 2 offset
        0x03, 0x00, 0x00, 0x00, // type 3 offset
    ];

    let mut dex_reader = DexReader::build(dex_data).unwrap();
    let strings_list = DexStrings {
        strings: vec![
            "Type0".into(),
            "Type1".into(),
            "Type2".into(),
            "Type3".into(),
        ],
    };

    let dex_types = DexTypes::build(&mut dex_reader, 50, 4, &strings_list).unwrap();

    assert_eq!(dex_types.items.len(), 4);
    assert_eq!(dex_types.items, vec![0, 1, 2, 3]);
    assert_eq!(dex_types.descriptor(&strings_list, 0), Some("Type0"));
    assert_eq!(dex_types.descriptor(&strings_list, 1), Some("Type1"));
    assert_eq!(dex_types.descriptor(&strings_list, 2), Some("Type2"));
    assert_eq!(dex_types.descriptor(&strings_list, 3), Some("Type3"));
    assert_eq!(dex_types.descriptor(&strings_list, 4), None);
}

#[test]
fn test_build_dex_types_duplicates() {
    let dex_data = vec![
        0x64, 0x65, 0x78, 0x0a, 0x30, 0x33, 0x35, 0x00, 0x00, 0x00, // DEX magic
        0x00, 0x00, 0x00, 0x00, 0x00, 0x00, 0x00, 0x00, 0x00, 0x00, // nothing
        0x00, 0x00, 0x00, 0x00, 0x00, 0x00, 0x00, 0x00, 0x00, 0x00, // nothing
        0x00, 0x00, 0x00, 0x00, 0x00, 0x00, 0x00, 0x00, 0x00, 0x00, // nothing
        0x78, 0x56, 0x34, 0x12, 0x00, 0x00, 0x00, 0x00, 0x00, 0x00, // endianness tag
        0x00, 0x00, 0x00, 0x00, // type 0 offset
        0x01, 0x00, 0x00, 0x00, // type 1 offset
        0x02, 0x00, 0x00, 0x00, // type 1 duplicate offset
    ];

    let mut dex_reader = DexReader::build(dex_data).unwrap();
    let strings_list = DexStrings {
        strings: vec!["Type0".into(), "Type1".into(), "Type1".into()],
    };

    let dex_types = DexTypes::build(&mut dex_reader, 50, 2, &strings_list).unwrap();

    assert_eq!(dex_types.items.len(), 2);
    assert_eq!(dex_types.items, vec![0, 1]);
    assert_eq!(dex_types.descriptor(&strings_list, 0), Some("Type0"));
    assert_eq!(dex_types.descriptor(&strings_list, 1), Some("Type1"));
}
