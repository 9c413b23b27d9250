//! Answers from a prefix of a DEX file.
use rasc::bytes::read_u32;
use rasc::dex::defines_class;
use rasc::dex::prefix::{self, class_names, string_data_end, string_ids_end};

/// Writes a little-endian number over four bytes.
fn put(data: &mut [u8], offset: usize, value: usize) {
    data[offset..offset + 4].copy_from_slice(&(value as u32).to_le_bytes());
}

/// A DEX file at `base` of a larger file: `classes` classes `LFixture0;`, `LFixture1;` and so on,
/// each with one direct method `m0`, `m1` and so on that loads the string "Authorization".
///
/// The tables follow the header in the order of the format, then come the strings, and behind them
/// the class data and the code.
fn dex_at(base: usize, classes: usize, header_size: usize) -> Vec<u8> {
    let mut strings: Vec<String> = vec!["Authorization".to_owned()];
    for i in 0..classes {
        strings.push(format!("LFixture{i};"));
    }
    let object = strings.len();
    strings.push("Ljava/lang/Object;".to_owned());
    let void = strings.len();
    strings.push("V".to_owned());
    let first_method = strings.len();
    for i in 0..classes {
        strings.push(format!("m{i}"));
    }
    let string_ids = header_size;
    let type_ids = string_ids + 4 * strings.len();
    let types = classes + 2;
    let proto_ids = type_ids + 4 * types;
    let method_ids = proto_ids + 12;
    let class_defs = method_ids + 8 * classes;
    let mut data = vec![0u8; class_defs + 32 * classes];
    let mut offsets = Vec::new();
    for string in &strings {
        offsets.push(data.len());
        data.push(string.len() as u8);
        data.extend_from_slice(string.as_bytes());
        data.push(0);
    }
    while data.len() % 4 != 0 {
        data.push(0);
    }
    let mut codes = Vec::new();
    for _ in 0..classes {
        codes.push(data.len());
        data.extend_from_slice(&[1, 0, 0, 0, 0, 0, 0, 0, 0, 0, 0, 0, 3, 0, 0, 0]);
        data.extend_from_slice(&[0x1A, 0, 0, 0, 0x0E, 0, 0, 0]);
    }
    let mut class_data = Vec::new();
    for i in 0..classes {
        class_data.push(data.len());
        data.extend_from_slice(&[0, 0, 1, 0]);
        data.extend_from_slice(&uleb(i));
        data.push(1);
        data.extend_from_slice(&uleb(base + codes[i]));
    }
    while data.len() % 4 != 0 {
        data.push(0);
    }
    data[..8].copy_from_slice(if header_size == 0x78 { b"dex\n041\0" } else { b"dex\n039\0" });
    let size = data.len();
    put(&mut data, 0x20, size);
    put(&mut data, 0x24, header_size);
    put(&mut data, 0x28, 0x1234_5678);
    for (slot, count, at) in [
        (0x38, strings.len(), string_ids),
        (0x40, types, type_ids),
        (0x48, 1, proto_ids),
        (0x58, classes, method_ids),
        (0x60, classes, class_defs),
    ] {
        put(&mut data, slot, count);
        put(&mut data, slot + 4, base + at);
    }
    for (i, offset) in offsets.iter().enumerate() {
        put(&mut data, string_ids + 4 * i, base + offset);
    }
    put(&mut data, type_ids, object);
    for i in 0..classes {
        put(&mut data, type_ids + 4 * (i + 1), i + 1);
    }
    put(&mut data, type_ids + 4 * (classes + 1), void);
    put(&mut data, proto_ids, void);
    put(&mut data, proto_ids + 4, classes + 1);
    for i in 0..classes {
        let row = method_ids + 8 * i;
        data[row..row + 2].copy_from_slice(&((i + 1) as u16).to_le_bytes());
        put(&mut data, row + 4, first_method + i);
        let row = class_defs + 32 * i;
        put(&mut data, row, i + 1);
        put(&mut data, row + 4, 1);
        put(&mut data, row + 16, 0xFFFF_FFFF);
        put(&mut data, row + 24, base + class_data[i]);
    }
    data
}

/// A number as ULEB128.
fn uleb(mut value: usize) -> Vec<u8> {
    let mut out = Vec::new();
    loop {
        let low = (value % 128) as u8;
        value /= 128;
        if value == 0 {
            out.push(low);
            return out;
        }
        out.push(low + 128);
    }
}

/// A DEX file of `classes` classes.
fn const_string_fixture(classes: usize) -> Vec<u8> {
    dex_at(0, classes, 0x70)
}

/// The fixture's layout: string_ids sits at the header, every section offset is
/// absolute, and the last string data item is near the end of the file.
#[test]
fn prefix_sizes_come_from_the_header_and_the_string_table() {
    let dex = const_string_fixture(4);
    let strings_size = read_u32(&dex, 0x38).unwrap() as usize;
    let strings_off = read_u32(&dex, 0x3c).unwrap() as usize;
    assert_eq!(
        string_ids_end(&dex).unwrap(),
        strings_off + strings_size * 4
    );

    let end = string_data_end(&dex).unwrap();
    let last = read_u32(&dex, strings_off + (strings_size - 1) * 4).unwrap() as usize;
    assert_eq!(end, last);
    assert!(
        end < dex.len(),
        "the code section must be after the string data"
    );
}

/// A prefix that stops before the string_ids table is not trusted: the readers say
/// `None` (fall back) instead of guessing, which is what makes a short inflate
/// safe.
#[test]
fn a_short_prefix_is_never_trusted() {
    let dex = const_string_fixture(4);
    let strings_size = read_u32(&dex, 0x38).unwrap() as usize;
    let strings_off = read_u32(&dex, 0x3c).unwrap() as usize;
    let end = string_data_end(&dex).unwrap();
    assert!(string_data_end(&dex[..8]).is_none());
    assert!(string_data_end(&dex[..strings_off]).is_none());
    assert!(string_ids_end(&[]).is_none());
    // The table alone is enough to size the string data...
    assert_eq!(
        string_data_end(&dex[..strings_off + strings_size * 4]).unwrap(),
        end
    );
    // ...but nothing can be decoded from it yet: the strings themselves are missing.
    assert!(
        class_names(&dex[..strings_off + strings_size * 4])
            .unwrap()
            .is_none()
    );
    // A prefix that reaches past the last string is enough for the descriptors.
    assert!(class_names(&dex[..end + 64]).unwrap().is_some());
}

#[test]
fn a_crafted_table_size_is_rejected_rather_than_allocated() {
    let mut dex = const_string_fixture(2);
    write_u32(&mut dex, 0x38, 0x00ff_ffff);
    assert!(string_ids_end(&dex).is_none() || string_ids_end(&dex).unwrap() > dex.len());
    assert!(string_data_end(&dex).is_none());
}

fn write_u32(data: &mut [u8], offset: usize, value: u32) {
    data[offset..offset + 4].copy_from_slice(&value.to_le_bytes());
}

/// A lookup by bytes and the list of texts agree, in a prefix and in the whole file.
#[test]
fn a_prefix_defines_what_it_names() {
    let dex = const_string_fixture(3);
    let end = string_data_end(&dex).unwrap();
    let names = class_names(&dex[..end + 64]).unwrap().unwrap();
    assert_eq!(names, ["LFixture0;", "LFixture1;", "LFixture2;"]);
    for descriptor in ["LFixture0;", "LFixture2;", "LFixture3;", "Ljava/lang/Object;", ""] {
        let listed = names.iter().any(|name| name == descriptor);
        assert_eq!(
            prefix::defines_class(&dex[..end + 64], descriptor.as_bytes()).unwrap(),
            Some(listed)
        );
        assert_eq!(defines_class(&dex, descriptor.as_bytes()).unwrap(), listed);
    }
}
