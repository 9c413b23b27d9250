//! The byte filter in front of the reference scan.
use rasc::dex::code::{scan_code, ReferenceKind};
use rasc::dex::filter::{contains_pair, Targets};
use rasc::dex::scan::ReferenceRow;
use rasc::dex::Dex;
use rasc::query::Query;

/// Writes a little-endian number over four bytes.
fn put(data: &mut [u8], offset: usize, value: usize) {
    data[offset..offset + 4].copy_from_slice(&(value as u32).to_le_bytes());
}

/// A DEX file at `base` of a larger file: `classes` classes `LFixture0;`, `LFixture1;` and so on,
/// each with one direct method `m0`, `m1` and so on that loads the string "Authorization".
///
/// The tables follow the header in the order of the format, then come the strings, and behind them
/// the class data and the code.
fn dex_at(base: usize, classes: usize, header_size: usize) -> Vec<u8> {
    let mut strings: Vec<String> = vec!["Authorization".to_owned()];
    for i in 0..classes {
        strings.push(format!("LFixture{i};"));
    }
    let object = strings.len();
    strings.push("Ljava/lang/Object;".to_owned());
    let void = strings.len();
    strings.push("V".to_owned());
    let first_method = strings.len();
    for i in 0..classes {
        strings.push(format!("m{i}"));
    }
    let string_ids = header_size;
    let type_ids = string_ids + 4 * strings.len();
    let types = classes + 2;
    let proto_ids = type_ids + 4 * types;
    let method_ids = proto_ids + 12;
    let class_defs = method_ids + 8 * classes;
    let mut data = vec![0u8; class_defs + 32 * classes];
    let mut offsets = Vec::new();
    for string in &strings {
        offsets.push(data.len());
        data.push(string.len() as u8);
        data.extend_from_slice(string.as_bytes());
        data.push(0);
    }
    while data.len() % 4 != 0 {
        data.push(0);
    }
    let mut codes = Vec::new();
    for _ in 0..classes {
        codes.push(data.len());
        data.extend_from_slice(&[1, 0, 0, 0, 0, 0, 0, 0, 0, 0, 0, 0, 3, 0, 0, 0]);
        data.extend_from_slice(&[0x1A, 0, 0, 0, 0x0E, 0, 0, 0]);
    }
    let mut class_data = Vec::new();
    for i in 0..classes {
        class_data.push(data.len());
        data.extend_from_slice(&[0, 0, 1, 0]);
        data.extend_from_slice(&uleb(i));
        data.push(1);
        data.extend_from_slice(&uleb(base + codes[i]));
    }
    while data.len() % 4 != 0 {
        data.push(0);
    }
    data[..8].copy_from_slice(if header_size == 0x78 { b"dex\n041\0" } else { b"dex\n039\0" });
    let size = data.len();
    put(&mut data, 0x20, size);
    put(&mut data, 0x24, header_size);
    put(&mut data, 0x28, 0x1234_5678);
    for (slot, count, at) in [
        (0x38, strings.len(), string_ids),
        (0x40, types, type_ids),
        (0x48, 1, proto_ids),
        (0x58, classes, method_ids),
        (0x60, classes, class_defs),
    ] {
        put(&mut data, slot, count);
        put(&mut data, slot + 4, base + at);
    }
    for (i, offset) in offsets.iter().enumerate() {
        put(&mut data, string_ids + 4 * i, base + offset);
    }
    put(&mut data, type_ids, object);
    for i in 0..classes {
        put(&mut data, type_ids + 4 * (i + 1), i + 1);
    }
    put(&mut data, type_ids + 4 * (classes + 1), void);
    put(&mut data, proto_ids, void);
    put(&mut data, proto_ids + 4, classes + 1);
    for i in 0..classes {
        let row = method_ids + 8 * i;
        data[row..row + 2].copy_from_slice(&((i + 1) as u16).to_le_bytes());
        put(&mut data, row + 4, first_method + i);
        let row = class_defs + 32 * i;
        put(&mut data, row, i + 1);
        put(&mut data, row + 4, 1);
        put(&mut data, row + 16, 0xFFFF_FFFF);
        put(&mut data, row + 24, base + class_data[i]);
    }
    data
}

/// A number as ULEB128.
fn uleb(mut value: usize) -> Vec<u8> {
    let mut out = Vec::new();
    loop {
        let low = (value % 128) as u8;
        value /= 128;
        if value == 0 {
            out.push(low);
            return out;
        }
        out.push(low + 128);
    }
}

/// A DEX file of `classes` classes.
fn const_string_fixture(classes: usize) -> Vec<u8> {
    dex_at(0, classes, 0x70)
}

#[test]
fn pair_filter_finds_matches_at_both_edges() {
    assert!(contains_pair(b"\x1a\x05", [0x1a, 0x05]));
    assert!(contains_pair(b"\x00\x1a\x05\x00", [0x1a, 0x05]));
    assert!(contains_pair(b"\x05\x1a", [0x1a, 0x05]));
    assert!(!contains_pair(b"\x1a\x00\x05", [0x1a, 0x05]));
    assert!(!contains_pair(b"", [0x1a, 0x05]));
    assert!(!contains_pair(b"\x1a", [0x1a, 0x05]));
}

/// The bitmap is the scan's membership test, so it has to agree with the target
/// list exactly - including at both ends of a bitmap word and above the range the
/// bitmap covers (the `const-string/jumbo` case).
#[test]
fn bitmap_membership_matches_the_target_list() {
    let targets = Targets::new(&[0u32, 1, 63, 64, 65, 1000, 65535, 65536, 70000]);
    for &index in &[0u32, 1, 63, 64, 65, 1000, 65535, 65536, 70000] {
        assert!(targets.contains(index), "{index} must be a target");
    }
    for &index in &[2u32, 62, 66, 999, 1001, 65534, 65537, 65538, 12345] {
        assert!(!targets.contains(index), "{index} must not be a target");
    }
    // Indices outside the bitmap land in the sorted tail, which is searched.
    let wide = Targets::new(&[65536u32, 70000, 65537]);
    assert!(wide.contains(65537) && wide.contains(70000) && !wide.contains(65538));
    assert_eq!(*wide.wide(), [65536, 65537, 70000]);
    // Duplicates and unsorted input must not disturb either test.
    let messy = Targets::new(&[5u32, 3, 5, 3, 70000, 70000]);
    assert!(messy.contains(3) && messy.contains(5) && messy.contains(70000));
    assert!(!messy.contains(4));
}

/// The rows of a scan, as pairs of texts.
fn pairs(rows: &[ReferenceRow]) -> Vec<(String, String)> {
    rows.iter()
        .map(|row| (row.member.clone(), row.matched.clone()))
        .collect()
}

/// Enough classes for a scan that a filter is worth having for.
const SCAN_CLASSES: usize = 512;

#[test]
fn byte_filter_matches_the_unfiltered_scan() {
    let data = const_string_fixture(SCAN_CLASSES);
    let dex = Dex::parse(&data).unwrap();
    let (kind, resolved) = dex
        .resolve_targets(&Query::String("Authorization".to_owned()))
        .unwrap();
    let targets = Targets::new(&resolved);
    assert!(targets.is_filtered(), "one target must stay filterable");
    let filtered = dex.scan_all_classes(kind, &targets).unwrap();
    let unfiltered = Targets::unfiltered(&resolved);
    assert!(!unfiltered.is_filtered());
    assert_eq!(
        pairs(&filtered),
        pairs(&dex.scan_all_classes(kind, &unfiltered).unwrap())
    );
    assert_eq!(filtered.len(), SCAN_CLASSES);
}

/// Past four targets the filter would cost more than it saves.
#[test]
fn many_targets_are_not_filtered() {
    assert!(Targets::new(&[1, 2, 3, 4]).is_filtered());
    assert!(Targets::new(&[1, 2, 3, 4, 4, 4]).is_filtered());
    assert!(!Targets::new(&[1, 2, 3, 4, 5]).is_filtered());
    assert!(Targets::new(&[1, 2, 3, 4, 5]).might_reference(b""));
}

/// The walk goes from instruction to instruction: an operand that looks like a reference is
/// stepped over, and the tables of switches and array fills are too.
#[test]
fn only_instructions_are_references() {
    let targets = Targets::unfiltered(&[5]);
    let scan = |code: &[u8]| scan_code(code, ReferenceKind::String, &targets);
    // const-string v0, string@5
    assert_eq!(scan(&[0x1A, 0, 5, 0]), [5]);
    // const-string/jumbo v0, string@5
    assert_eq!(scan(&[0x1B, 0, 5, 0, 0, 0]), [5]);
    // const-wide with an operand that looks like one
    assert_eq!(scan(&[0x18, 0, 0x1A, 0, 5, 0, 0, 0, 0, 0]), []);
    // fill-array-data-payload of four bytes that look like one, then a real one
    assert_eq!(
        scan(&[0, 3, 1, 0, 4, 0, 0, 0, 0x1A, 0, 5, 0, 0x1A, 1, 5, 0]),
        [5]
    );
    // packed-switch-payload of one target, then a real one
    assert_eq!(
        scan(&[0, 1, 1, 0, 0, 0, 0, 0, 0x1A, 0, 5, 0, 0x1A, 1, 5, 0]),
        [5]
    );
    // sparse-switch-payload of one key and one target
    assert_eq!(scan(&[0, 2, 1, 0, 0x1A, 0, 5, 0, 0x1A, 0, 5, 0]), []);
    // an instruction that is cut short
    assert_eq!(scan(&[0x1A, 0]), []);
    // the other kinds do not look at strings
    assert_eq!(scan_code(&[0x1A, 0, 5, 0], ReferenceKind::Type, &targets), []);
    assert_eq!(scan_code(&[0x22, 0, 5, 0], ReferenceKind::Type, &targets), [5]);
    assert_eq!(scan_code(&[0x62, 0, 5, 0], ReferenceKind::Field, &targets), [5]);
    assert_eq!(
        scan_code(&[0x6E, 0x10, 5, 0, 0, 0], ReferenceKind::Method, &targets),
        [5]
    );
    assert_eq!(
        scan_code(&[0xFA, 0x10, 5, 0, 0, 0, 0, 0], ReferenceKind::Method, &targets),
        [5]
    );
}

/// A method that the filter skips references none of the targets.
#[test]
fn skipped_code_holds_no_reference() {
    let targets = Targets::new(&[0x1234]);
    let code = [0x1A, 0, 0x33, 0x12, 0x0E, 0];
    assert!(!targets.might_reference(&code));
    assert_eq!(scan_code(&code, ReferenceKind::String, &targets), []);
    let wide = Targets::new(&[70000]);
    let code = [0x1B, 0, 0x70, 0x11, 0x01, 0x00];
    assert!(wide.might_reference(&code));
    assert_eq!(scan_code(&code, ReferenceKind::String, &wide), [70000]);
}
