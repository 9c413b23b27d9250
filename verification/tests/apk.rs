//! What is answered from a whole archive.
use rasc::apk::classes::{list_classes, ClassEntry};
use rasc::apk::entries::{is_bare_dex, list_entries, parse_dex_entries, read_entry};
use rasc::apk::lookup::{locate_class, order_by_size};
use rasc::apk::plans::field_plan;
use rasc::apk::references::{find_reference_hits, sort_hits, ReferenceHit};
use rasc::apk::strings::{contains_ignore_case, list_strings, raw_contains_ignore_case, StringEntry};
use rasc::bytes::read_u32;
use rasc::error::Error;
use rasc::order::Order;
use rasc::query::{ClassQuery, MemberQuery, Query};
use rasc::zip::{inflate_entry, ZipEntry};

/// Writes a little-endian number over four bytes.
fn put(data: &mut [u8], offset: usize, value: usize) {
    data[offset..offset + 4].copy_from_slice(&(value as u32).to_le_bytes());
}

/// A DEX file at `base` of a larger file: `classes` classes `LFixture0;`, `LFixture1;` and so on,
/// each with one direct method `m0`, `m1` and so on that loads the string "Authorization".
///
/// The tables follow the header in the order of the format, then come the strings, and behind them
/// the class data and the code.
fn dex_at(base: usize, classes: usize, header_size: usize) -> Vec<u8> {
    let mut strings: Vec<String> = vec!["Authorization".to_owned()];
    for i in 0..classes {
        strings.push(format!("LFixture{i};"));
    }
    let object = strings.len();
    strings.push("Ljava/lang/Object;".to_owned());
    let void = strings.len();
    strings.push("V".to_owned());
    let first_method = strings.len();
    for i in 0..classes {
        strings.push(format!("m{i}"));
    }
    let string_ids = header_size;
    let type_ids = string_ids + 4 * strings.len();
    let types = classes + 2;
    let proto_ids = type_ids + 4 * types;
    let method_ids = proto_ids + 12;
    let class_defs = method_ids + 8 * classes;
    let mut data = vec![0u8; class_defs + 32 * classes];
    let mut offsets = Vec::new();
    for string in &strings {
        offsets.push(data.len());
        data.push(string.len() as u8);
        data.extend_from_slice(string.as_bytes());
        data.push(0);
    }
    while data.len() % 4 != 0 {
        data.push(0);
    }
    let mut codes = Vec::new();
    for _ in 0..classes {
        codes.push(data.len());
        data.extend_from_slice(&[1, 0, 0, 0, 0, 0, 0, 0, 0, 0, 0, 0, 3, 0, 0, 0]);
        data.extend_from_slice(&[0x1A, 0, 0, 0, 0x0E, 0, 0, 0]);
    }
    let mut class_data = Vec::new();
    for i in 0..classes {
        class_data.push(data.len());
        data.extend_from_slice(&[0, 0, 1, 0]);
        data.extend_from_slice(&uleb(i));
        data.push(1);
        data.extend_from_slice(&uleb(base + codes[i]));
    }
    while data.len() % 4 != 0 {
        data.push(0);
    }
    data[..8].copy_from_slice(if header_size == 0x78 { b"dex\n041\0" } else { b"dex\n039\0" });
    let size = data.len();
    put(&mut data, 0x20, size);
    put(&mut data, 0x24, header_size);
    put(&mut data, 0x28, 0x1234_5678);
    for (slot, count, at) in [
        (0x38, strings.len(), string_ids),
        (0x40, types, type_ids),
        (0x48, 1, proto_ids),
        (0x58, classes, method_ids),
        (0x60, classes, class_defs),
    ] {
        put(&mut data, slot, count);
        put(&mut data, slot + 4, base + at);
    }
    for (i, offset) in offsets.iter().enumerate() {
        put(&mut data, string_ids + 4 * i, base + offset);
    }
    put(&mut data, type_ids, object);
    for i in 0..classes {
        put(&mut data, type_ids + 4 * (i + 1), i + 1);
    }
    put(&mut data, type_ids + 4 * (classes + 1), void);
    put(&mut data, proto_ids, void);
    put(&mut data, proto_ids + 4, classes + 1);
    for i in 0..classes {
        let row = method_ids + 8 * i;
        data[row..row + 2].copy_from_slice(&((i + 1) as u16).to_le_bytes());
        put(&mut data, row + 4, first_method + i);
        let row = class_defs + 32 * i;
        put(&mut data, row, i + 1);
        put(&mut data, row + 4, 1);
        put(&mut data, row + 16, 0xFFFF_FFFF);
        put(&mut data, row + 24, base + class_data[i]);
    }
    data
}

/// A number as ULEB128.
fn uleb(mut value: usize) -> Vec<u8> {
    let mut out = Vec::new();
    loop {
        let low = (value % 128) as u8;
        value /= 128;
        if value == 0 {
            out.push(low);
            return out;
        }
        out.push(low + 128);
    }
}

/// A DEX file of `classes` classes.
fn const_string_fixture(classes: usize) -> Vec<u8> {
    dex_at(0, classes, 0x70)
}

/// A container with one member per entry of `members`, each with that many classes.
fn dex041_container(members: &[usize]) -> Vec<u8> {
    let mut data = Vec::new();
    let mut starts = Vec::new();
    for &classes in members {
        starts.push(data.len());
        let member = dex_at(data.len(), classes, 0x78);
        data.extend_from_slice(&member);
    }
    let size = data.len();
    for start in starts {
        put(&mut data, start + 0x70, size);
        put(&mut data, start + 0x74, start);
    }
    data
}

/// Raw deflate of `payload`, the way a ZIP writer stores a DEX entry.
fn deflate(payload: &[u8]) -> Vec<u8> {
    let mut compressor = flate2::Compress::new(flate2::Compression::default(), false);
    // Stored deflate blocks cost 5 bytes per 64 KiB plus the payload, so doubling
    // is comfortably above the worst case for any input these tests build.
    let mut out = vec![0u8; payload.len() * 2 + 1024];
    compressor
        .compress(payload, &mut out, flate2::FlushCompress::Finish)
        .expect("deflate");
    out.truncate(compressor.total_out() as usize);
    out
}

/// Builds a ZIP archive in memory. The third tuple field selects deflate
/// (8) over stored (0); CRC fields are left zero because the parser never
/// reads them.
fn build_zip(entries: &[(&str, &[u8], bool)]) -> Vec<u8> {
    let mut local = Vec::new();
    let mut central = Vec::new();
    for (name, payload, deflated) in entries {
        let stored = if *deflated {
            deflate(payload)
        } else {
            payload.to_vec()
        };
        let offset = local.len() as u32;
        local.extend_from_slice(b"PK\x03\x04");
        local.extend_from_slice(&20u16.to_le_bytes());
        local.extend_from_slice(&0u16.to_le_bytes());
        local.extend_from_slice(&if *deflated { 8u16 } else { 0u16 }.to_le_bytes());
        local.extend_from_slice(&[0; 4]);
        local.extend_from_slice(&0u32.to_le_bytes());
        local.extend_from_slice(&(stored.len() as u32).to_le_bytes());
        local.extend_from_slice(&(payload.len() as u32).to_le_bytes());
        local.extend_from_slice(&(name.len() as u16).to_le_bytes());
        local.extend_from_slice(&0u16.to_le_bytes());
        local.extend_from_slice(name.as_bytes());
        local.extend_from_slice(&stored);

        central.extend_from_slice(b"PK\x01\x02");
        central.extend_from_slice(&20u16.to_le_bytes());
        central.extend_from_slice(&20u16.to_le_bytes());
        central.extend_from_slice(&0u16.to_le_bytes());
        central.extend_from_slice(&if *deflated { 8u16 } else { 0u16 }.to_le_bytes());
        central.extend_from_slice(&[0; 4]);
        central.extend_from_slice(&0u32.to_le_bytes());
        central.extend_from_slice(&(stored.len() as u32).to_le_bytes());
        central.extend_from_slice(&(payload.len() as u32).to_le_bytes());
        central.extend_from_slice(&(name.len() as u16).to_le_bytes());
        central.extend_from_slice(&0u16.to_le_bytes());
        central.extend_from_slice(&0u16.to_le_bytes());
        central.extend_from_slice(&0u16.to_le_bytes());
        central.extend_from_slice(&0u16.to_le_bytes());
        central.extend_from_slice(&0u32.to_le_bytes());
        central.extend_from_slice(&offset.to_le_bytes());
        central.extend_from_slice(name.as_bytes());
    }
    let mut data = local;
    let central_offset = data.len() as u32;
    let central_size = central.len() as u32;
    data.extend_from_slice(&central);
    data.extend_from_slice(b"PK\x05\x06");
    data.extend_from_slice(&0u16.to_le_bytes());
    data.extend_from_slice(&0u16.to_le_bytes());
    data.extend_from_slice(&(entries.len() as u16).to_le_bytes());
    data.extend_from_slice(&(entries.len() as u16).to_le_bytes());
    data.extend_from_slice(&central_size.to_le_bytes());
    data.extend_from_slice(&central_offset.to_le_bytes());
    data.extend_from_slice(&0u16.to_le_bytes());
    data
}

/// A ceiling that no fixture reaches.
const FREE: usize = usize::MAX;

/// The rendered lines for a query.
fn find_references(archive: &[u8], query: &Query, threads: usize) -> Result<Vec<String>, Error> {
    Ok(find_reference_hits(archive, query, threads, FREE)?
        .iter()
        .map(ReferenceHit::render)
        .collect())
}

fn authorization() -> Query {
    Query::String("Authorization".to_owned())
}

/// The rows of an index, as pairs of texts.
fn index_rows(archive: &[u8], threads: usize) -> Vec<(String, String)> {
    list_classes(archive, threads, FREE)
        .unwrap()
        .into_iter()
        .map(|entry| (entry.descriptor, entry.dex_name))
        .collect()
}

fn values(rows: &[StringEntry]) -> Vec<String> {
    rows.iter().map(|entry| entry.value.clone()).collect()
}

#[test]
fn dex_entries_fall_back_to_any_root_dex_name() {
    let dex = const_string_fixture(1);
    let zip = build_zip(&[("app.dex", &dex, true), ("assets/other.dex", &dex, false)]);
    let rows = find_references(&zip, &authorization(), 2).unwrap();
    assert_eq!(rows, ["app.dex | LFixture0;->m0 | matched=(Authorization)"]);
}

#[test]
fn duplicate_classes_dex_entries_use_the_first_copy() {
    let first = const_string_fixture(1);
    let second = const_string_fixture(2);
    let zip = build_zip(&[
        ("classes.dex", &first, true),
        ("classes.dex", &second, true),
    ]);
    let rows = find_references(&zip, &authorization(), 2).unwrap();
    assert_eq!(
        rows,
        ["classes.dex | LFixture0;->m0 | matched=(Authorization)"]
    );
}

#[test]
fn duplicate_fallback_dex_entries_use_the_first_copy() {
    let first = const_string_fixture(1);
    let second = const_string_fixture(2);
    let zip = build_zip(&[("app.dex", &first, true), ("app.dex", &second, true)]);
    let rows = find_references(&zip, &authorization(), 2).unwrap();
    assert_eq!(rows, ["app.dex | LFixture0;->m0 | matched=(Authorization)"]);
}

/// The filter a host moves into the engine has to keep showing what it showed.
#[test]
fn the_filter_ignores_case_without_changing_the_answer() {
    for (haystack, needle, expected) in [
        ("Authorization", "auth", true),
        ("Authorization", "AUTH", true),
        ("Authorization", "xyz", false),
        ("", "", true),
        ("short", "much longer needle", false),
        // Non-ASCII takes the Unicode fold, which is what a JS `toLowerCase` did.
        ("Grüße", "GRÜSSE", false),
        ("Grüße", "grüße", true),
        ("ключ 🔑", "КЛЮЧ", true),
        ("漢字", "漢", true),
    ] {
        assert_eq!(
            contains_ignore_case(haystack, &needle.to_lowercase()),
            expected,
            "{haystack:?} / {needle:?}"
        );
    }
}

/// The byte-level pre-filter answers only what bytes can answer, and says so.
#[test]
fn the_raw_filter_defers_anything_it_cannot_answer() {
    // ASCII on both sides is a comparison.
    assert_eq!(raw_contains_ignore_case(b"Authorization header", "auth"), Some(true));
    assert_eq!(raw_contains_ignore_case(b"Authorization header", "zzz"), Some(false));
    assert_eq!(raw_contains_ignore_case(b"anything", ""), Some(true));
    assert_eq!(raw_contains_ignore_case(b"short", "much longer needle"), Some(false));
    // Anything else is the caller's to decode and fold, never a guess.
    assert_eq!(raw_contains_ignore_case("ключ".as_bytes(), "ключ"), None);
    assert_eq!(raw_contains_ignore_case(b"plain ascii", "ключ"), None);
    assert_eq!(raw_contains_ignore_case("漢字".as_bytes(), "漢"), None);
}

/// A page is the first matches, in order, and the walk stops once it has them.
#[test]
fn a_filtered_page_is_the_first_matches_in_order() {
    let dex = const_string_fixture(4);
    let zip = build_zip(&[("classes.dex", &dex, true)]);

    let all = list_strings(&zip, 2, None, None, None, FREE).unwrap();
    let every = |needle: &str| -> Vec<String> {
        let needle = needle.to_lowercase();
        all.iter()
            .filter(|entry| entry.value.to_lowercase().contains(&needle))
            .map(|entry| entry.value.clone())
            .collect()
    };

    for (needle, limit) in [("fixture", 3usize), ("m", 2), ("AUTHORIZATION", 1), ("nothing", 5)] {
        let page = list_strings(&zip, 2, Some(needle), Some(limit), None, FREE).unwrap();
        let expected: Vec<String> = every(needle).into_iter().take(limit).collect();
        assert_eq!(values(&page), expected, "{needle:?} limit {limit}");
    }

    // An offset with a filter is the next page of the same search, which is the whole
    // reason it exists: a host that scrolls asks for what follows what it has. An offset
    // past the end is an empty page, not an error.
    for (needle, offset, limit) in
        [("fixture", 1usize, 2usize), ("m", 2, 1), ("AUTHORIZATION", 0, 1), ("fixture", 99, 5)]
    {
        let page = list_strings(&zip, 2, Some(needle), Some(limit), Some(offset), FREE).unwrap();
        let expected: Vec<String> = every(needle).into_iter().skip(offset).take(limit).collect();
        assert_eq!(
            values(&page),
            expected,
            "{needle:?} offset {offset} limit {limit}"
        );
        // The page does not depend on how many workers there are.
        let serial = list_strings(&zip, 1, Some(needle), Some(limit), Some(offset), FREE).unwrap();
        assert_eq!(values(&serial), expected);
    }

    // A limit with no filter is the head of the table.
    let head = list_strings(&zip, 2, None, Some(2), None, FREE).unwrap();
    assert_eq!(head.len(), 2);
    assert_eq!(head[0].value, all[0].value);
    assert_eq!(head[1].value, all[1].value);
}

/// A full page stops before the entries below it, and does not even inflate them.
///
/// The second entry's directory record overstates its size, so *inflating* it fails
/// with a size mismatch. That is what makes "was this entry read?" observable at all:
/// the limited run passing proves the walk stopped before it, and the unlimited run
/// failing proves the entry really was there to be read.
#[test]
fn a_full_page_never_reads_the_entries_below_it() {
    let dex = const_string_fixture(2);
    let mut zip = build_zip(&[
        ("classes.dex", &dex, true),
        ("classes2.dex", &dex, true),
    ]);
    overstate_second_entry_size(&mut zip);

    let page = list_strings(&zip, 1, None, Some(1), None, FREE).unwrap();
    assert_eq!(page.len(), 1);
    assert_eq!(page[0].index, 0);

    // Without the limit the walk has to inflate that entry and cannot.
    let all = list_strings(&zip, 1, None, None, None, FREE);
    assert!(all.is_err(), "the second entry should not inflate: {all:?}");
    // Nor can a walk of several workers, which reads every entry.
    assert!(list_strings(&zip, 2, None, Some(1), None, FREE).is_err());
}

/// Adds one byte to the second central-directory entry's uncompressed size.
fn overstate_second_entry_size(zip: &mut [u8]) {
    let mut seen = 0;
    for offset in 0..zip.len().saturating_sub(4) {
        if zip[offset..offset + 4] == [0x50, 0x4b, 0x01, 0x02] {
            seen += 1;
            if seen == 2 {
                let size = u32::from_le_bytes(zip[offset + 24..offset + 28].try_into().unwrap()) + 1;
                zip[offset + 24..offset + 28].copy_from_slice(&size.to_le_bytes());
                return;
            }
        }
    }
    panic!("the fixture's second central-directory entry was not found");
}

/// A DEX that arrives without an archive around it is the entry it would have been.
#[test]
fn a_bare_dex_is_one_stored_entry() {
    let dex = const_string_fixture(2);
    let entries = parse_dex_entries(dex.as_slice()).unwrap();
    assert_eq!(entries.len(), 1);
    let entry = &entries[0];
    assert_eq!(entry.name, "classes.dex");
    assert_eq!(entry.compression, 0);
    assert_eq!(entry.uncompressed_size, dex.len());
    assert_eq!(inflate_entry(dex.as_slice(), entry, usize::MAX).unwrap(), dex);
}

/// The magic is the whole test: a ZIP starts with `PK`, so nothing is both.
#[test]
fn a_zip_is_not_read_as_a_bare_dex() {
    let dex = const_string_fixture(1);
    let zip = build_zip(&[("classes.dex", &dex, true)]);
    assert_eq!(parse_dex_entries(zip.as_slice()).unwrap().len(), 1);
    assert!(!is_bare_dex(zip.as_slice()));
    assert!(is_bare_dex(dex.as_slice()));
    // A truncated or unrelated file is not a DEX either, and does not panic.
    assert!(!is_bare_dex(&b"dex\n"[..]));
    assert!(!is_bare_dex(&b"dex\nXX9\0"[..]));
}

/// Every command answers a bare DEX exactly as it answers the same DEX in an APK.
#[test]
fn bare_and_wrapped_dex_agree_on_every_command() {
    let dex = const_string_fixture(3);
    let zip = build_zip(&[("classes.dex", &dex, true)]);
    assert_eq!(index_rows(&dex, 2), index_rows(&zip, 2));
    assert_eq!(
        find_references(&dex, &authorization(), 2).unwrap(),
        find_references(&zip, &authorization(), 2).unwrap()
    );
    let bare = locate_class(dex.as_slice(), "LFixture1;", 2, FREE).unwrap().unwrap();
    let wrapped = locate_class(zip.as_slice(), "LFixture1;", 2, FREE).unwrap().unwrap();
    assert_eq!((bare.name, bare.data), (wrapped.name, wrapped.data));
    assert_eq!(
        values(&list_strings(&dex, 2, None, None, None, FREE).unwrap()),
        values(&list_strings(&zip, 2, None, None, None, FREE).unwrap())
    );
}

#[test]
fn duplicate_manifest_entries_use_the_last_copy() {
    let zip = build_zip(&[
        ("AndroidManifest.xml", b"first".as_slice(), false),
        ("AndroidManifest.xml", b"second".as_slice(), false),
    ]);
    assert_eq!(read_entry(&zip, "AndroidManifest.xml", FREE).unwrap(), b"second");
}

/// The half of decompiling a class that finds it: the entry, and the bytes that define it.
#[test]
fn a_class_is_located_in_a_synthetic_apk() {
    let dex = const_string_fixture(1);
    let zip = build_zip(&[("classes.dex", &dex, true)]);
    let found = locate_class(&zip, "LFixture0;", 2, FREE)
        .unwrap()
        .expect("fixture class is found");
    assert_eq!(found.name, "classes.dex");
    assert_eq!(found.data, dex);
    assert!(locate_class(&zip, "LFixture9;", 2, FREE).unwrap().is_none());
}

#[test]
fn named_dex_entries_win_over_the_fallback() {
    let named = const_string_fixture(1);
    let other = const_string_fixture(2);
    let zip = build_zip(&[("app.dex", &other, true), ("classes.dex", &named, true)]);
    let rows = find_references(&zip, &authorization(), 2).unwrap();
    assert_eq!(
        rows,
        ["classes.dex | LFixture0;->m0 | matched=(Authorization)"]
    );
}

#[test]
fn dex_entries_are_selected_by_name() {
    let zip = build_zip(&[
        ("classes.dex", b"first", false),
        ("classes2.dex", b"second", false),
        ("assets/classes3.dex", b"nested", false),
        ("AndroidManifest.xml", b"<manifest/>", false),
    ]);
    let names: Vec<String> = parse_dex_entries(&zip)
        .unwrap()
        .into_iter()
        .map(|entry| entry.name)
        .collect();
    assert_eq!(
        names,
        ["classes.dex", "classes2.dex"],
        "root DEX entries only"
    );
}

#[test]
fn find_references_searches_every_logical_dex_in_a_041_container() {
    let container = dex041_container(&[2, 1]);
    let zip = build_zip(&[("classes.dex", &container, true)]);
    let rows = find_references(&zip, &authorization(), 2).unwrap();
    assert_eq!(
        rows,
        [
            "classes.dex!classes1.dex | LFixture0;->m0 | matched=(Authorization)",
            "classes.dex!classes1.dex | LFixture1;->m1 | matched=(Authorization)",
            "classes.dex!classes2.dex | LFixture0;->m0 | matched=(Authorization)",
        ]
    );
}

/// Member one defines LFixture0;, member two LFixture0; and LFixture1;.
#[test]
fn a_class_is_located_in_every_logical_dex_of_a_041_container() {
    let container = dex041_container(&[1, 2]);
    let zip = build_zip(&[("classes.dex", &container, true)]);
    for (descriptor, expected_entry) in [
        ("LFixture0;", "classes.dex!classes1.dex"),
        ("LFixture1;", "classes.dex!classes2.dex"),
    ] {
        let hit = locate_class(&zip, descriptor, 2, FREE).unwrap();
        let found = hit.unwrap_or_else(|| panic!("{descriptor} was not located"));
        assert_eq!(found.name, expected_entry);
    }
}

#[test]
fn an_entry_that_is_not_a_dex_is_a_clean_error() {
    // A packer can leave junk in a classes*.dex entry, and a corrupted magic
    // looks the same. That is reported loudly instead of guessing: silently analysing
    // "the rest" would hide the fact that part of the archive was not analysed at all.
    let good = const_string_fixture(1);
    let zip = build_zip(&[
        ("classes.dex", b"JUNKJUNKJUNK".as_slice(), false),
        ("classes2.dex", &good, true),
    ]);
    let error = find_references(&zip, &authorization(), 2)
        .unwrap_err()
        .message();
    assert!(
        error.contains("invalid DEX header"),
        "unexpected error: {error}"
    );
}

#[test]
fn find_class_finds_a_class_whose_type_id_is_a_later_duplicate() {
    // A DEX may repeat a descriptor across several type ids. The index resolves each
    // class_def's own type id, so the lookup has to do the same: looking up "the" type id for
    // the descriptor makes the two commands contradict each other on such a file.
    let mut dex = const_string_fixture(2);
    let header_size = read_u32(&dex, 0x24).unwrap() as usize;
    let strings = read_u32(&dex, 0x38).unwrap() as usize;
    // type_ids[0] belongs to no class_def; pointing it at "LFixture0;"
    // (string index 1) makes the descriptor's first match a different id than
    // the one the class's class_def carries.
    put(&mut dex, header_size + strings * 4, 1);
    let zip = build_zip(&[("classes.dex", &dex, true)]);
    let listed = list_classes(&zip, 2, FREE).unwrap();
    assert!(
        listed.iter().any(|entry| entry.descriptor == "LFixture0;"),
        "fixture stopped listing the class: {listed:?}"
    );
    let hit = locate_class(&zip, "LFixture0;", 2, FREE).unwrap();
    assert!(
        hit.is_some(),
        "listed by classes but missing from the lookup"
    );
}

#[test]
fn class_index_reads_041_containers_through_the_full_path() {
    // The prefix reader refuses 041 containers (their members overlay headers),
    // so this pins that the fallback still lists every logical member.
    let container = dex041_container(&[2, 1]);
    let zip = build_zip(&[("classes.dex", &container, true)]);
    let listed = list_classes(&zip, 2, FREE).unwrap();
    // Member one defines LFixture0; and LFixture1;, member two repeats LFixture0;,
    // and the index dedups by descriptor, so the two members' names survive as
    // the first member's (the prefixed name proves the full path ran).
    let names: Vec<&str> = listed.iter().map(|entry| &*entry.dex_name).collect();
    assert_eq!(
        names,
        ["classes.dex!classes1.dex", "classes.dex!classes1.dex"],
        "{listed:?}"
    );
    let descriptors: Vec<&str> = listed
        .iter()
        .map(|entry| entry.descriptor.as_str())
        .collect();
    assert_eq!(descriptors, ["LFixture0;", "LFixture1;"], "{listed:?}");
}

#[test]
fn single_member_041_container_reports_the_plain_dex_name() {
    // Container members are only named apart when there is more than one, so a
    // single-member container keeps the entry name in every row (the dex column is
    // part of a row's identity).
    let container = dex041_container(&[1]);
    let zip = build_zip(&[("classes.dex", &container, true)]);
    let rows = find_references(&zip, &authorization(), 2).unwrap();
    assert_eq!(
        rows,
        ["classes.dex | LFixture0;->m0 | matched=(Authorization)"]
    );
}

#[test]
fn find_references_runs_end_to_end_on_a_synthetic_apk() {
    let first = const_string_fixture(2);
    let second = const_string_fixture(1);
    let zip = build_zip(&[
        ("classes.dex", &first, true),
        ("classes2.dex", &second, false),
        ("AndroidManifest.xml", b"<manifest/>", false),
    ]);
    let query = authorization();
    let rows = find_references(&zip, &query, 2).unwrap();
    assert_eq!(
        rows,
        [
            "classes.dex | LFixture0;->m0 | matched=(Authorization)",
            "classes.dex | LFixture1;->m1 | matched=(Authorization)",
            "classes2.dex | LFixture0;->m0 | matched=(Authorization)",
        ]
    );
    assert_eq!(
        find_references(&zip, &query, 2).unwrap(),
        rows,
        "deterministic"
    );
}

#[test]
fn worker_count_must_be_positive() {
    let zip = build_zip(&[("classes.dex", b"payload", false)]);
    let query = Query::String("x".to_owned());
    assert!(find_references(&zip, &query, 0).is_err());
    for error in [
        list_classes(&zip, 0, FREE).err(),
        list_strings(&zip, 0, None, None, None, FREE).err(),
        locate_class(&zip, "LA;", 0, FREE).err(),
        field_plan(&zip, "LA;", 0, FREE).err(),
    ] {
        assert_eq!(
            error.unwrap().message(),
            "worker count must be greater than zero"
        );
    }
}

/// The inline key must not change the order: every pair has to compare the same way
/// with the key as the plain `(descriptor, dex_name)` tuple does - including
/// descriptors that are prefixes of each other, ones that share the first eight
/// bytes, and ones with multi-byte characters.
#[test]
fn the_inline_sort_key_orders_like_the_descriptor() {
    let samples = [
        "L;",
        "La;",
        "La;b",
        "Lab;",
        "Lcom/a;",
        "Lcom/ab;",
        "Lcom/a/b;",
        "Lcom/b;",
        "Lcom/bytedance/aaa;",
        "Lcom/bytedance/aab;",
        "Lcom/bytedance/zzz;",
        "Lé;",
        "L中;",
        "L\u{1F600};",
        "Lcom/example/Main$Nested;",
        "Lcom/example/Main$Nested$1;",
    ];
    let entries: Vec<ClassEntry> = samples
        .iter()
        .enumerate()
        .map(|(index, descriptor)| {
            ClassEntry::new((*descriptor).to_owned(), format!("classes{index}.dex"))
        })
        .collect();
    for left in &entries {
        for right in &entries {
            let plain = left
                .descriptor
                .cmp(&right.descriptor)
                .then_with(|| left.dex_name.cmp(&right.dex_name));
            let order = match left.order(right) {
                Order::Before => std::cmp::Ordering::Less,
                Order::Same => std::cmp::Ordering::Equal,
                Order::After => std::cmp::Ordering::Greater,
            };
            assert_eq!(order, plain, "{:?} vs {:?}", left.descriptor, right.descriptor);
        }
    }
    // A sorted copy of the samples must match sorting by the plain key.
    let sorted = rasc::apk::classes::index_classes(entries);
    let mut plain: Vec<&str> = samples.to_vec();
    plain.sort();
    assert_eq!(
        sorted.iter().map(|e| e.descriptor.as_str()).collect::<Vec<_>>(),
        plain
    );
}

#[test]
fn class_entry_exposes_name_components() {
    let entry = ClassEntry::new("Lcom/example/Main$Nested;".to_owned(), "classes.dex".to_owned());
    assert_eq!(entry.java_name(), "com/example/Main$Nested");
    assert_eq!(entry.package(), "com/example");
    assert_eq!(entry.simple_name(), "Main$Nested");
}

#[test]
fn a_name_without_a_package_is_all_simple_name() {
    let plain = ClassEntry::new("LMain;".to_owned(), "classes.dex".to_owned());
    assert_eq!(
        (plain.java_name(), plain.package(), plain.simple_name()),
        ("Main".to_owned(), String::new(), "Main".to_owned())
    );
    // A descriptor without its delimiters is shown as it is.
    let odd = ClassEntry::new("[La/B;".to_owned(), "classes.dex".to_owned());
    assert_eq!(odd.java_name(), "[La/B;");
    assert_eq!(odd.package(), "[La");
}

#[test]
fn the_index_keeps_the_first_entry_of_a_descriptor() {
    let dex = const_string_fixture(2);
    let more = const_string_fixture(3);
    let zip = build_zip(&[("classes2.dex", &more, true), ("classes.dex", &dex, false)]);
    assert_eq!(
        index_rows(&zip, 1),
        [
            ("LFixture0;".to_owned(), "classes.dex".to_owned()),
            ("LFixture1;".to_owned(), "classes.dex".to_owned()),
            ("LFixture2;".to_owned(), "classes2.dex".to_owned()),
        ]
    );
}

/// A large entry whose strings come early is answered from a prefix of it, and the answer is that
/// of the whole entry.
#[test]
fn a_prefix_answers_what_the_whole_entry_answers() {
    let small = const_string_fixture(2);
    let mut large = const_string_fixture(40);
    // Code that does not repeat, so that the entry stays large when it is deflated too.
    let mut state: u32 = 1;
    for _ in 0..600_000 {
        state = state.wrapping_mul(1_664_525).wrapping_add(1_013_904_223);
        large.push((state >> 24) as u8);
    }
    let zip = build_zip(&[("classes.dex", &large, true), ("classes2.dex", &small, true)]);
    let stored = build_zip(&[("classes.dex", &large, false), ("classes2.dex", &small, false)]);
    assert_eq!(index_rows(&zip, 1), index_rows(&stored, 1));
    assert_eq!(index_rows(&zip, 1).len(), 40);
    let found = locate_class(&zip, "LFixture39;", 1, FREE).unwrap().unwrap();
    assert_eq!((found.name.as_str(), found.data.len()), ("classes.dex", large.len()));
    assert!(locate_class(&zip, "LMissing;", 1, FREE).unwrap().is_none());
    // A query that names a class the large entry does not have skips it.
    let query = |class: &str, name: &str| {
        Query::Method(MemberQuery {
            name: Some(name.to_owned()),
            class: Some(ClassQuery::Exact(class.to_owned())),
        })
    };
    for (class, name) in [("LMissing;", "m0"), ("LFixture3;", "m3")] {
        assert_eq!(
            find_references(&zip, &query(class, name), 1).unwrap(),
            find_references(&stored, &query(class, name), 1).unwrap()
        );
    }
    // A ceiling below the first reads is reported, not guessed around.
    let error = list_classes(&zip, 1, 4096).unwrap_err();
    assert!(error.message().contains("entry limit"));
}

#[test]
fn entries_are_walked_smallest_first() {
    let entries: Vec<ZipEntry> = [30, 10, 20, 10]
        .iter()
        .map(|&size| ZipEntry::bare("e", size))
        .collect();
    assert_eq!(order_by_size(&entries), [1, 3, 2, 0]);
}

#[test]
fn a_listing_repeats_what_the_directory_repeats() {
    let zip = build_zip(&[
        ("a.txt", b"one", false),
        ("classes.dex", b"two", true),
        ("a.txt", b"three", false),
    ]);
    let names: Vec<String> = list_entries(&zip)
        .unwrap()
        .into_iter()
        .map(|entry| entry.name)
        .collect();
    assert_eq!(names, ["a.txt", "classes.dex", "a.txt"]);
    let bare = list_entries(&const_string_fixture(1)).unwrap();
    assert_eq!(bare.len(), 1);
    assert_eq!(bare[0].name, "classes.dex");
}

#[test]
fn a_missing_entry_is_named() {
    let zip = build_zip(&[("a.txt", b"one", false)]);
    let error = read_entry(&zip, "AndroidManifest.xml", FREE).unwrap_err();
    assert_eq!(error.message(), "AndroidManifest.xml not found in APK");
    assert_eq!(read_entry(&zip, "a.txt", FREE).unwrap(), b"one");
}

/// The hits come in the order of the directory, whatever the sizes of the entries are.
#[test]
fn hits_come_in_directory_order() {
    let large = const_string_fixture(40);
    let small = const_string_fixture(1);
    let zip = build_zip(&[("classes.dex", &large, true), ("classes2.dex", &small, true)]);
    for threads in [1, 4] {
        let hits =
            find_reference_hits(zip.as_slice(), &authorization(), threads, 1 << 20).unwrap();
        let names: Vec<&str> = hits.iter().map(|hit| hit.dex_name.as_str()).collect();
        assert_eq!(names.len(), 41);
        assert!(names[..40].iter().all(|name| *name == "classes.dex"));
        assert_eq!(names[40], "classes2.dex");
        assert_eq!(hits[0].member, "LFixture0;->m0");
        assert_eq!(hits[1].member, "LFixture1;->m1");
    }
}

#[test]
fn hits_sort_by_entry_member_and_match() {
    let hit = |dex: &str, member: &str, matched: &str| ReferenceHit {
        dex_name: dex.to_owned(),
        member: member.to_owned(),
        matched: matched.to_owned(),
    };
    let sorted = sort_hits(vec![
        hit("classes2.dex", "LA;->a", "x"),
        hit("classes.dex", "LB;->a", "x"),
        hit("classes.dex", "LA;->a", "y"),
        hit("classes.dex", "LA;->a", "x"),
    ]);
    let lines: Vec<String> = sorted.iter().map(ReferenceHit::render).collect();
    assert_eq!(
        lines,
        [
            "classes.dex | LA;->a | matched=(x)",
            "classes.dex | LA;->a | matched=(y)",
            "classes.dex | LB;->a | matched=(x)",
            "classes2.dex | LA;->a | matched=(x)",
        ]
    );
}

#[test]
fn a_plan_comes_from_the_first_entry_that_defines_the_class() {
    let first = const_string_fixture(1);
    let second = const_string_fixture(2);
    let zip = build_zip(&[("classes.dex", &first, true), ("classes2.dex", &second, true)]);
    let empty = |descriptor: &str, row: usize| {
        format!(
            "{{\"schema\":\"rasc.fields-plan/v1\",\"descriptor\":\"{descriptor}\",\
             \"dex_class_def_idx\":{row},\"dex_type_idx\":{},\"class_access_flags\":1,\
             \"instance_fields\":[],\"static_fields\":[],\
             \"counts\":{{\"instance\":0,\"static\":0}},\"instance_ref_mask\":\"0x0\"}}",
            row + 1
        )
    };
    for (row, descriptor) in ["LFixture0;", "LFixture1;"].into_iter().enumerate() {
        assert_eq!(
            field_plan(&zip, descriptor, 1, FREE).unwrap(),
            Some(empty(descriptor, row))
        );
    }
    assert_eq!(field_plan(&zip, "LMissing;", 1, FREE).unwrap(), None);
    // A container member is read with the header of a plain file.
    let container = build_zip(&[("classes.dex", &dex041_container(&[1, 2]), true)]);
    assert_eq!(
        field_plan(&container, "LFixture1;", 1, FREE).unwrap(),
        Some(empty("LFixture1;", 1))
    );
    // Every entry has to be readable, also behind the one that answers.
    let broken = build_zip(&[("classes.dex", &first, true), ("classes2.dex", b"junk", false)]);
    assert!(matches!(
        field_plan(&broken, "LFixture0;", 1, FREE),
        Err(Error::InvalidDexHeader)
    ));
}

/// What the index lists is what the lookup finds, and nothing else is.
#[test]
fn the_lookup_finds_what_the_index_lists() {
    let one = const_string_fixture(2);
    let other = const_string_fixture(5);
    let members = dex041_container(&[1, 7]);
    let zip = build_zip(&[
        ("classes.dex", &one, true),
        ("classes2.dex", &other, false),
        ("classes3.dex", &members, true),
    ]);
    let rows = index_rows(&zip, 2);
    assert_eq!(rows.len(), 7);
    for i in 0..9 {
        let descriptor = format!("LFixture{i};");
        let listed = rows.iter().any(|(name, _)| *name == descriptor);
        assert_eq!(listed, i < 7);
        let found = locate_class(&zip, &descriptor, 2, FREE).unwrap();
        assert_eq!(found.is_some(), listed, "{descriptor}");
    }
}

/// The index and the lookup agree also where a table behind the names leaves the file: both are
/// answered from the prefix.
#[test]
fn the_lookup_agrees_with_the_index_of_a_prefix() {
    let mut dex = const_string_fixture(3);
    let mut state: u32 = 7;
    for _ in 0..600_000 {
        state = state.wrapping_mul(1_664_525).wrapping_add(1_013_904_223);
        dex.push((state >> 24) as u8);
    }
    put(&mut dex, 0x5C, 0x7FFF_0000);
    let zip = build_zip(&[("classes.dex", &dex, true)]);
    let rows = index_rows(&zip, 1);
    assert_eq!(rows.len(), 3);
    for i in 0..5 {
        let found = locate_class(&zip, &format!("LFixture{i};"), 1, FREE).unwrap();
        assert_eq!(found.is_some(), i < 3);
    }
    // Read as a whole, neither can be answered.
    let stored = build_zip(&[("classes.dex", &dex, false)]);
    assert!(list_classes(&stored, 1, FREE).is_err());
    assert!(locate_class(&stored, "LFixture0;", 1, FREE).is_err());
}
