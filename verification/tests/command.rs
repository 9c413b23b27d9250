//! What each command prints, and what a command line asks for.
use rasc::cli::{
    default_threads, ClassesArgs, FindKind, FindRefsArgs, MemberArgs, SkillArgs, StringsArgs,
    ValueQuery,
};
use rasc::command;
use rasc::dex::index::Answer;
use rasc::error::Error;
use rasc::platform_symbols::default_platform_symbols;
use rasc::query::{ClassQuery, Query};

/// Writes a little-endian number over four bytes.
fn put(data: &mut [u8], offset: usize, value: usize) {
    data[offset..offset + 4].copy_from_slice(&(value as u32).to_le_bytes());
}

/// A DEX file at `base` of a larger file: `classes` classes `LFixture0;`, `LFixture1;` and so on,
/// each with one direct method `m0`, `m1` and so on that loads the string "Authorization".
///
/// The tables follow the header in the order of the format, then come the strings, and behind them
/// the class data and the code.
fn dex_at(base: usize, classes: usize, header_size: usize) -> Vec<u8> {
    let mut strings: Vec<String> = vec!["Authorization".to_owned()];
    for i in 0..classes {
        strings.push(format!("LFixture{i};"));
    }
    let object = strings.len();
    strings.push("Ljava/lang/Object;".to_owned());
    let void = strings.len();
    strings.push("V".to_owned());
    let first_method = strings.len();
    for i in 0..classes {
        strings.push(format!("m{i}"));
    }
    let string_ids = header_size;
    let type_ids = string_ids + 4 * strings.len();
    let types = classes + 2;
    let proto_ids = type_ids + 4 * types;
    let method_ids = proto_ids + 12;
    let class_defs = method_ids + 8 * classes;
    let mut data = vec![0u8; class_defs + 32 * classes];
    let mut offsets = Vec::new();
    for string in &strings {
        offsets.push(data.len());
        data.push(string.len() as u8);
        data.extend_from_slice(string.as_bytes());
        data.push(0);
    }
    while data.len() % 4 != 0 {
        data.push(0);
    }
    let mut codes = Vec::new();
    for _ in 0..classes {
        codes.push(data.len());
        data.extend_from_slice(&[1, 0, 0, 0, 0, 0, 0, 0, 0, 0, 0, 0, 3, 0, 0, 0]);
        data.extend_from_slice(&[0x1A, 0, 0, 0, 0x0E, 0, 0, 0]);
    }
    let mut class_data = Vec::new();
    for i in 0..classes {
        class_data.push(data.len());
        data.extend_from_slice(&[0, 0, 1, 0]);
        data.extend_from_slice(&uleb(i));
        data.push(1);
        data.extend_from_slice(&uleb(base + codes[i]));
    }
    while data.len() % 4 != 0 {
        data.push(0);
    }
    data[..8].copy_from_slice(if header_size == 0x78 { b"dex\n041\0" } else { b"dex\n039\0" });
    let size = data.len();
    put(&mut data, 0x20, size);
    put(&mut data, 0x24, header_size);
    put(&mut data, 0x28, 0x1234_5678);
    for (slot, count, at) in [
        (0x38, strings.len(), string_ids),
        (0x40, types, type_ids),
        (0x48, 1, proto_ids),
        (0x58, classes, method_ids),
        (0x60, classes, class_defs),
    ] {
        put(&mut data, slot, count);
        put(&mut data, slot + 4, base + at);
    }
    for (i, offset) in offsets.iter().enumerate() {
        put(&mut data, string_ids + 4 * i, base + offset);
    }
    put(&mut data, type_ids, object);
    for i in 0..classes {
        put(&mut data, type_ids + 4 * (i + 1), i + 1);
    }
    put(&mut data, type_ids + 4 * (classes + 1), void);
    put(&mut data, proto_ids, void);
    put(&mut data, proto_ids + 4, classes + 1);
    for i in 0..classes {
        let row = method_ids + 8 * i;
        data[row..row + 2].copy_from_slice(&((i + 1) as u16).to_le_bytes());
        put(&mut data, row + 4, first_method + i);
        let row = class_defs + 32 * i;
        put(&mut data, row, i + 1);
        put(&mut data, row + 4, 1);
        put(&mut data, row + 16, 0xFFFF_FFFF);
        put(&mut data, row + 24, base + class_data[i]);
    }
    data
}

/// A number as ULEB128.
fn uleb(mut value: usize) -> Vec<u8> {
    let mut out = Vec::new();
    loop {
        let low = (value % 128) as u8;
        value /= 128;
        if value == 0 {
            out.push(low);
            return out;
        }
        out.push(low + 128);
    }
}

/// A DEX file of `classes` classes.
fn const_string_fixture(classes: usize) -> Vec<u8> {
    dex_at(0, classes, 0x70)
}

/// Raw deflate of `payload`, the way a ZIP writer stores a DEX entry.
fn deflate(payload: &[u8]) -> Vec<u8> {
    let mut compressor = flate2::Compress::new(flate2::Compression::default(), false);
    // Stored deflate blocks cost 5 bytes per 64 KiB plus the payload, so doubling
    // is comfortably above the worst case for any input these tests build.
    let mut out = vec![0u8; payload.len() * 2 + 1024];
    compressor
        .compress(payload, &mut out, flate2::FlushCompress::Finish)
        .expect("deflate");
    out.truncate(compressor.total_out() as usize);
    out
}

/// Builds a ZIP archive in memory. The third tuple field selects deflate
/// (8) over stored (0); CRC fields are left zero because the parser never
/// reads them.
fn build_zip(entries: &[(&str, &[u8], bool)]) -> Vec<u8> {
    let mut local = Vec::new();
    let mut central = Vec::new();
    for (name, payload, deflated) in entries {
        let stored = if *deflated {
            deflate(payload)
        } else {
            payload.to_vec()
        };
        let offset = local.len() as u32;
        local.extend_from_slice(b"PK\x03\x04");
        local.extend_from_slice(&20u16.to_le_bytes());
        local.extend_from_slice(&0u16.to_le_bytes());
        local.extend_from_slice(&if *deflated { 8u16 } else { 0u16 }.to_le_bytes());
        local.extend_from_slice(&[0; 4]);
        local.extend_from_slice(&0u32.to_le_bytes());
        local.extend_from_slice(&(stored.len() as u32).to_le_bytes());
        local.extend_from_slice(&(payload.len() as u32).to_le_bytes());
        local.extend_from_slice(&(name.len() as u16).to_le_bytes());
        local.extend_from_slice(&0u16.to_le_bytes());
        local.extend_from_slice(name.as_bytes());
        local.extend_from_slice(&stored);

        central.extend_from_slice(b"PK\x01\x02");
        central.extend_from_slice(&20u16.to_le_bytes());
        central.extend_from_slice(&20u16.to_le_bytes());
        central.extend_from_slice(&0u16.to_le_bytes());
        central.extend_from_slice(&if *deflated { 8u16 } else { 0u16 }.to_le_bytes());
        central.extend_from_slice(&[0; 4]);
        central.extend_from_slice(&0u32.to_le_bytes());
        central.extend_from_slice(&(stored.len() as u32).to_le_bytes());
        central.extend_from_slice(&(payload.len() as u32).to_le_bytes());
        central.extend_from_slice(&(name.len() as u16).to_le_bytes());
        central.extend_from_slice(&0u16.to_le_bytes());
        central.extend_from_slice(&0u16.to_le_bytes());
        central.extend_from_slice(&0u16.to_le_bytes());
        central.extend_from_slice(&0u16.to_le_bytes());
        central.extend_from_slice(&0u32.to_le_bytes());
        central.extend_from_slice(&offset.to_le_bytes());
        central.extend_from_slice(name.as_bytes());
    }
    let mut data = local;
    let central_offset = data.len() as u32;
    let central_size = central.len() as u32;
    data.extend_from_slice(&central);
    data.extend_from_slice(b"PK\x05\x06");
    data.extend_from_slice(&0u16.to_le_bytes());
    data.extend_from_slice(&0u16.to_le_bytes());
    data.extend_from_slice(&(entries.len() as u16).to_le_bytes());
    data.extend_from_slice(&(entries.len() as u16).to_le_bytes());
    data.extend_from_slice(&central_size.to_le_bytes());
    data.extend_from_slice(&central_offset.to_le_bytes());
    data.extend_from_slice(&0u16.to_le_bytes());
    data
}

/// The ceiling that no test comes near.
const LIMIT: usize = 1 << 20;

/// The ceiling of a host that states none.
const DEFAULT_CEILING: usize = 256 << 20;

fn classes_args(filter: Option<&str>) -> ClassesArgs {
    ClassesArgs {
        threads: 1,
        filter: filter.map(str::to_owned),
        output: None,
        debug: false,
        apk_path: "a.apk".to_owned(),
    }
}

fn strings_args(filter: Option<&str>, limit: Option<usize>, offset: Option<usize>) -> StringsArgs {
    StringsArgs {
        filter: filter.map(str::to_owned),
        limit,
        offset,
        threads: 1,
        output: None,
        debug: false,
        apk_path: "a.apk".to_owned(),
    }
}

fn findrefs_args(kind: FindKind) -> FindRefsArgs {
    FindRefsArgs {
        debug: false,
        threads: 1,
        apk_path: "a.apk".to_owned(),
        kind,
    }
}

fn member_args(name: Option<&str>, class_name: Option<&str>, fuzzy_class: bool) -> MemberArgs {
    MemberArgs {
        output: Some("out.txt".to_owned()),
        name: name.map(str::to_owned),
        class_name: class_name.map(str::to_owned),
        fuzzy_class,
    }
}

#[test]
fn classes_are_listed_in_one_row_each() {
    let dex = const_string_fixture(2);
    let apk = build_zip(&[("classes.dex", &dex, true)]);
    assert_eq!(
        command::classes(apk.as_slice(), &classes_args(None), LIMIT).unwrap(),
        "classes.dex | LFixture0; | Fixture0 | package= | class=Fixture0\n\
         classes.dex | LFixture1; | Fixture1 | package= | class=Fixture1\n"
    );
    // The filter ignores case.
    assert_eq!(
        command::classes(apk.as_slice(), &classes_args(Some("fIXTURE1")), LIMIT).unwrap(),
        "classes.dex | LFixture1; | Fixture1 | package= | class=Fixture1\n"
    );
    assert_eq!(
        command::classes(apk.as_slice(), &classes_args(Some("none")), LIMIT).unwrap(),
        ""
    );
}

#[test]
fn chunks_of_classes_render_the_whole() {
    let dex = const_string_fixture(5);
    let apk = build_zip(&[("classes.dex", &dex, true)]);
    let index = rasc::apk::classes::list_classes(apk.as_slice(), 1, LIMIT).unwrap();
    let pattern = command::class_pattern(&Some("FIXTURE".to_owned()));
    assert_eq!(pattern.as_deref(), Some("fixture"));
    assert_eq!(command::class_pattern(&None), None);
    let whole = command::render_classes(&index, pattern.as_deref());
    let parts: String = index
        .chunks(2)
        .map(|chunk| command::render_classes(chunk, pattern.as_deref()))
        .collect();
    assert_eq!(parts, whole);
    assert_eq!(whole.lines().count(), 5);
}

#[test]
fn strings_are_listed_by_entry_and_index() {
    let dex = const_string_fixture(1);
    let apk = build_zip(&[("classes.dex", &dex, true)]);
    assert_eq!(
        command::strings(apk.as_slice(), &strings_args(None, None, None), LIMIT).unwrap(),
        "classes.dex | 0 | Authorization\n\
         classes.dex | 1 | LFixture0;\n\
         classes.dex | 2 | Ljava/lang/Object;\n\
         classes.dex | 3 | V\n\
         classes.dex | 4 | m0\n"
    );
    assert_eq!(
        command::strings(apk.as_slice(), &strings_args(Some("l"), Some(1), Some(1)), LIMIT).unwrap(),
        "classes.dex | 2 | Ljava/lang/Object;\n"
    );
}

#[test]
fn a_filter_folds_what_is_not_ascii() {
    // The one string is "ÄRGER".
    let mut dex = const_string_fixture(1);
    let at = dex
        .windows(13)
        .position(|window| window == b"Authorization")
        .unwrap();
    dex[at - 1] = 5;
    dex[at..at + 7].copy_from_slice("ÄRGER\0".as_bytes());
    let listed = |filter: &str| {
        command::strings(dex.as_slice(), &strings_args(Some(filter), None, None), LIMIT).unwrap()
    };
    assert_eq!(listed("ärger"), "classes.dex | 0 | ÄRGER\n");
    assert_eq!(listed("ÄRG"), "classes.dex | 0 | ÄRGER\n");
    assert_eq!(listed("arger"), "");
}

#[test]
fn entries_are_listed_with_their_sizes() {
    let apk = build_zip(&[("a.txt", b"hello", false), ("b.txt", &[7; 100], true)]);
    let packed = deflate(&[7; 100]).len();
    assert_eq!(
        command::entries(apk.as_slice()).unwrap(),
        format!("a.txt | stored | 5 | 5\nb.txt | deflated | {packed} | 100\n")
    );
    assert_eq!(
        command::entries(b"PK".as_slice()).unwrap_err().report(),
        "EOCD not found"
    );
}

#[test]
fn findrefs_prints_sorted_rows() {
    let dex = const_string_fixture(2);
    let apk = build_zip(&[("classes.dex", &dex, true)]);
    let kind = FindKind::String(ValueQuery {
        output: None,
        value: "Authorization".to_owned(),
    });
    let payload = command::findrefs(apk.as_slice(), &findrefs_args(kind), LIMIT).unwrap();
    let rows: Vec<&str> = payload.lines().collect();
    assert_eq!(rows.len(), 2);
    assert!(rows[0].contains("LFixture0;->m0") && rows[0].contains("Authorization"));
    assert!(rows[1].contains("LFixture1;->m1"));
    assert!(payload.ends_with('\n'));
    // A query that says nothing is refused before anything is read.
    let kind = FindKind::Method(member_args(None, Some(""), false));
    assert_eq!(
        command::findrefs(b"".as_slice(), &findrefs_args(kind), LIMIT)
            .unwrap_err()
            .report(),
        "method query needs at least one of class or method name"
    );
    let kind = FindKind::Field(member_args(Some(""), None, true));
    assert_eq!(
        findrefs_args(kind).query().unwrap_err().report(),
        "field query needs at least one of class or field name"
    );
}

#[test]
fn arguments_state_a_query() {
    let kind = FindKind::Method(member_args(Some("run"), Some("com.foo.Bar"), false));
    let args = findrefs_args(kind);
    assert_eq!(args.output_path(), Some("out.txt"));
    match args.query().unwrap() {
        Query::Method(query) => {
            assert_eq!(query.name.as_deref(), Some("run"));
            assert!(
                matches!(&query.class, Some(ClassQuery::Exact(name)) if name == "Lcom/foo/Bar;")
            );
        }
        other => panic!("expected a method query, got {other:?}"),
    }
    let kind = FindKind::Field(member_args(Some(""), Some("foo.Bar"), true));
    match findrefs_args(kind).query().unwrap() {
        Query::Field(query) => {
            assert!(query.name.is_none());
            assert!(matches!(&query.class, Some(ClassQuery::Fuzzy(name)) if name == "foo/Bar"));
        }
        other => panic!("expected a field query, got {other:?}"),
    }
    let kind = FindKind::Type(ValueQuery {
        output: None,
        value: "Foo".to_owned(),
    });
    let args = findrefs_args(kind);
    assert_eq!(args.output_path(), None);
    assert!(matches!(args.query().unwrap(), Query::Type(value) if value == "Foo"));
}

#[test]
fn a_size_is_decimal_digits() {
    assert_eq!(command::parse_size("1024"), Some(1024));
    assert_eq!(command::parse_size(" \t+7\n"), Some(7));
    assert_eq!(command::parse_size("0"), Some(0));
    assert_eq!(command::parse_size(&usize::MAX.to_string()), Some(usize::MAX));
    for text in ["", " ", "+", "-1", "12k", "1 2", "++1", "99999999999999999999999"] {
        assert_eq!(command::parse_size(text), None, "{text:?}");
    }
}

#[test]
fn the_ceiling_follows_the_host() {
    let ceiling = |value| command::inflation_ceiling(value).max_inflated_entry();
    assert_eq!(ceiling(None), DEFAULT_CEILING);
    assert_eq!(ceiling(Some("4096")), 4096);
    assert_eq!(ceiling(Some("0")), DEFAULT_CEILING);
    assert_eq!(ceiling(Some("lots")), DEFAULT_CEILING);
}

#[test]
fn the_worker_count_is_the_parallelism_or_eight() {
    assert_eq!(default_threads(Some(3)), 3);
    assert_eq!(default_threads(None), 8);
    assert!(command::require_workers(1).is_ok());
    assert_eq!(
        command::require_workers(0).unwrap_err().report(),
        "worker count must be greater than zero"
    );
}

#[test]
fn a_missing_class_is_named() {
    let none = Vec::new();
    assert_eq!(command::getclass(Some("x".to_owned()), &none, "LA;").unwrap(), "x\n");
    // The member table stands in front of the source.
    let members = vec!["# a".to_owned(), "# b".to_owned()];
    assert_eq!(
        command::getclass(Some("x".to_owned()), &members, "LA;").unwrap(),
        "# a\n# b\nx\n"
    );
    assert_eq!(
        command::getclass(None, &members, "LA;").unwrap_err().report(),
        "Class LA; not found in APK."
    );
}

#[test]
fn a_plan_is_printed_where_one_input_has_it() {
    let plan = |text: &str| Some(text.to_owned());
    let verdict = |plans: Vec<Option<String>>| {
        let (payload, verdict) = command::plan_verdict(&plans);
        (payload, verdict.exit_status())
    };
    assert_eq!(verdict(vec![None, plan("{}"), None]), ("{}\n".to_owned(), 0));
    assert_eq!(verdict(vec![]), (String::new(), 3));
    assert_eq!(verdict(vec![None, None]), (String::new(), 3));
    assert_eq!(verdict(vec![plan("a"), None, plan("b")]), (String::new(), 4));
}

#[test]
fn an_index_lookup_ends_in_a_verdict() {
    let row = |line: &str| Answer::Row(line.to_owned());
    let lookup = |answers: Vec<Answer>| {
        let (payload, verdict) = command::index_lookup(&answers);
        (payload, verdict.exit_status())
    };
    let none = String::new();
    assert_eq!(lookup(vec![]), (none.clone(), 3));
    assert_eq!(lookup(vec![Answer::Undefined, Answer::Undefined]), (none.clone(), 3));
    assert_eq!(lookup(vec![Answer::Undefined, Answer::NoSuchIndex]), (none.clone(), 3));
    assert_eq!(lookup(vec![Answer::Undefined, row("a")]), ("a\n".to_owned(), 0));
    // Two inputs that define the class: every candidate is printed.
    assert_eq!(lookup(vec![row("a"), row("b")]), ("a\nb\n".to_owned(), 4));
    assert_eq!(lookup(vec![row("a"), Answer::NoSuchIndex]), ("a\n".to_owned(), 4));
    assert_eq!(lookup(vec![Answer::NoSuchIndex, Answer::NoSuchIndex]), (none, 4));
}

#[test]
fn printing_the_skill_takes_no_destination() {
    let prints = |agents: &[&str], dir: Option<&str>, print: bool| {
        command::skill_prints(&SkillArgs {
            agents: agents.iter().map(|name| (*name).to_owned()).collect(),
            dir: dir.map(str::to_owned),
            print,
        })
    };
    assert!(prints(&[], None, true).unwrap());
    assert!(!prints(&["pi"], None, false).unwrap());
    assert!(matches!(prints(&["pi"], None, true), Err(Error::PrintWithTargets)));
    assert!(matches!(prints(&[], Some("d"), true), Err(Error::PrintWithTargets)));
}

#[test]
fn no_platform_database_is_linked() {
    assert!(default_platform_symbols().unwrap().classes.is_empty());
}
