//! What a small file references, and what its classes declare.
use rasc::dex::container::{checksum, logical_dexes, standard_header_view};
use rasc::dex::index::{field_by_index, method_by_index, Answer};
use rasc::dex::members::{class_members, field_plan, member_lines};
use rasc::dex::scan::find_references;
use rasc::dex::Dex;
use rasc::error::{Error, Table};
use rasc::query::{ClassQuery, MemberQuery, Query};

/// Writes a little-endian number over four bytes.
fn put(data: &mut [u8], offset: usize, value: usize) {
    data[offset..offset + 4].copy_from_slice(&(value as u32).to_le_bytes());
}

/// A DEX file of a class `LCaller;` whose method `call` loads the string "Authorization", makes a
/// `LTarget;`, calls its method `run`, and reads its field `count`. `LCaller;` has an instance
/// field `own` and a static field `count` too.
fn small_dex() -> Vec<u8> {
    let strings = [
        "Authorization", "I", "LCaller;", "LTarget;", "V", "call", "count", "own", "run",
    ];
    let string_ids = 0x70;
    let type_ids = string_ids + 4 * strings.len();
    let proto_ids = type_ids + 4 * 4;
    let field_ids = proto_ids + 12;
    let method_ids = field_ids + 8 * 3;
    let class_defs = method_ids + 8 * 2;
    let mut data = vec![0u8; class_defs + 32];
    for (i, string) in strings.iter().enumerate() {
        let at = data.len();
        put(&mut data, string_ids + 4 * i, at);
        data.push(string.len() as u8);
        data.extend_from_slice(string.as_bytes());
        data.push(0);
    }
    while data.len() % 4 != 0 {
        data.push(0);
    }
    let code = data.len();
    data.extend_from_slice(&[1, 0, 0, 0, 0, 0, 0, 0, 0, 0, 0, 0, 10, 0, 0, 0]);
    data.extend_from_slice(&[0x1A, 0, 0, 0]);
    data.extend_from_slice(&[0x22, 0, 2, 0]);
    data.extend_from_slice(&[0x71, 0, 1, 0, 0, 0]);
    data.extend_from_slice(&[0x60, 0, 2, 0]);
    data.extend_from_slice(&[0x0E, 0]);
    while data.len() % 4 != 0 {
        data.push(0);
    }
    let class_data = data.len();
    data.extend_from_slice(&[1, 1, 1, 0]);
    // A static field `count`, then an instance field `own`.
    data.extend_from_slice(&[0, 9]);
    data.extend_from_slice(&[1, 2]);
    assert!((0x80..0x4000).contains(&code));
    data.extend_from_slice(&[0, 0x89, 0x80, 0x04]);
    data.extend_from_slice(&[(code % 128) as u8 + 128, (code / 128) as u8]);
    data[..8].copy_from_slice(b"dex\n039\0");
    let size = data.len();
    put(&mut data, 0x20, size);
    put(&mut data, 0x24, 0x70);
    put(&mut data, 0x28, 0x1234_5678);
    for (slot, count, at) in [
        (0x38, strings.len(), string_ids),
        (0x40, 4, type_ids),
        (0x48, 1, proto_ids),
        (0x50, 3, field_ids),
        (0x58, 2, method_ids),
        (0x60, 1, class_defs),
    ] {
        put(&mut data, slot, count);
        put(&mut data, slot + 4, at);
    }
    for i in 0..4 {
        put(&mut data, type_ids + 4 * i, i + 1);
    }
    put(&mut data, proto_ids, 4);
    put(&mut data, proto_ids + 4, 3);
    for (i, (class, name)) in [(1, 6), (1, 7), (2, 6)].into_iter().enumerate() {
        data[field_ids + 8 * i] = class;
        put(&mut data, field_ids + 8 * i + 4, name);
    }
    for (i, (class, name)) in [(1, 5), (2, 8)].into_iter().enumerate() {
        data[method_ids + 8 * i] = class;
        put(&mut data, method_ids + 8 * i + 4, name);
    }
    put(&mut data, class_defs, 1);
    put(&mut data, class_defs + 16, 0xFFFF_FFFF);
    put(&mut data, class_defs + 24, class_data);
    data
}

/// The rows that a query finds, as pairs of texts.
fn found(query: Query) -> Vec<(String, String)> {
    find_references(&small_dex(), &query)
        .unwrap()
        .into_iter()
        .map(|row| (row.member, row.matched))
        .collect()
}

/// The one row of the method `call` with the given targets.
fn call(matched: &str) -> Vec<(String, String)> {
    vec![("LCaller;->call".to_owned(), matched.to_owned())]
}

/// A member query of a name and a class.
fn member(name: Option<&str>, class: Option<ClassQuery>) -> MemberQuery {
    MemberQuery {
        name: name.map(str::to_owned),
        class,
    }
}

#[test]
fn each_kind_of_query_finds_its_own_references() {
    assert_eq!(found(Query::String("Author".to_owned())), call("Authorization"));
    assert_eq!(found(Query::Type("Target".to_owned())), call("LTarget;"));
    assert_eq!(
        found(Query::Method(member(Some("run"), None))),
        call("LTarget;->run")
    );
    assert_eq!(
        found(Query::Field(member(Some("count"), None))),
        call("LTarget;->count")
    );
    // A string that is only a name is not loaded anywhere.
    assert_eq!(found(Query::String("count".to_owned())), vec![]);
    assert_eq!(found(Query::String("missing".to_owned())), vec![]);
}

#[test]
fn a_class_narrows_a_member_query() {
    let exact = |name: &str| Some(ClassQuery::Exact(name.to_owned()));
    let fuzzy = |name: &str| Some(ClassQuery::Fuzzy(name.to_owned()));
    assert_eq!(
        found(Query::Field(member(Some("count"), exact("LTarget;")))),
        call("LTarget;->count")
    );
    assert_eq!(found(Query::Field(member(Some("count"), exact("LCaller;")))), vec![]);
    assert_eq!(found(Query::Field(member(Some("count"), exact("LTarget")))), vec![]);
    assert_eq!(
        found(Query::Field(member(None, fuzzy("Targ")))),
        call("LTarget;->count")
    );
    assert_eq!(
        found(Query::Method(member(None, exact("LTarget;")))),
        call("LTarget;->run")
    );
    assert_eq!(found(Query::Method(member(Some("ru"), None))), vec![]);
}

#[test]
fn targets_are_listed_in_the_order_of_their_first_reference() {
    let data = small_dex();
    let dex = Dex::parse(&data).unwrap();
    let (_, targets) = dex.resolve_targets(&Query::Type("L".to_owned())).unwrap();
    assert_eq!(targets, vec![1, 2]);
    assert_eq!(dex.show_member(Table::Fields, 1).unwrap(), "LCaller;->own");
    assert!(matches!(
        dex.show_member(Table::Methods, 2),
        Err(Error::BadIndex {
            table: Table::Methods,
            index: 2
        })
    ));
}

#[test]
fn the_member_table_has_a_line_for_each_member() {
    let data = small_dex();
    assert_eq!(
        member_lines(&data, "LCaller;").unwrap().unwrap(),
        vec![
            "# members fields: field_ids=1 slot=0 static=false flags=0x2 type=I name=own",
            "# members fields: field_ids=0 slot=1 static=true flags=0x9 type=I name=count",
            "# members methods: method_ids=0 proto=()V flags=0x10009 name=call",
        ]
    );
    assert!(member_lines(&data, "LTarget;").unwrap().is_none());
    let members = class_members(&data, "LCaller;").unwrap().unwrap();
    assert_eq!(members.field_at_position(0).unwrap().0.name, "own");
    assert!(members.field_at_position(1).unwrap().1);
    assert!(members.field_at_position(2).is_none());
    assert_eq!(members.method(0).unwrap().name, "call");
    assert!(members.method(1).is_none());
    assert_eq!(
        field_plan(&data, "LCaller;").unwrap().unwrap().render_json(),
        members.field_plan().render_json()
    );
}

#[test]
fn an_index_names_the_member_behind_it() {
    let data = small_dex();
    let field = |descriptor: &str, index: u32| field_by_index(&data, descriptor, index).unwrap();
    let lines = member_lines(&data, "LCaller;").unwrap().unwrap();
    assert_eq!(field("LCaller;", 0), Answer::Row(lines[0].clone()));
    assert_eq!(field("LCaller;", 1), Answer::Row(lines[1].clone()));
    assert_eq!(field("LCaller;", 2), Answer::NoSuchIndex);
    assert_eq!(field("LTarget;", 0), Answer::Undefined);
    let method = |descriptor: &str, index: u32| method_by_index(&data, descriptor, index).unwrap();
    assert_eq!(method("LCaller;", 0), Answer::Row(lines[2].clone()));
    // The method with the next index belongs to another class.
    assert_eq!(method("LCaller;", 1), Answer::NoSuchIndex);
    assert_eq!(method("LTarget;", 1), Answer::Undefined);
    assert!(matches!(
        field_by_index(b"", "LCaller;", 0),
        Err(Error::InvalidDexHeader)
    ));
}

#[test]
fn a_member_of_another_class_is_refused() {
    // The first field of the class data belongs to `LTarget;` once its row says so.
    let mut data = small_dex();
    let mut word = [0; 4];
    word.copy_from_slice(&data[0x54..0x58]);
    let row = u32::from_le_bytes(word) as usize;
    data[row] = 2;
    assert_eq!(
        class_members(&data, "LCaller;").unwrap_err().report(),
        "class_data of type 1 references field_ids[0] of type 2"
    );
}

#[test]
fn the_checksum_is_adler_32() {
    assert_eq!(checksum(b"", 0), 1);
    assert_eq!(checksum(b"Wikipedia", 0), 0x11E6_0398);
    assert_eq!(checksum(b"xyzWikipedia", 3), 0x11E6_0398);
    // Enough bytes for both sums to wrap.
    assert_eq!(checksum(&[0xFF; 1000], 0), {
        let (mut a, mut b) = (1u32, 0u32);
        for _ in 0..1000 {
            a = (a + 255) % 65521;
            b = (b + a) % 65521;
        }
        b * 65536 + a
    });
}

/// A container of members of the given sizes, all of them empty but for their headers.
fn container(sizes: &[usize]) -> Vec<u8> {
    let mut data = Vec::new();
    for &size in sizes {
        let at = data.len();
        data.resize(at + size, 0);
        data[at..at + 8].copy_from_slice(b"dex\n041\0");
        put(&mut data, at + 0x20, size);
        put(&mut data, at + 0x74, at);
    }
    let size = data.len();
    let mut at = 0;
    for &member in sizes {
        put(&mut data, at + 0x70, size);
        at += member;
    }
    data
}

#[test]
fn a_container_is_one_file_per_member() {
    let data = container(&[0x78, 0x80]);
    let list = logical_dexes("classes.dex", &data).unwrap();
    let names: Vec<&str> = list.iter().map(|logical| logical.name.as_str()).collect();
    assert_eq!(names, ["classes.dex!classes1.dex", "classes.dex!classes2.dex"]);
    assert_eq!(list[0].data, data);
    // The second member reads its own header in front of the whole container.
    assert_eq!(list[1].data.len(), data.len());
    assert_eq!(list[1].data[..0x78], data[0x78..0xF0]);
    assert_eq!(list[1].data[0x78..], data[0x78..]);
    // A container of one member goes by the name of its entry, and so does a plain file.
    let one = container(&[0x78]);
    assert_eq!(logical_dexes("a.dex", &one).unwrap()[0].name, "a.dex");
    let plain = small_dex();
    let list = logical_dexes("b.dex", &plain).unwrap();
    assert_eq!(list.len(), 1);
    assert_eq!(list[0].name, "b.dex");
    assert_eq!(list[0].data, plain);
}

#[test]
fn a_broken_container_is_refused() {
    let offset = |data: &[u8]| match logical_dexes("a.dex", data) {
        Err(Error::BadContainer { offset }) => offset,
        other => panic!("expected a refusal, got {other:?}"),
    };
    let good = container(&[0x78, 0x80]);
    assert_eq!(offset(&good[..0x70]), 0);
    let mut data = good.clone();
    put(&mut data, 0x70, good.len() + 1);
    assert_eq!(offset(&data), 0);
    let mut data = good.clone();
    put(&mut data, 0x20, 0x70);
    assert_eq!(offset(&data), 0);
    let mut data = good.clone();
    data[0x78] = b'D';
    assert_eq!(offset(&data), 0x78);
}

#[test]
fn a_container_member_has_a_standard_view() {
    let data = container(&[0x78]);
    let view = standard_header_view(&data).unwrap();
    assert_eq!(&view[..8], b"dex\n039\0");
    assert_eq!(&view[0x20..0x28], &[0x78, 0, 0, 0, 0x70, 0, 0, 0]);
    assert_eq!(view[8..12], checksum(&view, 12).to_le_bytes());
    assert_eq!(view[12..0x20], data[12..0x20]);
    assert_eq!(view[0x28..], data[0x28..]);
    assert!(standard_header_view(&small_dex()).is_none());
    assert!(standard_header_view(&data[..0x70]).is_none());
}
