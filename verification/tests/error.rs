//! The text of each failure.
use rasc::error::{Error, RangeError, Table};

fn named(name: &str) -> String {
    name.to_owned()
}

#[test]
fn each_failure_has_its_own_text() {
    let cause = RangeError::OutOfBounds;
    for (error, text) in [
        (Error::Range { cause: RangeError::Overflow }, "range overflow"),
        (Error::Range { cause }, "range out of bounds"),
        (Error::Truncated { offset: 7 }, "unexpected end of data at 7"),
        (Error::EocdNotFound, "EOCD not found"),
        (Error::DirectoryOverflow, "central directory overflow"),
        (Error::BadDirectoryRange, "bad central directory range"),
        (
            Error::BadDirectorySignature { offset: 30 },
            "bad central directory signature at 30",
        ),
        (Error::NameOverflow, "ZIP name overflow"),
        (Error::BadNameRange { cause }, "bad ZIP name range"),
        (Error::RecordOverflow, "central directory entry overflow"),
        (Error::BadBareRange { cause }, "bad bare payload range"),
        (Error::BadLocalHeader { name: named("a") }, "bad local header for a"),
        (Error::CompressedOverflow, "compressed range overflow"),
        (Error::BadCompressedRange { cause }, "bad compressed range"),
        (
            Error::SizeMismatch { name: named("a"), expected: 3, got: 4 },
            "size mismatch for a: expected 3, got 4",
        ),
        (
            Error::InflationLimit { name: named("a"), mebibytes: 512 },
            "a inflates past the 512 MiB entry limit",
        ),
        (
            Error::IncompleteStream { name: named("a") },
            "a is not a complete deflate stream",
        ),
        (Error::NoProgress { name: named("a") }, "deflate made no progress for a"),
        (
            Error::UnsupportedCompression { name: named("a"), method: 12 },
            "unsupported compression method 12 for a",
        ),
        (Error::InvalidDexHeader, "invalid DEX header"),
        (Error::BadTable { table: Table::Protos }, "proto_ids out of range"),
        (Error::BadUleb { offset: 9 }, "bad ULEB128 at 9"),
        (
            Error::BadIndex { table: Table::Types, index: 5 },
            "type_ids index out of range: 5",
        ),
        (Error::BadStringData { index: 2 }, "bad string data for string 2"),
        (Error::BadTypeList { offset: 8 }, "bad type list at 8"),
        (
            Error::MemberIndexOverflow { table: Table::Fields },
            "field index overflow in class_data",
        ),
        (
            Error::MemberRowOverflow { table: Table::Methods },
            "method_ids row offset overflow",
        ),
        (
            Error::ForeignMember { table: Table::Methods, class_type: 1, index: 2, owner: 3 },
            "class_data of type 1 references method_ids[2] of type 3",
        ),
        (Error::BadContainer { offset: 120 }, "bad DEX container member at 120"),
        (Error::EntryNotFound { name: named("a") }, "a not found in APK"),
        (Error::NoWorkers, "worker count must be greater than zero"),
        (Error::EmptyClassName, "Class name cannot be empty"),
        (
            Error::EmptyMemberQuery { table: Table::Fields },
            "field query needs at least one of class or field name",
        ),
        (
            Error::ClassNotFound { descriptor: named("LA;") },
            "Class LA; not found in APK.",
        ),
        (
            Error::ClassNotDefined { descriptor: named("LA;") },
            "LA; is not defined in the supplied code inputs",
        ),
        (
            Error::UnknownAgent { name: named("x"), claude: named("y") },
            "unknown agent `x` (want pi, codex, y, agents or all)",
        ),
        (
            Error::AgentsWithDirectory,
            "AGENT and --dir are mutually exclusive; --dir already names one destination",
        ),
        (
            Error::NoHomeDirectory,
            "cannot determine the home directory (HOME is unset); use --dir",
        ),
        (
            Error::PrintWithTargets,
            "--print writes the skill to stdout; drop AGENT and --dir",
        ),
    ] {
        assert_eq!(error.message(), text);
    }
}

#[test]
fn a_report_names_the_cause() {
    let cause = RangeError::OutOfBounds;
    assert_eq!(
        Error::BadCompressedRange { cause }.report(),
        "bad compressed range: range out of bounds"
    );
    assert_eq!(
        Error::BadNameRange { cause: RangeError::Overflow }.report(),
        "bad ZIP name range: range overflow"
    );
    assert_eq!(
        Error::BadBareRange { cause }.report(),
        "bad bare payload range: range out of bounds"
    );
    assert_eq!(Error::EocdNotFound.report(), "EOCD not found");
}

#[test]
fn tables_go_by_their_names_in_the_format() {
    let names = [
        Table::Strings,
        Table::Types,
        Table::Protos,
        Table::Fields,
        Table::Methods,
        Table::Classes,
    ]
    .map(|table| table.name());
    assert_eq!(
        names,
        ["string_ids", "type_ids", "proto_ids", "field_ids", "method_ids", "class_defs"]
    );
    assert_eq!(Table::Fields.member_name(), "field");
    assert_eq!(Table::Methods.member_name(), "method");
}
