//! What can go wrong, and the text each failure is reported with.
use crate::text::{decimal, law_decimal_reads_back, lemma_same_rest, push_decimal, value_of};
use vstd::prelude::*;

verus! {

/// Why a byte range could not be read.
#[derive(Clone, Copy, Debug, PartialEq, Eq, Structural)]
pub enum RangeError {
    /// The end of the range is past the largest offset there is.
    Overflow,
    /// The range ends past the last byte.
    OutOfBounds,
}

/// One of the id tables of a DEX file.
#[derive(Clone, Copy, Debug, PartialEq, Eq, Structural)]
pub enum Table {
    Strings,
    Types,
    Protos,
    Fields,
    Methods,
    Classes,
}

/// The name of a table, as the file format has it.
pub open spec fn table_text(table: Table) -> Seq<char> {
    match table {
        Table::Strings => "string_ids"@,
        Table::Types => "type_ids"@,
        Table::Protos => "proto_ids"@,
        Table::Fields => "field_ids"@,
        Table::Methods => "method_ids"@,
        Table::Classes => "class_defs"@,
    }
}

impl Table {
    /// The name of this table.
    pub fn name(&self) -> (text: &'static str)
        ensures
            text@ == table_text(*self),
    {
        match self {
            Table::Strings => "string_ids",
            Table::Types => "type_ids",
            Table::Protos => "proto_ids",
            Table::Fields => "field_ids",
            Table::Methods => "method_ids",
            Table::Classes => "class_defs",
        }
    }

    /// What the rows of this table are called, of a member table.
    pub fn member_name(&self) -> (text: &'static str)
        ensures
            text@ == member_word(*self),
    {
        match self {
            Table::Fields => "field",
            _ => "method",
        }
    }
}

/// A failure of a library call.
#[allow(inconsistent_fields)]
#[derive(Debug)]
pub enum Error {
    /// A byte range that is not inside the source.
    Range { cause: RangeError },
    /// A fixed-width integer that is not inside the data.
    Truncated { offset: usize },
    /// No end-of-central-directory record.
    EocdNotFound,
    /// A central directory whose end does not fit an offset.
    DirectoryOverflow,
    /// A central directory that ends past the archive.
    BadDirectoryRange,
    /// A central directory record without its signature.
    BadDirectorySignature { offset: usize },
    /// A name whose end does not fit an offset.
    NameOverflow,
    /// A name that ends past the archive.
    BadNameRange { cause: RangeError },
    /// A central directory record whose end does not fit an offset.
    RecordOverflow,
    /// A bare file shorter than the entry it stands for.
    BadBareRange { cause: RangeError },
    /// A local header that is missing or lacks its signature.
    BadLocalHeader { name: String },
    /// A payload whose end does not fit an offset.
    CompressedOverflow,
    /// A payload that ends past the archive.
    BadCompressedRange { cause: RangeError },
    /// A stored or inflated payload of another size than the one declared.
    SizeMismatch { name: String, expected: usize, got: usize },
    /// An entry that would inflate past the ceiling.
    InflationLimit { name: String, mebibytes: usize },
    /// A deflate stream that cannot be decoded to its end.
    IncompleteStream { name: String },
    /// A deflate stream of no bytes at all.
    NoProgress { name: String },
    /// A compression method other than stored and deflate.
    UnsupportedCompression { name: String, method: u16 },
    /// A file that does not start with a DEX header.
    InvalidDexHeader,
    /// An id table that ends past the file.
    BadTable { table: Table },
    /// A variable-length number that is cut short or too large.
    BadUleb { offset: usize },
    /// An index past the end of its table.
    BadIndex { table: Table, index: usize },
    /// A string whose data is cut short.
    BadStringData { index: usize },
    /// A type list that ends past the file.
    BadTypeList { offset: usize },
    /// Index deltas whose sum does not fit an index.
    MemberIndexOverflow { table: Table },
    /// A row whose offset does not fit one.
    MemberRowOverflow { table: Table },
    /// A member that belongs to another class than the one that lists it.
    ForeignMember { table: Table, class_type: usize, index: u32, owner: usize },
    /// A container member that is cut short or is none.
    BadContainer { offset: usize },
    /// A name that no entry carries.
    EntryNotFound { name: String },
    /// A walk without a single worker.
    NoWorkers,
    /// A class name without a single character.
    EmptyClassName,
    /// A member query with neither a name nor a class.
    EmptyMemberQuery { table: Table },
    /// A class that no DEX of the archive defines.
    ClassNotFound { descriptor: String },
    /// A class that none of the code inputs defines.
    ClassNotDefined { descriptor: String },
    /// An agent that there is no skills directory for, and the name of the agent that the host
    /// states.
    UnknownAgent { name: String, claude: String },
    /// Agents together with a directory.
    AgentsWithDirectory,
    /// A home directory that is nowhere stated.
    NoHomeDirectory,
    /// A print together with agents or a directory.
    PrintWithTargets,
}

/// The text of a range failure.
pub open spec fn range_text(cause: RangeError) -> Seq<char> {
    match cause {
        RangeError::Overflow => "range overflow"@,
        RangeError::OutOfBounds => "range out of bounds"@,
    }
}

/// The text of a failure, without what caused it.
pub open spec fn message_text(error: Error) -> Seq<char> {
    match error {
        Error::Range { cause } => range_text(cause),
        Error::Truncated { offset } => "unexpected end of data at "@ + decimal(offset as nat),
        Error::EocdNotFound => "EOCD not found"@,
        Error::DirectoryOverflow => "central directory overflow"@,
        Error::BadDirectoryRange => "bad central directory range"@,
        Error::BadDirectorySignature { offset } => "bad central directory signature at "@
            + decimal(offset as nat),
        Error::NameOverflow => "ZIP name overflow"@,
        Error::BadNameRange { cause } => "bad ZIP name range"@,
        Error::RecordOverflow => "central directory entry overflow"@,
        Error::BadBareRange { cause } => "bad bare payload range"@,
        Error::BadLocalHeader { name } => "bad local header for "@ + name@,
        Error::CompressedOverflow => "compressed range overflow"@,
        Error::BadCompressedRange { cause } => "bad compressed range"@,
        Error::SizeMismatch { name, expected, got } => "size mismatch for "@ + name@
            + ": expected "@ + decimal(expected as nat) + ", got "@ + decimal(got as nat),
        Error::InflationLimit { name, mebibytes } => name@ + " inflates past the "@
            + decimal(mebibytes as nat) + " MiB entry limit"@,
        Error::IncompleteStream { name } => name@ + " is not a complete deflate stream"@,
        Error::NoProgress { name } => "deflate made no progress for "@ + name@,
        Error::UnsupportedCompression { name, method } => "unsupported compression method "@
            + decimal(method as nat) + " for "@ + name@,
        Error::InvalidDexHeader => "invalid DEX header"@,
        Error::BadTable { table } => table_text(table) + " out of range"@,
        Error::BadUleb { offset } => "bad ULEB128 at "@ + decimal(offset as nat),
        Error::BadIndex { table, index } => table_text(table) + " index out of range: "@ + decimal(
            index as nat,
        ),
        Error::BadStringData { index } => "bad string data for string "@ + decimal(index as nat),
        Error::BadTypeList { offset } => "bad type list at "@ + decimal(offset as nat),
        Error::MemberIndexOverflow { table } => member_word(table) + " index overflow in class_data"@,
        Error::MemberRowOverflow { table } => table_text(table) + " row offset overflow"@,
        Error::ForeignMember { table, class_type, index, owner } => "class_data of type "@ + decimal(
            class_type as nat,
        ) + " references "@ + table_text(table) + "["@ + decimal(index as nat) + "] of type "@
            + decimal(owner as nat),
        Error::BadContainer { offset } => "bad DEX container member at "@ + decimal(offset as nat),
        Error::EntryNotFound { name } => name@ + " not found in APK"@,
        Error::NoWorkers => "worker count must be greater than zero"@,
        Error::EmptyClassName => "Class name cannot be empty"@,
        Error::EmptyMemberQuery { table } => member_word(table)
            + " query needs at least one of class or "@ + member_word(table) + " name"@,
        Error::ClassNotFound { descriptor } => "Class "@ + descriptor@ + " not found in APK."@,
        Error::ClassNotDefined { descriptor } => descriptor@
            + " is not defined in the supplied code inputs"@,
        Error::UnknownAgent { name, claude } => "unknown agent `"@ + name@ + "` (want pi, codex, "@
            + claude@ + ", agents or all)"@,
        Error::AgentsWithDirectory =>
            "AGENT and --dir are mutually exclusive; --dir already names one destination"@,
        Error::NoHomeDirectory =>
            "cannot determine the home directory (HOME is unset); use --dir"@,
        Error::PrintWithTargets =>
            "--print writes the skill to stdout; drop AGENT and --dir"@,
    }
}

/// What the rows of a member table are called.
pub open spec fn member_word(table: Table) -> Seq<char> {
    match table {
        Table::Fields => "field"@,
        _ => "method"@,
    }
}

/// What caused a failure, where the failure says more than its cause.
pub open spec fn error_cause(error: Error) -> Option<RangeError> {
    match error {
        Error::BadNameRange { cause } => Some(cause),
        Error::BadBareRange { cause } => Some(cause),
        Error::BadCompressedRange { cause } => Some(cause),
        _ => None,
    }
}

/// The text of a failure, and of its cause where there is one.
pub open spec fn report_text(error: Error) -> Seq<char> {
    match error_cause(error) {
        Some(cause) => message_text(error) + ": "@ + range_text(cause),
        None => message_text(error),
    }
}

fn two(first: &str, second: &str) -> (text: String)
    ensures
        text@ == first@ + second@,
{
    let mut text = String::new();
    text.push_str(first);
    text.push_str(second);
    assert(Seq::<char>::empty() + first@ =~= first@);
    text
}

fn numbered(first: &str, number: u64) -> (text: String)
    ensures
        text@ == first@ + decimal(number as nat),
{
    let mut text = String::new();
    text.push_str(first);
    push_decimal(&mut text, number);
    assert(Seq::<char>::empty() + first@ =~= first@);
    text
}

impl RangeError {
    /// The text of this failure.
    pub fn message(&self) -> (text: String)
        ensures
            text@ == range_text(*self),
    {
        match self {
            RangeError::Overflow => "range overflow".to_owned(),
            RangeError::OutOfBounds => "range out of bounds".to_owned(),
        }
    }
}

impl Error {
    /// The text of this failure, without what caused it.
    pub fn message(&self) -> (text: String)
        ensures
            text@ == message_text(*self),
    {
        match self {
            Error::Range { cause } => cause.message(),
            Error::Truncated { offset } => numbered("unexpected end of data at ", *offset as u64),
            Error::EocdNotFound => "EOCD not found".to_owned(),
            Error::DirectoryOverflow => "central directory overflow".to_owned(),
            Error::BadDirectoryRange => "bad central directory range".to_owned(),
            Error::BadDirectorySignature { offset } => numbered(
                "bad central directory signature at ",
                *offset as u64,
            ),
            Error::NameOverflow => "ZIP name overflow".to_owned(),
            Error::BadNameRange { cause } => "bad ZIP name range".to_owned(),
            Error::RecordOverflow => "central directory entry overflow".to_owned(),
            Error::BadBareRange { cause } => "bad bare payload range".to_owned(),
            Error::BadLocalHeader { name } => two("bad local header for ", name.as_str()),
            Error::CompressedOverflow => "compressed range overflow".to_owned(),
            Error::BadCompressedRange { cause } => "bad compressed range".to_owned(),
            Error::SizeMismatch { name, expected, got } => {
                let mut text = two("size mismatch for ", name.as_str());
                text.push_str(": expected ");
                push_decimal(&mut text, *expected as u64);
                text.push_str(", got ");
                push_decimal(&mut text, *got as u64);
                text
            },
            Error::InflationLimit { name, mebibytes } => {
                let mut text = two(name.as_str(), " inflates past the ");
                push_decimal(&mut text, *mebibytes as u64);
                text.push_str(" MiB entry limit");
                text
            },
            Error::IncompleteStream { name } => two(
                name.as_str(),
                " is not a complete deflate stream",
            ),
            Error::NoProgress { name } => two("deflate made no progress for ", name.as_str()),
            Error::UnsupportedCompression { name, method } => {
                let mut text = numbered("unsupported compression method ", *method as u64);
                text.push_str(" for ");
                text.push_str(name.as_str());
                text
            },
            Error::InvalidDexHeader => "invalid DEX header".to_owned(),
            Error::BadTable { table } => two(table.name(), " out of range"),
            Error::BadUleb { offset } => numbered("bad ULEB128 at ", *offset as u64),
            Error::BadIndex { table, index } => {
                let mut text = two(table.name(), " index out of range: ");
                push_decimal(&mut text, *index as u64);
                text
            },
            Error::BadStringData { index } => numbered(
                "bad string data for string ",
                *index as u64,
            ),
            Error::BadTypeList { offset } => numbered("bad type list at ", *offset as u64),
            Error::MemberIndexOverflow { table } => two(
                table.member_name(),
                " index overflow in class_data",
            ),
            Error::MemberRowOverflow { table } => two(table.name(), " row offset overflow"),
            Error::ForeignMember { table, class_type, index, owner } => {
                let mut text = numbered("class_data of type ", *class_type as u64);
                text.push_str(" references ");
                text.push_str(table.name());
                text.push_str("[");
                push_decimal(&mut text, *index as u64);
                text.push_str("] of type ");
                push_decimal(&mut text, *owner as u64);
                text
            },
            Error::BadContainer { offset } => numbered(
                "bad DEX container member at ",
                *offset as u64,
            ),
            Error::EntryNotFound { name } => two(name.as_str(), " not found in APK"),
            Error::NoWorkers => "worker count must be greater than zero".to_owned(),
            Error::EmptyClassName => "Class name cannot be empty".to_owned(),
            Error::EmptyMemberQuery { table } => {
                let word = table.member_name();
                let mut text = two(word, " query needs at least one of class or ");
                text.push_str(word);
                text.push_str(" name");
                text
            },
            Error::ClassNotFound { descriptor } => {
                let mut text = two("Class ", descriptor.as_str());
                text.push_str(" not found in APK.");
                text
            },
            Error::ClassNotDefined { descriptor } => two(
                descriptor.as_str(),
                " is not defined in the supplied code inputs",
            ),
            Error::UnknownAgent { name, claude } => {
                let mut text = two("unknown agent `", name.as_str());
                text.push_str("` (want pi, codex, ");
                text.push_str(claude.as_str());
                text.push_str(", agents or all)");
                text
            },
            Error::AgentsWithDirectory =>
                "AGENT and --dir are mutually exclusive; --dir already names one destination".to_owned(),
            Error::NoHomeDirectory =>
                "cannot determine the home directory (HOME is unset); use --dir".to_owned(),
            Error::PrintWithTargets =>
                "--print writes the skill to stdout; drop AGENT and --dir".to_owned(),
        }
    }

    /// The whole report: the text, and the text of the cause where there is one.
    pub fn report(&self) -> (text: String)
        ensures
            text@ == report_text(*self),
    {
        let cause: RangeError = match self {
            Error::BadNameRange { cause } => *cause,
            Error::BadBareRange { cause } => *cause,
            Error::BadCompressedRange { cause } => *cause,
            _ => {
                return self.message();
            },
        };
        let mut text = self.message();
        text.push_str(": ");
        text.push_str(cause.message().as_str());
        text
    }
}

/// The number at the end of a message is the one that the failure has.
pub proof fn law_messages_state_their_numbers(number: usize, digits: Seq<char>)
    ensures
        message_text(Error::Truncated { offset: number }) == "unexpected end of data at "@ + digits
            ==> value_of(digits, 10) == number,
        message_text(Error::BadDirectorySignature { offset: number })
            == "bad central directory signature at "@ + digits ==> value_of(digits, 10) == number,
        message_text(Error::BadUleb { offset: number }) == "bad ULEB128 at "@ + digits ==> value_of(
            digits,
            10,
        ) == number,
        message_text(Error::BadStringData { index: number }) == "bad string data for string "@ + digits
            ==> value_of(digits, 10) == number,
        message_text(Error::BadTypeList { offset: number }) == "bad type list at "@ + digits
            ==> value_of(digits, 10) == number,
        message_text(Error::BadContainer { offset: number }) == "bad DEX container member at "@
            + digits ==> value_of(digits, 10) == number,
{
    let own = decimal(number as nat);
    law_decimal_reads_back(number as nat);
    if message_text(Error::Truncated { offset: number }) == "unexpected end of data at "@ + digits {
        lemma_same_rest("unexpected end of data at "@, own, digits);
    }
    if message_text(Error::BadDirectorySignature { offset: number })
        == "bad central directory signature at "@ + digits {
        lemma_same_rest("bad central directory signature at "@, own, digits);
    }
    if message_text(Error::BadUleb { offset: number }) == "bad ULEB128 at "@ + digits {
        lemma_same_rest("bad ULEB128 at "@, own, digits);
    }
    if message_text(Error::BadStringData { index: number }) == "bad string data for string "@ + digits {
        lemma_same_rest("bad string data for string "@, own, digits);
    }
    if message_text(Error::BadTypeList { offset: number }) == "bad type list at "@ + digits {
        lemma_same_rest("bad type list at "@, own, digits);
    }
    if message_text(Error::BadContainer { offset: number }) == "bad DEX container member at "@ + digits {
        lemma_same_rest("bad DEX container member at "@, own, digits);
    }
}

/// A failure with a cause is reported as itself and its cause behind a colon; any other as itself.
pub proof fn law_reports_add_the_cause(cause: RangeError, error: Error)
    ensures
        report_text(Error::BadNameRange { cause }) == message_text(Error::BadNameRange { cause })
            + ": "@ + message_text(Error::Range { cause }),
        report_text(Error::BadBareRange { cause }) == message_text(Error::BadBareRange { cause })
            + ": "@ + message_text(Error::Range { cause }),
        report_text(Error::BadCompressedRange { cause }) == message_text(
            Error::BadCompressedRange { cause },
        ) + ": "@ + message_text(Error::Range { cause }),
        !(error is BadNameRange) && !(error is BadBareRange) && !(error is BadCompressedRange)
            ==> report_text(error) == message_text(error),
{
}

} // verus!
