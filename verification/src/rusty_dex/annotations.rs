//! The annotations of a class, as far as they say how it is nested.
//!
//! The compiler records the generic signature of a class, the classes inside it and the class or
//! method around it as system annotations. Only those are decoded; every other annotation is
//! skipped, value by value.
use super::classes::{tables_of, Tables};
use super::error::DexError;
use super::fields::DexFields;
use super::methods::DexMethods;
use super::protos::DexProtos;
use super::reader::{word_at, DexReader};
use super::strings::{string_units, DexStrings};
use super::types::{descriptor_of, text_at, DexTypes};
use crate::bytes::{law_word_reads_back, written32};
use crate::dex::{law_uleb_reads_back, lemma_uleb_moves, uleb_at, written_uleb};
use crate::seqs::{joined, lemma_both_occur, occurs_at};
use crate::text::same_text;
use vstd::prelude::*;

verus! {

/// How a class inside another is declared there.
#[derive(Debug, PartialEq, Eq)]
pub struct InnerClass {
    /// Its simple name; an anonymous class has none.
    pub name: Option<String>,
    pub access_flags: u32,
}

/// How a class is nested, as its annotations state it.
#[derive(Debug, PartialEq, Eq)]
pub struct ClassNestedMetadata {
    /// The generic signature.
    pub signature: Option<String>,
    pub inner_class: Option<InnerClass>,
    /// The types of the classes inside this one.
    pub member_classes: Vec<u32>,
    /// The type of the class around this one.
    pub enclosing_class: Option<u32>,
    /// The method around this class.
    pub enclosing_method: Option<u32>,
}

/// How a class inside another is declared, with its name as characters.
#[verifier::ext_equal]
pub struct InnerView {
    pub name: Option<Seq<char>>,
    pub access_flags: u32,
}

/// How a class is nested, with its texts as characters.
#[verifier::ext_equal]
pub struct NestedView {
    pub signature: Option<Seq<char>>,
    pub inner_class: Option<InnerView>,
    pub member_classes: Seq<u32>,
    pub enclosing_class: Option<u32>,
    pub enclosing_method: Option<u32>,
}

/// An owned text that may be absent, as characters.
pub open spec fn owned_text(text: Option<String>) -> Option<Seq<char>> {
    match text {
        Some(text) => Some(text@),
        None => None,
    }
}

impl View for InnerClass {
    type V = InnerView;

    open spec fn view(&self) -> InnerView {
        InnerView { name: owned_text(self.name), access_flags: self.access_flags }
    }
}

impl View for ClassNestedMetadata {
    type V = NestedView;

    open spec fn view(&self) -> NestedView {
        NestedView {
            signature: owned_text(self.signature),
            inner_class: match self.inner_class {
                Some(inner) => Some(inner@),
                None => None,
            },
            member_classes: self.member_classes@,
            enclosing_class: self.enclosing_class,
            enclosing_method: self.enclosing_method,
        }
    }
}

/// What is known of a class without annotations.
pub open spec fn not_nested() -> NestedView {
    NestedView {
        signature: None,
        inner_class: None,
        member_classes: Seq::empty(),
        enclosing_class: None,
        enclosing_method: None,
    }
}

impl Default for ClassNestedMetadata {
    fn default() -> (metadata: Self)
        ensures
            metadata@ == not_nested(),
    {
        ClassNestedMetadata {
            signature: None,
            inner_class: None,
            member_classes: Vec::new(),
            enclosing_class: None,
            enclosing_method: None,
        }
    }
}

/// The system annotations that say how a class is nested.
#[derive(Clone, Copy, Debug, PartialEq, Eq, Structural)]
pub enum AnnotationKind {
    Signature,
    InnerClass,
    MemberClasses,
    EnclosingClass,
    EnclosingMethod,
    Other,
}

/// Which annotation the one of the given type is.
pub open spec fn kind_of(descriptor: Seq<char>) -> AnnotationKind {
    if descriptor == "Ldalvik/annotation/Signature;"@ {
        AnnotationKind::Signature
    } else if descriptor == "Ldalvik/annotation/InnerClass;"@ {
        AnnotationKind::InnerClass
    } else if descriptor == "Ldalvik/annotation/MemberClasses;"@ {
        AnnotationKind::MemberClasses
    } else if descriptor == "Ldalvik/annotation/EnclosingClass;"@ {
        AnnotationKind::EnclosingClass
    } else if descriptor == "Ldalvik/annotation/EnclosingMethod;"@ {
        AnnotationKind::EnclosingMethod
    } else {
        AnnotationKind::Other
    }
}

fn annotation_kind(descriptor: &str) -> (kind: AnnotationKind)
    ensures
        kind == kind_of(descriptor@),
{
    if same_text(descriptor, "Ldalvik/annotation/Signature;") {
        AnnotationKind::Signature
    } else if same_text(descriptor, "Ldalvik/annotation/InnerClass;") {
        AnnotationKind::InnerClass
    } else if same_text(descriptor, "Ldalvik/annotation/MemberClasses;") {
        AnnotationKind::MemberClasses
    } else if same_text(descriptor, "Ldalvik/annotation/EnclosingClass;") {
        AnnotationKind::EnclosingClass
    } else if same_text(descriptor, "Ldalvik/annotation/EnclosingMethod;") {
        AnnotationKind::EnclosingMethod
    } else {
        AnnotationKind::Other
    }
}

/// The type of an encoded 32-bit number.
pub const VALUE_INT: u8 = 0x04;

/// The type of an encoded string.
pub const VALUE_STRING: u8 = 0x17;

/// The type of an encoded class.
pub const VALUE_TYPE: u8 = 0x18;

/// The type of an encoded method.
pub const VALUE_METHOD: u8 = 0x1a;

/// The type of a list of values.
pub const VALUE_ARRAY: u8 = 0x1c;

/// The type of an annotation inside another.
pub const VALUE_ANNOTATION: u8 = 0x1d;

/// The type of no value at all.
pub const VALUE_NULL: u8 = 0x1e;

/// The type of an encoded truth value.
pub const VALUE_BOOLEAN: u8 = 0x1f;

/// Whether values of the given type are a row of bytes behind their head.
pub open spec fn is_plain(value_type: int) -> bool {
    ||| value_type == 0x00
    ||| value_type == 0x02
    ||| value_type == 0x03
    ||| value_type == VALUE_INT
    ||| value_type == 0x06
    ||| value_type == 0x10
    ||| value_type == 0x11
    ||| 0x15 <= value_type <= 0x1b
}

/// How many bytes can follow `at`.
pub open spec fn left_of(data: Seq<u8>, at: int) -> int {
    if at < data.len() {
        data.len() - at
    } else {
        0
    }
}

/// Where the encoded value at `at` ends.
pub open spec fn value_end(data: Seq<u8>, at: int) -> Result<int, DexError>
    decreases left_of(data, at), 0int,
{
    if at < 0 || at >= data.len() {
        Err(DexError::UnexpectedEnd)
    } else {
        let value_type = data[at] % 32;
        if value_type == VALUE_NULL || value_type == VALUE_BOOLEAN {
            Ok(at + 1)
        } else if is_plain(value_type as int) {
            if at + 2 + data[at] / 32 > data.len() {
                Err(DexError::UnexpectedEnd)
            } else {
                Ok(at + 2 + data[at] / 32)
            }
        } else if value_type == VALUE_ARRAY {
            proof {
                lemma_uleb_moves(data, at + 1, 0);
            }
            match uleb_at(data, at + 1) {
                None => Err(DexError::InvalidUleb128),
                Some(count) => values_end(data, count.1, count.0),
            }
        } else if value_type == VALUE_ANNOTATION {
            proof {
                lemma_uleb_moves(data, at + 1, 0);
            }
            match uleb_at(data, at + 1) {
                None => Err(DexError::InvalidUleb128),
                Some(annotation) => {
                    proof {
                        lemma_uleb_moves(data, annotation.1, 0);
                    }
                    match uleb_at(data, annotation.1) {
                        None => Err(DexError::InvalidUleb128),
                        Some(count) => elements_end(data, count.1, count.0),
                    }
                },
            }
        } else {
            Err(DexError::InvalidEncodedValue)
        }
    }
}

/// Where the next `count` values from `at` on end.
pub open spec fn values_end(data: Seq<u8>, at: int, count: int) -> Result<int, DexError>
    decreases left_of(data, at), 1int,
{
    if count <= 0 {
        Ok(at)
    } else {
        match value_end(data, at) {
            Err(error) => Err(error),
            Ok(end) => if at < end <= data.len() {
                values_end(data, end, count - 1)
            } else {
                Err(DexError::UnexpectedEnd)
            },
        }
    }
}

/// Where the next `count` elements of an annotation from `at` on end.
pub open spec fn elements_end(data: Seq<u8>, at: int, count: int) -> Result<int, DexError>
    decreases left_of(data, at), 1int,
{
    if count <= 0 {
        Ok(at)
    } else {
        proof {
            lemma_uleb_moves(data, at, 0);
        }
        match uleb_at(data, at) {
            None => Err(DexError::InvalidUleb128),
            Some(name) => match value_end(data, name.1) {
                Err(error) => Err(error),
                Ok(end) => if name.1 < end <= data.len() {
                    elements_end(data, end, count - 1)
                } else {
                    Err(DexError::UnexpectedEnd)
                },
            },
        }
    }
}

/// Moves past the encoded value at `at`.
fn skip_value(dex_reader: &DexReader, at: usize) -> (end: Result<usize, DexError>)
    ensures
        match end {
            Ok(end) => value_end(dex_reader.bytes@, at as int) == Ok::<int, DexError>(end as int)
                && at < end <= dex_reader.bytes@.len(),
            Err(error) => value_end(dex_reader.bytes@, at as int) == Err::<int, DexError>(error),
        },
    decreases left_of(dex_reader.bytes@, at as int), 0int,
{
    let len: usize = dex_reader.bytes.len();
    if at >= len {
        return Err(DexError::UnexpectedEnd);
    }
    let value_type: u8 = dex_reader.bytes[at] % 32;
    if value_type == VALUE_NULL || value_type == VALUE_BOOLEAN {
        return Ok(at + 1);
    }
    if value_type == 0x00 || value_type == 0x02 || value_type == 0x03 || value_type == VALUE_INT
        || value_type == 0x06 || value_type == 0x10 || value_type == 0x11 || (0x15 <= value_type
        && value_type <= 0x1b) {
        let size: usize = (dex_reader.bytes[at] / 32) as usize + 1;
        if size >= len - at {
            return Err(DexError::UnexpectedEnd);
        }
        return Ok(at + 1 + size);
    }
    if value_type == VALUE_ARRAY {
        return match dex_reader.uleb(at + 1) {
            Ok(count) => skip_values(dex_reader, count.1, count.0),
            Err(error) => Err(error),
        };
    }
    if value_type == VALUE_ANNOTATION {
        let annotation = match dex_reader.uleb(at + 1) {
            Ok(annotation) => annotation,
            Err(error) => {
                return Err(error);
            },
        };
        return match dex_reader.uleb(annotation.1) {
            Ok(count) => skip_elements(dex_reader, count.1, count.0),
            Err(error) => Err(error),
        };
    }
    Err(DexError::InvalidEncodedValue)
}

/// Moves past the next `count` values from `at` on.
fn skip_values(dex_reader: &DexReader, at: usize, count: u32) -> (end: Result<usize, DexError>)
    requires
        at <= dex_reader.bytes@.len(),
    ensures
        match end {
            Ok(end) => values_end(dex_reader.bytes@, at as int, count as int) == Ok::<
                int,
                DexError,
            >(end as int) && at <= end <= dex_reader.bytes@.len(),
            Err(error) => values_end(dex_reader.bytes@, at as int, count as int) == Err::<
                int,
                DexError,
            >(error),
        },
    decreases left_of(dex_reader.bytes@, at as int), 1int,
{
    let ghost data = dex_reader.bytes@;
    let mut cursor: usize = at;
    let mut left: u32 = count;
    while left > 0
        invariant
            data == dex_reader.bytes@,
            at <= cursor <= data.len(),
            values_end(data, cursor as int, left as int) == values_end(
                data,
                at as int,
                count as int,
            ),
        decreases left,
    {
        match skip_value(dex_reader, cursor) {
            Ok(end) => {
                cursor = end;
            },
            Err(error) => {
                return Err(error);
            },
        }
        left = left - 1;
    }
    Ok(cursor)
}

/// Moves past the next `count` elements of an annotation from `at` on.
fn skip_elements(dex_reader: &DexReader, at: usize, count: u32) -> (end: Result<usize, DexError>)
    requires
        at <= dex_reader.bytes@.len(),
    ensures
        match end {
            Ok(end) => elements_end(dex_reader.bytes@, at as int, count as int) == Ok::<
                int,
                DexError,
            >(end as int) && at <= end <= dex_reader.bytes@.len(),
            Err(error) => elements_end(dex_reader.bytes@, at as int, count as int) == Err::<
                int,
                DexError,
            >(error),
        },
    decreases left_of(dex_reader.bytes@, at as int), 1int,
{
    let ghost data = dex_reader.bytes@;
    let mut cursor: usize = at;
    let mut left: u32 = count;
    while left > 0
        invariant
            data == dex_reader.bytes@,
            at <= cursor <= data.len(),
            elements_end(data, cursor as int, left as int) == elements_end(
                data,
                at as int,
                count as int,
            ),
        decreases left,
    {
        let name = match dex_reader.uleb(cursor) {
            Ok(name) => name,
            Err(error) => {
                return Err(error);
            },
        };
        match skip_value(dex_reader, name.1) {
            Ok(end) => {
                cursor = end;
            },
            Err(error) => {
                return Err(error);
            },
        }
        left = left - 1;
    }
    Ok(cursor)
}

/// The number of `size` bytes at `at`, the lowest byte first.
pub open spec fn little(data: Seq<u8>, at: int, size: int) -> int {
    data[at] + (if size > 1 {
        0x100 * data[at + 1]
    } else {
        0
    }) + (if size > 2 {
        0x1_0000 * data[at + 2]
    } else {
        0
    }) + (if size > 3 {
        0x100_0000 * data[at + 3]
    } else {
        0
    })
}

fn read_little(bytes: &Vec<u8>, at: usize, size: usize) -> (number: u32)
    requires
        1 <= size <= 4,
        at + size <= bytes@.len(),
    ensures
        number == little(bytes@, at as int, size as int),
{
    assert(bytes.len() <= usize::MAX);
    let mut number: u32 = bytes[at] as u32;
    if size > 1 {
        number = number + 0x100 * bytes[at + 1] as u32;
    }
    if size > 2 {
        number = number + 0x1_0000 * bytes[at + 2] as u32;
    }
    if size > 3 {
        number = number + 0x100_0000 * bytes[at + 3] as u32;
    }
    number
}

/// The index that the value at `at` holds and where the value ends. The value must be of the
/// given type, and the index in a table of `limit` rows.
pub open spec fn index_at(
    data: Seq<u8>,
    at: int,
    value_type: u8,
    limit: int,
    missing: DexError,
) -> Result<(u32, int), DexError> {
    if at >= data.len() {
        Err(DexError::UnexpectedEnd)
    } else if data[at] % 32 != value_type || data[at] / 32 > 3 {
        Err(DexError::InvalidEncodedValue)
    } else if at + 2 + data[at] / 32 > data.len() {
        Err(DexError::UnexpectedEnd)
    } else if little(data, at + 1, data[at] / 32 + 1) >= limit {
        Err(missing)
    } else {
        Ok((little(data, at + 1, data[at] / 32 + 1) as u32, at + 2 + data[at] / 32))
    }
}

fn read_index(
    dex_reader: &DexReader,
    at: usize,
    value_type: u8,
    limit: usize,
    missing: DexError,
) -> (index: Result<(u32, usize), DexError>)
    ensures
        match index {
            Ok(found) => index_at(
                dex_reader.bytes@,
                at as int,
                value_type,
                limit as int,
                missing,
            ) == Ok::<(u32, int), DexError>((found.0, found.1 as int)),
            Err(error) => index_at(
                dex_reader.bytes@,
                at as int,
                value_type,
                limit as int,
                missing,
            ) == Err::<(u32, int), DexError>(error),
        },
{
    let len: usize = dex_reader.bytes.len();
    if at >= len {
        return Err(DexError::UnexpectedEnd);
    }
    let head: u8 = dex_reader.bytes[at];
    if head % 32 != value_type || head / 32 > 3 {
        return Err(DexError::InvalidEncodedValue);
    }
    let size: usize = (head / 32) as usize + 1;
    if size >= len - at {
        return Err(DexError::UnexpectedEnd);
    }
    let index: u32 = read_little(&dex_reader.bytes, at + 1, size);
    if index as u64 >= limit as u64 {
        return Err(missing);
    }
    Ok((index, at + 1 + size))
}

/// The indices that the next `count` values from `at` on hold.
pub open spec fn indices_from(
    data: Seq<u8>,
    at: int,
    count: int,
    value_type: u8,
    limit: int,
    missing: DexError,
) -> Result<Seq<u32>, DexError>
    decreases count,
{
    if count <= 0 {
        Ok(Seq::empty())
    } else {
        match index_at(data, at, value_type, limit, missing) {
            Err(error) => Err(error),
            Ok(first) => match indices_from(data, first.1, count - 1, value_type, limit, missing) {
                Err(error) => Err(error),
                Ok(rest) => Ok(seq![first.0] + rest),
            },
        }
    }
}

/// The indices that the list at `at` holds.
pub open spec fn indices_at(
    data: Seq<u8>,
    at: int,
    value_type: u8,
    limit: int,
    missing: DexError,
) -> Result<Seq<u32>, DexError> {
    if at >= data.len() {
        Err(DexError::UnexpectedEnd)
    } else if data[at] % 32 != VALUE_ARRAY {
        Err(DexError::InvalidEncodedValue)
    } else {
        match uleb_at(data, at + 1) {
            None => Err(DexError::InvalidUleb128),
            Some(count) => indices_from(data, count.1, count.0, value_type, limit, missing),
        }
    }
}

/// The outcome of a call that returns indices, with the indices as a sequence.
pub open spec fn indices_outcome(result: Result<Vec<u32>, DexError>) -> Result<
    Seq<u32>,
    DexError,
> {
    match result {
        Ok(list) => Ok(list@),
        Err(error) => Err(error),
    }
}

fn read_indices(
    dex_reader: &DexReader,
    at: usize,
    value_type: u8,
    limit: usize,
    missing: DexError,
) -> (indices: Result<Vec<u32>, DexError>)
    ensures
        indices_outcome(indices) == indices_at(
            dex_reader.bytes@,
            at as int,
            value_type,
            limit as int,
            missing,
        ),
{
    let ghost data = dex_reader.bytes@;
    if at >= dex_reader.bytes.len() {
        return Err(DexError::UnexpectedEnd);
    }
    if dex_reader.bytes[at] % 32 != VALUE_ARRAY {
        return Err(DexError::InvalidEncodedValue);
    }
    let count = match dex_reader.uleb(at + 1) {
        Ok(count) => count,
        Err(error) => {
            return Err(error);
        },
    };
    let ghost all = indices_from(
        data,
        count.1 as int,
        count.0 as int,
        value_type,
        limit as int,
        missing,
    );
    let mut list: Vec<u32> = Vec::new();
    let mut cursor: usize = count.1;
    let mut left: u32 = count.0;
    proof {
        if all is Ok {
            assert(list@ + all->Ok_0 =~= all->Ok_0);
        }
    }
    while left > 0
        invariant
            data == dex_reader.bytes@,
            all == indices_at(data, at as int, value_type, limit as int, missing),
            match indices_from(
                data,
                cursor as int,
                left as int,
                value_type,
                limit as int,
                missing,
            ) {
                Ok(rest) => all == Ok::<Seq<u32>, DexError>(list@ + rest),
                Err(error) => all == Err::<Seq<u32>, DexError>(error),
            },
        decreases left,
    {
        match read_index(dex_reader, cursor, value_type, limit, missing) {
            Ok(found) => {
                let ghost before = list@;
                list.push(found.0);
                proof {
                    let rest = indices_from(
                        data,
                        found.1 as int,
                        left - 1,
                        value_type,
                        limit as int,
                        missing,
                    );
                    if rest is Ok {
                        assert(before + (seq![found.0] + rest->Ok_0) =~= list@ + rest->Ok_0);
                    }
                }
                cursor = found.1;
            },
            Err(error) => {
                return Err(error);
            },
        }
        left = left - 1;
    }
    assert(list@ + Seq::<u32>::empty() =~= list@);
    Ok(list)
}

/// The number of `size` bytes, at most four, as a 32-bit number of the same sign.
pub open spec fn sign_extended(number: int, size: int) -> u32 {
    if size == 1 && number >= 0x80 {
        (number + 0xffff_ff00) as u32
    } else if size == 2 && number >= 0x8000 {
        (number + 0xffff_0000) as u32
    } else if size == 3 && number >= 0x80_0000 {
        (number + 0xff00_0000) as u32
    } else {
        number as u32
    }
}

/// The number that the value at `at` holds.
pub open spec fn number_at(data: Seq<u8>, at: int) -> Result<u32, DexError> {
    match index_at(data, at, VALUE_INT, 0x1_0000_0000, DexError::InvalidEncodedValue) {
        Err(error) => Err(error),
        Ok(found) => Ok(sign_extended(found.0 as int, found.1 - at - 1)),
    }
}

fn read_number(dex_reader: &DexReader, at: usize) -> (number: Result<u32, DexError>)
    ensures
        number == number_at(dex_reader.bytes@, at as int),
{
    let len: usize = dex_reader.bytes.len();
    if at >= len {
        return Err(DexError::UnexpectedEnd);
    }
    let head: u8 = dex_reader.bytes[at];
    if head % 32 != VALUE_INT || head / 32 > 3 {
        return Err(DexError::InvalidEncodedValue);
    }
    let size: usize = (head / 32) as usize + 1;
    if size >= len - at {
        return Err(DexError::UnexpectedEnd);
    }
    let number: u32 = read_little(&dex_reader.bytes, at + 1, size);
    if size == 1 && number >= 0x80 {
        Ok(number + 0xffff_ff00)
    } else if size == 2 && number >= 0x8000 {
        Ok(number + 0xffff_0000)
    } else if size == 3 && number >= 0x80_0000 {
        Ok(number + 0xff00_0000)
    } else {
        Ok(number)
    }
}

/// What is known of a class inside another before its annotation is read.
pub open spec fn inner_of(metadata: NestedView) -> InnerView {
    match metadata.inner_class {
        Some(inner) => inner,
        None => InnerView { name: None, access_flags: 0 },
    }
}

/// The texts of strings, one behind the other.
pub open spec fn joined_texts(strings: Seq<Seq<u16>>, indices: Seq<u32>) -> Seq<char> {
    joined(indices.map_values(|index: u32| text_at(strings, index as int)->0))
}

/// What is known of a class once one more element of an annotation is read: the one with the
/// given name, whose value is at `at`.
pub open spec fn with_element(
    data: Seq<u8>,
    tables: Tables,
    kind: AnnotationKind,
    name: Seq<char>,
    at: int,
    metadata: NestedView,
) -> Result<NestedView, DexError> {
    let strings = tables.strings.len() as int;
    let types = tables.types.len() as int;
    let methods = tables.methods.len() as int;
    if kind is Signature && name == "value"@ {
        match indices_at(data, at, VALUE_STRING, strings, DexError::InvalidStringIdx) {
            Err(error) => Err(error),
            Ok(parts) => Ok(
                NestedView { signature: Some(joined_texts(tables.strings, parts)), ..metadata },
            ),
        }
    } else if kind is MemberClasses && name == "value"@ {
        match indices_at(data, at, VALUE_TYPE, types, DexError::InvalidTypeIdx) {
            Err(error) => Err(error),
            Ok(member_classes) => Ok(NestedView { member_classes, ..metadata }),
        }
    } else if kind is EnclosingClass && name == "value"@ {
        match index_at(data, at, VALUE_TYPE, types, DexError::InvalidTypeIdx) {
            Err(error) => Err(error),
            Ok(found) => Ok(NestedView { enclosing_class: Some(found.0), ..metadata }),
        }
    } else if kind is EnclosingMethod && name == "value"@ {
        match index_at(data, at, VALUE_METHOD, methods, DexError::InvalidMethodIdx) {
            Err(error) => Err(error),
            Ok(found) => Ok(NestedView { enclosing_method: Some(found.0), ..metadata }),
        }
    } else if kind is InnerClass && name == "accessFlags"@ {
        match number_at(data, at) {
            Err(error) => Err(error),
            Ok(access_flags) => Ok(
                NestedView {
                    inner_class: Some(InnerView { access_flags, ..inner_of(metadata) }),
                    ..metadata
                },
            ),
        }
    } else if kind is InnerClass && name == "name"@ {
        if at < data.len() && data[at] % 32 == VALUE_NULL {
            Ok(
                NestedView {
                    inner_class: Some(InnerView { name: None, ..inner_of(metadata) }),
                    ..metadata
                },
            )
        } else {
            match index_at(data, at, VALUE_STRING, strings, DexError::InvalidStringIdx) {
                Err(error) => Err(error),
                Ok(found) => Ok(
                    NestedView {
                        inner_class: Some(
                            InnerView {
                                name: text_at(tables.strings, found.0 as int),
                                ..inner_of(metadata)
                            },
                        ),
                        ..metadata
                    },
                ),
            }
        }
    } else {
        Ok(metadata)
    }
}

/// What is known of a class once the next `count` elements of an annotation from `at` on are
/// read.
pub open spec fn with_elements(
    data: Seq<u8>,
    tables: Tables,
    kind: AnnotationKind,
    at: int,
    count: int,
    metadata: NestedView,
) -> Result<NestedView, DexError>
    decreases count,
{
    if count <= 0 {
        Ok(metadata)
    } else {
        match uleb_at(data, at) {
            None => Err(DexError::InvalidUleb128),
            Some(name) => match text_at(tables.strings, name.0) {
                None => Err(DexError::InvalidStringIdx),
                Some(text) => match value_end(data, name.1) {
                    Err(error) => Err(error),
                    Ok(end) => match with_element(data, tables, kind, text, name.1, metadata) {
                        Err(error) => Err(error),
                        Ok(next) => with_elements(data, tables, kind, end, count - 1, next),
                    },
                },
            },
        }
    }
}

/// What is known of a class once the annotation at `at` is read.
pub open spec fn with_annotation(
    data: Seq<u8>,
    tables: Tables,
    at: int,
    metadata: NestedView,
) -> Result<NestedView, DexError> {
    if at >= data.len() {
        Err(DexError::UnexpectedEnd)
    } else {
        match uleb_at(data, at + 1) {
            None => Err(DexError::InvalidUleb128),
            Some(annotation) => match descriptor_of(
                tables.types,
                tables.strings,
                annotation.0,
            ) {
                None => Err(DexError::InvalidTypeIdx),
                Some(descriptor) => match uleb_at(data, annotation.1) {
                    None => Err(DexError::InvalidUleb128),
                    Some(count) => with_elements(
                        data,
                        tables,
                        kind_of(descriptor),
                        count.1,
                        count.0,
                        metadata,
                    ),
                },
            },
        }
    }
}

/// What is known of a class once the first `count` annotations of the set at `offset` are read.
pub open spec fn with_annotations(
    data: Seq<u8>,
    big_endian: bool,
    tables: Tables,
    offset: int,
    count: int,
) -> Result<NestedView, DexError>
    decreases count,
{
    if count <= 0 {
        Ok(not_nested())
    } else {
        match with_annotations(data, big_endian, tables, offset, count - 1) {
            Err(error) => Err(error),
            Ok(metadata) => if offset + 4 * count + 4 > data.len() {
                Err(DexError::UnexpectedEnd)
            } else {
                with_annotation(
                    data,
                    tables,
                    word_at(data, big_endian, offset + 4 * count) as int,
                    metadata,
                )
            },
        }
    }
}

/// What the annotations directory at `offset` says of how its class is nested.
pub open spec fn directory_at(
    data: Seq<u8>,
    big_endian: bool,
    tables: Tables,
    offset: int,
) -> Result<NestedView, DexError> {
    if offset + 4 > data.len() {
        Err(DexError::UnexpectedEnd)
    } else {
        let set = word_at(data, big_endian, offset) as int;
        if set == 0 {
            Ok(not_nested())
        } else if set + 4 > data.len() {
            Err(DexError::UnexpectedEnd)
        } else {
            with_annotations(
                data,
                big_endian,
                tables,
                set,
                word_at(data, big_endian, set) as int,
            )
        }
    }
}

/// Annotations that cannot be read stay unread, however many follow.
proof fn lemma_annotations_fail(
    data: Seq<u8>,
    big_endian: bool,
    tables: Tables,
    offset: int,
    k: int,
    count: int,
)
    requires
        0 <= k <= count,
        with_annotations(data, big_endian, tables, offset, k) is Err,
    ensures
        with_annotations(data, big_endian, tables, offset, count) == with_annotations(
            data,
            big_endian,
            tables,
            offset,
            k,
        ),
    decreases count,
{
    if k < count {
        lemma_annotations_fail(data, big_endian, tables, offset, k, count - 1);
    }
}

/// The outcome of a call that returns metadata, with the metadata as a view.
pub open spec fn nested_outcome(result: Result<ClassNestedMetadata, DexError>) -> Result<
    NestedView,
    DexError,
> {
    match result {
        Ok(metadata) => Ok(metadata@),
        Err(error) => Err(error),
    }
}

/// The tables of an image that annotations refer to.
struct Pools<'a> {
    strings: &'a DexStrings,
    types: &'a DexTypes,
    protos: &'a DexProtos,
    fields: &'a DexFields,
    methods: &'a DexMethods,
}

impl<'a> Pools<'a> {
    spec fn tables(&self) -> Tables {
        tables_of(*self.strings, *self.types, *self.protos, *self.fields, *self.methods)
    }
}

/// Joins the texts of strings.
fn join_texts(strings: &DexStrings, indices: &Vec<u32>) -> (text: String)
    requires
        forall|k: int| 0 <= k < indices@.len() ==> #[trigger] indices@[k] < strings.strings@.len(),
    ensures
        text@ == joined_texts(string_units(strings.strings@), indices@),
{
    let ghost units = string_units(strings.strings@);
    let ghost f = |index: u32| text_at(units, index as int)->0;
    let mut text = String::new();
    let mut k: usize = 0;
    assert(indices@.take(0).map_values(f) =~= Seq::empty());
    assert(text@ =~= Seq::<char>::empty());
    while k < indices.len()
        invariant
            units == string_units(strings.strings@),
            f == (|index: u32| text_at(units, index as int)->0),
            forall|k: int|
                0 <= k < indices@.len() ==> #[trigger] indices@[k] < strings.strings@.len(),
            k <= indices@.len(),
            text@ == joined(indices@.take(k as int).map_values(f)),
        decreases indices@.len() - k,
    {
        let index: u32 = indices[k];
        if let Some(part) = strings.text(index) {
            text.push_str(part);
        }
        assert(indices@.take(k + 1).map_values(f).drop_last() =~= indices@.take(
            k as int,
        ).map_values(f));
        k = k + 1;
    }
    assert(indices@.take(indices@.len() as int) =~= indices@);
    text
}

/// Indices that were read are in the table they were read against.
proof fn lemma_indices_bound(
    data: Seq<u8>,
    at: int,
    count: int,
    value_type: u8,
    limit: int,
    missing: DexError,
)
    requires
        indices_from(data, at, count, value_type, limit, missing) is Ok,
    ensures
        forall|k: int|
            0 <= k < indices_from(data, at, count, value_type, limit, missing)->Ok_0.len()
                ==> #[trigger] indices_from(data, at, count, value_type, limit, missing)->Ok_0[k]
                < limit,
    decreases count,
{
    if count > 0 {
        let first = index_at(data, at, value_type, limit, missing)->Ok_0;
        lemma_indices_bound(data, first.1, count - 1, value_type, limit, missing);
        let rest = indices_from(data, first.1, count - 1, value_type, limit, missing)->Ok_0;
        let all = indices_from(data, at, count, value_type, limit, missing)->Ok_0;
        assert forall|k: int| 0 <= k < all.len() implies #[trigger] all[k] < limit by {
            if k > 0 {
                assert(all[k] == rest[k - 1]);
            }
        }
    }
}

/// Reads one element of an annotation into what is known of its class.
fn read_element(
    dex_reader: &DexReader,
    pools: &Pools,
    kind: AnnotationKind,
    name: &str,
    at: usize,
    metadata: ClassNestedMetadata,
) -> (next: Result<ClassNestedMetadata, DexError>)
    ensures
        nested_outcome(next) == with_element(
            dex_reader.bytes@,
            pools.tables(),
            kind,
            name@,
            at as int,
            metadata@,
        ),
{
    let strings: usize = pools.strings.strings.len();
    let types: usize = pools.types.items.len();
    let methods: usize = pools.methods.items.len();
    let mut next = metadata;
    match kind {
        AnnotationKind::Signature if same_text(name, "value") => {
            match read_indices(dex_reader, at, VALUE_STRING, strings, DexError::InvalidStringIdx) {
                Ok(parts) => {
                    proof {
                        let count = uleb_at(dex_reader.bytes@, at + 1)->0;
                        lemma_indices_bound(
                            dex_reader.bytes@,
                            count.1,
                            count.0,
                            VALUE_STRING,
                            strings as int,
                            DexError::InvalidStringIdx,
                        );
                    }
                    next.signature = Some(join_texts(pools.strings, &parts));
                },
                Err(error) => {
                    return Err(error);
                },
            }
        },
        AnnotationKind::MemberClasses if same_text(name, "value") => {
            match read_indices(dex_reader, at, VALUE_TYPE, types, DexError::InvalidTypeIdx) {
                Ok(member_classes) => {
                    next.member_classes = member_classes;
                },
                Err(error) => {
                    return Err(error);
                },
            }
        },
        AnnotationKind::EnclosingClass if same_text(name, "value") => {
            match read_index(dex_reader, at, VALUE_TYPE, types, DexError::InvalidTypeIdx) {
                Ok(found) => {
                    next.enclosing_class = Some(found.0);
                },
                Err(error) => {
                    return Err(error);
                },
            }
        },
        AnnotationKind::EnclosingMethod if same_text(name, "value") => {
            match read_index(dex_reader, at, VALUE_METHOD, methods, DexError::InvalidMethodIdx) {
                Ok(found) => {
                    next.enclosing_method = Some(found.0);
                },
                Err(error) => {
                    return Err(error);
                },
            }
        },
        AnnotationKind::InnerClass if same_text(name, "accessFlags") => {
            match read_number(dex_reader, at) {
                Ok(access_flags) => {
                    let name = match next.inner_class {
                        Some(inner) => inner.name,
                        None => None,
                    };
                    next.inner_class = Some(InnerClass { name, access_flags });
                },
                Err(error) => {
                    return Err(error);
                },
            }
        },
        AnnotationKind::InnerClass if same_text(name, "name") => {
            let access_flags: u32 = match &next.inner_class {
                Some(inner) => inner.access_flags,
                None => 0,
            };
            if at < dex_reader.bytes.len() && dex_reader.bytes[at] % 32 == VALUE_NULL {
                next.inner_class = Some(InnerClass { name: None, access_flags });
            } else {
                match read_index(
                    dex_reader,
                    at,
                    VALUE_STRING,
                    strings,
                    DexError::InvalidStringIdx,
                ) {
                    Ok(found) => {
                        let name = match pools.strings.text(found.0) {
                            Some(text) => Some(text.to_string()),
                            None => None,
                        };
                        next.inner_class = Some(InnerClass { name, access_flags });
                    },
                    Err(error) => {
                        return Err(error);
                    },
                }
            }
        },
        _ => {},
    }
    Ok(next)
}

/// Reads the next `count` elements of an annotation from `at` on.
fn read_elements(
    dex_reader: &DexReader,
    pools: &Pools,
    kind: AnnotationKind,
    at: usize,
    count: u32,
    metadata: ClassNestedMetadata,
) -> (done: Result<ClassNestedMetadata, DexError>)
    ensures
        nested_outcome(done) == with_elements(
            dex_reader.bytes@,
            pools.tables(),
            kind,
            at as int,
            count as int,
            metadata@,
        ),
{
    let ghost data = dex_reader.bytes@;
    let ghost tables = pools.tables();
    let ghost all = with_elements(data, tables, kind, at as int, count as int, metadata@);
    let mut known = metadata;
    let mut cursor: usize = at;
    let mut left: u32 = count;
    while left > 0
        invariant
            data == dex_reader.bytes@,
            tables == pools.tables(),
            all == with_elements(data, tables, kind, at as int, count as int, metadata@),
            with_elements(data, tables, kind, cursor as int, left as int, known@) == all,
        decreases left,
    {
        let name = match dex_reader.uleb(cursor) {
            Ok(name) => name,
            Err(error) => {
                return Err(error);
            },
        };
        let text = match pools.strings.text(name.0) {
            Some(text) => text,
            None => {
                return Err(DexError::InvalidStringIdx);
            },
        };
        let end: usize = match skip_value(dex_reader, name.1) {
            Ok(end) => end,
            Err(error) => {
                return Err(error);
            },
        };
        known = match read_element(dex_reader, pools, kind, text, name.1, known) {
            Ok(next) => next,
            Err(error) => {
                return Err(error);
            },
        };
        cursor = end;
        left = left - 1;
    }
    Ok(known)
}

/// Reads the annotation at `at` into what is known of its class.
fn read_annotation(
    dex_reader: &DexReader,
    pools: &Pools,
    at: u32,
    metadata: ClassNestedMetadata,
) -> (next: Result<ClassNestedMetadata, DexError>)
    ensures
        nested_outcome(next) == with_annotation(
            dex_reader.bytes@,
            pools.tables(),
            at as int,
            metadata@,
        ),
{
    if at as usize >= dex_reader.bytes.len() {
        return Err(DexError::UnexpectedEnd);
    }
    let annotation = match dex_reader.uleb(at as usize + 1) {
        Ok(annotation) => annotation,
        Err(error) => {
            return Err(error);
        },
    };
    let descriptor = match pools.types.descriptor(pools.strings, annotation.0) {
        Some(descriptor) => descriptor,
        None => {
            return Err(DexError::InvalidTypeIdx);
        },
    };
    let count = match dex_reader.uleb(annotation.1) {
        Ok(count) => count,
        Err(error) => {
            return Err(error);
        },
    };
    read_elements(
        dex_reader,
        pools,
        annotation_kind(descriptor),
        count.1,
        count.0,
        metadata,
    )
}

/// Reads what the annotations directory at `offset` says of how its class is nested.
///
/// Only the annotations of the class itself are read, not those of its members.
pub fn read_class_annotations_directory(
    dex_reader: &DexReader,
    offset: u32,
    types: &DexTypes,
    strings: &DexStrings,
    protos: &DexProtos,
    fields: &DexFields,
    methods: &DexMethods,
) -> (metadata: Result<ClassNestedMetadata, DexError>)
    ensures
        nested_outcome(metadata) == directory_at(
            dex_reader.bytes@,
            dex_reader.big_endian,
            tables_of(*strings, *types, *protos, *fields, *methods),
            offset as int,
        ),
{
    let pools = Pools { strings, types, protos, fields, methods };
    let ghost data = dex_reader.bytes@;
    let ghost big_endian = dex_reader.big_endian;
    let ghost tables = pools.tables();
    let set: u32 = match dex_reader.word(offset as u64) {
        Ok(set) => set,
        Err(error) => {
            return Err(error);
        },
    };
    let mut known: ClassNestedMetadata = Default::default();
    if set == 0 {
        return Ok(known);
    }
    let count: u32 = match dex_reader.word(set as u64) {
        Ok(count) => count,
        Err(error) => {
            return Err(error);
        },
    };
    let mut k: u32 = 0;
    while k < count
        invariant
            data == dex_reader.bytes@,
            big_endian == dex_reader.big_endian,
            tables == pools.tables(),
            tables == tables_of(*strings, *types, *protos, *fields, *methods),
            k <= count,
            with_annotations(data, big_endian, tables, set as int, k as int) == Ok::<
                NestedView,
                DexError,
            >(known@),
            directory_at(data, big_endian, tables, offset as int) == with_annotations(
                data,
                big_endian,
                tables,
                set as int,
                count as int,
            ),
        decreases count - k,
    {
        let at: u32 = match dex_reader.word(set as u64 + 4 * k as u64 + 4) {
            Ok(at) => at,
            Err(error) => {
                proof {
                    lemma_annotations_fail(
                        data,
                        big_endian,
                        tables,
                        set as int,
                        k + 1,
                        count as int,
                    );
                }
                return Err(error);
            },
        };
        known = match read_annotation(dex_reader, &pools, at, known) {
            Ok(next) => next,
            Err(error) => {
                proof {
                    lemma_annotations_fail(
                        data,
                        big_endian,
                        tables,
                        set as int,
                        k + 1,
                        count as int,
                    );
                }
                return Err(error);
            },
        };
        k = k + 1;
    }
    Ok(known)
}

/// The number that bytes write, the lowest byte first.
pub open spec fn number_of(bytes: Seq<u8>) -> nat
    decreases bytes.len(),
{
    if bytes.len() == 0 {
        0
    } else {
        bytes[0] as nat + 0x100 * number_of(bytes.skip(1))
    }
}

/// An encoded value as it is written: its type, how many bytes follow the first, and the bytes.
pub open spec fn written_value(value_type: u8, bytes: Seq<u8>) -> Seq<u8> {
    seq![(value_type + 32 * (bytes.len() - 1)) as u8] + bytes
}

proof fn lemma_written_value(data: Seq<u8>, at: int, value_type: u8, bytes: Seq<u8>)
    requires
        0 <= at,
        value_type < 32,
        1 <= bytes.len() <= 4,
        occurs_at(data, written_value(value_type, bytes), at),
    ensures
        data[at] % 32 == value_type,
        data[at] / 32 == bytes.len() - 1,
        at + 1 + bytes.len() <= data.len(),
        little(data, at + 1, bytes.len() as int) == number_of(bytes),
        number_of(bytes) < 0x1_0000_0000,
{
    let written = written_value(value_type, bytes);
    let part = data.subrange(at, at + written.len());
    assert(part[0] == data[at]);
    assert forall|j: int| 0 <= j < bytes.len() implies data[at + 1 + j] == #[trigger] bytes[j] by {
        assert(part[1 + j] == written[1 + j]);
    }
    reveal_with_fuel(number_of, 5);
    let one = bytes.skip(1);
    let two = one.skip(1);
    let three = two.skip(1);
    assert(data[at + 1 + 0] == bytes[0]);
    if bytes.len() > 1 {
        assert(data[at + 1 + 1] == bytes[1]);
        assert(one[0] == bytes[1]);
    }
    if bytes.len() > 2 {
        assert(data[at + 1 + 2] == bytes[2]);
        assert(two[0] == bytes[2]);
    }
    if bytes.len() > 3 {
        assert(data[at + 1 + 3] == bytes[3]);
        assert(three[0] == bytes[3]);
    }
}

/// An index that was written reads back, if it is in the table it is for.
pub proof fn law_index_value_reads_back(
    data: Seq<u8>,
    at: int,
    value_type: u8,
    bytes: Seq<u8>,
    limit: int,
    missing: DexError,
)
    requires
        0 <= at,
        value_type < 32,
        1 <= bytes.len() <= 4,
        occurs_at(data, written_value(value_type, bytes), at),
    ensures
        index_at(data, at, value_type, limit, missing) == (if number_of(bytes) < limit {
            Ok::<(u32, int), DexError>((number_of(bytes) as u32, at + 1 + bytes.len()))
        } else {
            Err(missing)
        }),
{
    lemma_written_value(data, at, value_type, bytes);
}

/// A value of another type than the one that is asked for is no index.
pub proof fn law_values_of_other_types_are_no_index(
    data: Seq<u8>,
    at: int,
    value_type: u8,
    other_type: u8,
    bytes: Seq<u8>,
    limit: int,
    missing: DexError,
)
    requires
        0 <= at,
        value_type < 32,
        other_type < 32,
        value_type != other_type,
        1 <= bytes.len() <= 4,
        occurs_at(data, written_value(other_type, bytes), at),
    ensures
        index_at(data, at, value_type, limit, missing) == Err::<(u32, int), DexError>(
            DexError::InvalidEncodedValue,
        ),
{
    lemma_written_value(data, at, other_type, bytes);
}

/// A number keeps its sign however few bytes write it: as a 32-bit number it is below 2^31 where
/// the highest bit that was written is clear, and as far from 2^32 as the written number was from
/// the next power where it is set.
pub proof fn law_numbers_keep_their_sign(data: Seq<u8>, at: int, bytes: Seq<u8>)
    requires
        0 <= at,
        1 <= bytes.len() <= 4,
        occurs_at(data, written_value(0x04, bytes), at),
    ensures
        number_at(data, at) matches Ok(number) && {
            let span: int = if bytes.len() == 1 {
                0x100
            } else if bytes.len() == 2 {
                0x1_0000
            } else if bytes.len() == 3 {
                0x100_0000
            } else {
                0x1_0000_0000
            };
            if bytes.last() < 0x80 {
                number == number_of(bytes) && number < 0x8000_0000
            } else {
                0x1_0000_0000 - number == span - number_of(bytes) && number >= 0x8000_0000
            }
        },
{
    lemma_written_value(data, at, 0x04, bytes);
    reveal_with_fuel(number_of, 5);
    let one = bytes.skip(1);
    let two = one.skip(1);
    let three = two.skip(1);
    if bytes.len() > 1 {
        assert(one[0] == bytes[1]);
    }
    if bytes.len() > 2 {
        assert(two[0] == bytes[2]);
    }
    if bytes.len() > 3 {
        assert(three[0] == bytes[3]);
    }
}

/// Values of one type as they are written, one behind the other.
pub open spec fn written_values(value_type: u8, items: Seq<Seq<u8>>) -> Seq<u8>
    decreases items.len(),
{
    if items.len() == 0 {
        Seq::empty()
    } else {
        written_value(value_type, items[0]) + written_values(value_type, items.skip(1))
    }
}

/// A list of indices that was written reads back, in its order.
pub proof fn law_index_list_reads_back(
    data: Seq<u8>,
    at: int,
    value_type: u8,
    items: Seq<Seq<u8>>,
    limit: int,
    missing: DexError,
)
    requires
        0 <= at,
        value_type < 32,
        items.len() <= u32::MAX,
        forall|k: int|
            0 <= k < items.len() ==> 1 <= (#[trigger] items[k]).len() <= 4 && number_of(items[k])
                < limit,
        occurs_at(
            data,
            seq![0x1cu8] + (written_uleb(items.len()) + written_values(value_type, items)),
            at,
        ),
    ensures
        indices_at(data, at, value_type, limit, missing) == Ok::<Seq<u32>, DexError>(
            items.map_values(|bytes: Seq<u8>| number_of(bytes) as u32),
        ),
{
    let count = written_uleb(items.len());
    let values = written_values(value_type, items);
    lemma_both_occur(data, seq![0x1cu8], count + values, at);
    lemma_both_occur(data, count, values, at + 1);
    assert(data.subrange(at, at + 1)[0] == data[at]);
    law_uleb_reads_back(data, at + 1, items.len() as u32);
    lemma_list_reads_back(data, at + 1 + count.len(), value_type, items, limit, missing);
}

proof fn lemma_list_reads_back(
    data: Seq<u8>,
    at: int,
    value_type: u8,
    items: Seq<Seq<u8>>,
    limit: int,
    missing: DexError,
)
    requires
        0 <= at,
        value_type < 32,
        forall|k: int|
            0 <= k < items.len() ==> 1 <= (#[trigger] items[k]).len() <= 4 && number_of(items[k])
                < limit,
        occurs_at(data, written_values(value_type, items), at),
    ensures
        indices_from(data, at, items.len() as int, value_type, limit, missing) == Ok::<
            Seq<u32>,
            DexError,
        >(items.map_values(|bytes: Seq<u8>| number_of(bytes) as u32)),
    decreases items.len(),
{
    let f = |bytes: Seq<u8>| number_of(bytes) as u32;
    if items.len() > 0 {
        let rest = items.skip(1);
        let first = written_value(value_type, items[0]);
        assert forall|k: int| 0 <= k < rest.len() implies 1 <= (#[trigger] rest[k]).len() <= 4
            && number_of(rest[k]) < limit by {
            assert(rest[k] == items[k + 1]);
        }
        assert(1 <= items[0].len() <= 4);
        lemma_both_occur(data, first, written_values(value_type, rest), at);
        law_index_value_reads_back(data, at, value_type, items[0], limit, missing);
        lemma_list_reads_back(data, at + first.len(), value_type, rest, limit, missing);
        assert(seq![f(items[0])] + rest.map_values(f) =~= items.map_values(f));
    } else {
        assert(items.map_values(f) =~= Seq::empty());
    }
}

/// A value is as long as its first byte says: one byte for no value and for a truth value, and the
/// bytes it announces behind the first for numbers, characters, strings, types, fields, methods,
/// prototypes and handles. Values of types that are not defined cannot be stepped over.
pub proof fn law_values_are_as_long_as_they_say(data: Seq<u8>, at: int)
    requires
        0 <= at,
        at + 9 <= data.len(),
    ensures
        ({
            let kind = data[at] % 32;
            let more = data[at] / 32;
            &&& kind == 0x1e || kind == 0x1f ==> value_end(data, at) == Ok::<int, DexError>(at + 1)
            &&& kind == 0x00 || kind == 0x02 || kind == 0x03 || kind == 0x04 || kind == 0x06 || kind
                == 0x10 || kind == 0x11 || kind == 0x15 || kind == 0x16 || kind == 0x17 || kind == 0x18
                || kind == 0x19 || kind == 0x1a || kind == 0x1b ==> value_end(data, at) == Ok::<
                int,
                DexError,
            >(at + 2 + more)
            &&& kind == 0x01 || kind == 0x05 || (0x07 <= kind <= 0x0f) || (0x12 <= kind <= 0x14)
                ==> value_end(data, at) == Err::<int, DexError>(DexError::InvalidEncodedValue)
        }),
{
}

/// Stepping over some values and over more behind them is stepping over all of them.
pub proof fn law_values_are_stepped_over(data: Seq<u8>, at: int, count: int, more: int)
    requires
        0 <= count,
        0 <= more,
    ensures
        values_end(data, at, count) matches Ok(end) ==> values_end(data, at, count + more)
            == values_end(data, end, more),
        value_end(data, at) matches Ok(end) ==> (at < end <= data.len() ==> values_end(data, at, 1)
            == Ok::<int, DexError>(end)),
    decreases count,
{
    if count > 0 {
        if let Ok(end) = value_end(data, at) {
            law_values_are_stepped_over(data, end, count - 1, more);
        }
    }
    reveal_with_fuel(values_end, 2);
}

/// An annotation says one thing of a class: reading an element of it changes nothing else of what
/// is known, and an element of an annotation of another kind changes nothing.
pub proof fn law_an_annotation_says_one_thing(
    data: Seq<u8>,
    tables: Tables,
    kind: AnnotationKind,
    name: Seq<char>,
    at: int,
    metadata: NestedView,
    next: NestedView,
)
    requires
        with_element(data, tables, kind, name, at, metadata) == Ok::<NestedView, DexError>(next),
    ensures
        !(kind is Signature) ==> next.signature == metadata.signature,
        !(kind is InnerClass) ==> next.inner_class == metadata.inner_class,
        !(kind is MemberClasses) ==> next.member_classes == metadata.member_classes,
        !(kind is EnclosingClass) ==> next.enclosing_class == metadata.enclosing_class,
        !(kind is EnclosingMethod) ==> next.enclosing_method == metadata.enclosing_method,
        kind is Other ==> next == metadata,
{
}

/// What an annotation states is what its value holds: a list of types, a type or a method.
pub proof fn law_annotations_state_their_values(
    data: Seq<u8>,
    tables: Tables,
    at: int,
    bytes: Seq<u8>,
    metadata: NestedView,
)
    requires
        0 <= at,
        1 <= bytes.len() <= 4,
    ensures
        occurs_at(data, written_value(0x18, bytes), at) && number_of(bytes) < tables.types.len()
            ==> (with_element(data, tables, AnnotationKind::EnclosingClass, "value"@, at, metadata)
            matches Ok(next) && next.enclosing_class == Some(number_of(bytes) as u32)),
        occurs_at(data, written_value(0x1a, bytes), at) && number_of(bytes) < tables.methods.len()
            ==> (with_element(data, tables, AnnotationKind::EnclosingMethod, "value"@, at, metadata)
            matches Ok(next) && next.enclosing_method == Some(number_of(bytes) as u32)),
        occurs_at(data, written_value(0x17, bytes), at) && number_of(bytes) < tables.strings.len()
            ==> (with_element(data, tables, AnnotationKind::InnerClass, "name"@, at, metadata)
            matches Ok(next) && (next.inner_class matches Some(inner) && inner.name == text_at(
            tables.strings,
            number_of(bytes) as int,
        ) && inner.access_flags == inner_of(metadata).access_flags)),
{
    reveal_strlit("name");
    reveal_strlit("accessFlags");
    assert("name"@.len() == 4 && "accessFlags"@.len() == 11);
    if occurs_at(data, written_value(0x18, bytes), at) {
        law_index_value_reads_back(
            data,
            at,
            0x18,
            bytes,
            tables.types.len() as int,
            DexError::InvalidTypeIdx,
        );
    }
    if occurs_at(data, written_value(0x1a, bytes), at) {
        law_index_value_reads_back(
            data,
            at,
            0x1a,
            bytes,
            tables.methods.len() as int,
            DexError::InvalidMethodIdx,
        );
    }
    if occurs_at(data, written_value(0x17, bytes), at) {
        lemma_written_value(data, at, 0x17, bytes);
        law_index_value_reads_back(
            data,
            at,
            0x17,
            bytes,
            tables.strings.len() as int,
            DexError::InvalidStringIdx,
        );
    }
}

/// What is known of a class once the annotations at the given places are read, one behind the
/// other.
pub open spec fn annotated(data: Seq<u8>, tables: Tables, places: Seq<u32>) -> Result<
    NestedView,
    DexError,
>
    decreases places.len(),
{
    if places.len() == 0 {
        Ok(not_nested())
    } else {
        match annotated(data, tables, places.drop_last()) {
            Err(error) => Err(error),
            Ok(metadata) => with_annotation(data, tables, places.last() as int, metadata),
        }
    }
}

/// Every annotation of a set is read, in the order in which the set lists them.
pub proof fn law_every_annotation_is_read(
    data: Seq<u8>,
    tables: Tables,
    set: int,
    places: Seq<u32>,
)
    requires
        0 <= set,
        forall|k: int|
            0 <= k < places.len() ==> occurs_at(
                data,
                written32(#[trigger] places[k]),
                set + 4 + 4 * k,
            ),
    ensures
        with_annotations(data, false, tables, set, places.len() as int) == annotated(
            data,
            tables,
            places,
        ),
    decreases places.len(),
{
    if places.len() > 0 {
        let front = places.drop_last();
        let last = places.len() - 1;
        assert forall|k: int| 0 <= k < front.len() implies occurs_at(
            data,
            written32(#[trigger] front[k]),
            set + 4 + 4 * k,
        ) by {
            assert(front[k] == places[k]);
        }
        law_every_annotation_is_read(data, tables, set, front);
        assert(occurs_at(data, written32(places[last]), set + 4 + 4 * last));
        law_word_reads_back(data, set + 4 + 4 * last, places[last]);
    }
}

/// A directory says where the annotations of its class are listed, and every one of them is read. A
/// class whose directory lists none for it is not nested.
pub proof fn law_directory_leads_to_the_annotations(
    data: Seq<u8>,
    tables: Tables,
    offset: int,
    set: u32,
    places: Seq<u32>,
)
    requires
        0 <= offset,
        occurs_at(data, written32(set), offset),
        places.len() <= u32::MAX,
        set != 0 ==> occurs_at(data, written32(places.len() as u32), set as int),
        forall|k: int|
            0 <= k < places.len() ==> occurs_at(
                data,
                written32(#[trigger] places[k]),
                set + 4 + 4 * k,
            ),
    ensures
        directory_at(data, false, tables, offset) == (if set == 0 {
            Ok::<NestedView, DexError>(not_nested())
        } else {
            annotated(data, tables, places)
        }),
{
    law_word_reads_back(data, offset, set);
    if set != 0 {
        law_word_reads_back(data, set as int, places.len() as u32);
        law_every_annotation_is_read(data, tables, set as int, places);
    }
}

} // verus!
