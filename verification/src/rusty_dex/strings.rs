//! String identifiers.
use super::error::{DexError, Mutf8Error};
use super::mutf8::{decode, paired, text_from, text_of_units, units_from};
use super::reader::{word_at, DexReader};
use crate::dex::mutf8::utf16_units;
use crate::dex::{lemma_nul_from, nul_from, uleb_at};
use crate::seqs::{collect, joined, lemma_collect_fails};
use vstd::prelude::*;

verus! {

/// Index into the DEX `string_ids` table.
pub type StringIdx = u32;

/// One DEX string: its UTF-16 code units, and the text they are shown as.
#[derive(Debug, PartialEq, Eq, PartialOrd, Ord, Hash)]
pub struct DexString {
    utf16: Vec<u16>,
    lossy: String,
}

/// The UTF-16 code units of a text.
pub open spec fn text_units(text: Seq<char>) -> Seq<u16> {
    joined(text.map_values(|c: char| utf16_units(c)))
}

impl DexString {
    /// The code units of this string.
    pub closed spec fn units(&self) -> Seq<u16> {
        self.utf16@
    }

    /// The text of this string.
    pub open spec fn text(&self) -> Seq<char> {
        text_from(self.units(), 0)
    }

    #[verifier::type_invariant]
    spec fn shows_its_units(&self) -> bool {
        self.lossy@ == text_from(self.utf16@, 0)
    }

    /// The string of the given code units.
    pub fn from_utf16(utf16: Vec<u16>) -> (string: Self)
        ensures
            string.units() == utf16@,
    {
        let lossy = text_of_units(utf16.as_slice());
        DexString { utf16, lossy }
    }

    /// The string of the given text.
    pub fn from_text(value: &str) -> (string: Self)
        ensures
            string.units() == text_units(value@),
    {
        let mut utf16: Vec<u16> = Vec::new();
        let ghost f = |c: char| utf16_units(c);
        assert(value@.take(0).map_values(f) =~= Seq::empty());
        for c in it: value.chars()
            invariant
                it.seq() == value@,
                f == (|c: char| utf16_units(c)),
                utf16@ == joined(value@.take(it.index()).map_values(f)),
        {
            let ghost before = utf16@;
            let code: u32 = c as u32;
            if code < 0x1_0000 {
                utf16.push(code as u16);
            } else {
                utf16.push((0xD800 + (code - 0x1_0000) / 0x400) as u16);
                utf16.push((0xDC00 + (code - 0x1_0000) % 0x400) as u16);
            }
            assert(utf16@ =~= before + utf16_units(c));
            assert(value@.take(it.index() + 1).map_values(f).drop_last() =~= value@.take(
                it.index(),
            ).map_values(f));
        }
        assert(value@.take(value@.len() as int) =~= value@);
        DexString::from_utf16(utf16)
    }

    /// The text of this string, with a replacement character for each lone surrogate.
    pub fn as_str(&self) -> (text: &str)
        ensures
            text@ == self.text(),
    {
        proof {
            use_type_invariant(self);
        }
        self.lossy.as_str()
    }

    /// The code units of this string.
    pub fn utf16(&self) -> (units: &[u16])
        ensures
            units@ == self.units(),
    {
        self.utf16.as_slice()
    }
}

impl Clone for DexString {
    fn clone(&self) -> (copy: Self)
        ensures
            copy.units() == self.units(),
    {
        proof {
            use_type_invariant(self);
        }
        DexString { utf16: self.utf16.clone(), lossy: self.lossy.clone() }
    }
}

impl vstd::std_specs::convert::FromSpecImpl<&str> for DexString {
    open spec fn obeys_from_spec() -> bool {
        false
    }

    open spec fn from_spec(value: &str) -> DexString {
        arbitrary()
    }
}

impl From<&str> for DexString {
    fn from(value: &str) -> (string: DexString)
        ensures
            string.units() == text_units(value@),
    {
        DexString::from_text(value)
    }
}

impl vstd::std_specs::convert::FromSpecImpl<String> for DexString {
    open spec fn obeys_from_spec() -> bool {
        false
    }

    open spec fn from_spec(value: String) -> DexString {
        arbitrary()
    }
}

impl From<String> for DexString {
    fn from(value: String) -> (string: DexString)
        ensures
            string.units() == text_units(value@),
    {
        DexString::from_text(value.as_str())
    }
}

/// The code units of a character give the character back.
proof fn lemma_char_units(c: char)
    ensures
        utf16_units(c).len() == 1 ==> utf16_units(c)[0] as char == c && (utf16_units(c)[0] < 0xD800
            || utf16_units(c)[0] > 0xDFFF),
        utf16_units(c).len() != 1 ==> utf16_units(c).len() == 2 && 0xD800 <= utf16_units(c)[0]
            <= 0xDBFF && 0xDC00 <= utf16_units(c)[1] <= 0xDFFF && paired(
            utf16_units(c)[0],
            utf16_units(c)[1],
        ) == c,
{
}

proof fn lemma_units_read_back(text: Seq<char>, k: int)
    requires
        0 <= k <= text.len(),
    ensures
        text_from(
            text_units(text),
            text_units(text.take(k)).len() as int,
        ) == text.skip(k),
    decreases text.len() - k,
{
    let f = |c: char| utf16_units(c);
    let units = text_units(text);
    if k == text.len() {
        assert(text.take(k) =~= text);
        assert(text.skip(k) =~= Seq::empty());
    } else {
        lemma_units_read_back(text, k + 1);
        lemma_units_part(text, k);
        let at = text_units(text.take(k)).len() as int;
        let own = utf16_units(text[k]);
        lemma_char_units(text[k]);
        assert(units[at] == own[0]);
        if own.len() == 2 {
            assert(units[at + 1] == own[1]);
            assert(text_from(units, at) == seq![text[k]] + text_from(units, at + 2));
        } else {
            assert(text_from(units, at) == seq![text[k]] + text_from(units, at + 1));
        }
        assert(text_units(text.take(k + 1)).len() == at + own.len());
        assert(seq![text[k]] + text.skip(k + 1) =~= text.skip(k));
    }
}

proof fn lemma_units_part(text: Seq<char>, k: int)
    requires
        0 <= k < text.len(),
    ensures
        text_units(text.take(k)).len() + utf16_units(text[k]).len() <= text_units(text).len(),
        text_units(text.take(k + 1)) == text_units(text.take(k)) + utf16_units(text[k]),
        forall|j: int|
            0 <= j < utf16_units(text[k]).len() ==> text_units(text)[text_units(text.take(k)).len()
                + j] == #[trigger] utf16_units(text[k])[j],
    decreases text.len(),
{
    let f = |c: char| utf16_units(c);
    assert(text.take(k + 1).map_values(f).drop_last() =~= text.take(k).map_values(f));
    if k + 1 == text.len() {
        assert(text.take(k + 1) =~= text);
    } else {
        let front = text.drop_last();
        lemma_units_part(front, k);
        assert(front.take(k) =~= text.take(k));
        assert(text.map_values(f).drop_last() =~= front.map_values(f));
    }
}

/// A string made of a text shows that text.
pub proof fn law_text_survives_utf16(text: Seq<char>)
    ensures
        text_from(text_units(text), 0) == text,
{
    lemma_units_read_back(text, 0);
    assert(text.take(0).map_values(|c: char| utf16_units(c)) =~= Seq::empty());
    assert(text.skip(0) =~= text);
}

/// List of strings of a DEX file
#[derive(Debug)]
pub struct DexStrings {
    pub strings: Vec<DexString>,
}

/// The code units of each string of a list.
pub open spec fn string_units(strings: Seq<DexString>) -> Seq<Seq<u16>> {
    strings.map_values(|string: DexString| string.units())
}

/// The code units of the string data at `at`.
pub open spec fn string_item(data: Seq<u8>, at: int) -> Result<Seq<u16>, DexError> {
    match uleb_at(data, at) {
        None => Err(DexError::InvalidUleb128),
        Some(found) => {
            let start = found.1;
            let end = nul_from(data, start);
            if end >= data.len() {
                Err(DexError::InvalidMutf8(Mutf8Error::MissingTerminator))
            } else {
                match units_from(data.subrange(start, end), 0) {
                    Err(error) => Err(DexError::InvalidMutf8(error)),
                    Ok(units) => if units.len() != found.0 {
                        Err(
                            DexError::InvalidStringLength {
                                expected: found.0 as u32,
                                actual: units.len() as usize,
                            },
                        )
                    } else if end > u32::MAX {
                        Err(DexError::InvalidStringIdx)
                    } else {
                        Ok(units)
                    },
                }
            }
        },
    }
}

/// The code units of the strings that the table at `offset` names, by index.
pub open spec fn string_row(data: Seq<u8>, big_endian: bool, offset: int) -> spec_fn(int) -> Result<
    Seq<u16>,
    DexError,
> {
    |index: int|
        if offset + 4 * index + 4 > data.len() {
            Err(DexError::UnexpectedEnd)
        } else {
            string_item(data, word_at(data, big_endian, offset + 4 * index) as int)
        }
}

/// Reads the string data at `at`.
fn read_string_item(data: &[u8], at: u32) -> (string: Result<DexString, DexError>)
    ensures
        match string {
            Ok(string) => string_item(data@, at as int) == Ok::<Seq<u16>, DexError>(string.units()),
            Err(error) => string_item(data@, at as int) == Err::<Seq<u16>, DexError>(error),
        },
{
    let mut cursor: usize = at as usize;
    let expected: u32 = match crate::dex::read_uleb(data, &mut cursor) {
        Ok(expected) => expected,
        Err(_error) => {
            return Err(DexError::InvalidUleb128);
        },
    };
    let start: usize = cursor;
    let mut end: usize = start;
    while end < data.len() && data[end] != 0
        invariant
            start <= end <= data@.len(),
            forall|j: int| start <= j < end ==> #[trigger] data@[j] != 0,
        decreases data@.len() - end,
    {
        end = end + 1;
    }
    proof {
        lemma_nul_from(data@, start as int, end as int);
    }
    if end >= data.len() {
        return Err(DexError::InvalidMutf8(Mutf8Error::MissingTerminator));
    }
    let units: Vec<u16> = match decode(vstd::slice::slice_subrange(data, start, end)) {
        Ok(units) => units,
        Err(error) => {
            return Err(DexError::InvalidMutf8(error));
        },
    };
    let actual: usize = units.len();
    if actual != expected as usize {
        return Err(DexError::InvalidStringLength { expected, actual });
    }
    if end > u32::MAX as usize {
        return Err(DexError::InvalidStringIdx);
    }
    Ok(DexString::from_utf16(units))
}

impl DexStrings {
    /// Parse all strings from a DEX file.
    ///
    /// The bytes of every string are checked for well-formedness and for the declared UTF-16
    /// length.
    pub fn build(dex_reader: &mut DexReader, offset: u32, size: u32) -> (strings: Result<
        Self,
        DexError,
    >)
        ensures
            final(dex_reader).same_image(old(dex_reader)),
            match strings {
                Ok(list) => collect(
                    size as int,
                    string_row(old(dex_reader).bytes@, old(dex_reader).big_endian, offset as int),
                ) == Ok::<Seq<Seq<u16>>, DexError>(string_units(list.strings@)),
                Err(error) => collect(
                    size as int,
                    string_row(old(dex_reader).bytes@, old(dex_reader).big_endian, offset as int),
                ) == Err::<Seq<Seq<u16>>, DexError>(error),
            },
    {
        let ghost data = dex_reader.bytes@;
        let ghost big_endian = dex_reader.big_endian;
        let ghost f = string_row(data, big_endian, offset as int);
        let ghost image = *dex_reader;
        dex_reader.seek(offset);
        let mut strings: Vec<DexString> = Vec::new();
        let mut index: u32 = 0;
        assert(string_units(strings@) =~= Seq::empty());
        while index < size
            invariant
                dex_reader.same_image(&image),
                image == *old(dex_reader),
                image.bytes@ == data,
                image.big_endian == big_endian,
                f == string_row(data, big_endian, offset as int),
                index <= size,
                dex_reader.position == offset + 4 * index,
                collect(index as int, f) == Ok::<Seq<Seq<u16>>, DexError>(string_units(strings@)),
            decreases size - index,
        {
            let at: u32 = match dex_reader.read_u32() {
                Ok(at) => at,
                Err(error) => {
                    proof {
                        lemma_collect_fails(size as int, index as int, f);
                    }
                    return Err(error);
                },
            };
            match read_string_item(dex_reader.bytes.as_slice(), at) {
                Ok(string) => {
                    let ghost before = strings@;
                    strings.push(string);
                    assert(string_units(strings@) =~= string_units(before).push(string.units()));
                },
                Err(error) => {
                    proof {
                        lemma_collect_fails(size as int, index as int, f);
                    }
                    return Err(error);
                },
            }
            index = index + 1;
        }
        Ok(DexStrings { strings })
    }
}

} // verus!
