//! The strings of an archive, searched and paged.
use super::entries::{dex_entries, parse_dex_entries};
use crate::dex::container::{logical_dexes, logical_of, logical_views, LogicalDex, LogicalView};
use crate::dex::mutf8::{all_ascii, as_chars, decode_owned, is_ascii, shown};
use crate::dex::{dex_error, raw_string, table_size, Dex};
use crate::error::{Error, Table};
use crate::seqs::{occurs, occurs_at};
use crate::text::{chars_of, contains_text};
use crate::zip::{
    bytes_outcome, entry_views, inflate_entry, inflates_to, BytesSource, EntryView, ZipEntry,
};
use vstd::prelude::*;
use vstd::utf8::encode_utf8;

verus! {

/// A byte in lower case, if it is an ASCII letter.
pub open spec fn lower_byte(byte: u8) -> u8 {
    if 0x41 <= byte <= 0x5A {
        (byte + 0x20) as u8
    } else {
        byte
    }
}

/// Bytes in lower case, as far as they are ASCII letters.
pub open spec fn lower_bytes(bytes: Seq<u8>) -> Seq<u8> {
    bytes.map_values(|byte: u8| lower_byte(byte))
}

/// The lower case of a text, as Unicode has it.
pub uninterp spec fn lowercase(text: Seq<char>) -> Seq<char>;

/// `str::to_lowercase`. Of an ASCII text it is the text with its letters in lower case; of other
/// texts it goes by Unicode's tables, which are named [`lowercase`] and not stated.
#[verifier::external_body]
pub(crate) fn to_lowercase(text: &str) -> (lower: String)
    ensures
        lower@ == lowercase(text@),
        all_ascii(encode_utf8(text@)) ==> encode_utf8(lower@) == lower_bytes(encode_utf8(text@)),
{
    text.to_lowercase()
}

/// Whether ASCII bytes contain a needle in lower case, ignoring case.
pub open spec fn ascii_contains(hay: Seq<u8>, needle: Seq<u8>) -> bool {
    occurs(lower_bytes(hay), needle)
}

/// Whether the bytes of `needle` stand at `at`, ignoring the case of the haystack.
fn lower_at(hay: &[u8], needle: &[u8], at: usize) -> (found: bool)
    ensures
        found == occurs_at(lower_bytes(hay@), needle@, at as int),
{
    let total: usize = hay.len();
    if at > total || needle.len() > total - at {
        return false;
    }
    let ghost lower = lower_bytes(hay@);
    let mut i: usize = 0;
    while i < needle.len()
        invariant
            i <= needle@.len(),
            at + needle@.len() <= total == hay@.len(),
            lower == lower_bytes(hay@),
            forall|j: int| 0 <= j < i ==> lower[at + j] == #[trigger] needle@[j],
        decreases needle@.len() - i,
    {
        let byte = hay[at + i];
        let folded: u8 = if byte >= 0x41 && byte <= 0x5A {
            byte + 0x20
        } else {
            byte
        };
        assert(folded == lower[at + i]);
        if folded != needle[i] {
            assert(lower.subrange(at as int, at + needle@.len())[i as int] != needle@[i as int]);
            return false;
        }
        i = i + 1;
    }
    assert(lower.subrange(at as int, at + needle@.len()) =~= needle@);
    true
}

/// Whether ASCII bytes contain a needle in lower case, ignoring case, without a copy.
fn bytes_contain(hay: &[u8], needle: &[u8]) -> (found: bool)
    ensures
        found == ascii_contains(hay@, needle@),
{
    let ghost lower = lower_bytes(hay@);
    if needle.len() > hay.len() {
        return false;
    }
    let last: usize = hay.len() - needle.len();
    let mut at: usize = 0;
    while at < last
        invariant
            at <= last == hay@.len() - needle@.len(),
            lower == lower_bytes(hay@),
            forall|j: int| 0 <= j < at ==> !#[trigger] occurs_at(lower, needle@, j),
        decreases last - at,
    {
        if lower_at(hay, needle, at) {
            return true;
        }
        at = at + 1;
    }
    lower_at(hay, needle, at)
}

/// What the raw bytes of a string answer to a search: nothing when either side is not ASCII.
pub open spec fn raw_answer(raw: Seq<u8>, needle: Seq<char>) -> Option<bool> {
    if !all_ascii(encode_utf8(needle)) || !all_ascii(raw) {
        None
    } else {
        Some(ascii_contains(raw, encode_utf8(needle)))
    }
}

/// Whether a string's raw MUTF-8 bytes contain an ASCII needle, ignoring case.
///
/// `None` means this pair cannot be answered from the bytes - the value is not ASCII, or
/// the needle is not - and the caller decodes and folds instead. It is sound for the pair
/// it does answer: MUTF-8 is ASCII-compatible, so no byte of a multi-byte sequence is an
/// ASCII byte, and an ASCII needle can only ever match ASCII characters.
pub fn raw_contains_ignore_case(raw: &[u8], needle_lower: &str) -> (answer: Option<bool>)
    ensures
        answer == raw_answer(raw@, needle_lower@),
{
    let needle = needle_lower.as_bytes();
    if !is_ascii(needle) || !is_ascii(raw) {
        return None;
    }
    Some(bytes_contain(raw, needle))
}

/// Whether a text contains a needle in lower case, ignoring case.
pub open spec fn text_contains(haystack: Seq<char>, needle: Seq<char>) -> bool {
    if all_ascii(encode_utf8(haystack)) && all_ascii(encode_utf8(needle)) {
        ascii_contains(encode_utf8(haystack), encode_utf8(needle))
    } else {
        occurs(lowercase(haystack), needle)
    }
}

/// Whether `haystack` contains `needle_lower`, ignoring case, without a copy where it can.
///
/// ASCII is the case that happens (descriptors, member names, URLs, messages) and it lowercases
/// byte by byte; anything non-ASCII falls back to the Unicode fold.
pub fn contains_ignore_case(haystack: &str, needle_lower: &str) -> (found: bool)
    ensures
        found == text_contains(haystack@, needle_lower@),
{
    let hay = haystack.as_bytes();
    let needle = needle_lower.as_bytes();
    if is_ascii(hay) && is_ascii(needle) {
        return bytes_contain(hay, needle);
    }
    let lower = to_lowercase(haystack);
    contains_text(chars_of(lower.as_str()).as_slice(), chars_of(needle_lower).as_slice())
}

/// ASCII bytes are the UTF-8 form of the characters they are.
proof fn lemma_ascii_utf8(bytes: Seq<u8>)
    requires
        all_ascii(bytes),
    ensures
        encode_utf8(as_chars(bytes)) == bytes,
{
    let chars = as_chars(bytes);
    assert(vstd::utf8::is_ascii_chars(chars)) by {
        assert forall|i: int| 0 <= i < chars.len() implies (0 <= #[trigger] chars[i] as nat)
            && (chars[i] as nat) < 128 by {
            assert(chars[i] == bytes[i] as char);
        }
    }
    vstd::utf8::is_ascii_chars_encode_utf8(chars);
    assert(encode_utf8(chars) =~= bytes);
}

/// The answer the raw bytes give is the one the decoded text gives.
pub proof fn law_raw_answer_is_the_texts(raw: Seq<u8>, needle: Seq<char>)
    requires
        raw_answer(raw, needle) is Some,
    ensures
        text_contains(shown(raw), needle) == raw_answer(raw, needle)->0,
{
    lemma_ascii_utf8(raw);
}

/// A text whose UTF-8 form is ASCII is made of the characters that its bytes are.
proof fn lemma_ascii_text(text: Seq<char>)
    requires
        all_ascii(encode_utf8(text)),
    ensures
        text == as_chars(encode_utf8(text)),
{
    let bytes = encode_utf8(text);
    lemma_ascii_utf8(bytes);
    vstd::utf8::encode_utf8_decode_utf8(text);
    vstd::utf8::encode_utf8_decode_utf8(as_chars(bytes));
}

/// ASCII bytes stand where the characters they are stand.
proof fn lemma_ascii_occurs(hay: Seq<u8>, needle: Seq<u8>, at: int)
    ensures
        occurs_at(hay, needle, at) == occurs_at(as_chars(hay), as_chars(needle), at),
{
    if 0 <= at && at + needle.len() <= hay.len() {
        let part = hay.subrange(at, at + needle.len());
        let chars = as_chars(hay).subrange(at, at + needle.len());
        assert(chars =~= as_chars(part));
        if part == needle {
            assert(chars =~= as_chars(needle));
        }
        if chars == as_chars(needle) {
            assert forall|i: int| 0 <= i < part.len() implies part[i] == needle[i] by {
                assert(chars[i] == as_chars(needle)[i]);
                assert(part[i] as char == needle[i] as char);
            }
            assert(part =~= needle);
        }
    }
}

/// The ASCII shortcut does not change the answer: for an ASCII text and needle it is the one the
/// Unicode fold gives, given that the fold of the text is its bytes in lower case.
pub proof fn law_ascii_search_is_the_fold(haystack: Seq<char>, needle: Seq<char>)
    requires
        all_ascii(encode_utf8(haystack)),
        all_ascii(encode_utf8(needle)),
        encode_utf8(lowercase(haystack)) == lower_bytes(encode_utf8(haystack)),
    ensures
        text_contains(haystack, needle) == occurs(lowercase(haystack), needle),
{
    let low = lower_bytes(encode_utf8(haystack));
    let sought = encode_utf8(needle);
    assert(all_ascii(low));
    lemma_ascii_text(lowercase(haystack));
    lemma_ascii_text(needle);
    let folded = lowercase(haystack);
    if occurs(low, sought) {
        let at = choose|at: int| #[trigger] occurs_at(low, sought, at);
        lemma_ascii_occurs(low, sought, at);
        assert(occurs_at(folded, needle, at));
    }
    if occurs(folded, needle) {
        let at = choose|at: int| #[trigger] occurs_at(folded, needle, at);
        lemma_ascii_occurs(low, sought, at);
        assert(occurs_at(low, sought, at));
    }
}

/// One string, and which DEX it came from.
#[derive(Clone, Debug)]
pub struct StringEntry {
    pub dex_name: String,
    /// The index in that DEX's string table, which is the order the table stores.
    pub index: usize,
    pub value: String,
}

/// A string, with its texts as characters.
#[verifier::ext_equal]
pub struct StringView {
    pub dex_name: Seq<char>,
    pub index: int,
    pub value: Seq<char>,
}

impl View for StringEntry {
    type V = StringView;

    open spec fn view(&self) -> StringView {
        StringView {
            dex_name: self.dex_name@,
            index: self.index as int,
            value: self.value@,
        }
    }
}

/// The views of a list of strings.
pub open spec fn string_views(list: Seq<StringEntry>) -> Seq<StringView> {
    list.map_values(|entry: StringEntry| entry@)
}

/// Whether a string with the given raw bytes is one that is looked for.
pub open spec fn wanted(raw: Seq<u8>, needle: Option<Seq<char>>) -> bool {
    match needle {
        None => true,
        Some(needle) => match raw_answer(raw, needle) {
            Some(answer) => answer,
            None => text_contains(shown(raw), needle),
        },
    }
}

/// Whether a list of `count` rows is all that is asked for.
pub open spec fn full(room: Option<int>, count: int) -> bool {
    room matches Some(most) && count >= most
}

/// The rows `rows`, and behind them those of the strings of a DEX from the `index`-th on, until
/// there are as many as asked for. `name` is the entry they are reported under.
pub open spec fn dex_rows(
    name: Seq<char>,
    data: Seq<u8>,
    needle: Option<Seq<char>>,
    room: Option<int>,
    index: int,
    rows: Seq<StringView>,
) -> Result<Seq<StringView>, Error>
    decreases table_size(data, Table::Strings) - index,
{
    if index >= table_size(data, Table::Strings) || full(room, rows.len() as int) {
        Ok(rows)
    } else {
        match raw_string(data, index) {
            Err(error) => Err(error),
            Ok(raw) => {
                let row = StringView { dex_name: name, index, value: shown(raw) };
                dex_rows(
                    name,
                    data,
                    needle,
                    room,
                    index + 1,
                    if wanted(raw, needle) {
                        rows.push(row)
                    } else {
                        rows
                    },
                )
            },
        }
    }
}

/// The rows `rows`, and behind them those of the logical DEX files from the `k`-th on.
pub open spec fn logical_rows(
    name: Seq<char>,
    list: Seq<LogicalView>,
    needle: Option<Seq<char>>,
    room: Option<int>,
    k: int,
    rows: Seq<StringView>,
) -> Result<Seq<StringView>, Error>
    decreases list.len() - k,
{
    if k >= list.len() || full(room, rows.len() as int) {
        Ok(rows)
    } else {
        match dex_error(list[k].data) {
            Some(error) => Err(error),
            None => match dex_rows(name, list[k].data, needle, room, 0, rows) {
                Err(error) => Err(error),
                Ok(more) => logical_rows(name, list, needle, room, k + 1, more),
            },
        }
    }
}

/// The rows `rows`, and behind them those of an entry, given what inflating it gave.
pub open spec fn entry_rows(
    name: Seq<char>,
    data: Result<Seq<u8>, Error>,
    needle: Option<Seq<char>>,
    room: Option<int>,
    rows: Seq<StringView>,
) -> Result<Seq<StringView>, Error> {
    match data {
        Err(error) => Err(error),
        Ok(data) => match logical_of(name, data) {
            Err(error) => Err(error),
            Ok(list) => logical_rows(name, list, needle, room, 0, rows),
        },
    }
}

/// The needle of a search, as characters.
pub open spec fn needle_text(needle: Option<&str>) -> Option<Seq<char>> {
    match needle {
        Some(needle) => Some(needle@),
        None => None,
    }
}

/// How many rows are asked for.
pub open spec fn room_size(room: Option<usize>) -> Option<int> {
    match room {
        Some(most) => Some(most as int),
        None => None,
    }
}

fn is_full(room: Option<usize>, count: usize) -> (yes: bool)
    ensures
        yes == full(room_size(room), count as int),
{
    match room {
        Some(most) => count >= most,
        None => false,
    }
}

fn is_wanted(raw: &[u8], needle: Option<&str>) -> (yes: bool)
    ensures
        yes == wanted(raw@, needle_text(needle)),
{
    match needle {
        None => true,
        // An ASCII needle against ASCII bytes is a comparison, not a decode;
        // anything else takes the Unicode fold.
        Some(needle) => match raw_contains_ignore_case(raw, needle) {
            Some(answer) => answer,
            None => contains_ignore_case(decode_owned(raw).as_str(), needle),
        },
    }
}

/// Appends the rows of one DEX.
fn push_dex_rows(
    name: &str,
    data: &[u8],
    needle: Option<&str>,
    room: Option<usize>,
    rows: &mut Vec<StringEntry>,
) -> (done: Result<(), Error>)
    ensures
        match dex_error(data@) {
            Some(error) => done == Err::<(), Error>(error),
            None => match dex_rows(
                name@,
                data@,
                needle_text(needle),
                room_size(room),
                0,
                string_views(old(rows)@),
            ) {
                Ok(more) => done is Ok && string_views(final(rows)@) == more,
                Err(error) => done == Err::<(), Error>(error),
            },
        },
{
    let dex = match Dex::parse(data) {
        Ok(dex) => dex,
        Err(error) => {
            return Err(error);
        },
    };
    let ghost asked = needle_text(needle);
    let ghost most = room_size(room);
    let ghost all = dex_rows(name@, data@, asked, most, 0, string_views(rows@));
    let count: usize = dex.header.strings_size;
    let mut index: usize = 0;
    while index < count && !is_full(room, rows.len())
        invariant
            dex.valid(),
            dex.data == data,
            count == dex.header.strings_size,
            asked == needle_text(needle),
            most == room_size(room),
            all == dex_rows(name@, data@, asked, most, 0, string_views(old(rows)@)),
            index <= count,
            all == dex_rows(name@, data@, asked, most, index as int, string_views(rows@)),
        decreases count - index,
    {
        let raw = match dex.raw_string(index) {
            Ok(raw) => raw,
            Err(error) => {
                return Err(error);
            },
        };
        if is_wanted(raw, needle) {
            let ghost before = rows@;
            let row = StringEntry { dex_name: name.to_owned(), index, value: decode_owned(raw) };
            rows.push(row);
            assert(string_views(rows@) =~= string_views(before).push(row@));
        }
        index = index + 1;
    }
    Ok(())
}

/// Appends the rows of an entry with the bytes `data`.
pub fn push_data_rows(
    name: &str,
    data: &[u8],
    needle: Option<&str>,
    room: Option<usize>,
    rows: &mut Vec<StringEntry>,
) -> (done: Result<(), Error>)
    ensures
        match entry_rows(
            name@,
            Ok(data@),
            needle_text(needle),
            room_size(room),
            string_views(old(rows)@),
        ) {
            Ok(more) => done is Ok && string_views(final(rows)@) == more,
            Err(error) => done == Err::<(), Error>(error),
        },
{
    let list = match logical_dexes(name, data) {
        Ok(list) => list,
        Err(error) => {
            return Err(error);
        },
    };
    let ghost views = logical_views(list@);
    let ghost asked = needle_text(needle);
    let ghost most = room_size(room);
    let ghost all = logical_rows(name@, views, asked, most, 0, string_views(rows@));
    let mut k: usize = 0;
    while k < list.len() && !is_full(room, rows.len())
        invariant
            views == logical_views(list@),
            logical_of(name@, data@) == Ok::<Seq<LogicalView>, Error>(views),
            asked == needle_text(needle),
            most == room_size(room),
            all == logical_rows(name@, views, asked, most, 0, string_views(old(rows)@)),
            k <= list@.len(),
            all == logical_rows(name@, views, asked, most, k as int, string_views(rows@)),
        decreases list@.len() - k,
    {
        let logical: &LogicalDex = &list[k];
        assert(views[k as int] == logical@);
        match push_dex_rows(name, logical.data.as_slice(), needle, room, rows) {
            Ok(_) => {},
            Err(error) => {
                return Err(error);
            },
        }
        k = k + 1;
    }
    Ok(())
}

/// The rows of the first `n` entries, given what inflating them gave.
pub open spec fn walked_rows(
    entries: Seq<ZipEntry>,
    datas: Seq<Result<Seq<u8>, Error>>,
    needle: Option<Seq<char>>,
    room: Option<int>,
    n: int,
) -> Result<Seq<StringView>, Error>
    decreases n,
{
    if n <= 0 {
        Ok(Seq::empty())
    } else {
        match walked_rows(entries, datas, needle, room, n - 1) {
            Err(error) => Err(error),
            Ok(rows) => entry_rows(entries[n - 1].name@, datas[n - 1], needle, room, rows),
        }
    }
}

/// Whether `datas` is what inflating the entries in order gave, and each of them had to be read
/// because there were not as many rows as asked for.
pub open spec fn reads(
    bytes: Seq<u8>,
    entries: Seq<ZipEntry>,
    max_inflated: usize,
    needle: Option<Seq<char>>,
    room: Option<int>,
    datas: Seq<Result<Seq<u8>, Error>>,
) -> bool {
    &&& datas.len() <= entries.len()
    &&& forall|i: int|
        0 <= i < datas.len() ==> inflates_to(bytes, entries[i], max_inflated, #[trigger] datas[i])
    &&& forall|n: int|
        0 <= n < datas.len() ==> (#[trigger] walked_rows(entries, datas, needle, room, n) matches Ok(
            rows,
        ) && !full(room, rows.len() as int))
}

/// Whether `result` is what the entries that were read come to.
pub open spec fn gathers(
    entries: Seq<ZipEntry>,
    datas: Seq<Result<Seq<u8>, Error>>,
    needle: Option<Seq<char>>,
    room: Option<int>,
    result: Result<Seq<StringView>, Error>,
) -> bool {
    &&& walked_rows(entries, datas, needle, room, datas.len() as int) == result
    &&& result matches Ok(rows) ==> datas.len() == entries.len() || full(room, rows.len() as int)
}

/// Whether `result` are the rows of the given entries.
pub open spec fn gathers_entries(
    bytes: Seq<u8>,
    entries: Seq<ZipEntry>,
    max_inflated: usize,
    needle: Option<Seq<char>>,
    room: Option<int>,
    result: Result<Seq<StringView>, Error>,
) -> bool {
    exists|datas: Seq<Result<Seq<u8>, Error>>| #[trigger]
        reads(bytes, entries, max_inflated, needle, room, datas) && gathers(
            entries,
            datas,
            needle,
            room,
            result,
        )
}

/// The page of some rows that starts behind the first `skip` and holds at most `take`.
pub open spec fn page(rows: Seq<StringView>, skip: int, take: int) -> Seq<StringView> {
    let rest = if skip <= rows.len() {
        rows.skip(skip)
    } else {
        Seq::empty()
    };
    if take <= rest.len() {
        rest.take(take)
    } else {
        rest
    }
}

/// What was gathered, cut to a page.
pub open spec fn paged(rows: Result<Seq<StringView>, Error>, skip: int, take: int) -> Result<
    Seq<StringView>,
    Error,
> {
    match rows {
        Ok(rows) => Ok(page(rows, skip, take)),
        Err(error) => Err(error),
    }
}

/// The outcome of a call that returns strings, with the strings as views.
pub open spec fn strings_outcome(result: Result<Vec<StringEntry>, Error>) -> Result<
    Seq<StringView>,
    Error,
> {
    match result {
        Ok(list) => Ok(string_views(list@)),
        Err(error) => Err(error),
    }
}

/// What one more entry does to what was read.
proof fn lemma_rows_prefix(
    entries: Seq<ZipEntry>,
    datas: Seq<Result<Seq<u8>, Error>>,
    data: Result<Seq<u8>, Error>,
    needle: Option<Seq<char>>,
    room: Option<int>,
    n: int,
)
    requires
        n <= datas.len(),
    ensures
        walked_rows(entries, datas.push(data), needle, room, n) == walked_rows(
            entries,
            datas,
            needle,
            room,
            n,
        ),
    decreases n,
{
    if n > 0 {
        lemma_rows_prefix(entries, datas, data, needle, room, n - 1);
        assert(datas.push(data)[n - 1] == datas[n - 1]);
    }
}

proof fn lemma_reads_grow(
    bytes: Seq<u8>,
    entries: Seq<ZipEntry>,
    max_inflated: usize,
    needle: Option<Seq<char>>,
    room: Option<int>,
    datas: Seq<Result<Seq<u8>, Error>>,
    data: Result<Seq<u8>, Error>,
)
    requires
        reads(bytes, entries, max_inflated, needle, room, datas),
        datas.len() < entries.len(),
        inflates_to(bytes, entries[datas.len() as int], max_inflated, data),
        walked_rows(entries, datas, needle, room, datas.len() as int) matches Ok(rows) && !full(
            room,
            rows.len() as int,
        ),
    ensures
        reads(bytes, entries, max_inflated, needle, room, datas.push(data)),
        walked_rows(entries, datas.push(data), needle, room, (datas.len() + 1) as int) == entry_rows(
            entries[datas.len() as int].name@,
            data,
            needle,
            room,
            walked_rows(entries, datas, needle, room, datas.len() as int)->Ok_0,
        ),
{
    let more = datas.push(data);
    assert forall|n: int| 0 <= n < more.len() implies (#[trigger] walked_rows(
        entries,
        more,
        needle,
        room,
        n,
    ) matches Ok(rows) && !full(room, rows.len() as int)) by {
        lemma_rows_prefix(entries, datas, data, needle, room, n);
        if n < datas.len() {
            assert(walked_rows(entries, datas, needle, room, n) is Ok);
        }
    }
    assert forall|k: int| 0 <= k < more.len() implies inflates_to(
        bytes,
        entries[k],
        max_inflated,
        #[trigger] more[k],
    ) by {
        if k < datas.len() {
            assert(more[k] == datas[k]);
        }
    }
    lemma_rows_prefix(entries, datas, data, needle, room, datas.len() as int);
}

/// The rows of the given entries, in order, until there are as many as asked for.
pub fn gather_strings<S: BytesSource + ?Sized>(
    source: &S,
    entries: &Vec<ZipEntry>,
    max_inflated: usize,
    needle: Option<&str>,
    room: Option<usize>,
) -> (rows: Result<Vec<StringEntry>, Error>)
    ensures
        gathers_entries(
            source.bytes(),
            entries@,
            max_inflated,
            needle_text(needle),
            room_size(room),
            strings_outcome(rows),
        ),
{
    let ghost bytes = source.bytes();
    let ghost asked = needle_text(needle);
    let ghost most = room_size(room);
    let ghost mut datas: Seq<Result<Seq<u8>, Error>> = Seq::empty();
    let mut rows: Vec<StringEntry> = Vec::new();
    let mut i: usize = 0;
    assert(string_views(rows@) =~= Seq::empty());
    // A page that is already full has nothing to learn from the entries below it, and
    // *inflating* one to find that out is the expensive half of the walk.
    while i < entries.len() && !is_full(room, rows.len())
        invariant
            bytes == source.bytes(),
            asked == needle_text(needle),
            most == room_size(room),
            i <= entries@.len(),
            datas.len() == i,
            reads(bytes, entries@, max_inflated, asked, most, datas),
            walked_rows(entries@, datas, asked, most, i as int) == Ok::<Seq<StringView>, Error>(
                string_views(rows@),
            ),
        decreases entries@.len() - i,
    {
        let entry = &entries[i];
        let data = inflate_entry(source, entry, max_inflated);
        let ghost read = bytes_outcome(data);
        proof {
            lemma_reads_grow(bytes, entries@, max_inflated, asked, most, datas, read);
            datas = datas.push(read);
        }
        match data {
            Ok(data) => match push_data_rows(
                entry.name.as_str(),
                data.as_slice(),
                needle,
                room,
                &mut rows,
            ) {
                Ok(_) => {},
                Err(error) => {
                    assert(gathers(
                        entries@,
                        datas,
                        asked,
                        most,
                        Err::<Seq<StringView>, Error>(error),
                    ));
                    return Err(error);
                },
            },
            Err(error) => {
                assert(gathers(entries@, datas, asked, most, Err::<Seq<StringView>, Error>(error)));
                return Err(error);
            },
        }
        i = i + 1;
    }
    assert(gathers(
        entries@,
        datas,
        asked,
        most,
        Ok::<Seq<StringView>, Error>(string_views(rows@)),
    ));
    Ok(rows)
}

/// The page of some rows that starts behind the first `skip` and holds at most `take`.
fn cut_page(rows: Vec<StringEntry>, skip: usize, take: usize) -> (cut: Vec<StringEntry>)
    ensures
        string_views(cut@) == page(string_views(rows@), skip as int, take as int),
{
    let mut rows = rows;
    let ghost before = rows@;
    let at: usize = if skip <= rows.len() {
        skip
    } else {
        rows.len()
    };
    let mut rest = rows.split_off(at);
    assert(rest@ =~= before.subrange(at as int, before.len() as int));
    rest.truncate(take);
    assert(string_views(rest@) =~= page(string_views(before), skip as int, take as int));
    rest
}

/// How many rows a page needs to be decided: those it skips and those it holds.
pub open spec fn page_reach(skip: int, take: int) -> int {
    if skip + take <= usize::MAX {
        skip + take
    } else {
        usize::MAX as int
    }
}

/// How many rows a page skips.
pub open spec fn page_skip(offset: Option<usize>) -> int {
    match offset {
        Some(offset) => offset as int,
        None => 0,
    }
}

/// How many rows a page holds at most.
pub open spec fn page_take(limit: Option<usize>) -> int {
    match limit {
        Some(limit) => limit as int,
        None => usize::MAX as int,
    }
}

/// A filter that may be absent, as characters.
pub open spec fn filter_text(filter: Option<&str>) -> Option<Seq<char>> {
    match filter {
        Some(filter) => Some(filter@),
        None => None,
    }
}

/// Whether `result` is the page of strings of an archive that is asked for.
pub open spec fn lists_strings(
    bytes: Seq<u8>,
    threads: usize,
    filter: Option<Seq<char>>,
    limit: Option<usize>,
    offset: Option<usize>,
    max_inflated: usize,
    result: Result<Seq<StringView>, Error>,
) -> bool {
    let take = page_take(limit);
    let skip = page_skip(offset);
    let needle = match filter {
        Some(filter) => Some(lowercase(filter)),
        None => None,
    };
    let room = if threads == 1 {
        Some(page_reach(skip, take))
    } else {
        None
    };
    match (threads, dex_entries(bytes)) {
        (0, _) => result == Err::<Seq<StringView>, Error>(Error::NoWorkers),
        (_, Err(error)) => result == Err::<Seq<StringView>, Error>(error),
        (_, Ok(views)) => exists|entries: Seq<ZipEntry>| #[trigger]
            entry_views(entries) == views && lists_page(
                bytes,
                entries,
                max_inflated,
                needle,
                room,
                skip,
                take,
                result,
            ),
    }
}

/// Every string in every root DEX, in central-directory order and table order within
/// an entry, or the ones `filter` matches.
///
/// Not sorted: a string table is indexed, the index is what a `findrefs` row resolves
/// through, and the order the file declares is the only order that means anything.
///
/// `filter` is a case-insensitive substring of the value, `limit` keeps the first that
/// many matches in the order this function returns them, and `offset` starts that page
/// later in the same order. With one worker the walk stops once it holds everything the page
/// needs, which is the skipped matches plus the page itself.
pub fn list_strings<S: BytesSource + ?Sized>(
    source: &S,
    threads: usize,
    filter: Option<&str>,
    limit: Option<usize>,
    offset: Option<usize>,
    max_inflated: usize,
) -> (rows: Result<Vec<StringEntry>, Error>)
    ensures
        lists_strings(
            source.bytes(),
            threads,
            filter_text(filter),
            limit,
            offset,
            max_inflated,
            strings_outcome(rows),
        ),
{
    if threads == 0 {
        return Err(Error::NoWorkers);
    }
    let take: usize = match limit {
        Some(limit) => limit,
        None => usize::MAX,
    };
    let skip: usize = match offset {
        Some(offset) => offset,
        None => 0,
    };
    let fill: usize = match skip.checked_add(take) {
        Some(fill) => fill,
        None => usize::MAX,
    };
    // The early stop is only sound for a serial walk; entries that are walked in parallel are
    // ordered afterwards, and the page is cut from all of them.
    let room: Option<usize> = if threads == 1 {
        Some(fill)
    } else {
        None
    };
    let lower: Option<String> = match filter {
        Some(filter) => Some(to_lowercase(filter)),
        None => None,
    };
    let needle: Option<&str> = match &lower {
        Some(lower) => Some(lower.as_str()),
        None => None,
    };
    let entries = match parse_dex_entries(source) {
        Ok(entries) => entries,
        Err(error) => {
            return Err(error);
        },
    };
    assert(dex_entries(source.bytes()) == Ok::<Seq<EntryView>, Error>(entry_views(entries@)));
    let gathered = gather_strings(source, &entries, max_inflated, needle, room);
    let ghost outcome = strings_outcome(gathered);
    let rows = match gathered {
        Ok(rows) => Ok(cut_page(rows, skip, take)),
        Err(error) => Err(error),
    };
    assert(lists_page(
        source.bytes(),
        entries@,
        max_inflated,
        needle_text(needle),
        room_size(room),
        skip as int,
        take as int,
        strings_outcome(rows),
    ));
    rows
}

/// Whether `result` is a page of the rows of the given entries.
pub open spec fn lists_page(
    bytes: Seq<u8>,
    entries: Seq<ZipEntry>,
    max_inflated: usize,
    needle: Option<Seq<char>>,
    room: Option<int>,
    skip: int,
    take: int,
    result: Result<Seq<StringView>, Error>,
) -> bool {
    exists|rows: Result<Seq<StringView>, Error>| #[trigger]
        gathers_entries(bytes, entries, max_inflated, needle, room, rows) && result == paged(
            rows,
            skip,
            take,
        )
}

/// The first `most` of some rows.
pub open spec fn head(rows: Seq<StringView>, most: int) -> Seq<StringView> {
    if most <= rows.len() {
        rows.take(most)
    } else {
        rows
    }
}

/// A search of one DEX that stops early has the first rows of one that does not.
proof fn lemma_dex_rows_head(
    name: Seq<char>,
    data: Seq<u8>,
    needle: Option<Seq<char>>,
    most: int,
    index: int,
    rows: Seq<StringView>,
)
    requires
        0 <= most,
        dex_rows(name, data, needle, None, index, rows) is Ok,
    ensures
        dex_rows(name, data, needle, Some(most), index, head(rows, most)) == Ok::<
            Seq<StringView>,
            Error,
        >(head(dex_rows(name, data, needle, None, index, rows)->Ok_0, most)),
        rows.is_prefix_of(dex_rows(name, data, needle, None, index, rows)->Ok_0),
    decreases table_size(data, Table::Strings) - index,
{
    if index < table_size(data, Table::Strings) {
        let raw = raw_string(data, index)->Ok_0;
        let row = StringView { dex_name: name, index, value: shown(raw) };
        let more = if wanted(raw, needle) {
            rows.push(row)
        } else {
            rows
        };
        lemma_dex_rows_head(name, data, needle, most, index + 1, more);
        let all = dex_rows(name, data, needle, None, index, rows)->Ok_0;
        assert(rows.is_prefix_of(all)) by {
            assert(rows =~= more.take(rows.len() as int));
        }
        if rows.len() < most {
            assert(head(rows, most) == rows);
            assert(head(more, most) =~= more);
        } else {
            assert(head(rows, most) =~= head(all, most));
        }
    }
}

proof fn lemma_logical_rows_head(
    name: Seq<char>,
    list: Seq<LogicalView>,
    needle: Option<Seq<char>>,
    most: int,
    k: int,
    rows: Seq<StringView>,
)
    requires
        0 <= most,
        logical_rows(name, list, needle, None, k, rows) is Ok,
    ensures
        logical_rows(name, list, needle, Some(most), k, head(rows, most)) == Ok::<
            Seq<StringView>,
            Error,
        >(head(logical_rows(name, list, needle, None, k, rows)->Ok_0, most)),
        rows.is_prefix_of(logical_rows(name, list, needle, None, k, rows)->Ok_0),
    decreases list.len() - k,
{
    if k < list.len() {
        let more = dex_rows(name, list[k].data, needle, None, 0, rows)->Ok_0;
        lemma_dex_rows_head(name, list[k].data, needle, most, 0, rows);
        lemma_logical_rows_head(name, list, needle, most, k + 1, more);
        let all = logical_rows(name, list, needle, None, k, rows)->Ok_0;
        assert(rows.is_prefix_of(all)) by {
            assert(rows =~= more.take(rows.len() as int));
        }
        if rows.len() >= most {
            assert(head(rows, most) =~= head(all, most));
        }
    }
}

/// A walk that stops early has the first rows of one that does not.
pub proof fn law_early_stop_keeps_the_first_rows(
    entries: Seq<ZipEntry>,
    datas: Seq<Result<Seq<u8>, Error>>,
    needle: Option<Seq<char>>,
    most: int,
    n: int,
)
    requires
        0 <= most,
        walked_rows(entries, datas, needle, None, n) is Ok,
    ensures
        walked_rows(entries, datas, needle, Some(most), n) == Ok::<Seq<StringView>, Error>(
            head(walked_rows(entries, datas, needle, None, n)->Ok_0, most),
        ),
    decreases n,
{
    if n > 0 {
        law_early_stop_keeps_the_first_rows(entries, datas, needle, most, n - 1);
        let rows = walked_rows(entries, datas, needle, None, n - 1)->Ok_0;
        let data = datas[n - 1]->Ok_0;
        let name = entries[n - 1].name@;
        let list = logical_of(name, data)->Ok_0;
        lemma_logical_rows_head(name, list, needle, most, 0, rows);
    } else {
        assert(head(Seq::empty(), most) =~= Seq::empty());
    }
}

/// The rows of fewer entries start those of more.
proof fn lemma_walk_prefix(
    entries: Seq<ZipEntry>,
    datas: Seq<Result<Seq<u8>, Error>>,
    needle: Option<Seq<char>>,
    m: int,
    n: int,
)
    requires
        0 <= m <= n,
        walked_rows(entries, datas, needle, None, n) is Ok,
    ensures
        walked_rows(entries, datas, needle, None, m) is Ok,
        walked_rows(entries, datas, needle, None, m)->Ok_0.is_prefix_of(
            walked_rows(entries, datas, needle, None, n)->Ok_0,
        ),
    decreases n - m,
{
    if m < n {
        lemma_walk_prefix(entries, datas, needle, m, n - 1);
        let rows = walked_rows(entries, datas, needle, None, n - 1)->Ok_0;
        let data = datas[n - 1]->Ok_0;
        let name = entries[n - 1].name@;
        let list = logical_of(name, data)->Ok_0;
        lemma_logical_rows_head(name, list, needle, 0, 0, rows);
        let a = walked_rows(entries, datas, needle, None, m)->Ok_0;
        let c = walked_rows(entries, datas, needle, None, n)->Ok_0;
        assert(a =~= rows.take(a.len() as int));
        assert(a.is_prefix_of(c));
    }
}

/// The page a search shows does not depend on how many workers walk the archive: one that stops
/// after `m` entries because its page was decided shows the page that all entries give.
pub proof fn law_page_does_not_depend_on_workers(
    entries: Seq<ZipEntry>,
    datas: Seq<Result<Seq<u8>, Error>>,
    needle: Option<Seq<char>>,
    skip: int,
    take: int,
    m: int,
)
    requires
        0 <= skip,
        0 <= take,
        0 <= m <= datas.len() == entries.len(),
        walked_rows(entries, datas, needle, None, datas.len() as int) is Ok,
        m == datas.len() || full(
            Some(skip + take),
            walked_rows(entries, datas, needle, Some(skip + take), m)->Ok_0.len() as int,
        ),
    ensures
        walked_rows(entries, datas, needle, Some(skip + take), m) is Ok,
        page(walked_rows(entries, datas, needle, Some(skip + take), m)->Ok_0, skip, take) == page(
            walked_rows(entries, datas, needle, None, datas.len() as int)->Ok_0,
            skip,
            take,
        ),
{
    let n = datas.len() as int;
    lemma_walk_prefix(entries, datas, needle, m, n);
    law_early_stop_keeps_the_first_rows(entries, datas, needle, skip + take, m);
    let some = walked_rows(entries, datas, needle, None, m)->Ok_0;
    let all = walked_rows(entries, datas, needle, None, n)->Ok_0;
    let stopped = walked_rows(entries, datas, needle, Some(skip + take), m)->Ok_0;
    assert(stopped == head(some, skip + take));
    assert(page(stopped, skip, take) =~= page(all, skip, take));
}

/// The rows whose value contains the needle, ignoring case, or all of them without one.
pub open spec fn matching(rows: Seq<StringView>, needle: Option<Seq<char>>) -> Seq<StringView> {
    match needle {
        None => rows,
        Some(needle) => rows.filter(|row: StringView| text_contains(row.value, needle)),
    }
}

/// What one more row does to those that match.
proof fn lemma_matching_push(rows: Seq<StringView>, needle: Option<Seq<char>>, row: StringView)
    ensures
        matching(rows.push(row), needle) == (if needle is None || text_contains(
            row.value,
            needle->0,
        ) {
            matching(rows, needle).push(row)
        } else {
            matching(rows, needle)
        }),
{
    reveal(Seq::filter);
    assert(rows.push(row).drop_last() =~= rows);
}

/// Fewer rows match among fewer, and they are no more than those.
proof fn lemma_matching_len(rows: Seq<StringView>, needle: Option<Seq<char>>)
    ensures
        matching(rows, needle).len() <= rows.len(),
    decreases rows.len(),
{
    if rows.len() > 0 {
        lemma_matching_len(rows.drop_last(), needle);
        lemma_matching_push(rows.drop_last(), needle, rows.last());
        assert(rows.drop_last().push(rows.last()) =~= rows);
    } else {
        reveal(Seq::filter);
        assert(matching(rows, needle) =~= Seq::empty());
    }
}

proof fn lemma_dex_rows_match(
    name: Seq<char>,
    data: Seq<u8>,
    needle: Option<Seq<char>>,
    index: int,
    rows: Seq<StringView>,
)
    requires
        dex_rows(name, data, None, None, index, rows) is Ok,
    ensures
        dex_rows(name, data, needle, None, index, matching(rows, needle)) == Ok::<
            Seq<StringView>,
            Error,
        >(matching(dex_rows(name, data, None, None, index, rows)->Ok_0, needle)),
    decreases table_size(data, Table::Strings) - index,
{
    if index < table_size(data, Table::Strings) {
        let raw = raw_string(data, index)->Ok_0;
        let row = StringView { dex_name: name, index, value: shown(raw) };
        lemma_matching_push(rows, needle, row);
        if needle is Some && raw_answer(raw, needle->0) is Some {
            law_raw_answer_is_the_texts(raw, needle->0);
        }
        lemma_dex_rows_match(name, data, needle, index + 1, rows.push(row));
    }
}

proof fn lemma_logical_rows_match(
    name: Seq<char>,
    list: Seq<LogicalView>,
    needle: Option<Seq<char>>,
    k: int,
    rows: Seq<StringView>,
)
    requires
        logical_rows(name, list, None, None, k, rows) is Ok,
    ensures
        logical_rows(name, list, needle, None, k, matching(rows, needle)) == Ok::<
            Seq<StringView>,
            Error,
        >(matching(logical_rows(name, list, None, None, k, rows)->Ok_0, needle)),
    decreases list.len() - k,
{
    if k < list.len() {
        let more = dex_rows(name, list[k].data, None, None, 0, rows)->Ok_0;
        lemma_dex_rows_match(name, list[k].data, needle, 0, rows);
        lemma_logical_rows_match(name, list, needle, k + 1, more);
    }
}

/// A filter keeps, of the rows there are without it, those whose value contains it, in their
/// order.
pub proof fn law_filter_keeps_the_matching_rows(
    entries: Seq<ZipEntry>,
    datas: Seq<Result<Seq<u8>, Error>>,
    needle: Option<Seq<char>>,
    n: int,
)
    requires
        walked_rows(entries, datas, None, None, n) is Ok,
    ensures
        walked_rows(entries, datas, needle, None, n) == Ok::<Seq<StringView>, Error>(
            matching(walked_rows(entries, datas, None, None, n)->Ok_0, needle),
        ),
    decreases n,
{
    if n > 0 {
        law_filter_keeps_the_matching_rows(entries, datas, needle, n - 1);
        let rows = walked_rows(entries, datas, None, None, n - 1)->Ok_0;
        let name = entries[n - 1].name@;
        let list = logical_of(name, datas[n - 1]->Ok_0)->Ok_0;
        lemma_logical_rows_match(name, list, needle, 0, rows);
    } else {
        lemma_matching_len(Seq::empty(), needle);
        assert(matching(Seq::empty(), needle) =~= Seq::empty());
    }
}

/// A search of one DEX that did not fill its room is one without that room.
proof fn lemma_dex_rows_unfilled(
    name: Seq<char>,
    data: Seq<u8>,
    most: int,
    index: int,
    rows: Seq<StringView>,
)
    requires
        dex_rows(name, data, None, Some(most), index, rows) is Ok,
        dex_rows(name, data, None, Some(most), index, rows)->Ok_0.len() < most,
    ensures
        dex_rows(name, data, None, None, index, rows) == dex_rows(
            name,
            data,
            None,
            Some(most),
            index,
            rows,
        ),
        rows.len() < most,
    decreases table_size(data, Table::Strings) - index,
{
    if index < table_size(data, Table::Strings) && !full(Some(most), rows.len() as int) {
        let raw = raw_string(data, index)->Ok_0;
        let row = StringView { dex_name: name, index, value: shown(raw) };
        lemma_dex_rows_unfilled(name, data, most, index + 1, rows.push(row));
    }
}

proof fn lemma_logical_rows_unfilled(
    name: Seq<char>,
    list: Seq<LogicalView>,
    most: int,
    k: int,
    rows: Seq<StringView>,
)
    requires
        logical_rows(name, list, None, Some(most), k, rows) is Ok,
        logical_rows(name, list, None, Some(most), k, rows)->Ok_0.len() < most,
    ensures
        logical_rows(name, list, None, None, k, rows) == logical_rows(
            name,
            list,
            None,
            Some(most),
            k,
            rows,
        ),
        rows.len() < most,
    decreases list.len() - k,
{
    if k < list.len() && !full(Some(most), rows.len() as int) {
        let more = dex_rows(name, list[k].data, None, Some(most), 0, rows)->Ok_0;
        lemma_logical_rows_unfilled(name, list, most, k + 1, more);
        lemma_dex_rows_unfilled(name, list[k].data, most, 0, rows);
    }
}

proof fn lemma_walk_unfilled(
    entries: Seq<ZipEntry>,
    datas: Seq<Result<Seq<u8>, Error>>,
    most: int,
    n: int,
)
    requires
        walked_rows(entries, datas, None, Some(most), n) is Ok,
        walked_rows(entries, datas, None, Some(most), n)->Ok_0.len() < most,
    ensures
        walked_rows(entries, datas, None, None, n) == walked_rows(
            entries,
            datas,
            None,
            Some(most),
            n,
        ),
    decreases n,
{
    if n > 0 {
        let rows = walked_rows(entries, datas, None, Some(most), n - 1)->Ok_0;
        let name = entries[n - 1].name@;
        let list = logical_of(name, datas[n - 1]->Ok_0)->Ok_0;
        lemma_logical_rows_unfilled(name, list, most, 0, rows);
        lemma_walk_unfilled(entries, datas, most, n - 1);
    }
}

/// What one entry inflates to is what another that says the same inflates to.
proof fn lemma_inflates_alike(
    bytes: Seq<u8>,
    one: ZipEntry,
    other: ZipEntry,
    max_inflated: usize,
    data: Seq<u8>,
    outcome: Result<Seq<u8>, Error>,
)
    requires
        one@ == other@,
        inflates_to(bytes, one, max_inflated, Ok::<Seq<u8>, Error>(data)),
        inflates_to(bytes, other, max_inflated, outcome),
    ensures
        outcome == Ok::<Seq<u8>, Error>(data),
{
    assert(one.compression == other.compression);
    assert(one.uncompressed_size == other.uncompressed_size);
    assert(one.compressed_size == other.compressed_size);
    assert(one.local_header_offset == other.local_header_offset);
}

/// The rows of the same entries with the same bytes are the same.
proof fn lemma_walk_alike(
    one: Seq<ZipEntry>,
    other: Seq<ZipEntry>,
    datas: Seq<Result<Seq<u8>, Error>>,
    others: Seq<Result<Seq<u8>, Error>>,
    needle: Option<Seq<char>>,
    room: Option<int>,
    n: int,
)
    requires
        forall|i: int| 0 <= i < n ==> (#[trigger] one[i]).name@ == other[i].name@,
        forall|i: int| 0 <= i < n ==> #[trigger] datas[i] == others[i],
    ensures
        walked_rows(one, datas, needle, room, n) == walked_rows(other, others, needle, room, n),
    decreases n,
{
    if n > 0 {
        lemma_walk_alike(one, other, datas, others, needle, room, n - 1);
        assert(one[n - 1].name@ == other[n - 1].name@);
        assert(datas[n - 1] == others[n - 1]);
    }
}

/// What a walk of unlimited room that succeeds has to say of the entries it read.
proof fn lemma_walk_reads(
    entries: Seq<ZipEntry>,
    datas: Seq<Result<Seq<u8>, Error>>,
    n: int,
    i: int,
)
    requires
        0 <= i < n,
        walked_rows(entries, datas, None, None, n) is Ok,
    ensures
        datas[i] is Ok,
    decreases n,
{
    if i < n - 1 {
        lemma_walk_reads(entries, datas, n - 1, i);
    }
}

/// The first rows of the first of some rows, cut to a page.
proof fn lemma_page_of_head(some: Seq<StringView>, all: Seq<StringView>, skip: int, take: int, reach: int)
    requires
        0 <= skip,
        0 <= take,
        some.is_prefix_of(all),
        reach == skip + take || all.len() < reach,
        some == all || head(some, reach).len() >= reach,
    ensures
        page(head(some, reach), skip, take) == page(all, skip, take),
{
    let stopped = head(some, reach);
    if reach == skip + take {
        assert(page(stopped, skip, take) =~= page(all, skip, take));
    } else {
        assert(some.len() <= all.len());
        assert(stopped == all);
    }
}

/// The page that a walk shows is that of the matching rows among all there are.
proof fn lemma_page_of_matching(
    entries: Seq<ZipEntry>,
    datas: Seq<Result<Seq<u8>, Error>>,
    needle: Option<Seq<char>>,
    room: Option<int>,
    skip: int,
    take: int,
    m: int,
)
    requires
        0 <= skip,
        0 <= take,
        0 <= m <= datas.len() == entries.len(),
        walked_rows(entries, datas, None, None, datas.len() as int) matches Ok(all) && (room matches Some(
            reach,
        ) ==> 0 <= reach && (reach == skip + take || all.len() < reach)),
        walked_rows(entries, datas, needle, room, m) matches Ok(rows) ==> m == datas.len() || full(
            room,
            rows.len() as int,
        ),
    ensures
        paged(walked_rows(entries, datas, needle, room, m), skip, take) == Ok::<
            Seq<StringView>,
            Error,
        >(
            page(
                matching(
                    walked_rows(entries, datas, None, None, datas.len() as int)->Ok_0,
                    needle,
                ),
                skip,
                take,
            ),
        ),
{
    let n = datas.len() as int;
    let all = walked_rows(entries, datas, None, None, n)->Ok_0;
    lemma_matching_len(all, needle);
    law_filter_keeps_the_matching_rows(entries, datas, needle, n);
    lemma_walk_prefix(entries, datas, needle, m, n);
    let some = walked_rows(entries, datas, needle, None, m)->Ok_0;
    match room {
        Some(reach) => {
            law_early_stop_keeps_the_first_rows(entries, datas, needle, reach, m);
            lemma_page_of_head(some, matching(all, needle), skip, take, reach);
        },
        None => {},
    }
}

/// Whether the given entries, with the given bytes, have the rows `all`.
spec fn has_rows(
    bytes: Seq<u8>,
    entries: Seq<ZipEntry>,
    max_inflated: usize,
    datas: Seq<Result<Seq<u8>, Error>>,
    all: Seq<StringView>,
) -> bool {
    &&& datas.len() == entries.len()
    &&& walked_rows(entries, datas, None, None, datas.len() as int) == Ok::<Seq<StringView>, Error>(all)
    &&& forall|i: int|
        0 <= i < datas.len() ==> inflates_to(bytes, entries[i], max_inflated, #[trigger] datas[i])
}

/// What a listing without a filter, a limit or an offset read.
proof fn lemma_listing_reads(
    bytes: Seq<u8>,
    entries: Seq<ZipEntry>,
    max_inflated: usize,
    room: Option<int>,
    all: Seq<StringView>,
) -> (datas: Seq<Result<Seq<u8>, Error>>)
    requires
        lists_page(bytes, entries, max_inflated, None, room, 0, usize::MAX as int, Ok(all)),
        room is None || room == Some(usize::MAX as int),
        all.len() < usize::MAX,
    ensures
        has_rows(bytes, entries, max_inflated, datas, all),
{
    let rows = choose|rows: Result<Seq<StringView>, Error>| #[trigger]
        gathers_entries(bytes, entries, max_inflated, None, room, rows) && Ok::<
            Seq<StringView>,
            Error,
        >(all) == paged(rows, 0, usize::MAX as int);
    let datas = choose|datas: Seq<Result<Seq<u8>, Error>>| #[trigger]
        reads(bytes, entries, max_inflated, None, room, datas) && gathers(
            entries,
            datas,
            None,
            room,
            rows,
        );
    assert(rows->Ok_0.skip(0) =~= rows->Ok_0);
    assert(rows->Ok_0.len() < usize::MAX);
    assert(rows->Ok_0 == all);
    assert(datas.len() == entries.len());
    if room is Some {
        lemma_walk_unfilled(entries, datas, usize::MAX as int, datas.len() as int);
    }
    datas
}

/// What is listed with a filter, a limit and an offset is that page of those strings, of all
/// that are listed without them, whose value contains the filter. The worker count of neither
/// call matters, and an offset past the end gives an empty page.
pub proof fn law_listing_is_a_page_of_the_matching_strings(
    bytes: Seq<u8>,
    workers: usize,
    threads: usize,
    filter: Option<Seq<char>>,
    limit: Option<usize>,
    offset: Option<usize>,
    max_inflated: usize,
    all: Seq<StringView>,
    result: Result<Seq<StringView>, Error>,
)
    requires
        lists_strings(bytes, workers, None, None, None, max_inflated, Ok(all)),
        all.len() < usize::MAX,
        threads > 0,
        lists_strings(bytes, threads, filter, limit, offset, max_inflated, result),
    ensures
        result == Ok::<Seq<StringView>, Error>(
            page(
                matching(
                    all,
                    match filter {
                        Some(filter) => Some(lowercase(filter)),
                        None => None,
                    },
                ),
                page_skip(offset),
                page_take(limit),
            ),
        ),
{
    let skip = page_skip(offset);
    let take = page_take(limit);
    let needle = match filter {
        Some(filter) => Some(lowercase(filter)),
        None => None,
    };
    let whole = if workers == 1 {
        Some(page_reach(0, usize::MAX as int))
    } else {
        None
    };
    let room = if threads == 1 {
        Some(page_reach(skip, take))
    } else {
        None
    };
    let views = dex_entries(bytes)->Ok_0;
    let one = choose|one: Seq<ZipEntry>| #[trigger]
        entry_views(one) == views && lists_page(
            bytes,
            one,
            max_inflated,
            None,
            whole,
            0,
            usize::MAX as int,
            Ok(all),
        );
    let other = choose|other: Seq<ZipEntry>| #[trigger]
        entry_views(other) == views && lists_page(
            bytes,
            other,
            max_inflated,
            needle,
            room,
            skip,
            take,
            result,
        );
    let datas = lemma_listing_reads(bytes, one, max_inflated, whole, all);
    lemma_listing_agrees(
        bytes,
        one,
        other,
        max_inflated,
        datas,
        all,
        needle,
        room,
        skip,
        take,
        result,
    );
}

proof fn lemma_listing_agrees(
    bytes: Seq<u8>,
    one: Seq<ZipEntry>,
    other: Seq<ZipEntry>,
    max_inflated: usize,
    datas: Seq<Result<Seq<u8>, Error>>,
    all: Seq<StringView>,
    needle: Option<Seq<char>>,
    room: Option<int>,
    skip: int,
    take: int,
    result: Result<Seq<StringView>, Error>,
)
    requires
        entry_views(one) == entry_views(other),
        has_rows(bytes, one, max_inflated, datas, all),
        lists_page(bytes, other, max_inflated, needle, room, skip, take, result),
        0 <= skip,
        0 <= take,
        room matches Some(reach) ==> 0 <= reach && (reach == skip + take || all.len() < reach),
    ensures
        result == Ok::<Seq<StringView>, Error>(page(matching(all, needle), skip, take)),
{
    let rows = choose|rows: Result<Seq<StringView>, Error>| #[trigger]
        gathers_entries(bytes, other, max_inflated, needle, room, rows) && result == paged(
            rows,
            skip,
            take,
        );
    let others = choose|others: Seq<Result<Seq<u8>, Error>>| #[trigger]
        reads(bytes, other, max_inflated, needle, room, others) && gathers(
            other,
            others,
            needle,
            room,
            rows,
        );
    assert(entry_views(one).len() == one.len());
    assert(entry_views(other).len() == other.len());
    let m = others.len() as int;
    let n = datas.len() as int;
    assert forall|i: int| 0 <= i < n implies (#[trigger] one[i])@ == other[i]@ by {
        assert(entry_views(one)[i] == entry_views(other)[i]);
    }
    assert forall|i: int| 0 <= i < m implies #[trigger] datas[i] == others[i] by {
        lemma_walk_reads(one, datas, n, i);
        assert(one[i]@ == other[i]@);
        assert(inflates_to(bytes, one[i], max_inflated, datas[i]));
        assert(inflates_to(bytes, other[i], max_inflated, others[i]));
        lemma_inflates_alike(bytes, one[i], other[i], max_inflated, datas[i]->Ok_0, others[i]);
    }
    assert forall|i: int| 0 <= i < m implies (#[trigger] one[i]).name@ == other[i].name@ by {
        assert(one[i]@ == other[i]@);
    }
    lemma_walk_alike(one, other, datas, others, needle, room, m);
    lemma_page_of_matching(one, datas, needle, room, skip, take, m);
}

/// A page starts behind the rows it skips, goes on in their order, and ends when it is as long as
/// it may be or the rows end.
pub proof fn law_a_page_is_a_stretch_of_the_rows(rows: Seq<StringView>, skip: int, take: int)
    requires
        0 <= skip,
        0 <= take,
    ensures
        page(rows, skip, take).len() <= take,
        skip + page(rows, skip, take).len() <= rows.len() || page(rows, skip, take).len() == 0,
        page(rows, skip, take).len() == take || skip + page(rows, skip, take).len() >= rows.len(),
        forall|i: int|
            0 <= i < page(rows, skip, take).len() ==> #[trigger] page(rows, skip, take)[i]
                == rows[skip + i],
{
}

/// Without a filter and a limit every string of a DEX is listed, once and in the order of the
/// table, under its own number.
pub proof fn law_every_string_is_listed(name: Seq<char>, data: Seq<u8>)
    requires
        dex_rows(name, data, None, None, 0, Seq::empty()) is Ok,
    ensures
        ({
            let rows = dex_rows(name, data, None, None, 0, Seq::empty())->Ok_0;
            &&& rows.len() == table_size(data, Table::Strings)
            &&& forall|i: int|
                0 <= i < rows.len() ==> (#[trigger] rows[i]).index == i && rows[i].dex_name == name
                    && (raw_string(data, i) matches Ok(raw) && rows[i].value == shown(raw))
        }),
{
    lemma_strings_are_listed(name, data, 0, Seq::empty());
}

proof fn lemma_strings_are_listed(
    name: Seq<char>,
    data: Seq<u8>,
    index: int,
    before: Seq<StringView>,
)
    requires
        0 <= index <= table_size(data, Table::Strings),
        before.len() == index,
        forall|i: int|
            0 <= i < before.len() ==> (#[trigger] before[i]).index == i && before[i].dex_name == name
                && (raw_string(data, i) matches Ok(raw) && before[i].value == shown(raw)),
        dex_rows(name, data, None, None, index, before) is Ok,
    ensures
        ({
            let rows = dex_rows(name, data, None, None, index, before)->Ok_0;
            &&& rows.len() == table_size(data, Table::Strings)
            &&& forall|i: int|
                0 <= i < rows.len() ==> (#[trigger] rows[i]).index == i && rows[i].dex_name == name
                    && (raw_string(data, i) matches Ok(raw) && rows[i].value == shown(raw))
        }),
    decreases table_size(data, Table::Strings) - index,
{
    if index < table_size(data, Table::Strings) {
        let raw = raw_string(data, index)->Ok_0;
        let row = StringView { dex_name: name, index, value: shown(raw) };
        lemma_strings_are_listed(name, data, index + 1, before.push(row));
    }
}

/// A capital letter becomes the letter of the same place in the alphabet, and no other byte
/// changes.
pub proof fn law_letters_lose_their_case(byte: u8)
    ensures
        ('A' as u8 <= byte <= 'Z' as u8) ==> lower_byte(byte) - 'a' as u8 == byte - 'A' as u8,
        !('A' as u8 <= byte <= 'Z' as u8) ==> lower_byte(byte) == byte,
{
}

/// A page without a limit holds every row behind those it skips, and one without an offset skips
/// none.
pub proof fn law_a_page_without_bounds_is_everything(rows: Seq<StringView>)
    requires
        rows.len() <= usize::MAX,
    ensures
        page(rows, page_skip(None), page_take(None)) == rows,
{
    assert(page(rows, 0, usize::MAX as int) =~= rows);
}

/// How many strings the first `n` logical DEX files have together.
pub open spec fn strings_before(list: Seq<LogicalView>, n: int) -> int
    decreases n,
{
    if n <= 0 {
        0
    } else {
        strings_before(list, n - 1) + table_size(list[n - 1].data, Table::Strings)
    }
}

/// Without a filter and a limit every string of every logical DEX file of an entry is listed, file
/// by file, each under the name of the entry and its own number.
pub proof fn law_every_file_is_listed(
    name: Seq<char>,
    data: Seq<u8>,
    list: Seq<LogicalView>,
    j: int,
    i: int,
)
    requires
        logical_of(name, data) == Ok::<Seq<LogicalView>, Error>(list),
        entry_rows(name, Ok(data), None, None, Seq::empty()) is Ok,
        0 <= j < list.len(),
        0 <= i < table_size(list[j].data, Table::Strings),
    ensures
        ({
            let rows = entry_rows(name, Ok(data), None, None, Seq::empty())->Ok_0;
            let at = strings_before(list, j) + i;
            &&& rows.len() == strings_before(list, list.len() as int)
            &&& 0 <= at < rows.len()
            &&& rows[at].dex_name == name
            &&& rows[at].index == i
            &&& raw_string(list[j].data, i) matches Ok(raw) && rows[at].value == shown(raw)
        }),
{
    lemma_files_are_listed(name, list, 0, Seq::empty(), j, i);
}

proof fn lemma_strings_before(list: Seq<LogicalView>, j: int, n: int)
    requires
        0 <= j < n,
    ensures
        strings_before(list, j) + table_size(list[j].data, Table::Strings) <= strings_before(list, n),
        0 <= strings_before(list, j),
    decreases n,
{
    lemma_strings_before_is_nat(list, j);
    if j < n - 1 {
        lemma_strings_before(list, j, n - 1);
    }
}

proof fn lemma_strings_before_is_nat(list: Seq<LogicalView>, n: int)
    ensures
        0 <= strings_before(list, n),
    decreases n,
{
    if n > 0 {
        lemma_strings_before_is_nat(list, n - 1);
    }
}

proof fn lemma_files_are_listed(
    name: Seq<char>,
    list: Seq<LogicalView>,
    k: int,
    before: Seq<StringView>,
    j: int,
    i: int,
)
    requires
        0 <= k <= list.len(),
        before.len() == strings_before(list, k),
        0 <= j < list.len(),
        0 <= i < table_size(list[j].data, Table::Strings),
        j < k ==> {
            let at = strings_before(list, j) + i;
            &&& 0 <= at < before.len()
            &&& before[at].dex_name == name
            &&& before[at].index == i
            &&& raw_string(list[j].data, i) matches Ok(raw) && before[at].value == shown(raw)
        },
        logical_rows(name, list, None, None, k, before) is Ok,
    ensures
        ({
            let rows = logical_rows(name, list, None, None, k, before)->Ok_0;
            let at = strings_before(list, j) + i;
            &&& rows.len() == strings_before(list, list.len() as int)
            &&& 0 <= at < rows.len()
            &&& rows[at].dex_name == name
            &&& rows[at].index == i
            &&& raw_string(list[j].data, i) matches Ok(raw) && rows[at].value == shown(raw)
        }),
    decreases list.len() - k,
{
    if k < list.len() {
        let more = dex_rows(name, list[k].data, None, None, 0, before)->Ok_0;
        lemma_strings_follow(name, list[k].data, 0, before);
        lemma_strings_before_is_nat(list, j);
        if j < k {
            lemma_strings_before(list, j, k);
        }
        assert(strings_before(list, k + 1) == strings_before(list, k) + table_size(
            list[k].data,
            Table::Strings,
        ));
        lemma_files_are_listed(name, list, k + 1, more, j, i);
    }
}

proof fn lemma_strings_follow(name: Seq<char>, data: Seq<u8>, index: int, before: Seq<StringView>)
    requires
        0 <= index <= table_size(data, Table::Strings),
        dex_rows(name, data, None, None, index, before) is Ok,
    ensures
        ({
            let rows = dex_rows(name, data, None, None, index, before)->Ok_0;
            &&& rows.len() == before.len() + table_size(data, Table::Strings) - index
            &&& forall|i: int| 0 <= i < before.len() ==> #[trigger] rows[i] == before[i]
            &&& forall|i: int|
                before.len() <= i < rows.len() ==> (#[trigger] rows[i]).index == index + i
                    - before.len() && rows[i].dex_name == name && (raw_string(
                    data,
                    index + i - before.len(),
                ) matches Ok(raw) && rows[i].value == shown(raw))
        }),
    decreases table_size(data, Table::Strings) - index,
{
    if index < table_size(data, Table::Strings) {
        let raw = raw_string(data, index)->Ok_0;
        let row = StringView { dex_name: name, index, value: shown(raw) };
        let next = before.push(row);
        lemma_strings_follow(name, data, index + 1, next);
        let rows = dex_rows(name, data, None, None, index, before)->Ok_0;
        assert forall|i: int| 0 <= i < before.len() implies #[trigger] rows[i] == before[i] by {
            assert(rows[i] == next[i]);
        }
        assert(rows[before.len() as int] == next[before.len() as int]);
    }
}

/// The case of a filter does not matter: filters with one lower case list the same strings.
pub proof fn law_the_case_of_a_filter_does_not_matter(
    bytes: Seq<u8>,
    threads: usize,
    one: Seq<char>,
    other: Seq<char>,
    limit: Option<usize>,
    offset: Option<usize>,
    max_inflated: usize,
    result: Result<Seq<StringView>, Error>,
)
    requires
        lowercase(one) == lowercase(other),
    ensures
        lists_strings(bytes, threads, Some(one), limit, offset, max_inflated, result)
            == lists_strings(bytes, threads, Some(other), limit, offset, max_inflated, result),
{
}

} // verus!
