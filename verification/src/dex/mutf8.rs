//! MUTF-8, the encoding of DEX strings.
//!
//! NUL is stored as `0xC0 0x80` and supplementary characters as a surrogate pair of
//! three-byte sequences. A query has to be encoded the same way before it can be matched
//! against the string table.
use super::{lemma_nul_from, nul_from};
use crate::text::{lossy_string, scalar, utf8_lossy};
use vstd::prelude::*;
use vstd::utf8::{decode_utf8, encode_utf8, is_ascii_chars, valid_utf8};
use vstd::utf8::{decode_utf8_encode_utf8, is_ascii_chars_encode_utf8};

verus! {

/// The UTF-16 code units of a character.
pub open spec fn utf16_units(c: char) -> Seq<u16> {
    let code = c as u32;
    if code < 0x1_0000 {
        seq![code as u16]
    } else {
        seq![
            (0xD800 + (code - 0x1_0000) / 0x400) as u16,
            (0xDC00 + (code - 0x1_0000) % 0x400) as u16,
        ]
    }
}

/// The MUTF-8 bytes of one UTF-16 code unit.
pub open spec fn unit_bytes(unit: u16) -> Seq<u8> {
    if unit == 0 {
        seq![0xC0, 0x80]
    } else if unit < 0x80 {
        seq![unit as u8]
    } else if unit < 0x800 {
        seq![(0xC0 + unit / 0x40) as u8, (0x80 + unit % 0x40) as u8]
    } else {
        seq![
            (0xE0 + unit / 0x1000) as u8,
            (0x80 + (unit / 0x40) % 0x40) as u8,
            (0x80 + unit % 0x40) as u8,
        ]
    }
}

/// The MUTF-8 bytes of one character.
#[verifier::opaque]
pub open spec fn char_bytes(c: char) -> Seq<u8> {
    let units = utf16_units(c);
    if units.len() == 1 {
        unit_bytes(units[0])
    } else {
        unit_bytes(units[0]) + unit_bytes(units[1])
    }
}

/// The MUTF-8 bytes of a text.
pub open spec fn encoded(text: Seq<char>) -> Seq<u8>
    decreases text.len(),
{
    if text.len() == 0 {
        Seq::empty()
    } else {
        encoded(text.drop_last()) + char_bytes(text.last())
    }
}

/// Whether the byte at `at` continues a sequence.
pub open spec fn continues(bytes: Seq<u8>, at: int) -> bool {
    at < bytes.len() && 0x80 <= bytes[at] < 0xC0
}

/// The value of the two-byte sequence at `at`.
pub open spec fn two_bytes(bytes: Seq<u8>, at: int) -> int {
    (bytes[at] - 0xC0) * 0x40 + (bytes[at + 1] - 0x80)
}

/// The value of the three-byte sequence at `at`.
pub open spec fn three_bytes(bytes: Seq<u8>, at: int) -> int {
    (bytes[at] - 0xE0) * 0x1000 + (bytes[at + 1] - 0x80) * 0x40 + (bytes[at + 2] - 0x80)
}

/// Whether the low half of a surrogate pair stands at `at`.
pub open spec fn low_half_at(bytes: Seq<u8>, at: int) -> bool {
    at < bytes.len() && bytes[at] == 0xED && continues(bytes, at + 1) && bytes[at + 1] >= 0xB0
        && continues(bytes, at + 2)
}

/// The character that the sequence at `at` stands for and the length of the sequence, or
/// `None` when it is malformed.
pub open spec fn sequence_at(bytes: Seq<u8>, at: int) -> Option<(char, int)> {
    let lead = bytes[at];
    if lead < 0x80 {
        Some((lead as char, 1))
    } else if 0xC0 <= lead <= 0xDF {
        let code = two_bytes(bytes, at);
        if continues(bytes, at + 1) && (code == 0 || code >= 0x80) {
            Some((code as char, 2))
        } else {
            None
        }
    } else if 0xE0 <= lead <= 0xEF {
        let code = three_bytes(bytes, at);
        if !continues(bytes, at + 1) || !continues(bytes, at + 2) || code < 0x800 {
            None
        } else if 0xD800 <= code <= 0xDBFF {
            if low_half_at(bytes, at + 3) {
                Some(
                    (
                        (0x1_0000 + (code - 0xD800) * 0x400 + (three_bytes(bytes, at + 3)
                            - 0xDC00)) as char,
                        6,
                    ),
                )
            } else {
                None
            }
        } else if 0xDC00 <= code <= 0xDFFF {
            None
        } else {
            Some((code as char, 3))
        }
    } else {
        None
    }
}

/// The text of the MUTF-8 bytes from `at` on, up to a NUL byte or the end, or the offset of
/// the first malformed sequence.
pub open spec fn decoded_from(bytes: Seq<u8>, at: int) -> Result<Seq<char>, int>
    decreases bytes.len() - at,
{
    if at >= bytes.len() || bytes[at] == 0 {
        Ok(Seq::empty())
    } else {
        match sequence_at(bytes, at) {
            None => Err(at),
            Some(found) => match decoded_from(bytes, at + found.1) {
                Ok(rest) => Ok(seq![found.0] + rest),
                Err(error) => Err(error),
            },
        }
    }
}

/// Whether every byte is below 0x80.
pub open spec fn all_ascii(bytes: Seq<u8>) -> bool {
    forall|i: int| 0 <= i < bytes.len() ==> #[trigger] bytes[i] < 0x80
}

/// The characters that the given bytes are, one for one.
pub open spec fn as_chars(bytes: Seq<u8>) -> Seq<char> {
    bytes.map_values(|byte: u8| byte as char)
}

/// The text that malformed bytes are shown as: what they are in UTF-8, where they are that,
/// and else a lossy decoding, which shows a replacement character.
pub open spec fn shown_malformed(bytes: Seq<u8>) -> Seq<char> {
    if valid_utf8(bytes) {
        decode_utf8(bytes)
    } else if utf8_lossy(bytes).contains('\u{FFFD}') {
        utf8_lossy(bytes)
    } else {
        seq!['\u{FFFD}']
    }
}

/// The text that a DEX string is shown as.
pub open spec fn shown(bytes: Seq<u8>) -> Seq<char> {
    if all_ascii(bytes) {
        as_chars(bytes)
    } else {
        match decoded_from(bytes, 0) {
            Ok(text) => text,
            Err(_) => shown_malformed(bytes),
        }
    }
}

/// Whether every byte is below 0x80.
pub fn is_ascii(bytes: &[u8]) -> (ascii: bool)
    ensures
        ascii == all_ascii(bytes@),
{
    for i in 0..bytes.len()
        invariant
            forall|j: int| 0 <= j < i ==> #[trigger] bytes@[j] < 0x80,
    {
        if bytes[i] >= 0x80 {
            return false;
        }
    }
    true
}

/// Appends a DEX string to `out`, copying it when its bytes are ASCII.
///
/// Real descriptors, member names and query values are ASCII, and MUTF-8 is byte-for-byte
/// the same there. So the common case is a copy, not a decode, and the non-ASCII case keeps
/// the decoder's exact behaviour.
pub fn push_decoded(out: &mut String, bytes: &[u8])
    ensures
        final(out)@ == old(out)@ + shown(bytes@),
{
    if is_ascii(bytes) {
        let ghost before = out@;
        for i in 0..bytes.len()
            invariant
                all_ascii(bytes@),
                out@ == before + as_chars(bytes@.take(i as int)),
        {
            out.push(bytes[i] as char);
        }
        assert(bytes@.take(bytes@.len() as int) =~= bytes@);
        return;
    }
    match decode_mutf8(bytes) {
        Ok(text) => out.push_str(text.as_str()),
        Err(_at) => out.push_str(lossy_string(bytes).as_str()),
    }
}

/// One DEX string as an owned `String`; see [`push_decoded`] for the ASCII shortcut.
pub fn decode_owned(bytes: &[u8]) -> (text: String)
    ensures
        text@ == shown(bytes@),
{
    let mut out = String::new();
    push_decoded(&mut out, bytes);
    assert(Seq::<char>::empty() + shown(bytes@) =~= shown(bytes@));
    out
}

/// Appends the MUTF-8 bytes of one code unit.
fn push_unit(out: &mut Vec<u8>, unit: u16)
    ensures
        final(out)@ == old(out)@ + unit_bytes(unit),
{
    if unit == 0 {
        out.push(0xC0);
        out.push(0x80);
    } else if unit < 0x80 {
        out.push(unit as u8);
    } else if unit < 0x800 {
        out.push((0xC0 + unit / 0x40) as u8);
        out.push((0x80 + unit % 0x40) as u8);
    } else {
        out.push((0xE0 + unit / 0x1000) as u8);
        out.push((0x80 + (unit / 0x40) % 0x40) as u8);
        out.push((0x80 + unit % 0x40) as u8);
    }
}

/// The MUTF-8 bytes of `value`.
pub fn encode_mutf8(value: &str) -> (bytes: Vec<u8>)
    ensures
        bytes@ == encoded(value@),
{
    let mut out: Vec<u8> = Vec::new();
    for c in it: value.chars()
        invariant
            it.seq() == value@,
            out@ == encoded(value@.take(it.index())),
    {
        let ghost before = out@;
        let code: u32 = c as u32;
        if code < 0x1_0000 {
            push_unit(&mut out, code as u16);
        } else {
            push_unit(&mut out, (0xD800 + (code - 0x1_0000) / 0x400) as u16);
            push_unit(&mut out, (0xDC00 + (code - 0x1_0000) % 0x400) as u16);
        }
        proof {
            reveal(char_bytes);
        }
        assert(out@ =~= before + char_bytes(c));
        assert(value@.take(it.index() + 1).drop_last() =~= value@.take(it.index()));
    }
    assert(value@.take(value@.len() as int) =~= value@);
    out
}

/// Whether the byte at `at` continues a sequence.
fn continuation(bytes: &[u8], at: usize) -> (found: bool)
    ensures
        found == continues(bytes@, at as int),
{
    at < bytes.len() && bytes[at] >= 0x80 && bytes[at] < 0xC0
}

/// The sequence at `at`: the character it stands for, and its length.
fn decode_sequence(bytes: &[u8], at: usize) -> (found: Option<(char, usize)>)
    requires
        at < bytes@.len(),
    ensures
        match found {
            Some(pair) => sequence_at(bytes@, at as int) == Some((pair.0, pair.1 as int)),
            None => sequence_at(bytes@, at as int) is None,
        },
{
    let len: usize = bytes.len();
    let left: usize = len - at;
    let lead = bytes[at];
    if lead < 0x80 {
        return Some((lead as char, 1));
    }
    if lead < 0xC0 || lead > 0xEF || left < 2 || !continuation(bytes, at + 1) {
        return None;
    }
    if lead <= 0xDF {
        let code: u32 = (lead - 0xC0) as u32 * 0x40 + (bytes[at + 1] - 0x80) as u32;
        if code != 0 && code < 0x80 {
            return None;
        }
        return match scalar(code) {
            Some(c) => Some((c, 2)),
            None => None,
        };
    }
    if left < 3 || !continuation(bytes, at + 2) {
        return None;
    }
    let code: u32 = (lead - 0xE0) as u32 * 0x1000 + (bytes[at + 1] - 0x80) as u32 * 0x40 + (bytes[at
        + 2] - 0x80) as u32;
    if code >= 0xD800 && code <= 0xDBFF {
        if left < 6 || bytes[at + 3] != 0xED || !continuation(bytes, at + 4) || bytes[at + 4] < 0xB0
            || !continuation(bytes, at + 5) {
            return None;
        }
        let low: u32 = 0xD000 + (bytes[at + 4] - 0x80) as u32 * 0x40 + (bytes[at + 5] - 0x80) as u32;
        let combined: u32 = 0x1_0000 + (code - 0xD800) * 0x400 + (low - 0xDC00);
        return match scalar(combined) {
            Some(c) => Some((c, 6)),
            None => None,
        };
    }
    if code < 0x800 || (code >= 0xDC00 && code <= 0xDFFF) {
        return None;
    }
    match scalar(code) {
        Some(c) => Some((c, 3)),
        None => None,
    }
}

/// Decodes one DEX MUTF-8 string.
///
/// Accepted: ASCII `0x01..=0x7F`; 2-byte leads `0xC0..=0xDF`, including the
/// MUTF-8 NUL form `0xC0 0x80`; 3-byte leads `0xE0..=0xEF` for non-surrogate
/// BMP code points; and the 6-byte CESU-8 surrogate pair for supplementary
/// characters. A bare `0x00` ends the string and the remaining bytes are
/// ignored (that byte is the DEX string terminator).
///
/// Rejected: overlong forms other than `0xC0 0x80`, lone or swapped or
/// oversized surrogates, truncated sequences, and bad continuation bytes. `Err`
/// carries the byte offset where the failing sequence starts.
pub fn decode_mutf8(bytes: &[u8]) -> (text: Result<String, usize>)
    ensures
        match text {
            Ok(out) => decoded_from(bytes@, 0) == Ok::<Seq<char>, int>(out@),
            Err(at) => decoded_from(bytes@, 0) == Err::<Seq<char>, int>(at as int),
        },
{
    let mut out = String::new();
    let mut i: usize = 0;
    while i < bytes.len() && bytes[i] != 0
        invariant
            i <= bytes@.len(),
            match decoded_from(bytes@, i as int) {
                Ok(rest) => decoded_from(bytes@, 0) == Ok::<Seq<char>, int>(out@ + rest),
                Err(at) => decoded_from(bytes@, 0) == Err::<Seq<char>, int>(at),
            },
        decreases bytes@.len() - i,
    {
        match decode_sequence(bytes, i) {
            Some(found) => {
                let ghost before = out@;
                out.push(found.0);
                proof {
                    match decoded_from(bytes@, i + found.1) {
                        Ok(rest) => {
                            assert(before + (seq![found.0] + rest) =~= out@ + rest);
                        },
                        Err(_) => {},
                    }
                }
                i = i + found.1;
            },
            None => {
                return Err(i);
            },
        }
    }
    assert(out@ + Seq::<char>::empty() =~= out@);
    Ok(out)
}

/// The bytes of a character read back as that character, wherever they stand.
#[verifier::spinoff_prover]
#[verifier::rlimit(40)]
proof fn lemma_char_reads_back(bytes: Seq<u8>, at: int, c: char)
    requires
        0 <= at,
        at + char_bytes(c).len() <= bytes.len(),
        forall|j: int| 0 <= j < char_bytes(c).len() ==> bytes[at + j] == #[trigger] char_bytes(c)[j],
    ensures
        char_bytes(c).len() > 0,
        bytes[at] != 0,
        sequence_at(bytes, at) == Some((c, char_bytes(c).len() as int)),
{
    reveal(char_bytes);
    let code = c as u32;
    let units = utf16_units(c);
    let own = char_bytes(c);
    assert(bytes[at] == own[0]);
    if code < 0x1_0000 {
        assert(units[0] == code);
        if code == 0 || 0x80 <= code < 0x800 {
            assert(bytes[at + 1] == own[1]);
        } else if code >= 0x800 {
            assert(bytes[at + 1] == own[1]);
            assert(bytes[at + 2] == own[2]);
            assert(three_bytes(bytes, at) == code);
        }
    } else {
        let high = unit_bytes(units[0]);
        let low = unit_bytes(units[1]);
        assert(high.len() == 3 && low.len() == 3);
        assert(own[0] == high[0] && own[1] == high[1] && own[2] == high[2]);
        assert(own[3] == low[0] && own[4] == low[1] && own[5] == low[2]);
        assert(bytes[at + 1] == own[1] && bytes[at + 2] == own[2] && bytes[at + 3] == own[3]
            && bytes[at + 4] == own[4] && bytes[at + 5] == own[5]);
        assert(three_bytes(bytes, at) == units[0]);
        assert(three_bytes(bytes, at + 3) == units[1]);
    }
}

/// The bytes of a part of a text are where the part stands.
proof fn lemma_encoded_part(text: Seq<char>, k: int)
    requires
        0 <= k < text.len(),
    ensures
        encoded(text.take(k)).len() + char_bytes(text[k]).len() <= encoded(text).len(),
        encoded(text.take(k + 1)) == encoded(text.take(k)) + char_bytes(text[k]),
        forall|j: int|
            0 <= j < char_bytes(text[k]).len() ==> encoded(text)[encoded(text.take(k)).len() + j]
                == #[trigger] char_bytes(text[k])[j],
    decreases text.len(),
{
    assert(text.take(k + 1).drop_last() =~= text.take(k));
    if k + 1 == text.len() {
        assert(text.take(k + 1) =~= text);
    } else {
        lemma_encoded_part(text.drop_last(), k);
        assert(text.drop_last().take(k) =~= text.take(k));
    }
}

proof fn lemma_decode_step(bytes: Seq<u8>, at: int, c: char, width: int, rest: Seq<char>)
    requires
        at < bytes.len(),
        bytes[at] != 0,
        sequence_at(bytes, at) == Some((c, width)),
        decoded_from(bytes, at + width) == Ok::<Seq<char>, int>(rest),
    ensures
        decoded_from(bytes, at) == Ok::<Seq<char>, int>(seq![c] + rest),
{
}

proof fn lemma_encoded_decodes_from(text: Seq<char>, k: int)
    requires
        0 <= k <= text.len(),
    ensures
        decoded_from(encoded(text), encoded(text.take(k)).len() as int) == Ok::<Seq<char>, int>(
            text.skip(k),
        ),
    decreases text.len() - k,
{
    if k == text.len() {
        assert(text.take(k) =~= text);
        assert(text.skip(k) =~= Seq::empty());
    } else {
        let bytes = encoded(text);
        let at = encoded(text.take(k)).len() as int;
        let width = char_bytes(text[k]).len() as int;
        lemma_encoded_part(text, k);
        lemma_char_reads_back(bytes, at, text[k]);
        lemma_encoded_decodes_from(text, k + 1);
        assert(encoded(text.take(k + 1)).len() == at + width);
        lemma_decode_step(bytes, at, text[k], width, text.skip(k + 1));
        assert(seq![text[k]] + text.skip(k + 1) =~= text.skip(k));
    }
}

/// Decoding gives back what was encoded, for every text.
pub proof fn law_encoding_decodes_back(text: Seq<char>)
    ensures
        decoded_from(encoded(text), 0) == Ok::<Seq<char>, int>(text),
{
    lemma_encoded_decodes_from(text, 0);
    assert(text.take(0) =~= Seq::empty());
    assert(text.skip(0) =~= text);
}

/// A text is shown as it is once it was encoded, with or without the ASCII shortcut.
pub proof fn law_encoding_is_shown_back(text: Seq<char>)
    ensures
        shown(encoded(text)) == text,
{
    law_encoding_decodes_back(text);
    law_no_byte_of_an_encoding_is_nul(text);
    if all_ascii(encoded(text)) {
        law_shortcut_agrees_with_the_decoder(encoded(text));
    }
}

/// The encoding of a text holds no NUL byte, so the terminator of a DEX string ends it and
/// nothing before it does.
pub proof fn law_no_byte_of_an_encoding_is_nul(text: Seq<char>)
    ensures
        forall|i: int| 0 <= i < encoded(text).len() ==> #[trigger] encoded(text)[i] != 0,
    decreases text.len(),
{
    if text.len() > 0 {
        law_no_byte_of_an_encoding_is_nul(text.drop_last());
        let c = text.last();
        let units = utf16_units(c);
        assert forall|j: int| 0 <= j < char_bytes(c).len() implies #[trigger] char_bytes(c)[j] != 0 by {
            reveal(char_bytes);
            if units.len() == 2 && j >= unit_bytes(units[0]).len() {
                assert(char_bytes(c)[j] == unit_bytes(units[1])[j - unit_bytes(units[0]).len()]);
            }
        }
        assert forall|i: int| 0 <= i < encoded(text).len() implies #[trigger] encoded(text)[i] != 0 by {
            let front = encoded(text.drop_last());
            if i >= front.len() {
                assert(encoded(text)[i] == char_bytes(c)[i - front.len()]);
            } else {
                assert(encoded(text)[i] == front[i]);
            }
        }
    }
}

/// The ASCII shortcut shows what the decoder would, for bytes without a NUL.
pub proof fn law_shortcut_agrees_with_the_decoder(bytes: Seq<u8>)
    requires
        forall|i: int| 0 <= i < bytes.len() ==> 0 < #[trigger] bytes[i] < 0x80,
    ensures
        decoded_from(bytes, 0) == Ok::<Seq<char>, int>(as_chars(bytes)),
        shown(bytes) == as_chars(bytes),
{
    lemma_ascii_decodes_from(bytes, 0);
    assert(bytes.skip(0) =~= bytes);
}

proof fn lemma_ascii_decodes_from(bytes: Seq<u8>, k: int)
    requires
        0 <= k <= bytes.len(),
        forall|i: int| 0 <= i < bytes.len() ==> 0 < #[trigger] bytes[i] < 0x80,
    ensures
        decoded_from(bytes, k) == Ok::<Seq<char>, int>(as_chars(bytes.skip(k))),
    decreases bytes.len() - k,
{
    if k < bytes.len() {
        lemma_ascii_decodes_from(bytes, k + 1);
        assert(seq![bytes[k] as char] + as_chars(bytes.skip(k + 1)) =~= as_chars(bytes.skip(k)));
    } else {
        assert(as_chars(bytes.skip(k)) =~= Seq::empty());
    }
}

/// The bytes of a text with one character more in front.
proof fn lemma_encoded_front(c: char, rest: Seq<char>)
    ensures
        encoded(seq![c] + rest) == char_bytes(c) + encoded(rest),
    decreases rest.len(),
{
    let text = seq![c] + rest;
    if rest.len() == 0 {
        assert(text.drop_last() =~= Seq::empty());
        assert(text.last() == c);
        assert(encoded(text.drop_last()) =~= Seq::<u8>::empty());
        assert(encoded(text) =~= char_bytes(c));
        assert(char_bytes(c) + encoded(rest) =~= char_bytes(c));
    } else {
        lemma_encoded_front(c, rest.drop_last());
        assert(text.drop_last() =~= seq![c] + rest.drop_last());
        assert(encoded(text) =~= char_bytes(c) + encoded(rest));
    }
}

/// A three-byte sequence is the encoding of the code unit that it holds.
proof fn lemma_three_bytes_unit(bytes: Seq<u8>, at: int, unit: u16)
    requires
        0 <= at,
        at + 2 < bytes.len(),
        0xE0 <= bytes[at] <= 0xEF,
        continues(bytes, at + 1),
        continues(bytes, at + 2),
        three_bytes(bytes, at) == unit,
        unit >= 0x800,
    ensures
        unit_bytes(unit) == bytes.subrange(at, at + 3),
{
    let own = unit_bytes(unit);
    let top = bytes[at] - 0xE0;
    let middle = bytes[at + 1] - 0x80;
    let low = bytes[at + 2] - 0x80;
    assert(unit == top * 0x1000 + middle * 0x40 + low);
    assert(unit / 0x1000 == top);
    assert(unit / 0x40 == top * 0x40 + middle);
    assert((unit / 0x40) % 0x40 == middle);
    assert(unit % 0x40 == low);
    assert(own.len() == 3);
    assert(own[0] == bytes[at] && own[1] == bytes[at + 1] && own[2] == bytes[at + 2]);
    assert(own =~= bytes.subrange(at, at + 3));
}

/// A surrogate pair is the encoding of the character that it stands for.
proof fn lemma_pair_is_encoded(bytes: Seq<u8>, at: int, c: char)
    requires
        0 <= at < bytes.len(),
        0xE0 <= bytes[at] <= 0xEF,
        sequence_at(bytes, at) == Some((c, 6int)),
    ensures
        at + 6 <= bytes.len(),
        bytes.subrange(at, at + 6) == char_bytes(c),
{
    let code = c as u32;
    let high = three_bytes(bytes, at);
    let low = three_bytes(bytes, at + 3);
    assert(0xD800 <= high <= 0xDBFF);
    assert(0xDC00 <= low <= 0xDFFF);
    assert(code == 0x1_0000 + (high - 0xD800) * 0x400 + (low - 0xDC00));
    assert((code - 0x1_0000) / 0x400 == high - 0xD800);
    assert((code - 0x1_0000) % 0x400 == low - 0xDC00);
    let units = utf16_units(c);
    assert(units.len() == 2 && units[0] == high && units[1] == low);
    lemma_three_bytes_unit(bytes, at, units[0]);
    lemma_three_bytes_unit(bytes, at + 3, units[1]);
    assert(char_bytes(c) == unit_bytes(units[0]) + unit_bytes(units[1])) by {
        reveal(char_bytes);
    }
    assert(bytes.subrange(at, at + 3) + bytes.subrange(at + 3, at + 6) =~= bytes.subrange(
        at,
        at + 6,
    ));
}

/// A well-formed sequence is the encoding of the character it stands for.
proof fn lemma_sequence_is_encoded(bytes: Seq<u8>, at: int, c: char, width: int)
    requires
        0 <= at < bytes.len(),
        bytes[at] != 0,
        sequence_at(bytes, at) == Some((c, width)),
    ensures
        0 < width,
        at + width <= bytes.len(),
        bytes.subrange(at, at + width) == char_bytes(c),
{
    let lead = bytes[at];
    if width == 6 {
        lemma_pair_is_encoded(bytes, at, c);
    } else {
        let units = utf16_units(c);
        if lead < 0x80 {
            assert(units[0] == lead);
            assert(unit_bytes(units[0]) =~= bytes.subrange(at, at + 1));
        } else if lead <= 0xDF {
            assert(units[0] == two_bytes(bytes, at));
            assert(unit_bytes(units[0]) =~= bytes.subrange(at, at + 2));
        } else {
            assert(units[0] == three_bytes(bytes, at));
            lemma_three_bytes_unit(bytes, at, units[0]);
        }
        assert(units.len() == 1);
        assert(char_bytes(c) == unit_bytes(units[0])) by {
            reveal(char_bytes);
        }
    }
}

/// How far the bytes from `at` on are the encoding of `text`.
spec fn reads_to(bytes: Seq<u8>, at: int, text: Seq<char>, end: int) -> bool {
    at <= end <= bytes.len() && bytes.subrange(at, end) == encoded(text)
}

proof fn lemma_decoded_is_encoded(bytes: Seq<u8>, at: int, text: Seq<char>)
    requires
        0 <= at <= bytes.len(),
        decoded_from(bytes, at) == Ok::<Seq<char>, int>(text),
    ensures
        reads_to(bytes, at, text, at + encoded(text).len()),
        ({
            let end = at + encoded(text).len();
            end < bytes.len() ==> bytes[end] == 0
        }),
    decreases bytes.len() - at,
{
    if at >= bytes.len() || bytes[at] == 0 {
        assert(bytes.subrange(at, at) =~= encoded(text));
    } else {
        let found = sequence_at(bytes, at)->0;
        let rest = decoded_from(bytes, at + found.1)->Ok_0;
        lemma_sequence_is_encoded(bytes, at, found.0, found.1);
        lemma_decoded_is_encoded(bytes, at + found.1, rest);
        lemma_encoded_front(found.0, rest);
        let end = at + found.1 + encoded(rest).len();
        assert(bytes.subrange(at, end) =~= bytes.subrange(at, at + found.1) + bytes.subrange(
            at + found.1,
            end,
        ));
    }
}

/// What decodes is canonical: encoding the text again gives the bytes before the terminator,
/// so no two byte strings stand for one text.
pub proof fn law_decoding_is_canonical(bytes: Seq<u8>, text: Seq<char>)
    requires
        decoded_from(bytes, 0) == Ok::<Seq<char>, int>(text),
    ensures
        encoded(text) == bytes.subrange(0, nul_from(bytes, 0)),
{
    lemma_decoded_is_encoded(bytes, 0, text);
    let end = encoded(text).len() as int;
    law_no_byte_of_an_encoding_is_nul(text);
    assert forall|j: int| 0 <= j < end implies #[trigger] bytes[j] != 0 by {
        assert(bytes.subrange(0, end)[j] == bytes[j]);
    }
    lemma_nul_from(bytes, 0, end);
}

/// A well-formed sequence is the same in the bytes up to its end.
proof fn lemma_sequence_in_front(bytes: Seq<u8>, at: int, end: int)
    requires
        0 <= at < end <= bytes.len(),
        sequence_at(bytes, at) matches Some(found) && at + found.1 <= end,
    ensures
        sequence_at(bytes.take(end), at) == sequence_at(bytes, at),
{
    let front = bytes.take(end);
    assert(front[at] == bytes[at]);
    let width = (sequence_at(bytes, at)->0).1;
    if width >= 2 {
        assert(front[at + 1] == bytes[at + 1]);
    }
    if width >= 3 {
        assert(front[at + 2] == bytes[at + 2]);
    }
    if width >= 6 {
        assert(front[at + 3] == bytes[at + 3]);
        assert(front[at + 4] == bytes[at + 4]);
        assert(front[at + 5] == bytes[at + 5]);
    }
}

proof fn lemma_malformed_from(bytes: Seq<u8>, at: int, bad: int)
    requires
        0 <= at <= bytes.len(),
        decoded_from(bytes, at) == Err::<Seq<char>, int>(bad),
    ensures
        at <= bad < bytes.len(),
        bytes[bad] != 0,
        sequence_at(bytes, bad) is None,
        decoded_from(bytes.take(bad), at) matches Ok(front) && bytes.subrange(at, bad) == encoded(
            front,
        ),
    decreases bytes.len() - at,
{
    if sequence_at(bytes, at) is Some {
        let found = sequence_at(bytes, at)->0;
        lemma_sequence_is_encoded(bytes, at, found.0, found.1);
        lemma_malformed_from(bytes, at + found.1, bad);
        lemma_sequence_in_front(bytes, at, bad);
        assert(bytes.take(bad)[at] == bytes[at]);
        let rest = decoded_from(bytes.take(bad), at + found.1)->Ok_0;
        lemma_encoded_front(found.0, rest);
        assert(bytes.subrange(at, bad) =~= bytes.subrange(at, at + found.1) + bytes.subrange(
            at + found.1,
            bad,
        ));
    } else {
        assert(bytes.subrange(at, bad) =~= encoded(Seq::empty()));
    }
}

/// An error points at the first malformed sequence: nothing well-formed stands at that
/// offset, and the bytes before it, none of them the terminator, are the encoding of a text.
pub proof fn law_error_points_at_the_first_malformed_sequence(bytes: Seq<u8>, bad: int)
    requires
        decoded_from(bytes, 0) == Err::<Seq<char>, int>(bad),
    ensures
        0 <= bad < nul_from(bytes, 0),
        sequence_at(bytes, bad) is None,
        decoded_from(bytes.take(bad), 0) matches Ok(front) && bytes.take(bad) == encoded(front),
{
    lemma_malformed_from(bytes, 0, bad);
    let front = decoded_from(bytes.take(bad), 0)->Ok_0;
    assert(bytes.subrange(0, bad) =~= bytes.take(bad));
    law_no_byte_of_an_encoding_is_nul(front);
    assert forall|j: int| 0 <= j <= bad implies #[trigger] bytes[j] != 0 by {
        if j < bad {
            assert(bytes.take(bad)[j] == bytes[j]);
        }
    }
    lemma_nul_from_beyond(bytes, 0, bad);
}

proof fn lemma_nul_from_beyond(bytes: Seq<u8>, at: int, end: int)
    requires
        0 <= at <= end < bytes.len(),
        forall|j: int| at <= j <= end ==> #[trigger] bytes[j] != 0,
    ensures
        end < nul_from(bytes, at) <= bytes.len(),
    decreases end - at,
{
    assert(bytes[at] != 0);
    if at < end {
        lemma_nul_from_beyond(bytes, at + 1, end);
    } else {
        lemma_nul_from_after(bytes, at + 1);
    }
}

proof fn lemma_nul_from_after(bytes: Seq<u8>, at: int)
    requires
        0 <= at <= bytes.len(),
    ensures
        at <= nul_from(bytes, at) <= bytes.len(),
    decreases bytes.len() - at,
{
    if at < bytes.len() && bytes[at] != 0 {
        lemma_nul_from_after(bytes, at + 1);
    }
}

/// Whether a text is ASCII and holds no NUL, as real descriptors are.
pub open spec fn plain_ascii(text: Seq<char>) -> bool {
    forall|i: int| 0 <= i < text.len() ==> '\u{1}' <= #[trigger] text[i] <= '\u{7f}'
}

/// The encoding of an ASCII text is ASCII.
proof fn lemma_ascii_encodes(text: Seq<char>)
    requires
        plain_ascii(text),
    ensures
        all_ascii(encoded(text)),
    decreases text.len(),
{
    if text.len() > 0 {
        let front = text.drop_last();
        assert forall|i: int| 0 <= i < front.len() implies '\u{1}' <= #[trigger] front[i]
            <= '\u{7f}' by {
            assert(front[i] == text[i]);
        }
        lemma_ascii_encodes(front);
        let c = text[text.len() - 1];
        assert('\u{1}' <= c <= '\u{7f}');
        assert(char_bytes(c) =~= seq![c as u8]) by {
            reveal(char_bytes);
        }
    }
}

/// The UTF-8 bytes of an ASCII text are its characters, one for one.
pub proof fn lemma_ascii_bytes(text: Seq<char>)
    requires
        plain_ascii(text),
    ensures
        is_ascii_chars(text),
        all_ascii(encode_utf8(text)),
        as_chars(encode_utf8(text)) == text,
{
    assert forall|i: int| 0 <= i < text.len() implies '\0' <= #[trigger] text[i] <= '\u{7f}' by {
        assert('\u{1}' <= text[i] <= '\u{7f}');
    }
    is_ascii_chars_encode_utf8(text);
    let bytes = encode_utf8(text);
    assert forall|i: int| 0 <= i < bytes.len() implies #[trigger] bytes[i] < 0x80 && as_chars(bytes)[i]
        == text[i] by {
        assert(text[i] as u8 == bytes[i]);
        assert('\u{1}' <= text[i] <= '\u{7f}');
    }
    assert(as_chars(bytes) =~= text);
}

/// Among strings of a table, which hold no NUL byte, only its own bytes are shown as a given
/// ASCII text. So searching by bytes and searching by shown text agree.
pub proof fn law_ascii_text_has_one_spelling(bytes: Seq<u8>, text: Seq<char>)
    requires
        forall|i: int| 0 <= i < bytes.len() ==> #[trigger] bytes[i] != 0,
        plain_ascii(text),
    ensures
        (shown(bytes) == text) == (bytes == encode_utf8(text)),
{
    lemma_ascii_bytes(text);
    if shown(bytes) == text {
        if all_ascii(bytes) {
            let own = encode_utf8(text);
            is_ascii_chars_encode_utf8(text);
            assert(as_chars(bytes).len() == bytes.len());
            assert forall|i: int| 0 <= i < bytes.len() implies #[trigger] bytes[i] == own[i] by {
                assert(as_chars(bytes)[i] == text[i]);
                assert(text[i] as u8 == own[i]);
            }
            assert(bytes =~= own);
        } else if decoded_from(bytes, 0) is Ok {
            law_decoding_is_canonical(bytes, text);
            lemma_nul_from(bytes, 0, bytes.len() as int);
            assert(bytes.subrange(0, bytes.len() as int) =~= bytes);
            lemma_ascii_encodes(text);
        } else if valid_utf8(bytes) {
            decode_utf8_encode_utf8(bytes);
        } else {
            let i = choose|i: int| 0 <= i < text.len() && text[i] == '\u{FFFD}';
            assert(text.contains('\u{FFFD}'));
            assert(text[i] <= '\u{7f}');
        }
    }
}

/// Bytes that are no MUTF-8 are shown as the text that they are in UTF-8, and where they are none
/// a replacement character shows it.
pub proof fn law_malformed_text_is_marked(bytes: Seq<u8>, text: Seq<char>)
    requires
        decoded_from(bytes, 0) is Err,
        !all_ascii(bytes),
    ensures
        bytes == encode_utf8(text) ==> shown(bytes) == text,
        !valid_utf8(bytes) ==> shown(bytes).contains('\u{FFFD}'),
{
    if bytes == encode_utf8(text) {
        vstd::utf8::encode_utf8_valid_utf8(text);
        vstd::utf8::encode_utf8_decode_utf8(text);
    }
    if !valid_utf8(bytes) && !utf8_lossy(bytes).contains('\u{FFFD}') {
        assert(shown(bytes)[0] == '\u{FFFD}');
    }
}

} // verus!
