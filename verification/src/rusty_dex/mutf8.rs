//! The UTF-16 code units of a MUTF-8 string.
use super::error::Mutf8Error;
use crate::dex::mutf8::{continues, three_bytes, two_bytes};
use vstd::prelude::*;

verus! {

/// The code units of the MUTF-8 bytes from `at` on. Surrogates are code units like any other,
/// paired or not.
pub open spec fn units_from(bytes: Seq<u8>, at: int) -> Result<Seq<u16>, Mutf8Error>
    decreases bytes.len() - at,
{
    if at >= bytes.len() {
        Ok(Seq::empty())
    } else {
        let lead = bytes[at];
        let width: int = if lead < 0x80 {
            1
        } else if lead < 0xE0 {
            2
        } else {
            3
        };
        let code = if width == 1 {
            lead as int
        } else if width == 2 {
            two_bytes(bytes, at)
        } else {
            three_bytes(bytes, at)
        };
        if 0x80 <= lead < 0xC0 || lead > 0xEF {
            Err(Mutf8Error::BadLead)
        } else if (width >= 2 && !continues(bytes, at + 1)) || (width == 3 && !continues(
            bytes,
            at + 2,
        )) {
            Err(Mutf8Error::BadContinuation)
        } else {
            match units_from(bytes, at + width) {
                Ok(rest) => Ok(seq![code as u16] + rest),
                Err(error) => Err(error),
            }
        }
    }
}

/// The code units of a MUTF-8 string.
pub fn decode(bytes: &[u8]) -> (units: Result<Vec<u16>, Mutf8Error>)
    ensures
        match units {
            Ok(list) => units_from(bytes@, 0) == Ok::<Seq<u16>, Mutf8Error>(list@),
            Err(error) => units_from(bytes@, 0) == Err::<Seq<u16>, Mutf8Error>(error),
        },
{
    let len: usize = bytes.len();
    let mut out: Vec<u16> = Vec::new();
    let mut at: usize = 0;
    while at < len
        invariant
            len == bytes@.len(),
            at <= len,
            match units_from(bytes@, at as int) {
                Ok(rest) => units_from(bytes@, 0) == Ok::<Seq<u16>, Mutf8Error>(out@ + rest),
                Err(error) => units_from(bytes@, 0) == Err::<Seq<u16>, Mutf8Error>(error),
            },
        decreases len - at,
    {
        let lead = bytes[at];
        let left: usize = len - at;
        if (lead >= 0x80 && lead < 0xC0) || lead > 0xEF {
            return Err(Mutf8Error::BadLead);
        }
        let ghost before = out@;
        let ghost from = at as int;
        if lead < 0x80 {
            out.push(lead as u16);
            at = at + 1;
        } else {
            if left < 2 || bytes[at + 1] < 0x80 || bytes[at + 1] >= 0xC0 {
                return Err(Mutf8Error::BadContinuation);
            }
            let second: u16 = (bytes[at + 1] - 0x80) as u16;
            if lead < 0xE0 {
                out.push((lead - 0xC0) as u16 * 0x40 + second);
                at = at + 2;
            } else {
                if left < 3 || bytes[at + 2] < 0x80 || bytes[at + 2] >= 0xC0 {
                    return Err(Mutf8Error::BadContinuation);
                }
                let third: u16 = (bytes[at + 2] - 0x80) as u16;
                out.push((lead - 0xE0) as u16 * 0x1000 + second * 0x40 + third);
                at = at + 3;
            }
        }
        proof {
            match units_from(bytes@, at as int) {
                Ok(rest) => {
                    assert(before + (seq![out@.last()] + rest) =~= out@ + rest);
                },
                Err(_) => {},
            }
        }
    }
    assert(out@ + Seq::<u16>::empty() =~= out@);
    Ok(out)
}

/// The character of a surrogate pair.
pub open spec fn paired(high: u16, low: u16) -> char {
    (0x1_0000 + (high - 0xD800) * 0x400 + (low - 0xDC00)) as char
}

/// The text of UTF-16 code units from `at` on, with a replacement character for each surrogate
/// that is not one of a pair.
pub open spec fn text_from(units: Seq<u16>, at: int) -> Seq<char>
    decreases units.len() - at,
{
    if at >= units.len() {
        Seq::empty()
    } else {
        let unit = units[at];
        if unit < 0xD800 || unit > 0xDFFF {
            seq![unit as char] + text_from(units, at + 1)
        } else if unit <= 0xDBFF && at + 1 < units.len() && 0xDC00 <= units[at + 1] <= 0xDFFF {
            seq![paired(unit, units[at + 1])] + text_from(units, at + 2)
        } else {
            seq!['\u{FFFD}'] + text_from(units, at + 1)
        }
    }
}

/// The text of UTF-16 code units, with a replacement character for each lone surrogate.
pub fn text_of_units(units: &[u16]) -> (text: String)
    ensures
        text@ == text_from(units@, 0),
{
    let len: usize = units.len();
    let mut out = String::new();
    let mut at: usize = 0;
    assert(out@ + text_from(units@, 0) =~= text_from(units@, 0));
    while at < len
        invariant
            len == units@.len(),
            at <= len,
            text_from(units@, 0) == out@ + text_from(units@, at as int),
        decreases len - at,
    {
        let unit: u16 = units[at];
        let ghost before = out@;
        if unit < 0xD800 || unit > 0xDFFF {
            if let Some(c) = crate::text::scalar(unit as u32) {
                out.push(c);
            }
            at = at + 1;
        } else if unit <= 0xDBFF && len - at >= 2 && units[at + 1] >= 0xDC00 && units[at + 1]
            <= 0xDFFF {
            let code: u32 = 0x1_0000 + (unit - 0xD800) as u32 * 0x400 + (units[at + 1]
                - 0xDC00) as u32;
            if let Some(c) = crate::text::scalar(code) {
                out.push(c);
            }
            at = at + 2;
        } else {
            out.push('\u{FFFD}');
            at = at + 1;
        }
        assert(before + (seq![out@.last()] + text_from(units@, at as int)) =~= out@ + text_from(
            units@,
            at as int,
        ));
    }
    assert(out@ + Seq::<char>::empty() =~= out@);
    out
}

} // verus!
