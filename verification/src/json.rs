//! Just enough JSON to hand a list to a host.
//!
//! A host wants records, not a row it has to split: `classes.dex | Lfoo; | foo` has no
//! escaping, so a class name that contains the separator, a quote or a newline is a row the
//! host reads wrong or reads as two. JSON has a defined answer for every character a DEX can
//! hold. The output is one object per line (JSON Lines), so a payload of megabytes is read a
//! line at a time, and a truncated stream is still a prefix of valid records.

use crate::text::{digit, lemma_same_rest};
use vstd::prelude::*;

verus! {

/// How a character is written inside a JSON string.
#[verifier::opaque]
pub open spec fn escaped_char(c: char) -> Seq<char> {
    if c == '"' {
        seq!['\\', '"']
    } else if c == '\\' {
        seq!['\\', '\\']
    } else if c == '\n' {
        seq!['\\', 'n']
    } else if c == '\r' {
        seq!['\\', 'r']
    } else if c == '\t' {
        seq!['\\', 't']
    } else if (c as u32) < 0x20 {
        seq!['\\', 'u', '0', '0', digit((c as u32 / 16) as nat), digit((c as u32 % 16) as nat)]
    } else {
        seq![c]
    }
}

/// What stands between the quotes of a JSON string.
pub open spec fn escaped(value: Seq<char>) -> Seq<char>
    decreases value.len(),
{
    if value.len() == 0 {
        Seq::empty()
    } else {
        escaped(value.drop_last()) + escaped_char(value.last())
    }
}

/// A text as a JSON string.
pub open spec fn quoted(value: Seq<char>) -> Seq<char> {
    seq!['"'] + escaped(value) + seq!['"']
}

/// A class name with dots in place of its slashes.
pub open spec fn dotted(value: Seq<char>) -> Seq<char> {
    value.map_values(
        |c: char|
            if c == '/' {
                '.'
            } else {
                c
            },
    )
}

/// Appends one character as it is written inside a JSON string.
fn push_escaped(out: &mut String, c: char)
    ensures
        final(out)@ == old(out)@ + escaped_char(c),
{
    let ghost before = out@;
    match c {
        '"' => {
            out.push('\\');
            out.push('"');
        },
        '\\' => {
            out.push('\\');
            out.push('\\');
        },
        '\n' => {
            out.push('\\');
            out.push('n');
        },
        '\r' => {
            out.push('\\');
            out.push('r');
        },
        '\t' => {
            out.push('\\');
            out.push('t');
        },
        other => {
            let code: u32 = other as u32;
            if code < 0x20 {
                // The rest of the control range has no short form.
                out.push('\\');
                out.push('u');
                out.push('0');
                out.push('0');
                crate::text::push_hexadecimal(out, (code / 16) as u64);
                crate::text::push_hexadecimal(out, (code % 16) as u64);
            } else {
                out.push(other);
            }
        },
    }
    proof {
        reveal(escaped_char);
    }
    assert(out@ =~= before + escaped_char(c));
}

/// Appends `value` as a JSON string, escaping it and, when `dots` is set, mapping each slash to
/// a dot first. One implementation, so a class name and a string value cannot be escaped by two
/// rules that drift apart.
fn escape_with(value: &str, dots: bool, out: &mut String)
    ensures
        final(out)@ == old(out)@ + quoted(
            if dots {
                dotted(value@)
            } else {
                value@
            },
        ),
{
    let ghost before = out@;
    let ghost target = if dots {
        dotted(value@)
    } else {
        value@
    };
    out.push('"');
    for c in it: value.chars()
        invariant
            it.seq() == value@,
            target == (if dots {
                dotted(value@)
            } else {
                value@
            }),
            out@ == before + seq!['"'] + escaped(target.take(it.index())),
    {
        let ghost so_far = out@;
        let shown: char = if dots && c == '/' {
            '.'
        } else {
            c
        };
        push_escaped(out, shown);
        proof {
            let k = it.index();
            assert(target.take(k + 1).drop_last() =~= target.take(k));
            assert(target.take(k + 1).last() == shown);
            assert(out@ =~= before + seq!['"'] + escaped(target.take(k + 1)));
        }
    }
    assert(target.take(target.len() as int) =~= target);
    out.push('"');
    assert(out@ =~= before + quoted(target));
}

/// Appends `value` as a JSON string, escaped.
///
/// The escape set is the one JSON defines as required (quote, backslash, and the control
/// characters), plus nothing. Non-ASCII goes through unchanged: the output is UTF-8, which
/// JSON allows, and escaping it would only make a class name unreadable in a log.
pub fn escape(value: &str, out: &mut String)
    ensures
        final(out)@ == old(out)@ + quoted(value@),
{
    escape_with(value, false, out);
}

/// Appends a class name's dotted form, escaped, as one JSON string.
///
/// The name the decompiler prints is the descriptor without its `L`/`;`, so the dotted
/// form is those characters with `/` mapped to `.`.
pub fn escape_dotted(value: &str, out: &mut String)
    ensures
        final(out)@ == old(out)@ + quoted(dotted(value@)),
{
    escape_with(value, true, out);
}

/// The members of a record, comma separated.
pub open spec fn record_members(fields: Seq<(&str, &str)>) -> Seq<char>
    decreases fields.len(),
{
    if fields.len() == 0 {
        Seq::empty()
    } else {
        let last = fields.last();
        let member = quoted(last.0@) + seq![':'] + quoted(last.1@);
        if fields.len() == 1 {
            member
        } else {
            record_members(fields.drop_last()) + seq![','] + member
        }
    }
}

/// A whole record: `{"key":value,…}` followed by a newline.
pub open spec fn record_text(fields: Seq<(&str, &str)>) -> Seq<char> {
    seq!['{'] + record_members(fields) + seq!['}', '\n']
}

/// A whole record: `{"key":value,…}` followed by a newline.
pub fn record(fields: &[(&str, &str)], out: &mut String)
    ensures
        final(out)@ == old(out)@ + record_text(fields@),
{
    let ghost before = out@;
    out.push('{');
    assert(out@ =~= before + seq!['{'] + record_members(fields@.take(0)));
    for index in 0..fields.len()
        invariant
            out@ == before + seq!['{'] + record_members(fields@.take(index as int)),
    {
        if index > 0 {
            out.push(',');
        }
        escape(fields[index].0, out);
        out.push(':');
        escape(fields[index].1, out);
        proof {
            let k = index as int;
            assert(fields@.take(k + 1).drop_last() =~= fields@.take(k));
            assert(fields@.take(k + 1).last() == fields@[k]);
            assert(out@ =~= before + seq!['{'] + record_members(fields@.take(k + 1)));
        }
    }
    assert(fields@.take(fields@.len() as int) =~= fields@);
    out.push('}');
    out.push('\n');
    assert(out@ =~= before + record_text(fields@));
}

/// The failure envelope: `{"error":"…"}`.
///
/// The message is the text mode's, character for character - only the envelope changes - so
/// a host shows the same sentence whichever mode produced it.
pub fn error(message: &str, out: &mut String)
    ensures
        final(out)@ == old(out)@ + record_text(seq![("error", message)]),
{
    let fields: [(&str, &str); 1] = [("error", message)];
    record(&fields, out);
    assert(fields@ =~= seq![("error", message)]);
}

/// The value of a hexadecimal digit.
pub open spec fn digit_value(c: char) -> int {
    if '0' <= c && c <= '9' {
        c as int - '0' as int
    } else if 'a' <= c && c <= 'f' {
        c as int - 'a' as int + 10
    } else {
        c as int - 'A' as int + 10
    }
}

/// Reads one character of a JSON string: the character, and how much it takes.
///
/// This is the reading that JSON defines, for the escapes that this module writes.
#[verifier::opaque]
pub open spec fn unescaped_at(s: Seq<char>, at: int) -> Option<(char, int)> {
    if s[at] != '\\' {
        Some((s[at], 1))
    } else if at + 2 > s.len() {
        None
    } else if s[at + 1] == 'u' {
        if at + 6 > s.len() {
            None
        } else {
            Some(
                (
                    (digit_value(s[at + 2]) * 0x1000 + digit_value(s[at + 3]) * 0x100 + digit_value(
                        s[at + 4],
                    ) * 0x10 + digit_value(s[at + 5])) as char,
                    6,
                ),
            )
        }
    } else if s[at + 1] == 'n' {
        Some(('\n', 2))
    } else if s[at + 1] == 'r' {
        Some(('\r', 2))
    } else if s[at + 1] == 't' {
        Some(('\t', 2))
    } else {
        Some((s[at + 1], 2))
    }
}

/// Reads a JSON string whose opening quote stands before `at`: its value, and where it ends.
pub open spec fn unquoted_from(s: Seq<char>, at: int) -> Option<(Seq<char>, int)>
    decreases s.len() - at,
{
    if at >= s.len() {
        None
    } else if s[at] == '"' {
        Some((Seq::empty(), at + 1))
    } else {
        match unescaped_at(s, at) {
            None => None,
            Some(found) => {
                proof {
                    reveal(unescaped_at);
                }
                match unquoted_from(s, at + found.1) {
                    Some(rest) => Some((seq![found.0] + rest.0, rest.1)),
                    None => None,
                }
            },
        }
    }
}

/// The escape of a character reads back as the character, wherever it stands.
proof fn lemma_escape_reads_back(s: Seq<char>, at: int, c: char)
    requires
        0 <= at,
        at + escaped_char(c).len() < s.len(),
        forall|j: int| 0 <= j < escaped_char(c).len() ==> s[at + j] == #[trigger] escaped_char(c)[j],
    ensures
        s[at] != '"',
        unescaped_at(s, at) == Some((c, escaped_char(c).len() as int)),
{
    reveal(unescaped_at);
    reveal(escaped_char);
    let own = escaped_char(c);
    assert(s[at] == own[0]);
    if own.len() >= 2 {
        assert(s[at + 1] == own[1]);
    }
    if own.len() == 6 {
        assert(s[at + 2] == own[2] && s[at + 3] == own[3] && s[at + 4] == own[4] && s[at + 5]
            == own[5]);
        let code = c as u32;
        assert(code < 0x20);
        assert(digit_value('0') == 0);
        assert(digit_value(own[4]) == code / 16);
        assert(digit_value(own[5]) == code % 16);
        assert(16 * (code / 16) + code % 16 == code);
    }
}

proof fn lemma_escaped_part(value: Seq<char>, k: int)
    requires
        0 <= k < value.len(),
    ensures
        escaped(value.take(k)).len() + escaped_char(value[k]).len() <= escaped(value).len(),
        escaped(value.take(k + 1)) == escaped(value.take(k)) + escaped_char(value[k]),
        forall|j: int|
            0 <= j < escaped_char(value[k]).len() ==> escaped(value)[escaped(value.take(k)).len() + j]
                == #[trigger] escaped_char(value[k])[j],
    decreases value.len(),
{
    assert(value.take(k + 1).drop_last() =~= value.take(k));
    if k + 1 == value.len() {
        assert(value.take(k + 1) =~= value);
    } else {
        lemma_escaped_part(value.drop_last(), k);
        assert(value.drop_last().take(k) =~= value.take(k));
    }
}

proof fn lemma_unquoted_from(before: Seq<char>, value: Seq<char>, after: Seq<char>, k: int)
    requires
        0 <= k <= value.len(),
    ensures
        unquoted_from(
            before + quoted(value) + after,
            (before.len() + 1 + escaped(value.take(k)).len()) as int,
        ) == Some((value.skip(k), (before.len() + quoted(value).len()) as int)),
    decreases value.len() - k,
{
    let s = before + quoted(value) + after;
    let at: int = (before.len() + 1 + escaped(value.take(k)).len()) as int;
    if k == value.len() {
        assert(value.take(k) =~= value);
        assert(value.skip(k) =~= Seq::empty());
        assert(s[at] == '"');
    } else {
        lemma_escaped_part(value, k);
        lemma_unquoted_from(before, value, after, k + 1);
        let own = escaped_char(value[k]);
        assert forall|j: int| 0 <= j < own.len() implies s[at + j] == #[trigger] own[j] by {
            assert(s[at + j] == escaped(value)[escaped(value.take(k)).len() + j]);
        }
        lemma_escape_reads_back(s, at, value[k]);
        assert(seq![value[k]] + value.skip(k + 1) =~= value.skip(k));
    }
}

/// A text that was written as a JSON string reads back as that text, and the reading ends at
/// the string's own closing quote, whatever stands around it.
pub proof fn law_string_reads_back(before: Seq<char>, value: Seq<char>, after: Seq<char>)
    ensures
        unquoted_from(before + quoted(value) + after, (before.len() + 1) as int) == Some(
            (value, (before.len() + quoted(value).len()) as int),
        ),
{
    lemma_unquoted_from(before, value, after, 0);
    assert(value.take(0) =~= Seq::empty());
    assert(value.skip(0) =~= value);
}

/// Whether a text holds no control character, and so no line break.
pub open spec fn one_line(s: Seq<char>) -> bool {
    forall|i: int| 0 <= i < s.len() ==> #[trigger] s[i] as u32 >= 0x20
}

proof fn lemma_escaped_is_one_line(value: Seq<char>)
    ensures
        one_line(escaped(value)),
    decreases value.len(),
{
    if value.len() > 0 {
        lemma_escaped_is_one_line(value.drop_last());
        let c = value.last();
        assert(one_line(escaped_char(c))) by {
            reveal(escaped_char);
            if (c as u32) < 0x20 {
                assert(digit((c as u32 / 16) as nat) as u32 >= 0x20);
                assert(digit((c as u32 % 16) as nat) as u32 >= 0x20);
            }
        }
        let front = escaped(value.drop_last());
        assert forall|i: int| 0 <= i < escaped(value).len() implies #[trigger] escaped(value)[i] as u32
            >= 0x20 by {
            if i >= front.len() {
                assert(escaped(value)[i] == escaped_char(c)[i - front.len()]);
            } else {
                assert(escaped(value)[i] == front[i]);
            }
        }
    }
}

/// A JSON string holds no line break, whatever its value does.
pub proof fn law_string_is_one_line(value: Seq<char>)
    ensures
        one_line(quoted(value)),
{
    lemma_escaped_is_one_line(value);
    let e = escaped(value);
    assert forall|i: int| 0 <= i < quoted(value).len() implies #[trigger] quoted(value)[i] as u32
        >= 0x20 by {
        if 1 <= i <= e.len() {
            assert(quoted(value)[i] == e[i - 1]);
        }
    }
}

proof fn lemma_members_are_one_line(fields: Seq<(&str, &str)>)
    ensures
        one_line(record_members(fields)),
    decreases fields.len(),
{
    if fields.len() > 0 {
        lemma_members_are_one_line(fields.drop_last());
        law_string_is_one_line(fields.last().0@);
        law_string_is_one_line(fields.last().1@);
    }
}

/// A record is one line: its only line break is the one it ends with.
pub proof fn law_record_is_one_line(fields: Seq<(&str, &str)>)
    ensures
        record_text(fields).last() == '\n',
        one_line(record_text(fields).drop_last()),
{
    lemma_members_are_one_line(fields);
    assert(record_text(fields).drop_last() =~= seq!['{'] + record_members(fields) + seq!['}']);
}

/// A dotted name has a dot for every slash and is otherwise the name.
pub proof fn law_dotted_names_have_no_slash(value: Seq<char>)
    ensures
        dotted(value).len() == value.len(),
        !dotted(value).contains('/'),
        forall|i: int|
            0 <= i < value.len() ==> #[trigger] dotted(value)[i] == (if value[i] == '/' {
                '.'
            } else {
                value[i]
            }),
{
}

/// The members of one list and of another behind it are those of both, with a comma where they
/// meet, and one member is its key, a colon and its value.
pub proof fn law_members_follow_each_other(one: Seq<(&str, &str)>, other: Seq<(&str, &str)>)
    requires
        one.len() > 0,
        other.len() > 0,
    ensures
        record_members(one + other) == record_members(one) + seq![','] + record_members(other),
        record_members(seq![one[0]]) == quoted(one[0].0@) + seq![':'] + quoted(one[0].1@),
    decreases other.len(),
{
    let all = one + other;
    assert(all.drop_last() =~= one + other.drop_last());
    assert(all.last() == other.last());
    if other.len() == 1 {
        assert(one + other.drop_last() =~= one);
        assert(record_members(all) =~= record_members(one) + seq![','] + record_members(other));
    } else {
        law_members_follow_each_other(one, other.drop_last());
        assert(record_members(all) =~= record_members(one) + seq![','] + record_members(other));
    }
}

/// A text that starts with a JSON string starts with that of one text only.
pub proof fn lemma_quoted_cut(
    one: Seq<char>,
    behind_one: Seq<char>,
    other: Seq<char>,
    behind_other: Seq<char>,
)
    requires
        quoted(one) + behind_one == quoted(other) + behind_other,
    ensures
        one == other,
        behind_one == behind_other,
{
    let none = Seq::<char>::empty();
    law_string_reads_back(none, one, behind_one);
    law_string_reads_back(none, other, behind_other);
    assert(none + quoted(one) + behind_one =~= quoted(one) + behind_one);
    assert(none + quoted(other) + behind_other =~= quoted(other) + behind_other);
    lemma_same_rest(quoted(one), behind_one, behind_other);
}

} // verus!
