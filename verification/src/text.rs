//! Text as sequences of characters: rendering numbers, trimming, searching and ordering.
use crate::json::digit_value;
use crate::seqs::{first_where, last_where, occurrence_from, occurs, occurs_at};
use crate::seqs::{lemma_first_where, lemma_last_where, lemma_occurrence_skip};
use vstd::prelude::*;

verus! {

/// `String::push` appends one character.
pub assume_specification[ std::string::String::push ](s: &mut std::string::String, c: char)
    ensures
        final(s)@ == old(s)@.push(c),
;

/// `String::push_str` appends a whole string slice.
pub assume_specification[ std::string::String::push_str ](s: &mut std::string::String, other: &str)
    ensures
        final(s)@ == old(s)@ + other@,
;

/// The text that a lossy UTF-8 decoding of `bytes` gives.
pub uninterp spec fn utf8_lossy(bytes: Seq<u8>) -> Seq<char>;

/// `String::from_utf8_lossy`: well-formed UTF-8 is decoded as it is, and other input shows at
/// least one U+FFFD, the replacement character. What else stands in its text, and where, is
/// named [`utf8_lossy`] and not stated.
#[verifier::external_body]
pub(crate) fn lossy_string(bytes: &[u8]) -> (text: String)
    ensures
        text@ == utf8_lossy(bytes@),
        vstd::utf8::valid_utf8(bytes@) ==> text@ == vstd::utf8::decode_utf8(bytes@),
        !vstd::utf8::valid_utf8(bytes@) ==> text@.contains('\u{FFFD}'),
{
    String::from_utf8_lossy(bytes).into_owned()
}

/// Whether `code` is a Unicode scalar value.
pub open spec fn is_scalar(code: u32) -> bool {
    code <= 0xD7FF || 0xE000 <= code <= 0x10_FFFF
}

/// `char::from_u32`: the character of a Unicode scalar value, and nothing for another number.
#[verifier::external_body]
pub(crate) fn scalar(code: u32) -> (c: Option<char>)
    ensures
        c == (if is_scalar(code) {
            Some(code as char)
        } else {
            None
        }),
{
    char::from_u32(code)
}

/// The characters of `text`, in order.
pub fn chars_of(text: &str) -> (chars: Vec<char>)
    ensures
        chars@ == text@,
{
    let mut chars: Vec<char> = Vec::new();
    for c in it: text.chars()
        invariant
            it.seq() == text@,
            chars@ == text@.take(it.index()),
    {
        chars.push(c);
    }
    chars
}

/// The string made of `chars`.
pub fn string_of(chars: &[char]) -> (text: String)
    ensures
        text@ == chars@,
{
    let mut text = String::new();
    for i in 0..chars.len()
        invariant
            text@ == chars@.take(i as int),
    {
        text.push(chars[i]);
    }
    text
}

/// A copy of the part `start..end` of `chars` as a string.
pub fn slice_text(chars: &[char], start: usize, end: usize) -> (text: String)
    requires
        start <= end <= chars@.len(),
    ensures
        text@ == chars@.subrange(start as int, end as int),
{
    let mut text = String::new();
    for i in start..end
        invariant
            start <= i <= end <= chars@.len(),
            text@ == chars@.subrange(start as int, i as int),
    {
        text.push(chars[i]);
    }
    text
}

/// The digit character of a value below sixteen, in lower case.
pub open spec fn digit(value: nat) -> char {
    if value < 10 {
        ('0' as u32 + value) as char
    } else {
        ('a' as u32 + value - 10) as char
    }
}

/// The decimal digits of `value`, with no leading zero.
pub open spec fn decimal(value: nat) -> Seq<char>
    decreases value,
{
    if value < 10 {
        seq![digit(value)]
    } else {
        decimal(value / 10).push(digit(value % 10))
    }
}

/// The hexadecimal digits of `value` in lower case, with no leading zero.
pub open spec fn hexadecimal(value: nat) -> Seq<char>
    decreases value,
{
    if value < 16 {
        seq![digit(value)]
    } else {
        hexadecimal(value / 16).push(digit(value % 16))
    }
}

fn digit_char(value: u64) -> (c: char)
    requires
        value < 16,
    ensures
        c == digit(value as nat),
{
    if value < 10 {
        (48u8 + value as u8) as char
    } else {
        (87u8 + value as u8) as char
    }
}

/// Appends `value` in decimal.
pub fn push_decimal(out: &mut String, value: u64)
    ensures
        final(out)@ == old(out)@ + decimal(value as nat),
    decreases value,
{
    if value >= 10 {
        push_decimal(out, value / 10);
    }
    out.push(digit_char(value % 10));
}

/// Appends `value` in hexadecimal.
pub fn push_hexadecimal(out: &mut String, value: u64)
    ensures
        final(out)@ == old(out)@ + hexadecimal(value as nat),
    decreases value,
{
    if value >= 16 {
        push_hexadecimal(out, value / 16);
    }
    out.push(digit_char(value % 16));
}

/// Whether a character has the Unicode `White_Space` property.
pub open spec fn is_space(c: char) -> bool {
    let code = c as u32;
    ||| 0x09 <= code <= 0x0D
    ||| code == 0x20
    ||| code == 0x85
    ||| code == 0xA0
    ||| code == 0x1680
    ||| 0x2000 <= code <= 0x200A
    ||| code == 0x2028
    ||| code == 0x2029
    ||| code == 0x202F
    ||| code == 0x205F
    ||| code == 0x3000
}

/// Whether a character has the Unicode `White_Space` property.
pub fn is_whitespace(c: char) -> (space: bool)
    ensures
        space == is_space(c),
{
    let code: u32 = c as u32;
    (code >= 0x09 && code <= 0x0D) || code == 0x20 || code == 0x85 || code == 0xA0 || code == 0x1680
        || (code >= 0x2000 && code <= 0x200A) || code == 0x2028 || code == 0x2029 || code == 0x202F
        || code == 0x205F || code == 0x3000
}

/// The index of the first character of `s` that is not white space.
pub open spec fn text_start(s: Seq<char>) -> int {
    first_where(s, |c: char| !is_space(c))
}

/// The index just past the last character of `s` that is not white space.
pub open spec fn text_end(s: Seq<char>) -> int {
    last_where(s, |c: char| !is_space(c)) + 1
}

/// `s` without leading white space.
pub open spec fn trim_start(s: Seq<char>) -> Seq<char> {
    s.subrange(text_start(s), s.len() as int)
}

/// `s` without trailing white space.
pub open spec fn trim_end(s: Seq<char>) -> Seq<char> {
    s.subrange(0, text_end(s))
}

/// `s` without white space at either end.
pub open spec fn trim(s: Seq<char>) -> Seq<char> {
    trim_end(trim_start(s))
}

/// The index of the first character that is not white space.
pub fn find_text_start(chars: &[char]) -> (start: usize)
    ensures
        start == text_start(chars@),
        start <= chars@.len(),
{
    let mut start: usize = 0;
    while start < chars.len() && is_whitespace(chars[start])
        invariant
            start <= chars@.len(),
            forall|j: int| 0 <= j < start ==> is_space(#[trigger] chars@[j]),
        decreases chars@.len() - start,
    {
        start = start + 1;
    }
    proof {
        lemma_first_where(chars@, |c: char| !is_space(c), start as int);
    }
    start
}

/// The index just past the last character that is not white space.
pub fn find_text_end(chars: &[char]) -> (end: usize)
    ensures
        end == text_end(chars@),
        end <= chars@.len(),
{
    let mut end: usize = chars.len();
    while end > 0 && is_whitespace(chars[end - 1])
        invariant
            end <= chars@.len(),
            forall|j: int| end <= j < chars@.len() ==> is_space(#[trigger] chars@[j]),
        decreases end,
    {
        end = end - 1;
    }
    proof {
        lemma_last_where(chars@, |c: char| !is_space(c), end - 1);
    }
    end
}

/// A copy of `chars` without white space at either end.
pub fn trimmed(chars: &[char]) -> (text: Vec<char>)
    ensures
        text@ == trim(chars@),
{
    let start = find_text_start(chars);
    let rest = vstd::slice::slice_subrange(chars, start, chars.len());
    let end = find_text_end(rest);
    let kept = vstd::slice::slice_subrange(rest, 0, end);
    vstd::slice::slice_to_vec(kept)
}

/// Whether `needle` stands in `hay` at index `at`.
pub fn matches_at(hay: &[char], needle: &[char], at: usize) -> (found: bool)
    ensures
        found == occurs_at(hay@, needle@, at as int),
{
    let total: usize = hay.len();
    if at > total || needle.len() > total - at {
        return false;
    }
    let mut i: usize = 0;
    while i < needle.len()
        invariant
            i <= needle@.len(),
            at + needle@.len() <= total == hay@.len(),
            forall|j: int| 0 <= j < i ==> hay@[at + j] == #[trigger] needle@[j],
        decreases needle@.len() - i,
    {
        if hay[at + i] != needle[i] {
            assert(hay@.subrange(at as int, at + needle@.len())[i as int] != needle@[i as int]);
            return false;
        }
        i = i + 1;
    }
    assert(hay@.subrange(at as int, at + needle@.len()) =~= needle@);
    true
}

/// The first index at which `needle` stands in `hay`.
pub fn find_text(hay: &[char], needle: &[char]) -> (found: Option<usize>)
    ensures
        found matches Some(at) ==> at <= hay@.len() && at == occurrence_from(hay@, needle@, 0)
            && occurs_at(hay@, needle@, at as int),
        found is None ==> occurrence_from(hay@, needle@, 0) == hay@.len() + 1 && !occurs(hay@, needle@),
{
    let mut at: usize = 0;
    while at < hay.len()
        invariant
            at <= hay@.len(),
            forall|j: int| 0 <= j < at ==> !#[trigger] occurs_at(hay@, needle@, j),
        decreases hay@.len() - at,
    {
        if matches_at(hay, needle, at) {
            proof {
                lemma_occurrence_skip(hay@, needle@, 0, at as int);
            }
            return Some(at);
        }
        at = at + 1;
    }
    proof {
        lemma_occurrence_skip(hay@, needle@, 0, at as int);
    }
    if matches_at(hay, needle, at) {
        return Some(at);
    }
    proof {
        assert(occurrence_from(hay@, needle@, at + 1) == hay@.len() + 1);
    }
    None
}

/// Whether `needle` stands anywhere in `hay`.
pub fn contains_text(hay: &[char], needle: &[char]) -> (found: bool)
    ensures
        found == occurs(hay@, needle@),
{
    match find_text(hay, needle) {
        Some(at) => true,
        None => false,
    }
}

/// `s` with every `from` replaced by `to`.
pub open spec fn replaced(s: Seq<char>, from: char, to: char) -> Seq<char> {
    s.map_values(|c: char| if c == from { to } else { c })
}

/// A copy of `chars` with every `from` replaced by `to`.
pub fn replace_char(chars: &[char], from: char, to: char) -> (out: Vec<char>)
    ensures
        out@ == replaced(chars@, from, to),
{
    let mut out: Vec<char> = Vec::new();
    for i in 0..chars.len()
        invariant
            out@ == replaced(chars@.take(i as int), from, to),
    {
        if chars[i] == from {
            out.push(to);
        } else {
            out.push(chars[i]);
        }
    }
    assert(chars@.take(chars@.len() as int) =~= chars@);
    out
}

/// Whether two texts are the same.
pub fn same_text(left: &str, right: &str) -> (same: bool)
    ensures
        same == (left@ == right@),
{
    let left_bytes = left.as_bytes();
    let right_bytes = right.as_bytes();
    let same = crate::search::same_bytes(left_bytes, right_bytes);
    proof {
        if same {
            vstd::utf8::encode_utf8_decode_utf8(left@);
            vstd::utf8::encode_utf8_decode_utf8(right@);
        }
    }
    same
}

/// The number that digits write in a base, the highest digit first.
pub open spec fn value_of(digits: Seq<char>, base: nat) -> int
    decreases digits.len(),
{
    if digits.len() == 0 {
        0
    } else {
        value_of(digits.drop_last(), base) * base + digit_value(digits.last())
    }
}

/// A number that is written in decimal reads back. Only decimal digits are written, and a zero
/// stands in front only where it is the number.
pub proof fn law_decimal_reads_back(value: nat)
    ensures
        value_of(decimal(value), 10) == value,
        decimal(value).len() > 0,
        decimal(value)[0] == '0' ==> value == 0 && decimal(value).len() == 1,
        forall|i: int|
            0 <= i < decimal(value).len() ==> '0' <= #[trigger] decimal(value)[i] && decimal(value)[i]
                <= '9',
    decreases value,
{
    let written = decimal(value);
    if value < 10 {
        assert(written.drop_last() =~= Seq::empty());
        assert(value_of(written.drop_last(), 10) == 0);
    } else {
        law_decimal_reads_back(value / 10);
        assert(written.drop_last() =~= decimal(value / 10));
        assert(written.last() == digit(value % 10));
    }
}

/// A number that is written in hexadecimal reads back. Only digits and the letters `a` to `f` are
/// written, and a zero stands in front only where it is the number.
pub proof fn law_hexadecimal_reads_back(value: nat)
    ensures
        value_of(hexadecimal(value), 16) == value,
        hexadecimal(value).len() > 0,
        hexadecimal(value)[0] == '0' ==> value == 0 && hexadecimal(value).len() == 1,
        forall|i: int|
            0 <= i < hexadecimal(value).len() ==> {
                let c = #[trigger] hexadecimal(value)[i];
                ('0' <= c && c <= '9') || ('a' <= c && c <= 'f')
            },
    decreases value,
{
    let written = hexadecimal(value);
    if value < 16 {
        assert(written.drop_last() =~= Seq::empty());
        assert(value_of(written.drop_last(), 16) == 0);
    } else {
        law_hexadecimal_reads_back(value / 16);
        assert(written.drop_last() =~= hexadecimal(value / 16));
        assert(written.last() == digit(value % 16));
    }
}

/// The white space characters are those that Unicode lists.
pub proof fn law_white_space(c: char)
    ensures
        is_space(c) <==> (c == '\t' || c == '\n' || c == '\u{b}' || c == '\u{c}' || c == '\r' || c
            == ' ' || c == '\u{85}' || c == '\u{a0}' || c == '\u{1680}' || c == '\u{2000}' || c
            == '\u{2001}' || c == '\u{2002}' || c == '\u{2003}' || c == '\u{2004}' || c
            == '\u{2005}' || c == '\u{2006}' || c == '\u{2007}' || c == '\u{2008}' || c
            == '\u{2009}' || c == '\u{200a}' || c == '\u{2028}' || c == '\u{2029}' || c
            == '\u{202f}' || c == '\u{205f}' || c == '\u{3000}'),
{
}

/// Trimming takes the white space off both ends, all of it and nothing else.
pub proof fn law_trimming_takes_the_white_space(
    before: Seq<char>,
    text: Seq<char>,
    after: Seq<char>,
)
    requires
        forall|i: int| 0 <= i < before.len() ==> is_space(#[trigger] before[i]),
        forall|i: int| 0 <= i < after.len() ==> is_space(#[trigger] after[i]),
        text.len() > 0 ==> !is_space(text[0]) && !is_space(text.last()),
    ensures
        trim(before + text + after) == text,
        text.len() > 0 ==> trim_start(before + text + after) == text + after,
        text.len() > 0 ==> trim_end(before + text + after) == before + text,
{
    let all = before + text + after;
    let ink = |c: char| !is_space(c);
    if text.len() > 0 {
        lemma_first_where(all, ink, before.len() as int);
        lemma_last_where(all, ink, before.len() + text.len() - 1);
        assert(trim_start(all) =~= text + after);
        assert(trim_end(all) =~= before + text);
        lemma_last_where(text + after, ink, text.len() - 1);
        assert(trim_end(text + after) =~= text);
    } else {
        lemma_first_where(all, ink, all.len() as int);
        assert(trim_start(all) =~= Seq::empty());
        lemma_last_where(Seq::<char>::empty(), ink, -1);
        assert(trim_end(Seq::<char>::empty()) =~= Seq::empty());
    }
}

/// A text stands in another exactly where the other is made of it and what stands around it.
pub proof fn law_a_part_occurs(hay: Seq<char>, needle: Seq<char>)
    ensures
        occurs(hay, needle) <==> exists|before: Seq<char>, after: Seq<char>|
            #[trigger] (before + needle + after) == hay,
{
    if occurs(hay, needle) {
        let at = choose|at: int| #[trigger] occurs_at(hay, needle, at);
        let before = hay.take(at);
        let after = hay.skip(at + needle.len());
        assert(before + needle + after =~= hay) by {
            assert(hay.subrange(at, at + needle.len()) == needle);
            assert forall|i: int| 0 <= i < hay.len() implies (before + needle + after)[i] == hay[i] by {
                if at <= i < at + needle.len() {
                    assert(hay.subrange(at, at + needle.len())[i - at] == needle[i - at]);
                }
            }
        }
    }
    if exists|before: Seq<char>, after: Seq<char>| #[trigger] (before + needle + after) == hay {
        let (before, after) = choose|before: Seq<char>, after: Seq<char>|
            #[trigger] (before + needle + after) == hay;
        assert(hay.subrange(before.len() as int, (before.len() + needle.len()) as int) =~= needle);
        assert(occurs_at(hay, needle, before.len() as int));
    }
}

/// Behind the same start, equal texts go on equally.
pub proof fn lemma_same_rest(start: Seq<char>, one: Seq<char>, other: Seq<char>)
    requires
        start + one == start + other,
    ensures
        one == other,
{
    assert((start + one).skip(start.len() as int) =~= one);
    assert((start + other).skip(start.len() as int) =~= other);
}

/// A text is cut in one way by a mark that starts with a character that the part in front of it
/// does not have.
pub proof fn lemma_cut(
    one: Seq<char>,
    behind_one: Seq<char>,
    other: Seq<char>,
    behind_other: Seq<char>,
    mark: Seq<char>,
)
    requires
        one + mark + behind_one == other + mark + behind_other,
        mark.len() > 0,
        !one.contains(mark[0]),
        !other.contains(mark[0]),
    ensures
        one == other,
        behind_one == behind_other,
{
    let left = one + mark + behind_one;
    let right = other + mark + behind_other;
    if one.len() < other.len() {
        assert(left[one.len() as int] == mark[0]);
        assert(right[one.len() as int] == other[one.len() as int]);
        assert(other.contains(mark[0]));
    }
    if other.len() < one.len() {
        assert(right[other.len() as int] == mark[0]);
        assert(left[other.len() as int] == one[other.len() as int]);
        assert(one.contains(mark[0]));
    }
    assert(left.take(one.len() as int) =~= one);
    assert(right.take(one.len() as int) =~= other);
    assert(left.skip((one.len() + mark.len()) as int) =~= behind_one);
    assert(right.skip((one.len() + mark.len()) as int) =~= behind_other);
}

/// A text is cut in one way by the last character of its kind.
pub proof fn lemma_cut_last(
    one: Seq<char>,
    behind_one: Seq<char>,
    other: Seq<char>,
    behind_other: Seq<char>,
    mark: char,
)
    requires
        one + seq![mark] + behind_one == other + seq![mark] + behind_other,
        !behind_one.contains(mark),
        !behind_other.contains(mark),
    ensures
        one == other,
        behind_one == behind_other,
{
    let left = one + seq![mark] + behind_one;
    let right = other + seq![mark] + behind_other;
    assert(left.len() == one.len() + 1 + behind_one.len());
    assert(right.len() == other.len() + 1 + behind_other.len());
    if one.len() < other.len() {
        let at = other.len() - one.len() - 1;
        assert(right[other.len() as int] == mark);
        assert(other.len() < left.len());
        assert(left[one.len() + 1 + at] == behind_one[at]);
        assert(behind_one.contains(mark));
    }
    if other.len() < one.len() {
        let at = one.len() - other.len() - 1;
        assert(left[one.len() as int] == mark);
        assert(one.len() < right.len());
        assert(right[other.len() + 1 + at] == behind_other[at]);
        assert(behind_other.contains(mark));
    }
    assert(left.take(one.len() as int) =~= one);
    assert(right.take(one.len() as int) =~= other);
    assert(left.skip((one.len() + 1) as int) =~= behind_one);
    assert(right.skip((one.len() + 1) as int) =~= behind_other);
}

/// Digits have no character below the digits or between those and the letters.
pub proof fn lemma_digits_have_no(value: nat, c: char)
    requires
        c < '0' || ('9' < c && c < 'a') || 'f' < c,
    ensures
        !decimal(value).contains(c),
        !hexadecimal(value).contains(c),
{
    law_decimal_reads_back(value);
    law_hexadecimal_reads_back(value);
}

/// A text with four marks of one kind is cut in one way.
pub proof fn lemma_cut_four(
    start: Seq<char>,
    one: (Seq<char>, Seq<char>, Seq<char>, Seq<char>, Seq<char>),
    other: (Seq<char>, Seq<char>, Seq<char>, Seq<char>, Seq<char>),
    marks: (Seq<char>, Seq<char>, Seq<char>, Seq<char>),
    kind: char,
)
    requires
        start + one.0 + marks.0 + one.1 + marks.1 + one.2 + marks.2 + one.3 + marks.3 + one.4 == start
            + other.0 + marks.0 + other.1 + marks.1 + other.2 + marks.2 + other.3 + marks.3 + other.4,
        marks.0.len() > 0 && marks.0[0] == kind,
        marks.1.len() > 0 && marks.1[0] == kind,
        marks.2.len() > 0 && marks.2[0] == kind,
        marks.3.len() > 0 && marks.3[0] == kind,
        !one.0.contains(kind) && !one.1.contains(kind) && !one.2.contains(kind) && !one.3.contains(
            kind,
        ),
        !other.0.contains(kind) && !other.1.contains(kind) && !other.2.contains(kind)
            && !other.3.contains(kind),
    ensures
        one == other,
{
    let own3 = one.3 + marks.3 + one.4;
    let own2 = one.2 + marks.2 + own3;
    let own1 = one.1 + marks.1 + own2;
    let own = one.0 + marks.0 + own1;
    let given3 = other.3 + marks.3 + other.4;
    let given2 = other.2 + marks.2 + given3;
    let given1 = other.1 + marks.1 + given2;
    let given = other.0 + marks.0 + given1;
    lemma_grouped(start, one, marks);
    lemma_grouped(start, other, marks);
    lemma_same_rest(start, own, given);
    lemma_cut(one.0, own1, other.0, given1, marks.0);
    lemma_cut(one.1, own2, other.1, given2, marks.1);
    lemma_cut(one.2, own3, other.2, given3, marks.2);
    lemma_cut(one.3, one.4, other.3, other.4, marks.3);
}

proof fn lemma_grouped(
    start: Seq<char>,
    one: (Seq<char>, Seq<char>, Seq<char>, Seq<char>, Seq<char>),
    marks: (Seq<char>, Seq<char>, Seq<char>, Seq<char>),
)
    ensures
        start + one.0 + marks.0 + one.1 + marks.1 + one.2 + marks.2 + one.3 + marks.3 + one.4 == start
            + (one.0 + marks.0 + (one.1 + marks.1 + (one.2 + marks.2 + (one.3 + marks.3 + one.4)))),
{
    let rest3 = one.3 + marks.3 + one.4;
    let rest2 = one.2 + marks.2 + rest3;
    let rest1 = one.1 + marks.1 + rest2;
    let start1 = start + one.0 + marks.0;
    let start2 = start1 + one.1 + marks.1;
    let start3 = start2 + one.2 + marks.2;
    assert(start3 + one.3 + marks.3 + one.4 =~= start3 + rest3);
    assert(start3 + rest3 =~= start2 + rest2);
    assert(start2 + rest2 =~= start1 + rest1);
    assert(start1 + rest1 =~= start + (one.0 + marks.0 + rest1));
}

/// What stands behind the first two parts of a text.
pub proof fn lemma_behind_two(
    start: Seq<char>,
    next: Seq<char>,
    parts: (Seq<char>, Seq<char>, Seq<char>, Seq<char>, Seq<char>, Seq<char>, Seq<char>, Seq<char>),
)
    ensures
        start + next + parts.0 + parts.1 + parts.2 + parts.3 + parts.4 + parts.5 + parts.6 + parts.7
            == start + (next + (parts.0 + parts.1 + parts.2 + parts.3 + parts.4 + parts.5 + parts.6
            + parts.7)),
{
    let front = start + next;
    let a = parts.0 + parts.1;
    let b = a + parts.2;
    let c = b + parts.3;
    let d = c + parts.4;
    let e = d + parts.5;
    let f = e + parts.6;
    assert(front + parts.0 + parts.1 =~= front + a);
    assert(front + a + parts.2 =~= front + b);
    assert(front + b + parts.3 =~= front + c);
    assert(front + c + parts.4 =~= front + d);
    assert(front + d + parts.5 =~= front + e);
    assert(front + e + parts.6 =~= front + f);
    assert(front + f + parts.7 =~= start + (next + (f + parts.7)));
}

/// A text with three marks of one kind is cut in one way.
pub proof fn lemma_cut_three(
    start: Seq<char>,
    one: (Seq<char>, Seq<char>, Seq<char>, Seq<char>),
    other: (Seq<char>, Seq<char>, Seq<char>, Seq<char>),
    marks: (Seq<char>, Seq<char>, Seq<char>),
    kind: char,
)
    requires
        start + one.0 + marks.0 + one.1 + marks.1 + one.2 + marks.2 + one.3 == start + other.0
            + marks.0 + other.1 + marks.1 + other.2 + marks.2 + other.3,
        marks.0.len() > 0 && marks.0[0] == kind,
        marks.1.len() > 0 && marks.1[0] == kind,
        marks.2.len() > 0 && marks.2[0] == kind,
        !one.0.contains(kind) && !one.1.contains(kind) && !one.2.contains(kind),
        !other.0.contains(kind) && !other.1.contains(kind) && !other.2.contains(kind),
    ensures
        one == other,
{
    let none = Seq::<char>::empty();
    let left = start + one.0 + marks.0 + one.1 + marks.1 + one.2 + marks.2 + one.3;
    let right = start + other.0 + marks.0 + other.1 + marks.1 + other.2 + marks.2 + other.3;
    let front = start + one.0 + marks.0 + one.1 + marks.1 + one.2 + marks.2;
    let other_front = start + other.0 + marks.0 + other.1 + marks.1 + other.2 + marks.2;
    lemma_grouped(start, (one.0, one.1, one.2, none, one.3), (marks.0, marks.1, marks.2, none));
    lemma_grouped(start, (other.0, other.1, other.2, none, other.3), (marks.0, marks.1, marks.2, none));
    assert(front + none + none + one.3 =~= left);
    assert(other_front + none + none + other.3 =~= right);
    assert(none + none + one.3 =~= one.3);
    assert(none + none + other.3 =~= other.3);
    let own2 = one.2 + marks.2 + one.3;
    let own1 = one.1 + marks.1 + own2;
    let given2 = other.2 + marks.2 + other.3;
    let given1 = other.1 + marks.1 + given2;
    lemma_same_rest(start, one.0 + marks.0 + own1, other.0 + marks.0 + given1);
    lemma_cut(one.0, own1, other.0, given1, marks.0);
    lemma_cut(one.1, own2, other.1, given2, marks.1);
    lemma_cut(one.2, one.3, other.2, other.3, marks.2);
}

} // verus!
