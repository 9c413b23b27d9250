//! Where a decompiled class's members are.
//!
//! The engine prints a class as one Java document, and which lines belong to which
//! member is a fact about that document. Every host that wants to show one member at a
//! time would otherwise have to reconstruct it, so the producer reports the boundaries. The
//! rule is the simple reading of the document, and it is stated in full:
//!
//! - A member starts at a depth-1 line that opens a brace (a method, a constructor, an
//!   initializer block, a nested type), or at a depth-1 line that ends in `;` and names
//!   a parameter list (an abstract or native method, which has no body).
//! - A member ends where its brace closes, or on its own line when it has no body.
//! - Braces inside string literals, character literals and comments do not count.
//! - The parts tile the document: the lines before the first declaration are the
//!   `header` part, the lines after the last one are the `footer`, and the lines between two
//!   members lead the second, so `end + 1` is always the next `start`. A host that renders the
//!   parts in order reproduces the document exactly.
use crate::json::{lemma_quoted_cut, quoted};
use crate::seqs::{
    first_where, last_where, lemma_first_where, lemma_first_where_is, lemma_last_where,
    lemma_last_where_is, occurrence_from, occurs, occurs_at,
};
use crate::text::{
    chars_of, contains_text, decimal, find_text, find_text_end, find_text_start, is_space,
    law_decimal_reads_back, lemma_cut, lemma_digits_have_no, lemma_same_rest, matches_at,
    push_decimal, slice_text, text_start, value_of, trim, trim_end, trim_start, trimmed,
};
use vstd::prelude::*;

verus! {

/// One part of a class document, as 1-based inclusive line numbers.
#[derive(Debug)]
pub struct Part {
    pub name: String,
    /// `header`, `footer`, `method`, `abstract`, `initializer` or `type`.
    pub kind: &'static str,
    pub start: usize,
    pub end: usize,
}

/// A part, with its texts as characters.
#[verifier::ext_equal]
pub struct PartView {
    pub name: Seq<char>,
    pub kind: Seq<char>,
    pub start: int,
    pub end: int,
}

impl View for Part {
    type V = PartView;

    open spec fn view(&self) -> PartView {
        PartView {
            name: self.name@,
            kind: self.kind@,
            start: self.start as int,
            end: self.end as int,
        }
    }
}

/// The views of a list of parts.
pub open spec fn part_views(parts: Seq<Part>) -> Seq<PartView> {
    parts.map_values(|part: Part| part@)
}

/// What the characters being read belong to.
#[derive(Clone, Copy, Debug, PartialEq, Eq, Structural)]
pub enum State {
    Code,
    String,
    Character,
    LineComment,
    BlockComment,
}

/// How far a scan has come: what the next character belongs to, the brace depth, and whether a
/// brace was opened.
pub struct Scan {
    pub state: State,
    pub depth: int,
    pub opens: bool,
}

/// A scan of the rest of a line, from `index` on.
pub open spec fn scanned(line: Seq<char>, index: int, at: Scan) -> Scan
    decreases line.len() + 1 - index,
{
    if index >= line.len() || at.state == State::LineComment {
        if at.state == State::LineComment {
            Scan { state: State::Code, ..at }
        } else {
            at
        }
    } else {
        let c = line[index];
        let next_is = |d: char| index + 1 < line.len() && line[index + 1] == d;
        match at.state {
            State::Code => if c == '/' && next_is('/') {
                scanned(line, index + 2, Scan { state: State::LineComment, ..at })
            } else if c == '/' && next_is('*') {
                scanned(line, index + 2, Scan { state: State::BlockComment, ..at })
            } else if c == '"' {
                scanned(line, index + 1, Scan { state: State::String, ..at })
            } else if c == '\'' {
                scanned(line, index + 1, Scan { state: State::Character, ..at })
            } else if c == '{' {
                scanned(line, index + 1, Scan { depth: at.depth + 1, opens: true, ..at })
            } else if c == '}' {
                scanned(line, index + 1, Scan { depth: at.depth - 1, ..at })
            } else {
                scanned(line, index + 1, at)
            },
            State::String => if c == '\\' {
                scanned(line, index + 2, at)
            } else if c == '"' {
                scanned(line, index + 1, Scan { state: State::Code, ..at })
            } else {
                scanned(line, index + 1, at)
            },
            State::Character => if c == '\\' {
                scanned(line, index + 2, at)
            } else if c == '\'' {
                scanned(line, index + 1, Scan { state: State::Code, ..at })
            } else {
                scanned(line, index + 1, at)
            },
            _ => if c == '*' && next_is('/') {
                scanned(line, index + 2, Scan { state: State::Code, ..at })
            } else {
                scanned(line, index + 1, at)
            },
        }
    }
}

/// Advances the literal state and the brace depth across one line.
fn scan(line: &[char], state: &mut State, depth: &mut i128, opens: &mut bool)
    requires
        i128::MIN + line@.len() <= *old(depth) <= i128::MAX - line@.len(),
    ensures
        scanned(
            line@,
            0,
            (Scan { state: *old(state), depth: *old(depth) as int, opens: *old(opens) }),
        ) == (Scan { state: *final(state), depth: *final(depth) as int, opens: *final(opens) }),
        *old(depth) - line@.len() <= *final(depth) <= *old(depth) + line@.len(),
{
    let len: usize = line.len();
    let mut index: usize = 0;
    let ghost start = *depth as int;
    let ghost whole = scanned(
        line@,
        0,
        Scan { state: *state, depth: *depth as int, opens: *opens },
    );
    while index < len && *state != State::LineComment
        invariant
            len == line@.len(),
            i128::MIN + len <= start <= i128::MAX - len,
            start - len <= *depth <= start + len,
            index <= len ==> start - index <= *depth <= start + index,
            whole == scanned(
                line@,
                index as int,
                Scan { state: *state, depth: *depth as int, opens: *opens },
            ),
        decreases (if index < len { len - index } else { 0 }),
    {
        let c = line[index];
        let rest: usize = len - index;
        // Two characters at the end of a line count as one: nothing is behind them.
        let double: usize = if rest >= 2 {
            index + 2
        } else {
            len
        };
        match *state {
            State::Code => {
                if c == '/' && rest >= 2 && line[index + 1] == '/' {
                    *state = State::LineComment;
                    index = double;
                } else if c == '/' && rest >= 2 && line[index + 1] == '*' {
                    *state = State::BlockComment;
                    index = double;
                } else {
                    if c == '"' {
                        *state = State::String;
                    } else if c == '\'' {
                        *state = State::Character;
                    } else if c == '{' {
                        *depth = *depth + 1;
                        *opens = true;
                    } else if c == '}' {
                        *depth = *depth - 1;
                    }
                    index = index + 1;
                }
            },
            State::String => {
                if c == '\\' {
                    index = double;
                } else {
                    if c == '"' {
                        *state = State::Code;
                    }
                    index = index + 1;
                }
            },
            State::Character => {
                if c == '\\' {
                    index = double;
                } else {
                    if c == '\'' {
                        *state = State::Code;
                    }
                    index = index + 1;
                }
            },
            _ => {
                if c == '*' && rest >= 2 && line[index + 1] == '/' {
                    *state = State::Code;
                    index = double;
                } else {
                    index = index + 1;
                }
            },
        }
        proof {
            let now = Scan { state: *state, depth: *depth as int, opens: *opens };
            assert(scanned(line@, len + 1, now) == scanned(line@, len as int, now));
        }
    }
    if *state == State::LineComment {
        *state = State::Code;
    }
}

/// The lines of a text: what stands between its line breaks.
pub open spec fn lines_of(text: Seq<char>) -> Seq<Seq<char>>
    decreases text.len(),
{
    let at = first_where(text, |c: char| c == '\n');
    if at >= text.len() || at < 0 {
        seq![text]
    } else {
        seq![text.take(at)] + lines_of(text.skip(at + 1))
    }
}

/// Whether `ranges` cover `text` up to `end`, each one behind the break that ends the one before.
pub open spec fn ranges_cover(ranges: Seq<(usize, usize)>, end: int) -> bool {
    &&& forall|i: int|
        0 <= i < ranges.len() ==> (#[trigger] ranges[i]).0 <= ranges[i].1 && ranges[i].1 < end
    &&& ranges.len() > 0 ==> ranges[0].0 == 0 && ranges.last().1 == end - 1
    &&& forall|i: int, j: int|
        0 <= i && j == i + 1 && j < ranges.len() ==> (#[trigger] ranges[j]).0 == (
        #[trigger] ranges[i]).1 + 1
}

/// The parts of `text` that `ranges` name.
pub open spec fn range_lines(text: Seq<char>, ranges: Seq<(usize, usize)>) -> Seq<Seq<char>> {
    ranges.map_values(|range: (usize, usize)| text.subrange(range.0 as int, range.1 as int))
}

/// Where each line of `chars` starts and ends.
fn line_ranges(chars: &[char]) -> (ranges: Vec<(usize, usize)>)
    ensures
        range_lines(chars@, ranges@) == lines_of(chars@),
        ranges_cover(ranges@, (chars@.len() + 1) as int),
        ranges@.len() > 0,
{
    let len: usize = chars.len();
    let ghost text = chars@;
    let ghost is_break = |c: char| c == '\n';
    let mut ranges: Vec<(usize, usize)> = Vec::new();
    let mut start: usize = 0;
    let mut at: usize = 0;
    assert(text.skip(0) =~= text);
    assert(range_lines(text, ranges@) + lines_of(text.skip(0)) =~= lines_of(text));
    while at < len
        invariant
            len == chars@.len(),
            text == chars@,
            is_break == (|c: char| c == '\n'),
            start <= at <= len,
            forall|j: int| start <= j < at ==> #[trigger] text[j] != '\n',
            lines_of(text) == range_lines(text, ranges@) + lines_of(text.skip(start as int)),
            ranges_cover(ranges@, start as int),
            ranges@.len() == 0 ==> start == 0,
        decreases len - at,
    {
        if chars[at] == '\n' {
            let ghost before = ranges@;
            ranges.push((start, at));
            proof {
                let rest = text.skip(start as int);
                assert forall|j: int| 0 <= j < at - start implies !is_break(#[trigger] rest[j]) by {
                    assert(rest[j] == text[start + j]);
                }
                assert(rest[at - start] == text[at as int]);
                lemma_first_where(rest, is_break, at - start);
                assert(rest.take(at - start) =~= text.subrange(start as int, at as int));
                assert(rest.skip(at - start + 1) =~= text.skip(at + 1));
                assert(range_lines(text, ranges@) =~= range_lines(text, before).push(
                    text.subrange(start as int, at as int),
                ));
                assert(range_lines(text, before) + (seq![text.subrange(start as int, at as int)]
                    + lines_of(text.skip(at + 1))) =~= range_lines(text, ranges@) + lines_of(
                    text.skip(at + 1),
                ));
            }
            start = at + 1;
        }
        at = at + 1;
    }
    let ghost before = ranges@;
    ranges.push((start, len));
    proof {
        let rest = text.skip(start as int);
        assert forall|j: int| 0 <= j < rest.len() implies !is_break(#[trigger] rest[j]) by {
            assert(rest[j] == text[start + j]);
        }
        lemma_first_where(rest, is_break, rest.len() as int);
        assert(rest =~= text.subrange(start as int, len as int));
        assert(range_lines(text, ranges@) =~= range_lines(text, before) + seq![rest]);
    }
    ranges
}

/// Whether a character is alphabetic or numeric, as Unicode has it.
pub uninterp spec fn alphanumeric(c: char) -> bool;

/// Whether an ASCII character is a letter or a digit.
pub open spec fn ascii_alphanumeric(c: char) -> bool {
    ('0' <= c && c <= '9') || ('A' <= c && c <= 'Z') || ('a' <= c && c <= 'z')
}

/// `char::is_alphanumeric`. Of ASCII it says letters and digits; of other characters it goes by
/// Unicode's tables, which are named [`alphanumeric`] and not stated.
#[verifier::external_body]
fn is_alphanumeric(c: char) -> (yes: bool)
    ensures
        yes == alphanumeric(c),
        (c as u32) < 0x80 ==> yes == ascii_alphanumeric(c),
{
    c.is_alphanumeric()
}

/// Whether a character may stand in an identifier.
pub open spec fn is_word(c: char) -> bool {
    (if (c as u32) < 0x80 {
        ascii_alphanumeric(c)
    } else {
        alphanumeric(c)
    }) || c == '_' || c == '$'
}

fn word_char(c: char) -> (yes: bool)
    ensures
        yes == is_word(c),
{
    is_alphanumeric(c) || c == '_' || c == '$'
}

/// The last run of identifier characters in a text.
pub open spec fn last_word(text: Seq<char>) -> Option<Seq<char>> {
    let end = last_where(text, |c: char| is_word(c)) + 1;
    if end <= 0 {
        None
    } else {
        let start = last_where(text.take(end), |c: char| !is_word(c)) + 1;
        Some(text.subrange(start, end))
    }
}

/// The first run of identifier characters in a text.
pub open spec fn first_word(text: Seq<char>) -> Option<Seq<char>> {
    let start = first_where(text, |c: char| is_word(c));
    if start >= text.len() {
        None
    } else {
        let width = first_where(text.skip(start), |c: char| !is_word(c));
        Some(text.subrange(start, start + width))
    }
}

/// A text that may be absent, as characters.
pub open spec fn found_text(text: Option<String>) -> Option<Seq<char>> {
    match text {
        Some(text) => Some(text@),
        None => None,
    }
}

fn find_last_word(text: &[char]) -> (word: Option<String>)
    ensures
        found_text(word) == last_word(text@),
{
    let mut end: usize = text.len();
    while end > 0 && !word_char(text[end - 1])
        invariant
            end <= text@.len(),
            forall|j: int| end <= j < text@.len() ==> !is_word(#[trigger] text@[j]),
        decreases end,
    {
        end = end - 1;
    }
    proof {
        lemma_last_where(text@, |c: char| is_word(c), end - 1);
    }
    if end == 0 {
        return None;
    }
    let mut start: usize = end;
    while start > 0 && word_char(text[start - 1])
        invariant
            start <= end <= text@.len(),
            forall|j: int| start <= j < end ==> is_word(#[trigger] text@[j]),
        decreases start,
    {
        start = start - 1;
    }
    proof {
        let front = text@.take(end as int);
        assert forall|j: int| start - 1 < j < front.len() implies is_word(#[trigger] front[j]) by {
            assert(front[j] == text@[j]);
        }
        lemma_last_where(front, |c: char| !is_word(c), start - 1);
    }
    Some(slice_text(text, start, end))
}

fn find_first_word(text: &[char]) -> (word: Option<String>)
    ensures
        found_text(word) == first_word(text@),
{
    let mut start: usize = 0;
    while start < text.len() && !word_char(text[start])
        invariant
            start <= text@.len(),
            forall|j: int| 0 <= j < start ==> !is_word(#[trigger] text@[j]),
        decreases text@.len() - start,
    {
        start = start + 1;
    }
    proof {
        lemma_first_where(text@, |c: char| is_word(c), start as int);
    }
    if start == text.len() {
        return None;
    }
    let mut end: usize = start;
    while end < text.len() && word_char(text[end])
        invariant
            start <= end <= text@.len(),
            forall|j: int| start <= j < end ==> is_word(#[trigger] text@[j]),
        decreases text@.len() - end,
    {
        end = end + 1;
    }
    proof {
        let rest = text@.skip(start as int);
        assert forall|j: int| 0 <= j < end - start implies is_word(#[trigger] rest[j]) by {
            assert(rest[j] == text@[start + j]);
        }
        if end < text@.len() {
            assert(rest[end - start] == text@[end as int]);
        }
        lemma_first_where(rest, |c: char| !is_word(c), end - start);
    }
    Some(slice_text(text, start, end))
}

/// The index of the first `wanted` in a line, or the length.
pub open spec fn char_at(line: Seq<char>, wanted: char) -> int {
    first_where(line, char_is(wanted))
}

/// The test for one character.
pub open spec fn char_is(wanted: char) -> spec_fn(char) -> bool {
    |c: char| c == wanted
}

fn find_char(line: &[char], wanted: char) -> (at: usize)
    ensures
        at == char_at(line@, wanted),
        at <= line@.len(),
{
    let mut at: usize = 0;
    while at < line.len() && line[at] != wanted
        invariant
            at <= line@.len(),
            forall|j: int| 0 <= j < at ==> #[trigger] line@[j] != wanted,
        decreases line@.len() - at,
    {
        at = at + 1;
    }
    proof {
        lemma_first_where(line@, char_is(wanted), at as int);
    }
    at
}

/// Whether a depth-1 line declares something without opening a body.
///
/// A field also ends in `;` at this depth, and a field is the class's own business rather than a
/// member; the parenthesis is what separates the two.
pub open spec fn declares(line: Seq<char>) -> bool {
    let trimmed = trim_end(line);
    trimmed.len() > 0 && trimmed.last() == ';' && char_at(trimmed, '(') < trimmed.len()
}

/// Whether a depth-1 line declares something without opening a body.
fn is_declaration(line: &[char]) -> (yes: bool)
    ensures
        yes == declares(line@),
{
    let end = find_text_end(line);
    let trimmed = vstd::slice::slice_subrange(line, 0, end);
    end > 0 && trimmed[end - 1] == ';' && find_char(trimmed, '(') < end
}

/// The words that introduce a type.
pub open spec fn keyword(k: int) -> Seq<char> {
    if k == 0 {
        "class "@
    } else if k == 1 {
        "interface "@
    } else if k == 2 {
        "enum "@
    } else {
        "record "@
    }
}

fn keyword_chars(k: usize) -> (word: Vec<char>)
    requires
        k < 4,
    ensures
        word@ == keyword(k as int),
{
    if k == 0 {
        chars_of("class ")
    } else if k == 1 {
        chars_of("interface ")
    } else if k == 2 {
        chars_of("enum ")
    } else {
        chars_of("record ")
    }
}

/// Whether a line introduces a type: one of the words stands in it behind a space, or at its
/// start.
pub open spec fn names_type(line: Seq<char>) -> bool {
    exists|k: int| 0 <= k < 4 && #[trigger] names_type_by(line, k)
}

/// Whether a line introduces a type by the given word.
pub open spec fn names_type_by(line: Seq<char>, k: int) -> bool {
    occurs(line, seq![' '] + keyword(k)) || occurs_at(trim_start(line), keyword(k), 0)
}

/// What a declaration declares: `abstract` without a body; with one, a `method` when it has a
/// parameter list, a `type` when it is introduced as one, and an `initializer` otherwise.
pub open spec fn kind_of(line: Seq<char>, starts_body: bool) -> Seq<char> {
    if !starts_body {
        "abstract"@
    } else if char_at(line, '(') < line.len() {
        "method"@
    } else if names_type(line) {
        "type"@
    } else {
        "initializer"@
    }
}

fn declaration_kind(line: &[char], starts_body: bool) -> (kind: &'static str)
    ensures
        kind@ == kind_of(line@, starts_body),
{
    if !starts_body {
        return "abstract";
    }
    if find_char(line, '(') < line.len() {
        return "method";
    }
    let start = find_text_start(line);
    let rest = vstd::slice::slice_subrange(line, start, line.len());
    let mut k: usize = 0;
    while k < 4
        invariant
            k <= 4,
            rest@ == trim_start(line@),
            starts_body,
            char_at(line@, '(') >= line@.len(),
            forall|j: int| 0 <= j < k ==> !#[trigger] names_type_by(line@, j),
        decreases 4 - k,
    {
        let word = keyword_chars(k);
        let mut spaced: Vec<char> = Vec::new();
        spaced.push(' ');
        spaced.append(&mut keyword_chars(k));
        assert(spaced@ =~= seq![' '] + keyword(k as int));
        if contains_text(line, spaced.as_slice()) || matches_at(rest, word.as_slice(), 0) {
            assert(names_type_by(line@, k as int));
            return "type";
        }
        k = k + 1;
    }
    "initializer"
}

/// The identifier a declaration introduces: the one before `(`, or before `{`.
pub open spec fn name_of(line: Seq<char>) -> Seq<char> {
    let parenthesis = char_at(line, '(');
    let cut = if parenthesis < line.len() {
        parenthesis
    } else {
        char_at(line, '{')
    };
    match last_word(line.take(cut)) {
        Some(word) => word,
        None => trim(line),
    }
}

/// The identifier a declaration introduces: the one before `(`, or before `{`.
fn member_name(line: &[char]) -> (name: String)
    ensures
        name@ == name_of(line@),
{
    let parenthesis = find_char(line, '(');
    let cut = if parenthesis < line.len() {
        parenthesis
    } else {
        find_char(line, '{')
    };
    match find_last_word(vstd::slice::slice_subrange(line, 0, cut)) {
        Some(word) => word,
        None => crate::text::string_of(trimmed(line).as_slice()),
    }
}

/// The class that a line introduces by the given word: the identifier behind the word, wherever
/// it stands, unless the line is a comment.
pub open spec fn class_by(line: Seq<char>, k: int) -> Option<Seq<char>> {
    let text = trim_start(line);
    if occurs_at(text, "//"@, 0) || !occurs(text, keyword(k)) {
        None
    } else {
        first_word(text.skip(occurrence_from(text, keyword(k), 0) + keyword(k).len()))
    }
}

/// The class that a line introduces by one of the words from the `k`-th on.
pub open spec fn class_by_from(line: Seq<char>, k: int) -> Option<Seq<char>>
    decreases 4 - k,
{
    if k >= 4 {
        None
    } else {
        match class_by(line, k) {
            Some(name) => Some(name),
            None => class_by_from(line, k + 1),
        }
    }
}

/// The class that the lines from the `i`-th on introduce first.
pub open spec fn class_from(lines: Seq<Seq<char>>, i: int) -> Option<Seq<char>>
    decreases lines.len() - i,
{
    if i >= lines.len() {
        None
    } else {
        match class_by_from(lines[i], 0) {
            Some(name) => Some(name),
            None => class_from(lines, i + 1),
        }
    }
}

/// The class that one line introduces.
fn line_class(line: &[char]) -> (name: Option<String>)
    ensures
        found_text(name) == class_by_from(line@, 0),
{
    let start = find_text_start(line);
    let text = vstd::slice::slice_subrange(line, start, line.len());
    let slashes = chars_of("//");
    let comment = matches_at(text, slashes.as_slice(), 0);
    let mut k: usize = 0;
    while k < 4
        invariant
            k <= 4,
            text@ == trim_start(line@),
            comment == occurs_at(text@, "//"@, 0),
            class_by_from(line@, 0) == class_by_from(line@, k as int),
        decreases 4 - k,
    {
        if !comment {
            let word = keyword_chars(k);
            match find_text(text, word.as_slice()) {
                Some(at) => {
                    assert(occurs(text@, keyword(k as int)));
                    let total: usize = text.len();
                    let behind = vstd::slice::slice_subrange(text, at + word.len(), total);
                    assert(behind@ =~= text@.skip(
                        occurrence_from(text@, keyword(k as int), 0) + keyword(k as int).len(),
                    ));
                    let name = find_first_word(behind);
                    if name.is_some() {
                        return name;
                    }
                },
                None => {},
            }
        }
        k = k + 1;
    }
    None
}

/// A line of a document.
fn line_at<'a>(chars: &'a [char], ranges: &Vec<(usize, usize)>, i: usize) -> (line: &'a [char])
    requires
        i < ranges@.len(),
        ranges_cover(ranges@, (chars@.len() + 1) as int),
    ensures
        line@ == range_lines(chars@, ranges@)[i as int],
{
    vstd::slice::slice_subrange(chars, ranges[i].0, ranges[i].1)
}

/// The class's simple name, for the parts that no declaration names.
fn class_name(chars: &[char], ranges: &Vec<(usize, usize)>) -> (name: Option<String>)
    requires
        ranges_cover(ranges@, (chars@.len() + 1) as int),
    ensures
        found_text(name) == class_from(range_lines(chars@, ranges@), 0),
{
    let ghost lines = range_lines(chars@, ranges@);
    let mut i: usize = 0;
    while i < ranges.len()
        invariant
            ranges_cover(ranges@, (chars@.len() + 1) as int),
            lines == range_lines(chars@, ranges@),
            i <= ranges@.len(),
            class_from(lines, 0) == class_from(lines, i as int),
        decreases ranges@.len() - i,
    {
        let name = line_class(line_at(chars, ranges, i));
        if name.is_some() {
            return name;
        }
        i = i + 1;
    }
    None
}

/// A declaration found while scanning, before the parts are assembled.
struct Declaration {
    name: String,
    kind: &'static str,
    start: usize,
    /// The line its own brace closes on: where the next part may begin.
    own_end: usize,
}

/// A declaration, with its texts as characters.
#[verifier::ext_equal]
pub struct DeclarationView {
    pub name: Seq<char>,
    pub kind: Seq<char>,
    pub start: int,
    pub own_end: int,
}

impl Declaration {
    spec fn shown(&self) -> DeclarationView {
        DeclarationView {
            name: self.name@,
            kind: self.kind@,
            start: self.start as int,
            own_end: self.own_end as int,
        }
    }
}

spec fn declaration_views(list: Seq<Declaration>) -> Seq<DeclarationView> {
    list.map_values(|declaration: Declaration| declaration.shown())
}

/// How far the reading of a document has come.
pub struct Walk {
    pub state: State,
    pub depth: int,
    /// The member whose brace is open.
    pub open: Option<DeclarationView>,
    /// The members that were read to their end.
    pub found: Seq<DeclarationView>,
}

/// One more line.
pub open spec fn walk_line(walk: Walk, line: Seq<char>, number: int) -> Walk {
    let after = scanned(line, 0, Scan { state: walk.state, depth: walk.depth, opens: false });
    let next = Walk { state: after.state, depth: after.depth, open: None, found: walk.found };
    match walk.open {
        Some(current) => {
            let current = DeclarationView { own_end: number, ..current };
            if after.depth == 1 {
                Walk { found: walk.found.push(current), ..next }
            } else {
                Walk { open: Some(current), ..next }
            }
        },
        None => {
            let starts_body = walk.depth == 1 && after.opens;
            let declaration = walk.depth == 1 && after.depth == 1 && declares(line);
            if starts_body || declaration {
                let current = DeclarationView {
                    name: name_of(line),
                    kind: kind_of(line, starts_body),
                    start: number,
                    own_end: number,
                };
                if !starts_body || after.depth == 1 {
                    // A one-line body, or a declaration with none.
                    Walk { found: walk.found.push(current), ..next }
                } else {
                    Walk { open: Some(current), ..next }
                }
            } else {
                next
            }
        },
    }
}

/// The reading of the first `n` lines.
pub open spec fn walked(lines: Seq<Seq<char>>, n: int) -> Walk
    decreases n,
{
    if n <= 0 {
        Walk { state: State::Code, depth: 0, open: None, found: Seq::empty() }
    } else {
        walk_line(walked(lines, n - 1), lines[n - 1], n)
    }
}

/// Every depth-1 declaration, in document order. A document that stops inside a member declares
/// that member too: what was read is still the truth about it.
pub open spec fn declarations_of(lines: Seq<Seq<char>>) -> Seq<DeclarationView> {
    let walk = walked(lines, lines.len() as int);
    match walk.open {
        Some(current) => walk.found.push(current),
        None => walk.found,
    }
}

/// Whether declarations follow one another inside the first `n` lines.
pub open spec fn in_order(list: Seq<DeclarationView>, n: int) -> bool {
    &&& forall|i: int|
        0 <= i < list.len() ==> 1 <= (#[trigger] list[i]).start <= list[i].own_end <= n
    &&& forall|i: int, j: int|
        0 <= i < j < list.len() ==> (#[trigger] list[i]).own_end < (#[trigger] list[j]).start
}

/// Whether a line holds nothing but white space.
pub open spec fn blank(line: Seq<char>) -> bool {
    text_start(line) >= line.len()
}

proof fn lemma_blank_chars(line: Seq<char>)
    ensures
        blank(line) <==> forall|j: int| 0 <= j < line.len() ==> is_space(#[trigger] line[j]),
{
    lemma_first_where_is(line, |c: char| !is_space(c));
    if forall|j: int| 0 <= j < line.len() ==> is_space(#[trigger] line[j]) {
        lemma_first_where(line, |c: char| !is_space(c), line.len() as int);
    }
}

/// White space changes neither the depth nor whether a brace was opened.
proof fn lemma_blank_scan(line: Seq<char>, index: int, at: Scan)
    requires
        0 <= index,
        forall|j: int| 0 <= j < line.len() ==> is_space(#[trigger] line[j]),
    ensures
        scanned(line, index, at).depth == at.depth,
        scanned(line, index, at).opens == at.opens,
    decreases line.len() - index,
{
    if index < line.len() && at.state != State::LineComment {
        assert(is_space(line[index]));
        lemma_blank_scan(line, index + 1, at);
    }
}

/// A line that is declared by ending in a semicolon is not blank.
proof fn lemma_declares_is_text(line: Seq<char>)
    requires
        declares(line),
    ensures
        !blank(line),
{
    lemma_last_where_is(line, |c: char| !is_space(c));
    lemma_blank_chars(line);
}

/// What the reading of the first `n` lines has found.
proof fn lemma_walk(lines: Seq<Seq<char>>, n: int)
    requires
        0 <= n <= lines.len(),
    ensures
        in_order(walked(lines, n).found, n),
        forall|i: int|
            0 <= i < walked(lines, n).found.len() ==> !blank(
                lines[(#[trigger] walked(lines, n).found[i]).own_end - 1],
            ),
        walked(lines, n).open matches Some(current) ==> {
            &&& walked(lines, n).depth != 1
            &&& 1 <= current.start <= current.own_end == n
            &&& walked(lines, n).found.len() > 0 ==> walked(lines, n).found.last().own_end
                < current.start
        },
    decreases n,
{
    if n > 0 {
        lemma_walk(lines, n - 1);
        let before = walked(lines, n - 1);
        let line = lines[n - 1];
        let start = Scan { state: before.state, depth: before.depth, opens: false };
        let after = scanned(line, 0, start);
        lemma_blank_chars(line);
        if blank(line) {
            lemma_blank_scan(line, 0, start);
        }
        if declares(line) {
            lemma_declares_is_text(line);
        }
        let now = walked(lines, n);
        assert(now == walk_line(before, line, n));
        if now.found.len() > before.found.len() {
            assert(now.found.drop_last() =~= before.found);
            assert(now.found.last().own_end == n);
        } else {
            assert(now.found == before.found);
        }
    }
}

/// How many lines a document has up to its last one that is not blank.
pub open spec fn text_lines(lines: Seq<Seq<char>>) -> int {
    last_where(lines, |line: Seq<char>| !blank(line)) + 1
}

/// The parts of a document that declares something: what stands before the first declaration,
/// the declarations, and what stands behind the last.
pub open spec fn declared_parts(
    declarations: Seq<DeclarationView>,
    class: Seq<char>,
    last: int,
) -> Seq<PartView> {
    let header = if declarations[0].start > 1 {
        seq![
            PartView { name: class, kind: "header"@, start: 1, end: declarations[0].start - 1 },
        ]
    } else {
        Seq::empty()
    };
    let members = Seq::new(declarations.len(), |i: int| member_part(declarations, i));
    let end = declarations.last().own_end;
    let footer = if end < last {
        seq![PartView { name: class, kind: "footer"@, start: end + 1, end: last }]
    } else {
        Seq::empty()
    };
    header + members + footer
}

/// The part of a declaration. The lines between two declarations lead the second.
pub open spec fn member_part(declarations: Seq<DeclarationView>, i: int) -> PartView {
    PartView {
        name: declarations[i].name,
        kind: declarations[i].kind,
        start: if i == 0 {
            declarations[0].start
        } else {
            declarations[i - 1].own_end + 1
        },
        end: declarations[i].own_end,
    }
}

/// The name the parts that no declaration names go by.
pub open spec fn document_name(lines: Seq<Seq<char>>) -> Seq<char> {
    match class_from(lines, 0) {
        Some(name) => name,
        None => "class"@,
    }
}

/// The parts a reader distinguishes in a document.
pub open spec fn parts_of(lines: Seq<Seq<char>>) -> Seq<PartView> {
    let last = text_lines(lines);
    let declarations = declarations_of(lines);
    let class = document_name(lines);
    if last == 0 {
        Seq::empty()
    } else if declarations.len() == 0 {
        seq![PartView { name: class, kind: "header"@, start: 1, end: last }]
    } else {
        declared_parts(declarations, class, last)
    }
}

/// Every depth-1 declaration, in document order.
fn declarations(chars: &[char], ranges: &Vec<(usize, usize)>) -> (list: Vec<Declaration>)
    requires
        ranges_cover(ranges@, (chars@.len() + 1) as int),
    ensures
        declaration_views(list@) == declarations_of(range_lines(chars@, ranges@)),
{
    let _total: usize = chars.len();
    let ghost lines = range_lines(chars@, ranges@);
    let mut found: Vec<Declaration> = Vec::new();
    let mut depth: i128 = 0;
    let mut state: State = State::Code;
    let mut open: Option<Declaration> = None;
    let mut index: usize = 0;
    assert(declaration_views(found@) =~= Seq::empty());
    while index < ranges.len()
        invariant
            ranges_cover(ranges@, (chars@.len() + 1) as int),
            lines == range_lines(chars@, ranges@),
            chars@.len() <= usize::MAX,
            index <= ranges@.len(),
            ({
                let walk = walked(lines, index as int);
                &&& walk.state == state
                &&& walk.depth == depth
                &&& walk.found == declaration_views(found@)
                &&& walk.open == (match open {
                    Some(current) => Some(current.shown()),
                    None => None,
                })
            }),
            index < ranges@.len() ==> -ranges@[index as int].0 <= depth <= ranges@[index as int].0,
        decreases ranges@.len() - index,
    {
        let line = line_at(chars, ranges, index);
        let number: usize = index + 1;
        let before: i128 = depth;
        let mut opens: bool = false;
        let ghost old_found = found@;
        scan(line, &mut state, &mut depth, &mut opens);
        proof {
            assert(walked(lines, index + 1) == walk_line(walked(lines, index as int), line@, index + 1));
            assert(line@.len() == ranges@[index as int].1 - ranges@[index as int].0);
            if index + 1 < ranges@.len() {
                assert(ranges@[index + 1].0 == ranges@[index as int].1 + 1);
            }
        }
        match open {
            Some(current) => {
                let ended = Declaration {
                    name: current.name,
                    kind: current.kind,
                    start: current.start,
                    own_end: number,
                };
                if depth == 1 {
                    found.push(ended);
                    assert(declaration_views(found@) =~= declaration_views(old_found).push(
                        ended.shown(),
                    ));
                    open = None;
                } else {
                    open = Some(ended);
                }
            },
            None => {
                open = None;
                let starts_body = before == 1 && opens;
                let declaration = before == 1 && depth == before && is_declaration(line);
                if starts_body || declaration {
                    let started = Declaration {
                        name: member_name(line),
                        kind: declaration_kind(line, starts_body),
                        start: number,
                        own_end: number,
                    };
                    if !starts_body || depth == before {
                        // A one-line body, or a declaration with none.
                        found.push(started);
                        assert(declaration_views(found@) =~= declaration_views(old_found).push(
                            started.shown(),
                        ));
                    } else {
                        open = Some(started);
                    }
                }
            },
        }
        index = index + 1;
    }
    // A document that stops inside a member: what was read is still the truth about it.
    match open {
        Some(current) => {
            let ghost old_found = found@;
            found.push(current);
            assert(declaration_views(found@) =~= declaration_views(old_found).push(
                current.shown(),
            ));
        },
        None => {},
    }
    found
}

/// The declarations of a document follow one another in it.
proof fn lemma_declarations(lines: Seq<Seq<char>>)
    ensures
        in_order(declarations_of(lines), lines.len() as int),
{
    lemma_walk(lines, lines.len() as int);
    let walk = walked(lines, lines.len() as int);
    match walk.open {
        Some(current) => {
            let all = walk.found.push(current);
            assert forall|i: int, j: int| 0 <= i < j < all.len() implies (#[trigger] all[i]).own_end < (
            #[trigger] all[j]).start by {
                if j == walk.found.len() {
                    let last = walk.found.last();
                    if i < walk.found.len() - 1 {
                        assert(walk.found[i].own_end < walk.found[walk.found.len() - 1].start);
                    }
                }
            }
        },
        None => {},
    }
}

/// How many lines there are up to the last one that is not blank.
fn count_text_lines(chars: &[char], ranges: &Vec<(usize, usize)>) -> (last: usize)
    requires
        ranges_cover(ranges@, (chars@.len() + 1) as int),
    ensures
        last == text_lines(range_lines(chars@, ranges@)),
        last <= ranges@.len(),
{
    let ghost lines = range_lines(chars@, ranges@);
    let mut last: usize = ranges.len();
    while last > 0
        invariant
            ranges_cover(ranges@, (chars@.len() + 1) as int),
            lines == range_lines(chars@, ranges@),
            last <= ranges@.len(),
            forall|j: int| last <= j < lines.len() ==> blank(#[trigger] lines[j]),
        decreases last,
    {
        let line = line_at(chars, ranges, last - 1);
        if find_text_start(line) < line.len() {
            proof {
                lemma_last_where(lines, |line: Seq<char>| !blank(line), last - 1);
            }
            return last;
        }
        last = last - 1;
    }
    proof {
        lemma_last_where(lines, |line: Seq<char>| !blank(line), -1);
    }
    0
}

/// Splits `source` into the parts a reader distinguishes.
pub fn parts(source: &str) -> (parts: Vec<Part>)
    ensures
        part_views(parts@) == parts_of(lines_of(source@)),
{
    let chars = chars_of(source);
    let ranges = line_ranges(chars.as_slice());
    let ghost lines = lines_of(source@);
    let last = count_text_lines(chars.as_slice(), &ranges);
    let mut parts: Vec<Part> = Vec::new();
    if last == 0 {
        assert(part_views(parts@) =~= Seq::empty());
        return parts;
    }
    let declarations = declarations(chars.as_slice(), &ranges);
    let class = match class_name(chars.as_slice(), &ranges) {
        Some(name) => name,
        None => "class".to_owned(),
    };
    if declarations.len() == 0 {
        // A document with no members at all - a data class rendered as one line, an
        // interface with only fields. Nothing in it is a declaration, and it is still
        // one part: the thing a host opens.
        parts.push(Part { name: class, kind: "header", start: 1, end: last });
        assert(part_views(parts@) =~= parts_of(lines));
        return parts;
    }
    let ghost views = declaration_views(declarations@);
    proof {
        lemma_declarations(lines);
    }
    let ghost header: Seq<PartView> = if views[0].start > 1 {
        seq![PartView { name: class@, kind: "header"@, start: 1, end: views[0].start - 1 }]
    } else {
        Seq::empty()
    };
    let ghost members = Seq::new(views.len(), |i: int| member_part(views, i));
    let first_start = declarations[0].start;
    if first_start > 1 {
        parts.push(
            Part { name: class.clone(), kind: "header", start: 1, end: first_start - 1 },
        );
    }
    assert(part_views(parts@) =~= header + members.take(0));
    let mut previous_end: usize = first_start - 1;
    let mut i: usize = 0;
    while i < declarations.len()
        invariant
            i <= declarations@.len(),
            views == declaration_views(declarations@),
            in_order(views, lines.len() as int),
            views.len() > 0,
            members == Seq::new(views.len(), |i: int| member_part(views, i)),
            part_views(parts@) == header + members.take(i as int),
            previous_end == (if i == 0 {
                views[0].start - 1
            } else {
                views[i - 1].own_end
            }),
        decreases declarations@.len() - i,
    {
        let ghost before = parts@;
        let declaration = &declarations[i];
        proof {
            assert(declaration.shown() == views[i as int]);
            if i > 0 {
                assert(views[i - 1].own_end < views[i as int].start);
            }
        }
        let part = Part {
            name: declaration.name.clone(),
            kind: declaration.kind,
            start: previous_end + 1,
            end: declaration.own_end,
        };
        assert(part@ =~= members[i as int]);
        previous_end = declaration.own_end;
        parts.push(part);
        proof {
            assert(part_views(parts@) =~= part_views(before).push(members[i as int]));
            assert((header + members.take(i as int)).push(members[i as int]) =~= header
                + members.take(i + 1));
        }
        i = i + 1;
    }
    assert(members.take(members.len() as int) =~= members);
    if previous_end < last {
        // The class's closing brace, and anything the printer left after the last
        // member. It is a part like the header is: the document has it and no
        // declaration owns it.
        let ghost before = parts@;
        let part = Part { name: class, kind: "footer", start: previous_end + 1, end: last };
        parts.push(part);
        assert(part_views(parts@) =~= part_views(before).push(part@));
    }
    assert(part_views(parts@) =~= declared_parts(views, document_name(lines), last as int));
    parts
}

/// No member starts on the first line: nothing is open before it.
proof fn lemma_members_start_below(lines: Seq<Seq<char>>, n: int)
    requires
        0 <= n,
    ensures
        forall|i: int|
            0 <= i < walked(lines, n).found.len() ==> (#[trigger] walked(lines, n).found[i]).start > 1,
        walked(lines, n).open matches Some(current) ==> current.start > 1,
    decreases n,
{
    if n > 0 {
        lemma_members_start_below(lines, n - 1);
    }
}

/// The parts of a document tile it: the first is its header and starts on its first line, each
/// starts on the line behind the one before it, and the last ends no earlier than the last line
/// that is not blank.
pub proof fn law_parts_tile_the_document(lines: Seq<Seq<char>>)
    requires
        text_lines(lines) > 0,
    ensures
        parts_of(lines).len() > 0,
        parts_of(lines)[0].start == 1,
        parts_of(lines)[0].kind == "header"@,
        parts_of(lines)[0].name == document_name(lines),
        forall|i: int|
            0 <= i < parts_of(lines).len() ==> (#[trigger] parts_of(lines)[i]).start
                <= parts_of(lines)[i].end,
        forall|i: int, j: int|
            0 <= i && j == i + 1 && j < parts_of(lines).len() ==> (#[trigger] parts_of(lines)[j]).start
                == (#[trigger] parts_of(lines)[i]).end + 1,
        text_lines(lines) <= parts_of(lines).last().end <= lines.len(),
{
    lemma_declarations(lines);
    lemma_members_start_below(lines, lines.len() as int);
    lemma_last_where_is(lines, |line: Seq<char>| !blank(line));
    let all = parts_of(lines);
    let list = declarations_of(lines);
    let last = text_lines(lines);
    if list.len() > 0 {
        let h: int = if list[0].start > 1 {
            1
        } else {
            0
        };
        assert forall|i: int| 0 <= i < list.len() implies #[trigger] all[h + i] == member_part(list, i) by {}
        assert forall|i: int| 0 <= i < all.len() implies (#[trigger] all[i]).start <= all[i].end by {
            if h <= i < h + list.len() {
                assert(all[h + (i - h)] == member_part(list, i - h));
                if i > h {
                    assert(list[i - h - 1].own_end < list[i - h].start);
                }
            }
        }
        assert forall|i: int, j: int| 0 <= i && j == i + 1 && j < all.len() implies (
        #[trigger] all[j]).start == (#[trigger] all[i]).end + 1 by {
            if h <= i < h + list.len() {
                assert(all[h + (i - h)] == member_part(list, i - h));
            }
            if h <= j < h + list.len() {
                assert(all[h + (j - h)] == member_part(list, j - h));
            }
        }
        assert(all[h + 0] == member_part(list, 0));
        assert(all[h + (list.len() - 1)] == member_part(list, list.len() - 1));
    }
}

/// The parts of a document that closes every member it opens end on its last line that is not
/// blank, so that rendering them in order gives the document back.
pub proof fn law_parts_of_a_complete_document(lines: Seq<Seq<char>>)
    requires
        text_lines(lines) > 0,
        walked(lines, lines.len() as int).open is None,
    ensures
        parts_of(lines).last().end == text_lines(lines),
{
    law_parts_tile_the_document(lines);
    lemma_walk(lines, lines.len() as int);
    lemma_last_where_is(lines, |line: Seq<char>| !blank(line));
    let list = declarations_of(lines);
    let last = text_lines(lines);
    if list.len() > 0 {
        let end = list.last().own_end;
        assert(!blank(lines[list[list.len() - 1].own_end - 1]));
        assert(end <= last);
        let h: int = if list[0].start > 1 {
            1
        } else {
            0
        };
        if end == last {
            assert(parts_of(lines)[h + (list.len() - 1)] == member_part(list, list.len() - 1));
        }
    }
}

/// The record of one part.
pub open spec fn part_json(part: PartView) -> Seq<char> {
    "{\"name\":"@ + quoted(part.name) + ",\"kind\":"@ + quoted(part.kind) + ",\"start\":"@ + decimal(
        part.start as nat,
    ) + ",\"end\":"@ + decimal(part.end as nat) + seq!['}']
}

/// The records of some parts, comma separated.
pub open spec fn parts_json(parts: Seq<PartView>) -> Seq<char>
    decreases parts.len(),
{
    if parts.len() == 0 {
        Seq::empty()
    } else if parts.len() == 1 {
        part_json(parts[0])
    } else {
        parts_json(parts.drop_last()) + seq![','] + part_json(parts.last())
    }
}

/// The record of a document.
pub open spec fn outline_json(parts: Seq<PartView>) -> Seq<char> {
    "{\"members\":["@ + parts_json(parts) + "]}"@
}

/// Writes the parts as one JSON record, without its trailing newline.
pub fn render(source: &str, out: &mut String)
    ensures
        final(out)@ == old(out)@ + outline_json(parts_of(lines_of(source@))),
{
    let parts = parts(source);
    let ghost views = part_views(parts@);
    let ghost start = out@;
    out.push_str("{\"members\":[");
    assert(out@ =~= start + "{\"members\":["@ + parts_json(views.take(0)));
    for index in 0..parts.len()
        invariant
            views == part_views(parts@),
            out@ == start + "{\"members\":["@ + parts_json(views.take(index as int)),
    {
        if index > 0 {
            out.push(',');
        }
        let ghost opened = out@;
        let part = &parts[index];
        out.push_str("{\"name\":");
        crate::json::escape(part.name.as_str(), out);
        out.push_str(",\"kind\":");
        crate::json::escape(part.kind, out);
        out.push_str(",\"start\":");
        push_decimal(out, part.start as u64);
        out.push_str(",\"end\":");
        push_decimal(out, part.end as u64);
        out.push('}');
        proof {
            let k = index as int;
            assert(out@ =~= opened + part_json(views[k]));
            assert(views.take(k + 1).drop_last() =~= views.take(k));
            assert(views.take(k + 1).last() == views[k]);
            if k == 0 {
                assert(parts_json(views.take(0)) =~= Seq::empty());
                assert(views.take(1)[0] == views[0]);
            }
            assert(out@ =~= start + "{\"members\":["@ + parts_json(views.take(k + 1)));
        }
    }
    assert(views.take(views.len() as int) =~= views);
    out.push_str("]}");
    assert(out@ =~= start + outline_json(views));
}

proof fn lemma_decimal_is_one_line(value: nat)
    ensures
        crate::json::one_line(decimal(value)),
    decreases value,
{
    if value >= 10 {
        lemma_decimal_is_one_line(value / 10);
    }
}

proof fn lemma_parts_json_is_one_line(parts: Seq<PartView>)
    ensures
        crate::json::one_line(parts_json(parts)),
    decreases parts.len(),
{
    if parts.len() > 0 {
        let part = parts.last();
        lemma_parts_json_is_one_line(parts.drop_last());
        crate::json::law_string_is_one_line(part.name);
        crate::json::law_string_is_one_line(part.kind);
        lemma_decimal_is_one_line(part.start as nat);
        lemma_decimal_is_one_line(part.end as nat);
        reveal_strlit("{\"name\":");
        reveal_strlit(",\"kind\":");
        reveal_strlit(",\"start\":");
        reveal_strlit(",\"end\":");
        assert(crate::json::one_line(part_json(part)));
    }
}

/// The record of a document is one line, whatever its members are called.
pub proof fn law_outline_is_one_line(parts: Seq<PartView>)
    ensures
        crate::json::one_line(outline_json(parts)),
{
    lemma_parts_json_is_one_line(parts);
    reveal_strlit("{\"members\":[");
    reveal_strlit("]}");
}

/// Whether a name stands at the end of a text: an identifier, with nothing that would belong to it
/// in front.
pub open spec fn ends_in_name(front: Seq<char>, word: Seq<char>) -> bool {
    &&& word.len() > 0
    &&& forall|i: int| 0 <= i < word.len() ==> is_word(#[trigger] word[i])
    &&& front.len() > 0 ==> !is_word(front.last())
}

/// The last identifier of a text that ends in one, with no identifier behind it.
proof fn lemma_last_word_is(front: Seq<char>, word: Seq<char>, gap: Seq<char>)
    requires
        ends_in_name(front, word),
        forall|i: int| 0 <= i < gap.len() ==> !is_word(#[trigger] gap[i]),
    ensures
        last_word(front + word + gap) == Some(word),
{
    let text = front + word + gap;
    let end = front.len() + word.len();
    assert(is_word(word[word.len() - 1]));
    assert(text[end - 1] == word[word.len() - 1]);
    assert forall|j: int| end - 1 < j < text.len() implies !is_word(#[trigger] text[j]) by {
        assert(text[j] == gap[j - end]);
    }
    lemma_last_where(text, |c: char| is_word(c), end - 1);
    let head = text.take(end as int);
    assert forall|j: int| front.len() - 1 < j < head.len() implies is_word(#[trigger] head[j]) by {
        assert(head[j] == word[j - front.len()]);
    }
    if front.len() > 0 {
        assert(head[front.len() - 1] == front.last());
    }
    lemma_last_where(head, |c: char| !is_word(c), front.len() - 1);
    assert(text.subrange(front.len() as int, end as int) =~= word);
}

/// A declaration with a parameter list is named by the identifier in front of the list, whatever
/// the list and all behind it hold.
pub proof fn law_a_parameter_list_follows_the_name(
    front: Seq<char>,
    word: Seq<char>,
    gap: Seq<char>,
    behind: Seq<char>,
)
    requires
        ends_in_name(front, word),
        forall|i: int| 0 <= i < gap.len() ==> !is_word(#[trigger] gap[i]) && gap[i] != '(',
        !front.contains('('),
    ensures
        name_of(front + word + gap + seq!['('] + behind) == word,
        kind_of(front + word + gap + seq!['('] + behind, true) == "method"@,
{
    let head = front + word + gap;
    let line = head + seq!['('] + behind;
    let at = head.len() as int;
    assert forall|j: int| 0 <= j < at implies #[trigger] line[j] != '(' by {
        if j < front.len() {
            assert(line[j] == front[j]);
        } else if j < front.len() + word.len() {
            assert(line[j] == word[j - front.len()]);
            assert(is_word(word[j - front.len()]));
        } else {
            assert(line[j] == gap[j - front.len() - word.len()]);
        }
    }
    assert(line[at] == '(');
    lemma_first_where(line, char_is('('), at);
    assert(line.take(at) =~= head);
    lemma_last_word_is(front, word, gap);
}

/// A declaration without a parameter list that opens a body is named by the identifier in front of
/// the brace.
pub proof fn law_a_body_follows_the_name(
    front: Seq<char>,
    word: Seq<char>,
    gap: Seq<char>,
    behind: Seq<char>,
)
    requires
        ends_in_name(front, word),
        forall|i: int| 0 <= i < gap.len() ==> !is_word(#[trigger] gap[i]) && gap[i] != '{' && gap[i]
            != '(',
        !front.contains('{'),
        !front.contains('('),
        !behind.contains('('),
    ensures
        name_of(front + word + gap + seq!['{'] + behind) == word,
        kind_of(front + word + gap + seq!['{'] + behind, true) == (if names_type(
            front + word + gap + seq!['{'] + behind,
        ) {
            "type"@
        } else {
            "initializer"@
        }),
{
    let head = front + word + gap;
    let line = head + seq!['{'] + behind;
    let at = head.len() as int;
    assert forall|j: int| 0 <= j < line.len() implies #[trigger] line[j] != '(' && (j < at ==> line[j]
        != '{') by {
        if j < front.len() {
            assert(line[j] == front[j]);
        } else if j < front.len() + word.len() {
            assert(line[j] == word[j - front.len()]);
            assert(is_word(word[j - front.len()]));
        } else if j < at {
            assert(line[j] == gap[j - front.len() - word.len()]);
        } else if j > at {
            assert(line[j] == behind[j - at - 1]);
        }
    }
    assert(line[at] == '{');
    lemma_first_where(line, char_is('('), line.len() as int);
    lemma_first_where(line, char_is('{'), at);
    assert(line.take(at) =~= head);
    lemma_last_word_is(front, word, gap);
}

/// Lines with a break between each two.
pub open spec fn with_breaks(lines: Seq<Seq<char>>) -> Seq<char>
    decreases lines.len(),
{
    if lines.len() == 0 {
        Seq::empty()
    } else if lines.len() == 1 {
        lines[0]
    } else {
        lines[0] + seq!['\n'] + with_breaks(lines.skip(1))
    }
}

/// The lines of a text make the text again, and none of them holds a break.
pub proof fn law_lines_make_the_text(text: Seq<char>)
    ensures
        lines_of(text).len() > 0,
        with_breaks(lines_of(text)) == text,
        forall|i: int| 0 <= i < lines_of(text).len() ==> !(#[trigger] lines_of(text)[i]).contains('\n'),
    decreases text.len(),
{
    let is_break = |c: char| c == '\n';
    let at = first_where(text, is_break);
    lemma_first_where_is(text, is_break);
    let lines = lines_of(text);
    if at >= text.len() || at < 0 {
        assert forall|i: int| 0 <= i < lines.len() implies !(#[trigger] lines[i]).contains('\n') by {
            if text.contains('\n') {
                let k = choose|k: int| 0 <= k < text.len() && text[k] == '\n';
                assert(is_break(text[k]));
            }
        }
    } else {
        let rest = text.skip(at + 1);
        law_lines_make_the_text(rest);
        let more = lines_of(rest);
        assert(lines == seq![text.take(at)] + more);
        assert(lines.skip(1) =~= more);
        assert(text =~= text.take(at) + seq!['\n'] + rest);
        assert forall|i: int| 0 <= i < lines.len() implies !(#[trigger] lines[i]).contains('\n') by {
            if i == 0 {
                let front = text.take(at);
                if front.contains('\n') {
                    let k = choose|k: int| 0 <= k < front.len() && front[k] == '\n';
                    assert(text[k] == '\n');
                    assert(is_break(text[k]));
                }
            } else {
                assert(lines[i] == more[i - 1]);
            }
        }
    }
}

/// How often a character stands in a line.
pub open spec fn times(line: Seq<char>, c: char) -> int
    decreases line.len(),
{
    if line.len() == 0 {
        0
    } else {
        (if line[0] == c {
            1int
        } else {
            0
        }) + times(line.skip(1), c)
    }
}

/// The rest of a line is read alike, whatever stands in front of it.
proof fn lemma_scan_behind(front: Seq<char>, line: Seq<char>, index: int, at: Scan)
    requires
        0 <= index,
    ensures
        scanned(front + line, front.len() + index, at) == scanned(line, index, at),
    decreases line.len() + 2 - index,
{
    let all = front + line;
    let n = front.len() as int;
    if index < line.len() && at.state != State::LineComment {
        let c = line[index];
        assert(all[n + index] == c);
        if index + 1 < line.len() {
            assert(all[n + index + 1] == line[index + 1]);
        }
        let up = Scan { depth: at.depth + 1, opens: true, ..at };
        let down = Scan { depth: at.depth - 1, ..at };
        lemma_scan_behind(front, line, index + 1, at);
        lemma_scan_behind(front, line, index + 1, up);
        lemma_scan_behind(front, line, index + 1, down);
        lemma_scan_behind(front, line, index + 1, Scan { state: State::String, ..at });
        lemma_scan_behind(front, line, index + 1, Scan { state: State::Character, ..at });
        lemma_scan_behind(front, line, index + 1, Scan { state: State::Code, ..at });
        lemma_scan_behind(front, line, index + 2, at);
        lemma_scan_behind(front, line, index + 2, Scan { state: State::LineComment, ..at });
        lemma_scan_behind(front, line, index + 2, Scan { state: State::BlockComment, ..at });
        lemma_scan_behind(front, line, index + 2, Scan { state: State::Code, ..at });
    }
}

/// Code without literals and comments moves the depth by its braces: one deeper for each that opens,
/// one up for each that closes, and a body is opened where a brace is.
pub proof fn law_braces_move_the_depth(line: Seq<char>, at: Scan)
    requires
        at.state == State::Code,
        forall|i: int|
            0 <= i < line.len() ==> #[trigger] line[i] != '"' && line[i] != '\'' && line[i] != '/',
    ensures
        scanned(line, 0, at) == (Scan {
            state: State::Code,
            depth: at.depth + times(line, '{') - times(line, '}'),
            opens: at.opens || line.contains('{'),
        }),
    decreases line.len(),
{
    if line.len() > 0 {
        let rest = line.skip(1);
        let first = seq![line[0]];
        assert(line =~= first + rest);
        let next = Scan {
            state: State::Code,
            depth: at.depth + (if line[0] == '{' {
                1int
            } else {
                0
            }) - (if line[0] == '}' {
                1int
            } else {
                0
            }),
            opens: at.opens || line[0] == '{',
        };
        assert(scanned(line, 0, at) == scanned(line, 1, next));
        lemma_scan_behind(first, rest, 0, next);
        law_braces_move_the_depth(rest, next);
        if line.contains('{') {
            let k = choose|k: int| 0 <= k < line.len() && line[k] == '{';
            if k > 0 {
                assert(rest[k - 1] == '{');
            }
        }
        if rest.contains('{') {
            let k = choose|k: int| 0 <= k < rest.len() && rest[k] == '{';
            assert(line[k + 1] == '{');
        }
    }
}

/// What stands between quotes is passed over, braces and comment marks too.
proof fn lemma_quoted_is_passed(text: Seq<char>, rest: Seq<char>, k: int, at: Scan, quote: char)
    requires
        0 <= k <= text.len(),
        at.state == State::String && quote == '"' || at.state == State::Character && quote == '\'',
        forall|i: int| 0 <= i < text.len() ==> #[trigger] text[i] != quote && text[i] != '\\',
    ensures
        scanned(text + seq![quote] + rest, k, at) == scanned(
            rest,
            0,
            Scan { state: State::Code, ..at },
        ),
    decreases text.len() - k,
{
    let line = text + seq![quote] + rest;
    if k < text.len() {
        assert(line[k] == text[k]);
        lemma_quoted_is_passed(text, rest, k + 1, at, quote);
    } else {
        assert(line[k] == quote);
        let code = Scan { state: State::Code, ..at };
        assert(scanned(line, k, at) == scanned(line, k + 1, code));
        lemma_scan_behind(text + seq![quote], rest, 0, code);
    }
}

/// A string or a character literal does not count: what follows it is read as if it were not there.
pub proof fn law_literals_do_not_count(text: Seq<char>, rest: Seq<char>, at: Scan)
    requires
        at.state == State::Code,
        forall|i: int|
            0 <= i < text.len() ==> #[trigger] text[i] != '"' && text[i] != '\'' && text[i] != '\\',
    ensures
        scanned(seq!['"'] + text + seq!['"'] + rest, 0, at) == scanned(rest, 0, at),
        scanned(seq!['\''] + text + seq!['\''] + rest, 0, at) == scanned(rest, 0, at),
{
    let string = Scan { state: State::String, ..at };
    let character = Scan { state: State::Character, ..at };
    let line = seq!['"'] + text + seq!['"'] + rest;
    assert(line =~= seq!['"'] + (text + seq!['"'] + rest));
    assert(line[0] == '"');
    assert(scanned(line, 0, at) == scanned(line, 1, string));
    lemma_scan_behind(seq!['"'], text + seq!['"'] + rest, 0, string);
    lemma_quoted_is_passed(text, rest, 0, string, '"');
    let other = seq!['\''] + text + seq!['\''] + rest;
    assert(other =~= seq!['\''] + (text + seq!['\''] + rest));
    assert(other[0] == '\'');
    assert(scanned(other, 0, at) == scanned(other, 1, character));
    lemma_scan_behind(seq!['\''], text + seq!['\''] + rest, 0, character);
    lemma_quoted_is_passed(text, rest, 0, character, '\'');
    assert(Scan { state: State::Code, ..string } == at);
    assert(Scan { state: State::Code, ..character } == at);
}

/// In a literal a backslash takes the character behind it with it, a quote too.
pub proof fn law_an_escape_does_not_end_a_literal(c: char, rest: Seq<char>, at: Scan)
    requires
        at.state == State::String || at.state == State::Character,
    ensures
        scanned(seq!['\\', c] + rest, 0, at) == scanned(rest, 0, at),
{
    let line = seq!['\\', c] + rest;
    assert(line[0] == '\\');
    assert(scanned(line, 0, at) == scanned(line, 2, at));
    lemma_scan_behind(seq!['\\', c], rest, 0, at);
}

proof fn lemma_comment_is_passed(text: Seq<char>, rest: Seq<char>, k: int, at: Scan)
    requires
        0 <= k <= text.len(),
        at.state == State::BlockComment,
        !text.contains('*'),
    ensures
        scanned(text + seq!['*', '/'] + rest, k, at) == scanned(
            rest,
            0,
            Scan { state: State::Code, ..at },
        ),
    decreases text.len() - k,
{
    let line = text + seq!['*', '/'] + rest;
    if k < text.len() {
        assert(line[k] == text[k]);
        assert(text.contains(text[k]));
        lemma_comment_is_passed(text, rest, k + 1, at);
    } else {
        assert(line[k] == '*' && line[k + 1] == '/');
        let code = Scan { state: State::Code, ..at };
        assert(scanned(line, k, at) == scanned(line, k + 2, code));
        lemma_scan_behind(text + seq!['*', '/'], rest, 0, code);
    }
}

/// A comment does not count: one between its marks is passed over, and one behind two slashes ends
/// with its line.
pub proof fn law_comments_do_not_count(text: Seq<char>, rest: Seq<char>, at: Scan)
    requires
        at.state == State::Code,
    ensures
        !text.contains('*') ==> scanned(seq!['/', '*'] + text + seq!['*', '/'] + rest, 0, at)
            == scanned(rest, 0, at),
        scanned(seq!['/', '/'] + text, 0, at) == at,
{
    if !text.contains('*') {
        let comment = Scan { state: State::BlockComment, ..at };
        let line = seq!['/', '*'] + text + seq!['*', '/'] + rest;
        assert(line =~= seq!['/', '*'] + (text + seq!['*', '/'] + rest));
        assert(line[0] == '/' && line[1] == '*');
        assert(scanned(line, 0, at) == scanned(line, 2, comment));
        lemma_scan_behind(seq!['/', '*'], text + seq!['*', '/'] + rest, 0, comment);
        lemma_comment_is_passed(text, rest, 0, comment);
        assert(Scan { state: State::Code, ..comment } == at);
    }
    let short = seq!['/', '/'] + text;
    assert(short[0] == '/' && short[1] == '/');
    let ended = Scan { state: State::LineComment, ..at };
    assert(scanned(short, 0, at) == scanned(short, 2, ended));
    assert(Scan { state: State::Code, ..ended } == at);
}

/// Whether a declaration is that of the lines it claims: it starts at depth one with the line that
/// names it and says what it is, which opens a body or declares without one, and stays below until
/// its last line is back there.
pub open spec fn spans_its_lines(lines: Seq<Seq<char>>, n: int, found: DeclarationView) -> bool {
    &&& 1 <= found.start <= found.own_end <= n
    &&& walked(lines, found.start - 1).depth == 1
    &&& walked(lines, found.start - 1).open is None
    &&& found.name == name_of(lines[found.start - 1])
    &&& found.kind == kind_of(
        lines[found.start - 1],
        scanned(
            lines[found.start - 1],
            0,
            Scan { state: walked(lines, found.start - 1).state, depth: 1, opens: false },
        ).opens,
    )
    &&& declares(lines[found.start - 1]) || scanned(
        lines[found.start - 1],
        0,
        Scan { state: walked(lines, found.start - 1).state, depth: 1, opens: false },
    ).opens
    &&& forall|k: int| found.start <= k < found.own_end ==> (#[trigger] walked(lines, k)).depth != 1
}

proof fn lemma_members_span(lines: Seq<Seq<char>>, n: int)
    requires
        0 <= n <= lines.len(),
    ensures
        forall|i: int|
            0 <= i < walked(lines, n).found.len() ==> spans_its_lines(
                lines,
                n,
                #[trigger] walked(lines, n).found[i],
            ) && walked(lines, walked(lines, n).found[i].own_end).depth == 1,
        walked(lines, n).open matches Some(current) ==> spans_its_lines(lines, n, current)
            && current.own_end == n && walked(lines, n).depth != 1,
    decreases n,
{
    if n > 0 {
        lemma_members_span(lines, n - 1);
        let before = walked(lines, n - 1);
        let now = walked(lines, n);
        assert forall|i: int| 0 <= i < now.found.len() implies spans_its_lines(
            lines,
            n,
            #[trigger] now.found[i],
        ) && walked(lines, now.found[i].own_end).depth == 1 by {
            if i < before.found.len() {
                assert(now.found[i] == before.found[i]);
                assert(spans_its_lines(lines, n - 1, before.found[i]));
            }
        }
    }
}

/// A member is named by the line that it starts on, which is at depth one, and ends on the line that
/// is back at that depth, or with the document.
pub proof fn law_members_span_their_braces(lines: Seq<Seq<char>>, i: int)
    requires
        0 <= i < declarations_of(lines).len(),
    ensures
        spans_its_lines(lines, lines.len() as int, declarations_of(lines)[i]),
        walked(lines, declarations_of(lines)[i].own_end).depth == 1 || (i
            == declarations_of(lines).len() - 1 && declarations_of(lines)[i].own_end == lines.len()),
{
    lemma_members_span(lines, lines.len() as int);
    let walk = walked(lines, lines.len() as int);
    if i < walk.found.len() {
        assert(declarations_of(lines)[i] == walk.found[i]);
    }
}

/// Whether one of some members has a line.
pub open spec fn has_line(list: Seq<DeclarationView>, number: int) -> bool {
    exists|i: int| 0 <= i < list.len() && (#[trigger] list[i]).start <= number <= list[i].own_end
}

proof fn lemma_bodies_are_members(lines: Seq<Seq<char>>, n: int, number: int)
    requires
        1 <= number <= n <= lines.len(),
        walked(lines, number - 1).depth == 1,
        ({
            let before = walked(lines, number - 1);
            let after = scanned(
                lines[number - 1],
                0,
                Scan { state: before.state, depth: 1, opens: false },
            );
            after.opens || (after.depth == 1 && declares(lines[number - 1]))
        }),
    ensures
        has_line(walked(lines, n).found, number) || (walked(lines, n).open matches Some(current)
            && current.start <= number <= current.own_end),
    decreases n,
{
    let now = walked(lines, n);
    let before = walked(lines, n - 1);
    lemma_members_span(lines, n);
    lemma_members_span(lines, n - 1);
    if number < n {
        lemma_bodies_are_members(lines, n - 1, number);
        if has_line(before.found, number) {
            let i = choose|i: int|
                0 <= i < before.found.len() && (#[trigger] before.found[i]).start <= number
                    <= before.found[i].own_end;
            assert(now.found[i] == before.found[i]);
        } else if now.open is None {
            assert(now.found.last().start == (before.open->0).start);
            assert(now.found[now.found.len() - 1].own_end == n);
        }
    } else if now.open is None {
        assert(now.found[now.found.len() - 1].own_end == n);
    }
}

/// Every line at depth one that opens a body, or declares without one, is a line of a member.
pub proof fn law_bodies_are_members(lines: Seq<Seq<char>>, number: int)
    requires
        1 <= number <= lines.len(),
        walked(lines, number - 1).depth == 1,
        ({
            let before = walked(lines, number - 1);
            let after = scanned(
                lines[number - 1],
                0,
                Scan { state: before.state, depth: 1, opens: false },
            );
            after.opens || (after.depth == 1 && declares(lines[number - 1]))
        }),
    ensures
        has_line(declarations_of(lines), number),
{
    lemma_bodies_are_members(lines, lines.len() as int, number);
    let walk = walked(lines, lines.len() as int);
    let all = declarations_of(lines);
    if has_line(walk.found, number) {
        let i = choose|i: int|
            0 <= i < walk.found.len() && (#[trigger] walk.found[i]).start <= number
                <= walk.found[i].own_end;
        assert(all[i] == walk.found[i]);
    } else {
        assert(all[all.len() - 1] == walk.open->0);
    }
}

/// The parts of a document are its header, its members in their order, each under its own name and
/// kind up to its own last line, and a footer where lines are left.
pub proof fn law_parts_are_the_members(lines: Seq<Seq<char>>, i: int)
    requires
        text_lines(lines) > 0,
        0 <= i < declarations_of(lines).len(),
    ensures
        parts_of(lines).len() >= declarations_of(lines).len() + 1,
        parts_of(lines)[i + 1].name == declarations_of(lines)[i].name,
        parts_of(lines)[i + 1].kind == declarations_of(lines)[i].kind,
        parts_of(lines)[i + 1].end == declarations_of(lines)[i].own_end,
        parts_of(lines)[i + 1].start <= declarations_of(lines)[i].start,
        parts_of(lines).len() > declarations_of(lines).len() + 1 ==> parts_of(lines).last().kind
            == "footer"@ && parts_of(lines).last().name == document_name(lines),
        parts_of(lines).len() <= declarations_of(lines).len() + 2,
{
    lemma_declarations(lines);
    lemma_members_start_below(lines, lines.len() as int);
    let list = declarations_of(lines);
    assert(list[0].start > 1) by {
        let walk = walked(lines, lines.len() as int);
        if walk.found.len() > 0 {
            assert(list[0] == walk.found[0]);
        }
    }
    assert(parts_of(lines)[i + 1] == member_part(list, i));
    if i > 0 {
        assert(list[i - 1].own_end < list[i].start);
    }
}

/// A document goes by the identifier behind the first `class` of its first line, where that line
/// introduces one and is no comment.
pub proof fn law_document_is_named_by_its_class(
    lines: Seq<Seq<char>>,
    front: Seq<char>,
    word: Seq<char>,
    rest: Seq<char>,
)
    requires
        lines.len() > 0,
        lines[0] == front + "class "@ + word + rest,
        front.len() > 0 ==> !is_space(front[0]),
        front.len() == 1 ==> front[0] != '/',
        front.len() > 1 ==> front[0] != '/' || front[1] != '/',
        forall|at: int| 0 <= at < front.len() ==> !occurs_at(lines[0], "class "@, at),
        word.len() > 0,
        forall|i: int| 0 <= i < word.len() ==> is_word(#[trigger] word[i]),
        rest.len() > 0 ==> !is_word(rest[0]),
    ensures
        document_name(lines) == word,
{
    reveal_strlit("class ");
    reveal_strlit("//");
    let line = lines[0];
    let mark = "class "@;
    if front.len() > 0 {
        assert(line[0] == front[0]);
    } else {
        assert(line[0] == mark[0]);
    }
    lemma_first_where(line, |c: char| !is_space(c), 0);
    assert(trim_start(line) =~= line);
    let n = front.len() as int;
    assert(line.subrange(n, n + mark.len()) =~= mark);
    assert(occurs_at(line, mark, n));
    crate::seqs::lemma_occurrence_skip(line, mark, 0, n);
    assert(occurrence_from(line, mark, 0) == n);
    if occurs_at(line, "//"@, 0) {
        assert(line.subrange(0, 2)[0] == line[0] && line.subrange(0, 2)[1] == line[1]);
        if front.len() > 1 {
            assert(line[1] == front[1]);
        }
    }
    let behind = line.skip(n + mark.len());
    assert(behind =~= word + rest);
    assert(is_word(behind[0])) by {
        assert(behind[0] == word[0]);
    }
    lemma_first_where(behind, |c: char| is_word(c), 0);
    assert(behind.skip(0) =~= behind);
    assert forall|j: int| 0 <= j < word.len() implies is_word(#[trigger] behind[j]) by {
        assert(behind[j] == word[j]);
    }
    if rest.len() > 0 {
        assert(behind[word.len() as int] == rest[0]);
    }
    lemma_first_where(behind, |c: char| !is_word(c), word.len() as int);
    assert(behind.subrange(0, word.len() as int) =~= word);
    assert(class_by(line, 0) == Some(word));
}

/// A member without a body is abstract; one with a body is a method where its line has a parameter
/// list, a type where its line has a word that introduces one, and an initializer otherwise.
pub proof fn law_lines_say_what_they_declare(line: Seq<char>)
    ensures
        kind_of(line, false) == "abstract"@,
        line.contains('(') ==> kind_of(line, true) == "method"@,
        !line.contains('(') && (occurs(line, " class "@) || occurs(line, " interface "@) || occurs(
            line,
            " enum "@,
        ) || occurs(line, " record "@)) ==> kind_of(line, true) == "type"@,
        !line.contains('(') && !occurs(line, "class "@) && !occurs(line, "interface "@) && !occurs(
            line,
            "enum "@,
        ) && !occurs(line, "record "@) ==> kind_of(line, true) == "initializer"@,
{
    reveal_strlit("class ");
    reveal_strlit("interface ");
    reveal_strlit("enum ");
    reveal_strlit("record ");
    reveal_strlit(" class ");
    reveal_strlit(" interface ");
    reveal_strlit(" enum ");
    reveal_strlit(" record ");
    assert(" class "@ =~= seq![' '] + keyword(0));
    assert(" interface "@ =~= seq![' '] + keyword(1));
    assert(" enum "@ =~= seq![' '] + keyword(2));
    assert(" record "@ =~= seq![' '] + keyword(3));
    let opening = char_is('(');
    lemma_first_where_is(line, opening);
    let at = char_at(line, '(');
    if at < line.len() {
        assert(opening(line[at]));
        assert(line.contains('('));
    } else {
        assert forall|i: int| 0 <= i < line.len() implies line[i] != '(' by {
            assert(!opening(line[i]));
        }
    }
    if occurs(line, " class "@) {
        assert(names_type_by(line, 0));
    }
    if occurs(line, " interface "@) {
        assert(names_type_by(line, 1));
    }
    if occurs(line, " enum "@) {
        assert(names_type_by(line, 2));
    }
    if occurs(line, " record "@) {
        assert(names_type_by(line, 3));
    }
    if names_type(line) {
        let k = choose|k: int| 0 <= k < 4 && #[trigger] names_type_by(line, k);
        let word = keyword(k);
        let text = trim_start(line);
        lemma_first_where_is(line, |c: char| !is_space(c));
        let start = text_start(line);
        if occurs_at(text, word, 0) {
            assert(line.subrange(start, start + word.len()) =~= text.subrange(0, word.len() as int));
            assert(occurs_at(line, word, start));
        } else {
            let i = choose|i: int| #[trigger] occurs_at(line, seq![' '] + word, i);
            let part = line.subrange(i, i + 1 + word.len());
            assert(line.subrange(i + 1, i + 1 + word.len()) =~= word) by {
                assert forall|j: int| 0 <= j < word.len() implies line[i + 1 + j] == word[j] by {
                    assert(part[1 + j] == (seq![' '] + word)[1 + j]);
                }
            }
            assert(occurs_at(line, word, i + 1));
        }
        assert(occurs(line, word));
        assert(k == 0 || k == 1 || k == 2 || k == 3);
    }
}

/// A line declares without a body where it ends in a semicolon, white space aside, and has a
/// parameter list; a field has none.
pub proof fn law_declarations_end_in_a_semicolon(text: Seq<char>, after: Seq<char>)
    requires
        text.len() > 0,
        !is_space(text.last()),
        forall|i: int| 0 <= i < after.len() ==> is_space(#[trigger] after[i]),
    ensures
        declares(text + after) <==> text.last() == ';' && text.contains('('),
{
    let line = text + after;
    let ink = |c: char| !is_space(c);
    lemma_last_where(line, ink, text.len() - 1);
    assert(trim_end(line) =~= text);
    let opening = char_is('(');
    lemma_first_where_is(text, opening);
    let at = char_at(text, '(');
    if at < text.len() {
        assert(opening(text[at]));
        assert(text.contains('('));
    } else {
        assert forall|i: int| 0 <= i < text.len() implies text[i] != '(' by {
            assert(!opening(text[i]));
        }
    }
}

/// A document whose first lines introduce no type goes by the first that a later line introduces,
/// and by `class` where none does.
pub proof fn law_lines_without_a_type_do_not_name_the_document(lines: Seq<Seq<char>>, n: int)
    requires
        0 <= n <= lines.len(),
        forall|i: int|
            0 <= i < n ==> !occurs(#[trigger] lines[i], "class "@) && !occurs(lines[i], "interface "@)
                && !occurs(lines[i], "enum "@) && !occurs(lines[i], "record "@),
    ensures
        class_from(lines, 0) == class_from(lines, n),
        n == lines.len() ==> document_name(lines) == "class"@,
{
    lemma_lines_without_a_type(lines, 0, n);
}

proof fn lemma_lines_without_a_type(lines: Seq<Seq<char>>, i: int, n: int)
    requires
        0 <= i <= n <= lines.len(),
        forall|j: int|
            i <= j < n ==> !occurs(#[trigger] lines[j], "class "@) && !occurs(lines[j], "interface "@)
                && !occurs(lines[j], "enum "@) && !occurs(lines[j], "record "@),
    ensures
        class_from(lines, i) == class_from(lines, n),
    decreases n - i,
{
    if i < n {
        let line = lines[i];
        let text = trim_start(line);
        lemma_first_where_is(line, |c: char| !is_space(c));
        let start = text_start(line);
        assert forall|word: Seq<char>| occurs(text, word) implies #[trigger] occurs(line, word) by {
            let at = choose|at: int| #[trigger] occurs_at(text, word, at);
            assert(line.subrange(start + at, start + at + word.len()) =~= text.subrange(
                at,
                at + word.len(),
            ));
            assert(occurs_at(line, word, start + at));
        }
        assert(!occurs(line, keyword(0)) && !occurs(line, keyword(1)) && !occurs(line, keyword(2))
            && !occurs(line, keyword(3)));
        assert(class_by(line, 0) is None && class_by(line, 1) is None && class_by(line, 2) is None
            && class_by(line, 3) is None);
        reveal_with_fuel(class_by_from, 5);
        assert(class_by_from(line, 0) is None);
        lemma_lines_without_a_type(lines, i + 1, n);
    }
}

/// However the record of a part is cut at its labels, the parts of it are those of the part.
pub proof fn law_part_record_reads_back(
    part: PartView,
    name: Seq<char>,
    kind: Seq<char>,
    start: Seq<char>,
    end: Seq<char>,
)
    requires
        part.start >= 0,
        part.end >= 0,
        part_json(part) == "{\"name\":"@ + quoted(name) + ",\"kind\":"@ + quoted(kind)
            + ",\"start\":"@ + start + ",\"end\":"@ + end + seq!['}'],
        !start.contains(','),
    ensures
        name == part.name,
        kind == part.kind,
        value_of(start, 10) == part.start,
        value_of(end, 10) == part.end,
{
    let first = decimal(part.start as nat);
    let last = decimal(part.end as nat);
    law_decimal_reads_back(part.start as nat);
    law_decimal_reads_back(part.end as nat);
    lemma_digits_have_no(part.start as nat, ',');
    assert(",\"end\":"@.len() > 0 && ",\"end\":"@[0] == ',') by {
        reveal_strlit(",\"end\":");
    }
    let own4 = last + seq!['}'];
    let own3 = first + ",\"end\":"@ + own4;
    let own2 = quoted(part.kind) + (",\"start\":"@ + own3);
    let own1 = quoted(part.name) + (",\"kind\":"@ + own2);
    let given4 = end + seq!['}'];
    let given3 = start + ",\"end\":"@ + given4;
    let given2 = quoted(kind) + (",\"start\":"@ + given3);
    let given1 = quoted(name) + (",\"kind\":"@ + given2);
    assert(part_json(part) =~= "{\"name\":"@ + own1);
    assert(part_json(part) =~= "{\"name\":"@ + given1);
    lemma_same_rest("{\"name\":"@, own1, given1);
    lemma_quoted_cut(part.name, ",\"kind\":"@ + own2, name, ",\"kind\":"@ + given2);
    lemma_same_rest(",\"kind\":"@, own2, given2);
    lemma_quoted_cut(part.kind, ",\"start\":"@ + own3, kind, ",\"start\":"@ + given3);
    lemma_same_rest(",\"start\":"@, own3, given3);
    lemma_cut(first, own4, start, given4, ",\"end\":"@);
    assert(own4.drop_last() =~= last);
    assert(given4.drop_last() =~= end);
}

/// The records of one list of parts and of another behind it are the records of both, with a comma
/// where they meet.
pub proof fn law_part_records_follow_each_other(one: Seq<PartView>, other: Seq<PartView>)
    requires
        one.len() > 0,
        other.len() > 0,
    ensures
        parts_json(one + other) == parts_json(one) + seq![','] + parts_json(other),
        parts_json(seq![one[0]]) == part_json(one[0]),
    decreases other.len(),
{
    let all = one + other;
    assert(all.drop_last() =~= one + other.drop_last());
    assert(all.last() == other.last());
    if other.len() == 1 {
        assert(one + other.drop_last() =~= one);
        assert(parts_json(all) =~= parts_json(one) + seq![','] + parts_json(other));
    } else {
        law_part_records_follow_each_other(one, other.drop_last());
        assert(parts_json(all) =~= parts_json(one) + seq![','] + parts_json(other));
    }
}

} // verus!
