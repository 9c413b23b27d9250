//! What each command prints.
//!
//! A command's payload is decided here, from the bytes of an archive; opening files and writing
//! the payload out is left to the program around the library.
use crate::apk::classes::{
    class_views, classes_outcome, indexes_archive, list_classes, package_of, plain_name, simple_of,
    ClassEntry, ClassView,
};
use crate::apk::entries::{all_entries, list_entries};

use crate::apk::references::{
    find_reference_hits, hit_text, hit_views, hits_archive, hits_outcome, sort_hits, sorts, HitView,
    ReferenceHit,
};
use crate::apk::strings::{
    filter_text, list_strings, lists_strings, lowercase, string_views, strings_outcome,
    to_lowercase, StringEntry, StringView,
};
use crate::cli::{query_of, ClassesArgs, FindRefsArgs, SkillArgs, StringsArgs};
use crate::dex::index::{Answer, AnswerView};
use crate::dex::texts;
use crate::error::Error;
use crate::query::{class_descriptor, Query, QueryView};
use crate::seqs::{occurs, occurs_at};
use crate::text::{
    chars_of, contains_text, decimal, is_space, law_decimal_reads_back,
    law_trimming_takes_the_white_space, lemma_cut, lemma_cut_four, lemma_digits_have_no, push_decimal,
    replace_char, replaced, string_of, trim, trimmed, value_of,
};
use crate::zip::{
    entry_views, BytesSource, EntryView, InflationCeiling, ZipEntry, DEFAULT_MAX_INFLATED_ENTRY,
};
use vstd::prelude::*;

verus! {

/// Whether a character is a decimal digit.
pub open spec fn is_digit(c: char) -> bool {
    '0' <= c && c <= '9'
}

/// The number that decimal digits write.
pub open spec fn number(digits: Seq<char>) -> nat
    decreases digits.len(),
{
    if digits.len() == 0 {
        0
    } else {
        number(digits.drop_last()) * 10 + (digits.last() as nat - '0' as nat) as nat
    }
}

/// The digits of a number that may have a plus sign in front.
pub open spec fn unsigned(text: Seq<char>) -> Seq<char> {
    if text.len() > 0 && text[0] == '+' {
        text.skip(1)
    } else {
        text
    }
}

/// The size that a text states, if it states one: decimal digits, with white space around them
/// and a plus sign in front of them allowed, of a number that fits a size.
pub open spec fn stated_size(text: Seq<char>) -> Option<usize> {
    let digits = unsigned(trim(text));
    if digits.len() > 0 && (forall|i: int| 0 <= i < digits.len() ==> is_digit(#[trigger] digits[i]))
        && number(digits) <= usize::MAX {
        Some(number(digits) as usize)
    } else {
        None
    }
}

proof fn lemma_number_grows(digits: Seq<char>, k: int)
    requires
        0 <= k <= digits.len(),
    ensures
        number(digits.take(k)) <= number(digits),
    decreases digits.len() - k,
{
    if k == digits.len() {
        assert(digits.take(k) =~= digits);
    } else {
        assert(digits.take(k + 1).drop_last() =~= digits.take(k));
        lemma_number_grows(digits, k + 1);
    }
}

/// The size that a text states, if it states one.
pub fn parse_size(text: &str) -> (size: Option<usize>)
    ensures
        size == stated_size(text@),
{
    let chars = trimmed(chars_of(text).as_slice());
    let ghost digits = unsigned(chars@);
    let len: usize = chars.len();
    let start: usize = if len > 0 && chars[0] == '+' {
        1
    } else {
        0
    };
    assert(digits =~= chars@.skip(start as int));
    if start == len {
        return None;
    }
    let mut size: usize = 0;
    let mut k: usize = start;
    assert(digits.take(0) =~= Seq::empty());
    while k < len
        invariant
            len == chars@.len(),
            start <= k <= len,
            start < len,
            chars@ == trim(text@),
            digits == unsigned(trim(text@)),
            digits == chars@.skip(start as int),
            forall|i: int| 0 <= i < k - start ==> is_digit(#[trigger] digits[i]),
            size == number(digits.take(k - start)),
        decreases len - k,
    {
        let c = chars[k];
        let ghost i = k - start;
        assert(digits[i] == c);
        if c < '0' || c > '9' {
            assert(!is_digit(digits[i]));
            return None;
        }
        proof {
            assert(digits.take(i + 1).drop_last() =~= digits.take(i));
            lemma_number_grows(digits, i + 1);
        }
        let value: usize = c as usize - 48;
        let shifted: usize = match size.checked_mul(10) {
            Some(shifted) => shifted,
            None => {
                return None;
            },
        };
        size = match shifted.checked_add(value) {
            Some(sum) => sum,
            None => {
                return None;
            },
        };
        k = k + 1;
    }
    assert(digits.take(len - start) =~= digits);
    Some(size)
}

/// The ceiling that a host's setting puts in force: zero, and anything that is no size, leaves
/// the default.
pub open spec fn ceiling_of(value: Option<Seq<char>>) -> usize {
    match value {
        Some(text) => match stated_size(text) {
            Some(size) => if size == 0 {
                DEFAULT_MAX_INFLATED_ENTRY
            } else {
                size
            },
            None => DEFAULT_MAX_INFLATED_ENTRY,
        },
        None => DEFAULT_MAX_INFLATED_ENTRY,
    }
}

/// The per-entry inflation ceiling that a host's setting asks for.
///
/// The ceiling is host policy, not command-line policy: a host with a memory budget of its own
/// states it, and it is in force before the first allocation. `0` restores the built-in default;
/// anything that cannot be parsed leaves it in force rather than guessing at an intent.
pub fn inflation_ceiling(value: Option<&str>) -> (ceiling: InflationCeiling)
    ensures
        ceiling.in_force() == ceiling_of(filter_text(value)),
{
    let mut ceiling = InflationCeiling::new();
    if let Some(text) = value {
        match parse_size(text) {
            Some(0) => {},
            Some(bytes) => {
                let _previous = ceiling.set_max_inflated_entry(bytes);
            },
            None => {},
        }
    }
    ceiling
}

/// The lines of hits, each ended by a line feed.
pub open spec fn hit_lines(hits: Seq<HitView>) -> Seq<char>
    decreases hits.len(),
{
    if hits.len() == 0 {
        Seq::empty()
    } else {
        hit_lines(hits.drop_last()) + hit_text(hits.last()) + "\n"@
    }
}

/// The payload of hits, in the order they are given.
pub fn render_hits(hits: &Vec<ReferenceHit>) -> (payload: String)
    ensures
        payload@ == hit_lines(hit_views(hits@)),
{
    let ghost views = hit_views(hits@);
    let mut payload = String::new();
    assert(views.take(0) =~= Seq::empty());
    for k in 0..hits.len()
        invariant
            views == hit_views(hits@),
            payload@ == hit_lines(views.take(k as int)),
    {
        proof {
            assert(views.take(k + 1).drop_last() =~= views.take(k as int));
            assert(views.take(k + 1).last() == hits@[k as int]@);
        }
        payload.push_str(hits[k].render().as_str());
        payload.push_str("\n");
    }
    assert(views.take(views.len() as int) =~= views);
    payload
}

/// Whether `result` is the payload of a search: the lines of its hits, sorted.
pub open spec fn search_payload(
    bytes: Seq<u8>,
    threads: usize,
    max_inflated: usize,
    query: QueryView,
    result: Result<Seq<char>, Error>,
) -> bool {
    exists|hits: Result<Seq<HitView>, Error>| #[trigger]
        hits_archive(bytes, threads, max_inflated, query, hits) && search_prints(hits, result)
}

/// Whether `result` is what a search with the given hits prints.
pub open spec fn search_prints(hits: Result<Seq<HitView>, Error>, result: Result<Seq<char>, Error>) -> bool {
    match hits {
        Err(error) => result == Err::<Seq<char>, Error>(error),
        Ok(hits) => exists|sorted: Seq<HitView>| #[trigger]
            sorts(hits, sorted) && result == Ok::<Seq<char>, Error>(hit_lines(sorted)),
    }
}

/// The outcome of a call that returns a payload, with the payload as characters.
pub open spec fn payload_outcome(result: Result<String, Error>) -> Result<Seq<char>, Error> {
    match result {
        Ok(payload) => Ok(payload@),
        Err(error) => Err(error),
    }
}

/// Refuses to walk an archive without a single worker, before the archive is opened.
pub fn require_workers(threads: usize) -> (done: Result<(), Error>)
    ensures
        done == (if threads == 0 {
            Err::<(), Error>(Error::NoWorkers)
        } else {
            Ok(())
        }),
{
    if threads == 0 {
        Err(Error::NoWorkers)
    } else {
        Ok(())
    }
}

/// The payload of `rasc findrefs`.
pub fn findrefs<S: BytesSource + ?Sized>(source: &S, args: &FindRefsArgs, max_inflated: usize) -> (payload:
    Result<String, Error>)
    ensures
        match query_of(args.kind) {
            Err(error) => payload == Err::<String, Error>(error),
            Ok(query) => search_payload(
                source.bytes(),
                args.threads,
                max_inflated,
                query,
                payload_outcome(payload),
            ),
        },
{
    let query: Query = match args.query() {
        Ok(query) => query,
        Err(error) => {
            return Err(error);
        },
    };
    let found = find_reference_hits(source, &query, args.threads, max_inflated);
    let ghost hits = hits_outcome(found);
    match found {
        Ok(found) => {
            let sorted = sort_hits(found);
            let payload = render_hits(&sorted);
            assert(search_prints(hits, Ok::<Seq<char>, Error>(payload@)));
            Ok(payload)
        },
        Err(error) => {
            assert(search_prints(hits, Err::<Seq<char>, Error>(error)));
            Err(error)
        },
    }
}

/// The dotted form of a class's name.
pub open spec fn dotted_name(class: ClassView) -> Seq<char> {
    replaced(plain_name(class.descriptor), '/', '.')
}

/// Whether a class is shown: its dotted name, in lower case, holds the pattern.
pub open spec fn shows_class(class: ClassView, pattern: Option<Seq<char>>) -> bool {
    match pattern {
        None => true,
        Some(pattern) => occurs(lowercase(dotted_name(class)), pattern),
    }
}

/// The row of a class.
pub open spec fn class_line(class: ClassView) -> Seq<char> {
    class.dex_name + " | "@ + class.descriptor + " | "@ + dotted_name(class) + " | package="@
        + package_of(plain_name(class.descriptor)) + " | class="@ + simple_of(
        plain_name(class.descriptor),
    ) + "\n"@
}

/// The rows of those classes that are shown.
pub open spec fn class_lines(classes: Seq<ClassView>, pattern: Option<Seq<char>>) -> Seq<char>
    decreases classes.len(),
{
    if classes.len() == 0 {
        Seq::empty()
    } else {
        let front = class_lines(classes.drop_last(), pattern);
        if shows_class(classes.last(), pattern) {
            front + class_line(classes.last())
        } else {
            front
        }
    }
}

/// Appends the row of a class, if it is shown.
fn push_class(payload: &mut String, class: &ClassEntry, pattern: Option<&str>)
    ensures
        final(payload)@ == (if shows_class(class@, filter_text(pattern)) {
            old(payload)@ + class_line(class@)
        } else {
            old(payload)@
        }),
{
    let name = class.java_name();
    let dotted = replace_char(chars_of(name.as_str()).as_slice(), '/', '.');
    if let Some(pattern) = pattern {
        let lower = to_lowercase(string_of(dotted.as_slice()).as_str());
        if !contains_text(chars_of(lower.as_str()).as_slice(), chars_of(pattern).as_slice()) {
            return;
        }
    }
    payload.push_str(class.dex_name.as_str());
    payload.push_str(" | ");
    payload.push_str(class.descriptor.as_str());
    payload.push_str(" | ");
    payload.push_str(string_of(dotted.as_slice()).as_str());
    payload.push_str(" | package=");
    payload.push_str(class.package().as_str());
    payload.push_str(" | class=");
    payload.push_str(class.simple_name().as_str());
    payload.push_str("\n");
    assert(payload@ =~= old(payload)@ + class_line(class@));
}

/// The rows of those of some classes that a pattern in lower case shows.
///
/// Rendering is per-row independent, so an index may be rendered chunk by chunk.
pub fn render_classes(classes: &[ClassEntry], pattern: Option<&str>) -> (payload: String)
    ensures
        payload@ == class_lines(class_views(classes@), filter_text(pattern)),
{
    let ghost views = class_views(classes@);
    let mut payload = String::new();
    assert(views.take(0) =~= Seq::empty());
    for k in 0..classes.len()
        invariant
            views == class_views(classes@),
            payload@ == class_lines(views.take(k as int), filter_text(pattern)),
    {
        proof {
            assert(views.take(k + 1).drop_last() =~= views.take(k as int));
            assert(views.take(k + 1).last() == classes@[k as int]@);
        }
        push_class(&mut payload, &classes[k], pattern);
    }
    assert(views.take(views.len() as int) =~= views);
    payload
}

/// Rendering an index in two parts gives what rendering it whole gives.
pub proof fn law_chunks_render_the_whole(
    first: Seq<ClassView>,
    second: Seq<ClassView>,
    pattern: Option<Seq<char>>,
)
    ensures
        class_lines(first + second, pattern) == class_lines(first, pattern) + class_lines(
            second,
            pattern,
        ),
    decreases second.len(),
{
    let all = first + second;
    if second.len() == 0 {
        assert(all =~= first);
        assert(class_lines(first, pattern) + class_lines(second, pattern) =~= class_lines(
            first,
            pattern,
        ));
    } else {
        law_chunks_render_the_whole(first, second.drop_last(), pattern);
        assert(all.drop_last() =~= first + second.drop_last());
        assert(all.last() == second.last());
        let line = class_line(second.last());
        let front = class_lines(first, pattern);
        let rest = class_lines(second.drop_last(), pattern);
        assert((front + rest) + line =~= front + (rest + line));
    }
}

/// A filter that may be absent, as characters.
pub open spec fn stated_filter(filter: Option<String>) -> Option<Seq<char>> {
    match filter {
        Some(filter) => Some(filter@),
        None => None,
    }
}

/// The pattern of a filter: the filter in lower case.
pub open spec fn filter_pattern(filter: Option<String>) -> Option<Seq<char>> {
    match filter {
        Some(filter) => Some(lowercase(filter@)),
        None => None,
    }
}

/// Whether `result` is the payload of a class listing.
pub open spec fn classes_payload(
    bytes: Seq<u8>,
    threads: usize,
    max_inflated: usize,
    pattern: Option<Seq<char>>,
    result: Result<Seq<char>, Error>,
) -> bool {
    exists|index: Result<Seq<ClassView>, Error>| #[trigger]
        indexes_archive(bytes, threads, max_inflated, index) && result == (match index {
            Ok(index) => Ok(class_lines(index, pattern)),
            Err(error) => Err(error),
        })
}

/// The pattern of a filter: the filter in lower case.
pub fn class_pattern(filter: &Option<String>) -> (pattern: Option<String>)
    ensures
        stated_filter(pattern) == filter_pattern(*filter),
{
    match filter {
        Some(filter) => Some(to_lowercase(filter.as_str())),
        None => None,
    }
}

/// The payload of `rasc classes`.
pub fn classes<S: BytesSource + ?Sized>(source: &S, args: &ClassesArgs, max_inflated: usize) -> (payload:
    Result<String, Error>)
    ensures
        classes_payload(
            source.bytes(),
            args.threads,
            max_inflated,
            filter_pattern(args.filter),
            payload_outcome(payload),
        ),
{
    let lower = class_pattern(&args.filter);
    let pattern: Option<&str> = match &lower {
        Some(lower) => Some(lower.as_str()),
        None => None,
    };
    let index = list_classes(source, args.threads, max_inflated);
    let ghost listed = classes_outcome(index);
    assert(indexes_archive(source.bytes(), args.threads, max_inflated, listed));
    match index {
        Ok(index) => Ok(render_classes(index.as_slice(), pattern)),
        Err(error) => Err(error),
    }
}

/// The row of a string.
pub open spec fn string_line(row: StringView) -> Seq<char> {
    row.dex_name + " | "@ + decimal(row.index as nat) + " | "@ + row.value + "\n"@
}

/// The rows of strings.
pub open spec fn string_lines(rows: Seq<StringView>) -> Seq<char>
    decreases rows.len(),
{
    if rows.len() == 0 {
        Seq::empty()
    } else {
        string_lines(rows.drop_last()) + string_line(rows.last())
    }
}

/// The payload of strings.
pub fn render_strings(rows: &Vec<StringEntry>) -> (payload: String)
    ensures
        payload@ == string_lines(string_views(rows@)),
{
    let ghost views = string_views(rows@);
    let mut payload = String::new();
    assert(views.take(0) =~= Seq::empty());
    for k in 0..rows.len()
        invariant
            views == string_views(rows@),
            payload@ == string_lines(views.take(k as int)),
    {
        let row: &StringEntry = &rows[k];
        let ghost before = payload@;
        payload.push_str(row.dex_name.as_str());
        payload.push_str(" | ");
        push_decimal(&mut payload, row.index as u64);
        payload.push_str(" | ");
        payload.push_str(row.value.as_str());
        payload.push_str("\n");
        proof {
            assert(views.take(k + 1).drop_last() =~= views.take(k as int));
            assert(views.take(k + 1).last() == row@);
            assert(payload@ =~= before + string_line(row@));
        }
    }
    assert(views.take(views.len() as int) =~= views);
    payload
}

/// Whether `result` is the payload of a string listing.
pub open spec fn strings_payload(
    bytes: Seq<u8>,
    args: StringsArgs,
    max_inflated: usize,
    result: Result<Seq<char>, Error>,
) -> bool {
    exists|rows: Result<Seq<StringView>, Error>| #[trigger]
        lists_strings(
            bytes,
            args.threads,
            stated_filter(args.filter),
            args.limit,
            args.offset,
            max_inflated,
            rows,
        ) && result == (match rows {
            Ok(rows) => Ok(string_lines(rows)),
            Err(error) => Err(error),
        })
}

/// The payload of `rasc strings`.
pub fn strings<S: BytesSource + ?Sized>(source: &S, args: &StringsArgs, max_inflated: usize) -> (payload:
    Result<String, Error>)
    ensures
        strings_payload(source.bytes(), *args, max_inflated, payload_outcome(payload)),
{
    let filter: Option<&str> = match &args.filter {
        Some(filter) => Some(filter.as_str()),
        None => None,
    };
    let rows = list_strings(
        source,
        args.threads,
        filter,
        args.limit,
        args.offset,
        max_inflated,
    );
    let ghost listed = strings_outcome(rows);
    assert(lists_strings(
        source.bytes(),
        args.threads,
        stated_filter(args.filter),
        args.limit,
        args.offset,
        max_inflated,
        listed,
    ));
    match rows {
        Ok(rows) => Ok(render_strings(&rows)),
        Err(error) => Err(error),
    }
}

/// The word for a compression method.
pub open spec fn compression_word(method: nat) -> Seq<char> {
    if method == 0 {
        "stored"@
    } else if method == 8 {
        "deflated"@
    } else {
        "other"@
    }
}

/// The row of an entry.
pub open spec fn entry_line(entry: EntryView) -> Seq<char> {
    entry.name + " | "@ + compression_word(entry.compression) + " | "@ + decimal(
        entry.compressed_size as nat,
    ) + " | "@ + decimal(entry.uncompressed_size as nat) + "\n"@
}

/// The rows of entries.
pub open spec fn entry_lines(entries: Seq<EntryView>) -> Seq<char>
    decreases entries.len(),
{
    if entries.len() == 0 {
        Seq::empty()
    } else {
        entry_lines(entries.drop_last()) + entry_line(entries.last())
    }
}

/// Appends the row of an entry.
fn push_entry_line(payload: &mut String, entry: &ZipEntry)
    ensures
        final(payload)@ == old(payload)@ + entry_line(entry@),
{
    let ghost before = payload@;
    payload.push_str(entry.name.as_str());
    payload.push_str(" | ");
    if entry.compression == 0 {
        payload.push_str("stored");
    } else if entry.compression == 8 {
        payload.push_str("deflated");
    } else {
        payload.push_str("other");
    }
    payload.push_str(" | ");
    push_decimal(payload, entry.compressed_size as u64);
    payload.push_str(" | ");
    push_decimal(payload, entry.uncompressed_size as u64);
    payload.push_str("\n");
    assert(payload@ =~= before + entry_line(entry@));
}

/// The payload of entries.
pub fn render_entries(entries: &Vec<ZipEntry>) -> (payload: String)
    ensures
        payload@ == entry_lines(entry_views(entries@)),
{
    let ghost views = entry_views(entries@);
    let mut payload = String::new();
    assert(views.take(0) =~= Seq::empty());
    for k in 0..entries.len()
        invariant
            views == entry_views(entries@),
            payload@ == entry_lines(views.take(k as int)),
    {
        let entry: &ZipEntry = &entries[k];
        push_entry_line(&mut payload, entry);
        proof {
            assert(views.take(k + 1).drop_last() =~= views.take(k as int));
            assert(views.take(k + 1).last() == entry@);
        }
    }
    assert(views.take(views.len() as int) =~= views);
    payload
}

/// The payload of `rasc entries`.
pub fn entries<S: BytesSource + ?Sized>(source: &S) -> (payload: Result<String, Error>)
    ensures
        match all_entries(source.bytes()) {
            Ok(entries) => payload matches Ok(text) && text@ == entry_lines(entries),
            Err(error) => payload == Err::<String, Error>(error),
        },
{
    match list_entries(source) {
        Ok(entries) => Ok(render_entries(&entries)),
        Err(error) => Err(error),
    }
}

/// The lines of a member table, each ended by a line feed.
pub open spec fn member_text(lines: Seq<Seq<char>>) -> Seq<char>
    decreases lines.len(),
{
    if lines.len() == 0 {
        Seq::empty()
    } else {
        member_text(lines.drop_last()) + lines.last() + "\n"@
    }
}

/// The payload of a class that was looked for in an archive and decompiled where it was found:
/// its source, with its member table in front where that was asked for.
pub fn getclass(source: Option<String>, members: &Vec<String>, descriptor: &str) -> (payload: Result<
    String,
    Error,
>)
    ensures
        match source {
            Some(code) => payload matches Ok(text) && text@ == member_text(texts(members@)) + code@
                + "\n"@,
            None => payload matches Err(Error::ClassNotFound { descriptor: name }) && name@
                == descriptor@,
        },
{
    let code = match source {
        Some(code) => code,
        None => {
            return Err(Error::ClassNotFound { descriptor: descriptor.to_owned() });
        },
    };
    let ghost lines = texts(members@);
    let mut text = String::new();
    assert(lines.take(0) =~= Seq::empty());
    for k in 0..members.len()
        invariant
            lines == texts(members@),
            text@ == member_text(lines.take(k as int)),
    {
        proof {
            assert(lines.take(k + 1).drop_last() =~= lines.take(k as int));
            assert(lines.take(k + 1).last() == members@[k as int]@);
        }
        text.push_str(members[k].as_str());
        text.push_str("\n");
    }
    assert(lines.take(lines.len() as int) =~= lines);
    text.push_str(code.as_str());
    text.push_str("\n");
    Ok(text)
}

/// Without its member table, the payload of a class is its source and a line feed.
pub proof fn law_no_members_leave_the_source(code: Seq<char>)
    ensures
        member_text(Seq::empty()) + code + "\n"@ == code + "\n"@,
{
    assert(member_text(Seq::empty()) + code =~= code);
}

/// What a lookup over several inputs comes to.
#[derive(Clone, Copy, Debug, PartialEq, Eq, Structural)]
pub enum Verdict {
    /// One input defines the class, and it has what was asked for.
    One,
    /// No input defines the class, or it has not what was asked for.
    Missing,
    /// More than one input defines the class.
    Several,
}

/// How many of the inputs that gave these answers define the class.
pub open spec fn defining(answers: Seq<AnswerView>) -> nat
    decreases answers.len(),
{
    if answers.len() == 0 {
        0
    } else {
        defining(answers.drop_last()) + (if answers.last() is Undefined {
            0nat
        } else {
            1
        })
    }
}

/// The lines of those answers that have one.
pub open spec fn answer_lines(answers: Seq<AnswerView>) -> Seq<char>
    decreases answers.len(),
{
    if answers.len() == 0 {
        Seq::empty()
    } else {
        let front = answer_lines(answers.drop_last());
        match answers.last() {
            AnswerView::Row(line) => front + line + "\n"@,
            _ => front,
        }
    }
}

/// The verdict over these answers.
pub open spec fn verdict_of(answers: Seq<AnswerView>) -> Verdict {
    if defining(answers) > 1 {
        Verdict::Several
    } else if exists|i: int| 0 <= i < answers.len() && (#[trigger] answers[i]) is Row {
        Verdict::One
    } else {
        Verdict::Missing
    }
}

/// The views of a list of answers.
pub open spec fn answer_views(answers: Seq<Answer>) -> Seq<AnswerView> {
    answers.map_values(|answer: Answer| answer@)
}

impl Verdict {
    /// The exit status that states this verdict.
    pub fn exit_status(&self) -> (status: i32)
        ensures
            status == (match self {
                Verdict::One => 0i32,
                Verdict::Missing => 3i32,
                Verdict::Several => 4i32,
            }),
    {
        match self {
            Verdict::One => 0,
            Verdict::Missing => 3,
            Verdict::Several => 4,
        }
    }
}

/// What an index lookup prints, and its verdict, from what each input answered. Where more than
/// one input defines the class, every candidate is printed.
pub fn index_lookup(answers: &Vec<Answer>) -> (result: (String, Verdict))
    ensures
        result.0@ == answer_lines(answer_views(answers@)),
        result.1 == verdict_of(answer_views(answers@)),
{
    let ghost views = answer_views(answers@);
    let mut payload = String::new();
    let mut defined: usize = 0;
    let mut found = false;
    assert(views.take(0) =~= Seq::empty());
    for k in 0..answers.len()
        invariant
            views == answer_views(answers@),
            payload@ == answer_lines(views.take(k as int)),
            defined == defining(views.take(k as int)),
            defined <= k,
            found == exists|i: int| 0 <= i < k && (#[trigger] views[i]) is Row,
    {
        let answer: &Answer = &answers[k];
        proof {
            assert(views.take(k + 1).drop_last() =~= views.take(k as int));
            assert(views.take(k + 1).last() == answer@);
            assert(views[k as int] == answer@);
        }
        match answer {
            Answer::Undefined => {},
            Answer::NoSuchIndex => {
                defined = defined + 1;
            },
            Answer::Row(line) => {
                payload.push_str(line.as_str());
                payload.push_str("\n");
                defined = defined + 1;
                found = true;
            },
        }
    }
    assert(views.take(views.len() as int) =~= views);
    let verdict = if defined > 1 {
        Verdict::Several
    } else if found {
        Verdict::One
    } else {
        Verdict::Missing
    };
    (payload, verdict)
}

/// A lookup that no input answers prints nothing.
pub proof fn law_missing_index_prints_nothing(answers: Seq<AnswerView>)
    requires
        verdict_of(answers) is Missing,
    ensures
        answer_lines(answers) == Seq::<char>::empty(),
    decreases answers.len(),
{
    if answers.len() > 0 {
        let front = answers.drop_last();
        assert(!(answers[answers.len() - 1] is Row));
        assert forall|i: int| 0 <= i < front.len() implies !((#[trigger] front[i]) is Row) by {
            assert(front[i] == answers[i]);
        }
        law_missing_index_prints_nothing(front);
    }
}

/// The field layouts that were found.
pub open spec fn found_plans(plans: Seq<Option<String>>) -> Seq<Seq<char>>
    decreases plans.len(),
{
    if plans.len() == 0 {
        Seq::empty()
    } else {
        let front = found_plans(plans.drop_last());
        match plans.last() {
            Some(plan) => front.push(plan@),
            None => front,
        }
    }
}

/// What `rasc fields-plan` prints, and its verdict, from the field layout that each input has for
/// the class.
///
/// Where more than one input defines the class nothing is printed: a plan decides which instance
/// slots a collector may dereference, so picking one of two layouts would be arbitrary.
pub fn plan_verdict(plans: &Vec<Option<String>>) -> (result: (String, Verdict))
    ensures
        ({
            let found = found_plans(plans@);
            if found.len() == 0 {
                result.0@ == Seq::<char>::empty() && result.1 == Verdict::Missing
            } else if found.len() == 1 {
                result.0@ == found[0] + "\n"@ && result.1 == Verdict::One
            } else {
                result.0@ == Seq::<char>::empty() && result.1 == Verdict::Several
            }
        }),
{
    let ghost all = plans@;
    let mut payload = String::new();
    let mut count: usize = 0;
    assert(all.take(0) =~= Seq::empty());
    for k in 0..plans.len()
        invariant
            all == plans@,
            count <= k,
            count == found_plans(all.take(k as int)).len(),
            count == 1 ==> payload@ == found_plans(all.take(k as int))[0] + "\n"@,
            count == 0 ==> payload@ == Seq::<char>::empty(),
    {
        assert(all.take(k + 1).drop_last() =~= all.take(k as int));
        if let Some(plan) = &plans[k] {
            if count == 0 {
                payload.push_str(plan.as_str());
                payload.push_str("\n");
                assert(payload@ =~= plan@ + "\n"@);
            }
            count = count + 1;
        }
    }
    assert(all.take(all.len() as int) =~= all);
    if count == 0 {
        (payload, Verdict::Missing)
    } else if count == 1 {
        (payload, Verdict::One)
    } else {
        (String::new(), Verdict::Several)
    }
}

/// Whether `rasc skill` prints instead of installing; printing takes no destination.
pub fn skill_prints(args: &SkillArgs) -> (print: Result<bool, Error>)
    ensures
        print == (if args.print && (args.dir is Some || args.agents@.len() > 0) {
            Err::<bool, Error>(Error::PrintWithTargets)
        } else {
            Ok(args.print)
        }),
{
    if args.print && (args.dir.is_some() || args.agents.len() > 0) {
        return Err(Error::PrintWithTargets);
    }
    Ok(args.print)
}

/// The name that a row shows, and that a filter is held against, is the plain name with a dot for
/// each slash and every other character as it is.
pub proof fn law_shown_name_is_dotted(class: ClassView)
    ensures
        dotted_name(class).len() == plain_name(class.descriptor).len(),
        !dotted_name(class).contains('/'),
        forall|i: int|
            0 <= i < plain_name(class.descriptor).len() ==> #[trigger] dotted_name(class)[i] == (
            if plain_name(class.descriptor)[i] == '/' {
                '.'
            } else {
                plain_name(class.descriptor)[i]
            }),
{
}

/// A class that is asked for by its dotted name is shown under that name, and a filter that is
/// the name in lower case shows it: the two ways of writing a name undo each other.
pub proof fn law_dotted_name_reads_back(name: Seq<char>, dex_name: Seq<char>)
    requires
        name.len() > 0,
        name[0] != 'L',
        name.last() != ';',
        !name.contains('/'),
    ensures
        dotted_name(ClassView { descriptor: class_descriptor(name), dex_name }) == name,
        shows_class(
            ClassView { descriptor: class_descriptor(name), dex_name },
            Some(lowercase(name)),
        ),
{
    let class = ClassView { descriptor: class_descriptor(name), dex_name };
    let slashed = crate::text::replaced(name, '.', '/');
    assert(class_descriptor(name) =~= (seq!['L'] + slashed).push(';'));
    assert(plain_name(class.descriptor) =~= slashed);
    assert forall|i: int| 0 <= i < name.len() implies #[trigger] dotted_name(class)[i] == name[i] by {
        assert(slashed[i] == (if name[i] == '.' {
            '/'
        } else {
            name[i]
        }));
        assert(name.contains(name[i]));
    }
    assert(dotted_name(class) =~= name);
    let low = lowercase(name);
    assert(low.subrange(0, low.len() as int) =~= low);
    assert(occurs_at(low, low, 0));
}

/// A number that is written in decimal states that size, with white space around it and a plus
/// sign in front of it or without them.
pub proof fn law_written_sizes_are_read(before: Seq<char>, size: nat, after: Seq<char>)
    requires
        size <= usize::MAX,
        forall|i: int| 0 <= i < before.len() ==> is_space(#[trigger] before[i]),
        forall|i: int| 0 <= i < after.len() ==> is_space(#[trigger] after[i]),
    ensures
        stated_size(before + decimal(size) + after) == Some(size as usize),
        stated_size(before + (seq!['+'] + decimal(size)) + after) == Some(size as usize),
        size > 0 ==> ceiling_of(Some(before + decimal(size) + after)) == size,
{
    let digits = decimal(size);
    law_decimal_reads_back(size);
    lemma_number_is_value(digits);
    assert(is_digit(digits[0]) && is_digit(digits.last()));
    law_trimming_takes_the_white_space(before, digits, after);
    let signed = seq!['+'] + digits;
    assert(signed.last() == digits.last());
    law_trimming_takes_the_white_space(before, signed, after);
    assert(unsigned(signed) =~= digits);
}

proof fn lemma_number_is_value(digits: Seq<char>)
    requires
        forall|i: int| 0 <= i < digits.len() ==> is_digit(#[trigger] digits[i]),
    ensures
        number(digits) == value_of(digits, 10),
    decreases digits.len(),
{
    if digits.len() > 0 {
        let front = digits.drop_last();
        assert forall|i: int| 0 <= i < front.len() implies is_digit(#[trigger] front[i]) by {
            assert(front[i] == digits[i]);
        }
        lemma_number_is_value(front);
        assert(is_digit(digits[digits.len() - 1]));
    }
}

/// The rows of one list and of another behind it are the rows of the two lists, and a list of one
/// is one row.
pub proof fn law_rows_follow_each_other(one: Seq<HitView>, other: Seq<HitView>, hit: HitView)
    ensures
        hit_lines(one + other) == hit_lines(one) + hit_lines(other),
        hit_lines(seq![hit]) == hit_text(hit) + seq!['\n'],
    decreases other.len(),
{
    reveal_strlit("\n");
    assert("\n"@ =~= seq!['\n']);
    assert(seq![hit].drop_last() =~= Seq::empty());
    assert(hit_lines(seq![hit].drop_last()) =~= Seq::empty());
    assert(hit_lines(seq![hit]) =~= hit_text(hit) + seq!['\n']);
    if other.len() == 0 {
        assert(one + other =~= one);
        assert(hit_lines(one) + hit_lines(other) =~= hit_lines(one));
    } else {
        law_rows_follow_each_other(one, other.drop_last(), hit);
        assert((one + other).drop_last() =~= one + other.drop_last());
        assert(hit_lines(one + other) =~= hit_lines(one) + hit_lines(other));
    }
}

/// The string rows of one list and of another behind it are those of the two lists, and a list of
/// one is one row.
pub proof fn law_string_rows_follow_each_other(
    one: Seq<StringView>,
    other: Seq<StringView>,
    row: StringView,
)
    ensures
        string_lines(one + other) == string_lines(one) + string_lines(other),
        string_lines(seq![row]) == string_line(row),
    decreases other.len(),
{
    assert(seq![row].drop_last() =~= Seq::empty());
    assert(string_lines(seq![row].drop_last()) =~= Seq::empty());
    assert(string_lines(seq![row]) =~= string_line(row));
    if other.len() == 0 {
        assert(one + other =~= one);
        assert(string_lines(one) + string_lines(other) =~= string_lines(one));
    } else {
        law_string_rows_follow_each_other(one, other.drop_last(), row);
        assert((one + other).drop_last() =~= one + other.drop_last());
        assert(string_lines(one + other) =~= string_lines(one) + string_lines(other));
    }
}

/// The entry rows of one list and of another behind it are those of the two lists, and a list of
/// one is one row.
pub proof fn law_entry_rows_follow_each_other(
    one: Seq<EntryView>,
    other: Seq<EntryView>,
    entry: EntryView,
)
    ensures
        entry_lines(one + other) == entry_lines(one) + entry_lines(other),
        entry_lines(seq![entry]) == entry_line(entry),
    decreases other.len(),
{
    assert(seq![entry].drop_last() =~= Seq::empty());
    assert(entry_lines(seq![entry].drop_last()) =~= Seq::empty());
    assert(entry_lines(seq![entry]) =~= entry_line(entry));
    if other.len() == 0 {
        assert(one + other =~= one);
        assert(entry_lines(one) + entry_lines(other) =~= entry_lines(one));
    } else {
        law_entry_rows_follow_each_other(one, other.drop_last(), entry);
        assert((one + other).drop_last() =~= one + other.drop_last());
        assert(entry_lines(one + other) =~= entry_lines(one) + entry_lines(other));
    }
}

/// The class rows of one list and of another behind it are those of the two lists; a list of one
/// is one row if the class is shown, and nothing otherwise.
pub proof fn law_class_rows_follow_each_other(
    one: Seq<ClassView>,
    other: Seq<ClassView>,
    class: ClassView,
    pattern: Option<Seq<char>>,
)
    ensures
        class_lines(one + other, pattern) == class_lines(one, pattern) + class_lines(other, pattern),
        class_lines(seq![class], None) == class_line(class),
        class_lines(seq![class], pattern).len() == 0 || class_lines(seq![class], pattern)
            == class_line(class),
        pattern matches Some(text) ==> (occurs(lowercase(dotted_name(class)), text) <==> class_lines(
            seq![class],
            pattern,
        ) == class_line(class)),
    decreases other.len(),
{
    assert(seq![class].drop_last() =~= Seq::empty());
    assert(class_lines(seq![class].drop_last(), pattern) =~= Seq::empty());
    assert(class_lines(seq![class].drop_last(), None) =~= Seq::empty());
    assert(Seq::empty() + class_line(class) =~= class_line(class));
    reveal_strlit("\n");
    assert(class_line(class).len() > 0);
    if other.len() == 0 {
        assert(one + other =~= one);
        assert(class_lines(one, pattern) + class_lines(other, pattern) =~= class_lines(one, pattern));
    } else {
        law_class_rows_follow_each_other(one, other.drop_last(), class, pattern);
        assert((one + other).drop_last() =~= one + other.drop_last());
        assert(class_lines(one + other, pattern) =~= class_lines(one, pattern) + class_lines(
            other,
            pattern,
        ));
    }
}

/// A member table is its lines, each ended by a line feed.
pub proof fn law_member_lines_follow_each_other(
    one: Seq<Seq<char>>,
    other: Seq<Seq<char>>,
    line: Seq<char>,
)
    ensures
        member_text(one + other) == member_text(one) + member_text(other),
        member_text(seq![line]) == line + seq!['\n'],
    decreases other.len(),
{
    reveal_strlit("\n");
    assert("\n"@ =~= seq!['\n']);
    assert(seq![line].drop_last() =~= Seq::empty());
    assert(member_text(seq![line].drop_last()) =~= Seq::empty());
    assert(member_text(seq![line]) =~= line + seq!['\n']);
    if other.len() == 0 {
        assert(one + other =~= one);
        assert(member_text(one) + member_text(other) =~= member_text(one));
    } else {
        law_member_lines_follow_each_other(one, other.drop_last(), line);
        assert((one + other).drop_last() =~= one + other.drop_last());
        assert(member_text(one + other) =~= member_text(one) + member_text(other));
    }
}

/// However a string row is cut at its bars, the parts are the entry, the number of the string and
/// its value.
pub proof fn law_string_row_reads_back(
    row: StringView,
    name: Seq<char>,
    digits: Seq<char>,
    value: Seq<char>,
)
    requires
        row.index >= 0,
        string_line(row) == name + " | "@ + digits + " | "@ + value + "\n"@,
        !row.dex_name.contains(' '),
        !name.contains(' '),
        !digits.contains(' '),
    ensures
        name == row.dex_name,
        value_of(digits, 10) == row.index,
        value == row.value,
{
    reveal_strlit(" | ");
    let index = decimal(row.index as nat);
    law_decimal_reads_back(row.index as nat);
    lemma_digits_have_no(row.index as nat, ' ');
    let own = index + (" | "@ + (row.value + "\n"@));
    let given = digits + (" | "@ + (value + "\n"@));
    assert(string_line(row) =~= row.dex_name + " | "@ + own);
    assert(string_line(row) =~= name + " | "@ + given);
    lemma_cut(row.dex_name, own, name, given, " | "@);
    assert(own =~= index + " | "@ + (row.value + "\n"@));
    assert(given =~= digits + " | "@ + (value + "\n"@));
    lemma_cut(index, row.value + "\n"@, digits, value + "\n"@, " | "@);
    assert((row.value + "\n"@).take(row.value.len() as int) =~= row.value);
    assert((value + "\n"@).take(value.len() as int) =~= value);
}

/// However an entry row is cut at its bars, the parts are the name, the way the entry is stored,
/// and the two sizes.
pub proof fn law_entry_row_reads_back(
    entry: EntryView,
    name: Seq<char>,
    word: Seq<char>,
    packed: Seq<char>,
    plain: Seq<char>,
)
    requires
        entry.compressed_size >= 0,
        entry.uncompressed_size >= 0,
        entry_line(entry) == name + " | "@ + word + " | "@ + packed + " | "@ + plain + "\n"@,
        !entry.name.contains(' '),
        !name.contains(' '),
        !word.contains(' '),
        !packed.contains(' '),
    ensures
        name == entry.name,
        word == "stored"@ <==> entry.compression == 0,
        word == "deflated"@ <==> entry.compression == 8,
        value_of(packed, 10) == entry.compressed_size,
        value_of(plain, 10) == entry.uncompressed_size,
{
    reveal_strlit(" | ");
    reveal_strlit("stored");
    reveal_strlit("deflated");
    reveal_strlit("other");
    let kind = compression_word(entry.compression);
    let small = decimal(entry.compressed_size as nat);
    let large = decimal(entry.uncompressed_size as nat);
    law_decimal_reads_back(entry.compressed_size as nat);
    law_decimal_reads_back(entry.uncompressed_size as nat);
    lemma_digits_have_no(entry.compressed_size as nat, ' ');
    assert(!kind.contains(' '));
    let own = kind + (" | "@ + (small + (" | "@ + (large + "\n"@))));
    let given = word + (" | "@ + (packed + (" | "@ + (plain + "\n"@))));
    assert(entry_line(entry) =~= entry.name + " | "@ + own);
    assert(entry_line(entry) =~= name + " | "@ + given);
    lemma_cut(entry.name, own, name, given, " | "@);
    let own2 = small + (" | "@ + (large + "\n"@));
    let given2 = packed + (" | "@ + (plain + "\n"@));
    assert(own =~= kind + " | "@ + own2);
    assert(given =~= word + " | "@ + given2);
    lemma_cut(kind, own2, word, given2, " | "@);
    assert(own2 =~= small + " | "@ + (large + "\n"@));
    assert(given2 =~= packed + " | "@ + (plain + "\n"@));
    lemma_cut(small, large + "\n"@, packed, plain + "\n"@, " | "@);
    assert((large + "\n"@).take(large.len() as int) =~= large);
    assert((plain + "\n"@).take(plain.len() as int) =~= plain);
    assert("stored"@.len() == 6 && "deflated"@.len() == 8 && "other"@.len() == 5);
}

/// More than one input defines the class exactly where a lookup comes to several; it comes to one
/// exactly where a single input defines the class and has what was asked for.
pub proof fn law_verdict_counts_the_definitions(answers: Seq<AnswerView>)
    ensures
        verdict_of(answers) is Several <==> exists|i: int, j: int|
            0 <= i < j < answers.len() && !((#[trigger] answers[i]) is Undefined) && !((
            #[trigger] answers[j]) is Undefined),
        verdict_of(answers) is One <==> exists|i: int|
            0 <= i < answers.len() && (#[trigger] answers[i]) is Row && forall|j: int|
                0 <= j < answers.len() && j != i ==> (#[trigger] answers[j]) is Undefined,
{
    lemma_defining(answers);
    if verdict_of(answers) is One {
        let i = choose|i: int| 0 <= i < answers.len() && (#[trigger] answers[i]) is Row;
        assert forall|j: int| 0 <= j < answers.len() && j != i implies (
        #[trigger] answers[j]) is Undefined by {
            if !(answers[j] is Undefined) {
                if i < j {
                    assert(!(answers[i] is Undefined) && !(answers[j] is Undefined));
                } else {
                    assert(!(answers[j] is Undefined) && !(answers[i] is Undefined));
                }
            }
        }
    }
}

proof fn lemma_defining(answers: Seq<AnswerView>)
    ensures
        defining(answers) > 0 <==> exists|i: int|
            0 <= i < answers.len() && !((#[trigger] answers[i]) is Undefined),
        defining(answers) > 1 <==> exists|i: int, j: int|
            0 <= i < j < answers.len() && !((#[trigger] answers[i]) is Undefined) && !((
            #[trigger] answers[j]) is Undefined),
    decreases answers.len(),
{
    if answers.len() > 0 {
        let front = answers.drop_last();
        let last = answers.len() - 1;
        lemma_defining(front);
        assert(forall|i: int| 0 <= i < front.len() ==> #[trigger] front[i] == answers[i]);
        if defining(front) > 0 {
            let i = choose|i: int| 0 <= i < front.len() && !((#[trigger] front[i]) is Undefined);
            assert(!(answers[i] is Undefined));
        }
        if defining(front) > 1 {
            let (i, j) = choose|i: int, j: int|
                0 <= i < j < front.len() && !((#[trigger] front[i]) is Undefined) && !((
                #[trigger] front[j]) is Undefined);
            assert(!(answers[i] is Undefined) && !(answers[j] is Undefined));
        }
        if exists|i: int| 0 <= i < last && !((#[trigger] answers[i]) is Undefined) {
            let i = choose|i: int| 0 <= i < last && !((#[trigger] answers[i]) is Undefined);
            assert(!(front[i] is Undefined));
        }
        if exists|i: int, j: int|
            0 <= i < j < last && !((#[trigger] answers[i]) is Undefined) && !((
            #[trigger] answers[j]) is Undefined) {
            let (i, j) = choose|i: int, j: int|
                0 <= i < j < last && !((#[trigger] answers[i]) is Undefined) && !((
                #[trigger] answers[j]) is Undefined);
            assert(!(front[i] is Undefined) && !(front[j] is Undefined));
        }
    }
}

/// The candidates of one list of inputs and of another behind it are those of the two lists, and
/// an input prints its line where it has one.
pub proof fn law_candidates_follow_each_other(
    one: Seq<AnswerView>,
    other: Seq<AnswerView>,
    line: Seq<char>,
)
    ensures
        answer_lines(one + other) == answer_lines(one) + answer_lines(other),
        answer_lines(seq![AnswerView::Row(line)]) == line + seq!['\n'],
        answer_lines(seq![AnswerView::Undefined]).len() == 0,
        answer_lines(seq![AnswerView::NoSuchIndex]).len() == 0,
    decreases other.len(),
{
    reveal_strlit("\n");
    assert("\n"@ =~= seq!['\n']);
    assert(seq![AnswerView::Row(line)].drop_last() =~= Seq::empty());
    assert(seq![AnswerView::Undefined].drop_last() =~= Seq::empty());
    assert(seq![AnswerView::NoSuchIndex].drop_last() =~= Seq::empty());
    assert(answer_lines(Seq::empty()) =~= Seq::empty());
    assert(answer_lines(seq![AnswerView::Row(line)]) =~= line + seq!['\n']);
    if other.len() == 0 {
        assert(one + other =~= one);
        assert(answer_lines(one) + answer_lines(other) =~= answer_lines(one));
    } else {
        law_candidates_follow_each_other(one, other.drop_last(), line);
        assert((one + other).drop_last() =~= one + other.drop_last());
        assert(answer_lines(one + other) =~= answer_lines(one) + answer_lines(other));
    }
}

/// The layouts of one list of inputs and of another behind it are those of the two lists, and an
/// input has the one it has.
pub proof fn law_layouts_follow_each_other(
    one: Seq<Option<String>>,
    other: Seq<Option<String>>,
    plan: String,
)
    ensures
        found_plans(one + other) == found_plans(one) + found_plans(other),
        found_plans(seq![Some(plan)]) == seq![plan@],
        found_plans(seq![None::<String>]).len() == 0,
    decreases other.len(),
{
    assert(seq![Some(plan)].drop_last() =~= Seq::empty());
    assert(seq![None::<String>].drop_last() =~= Seq::empty());
    assert(found_plans(Seq::empty()) =~= Seq::empty());
    assert(found_plans(seq![Some(plan)]) =~= seq![plan@]);
    if other.len() == 0 {
        assert(one + other =~= one);
        assert(found_plans(one) + found_plans(other) =~= found_plans(one));
    } else {
        law_layouts_follow_each_other(one, other.drop_last(), plan);
        assert((one + other).drop_last() =~= one + other.drop_last());
        assert(found_plans(one + other) =~= found_plans(one) + found_plans(other));
    }
}

/// A class is shown for a filter that is its shown name in any case, and every class is shown
/// without one.
pub proof fn law_the_case_of_a_filter_does_not_matter(class: ClassView, filter: String)
    requires
        lowercase(filter@) == lowercase(dotted_name(class)),
    ensures
        shows_class(class, filter_pattern(Some(filter))),
        shows_class(class, filter_pattern(None)),
        stated_filter(Some(filter)) == Some(filter@),
{
    let low = lowercase(filter@);
    assert(low.subrange(0, low.len() as int) =~= low);
    assert(occurs_at(low, low, 0));
}

/// However a class row is cut at its bars, the parts are the entry, the descriptor, the shown name,
/// the package and the simple name.
pub proof fn law_class_row_reads_back(
    class: ClassView,
    name: Seq<char>,
    descriptor: Seq<char>,
    shown_name: Seq<char>,
    package: Seq<char>,
    simple: Seq<char>,
)
    requires
        class_line(class) == name + " | "@ + descriptor + " | "@ + shown_name + " | package="@ + package
            + " | class="@ + simple + "\n"@,
        !class.dex_name.contains(' ') && !name.contains(' '),
        !class.descriptor.contains(' ') && !descriptor.contains(' '),
        !dotted_name(class).contains(' ') && !shown_name.contains(' '),
        !package_of(plain_name(class.descriptor)).contains(' ') && !package.contains(' '),
    ensures
        name == class.dex_name,
        descriptor == class.descriptor,
        shown_name == dotted_name(class),
        package == package_of(plain_name(class.descriptor)),
        simple == simple_of(plain_name(class.descriptor)),
{
    let none = Seq::<char>::empty();
    let own_simple = simple_of(plain_name(class.descriptor));
    let end = "\n"@;
    let own = (
        class.dex_name,
        class.descriptor,
        dotted_name(class),
        package_of(plain_name(class.descriptor)),
        own_simple + end,
    );
    let given = (name, descriptor, shown_name, package, simple + end);
    let marks = (" | "@, " | "@, " | package="@, " | class="@);
    assert(marks.0.len() > 0 && marks.0[0] == ' ' && marks.2.len() > 0 && marks.2[0] == ' '
        && marks.3.len() > 0 && marks.3[0] == ' ') by {
        reveal_strlit(" | ");
        reveal_strlit(" | package=");
        reveal_strlit(" | class=");
    }
    let own_front = own.0 + marks.0 + own.1 + marks.1 + own.2 + marks.2 + own.3 + marks.3;
    let front = name + marks.0 + descriptor + marks.1 + shown_name + marks.2 + package + marks.3;
    assert(own_front + own_simple + end =~= own_front + own.4);
    assert(front + simple + end =~= front + given.4);
    assert(none + own.0 =~= own.0);
    assert(none + name =~= name);
    lemma_cut_four(none, own, given, marks, ' ');
    assert(own.4.take(own_simple.len() as int) =~= own_simple);
    assert(given.4.take(simple.len() as int) =~= simple);
}

} // verus!
