//! The reference scan over a whole DEX file.
use super::code::{behind, references_from, references_in, scan_code, ReferenceKind};
use super::filter::Targets;
use super::members::{
    class_data_off, class_word, field_entry, fields_from, lemma_methods_are_their_rows,
    lemma_uleb_range, member_counts, members_of_row, method_entry, method_is_its_row, methods_from,
    MembersView, MethodView,
};
use super::targets::{member_name_idx, name_of, query_kind, query_targets, target_text};
use super::{
    class_type, dex_error, law_uleb_reads_back, raw_string, raw_type, read_uleb, shown_result,
    table_size, uleb_at, written_uleb, Dex,
};
use crate::bytes::le32;
use crate::error::{Error, Table};
use crate::query::{Query, QueryView};
use crate::seqs::{
    collect, lemma_both_occur, lemma_collect_fails, lemma_collect_succeeds, occurs, occurs_at,
};
use vstd::prelude::*;

verus! {

/// A method that references targets of a query, and which ones.
#[derive(Debug)]
pub struct ReferenceRow {
    /// The method, as `Lcls;->name`.
    pub member: String,
    /// The targets, in the order of their first reference.
    pub matched: String,
}

/// A row, with its texts as characters.
#[verifier::ext_equal]
pub struct RowView {
    pub member: Seq<char>,
    pub matched: Seq<char>,
}

impl View for ReferenceRow {
    type V = RowView;

    open spec fn view(&self) -> RowView {
        RowView { member: self.member@, matched: self.matched@ }
    }
}

/// The views of a list of rows.
pub open spec fn row_views(rows: Seq<ReferenceRow>) -> Seq<RowView> {
    rows.map_values(|row: ReferenceRow| row@)
}

/// Where `count` field entries that start at `at` end.
pub open spec fn behind_fields(data: Seq<u8>, at: int, count: int) -> Result<int, Error>
    decreases count,
{
    if count <= 0 {
        Ok(at)
    } else {
        match uleb_at(data, at) {
            None => Err(Error::BadUleb { offset: at as usize }),
            Some(difference) => match uleb_at(data, difference.1) {
                None => Err(Error::BadUleb { offset: difference.1 as usize }),
                Some(flags) => behind_fields(data, flags.1, count - 1),
            },
        }
    }
}

/// A method entry: its index and where its code is, behind one with the given index, and where
/// the entry ends.
pub open spec fn code_entry(data: Seq<u8>, at: int, index: int) -> Result<((u32, u32), int), Error> {
    match uleb_at(data, at) {
        None => Err(Error::BadUleb { offset: at as usize }),
        Some(difference) => match uleb_at(data, difference.1) {
            None => Err(Error::BadUleb { offset: difference.1 as usize }),
            Some(flags) => match uleb_at(data, flags.1) {
                None => Err(Error::BadUleb { offset: flags.1 as usize }),
                Some(code) => if index + difference.0 > u32::MAX {
                    Err(Error::MemberIndexOverflow { table: Table::Methods })
                } else {
                    Ok((((index + difference.0) as u32, code.0 as u32), code.1))
                },
            },
        },
    }
}

/// The `count` methods whose entries start at `at`, with where their code is, and where the last
/// entry ends.
pub open spec fn codes_from(data: Seq<u8>, at: int, index: int, count: int) -> Result<
    (Seq<(u32, u32)>, int),
    Error,
>
    decreases count,
{
    if count <= 0 {
        Ok((Seq::empty(), at))
    } else {
        match code_entry(data, at, index) {
            Err(error) => Err(error),
            Ok(first) => match codes_from(data, first.1, first.0.0 as int, count - 1) {
                Err(error) => Err(error),
                Ok(rest) => Ok((seq![first.0] + rest.0, rest.1)),
            },
        }
    }
}

/// The methods of the class whose data stands at `at`, with where their code is, direct ones
/// first.
pub open spec fn class_codes(data: Seq<u8>, at: int) -> Result<Seq<(u32, u32)>, Error> {
    match member_counts(data, at) {
        Err(error) => Err(error),
        Ok(counts) => match behind_fields(data, counts.4, counts.0) {
            Err(error) => Err(error),
            Ok(statics) => match behind_fields(data, statics, counts.1) {
                Err(error) => Err(error),
                Ok(instance) => match codes_from(data, instance, 0, counts.2) {
                    Err(error) => Err(error),
                    Ok(directs) => match codes_from(data, directs.1, 0, counts.3) {
                        Err(error) => Err(error),
                        Ok(virtuals) => Ok(directs.0 + virtuals.0),
                    },
                },
            },
        },
    }
}

/// The instructions of the code at `at`.
pub open spec fn instructions(data: Seq<u8>, at: int) -> Result<Seq<u8>, Error> {
    if at + 16 > data.len() || at + 16 + 2 * le32(data, at + 12) > data.len() {
        Err(Error::Truncated { offset: at as usize })
    } else {
        Ok(data.subrange(at + 16, at + 16 + 2 * le32(data, at + 12)))
    }
}

/// Indices, each once and in the order they first occur in.
pub open spec fn distinct(indices: Seq<u32>) -> Seq<u32>
    decreases indices.len(),
{
    if indices.len() == 0 {
        Seq::empty()
    } else {
        let front = distinct(indices.drop_last());
        if front.contains(indices.last()) {
            front
        } else {
            front.push(indices.last())
        }
    }
}

/// How targets are shown, by position.
pub open spec fn target_texts(data: Seq<u8>, kind: ReferenceKind, indices: Seq<u32>) -> spec_fn(
    int,
) -> Result<Seq<char>, Error> {
    |k: int| target_text(data, kind, indices[k] as int)
}

/// Texts with a comma between each two.
pub open spec fn listed(texts: Seq<Seq<char>>) -> Seq<char>
    decreases texts.len(),
{
    if texts.len() == 0 {
        Seq::empty()
    } else if texts.len() == 1 {
        texts[0]
    } else {
        listed(texts.drop_last()) + ", "@ + texts.last()
    }
}

/// The row of a method of a class, if it references a target.
pub open spec fn method_row(
    data: Seq<u8>,
    kind: ReferenceKind,
    targets: Set<u32>,
    class: int,
    method: (u32, u32),
) -> Result<Option<RowView>, Error> {
    if method.1 == 0 {
        Ok(None)
    } else {
        match instructions(data, method.1 as int) {
            Err(error) => Err(error),
            Ok(code) => {
                let found = distinct(references_in(code, kind, targets));
                if found.len() == 0 {
                    Ok(None)
                } else {
                    found_row(data, kind, class, method.0 as int, found)
                }
            },
        }
    }
}

/// The row of a method of a class that references the given targets.
pub open spec fn found_row(
    data: Seq<u8>,
    kind: ReferenceKind,
    class: int,
    method: int,
    found: Seq<u32>,
) -> Result<Option<RowView>, Error> {
    if method >= table_size(data, Table::Methods) {
        Err(Error::BadIndex { table: Table::Methods, index: method as usize })
    } else {
        match shown_result(raw_type(data, class_type(data, class))) {
            Err(error) => Err(error),
            Ok(owner) => match shown_result(
                raw_string(data, member_name_idx(data, Table::Methods, method)),
            ) {
                Err(error) => Err(error),
                Ok(name) => match collect(
                    found.len() as int,
                    target_texts(data, kind, found),
                ) {
                    Err(error) => Err(error),
                    Ok(texts) => Ok(
                        Some(RowView { member: owner + "->"@ + name, matched: listed(texts) }),
                    ),
                },
            },
        }
    }
}

/// The rows of the first `n` methods of a class.
pub open spec fn method_rows(
    data: Seq<u8>,
    kind: ReferenceKind,
    targets: Set<u32>,
    class: int,
    methods: Seq<(u32, u32)>,
    n: int,
) -> Result<Seq<RowView>, Error>
    decreases n,
{
    if n <= 0 {
        Ok(Seq::empty())
    } else {
        match method_rows(data, kind, targets, class, methods, n - 1) {
            Err(error) => Err(error),
            Ok(front) => match method_row(data, kind, targets, class, methods[n - 1]) {
                Err(error) => Err(error),
                Ok(None) => Ok(front),
                Ok(Some(row)) => Ok(front.push(row)),
            },
        }
    }
}

/// The rows of the class in the given row of the class table.
pub open spec fn class_rows(
    data: Seq<u8>,
    kind: ReferenceKind,
    targets: Set<u32>,
    class: int,
) -> Result<Seq<RowView>, Error> {
    if class_data_off(data, class) == 0 {
        Ok(Seq::empty())
    } else {
        match class_codes(data, class_data_off(data, class)) {
            Err(error) => Err(error),
            Ok(methods) => method_rows(
                data,
                kind,
                targets,
                class,
                methods,
                methods.len() as int,
            ),
        }
    }
}

/// The rows of the first `n` classes of a file.
pub open spec fn scan_rows(data: Seq<u8>, kind: ReferenceKind, targets: Set<u32>, n: int) -> Result<
    Seq<RowView>,
    Error,
>
    decreases n,
{
    if n <= 0 {
        Ok(Seq::empty())
    } else {
        match scan_rows(data, kind, targets, n - 1) {
            Err(error) => Err(error),
            Ok(front) => match class_rows(data, kind, targets, n - 1) {
                Err(error) => Err(error),
                Ok(last) => Ok(front + last),
            },
        }
    }
}

/// The rows of a file that a query finds.
pub open spec fn references_of(data: Seq<u8>, query: QueryView) -> Result<Seq<RowView>, Error> {
    match dex_error(data) {
        Some(error) => Err(error),
        None => match query_targets(data, query) {
            Err(error) => Err(error),
            Ok(targets) => if targets.len() == 0 {
                Ok(Seq::empty())
            } else {
                scan_rows(
                    data,
                    query_kind(query),
                    targets.to_set(),
                    table_size(data, Table::Classes),
                )
            },
        },
    }
}

/// The outcome of a call that returns rows, with the rows as views.
pub open spec fn rows_outcome(result: Result<Vec<ReferenceRow>, Error>) -> Result<
    Seq<RowView>,
    Error,
> {
    match result {
        Ok(rows) => Ok(row_views(rows@)),
        Err(error) => Err(error),
    }
}

/// Moves past `count` field entries.
fn skip_fields(data: &[u8], offset: &mut usize, count: u32) -> (done: Result<(), Error>)
    ensures
        match done {
            Ok(_) => behind_fields(data@, *old(offset) as int, count as int) == Ok::<int, Error>(
                *final(offset) as int,
            ),
            Err(error) => behind_fields(data@, *old(offset) as int, count as int) == Err::<
                int,
                Error,
            >(error),
        },
{
    let ghost all = behind_fields(data@, *offset as int, count as int);
    let mut k: u32 = 0;
    while k < count
        invariant
            all == behind_fields(data@, *old(offset) as int, count as int),
            k <= count,
            all == behind_fields(data@, *offset as int, count - k),
        decreases count - k,
    {
        match read_uleb(data, offset) {
            Ok(_difference) => {},
            Err(error) => {
                return Err(error);
            },
        }
        match read_uleb(data, offset) {
            Ok(_flags) => {},
            Err(error) => {
                return Err(error);
            },
        }
        k = k + 1;
    }
    Ok(())
}

/// Reads the method entry at `offset` and moves past it.
fn read_code_entry(data: &[u8], offset: &mut usize, index: u32) -> (entry: Result<(u32, u32), Error>)
    ensures
        match entry {
            Ok(entry) => code_entry(data@, *old(offset) as int, index as int) == Ok::<
                ((u32, u32), int),
                Error,
            >((entry, *final(offset) as int)),
            Err(error) => code_entry(data@, *old(offset) as int, index as int) == Err::<
                ((u32, u32), int),
                Error,
            >(error),
        },
{
    let difference = match read_uleb(data, offset) {
        Ok(difference) => difference,
        Err(error) => {
            return Err(error);
        },
    };
    match read_uleb(data, offset) {
        Ok(_flags) => {},
        Err(error) => {
            return Err(error);
        },
    }
    let code = match read_uleb(data, offset) {
        Ok(code) => code,
        Err(error) => {
            return Err(error);
        },
    };
    match index.checked_add(difference) {
        Some(next) => Ok((next, code)),
        None => Err(Error::MemberIndexOverflow { table: Table::Methods }),
    }
}

/// Reads `count` method entries and moves past them.
fn read_codes(data: &[u8], offset: &mut usize, count: u32) -> (codes: Result<Vec<(u32, u32)>, Error>)
    ensures
        match codes {
            Ok(codes) => codes_from(data@, *old(offset) as int, 0, count as int) == Ok::<
                (Seq<(u32, u32)>, int),
                Error,
            >((codes@, *final(offset) as int)),
            Err(error) => codes_from(data@, *old(offset) as int, 0, count as int) == Err::<
                (Seq<(u32, u32)>, int),
                Error,
            >(error),
        },
{
    let ghost all = codes_from(data@, *offset as int, 0, count as int);
    let mut codes: Vec<(u32, u32)> = Vec::new();
    let mut index: u32 = 0;
    let mut k: u32 = 0;
    while k < count
        invariant
            all == codes_from(data@, *old(offset) as int, 0, count as int),
            k <= count,
            match codes_from(data@, *offset as int, index as int, count - k) {
                Ok(rest) => all == Ok::<(Seq<(u32, u32)>, int), Error>((codes@ + rest.0, rest.1)),
                Err(error) => all == Err::<(Seq<(u32, u32)>, int), Error>(error),
            },
        decreases count - k,
    {
        match read_code_entry(data, offset, index) {
            Ok(entry) => {
                let ghost before = codes@;
                codes.push(entry);
                index = entry.0;
                proof {
                    let rest = codes_from(data@, *offset as int, index as int, count - k - 1);
                    if rest is Ok {
                        assert(before + (seq![entry] + rest->Ok_0.0) =~= codes@ + rest->Ok_0.0);
                    }
                }
            },
            Err(error) => {
                return Err(error);
            },
        }
        k = k + 1;
    }
    assert(codes@ + Seq::<(u32, u32)>::empty() =~= codes@);
    Ok(codes)
}

/// Reads the methods of the class whose data stands at `at`.
fn read_class_codes(data: &[u8], at: usize) -> (codes: Result<Vec<(u32, u32)>, Error>)
    ensures
        match codes {
            Ok(codes) => class_codes(data@, at as int) == Ok::<Seq<(u32, u32)>, Error>(codes@),
            Err(error) => class_codes(data@, at as int) == Err::<Seq<(u32, u32)>, Error>(error),
        },
{
    let mut offset: usize = at;
    let statics = match read_uleb(data, &mut offset) {
        Ok(size) => size,
        Err(error) => {
            return Err(error);
        },
    };
    let instance = match read_uleb(data, &mut offset) {
        Ok(size) => size,
        Err(error) => {
            return Err(error);
        },
    };
    let direct = match read_uleb(data, &mut offset) {
        Ok(size) => size,
        Err(error) => {
            return Err(error);
        },
    };
    let virtuals = match read_uleb(data, &mut offset) {
        Ok(size) => size,
        Err(error) => {
            return Err(error);
        },
    };
    match skip_fields(data, &mut offset, statics) {
        Ok(_) => {},
        Err(error) => {
            return Err(error);
        },
    }
    match skip_fields(data, &mut offset, instance) {
        Ok(_) => {},
        Err(error) => {
            return Err(error);
        },
    }
    let mut codes = match read_codes(data, &mut offset, direct) {
        Ok(codes) => codes,
        Err(error) => {
            return Err(error);
        },
    };
    let mut more = match read_codes(data, &mut offset, virtuals) {
        Ok(codes) => codes,
        Err(error) => {
            return Err(error);
        },
    };
    let ghost first = codes@;
    let ghost second = more@;
    codes.append(&mut more);
    assert(codes@ =~= first + second);
    Ok(codes)
}

/// The instructions of the code at `at`.
fn read_instructions(data: &[u8], at: usize) -> (code: Result<&[u8], Error>)
    ensures
        match code {
            Ok(code) => instructions(data@, at as int) == Ok::<Seq<u8>, Error>(code@),
            Err(error) => instructions(data@, at as int) == Err::<Seq<u8>, Error>(error),
        },
{
    let len: usize = data.len();
    if len < 16 || at > len - 16 {
        return Err(Error::Truncated { offset: at });
    }
    let units: u32 = match crate::bytes::read_u32(data, at + 12) {
        Ok(units) => units,
        Err(_error) => {
            return Err(Error::Truncated { offset: at });
        },
    };
    let start: usize = at + 16;
    if 2 * units as u64 > (len - start) as u64 {
        return Err(Error::Truncated { offset: at });
    }
    Ok(vstd::slice::slice_subrange(data, start, start + 2 * units as usize))
}

/// Whether an index stands in a list.
fn lists(list: &Vec<u32>, index: u32) -> (found: bool)
    ensures
        found == list@.contains(index),
{
    for i in 0..list.len()
        invariant
            forall|j: int| 0 <= j < i ==> list@[j] != index,
    {
        if list[i] == index {
            return true;
        }
    }
    false
}

/// Indices, each once and in the order they first occur in.
fn each_once(indices: Vec<u32>) -> (once: Vec<u32>)
    ensures
        once@ == distinct(indices@),
{
    let mut once: Vec<u32> = Vec::new();
    assert(indices@.take(0) =~= Seq::empty());
    for i in 0..indices.len()
        invariant
            once@ == distinct(indices@.take(i as int)),
    {
        let index = indices[i];
        proof {
            assert(indices@.take(i + 1).drop_last() =~= indices@.take(i as int));
            assert(indices@.take(i + 1).last() == index);
        }
        if !lists(&once, index) {
            once.push(index);
        }
    }
    assert(indices@.take(indices@.len() as int) =~= indices@);
    once
}

impl<'a> Dex<'a> {
    /// The given targets as they are shown, with a comma between each two.
    fn show_targets(&self, kind: ReferenceKind, indices: &Vec<u32>) -> (text: Result<String, Error>)
        requires
            self.valid(),
        ensures
            match text {
                Ok(text) => collect(
                    indices@.len() as int,
                    target_texts(self.data@, kind, indices@),
                ) matches Ok(texts) && text@ == listed(texts),
                Err(error) => collect(
                    indices@.len() as int,
                    target_texts(self.data@, kind, indices@),
                ) == Err::<Seq<Seq<char>>, Error>(error),
            },
    {
        let ghost f = target_texts(self.data@, kind, indices@);
        let count: usize = indices.len();
        let ghost mut texts: Seq<Seq<char>> = Seq::empty();
        let mut text = String::new();
        let mut k: usize = 0;
        while k < count
            invariant
                self.valid(),
                f == target_texts(self.data@, kind, indices@),
                count == indices@.len(),
                k <= count,
                texts.len() == k,
                collect(k as int, f) == Ok::<Seq<Seq<char>>, Error>(texts),
                text@ == listed(texts),
            decreases count - k,
        {
            match self.show_target(kind, indices[k]) {
                Ok(part) => {
                    proof {
                        let before = texts;
                        texts = texts.push(part@);
                        assert(texts.drop_last() =~= before);
                    }
                    if k > 0 {
                        text.push_str(", ");
                    }
                    text.push_str(part.as_str());
                    assert(k == 0 ==> text@ =~= part@);
                },
                Err(error) => {
                    proof {
                        lemma_collect_fails(count as int, k as int, f);
                    }
                    return Err(error);
                },
            }
            k = k + 1;
        }
        Ok(text)
    }

    /// The row of a method that references the given targets.
    fn show_row(&self, kind: ReferenceKind, class: usize, method: u32, found: &Vec<u32>) -> (row:
        Result<ReferenceRow, Error>)
        requires
            self.valid(),
            class < self.header.classes_size,
        ensures
            match row {
                Ok(row) => found_row(self.data@, kind, class as int, method as int, found@) == Ok::<
                    Option<RowView>,
                    Error,
                >(Some(row@)),
                Err(error) => found_row(self.data@, kind, class as int, method as int, found@)
                    == Err::<Option<RowView>, Error>(error),
            },
    {
        if method as usize >= self.header.methods_size {
            return Err(Error::BadIndex { table: Table::Methods, index: method as usize });
        }
        let owner = match self.class_type(class) {
            Ok(owner) => owner,
            Err(error) => {
                return Err(error);
            },
        };
        let mut member = match self.type_text(owner) {
            Ok(text) => text,
            Err(error) => {
                return Err(error);
            },
        };
        match self.string(name_of(self, Table::Methods, method as usize)) {
            Ok(name) => {
                member.push_str("->");
                member.push_str(name.as_str());
            },
            Err(error) => {
                return Err(error);
            },
        }
        match self.show_targets(kind, found) {
            Ok(matched) => Ok(ReferenceRow { member, matched }),
            Err(error) => Err(error),
        }
    }

    /// The row of a method of a class, if it references a target.
    fn scan_method(
        &self,
        kind: ReferenceKind,
        targets: &Targets,
        class: usize,
        method: (u32, u32),
    ) -> (row: Result<Option<ReferenceRow>, Error>)
        requires
            self.valid(),
            class < self.header.classes_size,
        ensures
            match row {
                Ok(Some(row)) => method_row(self.data@, kind, targets@, class as int, method) == Ok::<
                    Option<RowView>,
                    Error,
                >(Some(row@)),
                Ok(None) => method_row(self.data@, kind, targets@, class as int, method) == Ok::<
                    Option<RowView>,
                    Error,
                >(None),
                Err(error) => method_row(self.data@, kind, targets@, class as int, method) == Err::<
                    Option<RowView>,
                    Error,
                >(error),
            },
    {
        if method.1 == 0 {
            return Ok(None);
        }
        let code = match read_instructions(self.data, method.1 as usize) {
            Ok(code) => code,
            Err(error) => {
                return Err(error);
            },
        };
        let found = each_once(scan_code(code, kind, targets));
        if found.len() == 0 {
            return Ok(None);
        }
        match self.show_row(kind, class, method.0, &found) {
            Ok(row) => Ok(Some(row)),
            Err(error) => Err(error),
        }
    }

    /// The rows of the class in the given row of the class table.
    fn scan_class(&self, kind: ReferenceKind, targets: &Targets, class: usize) -> (rows: Result<
        Vec<ReferenceRow>,
        Error,
    >)
        requires
            self.valid(),
            class < self.header.classes_size,
        ensures
            rows_outcome(rows) == class_rows(self.data@, kind, targets@, class as int),
    {
        let ghost data = self.data@;
        let mut rows: Vec<ReferenceRow> = Vec::new();
        assert(row_views(rows@) =~= Seq::empty());
        let at = class_word(self, class, 24);
        if at == 0 {
            return Ok(rows);
        }
        let methods = match read_class_codes(self.data, at as usize) {
            Ok(methods) => methods,
            Err(error) => {
                return Err(error);
            },
        };
        let count: usize = methods.len();
        let ghost all = method_rows(
            data,
            kind,
            targets@,
            class as int,
            methods@,
            methods@.len() as int,
        );
        let mut k: usize = 0;
        while k < count
            invariant
                self.valid(),
                class < self.header.classes_size,
                data == self.data@,
                class_data_off(data, class as int) == at,
                at != 0,
                class_codes(data, at as int) == Ok::<Seq<(u32, u32)>, Error>(methods@),
                count == methods@.len(),
                k <= count,
                method_rows(data, kind, targets@, class as int, methods@, k as int) == Ok::<
                    Seq<RowView>,
                    Error,
                >(row_views(rows@)),
            decreases count - k,
        {
            match self.scan_method(kind, targets, class, methods[k]) {
                Ok(Some(row)) => {
                    let ghost before = rows@;
                    rows.push(row);
                    assert(row_views(rows@) =~= row_views(before).push(row@));
                },
                Ok(None) => {},
                Err(error) => {
                    proof {
                        lemma_method_rows_fail(
                            data,
                            kind,
                            targets@,
                            class as int,
                            methods@,
                            k + 1,
                            count as int,
                        );
                    }
                    return Err(error);
                },
            }
            k = k + 1;
        }
        Ok(rows)
    }

    /// The rows of every method that references a target, in the order of the class table.
    pub fn scan_all_classes(&self, kind: ReferenceKind, targets: &Targets) -> (rows: Result<
        Vec<ReferenceRow>,
        Error,
    >)
        requires
            self.valid(),
        ensures
            rows_outcome(rows) == scan_rows(
                self.data@,
                kind,
                targets@,
                table_size(self.data@, Table::Classes),
            ),
    {
        let ghost data = self.data@;
        let count: usize = self.header.classes_size;
        let mut rows: Vec<ReferenceRow> = Vec::new();
        assert(row_views(rows@) =~= Seq::empty());
        let mut class: usize = 0;
        while class < count
            invariant
                self.valid(),
                data == self.data@,
                count == self.header.classes_size,
                class <= count,
                scan_rows(data, kind, targets@, class as int) == Ok::<Seq<RowView>, Error>(
                    row_views(rows@),
                ),
            decreases count - class,
        {
            match self.scan_class(kind, targets, class) {
                Ok(more) => {
                    let mut more = more;
                    let ghost before = rows@;
                    let ghost added = more@;
                    rows.append(&mut more);
                    proof {
                        assert(rows@ =~= before + added);
                        assert(row_views(rows@) =~= row_views(before) + row_views(added));
                    }
                },
                Err(error) => {
                    proof {
                        lemma_scan_rows_fail(data, kind, targets@, class + 1, count as int);
                    }
                    return Err(error);
                },
            }
            class = class + 1;
        }
        Ok(rows)
    }
}

/// The first method that cannot be read decides.
proof fn lemma_method_rows_fail(
    data: Seq<u8>,
    kind: ReferenceKind,
    targets: Set<u32>,
    class: int,
    methods: Seq<(u32, u32)>,
    k: int,
    n: int,
)
    requires
        k <= n,
        method_rows(data, kind, targets, class, methods, k) is Err,
    ensures
        method_rows(data, kind, targets, class, methods, n) == method_rows(
            data,
            kind,
            targets,
            class,
            methods,
            k,
        ),
    decreases n - k,
{
    if k < n && n > 0 {
        lemma_method_rows_fail(data, kind, targets, class, methods, k, n - 1);
    }
}

/// The first class that cannot be read decides.
proof fn lemma_scan_rows_fail(
    data: Seq<u8>,
    kind: ReferenceKind,
    targets: Set<u32>,
    k: int,
    n: int,
)
    requires
        k <= n,
        scan_rows(data, kind, targets, k) is Err,
    ensures
        scan_rows(data, kind, targets, n) == scan_rows(data, kind, targets, k),
    decreases n - k,
{
    if k < n && n > 0 {
        lemma_scan_rows_fail(data, kind, targets, k, n - 1);
    }
}

/// Every method of a DEX file that references what a query is about, in the order of the class
/// table, direct methods first.
pub fn find_references(data: &[u8], query: &Query) -> (rows: Result<Vec<ReferenceRow>, Error>)
    ensures
        rows_outcome(rows) == references_of(data@, query@),
{
    let dex = match Dex::parse(data) {
        Ok(dex) => dex,
        Err(error) => {
            return Err(error);
        },
    };
    let (kind, indices) = match dex.resolve_targets(query) {
        Ok(found) => found,
        Err(error) => {
            return Err(error);
        },
    };
    if indices.len() == 0 {
        let rows: Vec<ReferenceRow> = Vec::new();
        assert(row_views(rows@) =~= Seq::empty());
        return Ok(rows);
    }
    let targets = Targets::new(indices.as_slice());
    dex.scan_all_classes(kind, &targets)
}

/// Field entries that can be read end where a scan that passes over them goes on.
proof fn lemma_fields_passed(data: Seq<u8>, at: int, index: int, count: int, kind: int)
    requires
        fields_from(data, at, index, count, kind) is Ok,
    ensures
        behind_fields(data, at, count) == Ok::<int, Error>(
            (fields_from(data, at, index, count, kind)->Ok_0).1,
        ),
    decreases count,
{
    if count > 0 {
        let first = field_entry(data, at, index, kind)->Ok_0;
        lemma_fields_passed(data, first.1, first.0.field_index as int, count - 1, kind);
    }
}

/// Method entries that can be read are those that a scan reads.
proof fn lemma_methods_scanned(data: Seq<u8>, at: int, index: int, count: int, kind: int)
    requires
        methods_from(data, at, index, count, kind) is Ok,
    ensures
        codes_from(data, at, index, count) matches Ok(codes) && {
            let methods = methods_from(data, at, index, count, kind)->Ok_0;
            &&& codes.1 == methods.1
            &&& codes.0.len() == methods.0.len()
            &&& forall|k: int|
                0 <= k < methods.0.len() ==> (#[trigger] codes.0[k]).0 == methods.0[k].method_index
        },
    decreases count,
{
    if count > 0 {
        let first = method_entry(data, at, index, kind)->Ok_0;
        let next = first.0.method_index as int;
        lemma_methods_scanned(data, first.1, next, count - 1, kind);
        let rest = methods_from(data, first.1, next, count - 1, kind)->Ok_0;
        let codes = codes_from(data, at, index, count)->Ok_0;
        let more = codes_from(data, first.1, next, count - 1)->Ok_0;
        let methods = methods_from(data, at, index, count, kind)->Ok_0;
        assert forall|k: int| 0 <= k < methods.0.len() implies (#[trigger] codes.0[k]).0
            == methods.0[k].method_index by {
            if k > 0 {
                assert(codes.0[k] == more.0[k - 1]);
                assert(methods.0[k] == rest.0[k - 1]);
            }
        }
    }
}

/// A search reads every method that a class has: its direct methods, then its virtual methods, the
/// same that the member table of the class lists.
pub proof fn law_every_member_is_searched(
    data: Seq<u8>,
    descriptor: Seq<char>,
    class: int,
    members: MembersView,
)
    requires
        class_data_off(data, class) != 0,
        members_of_row(data, descriptor, class) == Ok::<MembersView, Error>(members),
    ensures
        class_codes(data, class_data_off(data, class)) matches Ok(codes) && {
            &&& codes.len() == members.direct_methods.len() + members.virtual_methods.len()
            &&& forall|k: int|
                0 <= k < members.direct_methods.len() ==> (#[trigger] codes[k]).0
                    == members.direct_methods[k].method_index
            &&& forall|k: int|
                0 <= k < members.virtual_methods.len() ==> codes[members.direct_methods.len() + k].0
                    == (#[trigger] members.virtual_methods[k]).method_index
        },
{
    let at = class_data_off(data, class);
    let kind = class_type(data, class);
    let counts = member_counts(data, at)->Ok_0;
    let statics = fields_from(data, counts.4, 0, counts.0, kind)->Ok_0;
    let instance = fields_from(data, statics.1, 0, counts.1, kind)->Ok_0;
    let direct = methods_from(data, instance.1, 0, counts.2, kind)->Ok_0;
    lemma_fields_passed(data, counts.4, 0, counts.0, kind);
    lemma_fields_passed(data, statics.1, 0, counts.1, kind);
    lemma_methods_scanned(data, instance.1, 0, counts.2, kind);
    lemma_methods_scanned(data, direct.1, 0, counts.3, kind);
    let codes = class_codes(data, at)->Ok_0;
    let first = (codes_from(data, instance.1, 0, counts.2)->Ok_0).0;
    let second = (codes_from(data, direct.1, 0, counts.3)->Ok_0).0;
    assert(codes == first + second);
    assert forall|k: int| 0 <= k < members.virtual_methods.len() implies codes[
        members.direct_methods.len() + k
    ].0 == (#[trigger] members.virtual_methods[k]).method_index by {
        assert(codes[first.len() + k] == second[k]);
    }
}

proof fn lemma_codes_count(data: Seq<u8>, at: int, index: int, count: int)
    requires
        0 <= count,
        codes_from(data, at, index, count) is Ok,
    ensures
        (codes_from(data, at, index, count)->Ok_0).0.len() == count,
    decreases count,
{
    if count > 0 {
        let first = code_entry(data, at, index)->Ok_0;
        lemma_codes_count(data, first.1, first.0.0 as int, count - 1);
    }
}

/// As many methods of a class are searched as its class data counts: the third and the fourth of
/// the numbers that it starts with.
pub proof fn law_every_counted_method_is_searched(data: Seq<u8>, at: int, ends: (int, int, int, int))
    requires
        class_codes(data, at) is Ok,
        uleb_at(data, at) is Some && ends.0 == (uleb_at(data, at)->0).1,
        uleb_at(data, ends.0) is Some && ends.1 == (uleb_at(data, ends.0)->0).1,
    ensures
        class_codes(data, at)->Ok_0.len() == (uleb_at(data, ends.1)->0).0 + (uleb_at(
            data,
            (uleb_at(data, ends.1)->0).1,
        )->0).0,
{
    let counts = member_counts(data, at)->Ok_0;
    let third = (uleb_at(data, ends.1)->0).1;
    lemma_uleb_range(data, ends.1, 0);
    lemma_uleb_range(data, third, 0);
    let statics = behind_fields(data, counts.4, counts.0)->Ok_0;
    let instance = behind_fields(data, statics, counts.1)->Ok_0;
    lemma_codes_count(data, instance, 0, counts.2);
    let directs = codes_from(data, instance, 0, counts.2)->Ok_0;
    lemma_codes_count(data, directs.1, 0, counts.3);
}

proof fn lemma_method_rows_hold(
    data: Seq<u8>,
    kind: ReferenceKind,
    targets: Set<u32>,
    class: int,
    methods: Seq<(u32, u32)>,
    n: int,
    k: int,
)
    requires
        0 <= k < n,
        method_rows(data, kind, targets, class, methods, n) is Ok,
    ensures
        method_row(data, kind, targets, class, methods[k]) matches Ok(row) && (row is Some
            ==> method_rows(data, kind, targets, class, methods, n)->Ok_0.contains(row->0)),
    decreases n,
{
    let front = method_rows(data, kind, targets, class, methods, n - 1)->Ok_0;
    let all = method_rows(data, kind, targets, class, methods, n)->Ok_0;
    if k < n - 1 {
        lemma_method_rows_hold(data, kind, targets, class, methods, n - 1, k);
        let row = method_row(data, kind, targets, class, methods[k])->Ok_0;
        if row is Some {
            let i = choose|i: int| 0 <= i < front.len() && front[i] == row->0;
            assert(all[i] == row->0);
        }
    } else {
        let row = method_row(data, kind, targets, class, methods[k])->Ok_0;
        if row is Some {
            assert(all[all.len() - 1] == row->0);
        }
    }
}

/// The rows of the first `n` of some parts, one behind the other.
spec fn chained(part: spec_fn(int) -> Result<Seq<RowView>, Error>, n: int) -> Result<
    Seq<RowView>,
    Error,
>
    decreases n,
{
    if n <= 0 {
        Ok(Seq::empty())
    } else {
        match (chained(part, n - 1), part(n - 1)) {
            (Ok(front), Ok(last)) => Ok(front + last),
            (Err(error), _) => Err(error),
            (_, Err(error)) => Err(error),
        }
    }
}

proof fn lemma_scan_is_chained(data: Seq<u8>, kind: ReferenceKind, targets: Set<u32>, n: int)
    ensures
        scan_rows(data, kind, targets, n) == chained(
            |class: int| class_rows(data, kind, targets, class),
            n,
        ),
    decreases n,
{
    if n > 0 {
        lemma_scan_is_chained(data, kind, targets, n - 1);
    }
}

proof fn lemma_chained_hold(
    part: spec_fn(int) -> Result<Seq<RowView>, Error>,
    n: int,
    k: int,
    row: RowView,
)
    requires
        0 <= k < n,
        chained(part, n) is Ok,
    ensures
        part(k) is Ok,
        part(k)->Ok_0.contains(row) ==> chained(part, n)->Ok_0.contains(row),
    decreases n,
{
    lemma_rows_of_both(chained(part, n - 1)->Ok_0, part(n - 1)->Ok_0, row);
    if k < n - 1 {
        lemma_chained_hold(part, n - 1, k, row);
    }
}

proof fn lemma_scan_rows_hold(
    data: Seq<u8>,
    kind: ReferenceKind,
    targets: Set<u32>,
    n: int,
    class: int,
    rows: Seq<RowView>,
    row: RowView,
)
    requires
        0 <= class < n,
        scan_rows(data, kind, targets, n) == Ok::<Seq<RowView>, Error>(rows),
    ensures
        class_rows(data, kind, targets, class) matches Ok(part) && (part.contains(row)
            ==> rows.contains(row)),
{
    lemma_scan_is_chained(data, kind, targets, n);
    lemma_chained_hold(|class: int| class_rows(data, kind, targets, class), n, class, row);
}

proof fn lemma_rows_of_both(front: Seq<RowView>, last: Seq<RowView>, row: RowView)
    ensures
        front.contains(row) || last.contains(row) ==> (front + last).contains(row),
{
    let all = front + last;
    if front.contains(row) {
        let i = choose|i: int| 0 <= i < front.len() && front[i] == row;
        assert(all[i] == row);
    } else if last.contains(row) {
        let i = choose|i: int| 0 <= i < last.len() && last[i] == row;
        assert(all[front.len() + i] == row);
    }
}

/// What occurs among indices occurs among them once each.
proof fn lemma_distinct_keeps(indices: Seq<u32>, index: u32)
    ensures
        distinct(indices).contains(index) == indices.contains(index),
    decreases indices.len(),
{
    if indices.len() > 0 {
        let front = indices.drop_last();
        lemma_distinct_keeps(front, index);
        let kept = distinct(front);
        assert(indices =~= front.push(indices.last()));
        if front.contains(index) {
            let i = choose|i: int| 0 <= i < front.len() && front[i] == index;
            assert(indices[i] == index);
            let j = choose|j: int| 0 <= j < kept.len() && kept[j] == index;
            assert(distinct(indices)[j] == index);
        }
        if indices.last() == index {
            assert(indices[indices.len() - 1] == index);
            lemma_distinct_keeps(front, indices.last());
            if !kept.contains(index) {
                assert(distinct(indices)[kept.len() as int] == index);
            }
        }
        if indices.contains(index) && !front.contains(index) {
            let i = choose|i: int| 0 <= i < indices.len() && indices[i] == index;
            if i < front.len() {
                assert(front[i] == index);
            }
        }
        if distinct(indices).contains(index) {
            let j = choose|j: int| 0 <= j < distinct(indices).len() && distinct(indices)[j] == index;
            if j < kept.len() {
                assert(kept[j] == index);
            }
        }
    }
}

/// A search that succeeds has a row for every method of every class whose code references a target,
/// under the descriptor of the class and the name of the method. `members` are those of the class:
/// direct and virtual methods alike.
pub proof fn law_every_referencing_method_has_a_row(
    data: Seq<u8>,
    query: QueryView,
    rows: Seq<RowView>,
    descriptor: Seq<char>,
    class: int,
    members: MembersView,
    method: MethodView,
    code: u32,
    index: u32,
)
    requires
        references_of(data, query) == Ok::<Seq<RowView>, Error>(rows),
        0 <= class < table_size(data, Table::Classes),
        class_data_off(data, class) != 0,
        members_of_row(data, descriptor, class) == Ok::<MembersView, Error>(members),
        shown_result(raw_type(data, class_type(data, class))) == Ok::<Seq<char>, Error>(descriptor),
        members.direct_methods.contains(method) || members.virtual_methods.contains(method),
        has_code(data, class, method.method_index, code),
        code != 0,
        instructions(data, code as int) matches Ok(units) && references_in(
            units,
            query_kind(query),
            query_targets(data, query)->Ok_0.to_set(),
        ).contains(index),
    ensures
        exists|row: RowView| #[trigger]
            rows.contains(row) && row.member == descriptor + "->"@ + method.name,
{
    let kind = query_kind(query);
    let targets = query_targets(data, query)->Ok_0.to_set();
    let at = class_data_off(data, class);
    let codes = class_codes(data, at)->Ok_0;
    let n = table_size(data, Table::Classes);
    let units = instructions(data, code as int)->Ok_0;
    let found = distinct(references_in(units, kind, targets));
    lemma_reference_is_of_a_target(units, 0, kind, targets, index);
    let listed_targets = query_targets(data, query)->Ok_0;
    assert(listed_targets.len() > 0) by {
        assert(targets.contains(index));
        assert(listed_targets.contains(index));
    }
    lemma_distinct_keeps(references_in(units, kind, targets), index);
    assert(found.len() > 0);
    let k = choose|k: int| 0 <= k < codes.len() && codes[k] == (method.method_index, code);
    assert(codes.contains((method.method_index, code)));
    let one = arbitrary::<RowView>();
    lemma_scan_rows_hold(data, kind, targets, n, class, rows, one);
    lemma_method_rows_hold(data, kind, targets, class, codes, codes.len() as int, k);
    let row = (method_row(data, kind, targets, class, codes[k])->Ok_0)->0;
    lemma_scan_rows_hold(data, kind, targets, n, class, rows, row);
    lemma_row_name(data, descriptor, class, members, method);
    assert(row.member == descriptor + "->"@ + method.name);
    assert(rows.contains(row));
}

/// Whether the method of a class with the given index has its code at `code`.
pub open spec fn has_code(data: Seq<u8>, class: int, method: u32, code: u32) -> bool {
    class_codes(data, class_data_off(data, class)) matches Ok(codes) && codes.contains(
        (method, code),
    )
}

/// What references are found are references to targets.
proof fn lemma_reference_is_of_a_target(
    code: Seq<u8>,
    at: int,
    kind: ReferenceKind,
    targets: Set<u32>,
    index: u32,
)
    requires
        references_from(code, at, kind, targets).contains(index),
    ensures
        targets.contains(index),
    decreases code.len() - at,
{
    let rest = references_from(code, behind(code, at), kind, targets);
    if !targets.contains(index) {
        let all = references_from(code, at, kind, targets);
        let i = choose|i: int| 0 <= i < all.len() && all[i] == index;
        if all.len() > rest.len() {
            assert(all[i] == rest[i - 1]);
        } else {
            assert(all == rest);
        }
        assert(rest.contains(index));
        lemma_reference_is_of_a_target(code, behind(code, at), kind, targets, index);
    }
}

/// The name that a row shows of a method is that of the method.
proof fn lemma_row_name(
    data: Seq<u8>,
    descriptor: Seq<char>,
    class: int,
    members: MembersView,
    method: MethodView,
)
    requires
        class_data_off(data, class) != 0,
        members_of_row(data, descriptor, class) == Ok::<MembersView, Error>(members),
        members.direct_methods.contains(method) || members.virtual_methods.contains(method),
    ensures
        shown_result(
            raw_string(data, member_name_idx(data, Table::Methods, method.method_index as int)),
        ) == Ok::<Seq<char>, Error>(method.name),
{
    let at = class_data_off(data, class);
    let kind = class_type(data, class);
    let counts = member_counts(data, at)->Ok_0;
    let statics = fields_from(data, counts.4, 0, counts.0, kind)->Ok_0;
    let instance = fields_from(data, statics.1, 0, counts.1, kind)->Ok_0;
    let direct = methods_from(data, instance.1, 0, counts.2, kind)->Ok_0;
    lemma_methods_are_their_rows(data, instance.1, 0, counts.2, kind);
    lemma_methods_are_their_rows(data, direct.1, 0, counts.3, kind);
    if members.direct_methods.contains(method) {
        let i = choose|i: int|
            0 <= i < members.direct_methods.len() && members.direct_methods[i] == method;
        assert(method_is_its_row(data, members.direct_methods[i]));
    } else {
        let i = choose|i: int|
            0 <= i < members.virtual_methods.len() && members.virtual_methods[i] == method;
        assert(method_is_its_row(data, members.virtual_methods[i]));
    }
}

/// A list of texts holds each of them.
proof fn lemma_listed_holds(texts: Seq<Seq<char>>, k: int)
    requires
        0 <= k < texts.len(),
    ensures
        occurs(listed(texts), texts[k]),
    decreases texts.len(),
{
    let text = listed(texts);
    if texts.len() == 1 {
        assert(text.subrange(0, text.len() as int) =~= texts[k]);
        assert(occurs_at(text, texts[k], 0));
    } else {
        let front = listed(texts.drop_last());
        if k < texts.len() - 1 {
            lemma_listed_holds(texts.drop_last(), k);
            let at = choose|at: int| #[trigger] occurs_at(front, texts[k], at);
            assert(text.subrange(at, at + texts[k].len()) =~= front.subrange(
                at,
                at + texts[k].len(),
            ));
            assert(occurs_at(text, texts[k], at));
        } else {
            let at = (front.len() + ", "@.len()) as int;
            assert(text.subrange(at, at + texts[k].len()) =~= texts[k]);
            assert(occurs_at(text, texts[k], at));
        }
    }
}

/// The indices that are kept are all different.
proof fn lemma_distinct_differ(indices: Seq<u32>)
    ensures
        distinct(indices).no_duplicates(),
    decreases indices.len(),
{
    if indices.len() > 0 {
        lemma_distinct_differ(indices.drop_last());
    }
}

/// The row of a method names the method and every target that its code references, each target once;
/// and a method whose code references no target has no row.
pub proof fn law_row_names_what_the_code_references(
    data: Seq<u8>,
    kind: ReferenceKind,
    targets: Set<u32>,
    class: int,
    method: (u32, u32),
    code: Seq<u8>,
    index: u32,
)
    requires
        method.1 != 0,
        instructions(data, method.1 as int) == Ok::<Seq<u8>, Error>(code),
        method_row(data, kind, targets, class, method) is Ok,
    ensures
        references_in(code, kind, targets).contains(index) ==> {
            let row = method_row(data, kind, targets, class, method)->Ok_0;
            &&& row is Some
            &&& target_text(data, kind, index as int) is Ok
            &&& occurs(row->0.matched, target_text(data, kind, index as int)->Ok_0)
        },
        references_in(code, kind, targets).len() == 0 ==> method_row(
            data,
            kind,
            targets,
            class,
            method,
        )->Ok_0 is None,
        distinct(references_in(code, kind, targets)).no_duplicates(),
{
    let all = references_in(code, kind, targets);
    let found = distinct(all);
    lemma_distinct_differ(all);
    if all.contains(index) {
        lemma_distinct_keeps(all, index);
        let k = choose|k: int| 0 <= k < found.len() && found[k] == index;
        let f = target_texts(data, kind, found);
        lemma_collect_succeeds(found.len() as int, f);
        let texts = collect(found.len() as int, f)->Ok_0;
        assert(f(k) == Ok::<Seq<char>, Error>(texts[k]));
        lemma_listed_holds(texts, k);
    }
    if found.len() > 0 && all.len() == 0 {
        lemma_distinct_keeps(all, found[0]);
        assert(found.contains(found[0]));
    }
}

proof fn lemma_rows_come_from_methods(
    data: Seq<u8>,
    kind: ReferenceKind,
    targets: Set<u32>,
    class: int,
    methods: Seq<(u32, u32)>,
    n: int,
    i: int,
) -> (k: int)
    requires
        method_rows(data, kind, targets, class, methods, n) is Ok,
        0 <= i < method_rows(data, kind, targets, class, methods, n)->Ok_0.len(),
    ensures
        0 <= k < n,
        method_row(data, kind, targets, class, methods[k]) == Ok::<Option<RowView>, Error>(
            Some(method_rows(data, kind, targets, class, methods, n)->Ok_0[i]),
        ),
    decreases n,
{
    let front = method_rows(data, kind, targets, class, methods, n - 1)->Ok_0;
    if i < front.len() {
        lemma_rows_come_from_methods(data, kind, targets, class, methods, n - 1, i)
    } else {
        n - 1
    }
}

proof fn lemma_rows_come_from_classes(
    data: Seq<u8>,
    kind: ReferenceKind,
    targets: Set<u32>,
    n: int,
    i: int,
) -> (place: (int, int))
    requires
        scan_rows(data, kind, targets, n) is Ok,
        0 <= i < scan_rows(data, kind, targets, n)->Ok_0.len(),
    ensures
        0 <= place.0 < n,
        class_rows(data, kind, targets, place.0) is Ok,
        0 <= place.1 < class_rows(data, kind, targets, place.0)->Ok_0.len(),
        class_rows(data, kind, targets, place.0)->Ok_0[place.1] == scan_rows(
            data,
            kind,
            targets,
            n,
        )->Ok_0[i],
    decreases n,
{
    let front = scan_rows(data, kind, targets, n - 1)->Ok_0;
    if i < front.len() {
        lemma_rows_come_from_classes(data, kind, targets, n - 1, i)
    } else {
        (n - 1, i - front.len())
    }
}

/// Whether a row is that of the method at position `k` of a class, whose code references a target.
pub open spec fn row_is_of(
    data: Seq<u8>,
    kind: ReferenceKind,
    targets: Set<u32>,
    class: int,
    k: int,
    row: RowView,
) -> bool {
    &&& 0 <= class < table_size(data, Table::Classes)
    &&& class_codes(data, class_data_off(data, class)) matches Ok(codes) && {
        &&& 0 <= k < codes.len()
        &&& codes[k].1 != 0
        &&& instructions(data, codes[k].1 as int) matches Ok(code) && references_in(
            code,
            kind,
            targets,
        ).len() > 0
        &&& shown_result(raw_type(data, class_type(data, class))) matches Ok(owner) && shown_result(
            raw_string(data, member_name_idx(data, Table::Methods, codes[k].0 as int)),
        ) matches Ok(name) && row.member == owner + "->"@ + name
    }
}

/// Nothing is reported that is not there: every row of a search is that of a method of a class of
/// the file whose code references a target.
pub proof fn law_every_row_is_a_referencing_method(
    data: Seq<u8>,
    query: QueryView,
    rows: Seq<RowView>,
    i: int,
)
    requires
        references_of(data, query) == Ok::<Seq<RowView>, Error>(rows),
        0 <= i < rows.len(),
    ensures
        exists|class: int, k: int|
            row_is_of(
                data,
                query_kind(query),
                query_targets(data, query)->Ok_0.to_set(),
                class,
                k,
                rows[i],
            ),
{
    let kind = query_kind(query);
    let targets = query_targets(data, query)->Ok_0.to_set();
    let n = table_size(data, Table::Classes);
    let place = lemma_rows_come_from_classes(data, kind, targets, n, i);
    let class = place.0;
    let codes = class_codes(data, class_data_off(data, class))->Ok_0;
    let k = lemma_rows_come_from_methods(
        data,
        kind,
        targets,
        class,
        codes,
        codes.len() as int,
        place.1,
    );
    let code = instructions(data, codes[k].1 as int)->Ok_0;
    let all = references_in(code, kind, targets);
    if all.len() == 0 {
        assert(distinct(all).len() == 0);
    }
    assert(row_is_of(data, kind, targets, class, k, rows[i]));
}

/// The texts of one list and of another behind it are listed as both, with a comma and a blank
/// where they meet.
pub proof fn law_lists_follow_each_other(one: Seq<Seq<char>>, other: Seq<Seq<char>>)
    requires
        one.len() > 0,
        other.len() > 0,
    ensures
        listed(one + other) == listed(one) + seq![',', ' '] + listed(other),
        listed(seq![one[0]]) == one[0],
    decreases other.len(),
{
    reveal_strlit(", ");
    assert(", "@ =~= seq![',', ' ']);
    let all = one + other;
    assert(all.drop_last() =~= one + other.drop_last());
    assert(all.last() == other.last());
    if other.len() == 1 {
        assert(one + other.drop_last() =~= one);
        assert(listed(all) =~= listed(one) + seq![',', ' '] + listed(other));
    } else {
        law_lists_follow_each_other(one, other.drop_last());
        assert(listed(all) =~= listed(one) + seq![',', ' '] + listed(other));
    }
}

/// Taking each index once keeps every index, adds none, and keeps the first of each in its place.
pub proof fn law_each_index_is_kept_once(indices: Seq<u32>, more: u32)
    ensures
        forall|index: u32| distinct(indices).contains(index) <==> #[trigger] indices.contains(index),
        distinct(indices).no_duplicates(),
        indices.contains(more) ==> distinct(indices.push(more)) == distinct(indices),
        !indices.contains(more) ==> distinct(indices.push(more)) == distinct(indices).push(more),
    decreases indices.len(),
{
    if indices.len() > 0 {
        let front = indices.drop_last();
        let last = indices.last();
        law_each_index_is_kept_once(front, last);
        assert(front.push(last) =~= indices);
        let kept = distinct(front);
        assert forall|index: u32| distinct(indices).contains(index) <==> #[trigger] indices.contains(
            index,
        ) by {
            if indices.contains(index) {
                let i = choose|i: int| 0 <= i < indices.len() && indices[i] == index;
                if i < front.len() {
                    assert(front[i] == index);
                    assert(front.contains(index));
                    let k = choose|k: int| 0 <= k < kept.len() && kept[k] == index;
                    assert(distinct(indices)[k] == index);
                } else if !kept.contains(last) {
                    assert(distinct(indices)[kept.len() as int] == last);
                }
            }
            if distinct(indices).contains(index) {
                let k = choose|k: int|
                    0 <= k < distinct(indices).len() && distinct(indices)[k] == index;
                if k < kept.len() {
                    assert(kept.contains(index));
                    assert(front.contains(index));
                    let i = choose|i: int| 0 <= i < front.len() && front[i] == index;
                    assert(indices[i] == index);
                } else {
                    assert(indices[indices.len() - 1] == index);
                }
            }
        }
    }
    assert(indices.push(more).drop_last() =~= indices);
    assert(distinct(indices).contains(more) <==> indices.contains(more));
}

/// A method entry that was written reads back: its index and where its code is, whatever its flags
/// are.
pub proof fn law_method_entry_reads_back(
    data: Seq<u8>,
    at: int,
    index: u32,
    step: u32,
    flags: u32,
    code: u32,
)
    requires
        0 <= at,
        index + step <= u32::MAX,
        occurs_at(
            data,
            written_uleb(step as nat) + (written_uleb(flags as nat) + written_uleb(code as nat)),
            at,
        ),
    ensures
        code_entry(data, at, index as int) == Ok::<((u32, u32), int), Error>(
            (
                ((index + step) as u32, code),
                at + written_uleb(step as nat).len() + written_uleb(flags as nat).len()
                    + written_uleb(code as nat).len(),
            ),
        ),
{
    let first = written_uleb(step as nat);
    let second = written_uleb(flags as nat);
    let third = written_uleb(code as nat);
    lemma_both_occur(data, first, second + third, at);
    lemma_both_occur(data, second, third, at + first.len());
    law_uleb_reads_back(data, at, step);
    law_uleb_reads_back(data, at + first.len(), flags);
    law_uleb_reads_back(data, at + first.len() + second.len(), code);
}

/// Whether `matched` lists the given rows, each of them once, and whether those are the rows that
/// some references are to.
pub open spec fn lists_once(
    data: Seq<u8>,
    kind: ReferenceKind,
    references: Seq<u32>,
    matched: Seq<char>,
    rows: Seq<u32>,
    texts: Seq<Seq<char>>,
) -> bool {
    &&& rows.no_duplicates()
    &&& forall|row: u32| rows.contains(row) <==> #[trigger] references.contains(row)
    &&& texts.len() == rows.len()
    &&& forall|k: int|
        0 <= k < rows.len() ==> target_text(data, kind, (#[trigger] rows[k]) as int) == Ok::<
            Seq<char>,
            Error,
        >(texts[k])
    &&& matched == listed(texts)
}

/// The row of a method lists every target that its code references, and each of them once.
pub proof fn law_a_row_lists_each_target_once(
    data: Seq<u8>,
    kind: ReferenceKind,
    targets: Set<u32>,
    class: int,
    method: (u32, u32),
    code: Seq<u8>,
    row: RowView,
)
    requires
        instructions(data, method.1 as int) == Ok::<Seq<u8>, Error>(code),
        method_row(data, kind, targets, class, method) == Ok::<Option<RowView>, Error>(Some(row)),
    ensures
        exists|rows: Seq<u32>, texts: Seq<Seq<char>>| #[trigger]
            lists_once(data, kind, references_in(code, kind, targets), row.matched, rows, texts),
{
    let all = references_in(code, kind, targets);
    let rows = distinct(all);
    law_each_index_is_kept_once(all, 0);
    let f = target_texts(data, kind, rows);
    lemma_collect_succeeds(rows.len() as int, f);
    let texts = collect(rows.len() as int, f)->Ok_0;
    assert forall|k: int| 0 <= k < rows.len() implies target_text(
        data,
        kind,
        (#[trigger] rows[k]) as int,
    ) == Ok::<Seq<char>, Error>(texts[k]) by {
        assert(f(k) == Ok::<Seq<char>, Error>(texts[k]));
    }
    assert(lists_once(data, kind, all, row.matched, rows, texts));
}

} // verus!
