//! From an index that a runtime reports to the member behind it.
use super::members::{
    class_members, field_at, field_line, field_line_text, field_lines, lines_of, members_of,
    method_line, method_position, method_row_line, row_line, MembersView, MethodView,
};
use super::Dex;
use crate::error::Error;
use crate::seqs::{collect, lemma_collect_succeeds, lemma_first_where_is};
use vstd::prelude::*;

verus! {

/// What one DEX file says of an index of a class.
#[derive(Debug, PartialEq, Eq)]
pub enum Answer {
    /// The file does not define the class.
    Undefined,
    /// The class declares no member with that index.
    NoSuchIndex,
    /// The line of the member.
    Row(String),
}

/// An answer, with its line as characters.
pub enum AnswerView {
    Undefined,
    NoSuchIndex,
    Row(Seq<char>),
}

impl View for Answer {
    type V = AnswerView;

    open spec fn view(&self) -> AnswerView {
        match self {
            Answer::Undefined => AnswerView::Undefined,
            Answer::NoSuchIndex => AnswerView::NoSuchIndex,
            Answer::Row(line) => AnswerView::Row(line@),
        }
    }
}

/// The outcome of a lookup, with the answer as a view.
pub open spec fn answer_outcome(result: Result<Answer, Error>) -> Result<AnswerView, Error> {
    match result {
        Ok(answer) => Ok(answer@),
        Err(error) => Err(error),
    }
}

/// What a file says of the field of a class at a position: instance fields first, then statics.
pub open spec fn field_answer(data: Seq<u8>, descriptor: Seq<char>, position: u32) -> Result<
    AnswerView,
    Error,
> {
    match members_of(data, descriptor) {
        Err(error) => Err(error),
        Ok(None) => Ok(AnswerView::Undefined),
        Ok(Some(members)) => match field_at(members, position as int) {
            None => Ok(AnswerView::NoSuchIndex),
            Some(found) => Ok(
                AnswerView::Row(field_line_text(found.0, position as nat, found.1)),
            ),
        },
    }
}

/// The method of a class with the given `method_ids` index, if it declares one.
pub open spec fn method_at(members: MembersView, index: u32) -> Option<MethodView> {
    let direct = method_position(members.direct_methods, index);
    let virtuals = method_position(members.virtual_methods, index);
    if direct < members.direct_methods.len() {
        Some(members.direct_methods[direct])
    } else if virtuals < members.virtual_methods.len() {
        Some(members.virtual_methods[virtuals])
    } else {
        None
    }
}

/// What a file says of the method of a class with the given `method_ids` index.
pub open spec fn method_answer(data: Seq<u8>, descriptor: Seq<char>, index: u32) -> Result<
    AnswerView,
    Error,
> {
    match members_of(data, descriptor) {
        Err(error) => Err(error),
        Ok(None) => Ok(AnswerView::Undefined),
        Ok(Some(members)) => match method_at(members, index) {
            None => Ok(AnswerView::NoSuchIndex),
            Some(method) => match method_row_line(data, method) {
                Err(error) => Err(error),
                Ok(line) => Ok(AnswerView::Row(line)),
            },
        },
    }
}

/// The line of the field behind the index that a runtime reports: instance fields first, then
/// statics. That is not the `field_ids` index, so the line has that too.
pub fn field_by_index(data: &[u8], descriptor: &str, position: u32) -> (answer: Result<
    Answer,
    Error,
>)
    ensures
        answer_outcome(answer) == field_answer(data@, descriptor@, position),
{
    match class_members(data, descriptor) {
        Err(error) => Err(error),
        Ok(None) => Ok(Answer::Undefined),
        Ok(Some(members)) => match members.field_at_position(position) {
            None => Ok(Answer::NoSuchIndex),
            Some(found) => Ok(Answer::Row(field_line(found.0, position as u64, found.1))),
        },
    }
}

/// The line of the method with the `method_ids` index that a runtime reports.
pub fn method_by_index(data: &[u8], descriptor: &str, index: u32) -> (answer: Result<
    Answer,
    Error,
>)
    ensures
        answer_outcome(answer) == method_answer(data@, descriptor@, index),
{
    let members = match class_members(data, descriptor) {
        Ok(Some(members)) => members,
        Ok(None) => {
            return Ok(Answer::Undefined);
        },
        Err(error) => {
            return Err(error);
        },
    };
    let method = match members.method(index) {
        Some(method) => method,
        None => {
            return Ok(Answer::NoSuchIndex);
        },
    };
    let dex = match Dex::parse(data) {
        Ok(dex) => dex,
        Err(error) => {
            return Err(error);
        },
    };
    match row_line(&dex, method) {
        Ok(line) => Ok(Answer::Row(line)),
        Err(error) => Err(error),
    }
}

/// The line of a field behind an index is the line that the member table has at that position.
pub proof fn law_field_row_is_its_member_line(
    data: Seq<u8>,
    descriptor: Seq<char>,
    position: u32,
    line: Seq<char>,
)
    requires
        field_answer(data, descriptor, position) == Ok::<AnswerView, Error>(AnswerView::Row(line)),
        lines_of(data, members_of(data, descriptor)->Ok_0->0) is Ok,
    ensures
        ({
            let lines = lines_of(data, members_of(data, descriptor)->Ok_0->0)->Ok_0;
            position < lines.len() && lines[position as int] == line
        }),
{
}

/// The line of a method behind an index is one of the lines that the member table has.
pub proof fn law_method_row_is_a_member_line(
    data: Seq<u8>,
    descriptor: Seq<char>,
    index: u32,
    line: Seq<char>,
)
    requires
        method_answer(data, descriptor, index) == Ok::<AnswerView, Error>(AnswerView::Row(line)),
        lines_of(data, members_of(data, descriptor)->Ok_0->0) is Ok,
    ensures
        lines_of(data, members_of(data, descriptor)->Ok_0->0)->Ok_0.contains(line),
{
    let members = members_of(data, descriptor)->Ok_0->0;
    let methods = members.direct_methods + members.virtual_methods;
    let f = method_line(data, members);
    let direct = method_position(members.direct_methods, index);
    let virtuals = method_position(members.virtual_methods, index);
    lemma_first_where_is(
        members.direct_methods,
        |method: MethodView| method.method_index == index,
    );
    lemma_first_where_is(
        members.virtual_methods,
        |method: MethodView| method.method_index == index,
    );
    let k = if direct < members.direct_methods.len() {
        direct
    } else {
        members.direct_methods.len() + virtuals
    };
    assert(methods[k] == method_at(members, index)->0);
    lemma_collect_succeeds(methods.len() as int, f);
    let shown = collect(methods.len() as int, f)->Ok_0;
    assert(f(k) == Ok::<Seq<char>, Error>(shown[k]));
    let lines = lines_of(data, members)->Ok_0;
    assert(lines[field_lines(members).len() + k] == line);
}

/// A method is found by its index whichever of the two lists it is in, and an index that no
/// method has finds none.
pub proof fn law_a_method_is_found_by_its_index(members: MembersView, index: u32)
    ensures
        method_at(members, index) is Some <==> exists|k: int|
            0 <= k < (members.direct_methods + members.virtual_methods).len() && (
            #[trigger] (members.direct_methods + members.virtual_methods)[k]).method_index == index,
        method_at(members, index) matches Some(method) ==> method.method_index == index && (
        members.direct_methods + members.virtual_methods).contains(method),
{
    let wanted = |method: MethodView| method.method_index == index;
    let direct = members.direct_methods;
    let virtuals = members.virtual_methods;
    let all = direct + virtuals;
    lemma_first_where_is(direct, wanted);
    lemma_first_where_is(virtuals, wanted);
    let i = method_position(direct, index);
    let j = method_position(virtuals, index);
    if i < direct.len() {
        assert(wanted(direct[i]));
        assert(all[i] == direct[i]);
        assert(all.contains(direct[i]));
    } else if j < virtuals.len() {
        assert(wanted(virtuals[j]));
        assert(all[direct.len() + j] == virtuals[j]);
        assert(all.contains(virtuals[j]));
    } else {
        assert forall|k: int| 0 <= k < all.len() implies (#[trigger] all[k]).method_index != index by {
            if k < direct.len() {
                assert(!wanted(direct[k]));
            } else {
                assert(!wanted(virtuals[k - direct.len()]));
            }
        }
    }
}

/// The positions of fields run through the instance fields and on through the statics.
pub proof fn law_positions_run_through_the_fields(members: MembersView, position: int)
    requires
        0 <= position,
    ensures
        field_at(members, position) is Some <==> position < members.instance.len()
            + members.statics.len(),
        field_at(members, position) matches Some(found) ==> found.0 == (members.instance
            + members.statics)[position] && (found.1 <==> position >= members.instance.len()),
{
}

} // verus!
