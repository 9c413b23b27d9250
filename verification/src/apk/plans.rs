//! The field layout of one class of an archive.
use super::entries::{dex_entries, parse_dex_entries};
use crate::dex::container::{
    container_magic, is_container, law_standard_view_changes_four_fields, logical_dexes, logical_of,
    logical_views, standard_header, standard_header_view, LogicalDex, LogicalView, CONTAINER_HEADER,
};
use crate::dex::fields::{identified_in, identified_plan};
use crate::dex::members::plan_json;
use crate::dex::texts;
use crate::error::Error;
use crate::seqs::{collect, joined, lemma_collect_fails};
use crate::zip::{
    bytes_outcome, entry_views, inflate_entry, inflates_to, BytesSource, EntryView, ZipEntry,
};
use vstd::prelude::*;

verus! {

/// A logical DEX file as readers of plain files take it: a container member with the header of a
/// plain file, anything else as it is.
pub open spec fn plain_file(data: Seq<u8>) -> Seq<u8> {
    if is_container(data) && data.len() >= CONTAINER_HEADER {
        standard_header(data)
    } else {
        data
    }
}

/// The records of a class in a logical DEX file: one where the file defines the class, none where
/// it does not.
#[verifier::opaque]
pub open spec fn file_plans(data: Seq<u8>, descriptor: Seq<char>) -> Result<Seq<Seq<char>>, Error> {
    match identified_in(plain_file(data), descriptor) {
        Err(error) => Err(error),
        Ok(None) => Ok(Seq::empty()),
        Ok(Some(plan)) => Ok(seq![plan_json(plan)]),
    }
}

/// The records of a class in each logical DEX file of an entry, by position.
pub open spec fn logical_plans(list: Seq<LogicalView>, descriptor: Seq<char>) -> spec_fn(
    int,
) -> Result<Seq<Seq<char>>, Error> {
    |k: int| file_plans(list[k].data, descriptor)
}

/// The records of a class in an entry, given what inflating it gave.
#[verifier::opaque]
pub open spec fn entry_plans(
    name: Seq<char>,
    data: Result<Seq<u8>, Error>,
    descriptor: Seq<char>,
) -> Result<Seq<Seq<char>>, Error> {
    match data {
        Err(error) => Err(error),
        Ok(data) => match logical_of(name, data) {
            Err(error) => Err(error),
            Ok(list) => match collect(list.len() as int, logical_plans(list, descriptor)) {
                Err(error) => Err(error),
                Ok(parts) => Ok(joined(parts)),
            },
        },
    }
}

/// The record of a class in a logical DEX file.
fn logical_plan(logical: &LogicalDex, descriptor: &str) -> (plan: Result<Option<String>, Error>)
    ensures
        file_plans(logical.data@, descriptor@) == (match plan {
            Ok(Some(json)) => Ok::<Seq<Seq<char>>, Error>(seq![json@]),
            Ok(None) => Ok(Seq::empty()),
            Err(error) => Err(error),
        }),
{
    proof {
        reveal(file_plans);
    }
    // A container member carries an extra-long header; the reader wants the standard view.
    let plan = match standard_header_view(logical.data.as_slice()) {
        Some(normalized) => identified_plan(normalized.as_slice(), descriptor),
        None => identified_plan(logical.data.as_slice(), descriptor),
    };
    match plan {
        Ok(Some(plan)) => Ok(Some(plan.render_json())),
        Ok(None) => Ok(None),
        Err(error) => Err(error),
    }
}

/// The records of a class in an entry with the bytes `data`.
pub fn plans_of_data(name: &str, data: &[u8], descriptor: &str) -> (plans: Result<
    Vec<String>,
    Error,
>)
    ensures
        match plans {
            Ok(list) => entry_plans(name@, Ok(data@), descriptor@) == Ok::<Seq<Seq<char>>, Error>(
                texts(list@),
            ),
            Err(error) => entry_plans(name@, Ok(data@), descriptor@) == Err::<
                Seq<Seq<char>>,
                Error,
            >(error),
        },
{
    proof {
        reveal(entry_plans);
    }
    let list = match logical_dexes(name, data) {
        Ok(list) => list,
        Err(error) => {
            return Err(error);
        },
    };
    let ghost views = logical_views(list@);
    let ghost f = logical_plans(views, descriptor@);
    let count: usize = list.len();
    let mut plans: Vec<String> = Vec::new();
    let mut k: usize = 0;
    assert(texts(plans@) =~= joined(Seq::<Seq<Seq<char>>>::empty()));
    while k < count
        invariant
            count == list@.len(),
            views == logical_views(list@),
            logical_of(name@, data@) == Ok::<Seq<LogicalView>, Error>(views),
            f == logical_plans(views, descriptor@),
            k <= count,
            collect(k as int, f) matches Ok(parts) && texts(plans@) == joined(parts),
            entry_plans(name@, Ok(data@), descriptor@) == (match collect(count as int, f) {
                Err(error) => Err::<Seq<Seq<char>>, Error>(error),
                Ok(parts) => Ok(joined(parts)),
            }),
        decreases count - k,
    {
        let logical: &LogicalDex = &list[k];
        assert(views[k as int] == logical@);
        let ghost parts = collect(k as int, f)->Ok_0;
        match logical_plan(logical, descriptor) {
            Ok(Some(json)) => {
                let ghost before = plans@;
                plans.push(json);
                proof {
                    let part = seq![json@];
                    assert(parts.push(part).drop_last() =~= parts);
                    assert(texts(plans@) =~= texts(before) + part);
                }
            },
            Ok(None) => {
                proof {
                    let part = Seq::<Seq<char>>::empty();
                    assert(parts.push(part).drop_last() =~= parts);
                    assert(joined(parts) + part =~= joined(parts));
                }
            },
            Err(error) => {
                proof {
                    lemma_collect_fails(count as int, k as int, f);
                }
                return Err(error);
            },
        }
        k = k + 1;
    }
    Ok(plans)
}

/// The records of a class in the first `n` entries, given what inflating them gave.
pub open spec fn walked_plans(
    entries: Seq<ZipEntry>,
    datas: Seq<Result<Seq<u8>, Error>>,
    descriptor: Seq<char>,
    n: int,
) -> Result<Seq<Seq<char>>, Error>
    decreases n,
{
    if n <= 0 {
        Ok(Seq::empty())
    } else {
        match walked_plans(entries, datas, descriptor, n - 1) {
            Err(error) => Err(error),
            Ok(front) => match entry_plans(entries[n - 1].name@, datas[n - 1], descriptor) {
                Err(error) => Err(error),
                Ok(last) => Ok(front + last),
            },
        }
    }
}

/// Whether `datas` is what inflating the entries in order gave, up to the first that fails.
pub open spec fn plan_reads(
    bytes: Seq<u8>,
    entries: Seq<ZipEntry>,
    max_inflated: usize,
    descriptor: Seq<char>,
    datas: Seq<Result<Seq<u8>, Error>>,
) -> bool {
    &&& datas.len() <= entries.len()
    &&& forall|i: int|
        0 <= i < datas.len() ==> inflates_to(bytes, entries[i], max_inflated, #[trigger] datas[i])
    &&& forall|n: int|
        0 <= n < datas.len() ==> (#[trigger] walked_plans(entries, datas, descriptor, n)) is Ok
}

/// Whether `result` is the first record of a class in the entries that were read: every entry is
/// read, and has to be readable, before one is handed out.
pub open spec fn first_plan(
    entries: Seq<ZipEntry>,
    datas: Seq<Result<Seq<u8>, Error>>,
    descriptor: Seq<char>,
    result: Result<Option<Seq<char>>, Error>,
) -> bool {
    match walked_plans(entries, datas, descriptor, datas.len() as int) {
        Err(error) => result == Err::<Option<Seq<char>>, Error>(error),
        Ok(plans) => datas.len() == entries.len() && result == Ok::<Option<Seq<char>>, Error>(
            if plans.len() == 0 {
                None
            } else {
                Some(plans[0])
            },
        ),
    }
}

/// Whether `result` is the first record of a class in the given entries.
pub open spec fn plans_entries(
    bytes: Seq<u8>,
    entries: Seq<ZipEntry>,
    max_inflated: usize,
    descriptor: Seq<char>,
    result: Result<Option<Seq<char>>, Error>,
) -> bool {
    exists|datas: Seq<Result<Seq<u8>, Error>>| #[trigger]
        plan_reads(bytes, entries, max_inflated, descriptor, datas) && first_plan(
            entries,
            datas,
            descriptor,
            result,
        )
}

/// Whether `result` is the first record of a class in an archive.
pub open spec fn plans_archive(
    bytes: Seq<u8>,
    threads: usize,
    max_inflated: usize,
    descriptor: Seq<char>,
    result: Result<Option<Seq<char>>, Error>,
) -> bool {
    match (threads, dex_entries(bytes)) {
        (0, _) => result == Err::<Option<Seq<char>>, Error>(Error::NoWorkers),
        (_, Err(error)) => result == Err::<Option<Seq<char>>, Error>(error),
        (_, Ok(views)) => exists|entries: Seq<ZipEntry>| #[trigger]
            entry_views(entries) == views && plans_entries(
                bytes,
                entries,
                max_inflated,
                descriptor,
                result,
            ),
    }
}

/// The outcome of a call that may return a text, with the text as characters.
pub open spec fn plan_outcome(result: Result<Option<String>, Error>) -> Result<
    Option<Seq<char>>,
    Error,
> {
    match result {
        Ok(Some(text)) => Ok(Some(text@)),
        Ok(None) => Ok(None),
        Err(error) => Err(error),
    }
}

proof fn lemma_plans_prefix(
    entries: Seq<ZipEntry>,
    datas: Seq<Result<Seq<u8>, Error>>,
    data: Result<Seq<u8>, Error>,
    descriptor: Seq<char>,
    n: int,
)
    requires
        n <= datas.len(),
    ensures
        walked_plans(entries, datas.push(data), descriptor, n) == walked_plans(
            entries,
            datas,
            descriptor,
            n,
        ),
    decreases n,
{
    if n > 0 {
        lemma_plans_prefix(entries, datas, data, descriptor, n - 1);
        assert(datas.push(data)[n - 1] == datas[n - 1]);
    }
}

proof fn lemma_plan_reads_grow(
    bytes: Seq<u8>,
    entries: Seq<ZipEntry>,
    max_inflated: usize,
    descriptor: Seq<char>,
    datas: Seq<Result<Seq<u8>, Error>>,
    data: Result<Seq<u8>, Error>,
)
    requires
        plan_reads(bytes, entries, max_inflated, descriptor, datas),
        datas.len() < entries.len(),
        inflates_to(bytes, entries[datas.len() as int], max_inflated, data),
        walked_plans(entries, datas, descriptor, datas.len() as int) is Ok,
    ensures
        plan_reads(bytes, entries, max_inflated, descriptor, datas.push(data)),
        walked_plans(entries, datas.push(data), descriptor, (datas.len() + 1) as int) == (
        match entry_plans(entries[datas.len() as int].name@, data, descriptor) {
            Err(error) => Err(error),
            Ok(last) => Ok(
                walked_plans(entries, datas, descriptor, datas.len() as int)->Ok_0 + last,
            ),
        }),
{
    let more = datas.push(data);
    assert forall|n: int| 0 <= n < more.len() implies (#[trigger] walked_plans(
        entries,
        more,
        descriptor,
        n,
    )) is Ok by {
        lemma_plans_prefix(entries, datas, data, descriptor, n);
        if n < datas.len() {
            assert(walked_plans(entries, datas, descriptor, n) is Ok);
        }
    }
    assert forall|k: int| 0 <= k < more.len() implies inflates_to(
        bytes,
        entries[k],
        max_inflated,
        #[trigger] more[k],
    ) by {
        if k < datas.len() {
            assert(more[k] == datas[k]);
        }
    }
    lemma_plans_prefix(entries, datas, data, descriptor, datas.len() as int);
}

/// The first record of a class in the given entries.
pub fn plan_in_entries<S: BytesSource + ?Sized>(
    source: &S,
    entries: &Vec<ZipEntry>,
    max_inflated: usize,
    descriptor: &str,
) -> (plan: Result<Option<String>, Error>)
    ensures
        plans_entries(source.bytes(), entries@, max_inflated, descriptor@, plan_outcome(plan)),
{
    let ghost bytes = source.bytes();
    let ghost mut datas: Seq<Result<Seq<u8>, Error>> = Seq::empty();
    let mut first: Option<String> = None;
    let ghost mut plans: Seq<Seq<char>> = Seq::empty();
    let mut i: usize = 0;
    while i < entries.len()
        invariant
            bytes == source.bytes(),
            i <= entries@.len(),
            datas.len() == i,
            plan_reads(bytes, entries@, max_inflated, descriptor@, datas),
            walked_plans(entries@, datas, descriptor@, i as int) == Ok::<Seq<Seq<char>>, Error>(
                plans,
            ),
            match first {
                Some(json) => plans.len() > 0 && plans[0] == json@,
                None => plans.len() == 0,
            },
        decreases entries@.len() - i,
    {
        let entry = &entries[i];
        let data = inflate_entry(source, entry, max_inflated);
        let ghost read = bytes_outcome(data);
        proof {
            lemma_plan_reads_grow(bytes, entries@, max_inflated, descriptor@, datas, read);
            datas = datas.push(read);
        }
        let data = match data {
            Ok(data) => data,
            Err(error) => {
                proof {
                    reveal(entry_plans);
                }
                assert(first_plan(
                    entries@,
                    datas,
                    descriptor@,
                    Err::<Option<Seq<char>>, Error>(error),
                ));
                return Err(error);
            },
        };
        let mut found = match plans_of_data(entry.name.as_str(), data.as_slice(), descriptor) {
            Ok(found) => found,
            Err(error) => {
                assert(first_plan(
                    entries@,
                    datas,
                    descriptor@,
                    Err::<Option<Seq<char>>, Error>(error),
                ));
                return Err(error);
            },
        };
        proof {
            plans = plans + texts(found@);
        }
        if first.is_none() && found.len() > 0 {
            let ghost listed = texts(found@);
            let json = found.swap_remove(0);
            assert(listed[0] == json@);
            first = Some(json);
        }
        i = i + 1;
    }
    assert(first_plan(entries@, datas, descriptor@, plan_outcome(Ok(first))));
    Ok(first)
}

/// The DEX field layout of `descriptor`, from the first entry of an archive that defines it.
///
/// The entries keep their central-directory order, so "first" is a property of the archive
/// rather than of which worker happened to finish first. `None` means the archive does not
/// define the class, which is a different answer from an empty field list.
pub fn field_plan<S: BytesSource + ?Sized>(
    source: &S,
    descriptor: &str,
    threads: usize,
    max_inflated: usize,
) -> (plan: Result<Option<String>, Error>)
    ensures
        plans_archive(source.bytes(), threads, max_inflated, descriptor@, plan_outcome(plan)),
{
    if threads == 0 {
        return Err(Error::NoWorkers);
    }
    match parse_dex_entries(source) {
        Ok(entries) => {
            assert(dex_entries(source.bytes()) == Ok::<Seq<EntryView>, Error>(
                entry_views(entries@),
            ));
            plan_in_entries(source, &entries, max_inflated, descriptor)
        },
        Err(error) => Err(error),
    }
}

/// A file has one record of a class where it defines the class, and none otherwise.
pub proof fn law_a_file_has_one_record(data: Seq<u8>, descriptor: Seq<char>)
    ensures
        file_plans(data, descriptor) is Ok <==> identified_in(plain_file(data), descriptor) is Ok,
        file_plans(data, descriptor) matches Ok(records) ==> (identified_in(
            plain_file(data),
            descriptor,
        )->Ok_0 matches Some(plan) ==> records == seq![plan_json(plan)]),
        file_plans(data, descriptor) matches Ok(records) ==> (identified_in(
            plain_file(data),
            descriptor,
        )->Ok_0 is None ==> records.len() == 0),
{
    reveal(file_plans);
}

/// The record that is handed out is the first of the first entry that has one.
pub proof fn law_the_first_record_is_handed_out(
    entries: Seq<ZipEntry>,
    datas: Seq<Result<Seq<u8>, Error>>,
    descriptor: Seq<char>,
    result: Result<Option<Seq<char>>, Error>,
    i: int,
    records: Seq<Seq<char>>,
)
    requires
        first_plan(entries, datas, descriptor, result),
        result is Ok,
        0 <= i < datas.len(),
        forall|j: int|
            0 <= j < i ==> #[trigger] entry_plans(entries[j].name@, datas[j], descriptor) == Ok::<
                Seq<Seq<char>>,
                Error,
            >(Seq::empty()),
        entry_plans(entries[i].name@, datas[i], descriptor) == Ok::<Seq<Seq<char>>, Error>(records),
        records.len() > 0,
    ensures
        result == Ok::<Option<Seq<char>>, Error>(Some(records[0])),
{
    lemma_no_records(entries, datas, descriptor, i);
    assert(Seq::<Seq<char>>::empty() + records =~= records);
    lemma_records_stay_first(entries, datas, descriptor, i + 1, datas.len() as int);
}

/// Where no entry has a record, none is handed out.
pub proof fn law_without_records_none_is_handed_out(
    entries: Seq<ZipEntry>,
    datas: Seq<Result<Seq<u8>, Error>>,
    descriptor: Seq<char>,
    result: Result<Option<Seq<char>>, Error>,
)
    requires
        first_plan(entries, datas, descriptor, result),
        forall|j: int|
            0 <= j < datas.len() ==> #[trigger] entry_plans(entries[j].name@, datas[j], descriptor)
                == Ok::<Seq<Seq<char>>, Error>(Seq::empty()),
    ensures
        result == Ok::<Option<Seq<char>>, Error>(None),
{
    lemma_no_records(entries, datas, descriptor, datas.len() as int);
}

proof fn lemma_no_records(
    entries: Seq<ZipEntry>,
    datas: Seq<Result<Seq<u8>, Error>>,
    descriptor: Seq<char>,
    n: int,
)
    requires
        0 <= n,
        forall|j: int|
            0 <= j < n ==> #[trigger] entry_plans(entries[j].name@, datas[j], descriptor) == Ok::<
                Seq<Seq<char>>,
                Error,
            >(Seq::empty()),
    ensures
        walked_plans(entries, datas, descriptor, n) == Ok::<Seq<Seq<char>>, Error>(Seq::empty()),
    decreases n,
{
    if n > 0 {
        lemma_no_records(entries, datas, descriptor, n - 1);
        assert(entry_plans(entries[n - 1].name@, datas[n - 1], descriptor) is Ok);
        assert(Seq::<Seq<char>>::empty() + Seq::<Seq<char>>::empty() =~= Seq::<Seq<char>>::empty());
    }
}

proof fn lemma_records_stay_first(
    entries: Seq<ZipEntry>,
    datas: Seq<Result<Seq<u8>, Error>>,
    descriptor: Seq<char>,
    k: int,
    n: int,
)
    requires
        0 <= k <= n,
        walked_plans(entries, datas, descriptor, k) matches Ok(front) && front.len() > 0,
        walked_plans(entries, datas, descriptor, n) is Ok,
    ensures
        walked_plans(entries, datas, descriptor, n)->Ok_0.len() > 0,
        walked_plans(entries, datas, descriptor, n)->Ok_0[0] == walked_plans(
            entries,
            datas,
            descriptor,
            k,
        )->Ok_0[0],
    decreases n,
{
    if k < n {
        lemma_records_stay_first(entries, datas, descriptor, k, n - 1);
    }
}

/// What readers of plain files get is no container, and is the file itself where that is none.
pub proof fn law_plain_files_are_no_containers(data: Seq<u8>)
    requires
        0x78 <= data.len() < 0x1_0000_0000,
    ensures
        !is_container(plain_file(data)),
        plain_file(data).len() == data.len(),
        !is_container(data) ==> plain_file(data) == data,
{
    if is_container(data) {
        law_standard_view_changes_four_fields(data);
        let plain = standard_header(data);
        let part = plain.subrange(0, 8);
        assert(part[5] == plain[5]);
        assert(container_magic()[5] == 0x34);
    }
}

} // verus!
