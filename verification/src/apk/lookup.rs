//! Finding the DEX that defines a class.
use super::classes::sound_entries;
use super::entries::{dex_entries, parse_dex_entries};
use super::probe::{law_probe_reads_a_prefix, prefix_probe, probe_outcome, probes, PrefixPolicy};
use crate::dex::container::{
    is_container, logical_dexes, logical_of, logical_views, LogicalDex, LogicalView,
};

use crate::dex::prefix::{law_prefix_lookup_is_exact, prefix_defines};
use crate::dex::{
    class_text, class_texts, class_type, defines, defines_class, defines_from, dex_error, raw_type,
    table_size,
};
use crate::error::{Error, Table};
use crate::seqs::{collect, lemma_collect_succeeds};
use crate::zip::{
    bytes_outcome, entry_views, inflate_entry, inflates_to, BytesSource, EntryView, ZipEntry,
};
use vstd::prelude::*;
use vstd::utf8::encode_utf8;

verus! {

/// Whether `order` lists the indices of `entries` smallest compressed size first, and in their
/// own order where sizes are equal.
pub open spec fn smallest_first(entries: Seq<ZipEntry>, order: Seq<usize>) -> bool {
    &&& order.len() == entries.len()
    &&& forall|k: int| 0 <= k < order.len() ==> #[trigger] order[k] < entries.len()
    &&& forall|i: int, j: int|
        0 <= i < j < order.len() ==> size_before(
            entries,
            #[trigger] order[i] as int,
            #[trigger] order[j] as int,
        )
}

/// Whether the entry at `a` is walked before the one at `b`.
pub open spec fn size_before(entries: Seq<ZipEntry>, a: int, b: int) -> bool {
    entries[a].compressed_size < entries[b].compressed_size || (entries[a].compressed_size
        == entries[b].compressed_size && a < b)
}

/// The indices of `entries`, smallest compressed size first, so the cheapest ones answer first.
pub fn order_by_size(entries: &Vec<ZipEntry>) -> (order: Vec<usize>)
    ensures
        smallest_first(entries@, order@),
{
    let mut order: Vec<usize> = Vec::new();
    for n in 0..entries.len()
        invariant
            order@.len() == n,
            forall|k: int| 0 <= k < n ==> #[trigger] order@[k] < n,
            forall|i: int, j: int|
                0 <= i < j < n ==> size_before(
                    entries@,
                    #[trigger] order@[i] as int,
                    #[trigger] order@[j] as int,
                ),
    {
        let size: usize = entries[n].compressed_size;
        let mut at: usize = n;
        while at > 0 && entries[order[at - 1]].compressed_size > size
            invariant
                at <= n == order@.len(),
                n < entries@.len(),
                size == entries@[n as int].compressed_size,
                forall|k: int| 0 <= k < n ==> #[trigger] order@[k] < n,
                forall|k: int|
                    at <= k < n ==> entries@[(#[trigger] order@[k]) as int].compressed_size > size,
            decreases at,
        {
            at = at - 1;
        }
        let ghost before = order@;
        order.insert(at, n);
        proof {
            assert forall|k: int| 0 <= k < n + 1 implies #[trigger] order@[k] < n + 1 by {
                if k < at {
                    assert(order@[k] == before[k]);
                } else if k > at {
                    assert(order@[k] == before[k - 1]);
                }
            }
            assert forall|i: int, j: int| 0 <= i < j < n + 1 implies size_before(
                entries@,
                #[trigger] order@[i] as int,
                #[trigger] order@[j] as int,
            ) by {
                if j < at {
                    assert(order@[i] == before[i] && order@[j] == before[j]);
                } else if j == at {
                    assert(order@[i] == before[i]);
                    if i < at - 1 {
                        assert(size_before(
                            entries@,
                            before[i] as int,
                            before[at - 1] as int,
                        ));
                    }
                } else if i < at {
                    assert(order@[i] == before[i] && order@[j] == before[j - 1]);
                } else if i == at {
                    assert(order@[j] == before[j - 1]);
                } else {
                    assert(order@[i] == before[i - 1] && order@[j] == before[j - 1]);
                }
            }
        }
    }
    order
}

/// The first of the logical DEX files from the `k`-th on that defines a class, or the first
/// before it that cannot be read.
pub open spec fn definer_from(list: Seq<LogicalView>, descriptor: Seq<u8>, k: int) -> Result<
    Option<LogicalView>,
    Error,
>
    decreases list.len() - k,
{
    if k >= list.len() {
        Ok(None)
    } else {
        match defines(list[k].data, descriptor) {
            Err(error) => Err(error),
            Ok(true) => Ok(Some(list[k])),
            Ok(false) => definer_from(list, descriptor, k + 1),
        }
    }
}

/// Where an entry with the bytes `data` defines a class.
pub open spec fn definer_in(name: Seq<char>, data: Seq<u8>, descriptor: Seq<u8>) -> Result<
    Option<LogicalView>,
    Error,
> {
    match logical_of(name, data) {
        Err(error) => Err(error),
        Ok(list) => definer_from(list, descriptor, 0),
    }
}

/// Whether `outcome` is where an entry defines a class, found in the whole entry.
pub open spec fn finds_whole(
    bytes: Seq<u8>,
    entry: ZipEntry,
    max_inflated: usize,
    descriptor: Seq<u8>,
    outcome: Result<Option<LogicalView>, Error>,
) -> bool {
    exists|data: Result<Seq<u8>, Error>| #[trigger]
        inflates_to(bytes, entry, max_inflated, data) && outcome == (match data {
            Err(error) => Err(error),
            Ok(data) => definer_in(entry.name@, data, descriptor),
        })
}

/// Whether `outcome` is the entry itself, as one that is known to define a class.
pub open spec fn hands_out(
    bytes: Seq<u8>,
    entry: ZipEntry,
    max_inflated: usize,
    outcome: Result<Option<LogicalView>, Error>,
) -> bool {
    exists|data: Result<Seq<u8>, Error>| #[trigger]
        inflates_to(bytes, entry, max_inflated, data) && outcome == (match data {
            Err(error) => Err(error),
            Ok(data) => Ok(Some(LogicalView { name: entry.name@, data })),
        })
}

/// Whether `outcome` is where an entry defines a class, once its probe gave `probe`.
pub open spec fn finds_probed(
    bytes: Seq<u8>,
    entry: ZipEntry,
    max_inflated: usize,
    descriptor: Seq<u8>,
    probe: Result<Option<Seq<u8>>, Error>,
    outcome: Result<Option<LogicalView>, Error>,
) -> bool {
    match probe {
        Err(error) => outcome == Err::<Option<LogicalView>, Error>(error),
        Ok(None) => finds_whole(bytes, entry, max_inflated, descriptor, outcome),
        Ok(Some(prefix)) => match prefix_defines(prefix, descriptor) {
            Some(false) => outcome == Ok::<Option<LogicalView>, Error>(None),
            Some(true) => hands_out(bytes, entry, max_inflated, outcome),
            None => finds_whole(bytes, entry, max_inflated, descriptor, outcome),
        },
    }
}

/// Whether `outcome` is where an entry defines a class under an archive-wide policy, and `after`
/// the policy afterwards.
pub open spec fn finds_entry(
    bytes: Seq<u8>,
    entry: ZipEntry,
    max_inflated: usize,
    descriptor: Seq<u8>,
    policy: PrefixPolicy,
    outcome: Result<Option<LogicalView>, Error>,
    after: PrefixPolicy,
) -> bool {
    exists|probe: Result<Option<Seq<u8>>, Error>| #[trigger]
        probes(bytes, entry, max_inflated, policy, probe, after) && finds_probed(
            bytes,
            entry,
            max_inflated,
            descriptor,
            probe,
            outcome,
        )
}

/// The outcome of a lookup, with the DEX as a view.
pub open spec fn lookup_outcome(result: Result<Option<LogicalDex>, Error>) -> Result<
    Option<LogicalView>,
    Error,
> {
    match result {
        Ok(Some(logical)) => Ok(Some(logical@)),
        Ok(None) => Ok(None),
        Err(error) => Err(error),
    }
}

fn copy_logical(logical: &LogicalDex) -> (copy: LogicalDex)
    ensures
        copy@ == logical@,
{
    LogicalDex {
        name: logical.name.clone(),
        data: vstd::slice::slice_to_vec(logical.data.as_slice()),
    }
}

/// Where an entry with the bytes `data` defines a class.
pub fn find_definer(name: &str, data: &[u8], descriptor: &[u8]) -> (found: Result<
    Option<LogicalDex>,
    Error,
>)
    ensures
        lookup_outcome(found) == definer_in(name@, data@, descriptor@),
{
    let list = match logical_dexes(name, data) {
        Ok(list) => list,
        Err(error) => {
            return Err(error);
        },
    };
    let ghost views = logical_views(list@);
    let mut k: usize = 0;
    while k < list.len()
        invariant
            k <= list@.len(),
            views == logical_views(list@),
            logical_of(name@, data@) == Ok::<Seq<LogicalView>, Error>(views),
            definer_from(views, descriptor@, 0) == definer_from(views, descriptor@, k as int),
        decreases list@.len() - k,
    {
        let logical = &list[k];
        assert(views[k as int] == logical@);
        match defines_class(logical.data.as_slice(), descriptor) {
            Ok(true) => {
                return Ok(Some(copy_logical(logical)));
            },
            Ok(false) => {},
            Err(error) => {
                return Err(error);
            },
        }
        k = k + 1;
    }
    Ok(None)
}

/// Where one entry defines a class.
///
/// Entries that do not define the class only need the prefix, so the code section is never
/// decompressed for them.
pub fn entry_definer<S: BytesSource + ?Sized>(
    source: &S,
    entry: &ZipEntry,
    max_inflated: usize,
    descriptor: &[u8],
    policy: &mut PrefixPolicy,
) -> (found: Result<Option<LogicalDex>, Error>)
    ensures
        finds_entry(
            source.bytes(),
            *entry,
            max_inflated,
            descriptor@,
            *old(policy),
            lookup_outcome(found),
            *final(policy),
        ),
{
    let ghost bytes = source.bytes();
    let probe = prefix_probe(source, entry, max_inflated, policy);
    let ghost probe_read = probe_outcome(probe);
    assert(probes(bytes, *entry, max_inflated, *old(policy), probe_read, *policy));
    let answer: Option<bool> = match probe {
        Ok(Some(prefix)) => match crate::dex::prefix::defines_class(prefix.as_slice(), descriptor) {
            Ok(answer) => answer,
            Err(error) => {
                return Err(error);
            },
        },
        Ok(None) => None,
        Err(error) => {
            return Err(error);
        },
    };
    if let Some(false) = answer {
        return Ok(None);
    }
    let data = inflate_entry(source, entry, max_inflated);
    let ghost read = bytes_outcome(data);
    assert(inflates_to(bytes, *entry, max_inflated, read));
    let data = match data {
        Ok(data) => data,
        Err(error) => {
            let ghost outcome = Err::<Option<LogicalView>, Error>(error);
            assert(hands_out(bytes, *entry, max_inflated, outcome));
            assert(finds_whole(bytes, *entry, max_inflated, descriptor@, outcome));
            return Err(error);
        },
    };
    if let Some(true) = answer {
        let logical = LogicalDex { name: entry.name.clone(), data };
        let ghost outcome = Ok::<Option<LogicalView>, Error>(Some(logical@));
        assert(hands_out(bytes, *entry, max_inflated, outcome));
        return Ok(Some(logical));
    }
    let found = find_definer(entry.name.as_str(), data.as_slice(), descriptor);
    assert(finds_whole(bytes, *entry, max_inflated, descriptor@, lookup_outcome(found)));
    found
}

/// Where an entry defines a class does not depend on the archive-wide policy, nor on whether a
/// prefix was read: it is decided by the entry's bytes. This holds of every entry that inflates
/// to a container or to a DEX file whose tables are in it.
pub proof fn law_policy_does_not_change_the_lookup(
    bytes: Seq<u8>,
    entry: ZipEntry,
    max_inflated: usize,
    descriptor: Seq<u8>,
    policy: PrefixPolicy,
    outcome: Result<Option<LogicalView>, Error>,
    after: PrefixPolicy,
    data: Seq<u8>,
)
    requires
        finds_entry(bytes, entry, max_inflated, descriptor, policy, outcome, after),
        inflates_to(bytes, entry, max_inflated, Ok::<Seq<u8>, Error>(data)),
        is_container(data) || dex_error(data) is None,
    ensures
        outcome == definer_in(entry.name@, data, descriptor),
{
    let probe = choose|probe: Result<Option<Seq<u8>>, Error>| #[trigger]
        probes(bytes, entry, max_inflated, policy, probe, after) && finds_probed(
            bytes,
            entry,
            max_inflated,
            descriptor,
            probe,
            outcome,
        );
    law_probe_reads_a_prefix(bytes, entry, max_inflated, policy, probe, after, data);
    let answered = probe->Ok_0 is Some && prefix_defines(probe->Ok_0->0, descriptor) is Some;
    if answered {
        let prefix = probe->Ok_0->0;
        law_prefix_lookup_is_exact(prefix, data, descriptor);
        let list = logical_of(entry.name@, data)->Ok_0;
        assert(list =~= seq![LogicalView { name: entry.name@, data }]);
        assert(definer_from(list, descriptor, 1) == Ok::<Option<LogicalView>, Error>(None));
    }
}

/// Whether `outcomes` are those of walking the entries in the given order, up to the first that
/// fails or defines the class.
pub open spec fn seeks(
    bytes: Seq<u8>,
    entries: Seq<ZipEntry>,
    order: Seq<usize>,
    max_inflated: usize,
    descriptor: Seq<u8>,
    outcomes: Seq<Result<Option<LogicalView>, Error>>,
    policies: Seq<PrefixPolicy>,
) -> bool {
    &&& smallest_first(entries, order)
    &&& outcomes.len() <= entries.len()
    &&& policies.len() == outcomes.len() + 1
    &&& policies[0] == None::<bool>
    &&& forall|i: int|
        0 <= i < outcomes.len() ==> finds_entry(
            bytes,
            entries[order[i] as int],
            max_inflated,
            descriptor,
            policies[i],
            #[trigger] outcomes[i],
            policies[i + 1],
        )
    &&& forall|i: int|
        0 <= i < outcomes.len() - 1 ==> #[trigger] outcomes[i] == Ok::<Option<LogicalView>, Error>(
            None,
        )
}

/// Whether `result` is what a walk with the given outcomes comes to: its last outcome, when that
/// is a failure or a hit, and nothing when every entry was walked.
pub open spec fn settles(
    entries: Seq<ZipEntry>,
    outcomes: Seq<Result<Option<LogicalView>, Error>>,
    result: Result<Option<LogicalView>, Error>,
) -> bool {
    let nothing = Ok::<Option<LogicalView>, Error>(None);
    if result == nothing {
        outcomes.len() == entries.len() && (outcomes.len() > 0 ==> outcomes.last() == nothing)
    } else {
        outcomes.len() > 0 && outcomes.last() == result
    }
}

/// Whether `result` is where the given entries define a class.
pub open spec fn locates(
    bytes: Seq<u8>,
    entries: Seq<ZipEntry>,
    max_inflated: usize,
    descriptor: Seq<u8>,
    result: Result<Option<LogicalView>, Error>,
) -> bool {
    exists|
        order: Seq<usize>,
        outcomes: Seq<Result<Option<LogicalView>, Error>>,
        policies: Seq<PrefixPolicy>,
    | #[trigger]
        seeks(bytes, entries, order, max_inflated, descriptor, outcomes, policies) && settles(
            entries,
            outcomes,
            result,
        )
}

proof fn lemma_seek_grows(
    bytes: Seq<u8>,
    entries: Seq<ZipEntry>,
    order: Seq<usize>,
    max_inflated: usize,
    descriptor: Seq<u8>,
    outcomes: Seq<Result<Option<LogicalView>, Error>>,
    policies: Seq<PrefixPolicy>,
    outcome: Result<Option<LogicalView>, Error>,
    policy: PrefixPolicy,
)
    requires
        seeks(bytes, entries, order, max_inflated, descriptor, outcomes, policies),
        outcomes.len() < entries.len(),
        outcomes.len() > 0 ==> outcomes.last() == Ok::<Option<LogicalView>, Error>(None),
        finds_entry(
            bytes,
            entries[order[outcomes.len() as int] as int],
            max_inflated,
            descriptor,
            policies.last(),
            outcome,
            policy,
        ),
    ensures
        seeks(
            bytes,
            entries,
            order,
            max_inflated,
            descriptor,
            outcomes.push(outcome),
            policies.push(policy),
        ),
{
    let more = outcomes.push(outcome);
    let next = policies.push(policy);
    assert forall|k: int| 0 <= k < more.len() implies finds_entry(
        bytes,
        entries[order[k] as int],
        max_inflated,
        descriptor,
        next[k],
        #[trigger] more[k],
        next[k + 1],
    ) by {
        if k < outcomes.len() {
            assert(more[k] == outcomes[k]);
        }
    }
}

/// The DEX among the given entries that defines a class: the first in the order they are walked
/// in, smallest first. Entries behind a hit are not read.
pub fn locate_in_entries<S: BytesSource + ?Sized>(
    source: &S,
    entries: &Vec<ZipEntry>,
    max_inflated: usize,
    descriptor: &[u8],
) -> (found: Result<Option<LogicalDex>, Error>)
    ensures
        locates(source.bytes(), entries@, max_inflated, descriptor@, lookup_outcome(found)),
{
    let ghost bytes = source.bytes();
    let order = order_by_size(entries);
    let mut policy: PrefixPolicy = None;
    let ghost mut outcomes: Seq<Result<Option<LogicalView>, Error>> = Seq::empty();
    let ghost mut policies: Seq<PrefixPolicy> = seq![None];
    let mut i: usize = 0;
    while i < order.len()
        invariant
            bytes == source.bytes(),
            i <= order@.len(),
            outcomes.len() == i,
            seeks(bytes, entries@, order@, max_inflated, descriptor@, outcomes, policies),
            i > 0 ==> outcomes.last() == Ok::<Option<LogicalView>, Error>(None),
            policies.last() == policy,
        decreases order@.len() - i,
    {
        let found = entry_definer(
            source,
            &entries[order[i]],
            max_inflated,
            descriptor,
            &mut policy,
        );
        let ghost read = lookup_outcome(found);
        proof {
            lemma_seek_grows(
                bytes,
                entries@,
                order@,
                max_inflated,
                descriptor@,
                outcomes,
                policies,
                read,
                policy,
            );
            outcomes = outcomes.push(read);
            policies = policies.push(policy);
        }
        match found {
            Ok(None) => {},
            decided => {
                assert(settles(entries@, outcomes, read));
                return decided;
            },
        }
        i = i + 1;
    }
    assert(settles(entries@, outcomes, Ok::<Option<LogicalView>, Error>(None)));
    Ok(None)
}

/// Whether `result` is where an archive defines a class.
pub open spec fn locates_archive(
    bytes: Seq<u8>,
    threads: usize,
    max_inflated: usize,
    descriptor: Seq<u8>,
    result: Result<Option<LogicalView>, Error>,
) -> bool {
    match (threads, dex_entries(bytes)) {
        (0, _) => result == Err::<Option<LogicalView>, Error>(Error::NoWorkers),
        (_, Err(error)) => result == Err::<Option<LogicalView>, Error>(error),
        (_, Ok(views)) => exists|entries: Seq<ZipEntry>| #[trigger]
            entry_views(entries) == views && locates(
                bytes,
                entries,
                max_inflated,
                descriptor,
                result,
            ),
    }
}

/// The DEX that defines `descriptor`, if one of the root DEX files does.
pub fn locate_class<S: BytesSource + ?Sized>(
    source: &S,
    descriptor: &str,
    threads: usize,
    max_inflated: usize,
) -> (found: Result<Option<LogicalDex>, Error>)
    ensures
        locates_archive(
            source.bytes(),
            threads,
            max_inflated,
            encode_utf8(descriptor@),
            lookup_outcome(found),
        ),
{
    if threads == 0 {
        return Err(Error::NoWorkers);
    }
    match parse_dex_entries(source) {
        Ok(entries) => {
            assert(dex_entries(source.bytes()) == Ok::<Seq<EntryView>, Error>(
                entry_views(entries@),
            ));
            locate_in_entries(source, &entries, max_inflated, descriptor.as_bytes())
        },
        Err(error) => Err(error),
    }
}

proof fn lemma_definer_reached(data: Seq<u8>, descriptor: Seq<u8>, row: int, index: int)
    requires
        0 <= index <= row < table_size(data, Table::Classes),
        raw_type(data, class_type(data, row)) == Ok::<Seq<u8>, Error>(descriptor),
        forall|i: int|
            0 <= i < table_size(data, Table::Classes) ==> raw_type(
                data,
                #[trigger] class_type(data, i),
            ) is Ok,
    ensures
        defines_from(data, descriptor, index) == Ok::<bool, Error>(true),
    decreases row - index,
{
    assert(raw_type(data, class_type(data, index)) is Ok);
    if index < row && raw_type(data, class_type(data, index))->Ok_0 != descriptor {
        lemma_definer_reached(data, descriptor, row, index + 1);
    }
}

/// A class that the index lists is one that the lookup finds, whichever of several type ids its
/// class row carries.
pub proof fn law_listed_class_is_found(data: Seq<u8>, descriptor: Seq<u8>, row: int)
    requires
        class_texts(data) is Ok,
        0 <= row < table_size(data, Table::Classes),
        raw_type(data, class_type(data, row)) == Ok::<Seq<u8>, Error>(descriptor),
    ensures
        defines(data, descriptor) == Ok::<bool, Error>(true),
{
    let n = table_size(data, Table::Classes);
    lemma_collect_succeeds(n, class_text(data));
    assert forall|i: int| 0 <= i < n implies raw_type(data, #[trigger] class_type(data, i)) is Ok by {
        assert((class_text(data))(i) == Ok::<Seq<char>, Error>(collect(n, class_text(data))->Ok_0[i]));
    }
    lemma_definer_reached(data, descriptor, row, 0);
}

/// A list of indices that is ordered by size holds every index.
pub(crate) proof fn lemma_order_is_complete(entries: Seq<ZipEntry>, order: Seq<usize>, index: int)
    requires
        smallest_first(entries, order),
        0 <= index < entries.len(),
    ensures
        exists|k: int| 0 <= k < order.len() && (#[trigger] order[k]) as int == index,
{
    let listed = order.map_values(|at: usize| at as int);
    assert forall|i: int, j: int| 0 <= i < listed.len() && 0 <= j < listed.len() && i
        != j implies listed[i] != listed[j] by {
        if i < j {
            assert(size_before(entries, order[i] as int, order[j] as int));
        } else {
            assert(size_before(entries, order[j] as int, order[i] as int));
        }
    }
    listed.unique_seq_to_set();
    let all = vstd::set_lib::set_int_range(0, entries.len() as int);
    vstd::set_lib::lemma_int_range(0, entries.len() as int);
    assert(listed.to_set().subset_of(all)) by {
        assert forall|x: int| listed.to_set().contains(x) implies all.contains(x) by {
            let k = choose|k: int| 0 <= k < listed.len() && listed[k] == x;
            assert(order[k] < entries.len());
        }
    }
    vstd::set_lib::lemma_subset_equality(listed.to_set(), all);
    assert(all.contains(index));
    let k = choose|k: int| 0 <= k < listed.len() && listed[k] == index;
    assert(order[k] as int == index);
}

/// Two lists of the same indices that are both ordered by size are one list.
proof fn lemma_same_order(entries: Seq<ZipEntry>, one: Seq<usize>, other: Seq<usize>)
    requires
        forall|i: int, j: int|
            0 <= i < j < one.len() ==> size_before(
                entries,
                #[trigger] one[i] as int,
                #[trigger] one[j] as int,
            ),
        forall|i: int, j: int|
            0 <= i < j < other.len() ==> size_before(
                entries,
                #[trigger] other[i] as int,
                #[trigger] other[j] as int,
            ),
        forall|i: int| 0 <= i < one.len() ==> other.contains(#[trigger] one[i]),
        forall|j: int| 0 <= j < other.len() ==> one.contains(#[trigger] other[j]),
    ensures
        one == other,
    decreases one.len(),
{
    if one.len() == 0 {
        if other.len() > 0 {
            assert(one.contains(other[0]));
        }
        assert(one =~= other);
    } else {
        let n = one.len() - 1;
        assert(other.contains(one[n]));
        let m = other.len() - 1;
        assert(one.contains(other[m]));
        let j = choose|j: int| 0 <= j < other.len() && other[j] == one[n];
        let i = choose|i: int| 0 <= i < one.len() && one[i] == other[m];
        assert(one[n] == other[m]);
        let front = one.drop_last();
        let rest = other.drop_last();
        assert forall|k: int| 0 <= k < front.len() implies rest.contains(#[trigger] front[k]) by {
            assert(other.contains(one[k]));
            let at = choose|at: int| 0 <= at < other.len() && other[at] == one[k];
            assert(size_before(entries, one[k] as int, one[n] as int));
            assert(at < m);
            assert(rest[at] == front[k]);
        }
        assert forall|k: int| 0 <= k < rest.len() implies front.contains(#[trigger] rest[k]) by {
            assert(one.contains(other[k]));
            let at = choose|at: int| 0 <= at < one.len() && one[at] == other[k];
            assert(size_before(entries, other[k] as int, other[m] as int));
            assert(at < n);
            assert(front[at] == rest[k]);
        }
        lemma_same_order(entries, front, rest);
        assert(one =~= front.push(one[n]));
        assert(other =~= rest.push(other[m]));
    }
}

/// There is only one order to walk entries in, smallest first.
pub proof fn law_walk_order_is_unique(entries: Seq<ZipEntry>, one: Seq<usize>, other: Seq<usize>)
    requires
        smallest_first(entries, one),
        smallest_first(entries, other),
    ensures
        one == other,
{
    assert forall|i: int| 0 <= i < one.len() implies other.contains(#[trigger] one[i]) by {
        lemma_order_is_complete(entries, other, one[i] as int);
    }
    assert forall|j: int| 0 <= j < other.len() implies one.contains(#[trigger] other[j]) by {
        lemma_order_is_complete(entries, one, other[j] as int);
    }
    lemma_same_order(entries, one, other);
}

/// Where the entries define a class, from the `k`-th of the given order on and from the bytes
/// they inflate to.
pub open spec fn definer_by(
    entries: Seq<ZipEntry>,
    order: Seq<usize>,
    datas: Seq<Seq<u8>>,
    descriptor: Seq<u8>,
    k: int,
) -> Result<Option<LogicalView>, Error>
    decreases order.len() - k,
{
    if k >= order.len() {
        Ok(None)
    } else {
        match definer_in(entries[order[k] as int].name@, datas[order[k] as int], descriptor) {
            Ok(None) => definer_by(entries, order, datas, descriptor, k + 1),
            decided => decided,
        }
    }
}

proof fn lemma_seek_is_that_of_the_bytes(
    bytes: Seq<u8>,
    entries: Seq<ZipEntry>,
    order: Seq<usize>,
    max_inflated: usize,
    descriptor: Seq<u8>,
    outcomes: Seq<Result<Option<LogicalView>, Error>>,
    policies: Seq<PrefixPolicy>,
    datas: Seq<Seq<u8>>,
    k: int,
)
    requires
        seeks(bytes, entries, order, max_inflated, descriptor, outcomes, policies),
        sound_entries(bytes, entries, max_inflated, datas),
        0 <= k <= outcomes.len(),
    ensures
        definer_by(entries, order, datas, descriptor, k) == (if outcomes.len() > k {
            if outcomes.last() == Ok::<Option<LogicalView>, Error>(None) {
                definer_by(entries, order, datas, descriptor, outcomes.len() as int)
            } else {
                outcomes.last()
            }
        } else {
            definer_by(entries, order, datas, descriptor, k)
        }),
    decreases outcomes.len() - k,
{
    if k < outcomes.len() {
        lemma_seek_is_that_of_the_bytes(
            bytes,
            entries,
            order,
            max_inflated,
            descriptor,
            outcomes,
            policies,
            datas,
            k + 1,
        );
        let index = order[k] as int;
        let outcome = outcomes[k];
        let data = datas[index];
        law_policy_does_not_change_the_lookup(
            bytes,
            entries[index],
            max_inflated,
            descriptor,
            policies[k],
            outcome,
            policies[k + 1],
            data,
        );
    }
}

/// Where an archive whose entries all inflate defines a class is decided by the bytes they
/// inflate to, whichever of them were read as a prefix: no walk gives another answer.
pub proof fn law_lookup_is_that_of_the_bytes(
    bytes: Seq<u8>,
    entries: Seq<ZipEntry>,
    order: Seq<usize>,
    max_inflated: usize,
    descriptor: Seq<u8>,
    datas: Seq<Seq<u8>>,
    result: Result<Option<LogicalView>, Error>,
)
    requires
        locates(bytes, entries, max_inflated, descriptor, result),
        smallest_first(entries, order),
        sound_entries(bytes, entries, max_inflated, datas),
    ensures
        result == definer_by(entries, order, datas, descriptor, 0),
{
    let (walked, outcomes, policies) = choose|
        walked: Seq<usize>,
        outcomes: Seq<Result<Option<LogicalView>, Error>>,
        policies: Seq<PrefixPolicy>,
    | #[trigger]
        seeks(bytes, entries, walked, max_inflated, descriptor, outcomes, policies) && settles(
            entries,
            outcomes,
            result,
        );
    law_walk_order_is_unique(entries, walked, order);
    lemma_seek_is_that_of_the_bytes(
        bytes,
        entries,
        order,
        max_inflated,
        descriptor,
        outcomes,
        policies,
        datas,
        0,
    );
}

/// Entries are walked from the smallest to the largest, each once, and those of one size in their
/// own order.
pub proof fn law_small_entries_come_first(
    entries: Seq<ZipEntry>,
    order: Seq<usize>,
    i: int,
    j: int,
)
    requires
        smallest_first(entries, order),
        0 <= i < j < order.len(),
    ensures
        entries[order[i] as int].compressed_size <= entries[order[j] as int].compressed_size,
        entries[order[i] as int].compressed_size == entries[order[j] as int].compressed_size
            ==> order[i] < order[j],
        order[i] != order[j],
        order.len() == entries.len(),
{
}

/// The file that defines a class is the first of them that does.
pub proof fn law_the_first_file_that_defines_the_class_is_found(
    list: Seq<LogicalView>,
    descriptor: Seq<u8>,
    k: int,
    i: int,
)
    requires
        0 <= k <= i < list.len(),
        defines(list[i].data, descriptor) == Ok::<bool, Error>(true),
        forall|j: int|
            k <= j < i ==> defines((#[trigger] list[j]).data, descriptor) == Ok::<bool, Error>(false),
    ensures
        definer_from(list, descriptor, k) == Ok::<Option<LogicalView>, Error>(Some(list[i])),
    decreases i - k,
{
    if k < i {
        assert(defines(list[k].data, descriptor) == Ok::<bool, Error>(false));
        law_the_first_file_that_defines_the_class_is_found(list, descriptor, k + 1, i);
    }
}

/// Where no file defines a class, none is found.
pub proof fn law_a_class_that_no_file_defines_is_not_found(
    list: Seq<LogicalView>,
    descriptor: Seq<u8>,
    k: int,
)
    requires
        0 <= k <= list.len(),
        forall|j: int|
            k <= j < list.len() ==> defines((#[trigger] list[j]).data, descriptor) == Ok::<
                bool,
                Error,
            >(false),
    ensures
        definer_from(list, descriptor, k) == Ok::<Option<LogicalView>, Error>(None),
    decreases list.len() - k,
{
    if k < list.len() {
        assert(defines(list[k].data, descriptor) == Ok::<bool, Error>(false));
        law_a_class_that_no_file_defines_is_not_found(list, descriptor, k + 1);
    }
}

} // verus!
