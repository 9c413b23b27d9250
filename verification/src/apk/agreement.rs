//! The class index and the class lookup of an archive agree.
use super::classes::{
    class_index, class_less, classes_in, covered, data_classes, found_in, indexes, indexes_archive,
    indexes_entries, inflated_classes, law_index_is_that_of_the_bytes, lists_entry, lists_probed,
    lists_whole, logical_classes, sound_entries, walks, ClassView,
};
use super::entries::dex_entries;
use super::lookup::{
    definer_by, definer_from, definer_in, finds_entry, finds_probed, finds_whole, hands_out,
    law_lookup_is_that_of_the_bytes, lemma_order_is_complete, locates, locates_archive, seeks,
    settles, smallest_first,
};
use super::probe::{law_probe_reads_the_stream, probes, PrefixPolicy};
use crate::dex::container::{is_container, logical_of, LogicalView};
use crate::dex::mutf8::plain_ascii;
use crate::dex::prefix::{
    law_prefix_lookup_agrees_with_the_names, lemma_prefix_defines_from, prefix_defines,
    prefix_names,
};
use crate::dex::{class_texts, defines_from, law_lookup_agrees_with_the_listing};
use crate::error::Error;
use crate::seqs::{collect, joined, lemma_collect_succeeds};
use crate::zip::{
    entry_views, inflates_to, law_inflation_is_bounded, payload_of, stream_of, ZipEntry,
};
use vstd::prelude::*;
use vstd::utf8::encode_utf8;

verus! {

/// Whether a list of classes holds one with the given descriptor.
pub open spec fn lists_class(list: Seq<ClassView>, descriptor: Seq<char>) -> bool {
    exists|i: int| 0 <= i < list.len() && (#[trigger] list[i]).descriptor == descriptor
}

proof fn lemma_lists_both(front: Seq<ClassView>, back: Seq<ClassView>, descriptor: Seq<char>)
    ensures
        lists_class(front + back, descriptor) == (lists_class(front, descriptor) || lists_class(
            back,
            descriptor,
        )),
{
    let both = front + back;
    if lists_class(front, descriptor) {
        let i = choose|i: int| 0 <= i < front.len() && (#[trigger] front[i]).descriptor == descriptor;
        assert(both[i].descriptor == descriptor);
    }
    if lists_class(back, descriptor) {
        let i = choose|i: int| 0 <= i < back.len() && (#[trigger] back[i]).descriptor == descriptor;
        assert(both[front.len() + i].descriptor == descriptor);
    }
    if lists_class(both, descriptor) {
        let i = choose|i: int| 0 <= i < both.len() && (#[trigger] both[i]).descriptor == descriptor;
        if i < front.len() {
            assert(front[i].descriptor == descriptor);
        } else {
            assert(back[i - front.len()].descriptor == descriptor);
        }
    }
}

/// Whether one of the parts from `k` on holds a class with the given descriptor.
spec fn part_lists(parts: Seq<Seq<ClassView>>, descriptor: Seq<char>, k: int) -> bool
    decreases parts.len() - k,
{
    k < parts.len() && (lists_class(parts[k], descriptor) || part_lists(parts, descriptor, k + 1))
}

proof fn lemma_lists_joined(parts: Seq<Seq<ClassView>>, descriptor: Seq<char>)
    ensures
        lists_class(joined(parts), descriptor) == part_lists(parts, descriptor, 0),
    decreases parts.len(),
{
    if parts.len() > 0 {
        lemma_lists_joined(parts.drop_last(), descriptor);
        lemma_lists_both(joined(parts.drop_last()), parts.last(), descriptor);
        lemma_parts_grow(parts, descriptor, 0);
    }
}

proof fn lemma_parts_grow(parts: Seq<Seq<ClassView>>, descriptor: Seq<char>, k: int)
    requires
        0 <= k < parts.len(),
    ensures
        part_lists(parts, descriptor, k) == (part_lists(parts.drop_last(), descriptor, k)
            || lists_class(parts.last(), descriptor)),
    decreases parts.len() - k,
{
    if k + 1 < parts.len() {
        lemma_parts_grow(parts, descriptor, k + 1);
        assert(parts.drop_last()[k] == parts[k]);
    } else {
        assert(!part_lists(parts, descriptor, k + 1));
        assert(!part_lists(parts.drop_last(), descriptor, k));
    }
}

proof fn lemma_definer_listed(
    list: Seq<LogicalView>,
    parts: Seq<Seq<ClassView>>,
    descriptor: Seq<char>,
    k: int,
)
    requires
        collect(list.len() as int, logical_classes(list)) == Ok::<Seq<Seq<ClassView>>, Error>(parts),
        plain_ascii(descriptor),
        0 <= k <= list.len(),
    ensures
        definer_from(list, encode_utf8(descriptor), k) matches Ok(found) && (found is Some)
            == part_lists(parts, descriptor, k),
    decreases list.len() - k,
{
    lemma_collect_succeeds(list.len() as int, logical_classes(list));
    if k < list.len() {
        assert((logical_classes(list))(k) == Ok::<Seq<ClassView>, Error>(parts[k]));
        let names = class_texts(list[k].data)->Ok_0;
        law_lookup_agrees_with_the_listing(list[k].data, descriptor, names);
        let part = parts[k];
        assert(part == found_in(list[k].name, names));
        if names.contains(descriptor) {
            let i = choose|i: int| 0 <= i < names.len() && names[i] == descriptor;
            assert(part[i].descriptor == descriptor);
        }
        if lists_class(part, descriptor) {
            let i = choose|i: int| 0 <= i < part.len() && (#[trigger] part[i]).descriptor == descriptor;
            assert(names[i] == descriptor);
        }
        lemma_definer_listed(list, parts, descriptor, k + 1);
    }
}

/// An entry whose classes can be listed is found to define a class exactly when it lists it.
proof fn lemma_entry_lists(name: Seq<char>, data: Seq<u8>, descriptor: Seq<char>)
    requires
        data_classes(name, data) is Ok,
        plain_ascii(descriptor),
    ensures
        definer_in(name, data, encode_utf8(descriptor)) matches Ok(found) && (found is Some)
            == lists_class(data_classes(name, data)->Ok_0, descriptor),
{
    let list = logical_of(name, data)->Ok_0;
    let parts = collect(list.len() as int, logical_classes(list))->Ok_0;
    lemma_definer_listed(list, parts, descriptor, 0);
    lemma_lists_joined(parts, descriptor);
}

/// Whether the entry at `i` lists a class with the given descriptor.
spec fn entry_lists(
    entries: Seq<ZipEntry>,
    datas: Seq<Seq<u8>>,
    descriptor: Seq<char>,
    i: int,
) -> bool {
    data_classes(entries[i].name@, datas[i]) matches Ok(part) && lists_class(part, descriptor)
}

proof fn lemma_classes_listed(
    entries: Seq<ZipEntry>,
    datas: Seq<Seq<u8>>,
    descriptor: Seq<char>,
    n: int,
)
    requires
        0 <= n,
        classes_in(entries, datas, n) is Ok,
    ensures
        forall|i: int| #![trigger datas[i]] 0 <= i < n ==> data_classes(entries[i].name@, datas[i]) is Ok,
        lists_class(classes_in(entries, datas, n)->Ok_0, descriptor) == (exists|i: int|
            0 <= i < n && #[trigger] entry_lists(entries, datas, descriptor, i)),
    decreases n,
{
    if n > 0 {
        lemma_classes_listed(entries, datas, descriptor, n - 1);
        let front = classes_in(entries, datas, n - 1)->Ok_0;
        let last = data_classes(entries[n - 1].name@, datas[n - 1])->Ok_0;
        lemma_lists_both(front, last, descriptor);
        assert(entry_lists(entries, datas, descriptor, n - 1) == lists_class(last, descriptor));
    }
}

proof fn lemma_definer_by_listed(
    entries: Seq<ZipEntry>,
    order: Seq<usize>,
    datas: Seq<Seq<u8>>,
    descriptor: Seq<char>,
    k: int,
)
    requires
        smallest_first(entries, order),
        classes_in(entries, datas, entries.len() as int) is Ok,
        plain_ascii(descriptor),
        0 <= k <= order.len(),
    ensures
        definer_by(entries, order, datas, encode_utf8(descriptor), k) matches Ok(found)
            && (found is Some) == (exists|j: int|
            k <= j < order.len() && entry_lists(
                entries,
                datas,
                descriptor,
                #[trigger] order[j] as int,
            )),
    decreases order.len() - k,
{
    if k < order.len() {
        let i = order[k] as int;
        lemma_classes_listed(entries, datas, descriptor, entries.len() as int);
        assert(data_classes(entries[i].name@, datas[i]) is Ok);
        lemma_entry_lists(entries[i].name@, datas[i], descriptor);
        lemma_definer_by_listed(entries, order, datas, descriptor, k + 1);
        assert(entry_lists(entries, datas, descriptor, order[k] as int) == lists_class(
            data_classes(entries[i].name@, datas[i])->Ok_0,
            descriptor,
        ));
    }
}

/// The walk in order of size finds what the entries list, in whatever order.
proof fn lemma_walk_lists(
    entries: Seq<ZipEntry>,
    order: Seq<usize>,
    datas: Seq<Seq<u8>>,
    descriptor: Seq<char>,
)
    requires
        smallest_first(entries, order),
        classes_in(entries, datas, entries.len() as int) is Ok,
        plain_ascii(descriptor),
    ensures
        definer_by(entries, order, datas, encode_utf8(descriptor), 0) matches Ok(found)
            && (found is Some) == lists_class(
            classes_in(entries, datas, entries.len() as int)->Ok_0,
            descriptor,
        ),
{
    let n = entries.len() as int;
    lemma_definer_by_listed(entries, order, datas, descriptor, 0);
    lemma_classes_listed(entries, datas, descriptor, n);
    if exists|i: int| 0 <= i < n && #[trigger] entry_lists(entries, datas, descriptor, i) {
        let i = choose|i: int| 0 <= i < n && #[trigger] entry_lists(entries, datas, descriptor, i);
        lemma_order_is_complete(entries, order, i);
        let j = choose|j: int| 0 <= j < order.len() && (#[trigger] order[j]) as int == i;
        assert(entry_lists(entries, datas, descriptor, order[j] as int));
    }
}

/// The index of some classes lists the descriptors that those have.
proof fn lemma_index_lists(found: Seq<ClassView>, index: Seq<ClassView>, descriptor: Seq<char>)
    requires
        class_index(found, index),
    ensures
        lists_class(index, descriptor) == lists_class(found, descriptor),
{
    if lists_class(found, descriptor) {
        let k = choose|k: int| 0 <= k < found.len() && (#[trigger] found[k]).descriptor == descriptor;
        assert(covered(index, found[k]));
        let i = choose|i: int|
            0 <= i < index.len() && (#[trigger] index[i]).descriptor == found[k].descriptor
                && !class_less(found[k], index[i]);
        assert(index[i].descriptor == descriptor);
    }
    if lists_class(index, descriptor) {
        let i = choose|i: int| 0 <= i < index.len() && (#[trigger] index[i]).descriptor == descriptor;
        assert(found.contains(index[i]));
        let k = choose|k: int| 0 <= k < found.len() && found[k] == index[i];
        assert(found[k].descriptor == descriptor);
    }
}

/// Where every entry inflates to a container or to a DEX file whose tables are in it, and their
/// classes can be indexed, no lookup of an ASCII descriptor fails, and it finds a DEX exactly when
/// the index lists the descriptor.
pub proof fn law_sound_entries_are_looked_up(
    bytes: Seq<u8>,
    entries: Seq<ZipEntry>,
    max_inflated: usize,
    datas: Seq<Seq<u8>>,
    descriptor: Seq<char>,
    index: Seq<ClassView>,
    result: Result<Option<LogicalView>, Error>,
)
    requires
        indexes_entries(bytes, entries, max_inflated, Ok(index)),
        locates(bytes, entries, max_inflated, encode_utf8(descriptor), result),
        sound_entries(bytes, entries, max_inflated, datas),
        plain_ascii(descriptor),
    ensures
        result matches Ok(found) && (found is Some) == lists_class(index, descriptor),
{
    law_index_is_that_of_the_bytes(bytes, entries, max_inflated, datas, Ok(index));
    let raw = encode_utf8(descriptor);
    let (order, outcomes, policies) = choose|
        order: Seq<usize>,
        outcomes: Seq<Result<Option<LogicalView>, Error>>,
        policies: Seq<PrefixPolicy>,
    | #[trigger]
        seeks(bytes, entries, order, max_inflated, raw, outcomes, policies) && settles(
            entries,
            outcomes,
            result,
        );
    law_lookup_is_that_of_the_bytes(bytes, entries, order, max_inflated, raw, datas, result);
    let found = classes_in(entries, datas, entries.len() as int)->Ok_0;
    lemma_walk_lists(entries, order, datas, descriptor);
    lemma_index_lists(found, index, descriptor);
}

/// Whether an entry is not a malformed deflate stream.
pub open spec fn streams(bytes: Seq<u8>, entry: ZipEntry) -> bool {
    entry.compression == 8 && payload_of(bytes, entry) is Ok ==> stream_of(
        payload_of(bytes, entry)->Ok_0,
    ) is Some
}

/// The bytes that an entry stands for, whatever it declares of them.
pub open spec fn entry_bytes(bytes: Seq<u8>, entry: ZipEntry) -> Seq<u8> {
    if entry.compression == 8 {
        stream_of(payload_of(bytes, entry)->Ok_0)->0
    } else {
        payload_of(bytes, entry)->Ok_0
    }
}

/// Whether the bytes of an entry define the class `descriptor`: one member of a container does, or
/// a row of the class table that can be read, with all before it, is that of the class.
spec fn holds_class(bytes: Seq<u8>, entry: ZipEntry, descriptor: Seq<char>) -> bool {
    let data = entry_bytes(bytes, entry);
    if is_container(data) {
        definer_in(entry.name@, data, encode_utf8(descriptor)) matches Ok(Some(_))
    } else {
        defines_from(data, encode_utf8(descriptor), 0) == Ok::<bool, Error>(true)
    }
}

/// What an entry inflates to are its bytes.
proof fn lemma_inflates_to_its_bytes(
    bytes: Seq<u8>,
    entry: ZipEntry,
    max_inflated: usize,
    data: Seq<u8>,
)
    requires
        inflates_to(bytes, entry, max_inflated, Ok::<Seq<u8>, Error>(data)),
    ensures
        payload_of(bytes, entry) is Ok,
        data == entry_bytes(bytes, entry),
{
    if entry.compression == 8 {
        let stream = stream_of(payload_of(bytes, entry)->Ok_0)->0;
        law_inflation_is_bounded(entry, stream, max_inflated);
    }
}

/// What an entry whose classes could be listed lists is what its bytes define.
proof fn lemma_listed_is_held(
    bytes: Seq<u8>,
    entry: ZipEntry,
    max_inflated: usize,
    policy: PrefixPolicy,
    part: Seq<ClassView>,
    after: PrefixPolicy,
    descriptor: Seq<char>,
)
    requires
        lists_entry(bytes, entry, max_inflated, policy, Ok(part), after),
        streams(bytes, entry),
        plain_ascii(descriptor),
    ensures
        payload_of(bytes, entry) is Ok,
        lists_class(part, descriptor) == holds_class(bytes, entry, descriptor),
{
    let outcome = Ok::<Seq<ClassView>, Error>(part);
    let raw = encode_utf8(descriptor);
    let data = entry_bytes(bytes, entry);
    let name = entry.name@;
    let probe = choose|probe: Result<Option<Seq<u8>>, Error>| #[trigger]
        probes(bytes, entry, max_inflated, policy, probe, after) && lists_probed(
            bytes,
            entry,
            max_inflated,
            probe,
            outcome,
        );
    if probe->Ok_0 is Some && prefix_names(probe->Ok_0->0) is Some {
        let prefix = probe->Ok_0->0;
        let names = prefix_names(prefix)->0;
        law_probe_reads_the_stream(bytes, entry, max_inflated, policy, prefix, after);
        law_prefix_lookup_agrees_with_the_names(prefix, descriptor, names);
        lemma_prefix_defines_from(prefix, data, raw, 0);
        lemma_found_lists(name, names, descriptor);
    } else {
        assert(lists_whole(bytes, entry, max_inflated, outcome));
        let read = choose|read: Result<Seq<u8>, Error>| #[trigger]
            inflates_to(bytes, entry, max_inflated, read) && outcome == inflated_classes(name, read);
        lemma_inflates_to_its_bytes(bytes, entry, max_inflated, read->Ok_0);
        lemma_entry_lists(name, data, descriptor);
        lemma_plain_definer(name, data, raw);
    }
}

/// The classes with given descriptors list those.
proof fn lemma_found_lists(name: Seq<char>, names: Seq<Seq<char>>, descriptor: Seq<char>)
    ensures
        lists_class(found_in(name, names), descriptor) == names.contains(descriptor),
{
    let part = found_in(name, names);
    if names.contains(descriptor) {
        let i = choose|i: int| 0 <= i < names.len() && names[i] == descriptor;
        assert(part[i].descriptor == descriptor);
    }
    if lists_class(part, descriptor) {
        let i = choose|i: int| 0 <= i < part.len() && (#[trigger] part[i]).descriptor == descriptor;
        assert(names[i] == descriptor);
    }
}

/// A plain file is asked for a class as the only logical DEX of its entry.
proof fn lemma_plain_definer(name: Seq<char>, data: Seq<u8>, descriptor: Seq<u8>)
    ensures
        !is_container(data) ==> match definer_in(name, data, descriptor) {
            Ok(found) => defines_from(data, descriptor, 0) == Ok::<bool, Error>(found is Some),
            Err(_) => true,
        },
{
    if !is_container(data) {
        let list = seq![LogicalView { name, data }];
        assert(logical_of(name, data)->Ok_0 =~= list);
        assert(definer_from(list, descriptor, 1) == Ok::<Option<LogicalView>, Error>(None));
    }
}

/// Where an entry that could be asked defines a class is what its bytes define.
proof fn lemma_found_is_held(
    bytes: Seq<u8>,
    entry: ZipEntry,
    max_inflated: usize,
    policy: PrefixPolicy,
    found: Option<LogicalView>,
    after: PrefixPolicy,
    descriptor: Seq<char>,
)
    requires
        finds_entry(bytes, entry, max_inflated, encode_utf8(descriptor), policy, Ok(found), after),
        streams(bytes, entry),
    ensures
        (found is Some) == holds_class(bytes, entry, descriptor),
{
    let outcome = Ok::<Option<LogicalView>, Error>(found);
    let raw = encode_utf8(descriptor);
    let data = entry_bytes(bytes, entry);
    let name = entry.name@;
    let probe = choose|probe: Result<Option<Seq<u8>>, Error>| #[trigger]
        probes(bytes, entry, max_inflated, policy, probe, after) && finds_probed(
            bytes,
            entry,
            max_inflated,
            raw,
            probe,
            outcome,
        );
    if probe->Ok_0 is Some && prefix_defines(probe->Ok_0->0, raw) is Some {
        let prefix = probe->Ok_0->0;
        law_probe_reads_the_stream(bytes, entry, max_inflated, policy, prefix, after);
        lemma_prefix_defines_from(prefix, data, raw, 0);
        assert(defines_from(data, raw, 0) == Ok::<bool, Error>(prefix_defines(prefix, raw)->0));
        if prefix_defines(prefix, raw)->0 {
            assert(hands_out(bytes, entry, max_inflated, outcome));
        }
    } else {
        assert(finds_whole(bytes, entry, max_inflated, raw, outcome));
        let read = choose|read: Result<Seq<u8>, Error>| #[trigger]
            inflates_to(bytes, entry, max_inflated, read) && outcome == (match read {
                Err(error) => Err(error),
                Ok(data) => definer_in(name, data, raw),
            });
        lemma_inflates_to_its_bytes(bytes, entry, max_inflated, read->Ok_0);
        lemma_plain_definer(name, data, raw);
    }
}

/// Two entries that say the same stand for the same bytes.
proof fn lemma_held_alike(bytes: Seq<u8>, one: ZipEntry, other: ZipEntry, descriptor: Seq<char>)
    requires
        one@ == other@,
        payload_of(bytes, one) is Ok,
    ensures
        holds_class(bytes, one, descriptor) == holds_class(bytes, other, descriptor),
{
    assert(one.compression == other.compression);
    assert(one.compressed_size == other.compressed_size);
    assert(one.local_header_offset == other.local_header_offset);
    assert(payload_of(bytes, one) == payload_of(bytes, other));
}

/// Whether one of the parts from `k` on holds a class, as one of them.
proof fn lemma_part_lists(parts: Seq<Seq<ClassView>>, descriptor: Seq<char>, k: int)
    requires
        0 <= k,
    ensures
        part_lists(parts, descriptor, k) == (exists|i: int|
            k <= i < parts.len() && lists_class(#[trigger] parts[i], descriptor)),
    decreases parts.len() - k,
{
    if k < parts.len() {
        lemma_part_lists(parts, descriptor, k + 1);
    }
}

/// The index of entries lists what their bytes define.
proof fn lemma_index_is_held(
    bytes: Seq<u8>,
    entries: Seq<ZipEntry>,
    max_inflated: usize,
    index: Seq<ClassView>,
    descriptor: Seq<char>,
)
    requires
        indexes_entries(bytes, entries, max_inflated, Ok(index)),
        forall|i: int| 0 <= i < entries.len() ==> streams(bytes, #[trigger] entries[i]),
        plain_ascii(descriptor),
    ensures
        forall|i: int| 0 <= i < entries.len() ==> payload_of(bytes, #[trigger] entries[i]) is Ok,
        lists_class(index, descriptor) == (exists|i: int|
            0 <= i < entries.len() && holds_class(bytes, #[trigger] entries[i], descriptor)),
{
    let (outcomes, policies) = choose|
        outcomes: Seq<Result<Seq<ClassView>, Error>>,
        policies: Seq<PrefixPolicy>,
    | #[trigger]
        walks(bytes, entries, max_inflated, outcomes, policies) && indexes(
            entries,
            outcomes,
            Ok(index),
        );
    let parts = outcomes.map_values(|outcome: Result<Seq<ClassView>, Error>| outcome->Ok_0);
    lemma_index_lists(joined(parts), index, descriptor);
    lemma_lists_joined(parts, descriptor);
    lemma_part_lists(parts, descriptor, 0);
    assert forall|i: int| 0 <= i < entries.len() implies payload_of(bytes, #[trigger] entries[i]) is Ok
        && lists_class(parts[i], descriptor) == holds_class(bytes, entries[i], descriptor) by {
        if i < outcomes.len() - 1 {
            assert(outcomes[i] is Ok);
        }
        assert(outcomes[i] == Ok::<Seq<ClassView>, Error>(parts[i]));
        assert(streams(bytes, entries[i]));
        lemma_listed_is_held(
            bytes,
            entries[i],
            max_inflated,
            policies[i],
            parts[i],
            policies[i + 1],
            descriptor,
        );
    }
    if exists|i: int| 0 <= i < parts.len() && lists_class(#[trigger] parts[i], descriptor) {
        let i = choose|i: int| 0 <= i < parts.len() && lists_class(#[trigger] parts[i], descriptor);
        assert(holds_class(bytes, entries[i], descriptor));
    }
    if exists|i: int| 0 <= i < entries.len() && holds_class(bytes, #[trigger] entries[i], descriptor) {
        let i = choose|i: int|
            0 <= i < entries.len() && holds_class(bytes, #[trigger] entries[i], descriptor);
        assert(lists_class(parts[i], descriptor));
    }
}

/// The lookup in entries finds what their bytes define.
proof fn lemma_lookup_is_held(
    bytes: Seq<u8>,
    entries: Seq<ZipEntry>,
    max_inflated: usize,
    found: Option<LogicalView>,
    descriptor: Seq<char>,
)
    requires
        locates(bytes, entries, max_inflated, encode_utf8(descriptor), Ok(found)),
        forall|i: int| 0 <= i < entries.len() ==> streams(bytes, #[trigger] entries[i]),
    ensures
        (found is Some) == (exists|i: int|
            0 <= i < entries.len() && holds_class(bytes, #[trigger] entries[i], descriptor)),
{
    let raw = encode_utf8(descriptor);
    let result = Ok::<Option<LogicalView>, Error>(found);
    let (order, outcomes, policies) = choose|
        order: Seq<usize>,
        outcomes: Seq<Result<Option<LogicalView>, Error>>,
        policies: Seq<PrefixPolicy>,
    | #[trigger]
        seeks(bytes, entries, order, max_inflated, raw, outcomes, policies) && settles(
            entries,
            outcomes,
            result,
        );
    assert forall|k: int| 0 <= k < outcomes.len() && outcomes[k] is Ok implies (
    #[trigger] outcomes[k]->Ok_0 is Some) == holds_class(bytes, entries[order[k] as int], descriptor) by {
        assert(order[k] < entries.len());
        assert(streams(bytes, entries[order[k] as int]));
        assert(outcomes[k] == Ok::<Option<LogicalView>, Error>(outcomes[k]->Ok_0));
        lemma_found_is_held(
            bytes,
            entries[order[k] as int],
            max_inflated,
            policies[k],
            outcomes[k]->Ok_0,
            policies[k + 1],
            descriptor,
        );
    }
    if found is Some {
        let k = outcomes.len() - 1;
        assert(outcomes[k]->Ok_0 is Some);
        assert(order[k] < entries.len());
        assert(holds_class(bytes, entries[order[k] as int], descriptor));
    } else {
        assert forall|i: int| 0 <= i < entries.len() implies !holds_class(
            bytes,
            #[trigger] entries[i],
            descriptor,
        ) by {
            lemma_order_is_complete(entries, order, i);
            let k = choose|k: int| 0 <= k < order.len() && (#[trigger] order[k]) as int == i;
            if k < outcomes.len() - 1 {
                assert(outcomes[k] == Ok::<Option<LogicalView>, Error>(None));
            }
            assert(!(outcomes[k]->Ok_0 is Some));
        }
    }
}

/// Where the classes of an archive can be indexed, a lookup of an ASCII descriptor that does not
/// fail finds a DEX exactly when the index lists the descriptor: what `classes` shows, `getclass`
/// finds, and nothing else. Neither worker count matters, nor which entries were read as a prefix,
/// nor what they declare. Only archives with a malformed stream among their DEX entries are left
/// out: what a prefix of one holds is not known.
pub proof fn law_lookup_finds_what_the_index_lists(
    bytes: Seq<u8>,
    workers: usize,
    threads: usize,
    max_inflated: usize,
    descriptor: Seq<char>,
    index: Seq<ClassView>,
    found: Option<LogicalView>,
)
    requires
        indexes_archive(bytes, workers, max_inflated, Ok(index)),
        locates_archive(bytes, threads, max_inflated, encode_utf8(descriptor), Ok(found)),
        forall|entry: ZipEntry|
            dex_entries(bytes)->Ok_0.contains(#[trigger] entry@) ==> streams(bytes, entry),
        plain_ascii(descriptor),
    ensures
        (found is Some) == lists_class(index, descriptor),
{
    let views = dex_entries(bytes)->Ok_0;
    let one = choose|one: Seq<ZipEntry>| #[trigger]
        entry_views(one) == views && indexes_entries(bytes, one, max_inflated, Ok(index));
    let other = choose|other: Seq<ZipEntry>| #[trigger]
        entry_views(other) == views && locates(
            bytes,
            other,
            max_inflated,
            encode_utf8(descriptor),
            Ok(found),
        );
    assert(entry_views(one).len() == one.len() && entry_views(other).len() == other.len());
    assert forall|i: int| 0 <= i < one.len() implies streams(bytes, #[trigger] one[i]) by {
        assert(views[i] == one[i]@);
    }
    assert forall|i: int| 0 <= i < other.len() implies streams(bytes, #[trigger] other[i]) by {
        assert(views[i] == other[i]@);
    }
    lemma_index_is_held(bytes, one, max_inflated, index, descriptor);
    lemma_lookup_is_held(bytes, other, max_inflated, found, descriptor);
    assert forall|i: int| 0 <= i < one.len() implies holds_class(bytes, #[trigger] one[i], descriptor)
        == holds_class(bytes, other[i], descriptor) by {
        assert(entry_views(one)[i] == entry_views(other)[i]);
        assert(one[i]@ == other[i]@);
        assert(payload_of(bytes, one[i]) is Ok);
        lemma_held_alike(bytes, one[i], other[i], descriptor);
    }
    if found is Some {
        let i = choose|i: int|
            0 <= i < other.len() && holds_class(bytes, #[trigger] other[i], descriptor);
        assert(holds_class(bytes, one[i], descriptor));
    }
    if lists_class(index, descriptor) {
        let i = choose|i: int| 0 <= i < one.len() && holds_class(bytes, #[trigger] one[i], descriptor);
        assert(holds_class(bytes, other[i], descriptor));
    }
}

} // verus!
