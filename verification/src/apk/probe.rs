//! Reading just enough of an entry.
//!
//! Everything a class index or a class lookup looks at sits before the code section, which is
//! most of a DEX. A probe sizes a prefix of an entry from the entry's own header, and one
//! probe's verdict is kept for the whole archive: DEX files in one APK come from the same build
//! tool, so once the string data is known to sit near the end, the remaining entries skip the
//! prefix path. The reverse verdict leaves every entry to make its own exact decision.
use crate::dex::container::{container_magic_at, is_container};
use crate::dex::prefix::{last_string, string_data_end, string_ids_end};
use crate::dex::{has_header, row_off, table_fits, table_size};
use crate::error::{Error, Table};
use crate::zip::{
    bytes_outcome, inflate_prefix, inflated, inflates_to, law_prefix_is_exact,
    payload_of, prefix_reads, stream_of, BytesSource, ZipEntry, PREFIX_MARGIN,
};
use vstd::prelude::*;

verus! {

/// Below this there is nothing to win (the entry is small anyway).
pub const MIN_GAIN: usize = 262_144;

/// Bytes kept beyond the last string offset, for the string's own data.
pub const SLACK: usize = 65_536;

/// Enough of the header to name every id table (the DEX header is 0x70 bytes).
pub const HEADER_PROBE: usize = 8_192;

/// What one probe of an archive's DEX told about the whole archive: whether a prefix pays.
pub type PrefixPolicy = Option<bool>;

/// Whether a prefix of `needed` bytes is worth a second read of an entry of `size` bytes: it is
/// below seven tenths of it.
pub open spec fn worth_reading(needed: int, size: int) -> bool {
    needed * 10 < size * 7
}

/// Whether the prefix path is for an entry at all.
pub open spec fn probed(entry: ZipEntry, policy: PrefixPolicy) -> bool {
    &&& entry.compression == 8
    &&& entry.uncompressed_size > MIN_GAIN
    &&& entry.uncompressed_size + PREFIX_MARGIN <= usize::MAX
    &&& policy != Some(false)
}

/// Where the string table of a DEX that starts with `header` ends.
pub open spec fn table_reach(header: Seq<u8>) -> int {
    row_off(header, Table::Strings, table_size(header, Table::Strings))
}

/// Whether a probe that read `header` goes on to read the string table.
pub open spec fn header_goes_on(entry: ZipEntry, header: Seq<u8>) -> bool {
    &&& !is_container(header)
    &&& has_header(header)
    &&& table_reach(header) <= entry.uncompressed_size
}

/// Where the last string of a DEX that starts with `offsets` begins.
pub open spec fn string_reach(offsets: Seq<u8>) -> int {
    last_string(offsets, table_size(offsets, Table::Strings))
}

/// Whether `outcome` is what probing an entry gives, and `after` the verdict that is kept.
///
/// Three reads, each sized from what the one before showed: the header says where the string
/// table ends, the table says where the last string starts, and the last read reaches past it.
pub open spec fn probes(
    bytes: Seq<u8>,
    entry: ZipEntry,
    max_inflated: usize,
    policy: PrefixPolicy,
    outcome: Result<Option<Seq<u8>>, Error>,
    after: PrefixPolicy,
) -> bool {
    if !probed(entry, policy) {
        outcome == Ok::<Option<Seq<u8>>, Error>(None) && after == policy
    } else {
        exists|header: Result<Seq<u8>, Error>| #[trigger]
            prefix_reads(bytes, entry, max_inflated, HEADER_PROBE, header) && behind_header(
                bytes,
                entry,
                max_inflated,
                policy,
                header,
                outcome,
                after,
            )
    }
}

/// What a probe does once it has read the header.
pub open spec fn behind_header(
    bytes: Seq<u8>,
    entry: ZipEntry,
    max_inflated: usize,
    policy: PrefixPolicy,
    header: Result<Seq<u8>, Error>,
    outcome: Result<Option<Seq<u8>>, Error>,
    after: PrefixPolicy,
) -> bool {
    match header {
        Err(error) => outcome == Err::<Option<Seq<u8>>, Error>(error) && after == policy,
        Ok(header) => if !header_goes_on(entry, header) {
            outcome == Ok::<Option<Seq<u8>>, Error>(None) && after == policy
        } else {
            exists|offsets: Result<Seq<u8>, Error>| #[trigger]
                prefix_reads(
                    bytes,
                    entry,
                    max_inflated,
                    (table_reach(header) + SLACK) as usize,
                    offsets,
                ) && behind_table(bytes, entry, max_inflated, policy, offsets, outcome, after)
        },
    }
}

/// What a probe does once it has read the string table.
pub open spec fn behind_table(
    bytes: Seq<u8>,
    entry: ZipEntry,
    max_inflated: usize,
    policy: PrefixPolicy,
    offsets: Result<Seq<u8>, Error>,
    outcome: Result<Option<Seq<u8>>, Error>,
    after: PrefixPolicy,
) -> bool {
    match offsets {
        Err(error) => outcome == Err::<Option<Seq<u8>>, Error>(error) && after == policy,
        Ok(offsets) => if !has_header(offsets) || !table_fits(offsets, Table::Strings) {
            outcome == Ok::<Option<Seq<u8>>, Error>(None) && after == policy
        } else {
            let needed = string_reach(offsets);
            let worth_it = worth_reading(needed, entry.uncompressed_size as int);
            &&& after == (match policy {
                Some(known) => Some(known),
                None => Some(worth_it),
            })
            &&& if !worth_it {
                outcome == Ok::<Option<Seq<u8>>, Error>(None)
            } else {
                outcome != Ok::<Option<Seq<u8>>, Error>(None) && prefix_reads(
                    bytes,
                    entry,
                    max_inflated,
                    (needed + SLACK) as usize,
                    read_of(outcome),
                )
            }
        },
    }
}

/// The read that a probe handed out.
pub open spec fn read_of(outcome: Result<Option<Seq<u8>>, Error>) -> Result<Seq<u8>, Error> {
    match outcome {
        Ok(Some(prefix)) => Ok(prefix),
        Ok(None) => Ok(Seq::empty()),
        Err(error) => Err(error),
    }
}

/// The outcome of a probe, with the prefix as a sequence.
pub open spec fn probe_outcome(result: Result<Option<Vec<u8>>, Error>) -> Result<
    Option<Seq<u8>>,
    Error,
> {
    match result {
        Ok(Some(prefix)) => Ok(Some(prefix@)),
        Ok(None) => Ok(None),
        Err(error) => Err(error),
    }
}

/// A prefix of this entry that reaches past the last string data item, or `None` when
/// the prefix path is not for it. The archive's policy is taken into account, and set once a
/// probe has decided it.
pub fn prefix_probe<S: BytesSource + ?Sized>(
    source: &S,
    entry: &ZipEntry,
    max_inflated: usize,
    policy: &mut PrefixPolicy,
) -> (prefix: Result<Option<Vec<u8>>, Error>)
    ensures
        probes(
            source.bytes(),
            *entry,
            max_inflated,
            *old(policy),
            probe_outcome(prefix),
            *final(policy),
        ),
{
    let size: usize = entry.uncompressed_size;
    if entry.compression != 8 || size <= MIN_GAIN || size > usize::MAX - PREFIX_MARGIN {
        return Ok(None);
    }
    if let Some(worth_it) = *policy {
        if !worth_it {
            return Ok(None);
        }
    }
    let ghost bytes = source.bytes();
    // A 041 container overlays a header per member and needs the whole address space,
    // so the full path keeps handling those.
    let header = inflate_prefix(source, entry, max_inflated, HEADER_PROBE);
    let ghost header_read = bytes_outcome(header);
    assert(prefix_reads(bytes, *entry, max_inflated, HEADER_PROBE, header_read));
    let header = match header {
        Ok(header) => header,
        Err(error) => {
            return Err(error);
        },
    };
    if container_magic_at(header.as_slice(), 0) {
        return Ok(None);
    }
    let strings_end = match string_ids_end(header.as_slice()) {
        Some(end) => end,
        None => {
            return Ok(None);
        },
    };
    if strings_end > size {
        return Ok(None);
    }
    let offsets = inflate_prefix(source, entry, max_inflated, strings_end + SLACK);
    let ghost offsets_read = bytes_outcome(offsets);
    assert(prefix_reads(
        bytes,
        *entry,
        max_inflated,
        (table_reach(header@) + SLACK) as usize,
        offsets_read,
    ));
    let offsets = match offsets {
        Ok(offsets) => offsets,
        Err(error) => {
            return Err(error);
        },
    };
    // The table did not arrive complete (a crafted header, or an entry whose tables
    // really do run to the end): the caller falls back to the full path, and the
    // archive-wide policy stays undecided instead of being set from a broken entry.
    let needed = match string_data_end(offsets.as_slice()) {
        Some(needed) => needed,
        None => {
            return Ok(None);
        },
    };
    let worth_it: bool = (needed as u128) * 10 < (size as u128) * 7;
    if policy.is_none() {
        *policy = Some(worth_it);
    }
    if !worth_it {
        return Ok(None);
    }
    match inflate_prefix(source, entry, max_inflated, needed + SLACK) {
        Ok(prefix) => Ok(Some(prefix)),
        Err(error) => Err(error),
    }
}

/// A prefix of a well-formed entry that inflates within the ceiling can be read.
proof fn lemma_prefix_succeeds(
    bytes: Seq<u8>,
    entry: ZipEntry,
    max_inflated: usize,
    aim: usize,
    outcome: Result<Seq<u8>, Error>,
    payload: Seq<u8>,
    data: Seq<u8>,
)
    requires
        entry.compression == 8,
        prefix_reads(bytes, entry, max_inflated, aim, outcome),
        payload_of(bytes, entry) == Ok::<Seq<u8>, Error>(payload),
        stream_of(payload) == Some(data),
        entry.uncompressed_size <= max_inflated,
    ensures
        outcome is Ok,
{
}

/// What a probe hands out of a well-formed entry is a prefix of what the entry inflates to, and
/// a probe of an entry that inflates within the ceiling does not fail.
pub proof fn law_probe_reads_a_prefix(
    bytes: Seq<u8>,
    entry: ZipEntry,
    max_inflated: usize,
    policy: PrefixPolicy,
    outcome: Result<Option<Seq<u8>>, Error>,
    after: PrefixPolicy,
    data: Seq<u8>,
)
    requires
        probes(bytes, entry, max_inflated, policy, outcome, after),
        inflates_to(bytes, entry, max_inflated, Ok::<Seq<u8>, Error>(data)),
    ensures
        outcome is Ok,
        outcome matches Ok(Some(prefix)) ==> prefix.is_prefix_of(data),
        outcome matches Ok(Some(prefix)) ==> !is_container(data),
{
    if probed(entry, policy) {
        let payload = payload_of(bytes, entry)->Ok_0;
        let stream = stream_of(payload)->0;
        assert(inflated(entry, stream, max_inflated) == Ok::<Seq<u8>, Error>(data));
        crate::zip::law_inflation_is_bounded(entry, stream, max_inflated);
        assert(stream == data && data.len() == entry.uncompressed_size);
        let header = choose|header: Result<Seq<u8>, Error>| #[trigger]
            prefix_reads(bytes, entry, max_inflated, HEADER_PROBE, header) && behind_header(
                bytes,
                entry,
                max_inflated,
                policy,
                header,
                outcome,
                after,
            );
        lemma_prefix_succeeds(bytes, entry, max_inflated, HEADER_PROBE, header, payload, data);
        law_prefix_is_exact(bytes, entry, max_inflated, HEADER_PROBE, header, payload, data);
        let head = header->Ok_0;
        if header_goes_on(entry, head) {
            assert(!is_container(data)) by {
                if is_container(data) {
                    assert(data.subrange(0, 8) =~= head.subrange(0, 8));
                }
            }
            let aim = (table_reach(head) + SLACK) as usize;
            let offsets = choose|offsets: Result<Seq<u8>, Error>| #[trigger]
                prefix_reads(bytes, entry, max_inflated, aim, offsets) && behind_table(
                    bytes,
                    entry,
                    max_inflated,
                    policy,
                    offsets,
                    outcome,
                    after,
                );
            lemma_prefix_succeeds(bytes, entry, max_inflated, aim, offsets, payload, data);
            let table = offsets->Ok_0;
            let size = entry.uncompressed_size as int;
            if has_header(table) && table_fits(table, Table::Strings) && worth_reading(
                string_reach(table),
                size,
            ) {
                let last = (string_reach(table) + SLACK) as usize;
                let read = read_of(outcome);
                lemma_prefix_succeeds(bytes, entry, max_inflated, last, read, payload, data);
                law_prefix_is_exact(bytes, entry, max_inflated, last, read, payload, data);
            }
        }
    }
}

/// What a probe hands out of a well-formed stream is a prefix of what the stream decodes to, also
/// where the entry declares another size or passes the ceiling, and never one of a container.
pub proof fn law_probe_reads_the_stream(
    bytes: Seq<u8>,
    entry: ZipEntry,
    max_inflated: usize,
    policy: PrefixPolicy,
    prefix: Seq<u8>,
    after: PrefixPolicy,
)
    requires
        probes(bytes, entry, max_inflated, policy, Ok(Some(prefix)), after),
        payload_of(bytes, entry) is Ok ==> stream_of(payload_of(bytes, entry)->Ok_0) is Some,
    ensures
        entry.compression == 8,
        payload_of(bytes, entry) is Ok,
        prefix.is_prefix_of(stream_of(payload_of(bytes, entry)->Ok_0)->0),
        !is_container(stream_of(payload_of(bytes, entry)->Ok_0)->0),
{
    let outcome = Ok::<Option<Seq<u8>>, Error>(Some(prefix));
    let payload = payload_of(bytes, entry)->Ok_0;
    let data = stream_of(payload)->0;
    let header = choose|header: Result<Seq<u8>, Error>| #[trigger]
        prefix_reads(bytes, entry, max_inflated, HEADER_PROBE, header) && behind_header(
            bytes,
            entry,
            max_inflated,
            policy,
            header,
            outcome,
            after,
        );
    let head = header->Ok_0;
    law_prefix_is_exact(bytes, entry, max_inflated, HEADER_PROBE, header, payload, data);
    assert(!is_container(data)) by {
        if is_container(data) {
            assert(data.subrange(0, 8) =~= head.subrange(0, 8));
        }
    }
    let aim = (table_reach(head) + SLACK) as usize;
    let offsets = choose|offsets: Result<Seq<u8>, Error>| #[trigger]
        prefix_reads(bytes, entry, max_inflated, aim, offsets) && behind_table(
            bytes,
            entry,
            max_inflated,
            policy,
            offsets,
            outcome,
            after,
        );
    let last = (string_reach(offsets->Ok_0) + SLACK) as usize;
    law_prefix_is_exact(bytes, entry, max_inflated, last, read_of(outcome), payload, data);
}

} // verus!
