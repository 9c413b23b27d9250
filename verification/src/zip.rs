//! ZIP container codec: end-of-central-directory discovery, central-directory
//! entries and per-entry inflation.
//!
//! Only what an APK reader needs: no ZIP64, no encryption, no data descriptors.
//! Sizes come from the central directory, so a smeared local header cannot make a
//! declared size disagree with the bytes that get inflated.
use crate::bytes::{law_half_reads_back, law_word_reads_back, written16, written32};
use crate::bytes::{le16, le32, read_u16, read_u32};
use crate::error::{Error, RangeError};
use crate::seqs::{kept, lemma_kept_filter, occurs_at};
use crate::text::utf8_lossy;
use vstd::prelude::*;

verus! {

/// One entry of an archive, as its central directory describes it.
#[derive(Debug)]
pub struct ZipEntry {
    pub name: String,
    pub uncompressed_size: usize,
    pub compressed_size: usize,
    pub local_header_offset: usize,
    pub compression: u16,
    /// The whole source is this entry's payload - there is no local header to skip.
    ///
    /// Every command addresses an archive, so an input that is not one (a bare DEX)
    /// is presented as the single entry it would have been inside one.
    pub bare: bool,
}

impl Clone for ZipEntry {
    fn clone(&self) -> (copy: Self)
        ensures
            copy == *self,
    {
        ZipEntry {
            name: self.name.clone(),
            uncompressed_size: self.uncompressed_size,
            compressed_size: self.compressed_size,
            local_header_offset: self.local_header_offset,
            compression: self.compression,
            bare: self.bare,
        }
    }
}

/// What an entry says, with its name as characters.
#[verifier::ext_equal]
pub struct EntryView {
    pub name: Seq<char>,
    pub uncompressed_size: nat,
    pub compressed_size: nat,
    pub local_header_offset: nat,
    pub compression: nat,
    pub bare: bool,
}

impl View for ZipEntry {
    type V = EntryView;

    open spec fn view(&self) -> EntryView {
        EntryView {
            name: self.name@,
            uncompressed_size: self.uncompressed_size as nat,
            compressed_size: self.compressed_size as nat,
            local_header_offset: self.local_header_offset as nat,
            compression: self.compression as nat,
            bare: self.bare,
        }
    }
}

/// The views of a list of entries.
pub open spec fn entry_views(entries: Seq<ZipEntry>) -> Seq<EntryView> {
    entries.map_values(|entry: ZipEntry| entry@)
}

impl ZipEntry {
    /// The one entry a non-archive file is: a stored payload that starts at zero.
    pub fn bare(name: &str, size: usize) -> (entry: Self)
        ensures
            entry@ == bare_entry(name@, size as nat),
    {
        ZipEntry {
            name: name.to_owned(),
            uncompressed_size: size,
            compressed_size: size,
            local_header_offset: 0,
            compression: 0,
            bare: true,
        }
    }
}

/// The entry that stands for a whole file of `size` bytes.
pub open spec fn bare_entry(name: Seq<char>, size: nat) -> EntryView {
    EntryView {
        name,
        uncompressed_size: size,
        compressed_size: size,
        local_header_offset: 0,
        compression: 0,
        bare: true,
    }
}

/// The bytes in `offset..offset + len` of `bytes`, or why there are none.
pub open spec fn range_of(bytes: Seq<u8>, offset: int, len: int) -> Result<Seq<u8>, RangeError> {
    if offset + len > usize::MAX {
        Err(RangeError::Overflow)
    } else if offset + len > bytes.len() {
        Err(RangeError::OutOfBounds)
    } else {
        Ok(bytes.subrange(offset, offset + len))
    }
}

/// Random access to an archive's bytes.
pub trait BytesSource {
    /// The archive's bytes.
    spec fn bytes(&self) -> Seq<u8>;

    /// Total length of the archive.
    fn source_len(&self) -> (len: usize)
        ensures
            len == self.bytes().len(),
    ;

    /// The bytes in `offset..offset + len`.
    fn range(&self, offset: usize, len: usize) -> (part: Result<&[u8], RangeError>)
        ensures
            match part {
                Ok(slice) => range_of(self.bytes(), offset as int, len as int) == Ok::<
                    Seq<u8>,
                    RangeError,
                >(slice@),
                Err(cause) => range_of(self.bytes(), offset as int, len as int) == Err::<
                    Seq<u8>,
                    RangeError,
                >(cause),
            },
    ;
}

impl BytesSource for [u8] {
    open spec fn bytes(&self) -> Seq<u8> {
        self@
    }

    fn source_len(&self) -> (len: usize) {
        self.len()
    }

    fn range(&self, offset: usize, len: usize) -> (part: Result<&[u8], RangeError>) {
        let end = match offset.checked_add(len) {
            Some(end) => end,
            None => {
                return Err(RangeError::Overflow);
            },
        };
        if end > self.len() {
            return Err(RangeError::OutOfBounds);
        }
        Ok(vstd::slice::slice_subrange(self, offset, end))
    }
}

impl BytesSource for Vec<u8> {
    open spec fn bytes(&self) -> Seq<u8> {
        self@
    }

    fn source_len(&self) -> (len: usize) {
        self.len()
    }

    fn range(&self, offset: usize, len: usize) -> (part: Result<&[u8], RangeError>) {
        self.as_slice().range(offset, len)
    }
}

/// How far from the end of an archive its end-of-central-directory record may start.
pub const EOCD_REACH: usize = 65_557;

/// The signature of an end-of-central-directory record.
pub open spec fn eocd_signature() -> Seq<u8> {
    seq![0x50, 0x4B, 0x05, 0x06]
}

/// The signature of a central directory record.
pub open spec fn record_signature() -> Seq<u8> {
    seq![0x50, 0x4B, 0x01, 0x02]
}

/// The signature of a local header.
pub open spec fn local_signature() -> Seq<u8> {
    seq![0x50, 0x4B, 0x03, 0x04]
}

/// Whether the four bytes at `at` are the given ones.
fn signature_at(data: &[u8], at: usize, third: u8, fourth: u8) -> (found: bool)
    requires
        at + 4 <= data@.len(),
    ensures
        found == occurs_at(data@, seq![0x50, 0x4B, third, fourth], at as int),
{
    let found = data[at] == 0x50 && data[at + 1] == 0x4B && data[at + 2] == third && data[at + 3]
        == fourth;
    proof {
        let sig: Seq<u8> = seq![0x50, 0x4B, third, fourth];
        let part = data@.subrange(at as int, at + 4);
        assert(part[0] == data@[at as int] && part[1] == data@[at + 1] && part[2] == data@[at + 2]
            && part[3] == data@[at + 3]);
        if found {
            assert(part =~= sig);
        } else {
            assert(part[0] != sig[0] || part[1] != sig[1] || part[2] != sig[2] || part[3] != sig[3]);
        }
    }
    found
}

/// The last index at or before `at` where `tail` holds an end-of-central-directory
/// signature, or `-1`.
pub open spec fn eocd_before(tail: Seq<u8>, at: int) -> int
    decreases at + 1,
{
    if at < 0 {
        -1
    } else if occurs_at(tail, eocd_signature(), at) {
        at
    } else {
        eocd_before(tail, at - 1)
    }
}

/// The part of an archive in which its end-of-central-directory record may stand.
pub open spec fn archive_tail(bytes: Seq<u8>) -> Seq<u8> {
    if bytes.len() > EOCD_REACH {
        bytes.subrange(bytes.len() - EOCD_REACH, bytes.len() as int)
    } else {
        bytes
    }
}

/// Where the central directory starts and ends.
pub open spec fn directory_range(bytes: Seq<u8>) -> Result<(int, int), Error> {
    let tail = archive_tail(bytes);
    let eocd = eocd_before(tail, tail.len() - 4);
    if eocd < 0 {
        Err(Error::EocdNotFound)
    } else if eocd + 16 > tail.len() {
        Err(Error::Truncated { offset: (eocd + 12) as usize })
    } else if eocd + 20 > tail.len() {
        Err(Error::Truncated { offset: (eocd + 16) as usize })
    } else {
        let size = le32(tail, eocd + 12) as int;
        let start = le32(tail, eocd + 16) as int;
        if start + size > usize::MAX {
            Err(Error::DirectoryOverflow)
        } else if start + size > bytes.len() {
            Err(Error::BadDirectoryRange)
        } else {
            Ok((start, start + size))
        }
    }
}

/// Where the name of the record at `at` ends.
pub open spec fn name_end(bytes: Seq<u8>, at: int) -> int {
    at + 46 + le16(bytes, at + 28)
}

/// The raw name of the record at `at`.
pub open spec fn record_name(bytes: Seq<u8>, at: int) -> Seq<u8> {
    bytes.subrange(at + 46, name_end(bytes, at))
}

/// Where the record at `at` ends.
pub open spec fn record_end(bytes: Seq<u8>, at: int) -> int {
    name_end(bytes, at) + le16(bytes, at + 30) + le16(bytes, at + 32)
}

/// The entry that the record at `at` describes.
pub open spec fn record_entry(bytes: Seq<u8>, at: int) -> EntryView {
    EntryView {
        name: utf8_lossy(record_name(bytes, at)),
        uncompressed_size: le32(bytes, at + 24),
        compressed_size: le32(bytes, at + 20),
        local_header_offset: le32(bytes, at + 42),
        compression: le16(bytes, at + 10),
        bare: false,
    }
}

/// The offsets of the central directory records from `at` on, in order, or what is wrong
/// with the first record that cannot be walked.
pub open spec fn records_from(bytes: Seq<u8>, at: int, end: int) -> Result<Seq<int>, Error>
    decreases
            if end > at {
                end - at
            } else {
                0
            },
{
    if end - at < 46 {
        Ok(Seq::empty())
    } else if !occurs_at(bytes, record_signature(), at) {
        Err(Error::BadDirectorySignature { offset: at as usize })
    } else if name_end(bytes, at) > usize::MAX {
        Err(Error::NameOverflow)
    } else if name_end(bytes, at) > bytes.len() {
        Err(Error::BadNameRange { cause: RangeError::OutOfBounds })
    } else if record_end(bytes, at) > usize::MAX {
        Err(Error::RecordOverflow)
    } else {
        match records_from(bytes, record_end(bytes, at), end) {
            Ok(rest) => Ok(seq![at] + rest),
            Err(error) => Err(error),
        }
    }
}

/// The offsets of every central directory record of an archive, in order.
pub open spec fn archive_records(bytes: Seq<u8>) -> Result<Seq<int>, Error> {
    match directory_range(bytes) {
        Ok(range) => records_from(bytes, range.0, range.1),
        Err(error) => Err(error),
    }
}

/// The entries described by the records at `offsets`.
pub open spec fn record_entries(bytes: Seq<u8>, offsets: Seq<int>) -> Seq<EntryView> {
    offsets.map_values(|at: int| record_entry(bytes, at))
}

/// Whether `accept` may answer `yes` for the raw name `name`.
pub open spec fn may_answer<F: Fn(&[u8]) -> bool>(accept: F, name: Seq<u8>, yes: bool) -> bool {
    exists|raw: &[u8]| raw@ == name && #[trigger] call_ensures(accept, (raw,), yes)
}

/// Whether `keep` is a run of answers of `accept` for the records at `offsets`.
pub open spec fn answers<F: Fn(&[u8]) -> bool>(
    accept: F,
    bytes: Seq<u8>,
    offsets: Seq<int>,
    keep: Seq<bool>,
) -> bool {
    &&& keep.len() == offsets.len()
    &&& forall|i: int|
        0 <= i < offsets.len() ==> may_answer(
            accept,
            record_name(bytes, #[trigger] offsets[i]),
            keep[i],
        )
}

/// Whether `entries` are those of the records at `offsets` that `accept` answered yes for.
pub open spec fn selection<F: Fn(&[u8]) -> bool>(
    accept: F,
    bytes: Seq<u8>,
    offsets: Seq<int>,
    entries: Seq<EntryView>,
) -> bool {
    exists|keep: Seq<bool>| #[trigger]
        answers(accept, bytes, offsets, keep) && entries == kept(record_entries(bytes, offsets), keep)
}

/// Finds the end-of-central-directory record in the archive's tail.
fn find_eocd(tail: &[u8]) -> (found: Option<usize>)
    ensures
        match found {
            Some(at) => at == eocd_before(tail@, tail@.len() - 4) && at + 4 <= tail@.len(),
            None => eocd_before(tail@, tail@.len() - 4) < 0,
        },
{
    if tail.len() < 4 {
        return None;
    }
    let mut at: usize = tail.len() - 3;
    while at > 0
        invariant
            at + 3 <= tail@.len(),
            eocd_before(tail@, tail@.len() - 4) == eocd_before(tail@, at - 1),
        decreases at,
    {
        at = at - 1;
        if signature_at(tail, at, 0x05, 0x06) {
            return Some(at);
        }
    }
    None
}

/// The entries of an archive whose raw name `accept` accepts, in central-directory order.
pub fn parse_zip_entries<S: BytesSource + ?Sized, F: Fn(&[u8]) -> bool>(
    source: &S,
    accept: F,
) -> (entries: Result<Vec<ZipEntry>, Error>)
    requires
        forall|raw: &[u8]| call_requires(accept, (raw,)),
    ensures
        match archive_records(source.bytes()) {
            Ok(offsets) => entries matches Ok(list) && selection(
                accept,
                source.bytes(),
                offsets,
                entry_views(list@),
            ),
            Err(error) => entries == Err::<Vec<ZipEntry>, Error>(error),
        },
{
    let ghost bytes = source.bytes();
    let total = source.source_len();
    let search_start: usize = if total > EOCD_REACH { total - EOCD_REACH } else { 0 };
    let tail = match source.range(search_start, total - search_start) {
        Ok(tail) => tail,
        Err(cause) => {
            return Err(Error::Range { cause });
        },
    };
    assert(tail@ =~= archive_tail(bytes));
    let eocd = match find_eocd(tail) {
        Some(at) => at,
        None => {
            return Err(Error::EocdNotFound);
        },
    };
    assert(tail@.len() <= EOCD_REACH);
    let cd_size = match read_u32(tail, eocd + 12) {
        Ok(value) => value as usize,
        Err(error) => {
            return Err(error);
        },
    };
    let cd_offset = match read_u32(tail, eocd + 16) {
        Ok(value) => value as usize,
        Err(error) => {
            return Err(error);
        },
    };
    let cd_end = match cd_offset.checked_add(cd_size) {
        Some(end) => end,
        None => {
            return Err(Error::DirectoryOverflow);
        },
    };
    if cd_end > total {
        return Err(Error::BadDirectoryRange);
    }
    let mut entries: Vec<ZipEntry> = Vec::new();
    let mut offset: usize = cd_offset;
    let ghost mut done: Seq<int> = Seq::empty();
    let ghost mut keep: Seq<bool> = Seq::empty();
    assert(entry_views(entries@) =~= kept(record_entries(bytes, done), keep));
    while offset <= cd_end && cd_end - offset >= 46
        invariant
            bytes == source.bytes(),
            cd_end <= total == bytes.len(),
            forall|raw: &[u8]| call_requires(accept, (raw,)),
            directory_range(bytes) == Ok::<(int, int), Error>((cd_offset as int, cd_end as int)),
            match records_from(bytes, offset as int, cd_end as int) {
                Ok(rest) => archive_records(bytes) == Ok::<Seq<int>, Error>(done + rest),
                Err(error) => archive_records(bytes) == Err::<Seq<int>, Error>(error),
            },
            answers(accept, bytes, done, keep),
            entry_views(entries@) == kept(record_entries(bytes, done), keep),
        decreases
                if cd_end > offset {
                    cd_end - offset
                } else {
                    0
                },
    {
        let header = match source.range(offset, 46) {
            Ok(header) => header,
            Err(cause) => {
                return Err(Error::Range { cause });
            },
        };
        proof {
            lemma_window(bytes, header@, offset as int);
        }
        if !signature_at(header, 0, 0x01, 0x02) {
            return Err(Error::BadDirectorySignature { offset });
        }
        let name_len = match read_u16(header, 28) {
            Ok(value) => value as usize,
            Err(error) => {
                return Err(error);
            },
        };
        let extra_len = match read_u16(header, 30) {
            Ok(value) => value as usize,
            Err(error) => {
                return Err(error);
            },
        };
        let comment_len = match read_u16(header, 32) {
            Ok(value) => value as usize,
            Err(error) => {
                return Err(error);
            },
        };
        let name_start = offset + 46;
        let end = match name_start.checked_add(name_len) {
            Some(end) => end,
            None => {
                return Err(Error::NameOverflow);
            },
        };
        let name_bytes = match source.range(name_start, name_len) {
            Ok(name) => name,
            Err(cause) => {
                return Err(Error::BadNameRange { cause });
            },
        };
        assert(name_bytes@ == record_name(bytes, offset as int));
        let yes = accept(name_bytes);
        if yes {
            let uncompressed_size = match read_u32(header, 24) {
                Ok(value) => value as usize,
                Err(error) => {
                    return Err(error);
                },
            };
            let compressed_size = match read_u32(header, 20) {
                Ok(value) => value as usize,
                Err(error) => {
                    return Err(error);
                },
            };
            let local_header_offset = match read_u32(header, 42) {
                Ok(value) => value as usize,
                Err(error) => {
                    return Err(error);
                },
            };
            let compression = match read_u16(header, 10) {
                Ok(value) => value,
                Err(error) => {
                    return Err(error);
                },
            };
            let entry = ZipEntry {
                name: crate::text::lossy_string(name_bytes),
                uncompressed_size,
                compressed_size,
                local_header_offset,
                compression,
                bare: false,
            };
            assert(entry@ =~= record_entry(bytes, offset as int));
            entries.push(entry);
        }
        let next = match end.checked_add(extra_len) {
            Some(sum) => match sum.checked_add(comment_len) {
                Some(next) => next,
                None => {
                    return Err(Error::RecordOverflow);
                },
            },
            None => {
                return Err(Error::RecordOverflow);
            },
        };
        proof {
            let before = done;
            let before_keep = keep;
            done = done.push(offset as int);
            keep = keep.push(yes);
            assert(done.drop_last() =~= before && keep.drop_last() =~= before_keep);
            assert(record_entries(bytes, done).drop_last() =~= record_entries(bytes, before));
            assert(may_answer(accept, record_name(bytes, offset as int), yes));
            assert(answers(accept, bytes, done, keep));
            if yes {
                assert(entry_views(entries@).drop_last() =~= kept(
                    record_entries(bytes, before),
                    before_keep,
                ));
            }
            assert(entry_views(entries@) =~= kept(record_entries(bytes, done), keep));
            match records_from(bytes, next as int, cd_end as int) {
                Ok(rest) => {
                    assert(before + (seq![offset as int] + rest) =~= done + rest);
                },
                Err(_) => {},
            }
        }
        offset = next;
    }
    assert(done + Seq::<int>::empty() =~= done);
    assert(selection(accept, bytes, done, entry_views(entries@)));
    Ok(entries)
}

/// A window of an archive reads as the archive does.
proof fn lemma_window(bytes: Seq<u8>, part: Seq<u8>, at: int)
    requires
        0 <= at,
        at + part.len() <= bytes.len(),
        part == bytes.subrange(at, at + part.len()),
    ensures
        forall|i: int| 0 <= i && i + 2 <= part.len() ==> #[trigger] le16(part, i) == le16(bytes, at + i),
        forall|i: int| 0 <= i && i + 4 <= part.len() ==> #[trigger] le32(part, i) == le32(bytes, at + i),
        forall|sig: Seq<u8>|
            sig.len() <= part.len() ==> #[trigger] occurs_at(part, sig, 0) == occurs_at(bytes, sig, at),
{
    assert forall|sig: Seq<u8>| sig.len() <= part.len() implies #[trigger] occurs_at(part, sig, 0)
        == occurs_at(bytes, sig, at) by {
        assert(part.subrange(0, sig.len() as int) =~= bytes.subrange(at, at + sig.len()));
    }
}

/// Default ceiling on what one entry may inflate to.
///
/// The first allocation is bounded by the *compressed* size, but the buffer still grows with
/// whatever the deflate stream really produces, so a few megabytes of input can expand to
/// gigabytes. Real DEX entries are tens of MiB, so this is far above any legitimate archive
/// while keeping the worst case survivable.
pub const DEFAULT_MAX_INFLATED_ENTRY: usize = 0x1000_0000;

/// The ceiling in force.
///
/// A host with a tighter memory budget lowers it before its first command; everything else
/// leaves the default. It is read once per command and threaded down from there.
pub struct InflationCeiling {
    bytes: usize,
}

impl InflationCeiling {
    /// The ceiling in force.
    pub closed spec fn in_force(&self) -> usize {
        self.bytes
    }

    /// The default ceiling.
    pub fn new() -> (ceiling: Self)
        ensures
            ceiling.in_force() == DEFAULT_MAX_INFLATED_ENTRY,
    {
        InflationCeiling { bytes: DEFAULT_MAX_INFLATED_ENTRY }
    }

    /// Sets the per-entry ceiling and returns the previous one.
    pub fn set_max_inflated_entry(&mut self, bytes: usize) -> (previous: usize)
        ensures
            previous == old(self).in_force(),
            final(self).in_force() == bytes,
    {
        let previous = self.bytes;
        self.bytes = bytes;
        previous
    }

    /// The ceiling in force, read once per command rather than per entry.
    pub fn max_inflated_entry(&self) -> (bytes: usize)
        ensures
            bytes == self.in_force(),
    {
        self.bytes
    }
}

/// Why a deflate stream was not decoded to its end.
#[derive(Clone, Copy, Debug, PartialEq, Eq, Structural)]
pub enum DeflateError {
    BadData,
    InsufficientSpace,
}

/// How far short of a full buffer the decoder may stop: the longest stored block, less one.
pub const DECODER_SHORTFALL: usize = 65_534;

/// What a raw deflate stream at the start of `compressed` decodes to, if it is well formed.
pub uninterp spec fn deflate_stream(compressed: Seq<u8>) -> Option<Seq<u8>>;

/// `libdeflater::Decompressor::deflate_decompress`, on a decompressor of its own.
///
/// A well-formed stream whose output fits `out` is decoded to the start of `out`, and the
/// number of bytes is returned. One that does not fit is reported as
/// [`DeflateError::InsufficientSpace`]: libdeflate's decoder stops in front of the first match
/// or stored block that does not fit what is left of the buffer, so all but the last
/// [`DECODER_SHORTFALL`] bytes of `out` hold the start of the output (its header leaves the
/// buffer undefined there; this is what its source does). A malformed stream is an error;
/// which of the two depends on where the decoder notices, and is left unsaid. An empty input is
/// always an error: the decoder wants the header of a block and finds no byte of one.
#[verifier::external_body]
fn deflate_decompress(compressed: &[u8], out: &mut Vec<u8>) -> (written: Result<usize, DeflateError>)
    ensures
        final(out)@.len() == old(out)@.len(),
        compressed@.len() == 0 ==> written is Err,
        match deflate_stream(compressed@) {
            Some(data) => {
                &&& data.len() <= old(out)@.len() ==> (written matches Ok(n) && n == data.len()
                    && final(out)@.take(n as int) == data)
                &&& data.len() > old(out)@.len() ==> {
                    &&& written == Err::<usize, DeflateError>(DeflateError::InsufficientSpace)
                    &&& forall|n: int|
                        0 <= n <= old(out)@.len() - DECODER_SHORTFALL
                            ==> #[trigger] final(out)@.take(n) == data.take(n)
                }
            },
            None => written is Err,
        },
{
    match libdeflater::Decompressor::new().deflate_decompress(compressed, out) {
        Ok(written) => Ok(written),
        Err(libdeflater::DecompressionError::BadData) => Err(DeflateError::BadData),
        Err(libdeflater::DecompressionError::InsufficientSpace) => Err(DeflateError::InsufficientSpace),
    }
}

/// What a payload decodes to as a deflate stream, if it is a well-formed one. An empty payload is
/// none.
pub open spec fn stream_of(payload: Seq<u8>) -> Option<Seq<u8>> {
    if payload.len() == 0 {
        None
    } else {
        deflate_stream(payload)
    }
}

/// Where the payload behind the local header at `at` starts.
pub open spec fn payload_start(bytes: Seq<u8>, at: int) -> int {
    at + 30 + le16(bytes, at + 26) + le16(bytes, at + 28)
}

/// The payload of `entry` in the archive, as it is stored.
pub open spec fn payload_of(bytes: Seq<u8>, entry: ZipEntry) -> Result<Seq<u8>, Error> {
    let at = entry.local_header_offset as int;
    let size = entry.compressed_size as int;
    if entry.bare {
        match range_of(bytes, 0, size) {
            Ok(payload) => Ok(payload),
            Err(cause) => Err(Error::BadBareRange { cause }),
        }
    } else if at + 30 > bytes.len() || at + 30 > usize::MAX || !occurs_at(
        bytes,
        local_signature(),
        at,
    ) {
        Err(Error::BadLocalHeader { name: entry.name })
    } else if payload_start(bytes, at) + size > usize::MAX {
        Err(Error::CompressedOverflow)
    } else {
        match range_of(bytes, payload_start(bytes, at), size) {
            Ok(payload) => Ok(payload),
            Err(cause) => Err(Error::BadCompressedRange { cause }),
        }
    }
}

/// The compressed bytes of `entry`, with the local header skipped.
fn compressed_slice<'a, S: BytesSource + ?Sized>(source: &'a S, entry: &ZipEntry) -> (payload: Result<
    &'a [u8],
    Error,
>)
    ensures
        match payload {
            Ok(slice) => payload_of(source.bytes(), *entry) == Ok::<Seq<u8>, Error>(slice@),
            Err(error) => payload_of(source.bytes(), *entry) == Err::<Seq<u8>, Error>(error),
        },
{
    // A bare entry has no local header: the payload is the file.
    if entry.bare {
        return match source.range(0, entry.compressed_size) {
            Ok(payload) => Ok(payload),
            Err(cause) => Err(Error::BadBareRange { cause }),
        };
    }
    let offset = entry.local_header_offset;
    // One read covers the fixed header and the name/extra lengths; a missing or
    // unreadable header reports the same thing a wrong signature does.
    let header = match source.range(offset, 30) {
        Ok(header) => header,
        Err(cause) => {
            return Err(Error::BadLocalHeader { name: entry.name.clone() });
        },
    };
    proof {
        lemma_window(source.bytes(), header@, offset as int);
    }
    if !signature_at(header, 0, 0x03, 0x04) {
        return Err(Error::BadLocalHeader { name: entry.name.clone() });
    }
    let name_len = match read_u16(header, 26) {
        Ok(value) => value as usize,
        Err(error) => {
            return Err(error);
        },
    };
    let extra_len = match read_u16(header, 28) {
        Ok(value) => value as usize,
        Err(error) => {
            return Err(error);
        },
    };
    let start = match (offset + 30).checked_add(name_len + extra_len) {
        Some(start) => start,
        None => {
            return Err(Error::CompressedOverflow);
        },
    };
    match start.checked_add(entry.compressed_size) {
        Some(end) => match source.range(start, entry.compressed_size) {
            Ok(payload) => Ok(payload),
            Err(cause) => Err(Error::BadCompressedRange { cause }),
        },
        None => Err(Error::CompressedOverflow),
    }
}

/// The smaller of two sizes.
pub open spec fn least(a: int, b: int) -> int {
    if a <= b {
        a
    } else {
        b
    }
}

/// The larger of two sizes.
pub open spec fn greatest(a: int, b: int) -> int {
    if a >= b {
        a
    } else {
        b
    }
}

/// How much room the first attempt at an entry is given.
///
/// A declared size is attacker-controlled, so the room is bounded by four times the
/// compressed size, which covers the ratios real entries show.
pub open spec fn first_room(declared: int, compressed: int) -> int {
    least(declared, greatest(least(compressed * 4, usize::MAX as int), 65_536))
}

/// How much room the attempt after one with `room` bytes is given.
pub open spec fn next_room(declared: int, room: int) -> int {
    least(greatest(least(room * 2, usize::MAX as int), 65_536), declared)
}

/// The room of the attempt, from one with `room` bytes on, that `needed` bytes fit, or of the
/// last attempt there is.
pub open spec fn final_room(declared: int, room: int, needed: int) -> int
    decreases declared - room,
{
    if needed <= room || room >= declared || room < 0 || declared > usize::MAX {
        room
    } else {
        final_room(declared, next_room(declared, room), needed)
    }
}

/// An entry that would inflate past `max_inflated`.
pub open spec fn past_limit(entry: ZipEntry, max_inflated: usize) -> Error {
    Error::InflationLimit { name: entry.name, mebibytes: max_inflated >> 20 }
}

/// What inflating `entry` gives when its stream decodes to `data`.
pub open spec fn inflated(entry: ZipEntry, data: Seq<u8>, max_inflated: usize) -> Result<
    Seq<u8>,
    Error,
> {
    let declared = entry.uncompressed_size as int;
    let first = first_room(declared, entry.compressed_size as int);
    let room = final_room(declared, first, data.len() as int);
    if room > max_inflated {
        Err(past_limit(entry, max_inflated))
    } else if data.len() > room {
        Err(Error::IncompleteStream { name: entry.name })
    } else if data.len() != declared {
        Err(
            Error::SizeMismatch {
                name: entry.name,
                expected: entry.uncompressed_size,
                got: data.len() as usize,
            },
        )
    } else {
        Ok(data)
    }
}

/// Whether `outcome` is what inflating `entry` gives.
///
/// A malformed stream is reported either as such or, where the ceiling is below the declared
/// size, as one that passes the ceiling: which comes first depends on where the decoder
/// notices.
pub open spec fn inflates_to(
    bytes: Seq<u8>,
    entry: ZipEntry,
    max_inflated: usize,
    outcome: Result<Seq<u8>, Error>,
) -> bool {
    match payload_of(bytes, entry) {
        Err(error) => outcome == Err::<Seq<u8>, Error>(error),
        Ok(payload) => if entry.compression == 0 {
            if payload.len() != entry.uncompressed_size {
                outcome == Err::<Seq<u8>, Error>(
                    Error::SizeMismatch {
                        name: entry.name,
                        expected: entry.uncompressed_size,
                        got: payload.len() as usize,
                    },
                )
            } else {
                outcome == Ok::<Seq<u8>, Error>(payload)
            }
        } else if entry.compression == 8 {
            match stream_of(payload) {
                Some(data) => outcome == inflated(entry, data, max_inflated),
                None => {
                    let declared = entry.uncompressed_size as int;
                    let first = first_room(declared, entry.compressed_size as int);
                    ||| outcome == Err::<Seq<u8>, Error>(past_limit(entry, max_inflated)) && declared
                        > max_inflated
                    ||| outcome == Err::<Seq<u8>, Error>(
                        Error::IncompleteStream { name: entry.name },
                    ) && first <= max_inflated
                },
            }
        } else {
            outcome == Err::<Seq<u8>, Error>(
                Error::UnsupportedCompression { name: entry.name, method: entry.compression },
            )
        },
    }
}

/// The outcome of a call that returns bytes, with the bytes as a sequence.
pub open spec fn bytes_outcome(result: Result<Vec<u8>, Error>) -> Result<Seq<u8>, Error> {
    match result {
        Ok(data) => Ok(data@),
        Err(error) => Err(error),
    }
}

fn smaller(a: usize, b: usize) -> (m: usize)
    ensures
        m == least(a as int, b as int),
{
    if a <= b {
        a
    } else {
        b
    }
}

/// `scale` times `size`, or the largest size there is, but no less than 64 KiB.
fn scaled(size: usize, scale: usize) -> (m: usize)
    ensures
        m == greatest(least(size * scale, usize::MAX as int), 65_536),
{
    let product = match size.checked_mul(scale) {
        Some(product) => product,
        None => usize::MAX,
    };
    if product >= 65_536 {
        product
    } else {
        65_536
    }
}

/// Inflates a deflate payload, growing the buffer on demand.
fn inflate_payload(payload: &[u8], entry: &ZipEntry, max_inflated: usize) -> (data: Result<
    Vec<u8>,
    Error,
>)
    ensures
        match stream_of(payload@) {
            Some(out) => bytes_outcome(data) == inflated(*entry, out, max_inflated),
            None => {
                let declared = entry.uncompressed_size as int;
                let first = first_room(declared, entry.compressed_size as int);
                ||| data == Err::<Vec<u8>, Error>(past_limit(*entry, max_inflated)) && declared
                    > max_inflated
                ||| data == Err::<Vec<u8>, Error>(Error::IncompleteStream { name: entry.name })
                    && first <= max_inflated
            },
        },
{
    let declared = entry.uncompressed_size;
    let initial = smaller(declared, scaled(entry.compressed_size, 4));
    proof {
        if stream_of(payload@) is Some {
            lemma_final_room(declared as int, initial as int, stream_of(payload@)->0.len() as int);
        }
    }
    // Reject before allocating: a host that set a ceiling below the first estimate
    // wants the entry reported, not a smaller guess at its size.
    if initial > max_inflated {
        return Err(
            Error::InflationLimit { name: entry.name.clone(), mebibytes: max_inflated >> 20 },
        );
    }
    let mut output: Vec<u8> = vec![0u8; initial];
    loop
        invariant
            declared == entry.uncompressed_size,
            initial == first_room(declared as int, entry.compressed_size as int),
            initial <= max_inflated,
            output@.len() <= declared,
            output@.len() <= max_inflated,
            stream_of(payload@) matches Some(out) ==> final_room(
                declared as int,
                initial as int,
                out.len() as int,
            ) == final_room(declared as int, output@.len() as int, out.len() as int),
        decreases declared - output@.len(),
    {
        let room = output.len();
        match deflate_decompress(payload, &mut output) {
            Ok(written) => {
                if written != declared {
                    return Err(
                        Error::SizeMismatch {
                            name: entry.name.clone(),
                            expected: declared,
                            got: written,
                        },
                    );
                }
                assert(output@.take(written as int) =~= output@);
                return Ok(output);
            },
            Err(cause) => {
                let full = match cause {
                    DeflateError::InsufficientSpace => true,
                    DeflateError::BadData => false,
                };
                if !full || room >= declared {
                    return Err(Error::IncompleteStream { name: entry.name.clone() });
                }
                let grown = smaller(scaled(room, 2), declared);
                proof {
                    if stream_of(payload@) is Some {
                        lemma_final_room(
                            declared as int,
                            grown as int,
                            stream_of(payload@)->0.len() as int,
                        );
                    }
                }
                if grown > max_inflated {
                    return Err(
                        Error::InflationLimit {
                            name: entry.name.clone(),
                            mebibytes: max_inflated >> 20,
                        },
                    );
                }
                output = vec![0u8; grown];
            },
        }
    }
}

/// The last attempt has at least the room of any earlier one, and never more than was declared.
proof fn lemma_final_room(declared: int, room: int, needed: int)
    requires
        0 <= room <= declared <= usize::MAX,
    ensures
        room <= final_room(declared, room, needed) <= declared,
        needed <= declared ==> needed <= final_room(declared, room, needed),
        needed > declared ==> final_room(declared, room, needed) == declared,
    decreases declared - room,
{
    if needed > room && room < declared {
        lemma_final_room(declared, next_room(declared, room), needed);
    }
}

/// The whole of `entry`, inflated.
pub fn inflate_entry<S: BytesSource + ?Sized>(source: &S, entry: &ZipEntry, max_inflated: usize) -> (data:
    Result<Vec<u8>, Error>)
    ensures
        inflates_to(source.bytes(), *entry, max_inflated, bytes_outcome(data)),
{
    let compressed = match compressed_slice(source, entry) {
        Ok(compressed) => compressed,
        Err(error) => {
            return Err(error);
        },
    };
    if entry.compression == 0 {
        if compressed.len() != entry.uncompressed_size {
            return Err(
                Error::SizeMismatch {
                    name: entry.name.clone(),
                    expected: entry.uncompressed_size,
                    got: compressed.len(),
                },
            );
        }
        return Ok(vstd::slice::slice_to_vec(compressed));
    }
    if entry.compression == 8 {
        return inflate_payload(compressed, entry, max_inflated);
    }
    Err(Error::UnsupportedCompression { name: entry.name.clone(), method: entry.compression })
}

/// Whether `outcome` is what reading a prefix of `entry` gives.
///
/// Of a malformed stream only the length of what comes back is said: how many of those bytes
/// the decoder produced before it noticed depends on the stream.
pub open spec fn prefix_reads(
    bytes: Seq<u8>,
    entry: ZipEntry,
    max_inflated: usize,
    aim: usize,
    outcome: Result<Seq<u8>, Error>,
) -> bool {
    let target = least(aim as int, entry.uncompressed_size as int);
    if entry.compression != 8 {
        inflates_to(bytes, entry, max_inflated, outcome)
    } else if target > max_inflated {
        outcome == Err::<Seq<u8>, Error>(past_limit(entry, max_inflated))
    } else {
        match payload_of(bytes, entry) {
            Err(error) => outcome == Err::<Seq<u8>, Error>(error),
            Ok(payload) => if payload.len() == 0 {
                outcome == Err::<Seq<u8>, Error>(Error::NoProgress { name: entry.name })
            } else {
                match stream_of(payload) {
                    Some(data) => outcome == Ok::<Seq<u8>, Error>(
                        if data.len() <= target + PREFIX_MARGIN {
                            data
                        } else {
                            data.take(target)
                        },
                    ),
                    None => {
                        ||| outcome == Err::<Seq<u8>, Error>(
                            Error::IncompleteStream { name: entry.name },
                        )
                        ||| outcome matches Ok(data) && data.len() == target
                    },
                }
            },
        }
    }
}

/// Room kept beyond a prefix, so that the decoder's shortfall does not reach into it.
pub const PREFIX_MARGIN: usize = 65_536;

/// Reads the first `aim` bytes of `entry` (or all of it when it is shorter).
///
/// This is what the prefix paths read a DEX with: everything they look at sits before the
/// code section, which is most of a DEX. The decoder cannot stream, so one call decodes into
/// the prefix plus a margin; the first `aim` bytes are then exact even when the stream goes on.
pub fn inflate_prefix<S: BytesSource + ?Sized>(
    source: &S,
    entry: &ZipEntry,
    max_inflated: usize,
    aim: usize,
) -> (data: Result<Vec<u8>, Error>)
    requires
        least(aim as int, entry.uncompressed_size as int) + PREFIX_MARGIN <= usize::MAX,
    ensures
        prefix_reads(source.bytes(), *entry, max_inflated, aim, bytes_outcome(data)),
{
    if entry.compression != 8 {
        return inflate_entry(source, entry, max_inflated);
    }
    let target = smaller(aim, entry.uncompressed_size);
    if target > max_inflated {
        return Err(
            Error::InflationLimit { name: entry.name.clone(), mebibytes: max_inflated >> 20 },
        );
    }
    let compressed = match compressed_slice(source, entry) {
        Ok(compressed) => compressed,
        Err(error) => {
            return Err(error);
        },
    };
    // The decoder reports an empty stream as bad data; it is worded as a stream that ends
    // before it produced a byte.
    if compressed.len() == 0 {
        return Err(Error::NoProgress { name: entry.name.clone() });
    }
    let mut buffer: Vec<u8> = vec![0u8; target + PREFIX_MARGIN];
    match deflate_decompress(compressed, &mut buffer) {
        Ok(written) => {
            buffer.truncate(written);
        },
        Err(DeflateError::InsufficientSpace) => {
            let ghost full = buffer@;
            buffer.truncate(target);
            assert(buffer@ =~= full.take(target as int));
        },
        Err(DeflateError::BadData) => {
            return Err(Error::IncompleteStream { name: entry.name.clone() });
        },
    }
    Ok(buffer)
}

/// A stream that decodes to as many bytes as its entry declares is what inflating the entry
/// gives, whenever the ceiling leaves room for it.
pub proof fn law_declared_stream_inflates(entry: ZipEntry, data: Seq<u8>, max_inflated: usize)
    requires
        data.len() == entry.uncompressed_size,
        data.len() <= max_inflated,
    ensures
        inflated(entry, data, max_inflated) == Ok::<Seq<u8>, Error>(data),
{
    let declared = entry.uncompressed_size as int;
    lemma_final_room(
        declared,
        first_room(declared, entry.compressed_size as int),
        data.len() as int,
    );
}

/// A stream of another length than its entry declares is never handed out: where the ceiling
/// admits the declared size, a longer one is an incomplete stream and a shorter one a size
/// mismatch.
pub proof fn law_misdeclared_stream_is_refused(entry: ZipEntry, data: Seq<u8>, max_inflated: usize)
    requires
        data.len() != entry.uncompressed_size,
    ensures
        inflated(entry, data, max_inflated) is Err,
        entry.uncompressed_size <= max_inflated && data.len() > entry.uncompressed_size ==> inflated(
            entry,
            data,
            max_inflated,
        ) == Err::<Seq<u8>, Error>(Error::IncompleteStream { name: entry.name }),
        entry.uncompressed_size <= max_inflated && data.len() < entry.uncompressed_size ==> inflated(
            entry,
            data,
            max_inflated,
        ) == Err::<Seq<u8>, Error>(
            Error::SizeMismatch {
                name: entry.name,
                expected: entry.uncompressed_size,
                got: data.len() as usize,
            },
        ),
{
    let declared = entry.uncompressed_size as int;
    lemma_final_room(
        declared,
        first_room(declared, entry.compressed_size as int),
        data.len() as int,
    );
}

/// Whatever a stream decodes to, no more bytes than the ceiling are ever handed out.
pub proof fn law_inflation_is_bounded(entry: ZipEntry, data: Seq<u8>, max_inflated: usize)
    ensures
        inflated(entry, data, max_inflated) matches Ok(out) ==> out == data && out.len()
            <= max_inflated,
{
    let declared = entry.uncompressed_size as int;
    lemma_final_room(
        declared,
        first_room(declared, entry.compressed_size as int),
        data.len() as int,
    );
}

/// What a prefix read gives of a well-formed stream is a prefix of what the stream decodes to,
/// and reaches as far as was asked for or the stream goes.
pub proof fn law_prefix_is_exact(
    bytes: Seq<u8>,
    entry: ZipEntry,
    max_inflated: usize,
    aim: usize,
    outcome: Result<Seq<u8>, Error>,
    payload: Seq<u8>,
    data: Seq<u8>,
)
    requires
        entry.compression == 8,
        prefix_reads(bytes, entry, max_inflated, aim, outcome),
        payload_of(bytes, entry) == Ok::<Seq<u8>, Error>(payload),
        stream_of(payload) == Some(data),
        outcome is Ok,
    ensures
        outcome->Ok_0.is_prefix_of(data),
        outcome->Ok_0.len() >= least(
            least(aim as int, entry.uncompressed_size as int),
            data.len() as int,
        ),
{
}

/// Where the whole of an entry can be read, any prefix of it can: it is a prefix of what the whole
/// read gives, and reaches as far as was asked for or the entry goes.
pub proof fn law_prefix_read_agrees_with_the_whole(
    bytes: Seq<u8>,
    entry: ZipEntry,
    max_inflated: usize,
    aim: usize,
    outcome: Result<Seq<u8>, Error>,
    data: Seq<u8>,
)
    requires
        inflates_to(bytes, entry, max_inflated, Ok::<Seq<u8>, Error>(data)),
        prefix_reads(bytes, entry, max_inflated, aim, outcome),
    ensures
        outcome is Ok,
        outcome->Ok_0.is_prefix_of(data),
        outcome->Ok_0.len() >= least(aim as int, data.len() as int),
{
    if entry.compression == 8 {
        let payload = payload_of(bytes, entry)->Ok_0;
        let stream = stream_of(payload)->0;
        law_inflation_is_bounded(entry, stream, max_inflated);
    }
}

/// The records of an archive stand one behind the other, each with its fixed part and its name
/// inside the archive.
pub proof fn law_records_are_in_the_archive(bytes: Seq<u8>, at: int, end: int)
    requires
        0 <= at,
        end <= bytes.len(),
        records_from(bytes, at, end) is Ok,
    ensures
        forall|i: int|
            0 <= i < records_from(bytes, at, end)->Ok_0.len() ==> {
                let offset = #[trigger] records_from(bytes, at, end)->Ok_0[i];
                at <= offset && offset + 46 <= end && name_end(bytes, offset) <= bytes.len()
            },
        forall|i: int, j: int|
            0 <= i < j < records_from(bytes, at, end)->Ok_0.len() ==> record_end(
                bytes,
                #[trigger] records_from(bytes, at, end)->Ok_0[i],
            ) <= #[trigger] records_from(bytes, at, end)->Ok_0[j],
    decreases
            if end > at {
                end - at
            } else {
                0
            },
{
    if end - at >= 46 {
        let next = record_end(bytes, at);
        law_records_are_in_the_archive(bytes, next, end);
        let all = records_from(bytes, at, end)->Ok_0;
        let rest = records_from(bytes, next, end)->Ok_0;
        assert forall|i: int| 0 <= i < all.len() implies at <= #[trigger] all[i] && all[i] + 46 <= end
            && name_end(bytes, all[i]) <= bytes.len() by {
            if i > 0 {
                assert(all[i] == rest[i - 1]);
            }
        }
        assert forall|i: int, j: int| 0 <= i < j < all.len() implies record_end(
            bytes,
            #[trigger] all[i],
        ) <= #[trigger] all[j] by {
            assert(all[j] == rest[j - 1]);
            if i > 0 {
                assert(all[i] == rest[i - 1]);
            }
        }
    }
}

/// When `accept` answers by a predicate on the raw name, the entries it selects are those of
/// the records whose name meets the predicate, in order.
pub proof fn law_selection_by_name<F: Fn(&[u8]) -> bool>(
    accept: F,
    wanted: spec_fn(Seq<u8>) -> bool,
    bytes: Seq<u8>,
    offsets: Seq<int>,
    entries: Seq<EntryView>,
)
    requires
        selection(accept, bytes, offsets, entries),
        forall|raw: &[u8], yes: bool| #[trigger]
            call_ensures(accept, (raw,), yes) ==> yes == wanted(raw@),
    ensures
        entries == record_entries(
            bytes,
            offsets.filter(|at: int| wanted(record_name(bytes, at))),
        ),
{
    let keep = choose|keep: Seq<bool>| #[trigger]
        answers(accept, bytes, offsets, keep) && entries == kept(record_entries(bytes, offsets), keep);
    let chosen = |at: int| wanted(record_name(bytes, at));
    assert forall|i: int| 0 <= i < offsets.len() implies keep[i] == chosen(#[trigger] offsets[i]) by {
        assert(may_answer(accept, record_name(bytes, offsets[i]), keep[i]));
    }
    lemma_kept_filter(offsets, keep, chosen);
    lemma_kept_entries(bytes, offsets, keep);
}

proof fn lemma_kept_entries(bytes: Seq<u8>, offsets: Seq<int>, keep: Seq<bool>)
    requires
        keep.len() == offsets.len(),
    ensures
        kept(record_entries(bytes, offsets), keep) == record_entries(bytes, kept(offsets, keep)),
    decreases offsets.len(),
{
    if offsets.len() > 0 {
        lemma_kept_entries(bytes, offsets.drop_last(), keep.drop_last());
        assert(record_entries(bytes, offsets).drop_last() =~= record_entries(
            bytes,
            offsets.drop_last(),
        ));
    }
    assert(kept(record_entries(bytes, offsets), keep) =~= record_entries(bytes, kept(offsets, keep)));
}

/// A record of the central directory is read by its fields: the method, the two sizes, the lengths
/// of the name, of the extra field and of the comment, and the place of the local header, each
/// where a writer puts it.
pub proof fn law_record_reads_back(
    bytes: Seq<u8>,
    at: int,
    name: Seq<u8>,
    method: u16,
    compressed: u32,
    uncompressed: u32,
    extra: u16,
    comment: u16,
    local: u32,
)
    requires
        0 <= at,
        name.len() <= u16::MAX,
        occurs_at(bytes, written16(method), at + 10),
        occurs_at(bytes, written32(compressed), at + 20),
        occurs_at(bytes, written32(uncompressed), at + 24),
        occurs_at(bytes, written16(name.len() as u16), at + 28),
        occurs_at(bytes, written16(extra), at + 30),
        occurs_at(bytes, written16(comment), at + 32),
        occurs_at(bytes, written32(local), at + 42),
        occurs_at(bytes, name, at + 46),
    ensures
        record_name(bytes, at) == name,
        record_end(bytes, at) == at + 46 + name.len() + extra + comment,
        record_entry(bytes, at).name == utf8_lossy(name),
        record_entry(bytes, at).compression == method,
        record_entry(bytes, at).compressed_size == compressed,
        record_entry(bytes, at).uncompressed_size == uncompressed,
        record_entry(bytes, at).local_header_offset == local,
        !record_entry(bytes, at).bare,
{
    law_half_reads_back(bytes, at + 10, method);
    law_word_reads_back(bytes, at + 20, compressed);
    law_word_reads_back(bytes, at + 24, uncompressed);
    law_half_reads_back(bytes, at + 28, name.len() as u16);
    law_half_reads_back(bytes, at + 30, extra);
    law_half_reads_back(bytes, at + 32, comment);
    law_word_reads_back(bytes, at + 42, local);
}

/// A directory whose records stand one behind the other, each with its signature, is walked record
/// by record: `starts` are where the records start, and where the last one ends.
pub proof fn law_directory_is_walked(bytes: Seq<u8>, starts: Seq<int>, k: int)
    requires
        0 <= k < starts.len(),
        starts.last() <= bytes.len() <= usize::MAX,
        forall|i: int| 0 <= i < starts.len() - 1 ==> 0 <= #[trigger] starts[i] && starts[i] + 46
            <= starts.last() && occurs_at(bytes, seq![0x50u8, 0x4B, 0x01, 0x02], starts[i]),
        forall|i: int| #![trigger starts[i]]
            0 <= i < starts.len() - 1 ==> record_end(bytes, starts[i]) == starts[i + 1]
                && starts[i + 1] <= starts.last(),
    ensures
        records_from(bytes, starts[k], starts.last()) == Ok::<Seq<int>, Error>(
            starts.subrange(k, starts.len() - 1),
        ),
    decreases starts.len() - k,
{
    let end = starts.last();
    let rest = starts.subrange(k, starts.len() - 1);
    if k == starts.len() - 1 {
        assert(rest =~= Seq::empty());
    } else {
        let at = starts[k];
        law_directory_is_walked(bytes, starts, k + 1);
        assert(record_end(bytes, at) == starts[k + 1]);
        assert(name_end(bytes, at) <= record_end(bytes, at));
        assert(rest =~= seq![at] + starts.subrange(k + 1, starts.len() - 1));
    }
}

proof fn lemma_last_eocd(tail: Seq<u8>, from: int, at: int)
    requires
        0 <= at <= from,
        occurs_at(tail, seq![0x50u8, 0x4B, 0x05, 0x06], at),
        forall|i: int| at < i <= from ==> !occurs_at(tail, seq![0x50u8, 0x4B, 0x05, 0x06], i),
    ensures
        eocd_before(tail, from) == at,
    decreases from - at,
{
    if at < from {
        assert(!occurs_at(tail, seq![0x50u8, 0x4B, 0x05, 0x06], from));
        lemma_last_eocd(tail, from - 1, at);
    }
}

/// The last end record of an archive says where its directory is, by its size and its start, as
/// long as it stands where one may be.
pub proof fn law_last_end_record_decides(bytes: Seq<u8>, at: int, size: u32, start: u32)
    requires
        bytes.len() <= usize::MAX,
        0 <= at,
        bytes.len() - 65_557 <= at,
        occurs_at(bytes, seq![0x50u8, 0x4B, 0x05, 0x06], at),
        forall|i: int|
            at < i <= bytes.len() - 4 ==> !occurs_at(bytes, seq![0x50u8, 0x4B, 0x05, 0x06], i),
        occurs_at(bytes, written32(size), at + 12),
        occurs_at(bytes, written32(start), at + 16),
        start + size <= bytes.len(),
    ensures
        directory_range(bytes) == Ok::<(int, int), Error>((start as int, start + size)),
{
    let tail = archive_tail(bytes);
    let cut = bytes.len() - tail.len();
    let sig = seq![0x50u8, 0x4B, 0x05, 0x06];
    assert forall|i: int| 0 <= i implies occurs_at(tail, sig, i) == #[trigger] occurs_at(
        bytes,
        sig,
        cut + i,
    ) by {
        if i + 4 <= tail.len() {
            assert(tail.subrange(i, i + 4) =~= bytes.subrange(cut + i, cut + i + 4));
        }
    }
    assert(occurs_at(bytes, sig, cut + (at - cut)));
    assert forall|i: int| at - cut < i <= tail.len() - 4 implies !occurs_at(tail, sig, i) by {
        assert(!occurs_at(bytes, sig, cut + i));
    }
    lemma_last_eocd(tail, tail.len() - 4, at - cut);
    assert(tail.subrange(at - cut + 12, at - cut + 16) =~= bytes.subrange(at + 12, at + 16));
    assert(tail.subrange(at - cut + 16, at - cut + 20) =~= bytes.subrange(at + 16, at + 20));
    law_word_reads_back(tail, at - cut + 12, size);
    law_word_reads_back(tail, at - cut + 16, start);
}

/// The payload of an entry is what stands behind its local header, the name and the extra field
/// that the header counts, and is as long as the directory says.
pub proof fn law_payload_reads_back(
    bytes: Seq<u8>,
    entry: ZipEntry,
    name: u16,
    extra: u16,
    payload: Seq<u8>,
)
    requires
        bytes.len() <= usize::MAX,
        !entry.bare,
        entry.compressed_size == payload.len(),
        occurs_at(bytes, seq![0x50u8, 0x4B, 0x03, 0x04], entry.local_header_offset as int),
        occurs_at(bytes, written16(name), entry.local_header_offset + 26),
        occurs_at(bytes, written16(extra), entry.local_header_offset + 28),
        occurs_at(bytes, payload, entry.local_header_offset + 30 + name + extra),
    ensures
        payload_of(bytes, entry) == Ok::<Seq<u8>, Error>(payload),
{
    let at = entry.local_header_offset as int;
    law_half_reads_back(bytes, at + 26, name);
    law_half_reads_back(bytes, at + 28, extra);
}

/// Without an end record within reach of its end, a file is no archive.
pub proof fn law_no_end_record_is_no_archive(bytes: Seq<u8>)
    requires
        forall|i: int|
            0 <= i && bytes.len() - 65_557 <= i <= bytes.len() - 4 ==> !occurs_at(
                bytes,
                seq![0x50u8, 0x4B, 0x05, 0x06],
                i,
            ),
    ensures
        directory_range(bytes) == Err::<(int, int), Error>(Error::EocdNotFound),
{
    let tail = archive_tail(bytes);
    let cut = bytes.len() - tail.len();
    let sig = seq![0x50u8, 0x4B, 0x05, 0x06];
    assert forall|i: int| 0 <= i <= tail.len() - 4 implies !#[trigger] occurs_at(tail, sig, i) by {
        assert(tail.subrange(i, i + 4) =~= bytes.subrange(cut + i, cut + i + 4));
        assert(!occurs_at(bytes, sig, cut + i));
    }
    lemma_no_eocd(tail, tail.len() - 4);
}

proof fn lemma_no_eocd(tail: Seq<u8>, at: int)
    requires
        forall|i: int| 0 <= i <= at ==> !#[trigger] occurs_at(tail, eocd_signature(), i),
    ensures
        eocd_before(tail, at) == -1,
    decreases at + 1,
{
    if at >= 0 {
        assert(!occurs_at(tail, eocd_signature(), at));
        lemma_no_eocd(tail, at - 1);
    }
}

/// A stored entry is its payload, if that is as long as it declares; an entry that is neither
/// stored nor deflated is refused, and the method is reported.
pub proof fn law_stored_entries_are_their_payload(
    bytes: Seq<u8>,
    entry: ZipEntry,
    max_inflated: usize,
    payload: Seq<u8>,
    outcome: Result<Seq<u8>, Error>,
)
    requires
        payload_of(bytes, entry) == Ok::<Seq<u8>, Error>(payload),
        inflates_to(bytes, entry, max_inflated, outcome),
        entry.compression != 8,
    ensures
        outcome matches Ok(data) ==> data == payload && entry.compression == 0,
        outcome is Ok <==> entry.compression == 0 && payload.len() == entry.uncompressed_size,
        entry.compression != 0 ==> outcome == Err::<Seq<u8>, Error>(
            Error::UnsupportedCompression { name: entry.name, method: entry.compression },
        ),
{
}

/// A bare file is its own payload, whole.
pub proof fn law_a_bare_file_is_its_payload(bytes: Seq<u8>, entry: ZipEntry)
    requires
        bytes.len() <= usize::MAX,
        entry@ == bare_entry(entry.name@, bytes.len()),
    ensures
        payload_of(bytes, entry) == Ok::<Seq<u8>, Error>(bytes),
        forall|max_inflated: usize, outcome: Result<Seq<u8>, Error>|
            #[trigger] inflates_to(bytes, entry, max_inflated, outcome) ==> outcome == Ok::<
                Seq<u8>,
                Error,
            >(bytes),
{
    assert(bytes.subrange(0, bytes.len() as int) =~= bytes);
}

/// A stream that is as long as its entry declares and longer than the ceiling is refused for
/// that, and the ceiling is reported in whole mebibytes.
pub proof fn law_long_streams_pass_the_ceiling(entry: ZipEntry, data: Seq<u8>, max_inflated: usize)
    requires
        data.len() == entry.uncompressed_size,
        data.len() > max_inflated,
    ensures
        inflated(entry, data, max_inflated) == Err::<Seq<u8>, Error>(
            Error::InflationLimit { name: entry.name, mebibytes: max_inflated / 1048576 },
        ),
{
    let declared = entry.uncompressed_size as int;
    lemma_final_room(
        declared,
        first_room(declared, entry.compressed_size as int),
        data.len() as int,
    );
    assert(max_inflated >> 20 == max_inflated / 1048576) by (bit_vector);
}

/// Part of some bytes is what stands there, as far as the bytes reach.
pub proof fn law_ranges_are_parts(bytes: Seq<u8>, offset: int, len: int)
    requires
        0 <= offset,
        0 <= len,
        bytes.len() <= usize::MAX,
    ensures
        range_of(bytes, offset, len) is Ok <==> offset + len <= bytes.len(),
        range_of(bytes, offset, len) matches Ok(part) ==> occurs_at(bytes, part, offset) && part.len()
            == len,
        range_of(bytes, offset, len) == Err::<Seq<u8>, RangeError>(RangeError::Overflow) <==> offset
            + len > usize::MAX,
{
}

} // verus!
