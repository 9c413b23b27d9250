//! DEX 041 containers: several logical DEX files in one file.
//!
//! A container holds one header per member, each member's offsets being relative to the
//! container's start. A member is read as the whole container with its own header laid over the
//! first one.

use crate::bytes::{le32, read_u32};
use crate::error::Error;
use crate::seqs::occurs_at;
use crate::text::{decimal, law_decimal_reads_back, push_decimal, value_of};
use vstd::prelude::*;

verus! {

/// The length of a container member's header.
pub const CONTAINER_HEADER: usize = 0x78;

/// The bytes a container and each of its members start with.
pub open spec fn container_magic() -> Seq<u8> {
    seq![0x64, 0x65, 0x78, 0x0A, 0x30, 0x34, 0x31, 0x00]
}

/// Whether `data` is a container.
pub open spec fn is_container(data: Seq<u8>) -> bool {
    occurs_at(data, container_magic(), 0)
}

/// Whether a container's magic stands at `at`.
pub fn container_magic_at(data: &[u8], at: usize) -> (found: bool)
    ensures
        found == occurs_at(data@, container_magic(), at as int),
{
    let len: usize = data.len();
    if at > len || len - at < 8 {
        return false;
    }
    let found = data[at] == 0x64 && data[at + 1] == 0x65 && data[at + 2] == 0x78 && data[at + 3]
        == 0x0A && data[at + 4] == 0x30 && data[at + 5] == 0x34 && data[at + 6] == 0x31 && data[at
        + 7] == 0x00;
    proof {
        let part = data@.subrange(at as int, at + 8);
        let magic = container_magic();
        assert(forall|i: int| 0 <= i < 8 ==> part[i] == data@[at + i]);
        if found {
            assert(part =~= magic);
        } else {
            assert(part[0] == data@[at as int] && part[1] == data@[at + 1] && part[2] == data@[at + 2]
                && part[3] == data@[at + 3] && part[4] == data@[at + 4] && part[5] == data@[at + 5]
                && part[6] == data@[at + 6] && part[7] == data@[at + 7]);
            assert(part != magic);
        }
    }
    found
}

/// The offsets of the members from the one at `at` on, in order, up to `end`.
pub open spec fn members_from(data: Seq<u8>, at: int, end: int) -> Result<Seq<int>, Error>
    decreases
            if end > at {
                end - at
            } else {
                0
            },
{
    if at >= end {
        Ok(Seq::empty())
    } else if at + CONTAINER_HEADER > end || !occurs_at(data, container_magic(), at) {
        Err(Error::BadContainer { offset: at as usize })
    } else {
        let size = le32(data, at + 0x20) as int;
        if size < CONTAINER_HEADER || at + size > end {
            Err(Error::BadContainer { offset: at as usize })
        } else {
            match members_from(data, at + size, end) {
                Ok(rest) => Ok(seq![at] + rest),
                Err(error) => Err(error),
            }
        }
    }
}

/// The offsets of the members of a container, in order.
pub open spec fn container_members(data: Seq<u8>) -> Result<Seq<int>, Error> {
    if data.len() < CONTAINER_HEADER || le32(data, 0x70) > data.len() {
        Err(Error::BadContainer { offset: 0 })
    } else {
        members_from(data, 0, le32(data, 0x70) as int)
    }
}

/// A container with the header of the member at `at` laid over its first one.
pub open spec fn overlaid(data: Seq<u8>, at: int) -> Seq<u8> {
    data.subrange(at, at + CONTAINER_HEADER) + data.skip(CONTAINER_HEADER as int)
}

/// One logical DEX file of an entry.
#[derive(Debug)]
pub struct LogicalDex {
    pub name: String,
    pub data: Vec<u8>,
}

/// A logical DEX file, with its name as characters.
#[verifier::ext_equal]
pub struct LogicalView {
    pub name: Seq<char>,
    pub data: Seq<u8>,
}

impl View for LogicalDex {
    type V = LogicalView;

    open spec fn view(&self) -> LogicalView {
        LogicalView { name: self.name@, data: self.data@ }
    }
}

/// The views of a list of logical DEX files.
pub open spec fn logical_views(list: Seq<LogicalDex>) -> Seq<LogicalView> {
    list.map_values(|logical: LogicalDex| logical@)
}

/// The name of member `k` of an entry with `count` members. Members are only named apart when
/// there is more than one.
pub open spec fn member_title(entry: Seq<char>, k: int, count: int) -> Seq<char> {
    if count > 1 {
        entry + "!classes"@ + decimal((k + 1) as nat) + ".dex"@
    } else {
        entry
    }
}

/// The logical DEX files of an entry: the entry itself, unless it is a container.
pub open spec fn logical_of(entry: Seq<char>, data: Seq<u8>) -> Result<Seq<LogicalView>, Error> {
    if !is_container(data) {
        Ok(seq![LogicalView { name: entry, data }])
    } else {
        match container_members(data) {
            Err(error) => Err(error),
            Ok(offsets) => Ok(
                Seq::new(
                    offsets.len(),
                    |k: int|
                        LogicalView {
                            name: member_title(entry, k, offsets.len() as int),
                            data: overlaid(data, offsets[k]),
                        },
                ),
            ),
        }
    }
}

/// Finds the members of a container.
fn find_members(data: &[u8]) -> (offsets: Result<Vec<usize>, Error>)
    ensures
        match offsets {
            Ok(list) => container_members(data@) == Ok::<Seq<int>, Error>(
                list@.map_values(|at: usize| at as int),
            ) && (forall|k: int|
                0 <= k < list@.len() ==> #[trigger] list@[k] + CONTAINER_HEADER <= data@.len()),
            Err(error) => container_members(data@) == Err::<Seq<int>, Error>(error),
        },
{
    let len: usize = data.len();
    if len < CONTAINER_HEADER {
        return Err(Error::BadContainer { offset: 0 });
    }
    let end: usize = match read_u32(data, 0x70) {
        Ok(end) => end as usize,
        Err(error) => {
            return Err(error);
        },
    };
    if end > len {
        return Err(Error::BadContainer { offset: 0 });
    }
    let mut offsets: Vec<usize> = Vec::new();
    let mut at: usize = 0;
    let ghost f = |at: usize| at as int;
    proof {
        let all = members_from(data@, 0, end as int);
        if all is Ok {
            assert(offsets@.map_values(f) + all->Ok_0 =~= all->Ok_0);
        }
    }
    while at < end
        invariant
            len == data@.len(),
            CONTAINER_HEADER <= len,
            end == le32(data@, 0x70),
            end <= len,
            f == (|at: usize| at as int),
            forall|k: int|
                0 <= k < offsets@.len() ==> #[trigger] offsets@[k] + CONTAINER_HEADER <= len,
            match members_from(data@, at as int, end as int) {
                Ok(rest) => container_members(data@) == Ok::<Seq<int>, Error>(
                    offsets@.map_values(f) + rest,
                ),
                Err(error) => container_members(data@) == Err::<Seq<int>, Error>(error),
            },
        decreases
                if end > at {
                    end - at
                } else {
                    0
                },
    {
        if end - at < CONTAINER_HEADER || !container_magic_at(data, at) {
            return Err(Error::BadContainer { offset: at });
        }
        let size: usize = match read_u32(data, at + 0x20) {
            Ok(size) => size as usize,
            Err(error) => {
                return Err(error);
            },
        };
        if size < CONTAINER_HEADER || size > end - at {
            return Err(Error::BadContainer { offset: at });
        }
        let ghost before = offsets@;
        offsets.push(at);
        proof {
            assert(offsets@.map_values(f) =~= before.map_values(f).push(at as int));
            let rest = members_from(data@, at + size, end as int);
            if rest is Ok {
                assert(before.map_values(f) + (seq![at as int] + rest->Ok_0) =~= offsets@.map_values(
                    f,
                ) + rest->Ok_0);
            }
        }
        at = at + size;
    }
    assert(offsets@.map_values(f) + Seq::<int>::empty() =~= offsets@.map_values(f));
    Ok(offsets)
}

/// The logical DEX files of the entry `name` with the bytes `data`.
pub fn logical_dexes(name: &str, data: &[u8]) -> (list: Result<Vec<LogicalDex>, Error>)
    ensures
        match list {
            Ok(list) => logical_of(name@, data@) == Ok::<Seq<LogicalView>, Error>(
                logical_views(list@),
            ),
            Err(error) => logical_of(name@, data@) == Err::<Seq<LogicalView>, Error>(error),
        },
{
    let mut list: Vec<LogicalDex> = Vec::new();
    if !container_magic_at(data, 0) {
        let logical = LogicalDex {
            name: name.to_owned(),
            data: vstd::slice::slice_to_vec(data),
        };
        list.push(logical);
        assert(logical_views(list@) =~= seq![LogicalView { name: name@, data: data@ }]);
        return Ok(list);
    }
    let offsets = match find_members(data) {
        Ok(offsets) => offsets,
        Err(error) => {
            return Err(error);
        },
    };
    let count: usize = offsets.len();
    let ghost expected = logical_of(name@, data@)->Ok_0;
    for k in 0..count
        invariant
            count == offsets@.len(),
            is_container(data@),
            container_members(data@) == Ok::<Seq<int>, Error>(
                offsets@.map_values(|at: usize| at as int),
            ),
            forall|k: int|
                0 <= k < offsets@.len() ==> #[trigger] offsets@[k] + CONTAINER_HEADER <= data@.len(),
            expected == logical_of(name@, data@)->Ok_0,
            logical_views(list@) == expected.take(k as int),
    {
        let ghost before = list@;
        let at = offsets[k];
        let mut title = String::new();
        title.push_str(name);
        if count > 1 {
            title.push_str("!classes");
            push_decimal(&mut title, k as u64 + 1);
            title.push_str(".dex");
        }
        assert(title@ =~= member_title(name@, k as int, count as int));
        let total: usize = data.len();
        let mut bytes = vstd::slice::slice_to_vec(
            vstd::slice::slice_subrange(data, at, at + CONTAINER_HEADER),
        );
        let rest = vstd::slice::slice_subrange(data, CONTAINER_HEADER, total);
        bytes.extend_from_slice(rest);
        assert(bytes@ =~= overlaid(data@, at as int));
        let logical = LogicalDex { name: title, data: bytes };
        list.push(logical);
        proof {
            assert(logical@ =~= expected[k as int]);
            assert(logical_views(list@) =~= logical_views(before).push(logical@));
            assert(expected.take(k + 1) =~= expected.take(k as int).push(expected[k as int]));
        }
    }
    assert(expected.take(expected.len() as int) =~= expected);
    Ok(list)
}

/// The Adler-32 sums of some bytes: the sum of the bytes plus one, and the sum of those sums,
/// each modulo 65521.
pub open spec fn adler_sums(bytes: Seq<u8>) -> (nat, nat)
    decreases bytes.len(),
{
    if bytes.len() == 0 {
        (1, 0)
    } else {
        let before = adler_sums(bytes.drop_last());
        let a = (before.0 + bytes.last() as nat) % 65521;
        (a, (before.1 + a) % 65521)
    }
}

/// The Adler-32 checksum of some bytes.
pub open spec fn adler32(bytes: Seq<u8>) -> nat {
    adler_sums(bytes).1 * 0x1_0000 + adler_sums(bytes).0
}

/// The Adler-32 checksum of the bytes from `from` on.
pub fn checksum(data: &[u8], from: usize) -> (sum: u32)
    requires
        from <= data@.len(),
    ensures
        sum == adler32(data@.skip(from as int)),
{
    let ghost bytes = data@.skip(from as int);
    let mut a: u32 = 1;
    let mut b: u32 = 0;
    let mut i: usize = from;
    assert(bytes.take(0) =~= Seq::empty());
    while i < data.len()
        invariant
            from <= i <= data@.len(),
            bytes == data@.skip(from as int),
            a < 65521,
            b < 65521,
            adler_sums(bytes.take(i - from)) == (a as nat, b as nat),
        decreases data@.len() - i,
    {
        proof {
            let k = i - from;
            assert(bytes.take(k + 1).drop_last() =~= bytes.take(k));
            assert(bytes.take(k + 1).last() == data@[i as int]);
        }
        a = (a + data[i] as u32) % 65521;
        b = (b + a) % 65521;
        i = i + 1;
    }
    assert(bytes.take(bytes.len() as int) =~= bytes);
    b * 0x1_0000 + a
}

/// The four bytes of a number, low byte first.
pub open spec fn le_bytes(value: int) -> Seq<u8> {
    seq![
        (value % 0x100) as u8,
        ((value / 0x100) % 0x100) as u8,
        ((value / 0x1_0000) % 0x100) as u8,
        ((value / 0x100_0000) % 0x100) as u8,
    ]
}

/// `data` with the four bytes of `value` at `at`.
pub open spec fn with_word(data: Seq<u8>, at: int, value: int) -> Seq<u8> {
    data.take(at) + le_bytes(value) + data.skip(at + 4)
}

fn put_word(data: &mut Vec<u8>, at: usize, value: u32)
    requires
        at + 4 <= old(data)@.len(),
    ensures
        final(data)@ == with_word(old(data)@, at as int, value as int),
{
    let ghost before = data@;
    let _len: usize = data.len();
    data.set(at, (value % 0x100) as u8);
    data.set(at + 1, ((value / 0x100) % 0x100) as u8);
    data.set(at + 2, ((value / 0x1_0000) % 0x100) as u8);
    data.set(at + 3, ((value / 0x100_0000) % 0x100) as u8);
    assert(data@ =~= with_word(before, at as int, value as int));
}

/// Only the low word of a number decides its four bytes.
proof fn lemma_low_word(value: int)
    requires
        0 <= value,
    ensures
        le_bytes(value % 0x1_0000_0000) == le_bytes(value),
{
    let low = value % 0x1_0000_0000;
    let high = value / 0x1_0000_0000;
    assert(value == high * 0x1_0000_0000 + low);
    assert(low % 0x100 == value % 0x100);
    assert(value / 0x100 == high * 0x100_0000 + low / 0x100);
    assert((low / 0x100) % 0x100 == (value / 0x100) % 0x100);
    assert(value / 0x1_0000 == high * 0x1_0000 + low / 0x1_0000);
    assert((low / 0x1_0000) % 0x100 == (value / 0x1_0000) % 0x100);
    assert(value / 0x100_0000 == high * 0x100 + low / 0x100_0000);
    assert((low / 0x100_0000) % 0x100 == (value / 0x100_0000) % 0x100);
}

/// A container member as a file of the version before containers: its version, header size and
/// file size are those of a plain file, and its checksum covers the bytes it now has.
pub open spec fn standard_header(data: Seq<u8>) -> Seq<u8> {
    let plain = with_word(
        with_word(data.update(5, 0x33u8).update(6, 0x39u8), 0x20, data.len() as int),
        0x24,
        0x70,
    );
    with_word(plain, 8, adler32(plain.skip(12)) as int)
}

/// A standard view of a container member, or `None` when `data` needs none.
///
/// Containers carry an extra-long header and a container-wide checksum, which readers of plain
/// files reject.
pub fn standard_header_view(data: &[u8]) -> (view: Option<Vec<u8>>)
    ensures
        match view {
            Some(bytes) => is_container(data@) && data@.len() >= CONTAINER_HEADER && bytes@
                == standard_header(data@),
            None => !is_container(data@) || data@.len() < CONTAINER_HEADER,
        },
{
    if !container_magic_at(data, 0) || data.len() < CONTAINER_HEADER {
        return None;
    }
    let size: u32 = (data.len() as u64 % 0x1_0000_0000) as u32;
    proof {
        lemma_low_word(data@.len() as int);
    }
    let mut bytes = vstd::slice::slice_to_vec(data);
    bytes.set(5, 0x33);
    bytes.set(6, 0x39);
    put_word(&mut bytes, 0x20, size);
    put_word(&mut bytes, 0x24, 0x70);
    let sum = checksum(bytes.as_slice(), 12);
    put_word(&mut bytes, 8, sum);
    Some(bytes)
}

/// An entry with one logical DEX file goes by its own name; one with several names them apart,
/// and every one of them is as long as the entry.
pub proof fn law_members_keep_the_address_space(entry: Seq<char>, data: Seq<u8>, k: int)
    requires
        logical_of(entry, data) is Ok,
        0 <= k < logical_of(entry, data)->Ok_0.len(),
    ensures
        logical_of(entry, data)->Ok_0.len() == 1 ==> logical_of(entry, data)->Ok_0[k].name == entry,
        logical_of(entry, data)->Ok_0[k].data.len() == data.len(),
        logical_of(entry, data)->Ok_0[k].data.skip(CONTAINER_HEADER as int) == data.skip(
            CONTAINER_HEADER as int,
        ),
{
    if is_container(data) {
        lemma_members_inside(data, 0, le32(data, 0x70) as int);
        let offsets = container_members(data)->Ok_0;
        let at = offsets[k];
        assert(overlaid(data, at).skip(CONTAINER_HEADER as int) =~= data.skip(
            CONTAINER_HEADER as int,
        ));
    }
}

proof fn lemma_members_inside(data: Seq<u8>, at: int, end: int)
    requires
        0 <= at,
        end <= data.len(),
        members_from(data, at, end) is Ok,
    ensures
        forall|k: int|
            0 <= k < members_from(data, at, end)->Ok_0.len() ==> at <= #[trigger] members_from(
                data,
                at,
                end,
            )->Ok_0[k] && members_from(data, at, end)->Ok_0[k] + CONTAINER_HEADER <= end,
    decreases
            if end > at {
                end - at
            } else {
                0
            },
{
    if at < end {
        let next = at + le32(data, at + 0x20);
        lemma_members_inside(data, next, end);
        let all = members_from(data, at, end)->Ok_0;
        let rest = members_from(data, next, end)->Ok_0;
        assert forall|k: int| 0 <= k < all.len() implies at <= #[trigger] all[k] && all[k]
            + CONTAINER_HEADER <= end by {
            if k > 0 {
                assert(all[k] == rest[k - 1]);
            }
        }
    }
}

/// Whether `offsets` are where the parts stand that a container is made of: the first at its
/// start, each behind the one before it as far as that one says it is long, the last up to `end`,
/// and each with the magic and room for a header.
pub open spec fn tiles(data: Seq<u8>, offsets: Seq<int>, end: int) -> bool {
    &&& offsets.len() > 0 ==> offsets[0] == 0
    &&& offsets.len() == 0 ==> end == 0
    &&& forall|k: int|
        0 <= k < offsets.len() ==> (#[trigger] le32(data, offsets[k] + 0x20)) >= 0x78 && occurs_at(
            data,
            container_magic(),
            offsets[k],
        ) && offsets[k] + le32(data, offsets[k] + 0x20) == (if k + 1 < offsets.len() {
            offsets[k + 1]
        } else {
            end
        })
}

/// The members of a container are exactly the parts that make it up, each of which says how long
/// it is.
pub proof fn law_members_make_up_the_container(data: Seq<u8>, offsets: Seq<int>)
    requires
        0x78 <= data.len(),
        le32(data, 0x70) <= data.len(),
    ensures
        container_members(data) == Ok::<Seq<int>, Error>(offsets) <==> tiles(
            data,
            offsets,
            le32(data, 0x70) as int,
        ),
{
    let end = le32(data, 0x70) as int;
    if tiles(data, offsets, end) {
        if offsets.len() > 0 {
            lemma_tiles_inside(data, offsets, end, 0);
            lemma_tiles_are_members(data, offsets, end, 0);
            assert(offsets.skip(0) =~= offsets);
        } else {
            assert(offsets =~= Seq::empty());
        }
        assert(members_from(data, 0, end) == Ok::<Seq<int>, Error>(offsets));
    }
    if container_members(data) == Ok::<Seq<int>, Error>(offsets) {
        lemma_members_are_tiles(data, 0, end);
    }
}

proof fn lemma_tiles_inside(data: Seq<u8>, offsets: Seq<int>, end: int, k: int)
    requires
        tiles(data, offsets, end),
        0 <= k < offsets.len(),
    ensures
        offsets[k] + 0x78 <= end,
    decreases offsets.len() - k,
{
    assert(le32(data, offsets[k] + 0x20) >= 0x78);
    if k + 1 < offsets.len() {
        lemma_tiles_inside(data, offsets, end, k + 1);
    }
}

proof fn lemma_tiles_are_members(data: Seq<u8>, offsets: Seq<int>, end: int, k: int)
    requires
        tiles(data, offsets, end),
        0 <= k < offsets.len(),
    ensures
        members_from(data, offsets[k], end) == Ok::<Seq<int>, Error>(offsets.skip(k)),
    decreases offsets.len() - k,
{
    let size = le32(data, offsets[k] + 0x20);
    assert(size >= 0x78);
    lemma_tiles_inside(data, offsets, end, k);
    assert(seq![offsets[k]] + offsets.skip(k + 1) =~= offsets.skip(k));
    let next = offsets[k] + size;
    if k + 1 < offsets.len() {
        lemma_tiles_inside(data, offsets, end, k + 1);
        lemma_tiles_are_members(data, offsets, end, k + 1);
        assert(next == offsets[k + 1]);
    } else {
        assert(next == end);
        assert(offsets.skip(k + 1) =~= Seq::empty());
    }
    assert(members_from(data, next, end) == Ok::<Seq<int>, Error>(offsets.skip(k + 1)));
    assert(members_from(data, offsets[k], end) == Ok::<Seq<int>, Error>(
        seq![offsets[k]] + offsets.skip(k + 1),
    ));
}

proof fn lemma_members_are_tiles(data: Seq<u8>, at: int, end: int)
    requires
        0 <= at <= end,
        members_from(data, at, end) is Ok,
    ensures
        ({
            let list = members_from(data, at, end)->Ok_0;
            &&& list.len() == 0 <==> at == end
            &&& list.len() > 0 ==> list[0] == at
            &&& forall|k: int|
                0 <= k < list.len() ==> (#[trigger] le32(data, list[k] + 0x20)) >= 0x78
                    && occurs_at(data, container_magic(), list[k]) && list[k] + le32(
                    data,
                    list[k] + 0x20,
                ) == (if k + 1 < list.len() {
                    list[k + 1]
                } else {
                    end
                })
        }),
    decreases end - at,
{
    if at < end {
        let next = at + le32(data, at + 0x20);
        lemma_members_are_tiles(data, next, end);
        let list = members_from(data, at, end)->Ok_0;
        let rest = members_from(data, next, end)->Ok_0;
        assert(list =~= seq![at] + rest);
        assert forall|k: int| 0 <= k < list.len() implies (#[trigger] le32(data, list[k] + 0x20))
            >= 0x78 && occurs_at(data, container_magic(), list[k]) && list[k] + le32(
            data,
            list[k] + 0x20,
        ) == (if k + 1 < list.len() {
            list[k + 1]
        } else {
            end
        }) by {
            if k > 0 {
                assert(list[k] == rest[k - 1]);
                assert(le32(data, rest[k - 1] + 0x20) >= 0x78);
            }
        }
    }
}

/// Every member has its own header and the rest of the container behind it.
pub proof fn law_a_member_has_its_own_header(entry: Seq<char>, data: Seq<u8>, k: int)
    requires
        is_container(data),
        container_members(data) is Ok,
        0 <= k < container_members(data)->Ok_0.len(),
    ensures
        logical_of(entry, data) is Ok,
        logical_of(entry, data)->Ok_0.len() == container_members(data)->Ok_0.len(),
        ({
            let at = container_members(data)->Ok_0[k];
            let member = logical_of(entry, data)->Ok_0[k];
            &&& member.data.len() == data.len()
            &&& forall|i: int|
                0 <= i < data.len() ==> #[trigger] member.data[i] == data[if i < 0x78 {
                    at + i
                } else {
                    i
                }]
        }),
{
    lemma_members_inside(data, 0, le32(data, 0x70) as int);
}

/// The members of a container with more than one go by the name of the entry, `!classes`, their
/// number from one on, and `.dex`.
pub proof fn law_members_are_numbered(entry: Seq<char>, k: int, count: int)
    requires
        0 <= k < count,
        count > 1,
    ensures
        ({
            let title = member_title(entry, k, count);
            &&& title.len() > entry.len() + 12
            &&& occurs_at(title, entry, 0)
            &&& occurs_at(title, "!classes"@, entry.len() as int)
            &&& occurs_at(title, ".dex"@, title.len() - 4)
            &&& value_of(title.subrange((entry.len() + 8) as int, title.len() - 4), 10) == k + 1
        }),
{
    reveal_strlit("!classes");
    reveal_strlit(".dex");
    let title = member_title(entry, k, count);
    let number = decimal((k + 1) as nat);
    law_decimal_reads_back((k + 1) as nat);
    assert(title.subrange(0, entry.len() as int) =~= entry);
    assert(title.subrange(entry.len() as int, (entry.len() + 8) as int) =~= "!classes"@);
    assert(title.subrange(title.len() - 4, title.len() as int) =~= ".dex"@);
    assert(title.subrange((entry.len() + 8) as int, title.len() - 4) =~= number);
}

/// The sum of some bytes.
pub open spec fn byte_sum(bytes: Seq<u8>) -> nat
    decreases bytes.len(),
{
    if bytes.len() == 0 {
        0
    } else {
        byte_sum(bytes.drop_last()) + bytes.last() as nat
    }
}

/// The sum over every nonempty start of some bytes of one more than the sum of that start.
pub open spec fn start_sums(bytes: Seq<u8>) -> nat
    decreases bytes.len(),
{
    if bytes.len() == 0 {
        0
    } else {
        start_sums(bytes.drop_last()) + byte_sum(bytes) + 1
    }
}

/// The Adler-32 checksum: the low half is one more than the sum of the bytes, the high half is the
/// sum of what the low half has been, each reduced by the largest prime below 2^16.
pub proof fn law_checksum_is_made_of_sums(bytes: Seq<u8>)
    ensures
        adler32(bytes) % 0x1_0000 == (byte_sum(bytes) + 1) % 65521,
        adler32(bytes) / 0x1_0000 == start_sums(bytes) % 65521,
        adler32(bytes) < 0x1_0000_0000,
{
    lemma_adler_sums(bytes);
}

proof fn lemma_adler_sums(bytes: Seq<u8>)
    ensures
        adler_sums(bytes).0 == (byte_sum(bytes) + 1) % 65521,
        adler_sums(bytes).1 == start_sums(bytes) % 65521,
    decreases bytes.len(),
{
    if bytes.len() > 0 {
        lemma_adler_sums(bytes.drop_last());
    }
}

/// A standard view is the member with its version, checksum, file size and header size set to
/// those of a plain file, and with nothing else changed. The checksum is that of the view.
pub proof fn law_standard_view_changes_four_fields(data: Seq<u8>)
    requires
        0x78 <= data.len() < 0x1_0000_0000,
    ensures
        ({
            let plain = standard_header(data);
            &&& plain.len() == data.len()
            &&& plain[5] == 0x33 && plain[6] == 0x39
            &&& le32(plain, 8) == adler32(plain.skip(12))
            &&& le32(plain, 0x20) == data.len()
            &&& le32(plain, 0x24) == 0x70
            &&& forall|i: int|
                0 <= i < data.len() && !(5 <= i < 7) && !(8 <= i < 12) && !(0x20 <= i < 0x28)
                    ==> #[trigger] plain[i] == data[i]
        }),
{
    let versioned = data.update(5, 0x33u8).update(6, 0x39u8);
    let sized = with_word(versioned, 0x20, data.len() as int);
    let headed = with_word(sized, 0x24, 0x70);
    let sum = adler32(headed.skip(12));
    let plain = standard_header(data);
    law_checksum_is_made_of_sums(headed.skip(12));
    assert(plain == with_word(headed, 8, sum as int));
    assert(plain.skip(12) =~= headed.skip(12));
    lemma_word_is_put(versioned, 0x20, data.len() as int);
    lemma_word_is_put(sized, 0x24, 0x70);
    lemma_word_is_put(headed, 8, sum as int);
    assert(headed.subrange(0x20, 0x24) =~= sized.subrange(0x20, 0x24));
    assert(le32(headed, 0x20) == le32(sized, 0x20));
    assert(le32(plain, 0x20) == le32(headed, 0x20));
    assert(le32(plain, 0x24) == le32(headed, 0x24));
}

proof fn lemma_word_is_put(data: Seq<u8>, at: int, value: int)
    requires
        0 <= at,
        at + 4 <= data.len(),
        0 <= value < 0x1_0000_0000,
    ensures
        with_word(data, at, value).len() == data.len(),
        le32(with_word(data, at, value), at) == value,
        forall|i: int|
            0 <= i < data.len() && !(at <= i < at + 4) ==> #[trigger] with_word(data, at, value)[i]
                == data[i],
{
    let put = with_word(data, at, value);
    let bytes = le_bytes(value);
    assert(put[at] == bytes[0] && put[at + 1] == bytes[1] && put[at + 2] == bytes[2] && put[at + 3]
        == bytes[3]);
    assert(value / 0x100_0000 < 0x100);
    assert(value / 0x100 / 0x100 == value / 0x1_0000);
    assert(value / 0x1_0000 / 0x100 == value / 0x100_0000);
}

} // verus!
