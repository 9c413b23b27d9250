//! Which entries of an archive a command works on.
use crate::dex::mutf8::as_chars;
use crate::error::Error;
use crate::search::same_bytes;
use crate::seqs::occurs_at;
use crate::text::same_text;
use crate::zip::{
    archive_records, bare_entry, bytes_outcome, entry_views, inflate_entry, inflates_to,
    law_selection_by_name, parse_zip_entries, record_entries, record_entry, record_name, BytesSource, EntryView,
    ZipEntry,
};
use vstd::prelude::*;
use vstd::utf8::encode_utf8;

verus! {

/// Whether a byte is an ASCII digit.
pub open spec fn is_digit(byte: u8) -> bool {
    0x30 <= byte <= 0x39
}

/// Whether a file names itself a DEX in its first eight bytes (`dex\n039\0`).
pub open spec fn bare_dex(bytes: Seq<u8>) -> bool {
    &&& bytes.len() >= 8
    &&& bytes[0] == 0x64 && bytes[1] == 0x65 && bytes[2] == 0x78 && bytes[3] == 0x0A
    &&& is_digit(bytes[4]) && is_digit(bytes[5]) && is_digit(bytes[6])
    &&& bytes[7] == 0
}

/// Whether the source is a DEX file rather than an archive.
///
/// A DEX names itself in its first eight bytes (`dex\n039\0`). That magic is the whole
/// test, and it is enough: a ZIP starts with `PK`, so no input can be both, and a file
/// that merely begins with those bytes is reporting itself as a DEX.
pub fn is_bare_dex<S: BytesSource + ?Sized>(source: &S) -> (bare: bool)
    ensures
        bare == bare_dex(source.bytes()),
{
    let head = match source.range(0, 8) {
        Ok(head) => head,
        Err(_cause) => {
            return false;
        },
    };
    head[0] == 0x64 && head[1] == 0x65 && head[2] == 0x78 && head[3] == 0x0A && head[4] >= 0x30
        && head[4] <= 0x39 && head[5] >= 0x30 && head[5] <= 0x39 && head[6] >= 0x30 && head[6]
        <= 0x39 && head[7] == 0
}

/// Whether the bytes of `tail` end `name`.
pub open spec fn ends_with(name: Seq<u8>, tail: Seq<u8>) -> bool {
    occurs_at(name, tail, name.len() - tail.len())
}

/// The bytes of `.dex`.
pub open spec fn dex_suffix() -> Seq<u8> {
    seq![0x2E, 0x64, 0x65, 0x78]
}

/// The bytes of `classes`.
pub open spec fn classes_stem() -> Seq<u8> {
    seq![0x63, 0x6C, 0x61, 0x73, 0x73, 0x65, 0x73]
}

/// Whether a name is that of a DEX file in the root of an archive.
pub open spec fn root_dex(name: Seq<u8>) -> bool {
    ends_with(name, dex_suffix()) && !name.contains(0x2F)
}

/// Whether a name is that of a root DEX file the platform loads: `classes*.dex`.
pub open spec fn classes_dex(name: Seq<u8>) -> bool {
    occurs_at(name, classes_stem(), 0) && root_dex(name)
}

fn is_root_dex(name: &[u8]) -> (yes: bool)
    ensures
        yes == root_dex(name@),
{
    let len: usize = name.len();
    if len < 4 {
        return false;
    }
    let suffix: [u8; 4] = [0x2E, 0x64, 0x65, 0x78];
    let tail = vstd::slice::slice_subrange(name, len - 4, len);
    assert(suffix@ =~= dex_suffix());
    if !same_bytes(tail, &suffix) {
        return false;
    }
    for i in 0..len
        invariant
            len == name@.len(),
            forall|j: int| 0 <= j < i ==> #[trigger] name@[j] != 0x2F,
    {
        if name[i] == 0x2F {
            return false;
        }
    }
    true
}

fn is_classes_dex(name: &[u8]) -> (yes: bool)
    ensures
        yes == classes_dex(name@),
{
    if name.len() < 7 {
        return false;
    }
    let stem: [u8; 7] = [0x63, 0x6C, 0x61, 0x73, 0x73, 0x65, 0x73];
    let head = vstd::slice::slice_subrange(name, 0, 7);
    assert(stem@ =~= classes_stem());
    same_bytes(head, &stem) && is_root_dex(name)
}

/// Whether an earlier entry than the one at `n` has its name.
pub open spec fn named_before(entries: Seq<EntryView>, n: int) -> bool {
    exists|i: int| 0 <= i < n && #[trigger] entries[i].name == entries[n].name
}

/// The first entry for each name, in order.
pub open spec fn first_copies(entries: Seq<EntryView>, n: int) -> Seq<EntryView>
    decreases n,
{
    if n <= 0 {
        Seq::empty()
    } else {
        let before = first_copies(entries, n - 1);
        if named_before(entries, n - 1) {
            before
        } else {
            before.push(entries[n - 1])
        }
    }
}

/// Keeps the first entry for each name.
///
/// A ZIP may hold two entries with the same name (crafted or repacked archives do). The first
/// one met while scanning the central directory counts; scanning both copies would report every
/// row twice.
fn dedup_names(entries: Vec<ZipEntry>) -> (unique: Vec<ZipEntry>)
    ensures
        entry_views(unique@) == first_copies(entry_views(entries@), entries@.len() as int),
{
    let ghost views = entry_views(entries@);
    let mut unique: Vec<ZipEntry> = Vec::new();
    assert(entry_views(unique@) =~= first_copies(views, 0));
    for n in 0..entries.len()
        invariant
            views == entry_views(entries@),
            entry_views(unique@) == first_copies(views, n as int),
    {
        let mut seen: bool = false;
        let mut i: usize = 0;
        while i < n && !seen
            invariant
                i <= n < entries@.len(),
                views == entry_views(entries@),
                seen ==> named_before(views, n as int),
                !seen ==> forall|j: int| 0 <= j < i ==> #[trigger] views[j].name != views[n as int].name,
            decreases n - i + (if seen { 0int } else { 1 }),
        {
            if same_text(entries[i].name.as_str(), entries[n].name.as_str()) {
                assert(views[i as int].name == views[n as int].name);
                seen = true;
            } else {
                i = i + 1;
            }
        }
        if !seen {
            let ghost before = unique@;
            let copy = entries[n].clone();
            unique.push(copy);
            assert(entry_views(unique@) =~= entry_views(before).push(views[n as int]));
        }
    }
    unique
}

/// The entries of the records with the given names, first copies only.
pub open spec fn chosen_entries(
    bytes: Seq<u8>,
    offsets: Seq<int>,
    wanted: spec_fn(Seq<u8>) -> bool,
) -> Seq<EntryView> {
    let all = record_entries(bytes, offsets.filter(|at: int| wanted(record_name(bytes, at))));
    first_copies(all, all.len() as int)
}

/// The test for `classes*.dex`.
pub open spec fn wants_classes() -> spec_fn(Seq<u8>) -> bool {
    |name: Seq<u8>| classes_dex(name)
}

/// The test for any root DEX.
pub open spec fn wants_root() -> spec_fn(Seq<u8>) -> bool {
    |name: Seq<u8>| root_dex(name)
}

/// The test for one name.
pub open spec fn wants_name(wanted: Seq<u8>) -> spec_fn(Seq<u8>) -> bool {
    |name: Seq<u8>| name == wanted
}

/// The root DEX entries of a source.
pub open spec fn dex_entries(bytes: Seq<u8>) -> Result<Seq<EntryView>, Error> {
    if bare_dex(bytes) {
        Ok(seq![bare_entry("classes.dex"@, bytes.len())])
    } else {
        match archive_records(bytes) {
            Err(error) => Err(error),
            Ok(offsets) => {
                let named = chosen_entries(bytes, offsets, wants_classes());
                if named.len() > 0 {
                    Ok(named)
                } else {
                    Ok(chosen_entries(bytes, offsets, wants_root()))
                }
            },
        }
    }
}

/// The outcome of a call that returns entries, with the entries as views.
pub open spec fn entries_outcome(result: Result<Vec<ZipEntry>, Error>) -> Result<
    Seq<EntryView>,
    Error,
> {
    match result {
        Ok(list) => Ok(entry_views(list@)),
        Err(error) => Err(error),
    }
}

/// Root DEX entries, `classes*.dex` preferred, any root `*.dex` when there is none.
///
/// A bare DEX is one entry. Every command addresses an archive, and rather than
/// teach each of them a second input shape, the file is presented as the entry it
/// would have been inside one - named `classes.dex`.
pub fn parse_dex_entries<S: BytesSource + ?Sized>(source: &S) -> (entries: Result<
    Vec<ZipEntry>,
    Error,
>)
    ensures
        entries_outcome(entries) == dex_entries(source.bytes()),
{
    let ghost bytes = source.bytes();
    if is_bare_dex(source) {
        let mut list: Vec<ZipEntry> = Vec::new();
        list.push(ZipEntry::bare("classes.dex", source.source_len()));
        assert(entry_views(list@) =~= seq![bare_entry("classes.dex"@, bytes.len())]);
        return Ok(list);
    }
    let accept = |name: &[u8]| -> (yes: bool)
        ensures
            yes == classes_dex(name@),
        { is_classes_dex(name) };
    let named = match parse_zip_entries(source, accept) {
        Ok(named) => named,
        Err(error) => {
            return Err(error);
        },
    };
    let ghost offsets = archive_records(bytes)->Ok_0;
    proof {
        law_selection_by_name(accept, wants_classes(), bytes, offsets, entry_views(named@));
        let all = entry_views(named@);
        lemma_copies(all, all.len() as int);
    }
    if named.len() > 0 {
        return Ok(dedup_names(named));
    }
    let accept = |name: &[u8]| -> (yes: bool)
        ensures
            yes == root_dex(name@),
        { is_root_dex(name) };
    match parse_zip_entries(source, accept) {
        Ok(list) => {
            proof {
                law_selection_by_name(accept, wants_root(), bytes, offsets, entry_views(list@));
            }
            Ok(dedup_names(list))
        },
        Err(error) => Err(error),
    }
}

/// There is a first copy exactly where there is an entry.
proof fn lemma_copies(entries: Seq<EntryView>, n: int)
    requires
        0 <= n <= entries.len(),
    ensures
        first_copies(entries, n).len() > 0 <==> n > 0,
        first_copies(entries, n).len() <= n,
    decreases n,
{
    if n > 0 {
        lemma_copies(entries, n - 1);
    }
}

/// Whether an entry is one of the first `n`.
pub open spec fn is_among(entries: Seq<EntryView>, n: int, entry: EntryView) -> bool {
    exists|k: int| 0 <= k < n && #[trigger] entries[k] == entry
}

/// Whether one of some entries has a name.
pub open spec fn has_name(list: Seq<EntryView>, name: Seq<char>) -> bool {
    exists|i: int| 0 <= i < list.len() && (#[trigger] list[i]).name == name
}

proof fn lemma_copy_is_among(entries: Seq<EntryView>, n: int, i: int)
    requires
        0 <= n <= entries.len(),
        0 <= i < first_copies(entries, n).len(),
    ensures
        is_among(entries, n, first_copies(entries, n)[i]),
    decreases n,
{
    if n > 0 {
        let before = first_copies(entries, n - 1);
        if i < before.len() {
            lemma_copy_is_among(entries, n - 1, i);
            let k = choose|k: int| 0 <= k < n - 1 && #[trigger] entries[k] == before[i];
            assert(entries[k] == first_copies(entries, n)[i]);
        } else {
            assert(entries[n - 1] == first_copies(entries, n)[i]);
        }
    }
}

proof fn lemma_name_is_kept(entries: Seq<EntryView>, n: int, k: int)
    requires
        0 <= k < n <= entries.len(),
    ensures
        has_name(first_copies(entries, n), entries[k].name),
    decreases n,
{
    let before = first_copies(entries, n - 1);
    let now = first_copies(entries, n);
    if k == n - 1 && !named_before(entries, n - 1) {
        assert(now[now.len() - 1].name == entries[k].name);
    } else {
        let q = if k == n - 1 {
            choose|m: int| 0 <= m < n - 1 && #[trigger] entries[m].name == entries[n - 1].name
        } else {
            k
        };
        lemma_name_is_kept(entries, n - 1, q);
        let i = choose|i: int|
            0 <= i < before.len() && (#[trigger] before[i]).name == entries[q].name;
        assert(now[i].name == entries[k].name);
    }
}

proof fn lemma_kept_names_differ(entries: Seq<EntryView>, n: int, i: int, j: int)
    requires
        0 <= n <= entries.len(),
        0 <= i < j < first_copies(entries, n).len(),
    ensures
        first_copies(entries, n)[i].name != first_copies(entries, n)[j].name,
    decreases n,
{
    if n > 0 {
        let before = first_copies(entries, n - 1);
        if j < before.len() {
            lemma_kept_names_differ(entries, n - 1, i, j);
        } else {
            lemma_copy_is_among(entries, n - 1, i);
            let k = choose|k: int| 0 <= k < n - 1 && #[trigger] entries[k] == before[i];
            assert(entries[k].name != entries[n - 1].name);
        }
    }
}

/// No two of the entries that are kept share a name, every name that occurs is kept, and nothing
/// else is.
pub proof fn law_names_are_kept_once(entries: Seq<EntryView>, n: int)
    requires
        0 <= n <= entries.len(),
    ensures
        forall|i: int, j: int|
            0 <= i < j < first_copies(entries, n).len() ==> (#[trigger] first_copies(
                entries,
                n,
            )[i]).name != (#[trigger] first_copies(entries, n)[j]).name,
        forall|k: int|
            0 <= k < n ==> has_name(first_copies(entries, n), (#[trigger] entries[k]).name),
        forall|i: int|
            0 <= i < first_copies(entries, n).len() ==> is_among(
                entries,
                n,
                #[trigger] first_copies(entries, n)[i],
            ),
{
    let kept = first_copies(entries, n);
    assert forall|i: int, j: int| 0 <= i < j < kept.len() implies (#[trigger] kept[i]).name != (
    #[trigger] kept[j]).name by {
        lemma_kept_names_differ(entries, n, i, j);
    }
    assert forall|k: int| 0 <= k < n implies has_name(kept, (#[trigger] entries[k]).name) by {
        lemma_name_is_kept(entries, n, k);
    }
    assert forall|i: int| 0 <= i < kept.len() implies is_among(entries, n, #[trigger] kept[i]) by {
        lemma_copy_is_among(entries, n, i);
    }
}

/// Every entry a source holds.
pub open spec fn all_entries(bytes: Seq<u8>) -> Result<Seq<EntryView>, Error> {
    if bare_dex(bytes) {
        Ok(seq![bare_entry("classes.dex"@, bytes.len())])
    } else {
        match archive_records(bytes) {
            Ok(offsets) => Ok(record_entries(bytes, offsets)),
            Err(error) => Err(error),
        }
    }
}

/// Every entry the archive holds, in central-directory order.
///
/// No filtering and no de-duplication: this is a listing of what the file contains, so
/// two entries with the same name appear twice, in the order the directory states them.
/// A bare DEX is one entry, the same one every other command walks.
pub fn list_entries<S: BytesSource + ?Sized>(source: &S) -> (entries: Result<Vec<ZipEntry>, Error>)
    ensures
        entries_outcome(entries) == all_entries(source.bytes()),
{
    let ghost bytes = source.bytes();
    if is_bare_dex(source) {
        let mut list: Vec<ZipEntry> = Vec::new();
        list.push(ZipEntry::bare("classes.dex", source.source_len()));
        assert(entry_views(list@) =~= seq![bare_entry("classes.dex"@, bytes.len())]);
        return Ok(list);
    }
    let accept = |name: &[u8]| -> (yes: bool)
        ensures
            yes,
        { true };
    let entries = parse_zip_entries(source, accept);
    proof {
        if archive_records(bytes) is Ok {
            let offsets = archive_records(bytes)->Ok_0;
            let every = |name: Seq<u8>| true;
            law_selection_by_name(accept, every, bytes, offsets, entry_views(entries->Ok_0@));
            lemma_filter_all(offsets, |at: int| every(record_name(bytes, at)));
        }
    }
    entries
}

proof fn lemma_filter_all(s: Seq<int>, p: spec_fn(int) -> bool)
    requires
        forall|i: int| 0 <= i < s.len() ==> p(#[trigger] s[i]),
    ensures
        s.filter(p) == s,
    decreases s.len(),
{
    reveal(Seq::filter);
    if s.len() > 0 {
        lemma_filter_all(s.drop_last(), p);
        assert(p(s[s.len() - 1]));
        assert(s.drop_last().push(s.last()) =~= s);
    }
}

/// The entry a name stands for: the last central-directory record carrying it.
pub open spec fn named_entry(bytes: Seq<u8>, name: Seq<u8>) -> Result<Option<EntryView>, Error> {
    match archive_records(bytes) {
        Err(error) => Err(error),
        Ok(offsets) => {
            let found = offsets.filter(|at: int| wants_name(name)(record_name(bytes, at)));
            if found.len() == 0 {
                Ok(None)
            } else {
                Ok(Some(record_entries(bytes, found).last()))
            }
        },
    }
}

/// The bytes of the entry `wanted`, inflated.
///
/// A name resolves to the *last* central-directory record carrying it, so a crafted archive with
/// two entries of one name resolves the way the common ZIP readers resolve it.
pub fn read_entry<S: BytesSource + ?Sized>(source: &S, wanted: &str, max_inflated: usize) -> (data: Result<
    Vec<u8>,
    Error,
>)
    ensures
        match named_entry(source.bytes(), encode_utf8(wanted@)) {
            Err(error) => data == Err::<Vec<u8>, Error>(error),
            Ok(None) => data matches Err(Error::EntryNotFound { name }) && name@ == wanted@,
            Ok(Some(view)) => exists|entry: ZipEntry| #[trigger]
                entry@ == view && inflates_to(
                    source.bytes(),
                    entry,
                    max_inflated,
                    bytes_outcome(data),
                ),
        },
{
    let ghost bytes = source.bytes();
    let raw = wanted.as_bytes();
    let accept = |name: &[u8]| -> (yes: bool)
        ensures
            yes == (name@ == raw@),
        { same_bytes(name, raw) };
    let entries = match parse_zip_entries(source, accept) {
        Ok(entries) => entries,
        Err(error) => {
            return Err(error);
        },
    };
    proof {
        let offsets = archive_records(bytes)->Ok_0;
        law_selection_by_name(accept, wants_name(raw@), bytes, offsets, entry_views(entries@));
    }
    let count: usize = entries.len();
    if count == 0 {
        return Err(Error::EntryNotFound { name: wanted.to_owned() });
    }
    let entry = &entries[count - 1];
    assert(entry@ == entry_views(entries@).last());
    inflate_entry(source, entry, max_inflated)
}

/// A bare DEX file is one entry `classes.dex`, and inflating that entry always gives the whole
/// file: what a command does with it is what it would do with the file inside an archive.
pub proof fn law_bare_file_is_its_own_entry(
    bytes: Seq<u8>,
    entries: Seq<ZipEntry>,
    max_inflated: usize,
    outcome: Result<Seq<u8>, Error>,
)
    requires
        bare_dex(bytes),
        bytes.len() <= usize::MAX,
        dex_entries(bytes) == Ok::<Seq<EntryView>, Error>(entry_views(entries)),
        all_entries(bytes) == Ok::<Seq<EntryView>, Error>(entry_views(entries)),
    ensures
        entries.len() == 1,
        entries[0].name@ == "classes.dex"@,
        inflates_to(bytes, entries[0], max_inflated, outcome) <==> outcome == Ok::<
            Seq<u8>,
            Error,
        >(bytes),
{
    assert(entry_views(entries).len() == 1);
    assert(entry_views(entries)[0] == entries[0]@);
    assert(bytes.subrange(0, bytes.len() as int) =~= bytes);
}

/// The entries that commands walk are named `classes`, anything, `.dex`, with no slash; without one
/// such, `.dex` behind anything without a slash.
pub proof fn law_dex_names(name: Seq<u8>, middle: Seq<u8>)
    requires
        !middle.contains(0x2F),
    ensures
        as_chars(name) == "classes"@ + as_chars(middle) + ".dex"@ ==> classes_dex(name),
        as_chars(name) == as_chars(middle) + ".dex"@ ==> root_dex(name),
        classes_dex(name) ==> root_dex(name),
        root_dex(name) ==> name.len() >= 4 && as_chars(name).skip(name.len() - 4) == ".dex"@
            && !name.contains(0x2F),
        classes_dex(name) ==> name.len() >= 7 && as_chars(name).take(7) == "classes"@,
{
    reveal_strlit("classes");
    reveal_strlit(".dex");
    let chars = as_chars(name);
    assert(chars.len() == name.len());
    assert forall|i: int| 0 <= i < name.len() implies #[trigger] chars[i] == name[i] as char by {}
    if root_dex(name) {
        let n = name.len();
        let tail = name.subrange(n - 4, n as int);
        assert(tail[0] == name[n - 4] && tail[1] == name[n - 3] && tail[2] == name[n - 2] && tail[3]
            == name[n - 1]);
        assert(chars.skip(n - 4) =~= ".dex"@);
    }
    if classes_dex(name) {
        let head = name.subrange(0, 7);
        assert(head[0] == name[0] && head[1] == name[1] && head[2] == name[2] && head[3] == name[3]
            && head[4] == name[4] && head[5] == name[5] && head[6] == name[6]);
        assert(chars.take(7) =~= "classes"@);
    }
    if chars == "classes"@ + as_chars(middle) + ".dex"@ {
        let stem: Seq<u8> = seq![0x63, 0x6C, 0x61, 0x73, 0x73, 0x65, 0x73];
        assert(as_chars(stem) =~= "classes"@);
        lemma_dex_name(name, stem, middle);
        assert(name.subrange(0, 7) =~= classes_stem()) by {
            assert forall|i: int| 0 <= i < 7 implies name[i] == classes_stem()[i] by {
                assert(chars[i] == "classes"@[i]);
            }
        }
    }
    if chars == as_chars(middle) + ".dex"@ {
        assert(chars =~= as_chars(Seq::<u8>::empty()) + as_chars(middle) + ".dex"@);
        lemma_dex_name(name, Seq::empty(), middle);
    }
}

proof fn lemma_dex_name(name: Seq<u8>, front: Seq<u8>, middle: Seq<u8>)
    requires
        as_chars(name) == as_chars(front) + as_chars(middle) + ".dex"@,
        !front.contains(0x2F),
        !middle.contains(0x2F),
    ensures
        root_dex(name),
{
    reveal_strlit(".dex");
    let chars = as_chars(name);
    let n = (front.len() + middle.len()) as int;
    assert(chars.len() == name.len());
    assert(as_chars(front).len() == front.len() && as_chars(middle).len() == middle.len());
    assert(".dex"@.len() == 4);
    assert(name.len() == n + 4);
    assert forall|i: int| 0 <= i < name.len() implies #[trigger] name[i] == (if i < front.len() {
        front[i]
    } else if i < n {
        middle[i - front.len()]
    } else {
        dex_suffix()[i - n]
    }) by {
        assert(chars[i] == name[i] as char);
        if i < front.len() {
            assert(as_chars(front)[i] == front[i] as char);
        } else if i < n {
            assert(as_chars(middle)[i - front.len()] == middle[i - front.len()] as char);
        } else {
            assert(chars[i] == ".dex"@[i - n]);
        }
    }
    assert(name.subrange(n, n + 4) =~= dex_suffix());
    assert(!name.contains(0x2F)) by {
        if name.contains(0x2F) {
            let i = choose|i: int| 0 <= i < name.len() && name[i] == 0x2F;
            if i < front.len() {
                assert(front.contains(front[i]));
            } else if i < n {
                assert(middle.contains(middle[i - front.len()]));
            }
        }
    }
}

/// A record with a name that the platform loads is among the entries that commands walk, by its
/// name, and so is a root DEX where no record has such a name. Nothing else is.
pub proof fn law_dex_records_are_walked(
    bytes: Seq<u8>,
    offsets: Seq<int>,
    entries: Seq<EntryView>,
    at: int,
)
    requires
        !bare_dex(bytes),
        archive_records(bytes) == Ok::<Seq<int>, Error>(offsets),
        dex_entries(bytes) == Ok::<Seq<EntryView>, Error>(entries),
        offsets.contains(at),
    ensures
        classes_dex(record_name(bytes, at)) ==> has_name(entries, record_entry(bytes, at).name),
        root_dex(record_name(bytes, at)) && (forall|other: int|
            #![trigger offsets.contains(other)]
            offsets.contains(other) ==> !classes_dex(record_name(bytes, other))) ==> has_name(
            entries,
            record_entry(bytes, at).name,
        ),
        forall|i: int|
            0 <= i < entries.len() ==> exists|other: int| #[trigger]
                offsets.contains(other) && root_dex(record_name(bytes, other)) && (#[trigger] entries[i])
                    == record_entry(bytes, other),
{
    let classes = |at: int| wants_classes()(record_name(bytes, at));
    let root = |at: int| wants_root()(record_name(bytes, at));
    let chosen = if chosen_entries(bytes, offsets, wants_classes()).len() > 0 {
        offsets.filter(classes)
    } else {
        offsets.filter(root)
    };
    let all = record_entries(bytes, chosen);
    law_names_are_kept_once(all, all.len() as int);
    lemma_filter_keeps(offsets, classes);
    lemma_filter_keeps(offsets, root);
    let named = record_entries(bytes, offsets.filter(classes));
    law_names_are_kept_once(named, named.len() as int);
    if classes_dex(record_name(bytes, at)) {
        assert(classes(at));
        let k = choose|k: int| 0 <= k < offsets.len() && offsets[k] == at;
        lemma_filter_contains(offsets, classes, k);
        let i = choose|i: int| 0 <= i < offsets.filter(classes).len() && offsets.filter(classes)[i] == at;
        assert(named[i] == record_entry(bytes, at));
        assert(has_name(first_copies(named, named.len() as int), named[i].name));
    }
    if root_dex(record_name(bytes, at)) && (forall|other: int|
        #![trigger offsets.contains(other)]
        offsets.contains(other) ==> !classes_dex(record_name(bytes, other))) {
        if named.len() > 0 {
            let first = offsets.filter(classes)[0];
            assert(offsets.filter(classes).contains(first));
            assert(classes(first));
            assert(offsets.contains(first));
        }
        assert(first_copies(named, 0).len() == 0);
        let k = choose|k: int| 0 <= k < offsets.len() && offsets[k] == at;
        assert(root(at));
        lemma_filter_contains(offsets, root, k);
        let i = choose|i: int| 0 <= i < offsets.filter(root).len() && offsets.filter(root)[i] == at;
        assert(all[i] == record_entry(bytes, at));
        assert(has_name(first_copies(all, all.len() as int), all[i].name));
    }
    assert forall|i: int| 0 <= i < entries.len() implies exists|other: int| #[trigger]
        offsets.contains(other) && root_dex(record_name(bytes, other)) && (#[trigger] entries[i])
            == record_entry(bytes, other) by {
        assert(is_among(all, all.len() as int, entries[i]));
        let k = choose|k: int| 0 <= k < all.len() && #[trigger] all[k] == entries[i];
        let other = chosen[k];
        assert(chosen.contains(other));
        assert(offsets.contains(other));
        assert(root_dex(record_name(bytes, other)));
    }
}

/// A filter keeps nothing but what it is about.
proof fn lemma_filter_keeps(s: Seq<int>, p: spec_fn(int) -> bool)
    ensures
        forall|i: int|
            0 <= i < s.filter(p).len() ==> p(#[trigger] s.filter(p)[i]) && s.contains(s.filter(p)[i]),
    decreases s.len(),
{
    reveal(Seq::filter);
    if s.len() > 0 {
        let front = s.drop_last();
        lemma_filter_keeps(front, p);
        assert forall|i: int| 0 <= i < s.filter(p).len() implies p(#[trigger] s.filter(p)[i])
            && s.contains(s.filter(p)[i]) by {
            if i < front.filter(p).len() {
                let x = front.filter(p)[i];
                assert(s.filter(p)[i] == x);
                let k = choose|k: int| 0 <= k < front.len() && front[k] == x;
                assert(s[k] == x);
            } else {
                assert(s.filter(p)[i] == s[s.len() - 1]);
            }
        }
    }
}

/// What a filter keeps is still there.
proof fn lemma_filter_contains(s: Seq<int>, p: spec_fn(int) -> bool, k: int)
    requires
        0 <= k < s.len(),
        p(s[k]),
    ensures
        s.filter(p).contains(s[k]),
    decreases s.len(),
{
    reveal(Seq::filter);
    let front = s.drop_last();
    if k < front.len() {
        lemma_filter_contains(front, p, k);
        let i = choose|i: int| 0 <= i < front.filter(p).len() && front.filter(p)[i] == s[k];
        assert(s.filter(p)[i] == s[k]);
    } else {
        assert(s.filter(p)[s.filter(p).len() - 1] == s[k]);
    }
}

/// A name stands for the last record that carries it.
pub proof fn law_the_last_record_of_a_name_counts(
    bytes: Seq<u8>,
    offsets: Seq<int>,
    name: Seq<u8>,
    k: int,
)
    requires
        archive_records(bytes) == Ok::<Seq<int>, Error>(offsets),
        0 <= k < offsets.len(),
        record_name(bytes, offsets[k]) == name,
        forall|j: int| k < j < offsets.len() ==> record_name(bytes, #[trigger] offsets[j]) != name,
    ensures
        named_entry(bytes, name) == Ok::<Option<EntryView>, Error>(
            Some(record_entry(bytes, offsets[k])),
        ),
{
    let p = |at: int| wants_name(name)(record_name(bytes, at));
    lemma_filter_last(offsets, p, k);
    let found = offsets.filter(p);
    assert(record_entries(bytes, found).last() == record_entry(bytes, found.last()));
}

proof fn lemma_filter_last(s: Seq<int>, p: spec_fn(int) -> bool, k: int)
    requires
        0 <= k < s.len(),
        p(s[k]),
        forall|j: int| k < j < s.len() ==> !p(#[trigger] s[j]),
    ensures
        s.filter(p).len() > 0,
        s.filter(p).last() == s[k],
    decreases s.len(),
{
    reveal(Seq::filter);
    if k < s.len() - 1 {
        assert(!p(s[s.len() - 1]));
        lemma_filter_last(s.drop_last(), p, k);
    }
}

/// A file is a DEX file by its first eight bytes: `dex`, a line feed, three digits and a zero.
pub proof fn law_a_bare_file_names_itself(bytes: Seq<u8>, version: nat)
    requires
        version < 1000,
    ensures
        occurs_at(
            bytes,
            seq![
                0x64u8,
                0x65,
                0x78,
                0x0A,
                (0x30 + version / 100) as u8,
                (0x30 + version / 10 % 10) as u8,
                (0x30 + version % 10) as u8,
                0,
            ],
            0,
        ) ==> bare_dex(bytes),
        bare_dex(bytes) ==> bytes[0] != 0x50 && bytes.take(4) == seq![0x64u8, 0x65, 0x78, 0x0A]
            && bytes[7] == 0 && (forall|i: int| 4 <= i < 7 ==> 0x30 <= #[trigger] bytes[i] <= 0x39),
{
    let magic = seq![
        0x64u8,
        0x65,
        0x78,
        0x0A,
        (0x30 + version / 100) as u8,
        (0x30 + version / 10 % 10) as u8,
        (0x30 + version % 10) as u8,
        0,
    ];
    if occurs_at(bytes, magic, 0) {
        let part = bytes.subrange(0, 8);
        assert(part[0] == bytes[0] && part[1] == bytes[1] && part[2] == bytes[2] && part[3]
            == bytes[3] && part[4] == bytes[4] && part[5] == bytes[5] && part[6] == bytes[6] && part[7]
            == bytes[7]);
    }
    if bare_dex(bytes) {
        assert(bytes.take(4) =~= seq![0x64u8, 0x65, 0x78, 0x0A]);
    }
}

/// Where an archive has DEX files that the platform loads, no other DEX file of its root is walked.
pub proof fn law_other_root_files_are_left_out(
    bytes: Seq<u8>,
    offsets: Seq<int>,
    entries: Seq<EntryView>,
    at: int,
)
    requires
        !bare_dex(bytes),
        archive_records(bytes) == Ok::<Seq<int>, Error>(offsets),
        dex_entries(bytes) == Ok::<Seq<EntryView>, Error>(entries),
        offsets.contains(at),
        classes_dex(record_name(bytes, at)),
    ensures
        forall|i: int|
            0 <= i < entries.len() ==> exists|other: int| #[trigger]
                offsets.contains(other) && classes_dex(record_name(bytes, other)) && (
                #[trigger] entries[i]) == record_entry(bytes, other),
{
    let classes = |at: int| wants_classes()(record_name(bytes, at));
    let chosen = offsets.filter(classes);
    let all = record_entries(bytes, chosen);
    law_names_are_kept_once(all, all.len() as int);
    lemma_filter_keeps(offsets, classes);
    lemma_copies(all, all.len() as int);
    assert(classes(at));
    let k = choose|k: int| 0 <= k < offsets.len() && offsets[k] == at;
    lemma_filter_contains(offsets, classes, k);
    assert(entries == first_copies(all, all.len() as int));
    assert forall|i: int| 0 <= i < entries.len() implies exists|other: int| #[trigger]
        offsets.contains(other) && classes_dex(record_name(bytes, other)) && (#[trigger] entries[i])
            == record_entry(bytes, other) by {
        assert(is_among(all, all.len() as int, entries[i]));
        let k = choose|k: int| 0 <= k < all.len() && #[trigger] all[k] == entries[i];
        let other = chosen[k];
        assert(classes(other));
        assert(offsets.contains(other));
        assert(classes_dex(record_name(bytes, other)));
    }
}

/// Of the entries of one name, the first is the one that is kept.
pub proof fn law_the_first_of_a_name_is_kept(entries: Seq<EntryView>, n: int, k: int)
    requires
        0 <= k < n <= entries.len(),
        forall|j: int| 0 <= j < k ==> (#[trigger] entries[j]).name != entries[k].name,
    ensures
        first_copies(entries, n).contains(entries[k]),
    decreases n,
{
    let before = first_copies(entries, n - 1);
    let now = first_copies(entries, n);
    if k == n - 1 {
        assert(!named_before(entries, n - 1));
        assert(now[before.len() as int] == entries[k]);
    } else {
        law_the_first_of_a_name_is_kept(entries, n - 1, k);
        let i = choose|i: int| 0 <= i < before.len() && before[i] == entries[k];
        assert(now[i] == before[i]);
    }
}

/// Every record of an archive is listed, in the order of the directory and with nothing left out.
pub proof fn law_every_record_is_listed(bytes: Seq<u8>, offsets: Seq<int>, i: int)
    requires
        !bare_dex(bytes),
        archive_records(bytes) == Ok::<Seq<int>, Error>(offsets),
        0 <= i < offsets.len(),
    ensures
        all_entries(bytes) matches Ok(list) && list.len() == offsets.len() && list[i] == record_entry(
            bytes,
            offsets[i],
        ),
{
}

} // verus!
