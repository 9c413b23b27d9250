//! The class index of an archive.
use super::entries::{dex_entries, parse_dex_entries};
use super::probe::{law_probe_reads_a_prefix, prefix_probe, probe_outcome, probes, PrefixPolicy};
use crate::dex::container::{is_container, logical_dexes, logical_of, logical_views, LogicalView};
use crate::dex::prefix::{law_prefix_names_are_exact, prefix_names};
use crate::dex::{class_names, class_texts, dex_error, texts};
use crate::error::Error;
use crate::order::{
    bytes_less, lemma_text_order, lemma_text_transitive, less_at, order_text, ordered, text_less,
    Order,
};
use crate::seqs::{
    collect, joined, last_where, lemma_collect_fails, lemma_collect_succeeds,
    lemma_joined_comes_from, lemma_joined_has, lemma_last_where, lemma_last_where_is,
};
use crate::text::{chars_of, same_text, slice_text};
use crate::zip::{bytes_outcome, entry_views, inflate_entry, inflates_to, BytesSource, ZipEntry};
use rayon::slice::ParallelSliceMut;
use vstd::prelude::*;
use vstd::utf8::encode_utf8;

verus! {

/// One class of an archive, and the DEX entry it was found in.
#[derive(Clone, Debug, PartialEq, Eq, PartialOrd, Ord)]
pub struct ClassEntry {
    pub descriptor: String,
    /// The DEX entry the class was found in.
    pub dex_name: String,
    /// The first [`KEY_BYTES`] of `descriptor`, big-endian, so that ordering rows can
    /// usually decide inside the row instead of chasing the descriptor's heap bytes.
    pub key: u64,
}

/// How many descriptor bytes the inline sort key keeps.
pub const KEY_BYTES: usize = 8;

/// A class, with its texts as characters.
#[verifier::ext_equal]
pub struct ClassView {
    pub descriptor: Seq<char>,
    pub dex_name: Seq<char>,
}

impl View for ClassEntry {
    type V = ClassView;

    open spec fn view(&self) -> ClassView {
        ClassView { descriptor: self.descriptor@, dex_name: self.dex_name@ }
    }
}

/// The views of a list of classes.
pub open spec fn class_views(entries: Seq<ClassEntry>) -> Seq<ClassView> {
    entries.map_values(|entry: ClassEntry| entry@)
}

/// Whether one class comes before another: by descriptor, then by entry.
pub open spec fn class_less(a: ClassView, b: ClassView) -> bool {
    text_less(a.descriptor, b.descriptor) || (a.descriptor == b.descriptor && text_less(
        a.dex_name,
        b.dex_name,
    ))
}

/// A byte of a descriptor, or zero behind its end.
pub open spec fn padded(bytes: Seq<u8>, i: int) -> int {
    if i < bytes.len() {
        bytes[i] as int
    } else {
        0
    }
}

/// The first `n` bytes of a descriptor as a number, first byte first.
pub open spec fn key_of(bytes: Seq<u8>, n: int) -> int
    decreases n,
{
    if n <= 0 {
        0
    } else {
        key_of(bytes, n - 1) * 0x100 + padded(bytes, n - 1)
    }
}

/// A key of `n` bytes fits `n` bytes.
proof fn lemma_key_bound(bytes: Seq<u8>, n: int)
    requires
        0 <= n <= 8,
    ensures
        0 <= key_of(bytes, n),
        n == 0 ==> key_of(bytes, n) == 0,
        n == 1 ==> key_of(bytes, n) < 0x100,
        n == 2 ==> key_of(bytes, n) < 0x1_0000,
        n == 3 ==> key_of(bytes, n) < 0x100_0000,
        n == 4 ==> key_of(bytes, n) < 0x1_0000_0000,
        n == 5 ==> key_of(bytes, n) < 0x100_0000_0000,
        n == 6 ==> key_of(bytes, n) < 0x1_0000_0000_0000,
        n == 7 ==> key_of(bytes, n) < 0x100_0000_0000_0000,
        n == 8 ==> key_of(bytes, n) < 0x1_0000_0000_0000_0000,
    decreases n,
{
    if n > 0 {
        lemma_key_bound(bytes, n - 1);
    }
}

/// The sort key of a descriptor: its first bytes, zero-padded, big-endian.
///
/// Zero padding is order-preserving: a row whose descriptor ends before the padding compares as
/// smaller or equal there, and equal keys are decided by the descriptors themselves.
fn descriptor_key(descriptor: &str) -> (key: u64)
    ensures
        key == key_of(encode_utf8(descriptor@), 8),
{
    let bytes = descriptor.as_bytes();
    let mut key: u64 = 0;
    let mut i: usize = 0;
    while i < KEY_BYTES
        invariant
            i <= 8,
            bytes@ == encode_utf8(descriptor@),
            key == key_of(bytes@, i as int),
        decreases 8 - i,
    {
        proof {
            lemma_key_bound(bytes@, i as int);
            lemma_key_bound(bytes@, i + 1);
        }
        let byte: u64 = if i < bytes.len() {
            bytes[i] as u64
        } else {
            0
        };
        key = key * 0x100 + byte;
        i = i + 1;
    }
    key
}

/// Equal keys agree in every byte they keep.
proof fn lemma_equal_keys(a: Seq<u8>, b: Seq<u8>, n: int, i: int)
    requires
        0 <= i < n,
        key_of(a, n) == key_of(b, n),
    ensures
        padded(a, i) == padded(b, i),
    decreases n,
{
    if i < n - 1 {
        lemma_equal_keys(a, b, n - 1, i);
    }
}

/// A smaller key means a descriptor that comes before.
pub proof fn law_key_keeps_the_order(a: Seq<u8>, b: Seq<u8>, n: int)
    requires
        0 <= n,
        key_of(a, n) < key_of(b, n),
    ensures
        bytes_less(a, b),
    decreases n,
{
    if n > 0 {
        let m = n - 1;
        if key_of(a, m) < key_of(b, m) {
            law_key_keeps_the_order(a, b, m);
        } else {
            assert(key_of(a, m) == key_of(b, m));
            assert(padded(a, m) < padded(b, m));
            assert(m < b.len());
            if a.len() < m {
                let k = a.len() as int;
                assert forall|j: int| 0 <= j < k implies #[trigger] a[j] == b[j] by {
                    lemma_equal_keys(a, b, m, j);
                }
                assert(less_at(a, b, k));
            } else {
                assert forall|j: int| 0 <= j < m implies #[trigger] a[j] == b[j] by {
                    lemma_equal_keys(a, b, m, j);
                }
                assert(less_at(a, b, m));
            }
        }
    }
}

/// The order of classes is total.
pub proof fn lemma_class_order(a: ClassView, b: ClassView)
    ensures
        class_less(a, b) ==> !class_less(b, a) && a != b,
        a != b ==> class_less(a, b) || class_less(b, a),
{
    lemma_text_order(a.descriptor, b.descriptor);
    lemma_text_order(b.descriptor, a.descriptor);
    lemma_text_order(a.dex_name, b.dex_name);
    lemma_text_order(b.dex_name, a.dex_name);
    if a != b && a.descriptor == b.descriptor {
        assert(a.dex_name != b.dex_name);
    }
}

/// The order of classes is transitive.
pub proof fn law_class_order_is_transitive(a: ClassView, b: ClassView, c: ClassView)
    requires
        class_less(a, b),
        class_less(b, c),
    ensures
        class_less(a, c),
{
    if text_less(a.descriptor, b.descriptor) && text_less(b.descriptor, c.descriptor) {
        lemma_text_transitive(a.descriptor, b.descriptor, c.descriptor);
    }
    if text_less(a.dex_name, b.dex_name) && text_less(b.dex_name, c.dex_name) {
        lemma_text_transitive(a.dex_name, b.dex_name, c.dex_name);
    }
}

/// What stands between the `L` and the `;` of a descriptor, or the whole of anything else.
pub open spec fn plain_name(descriptor: Seq<char>) -> Seq<char> {
    if descriptor.len() >= 2 && descriptor[0] == 'L' && descriptor.last() == ';' {
        descriptor.subrange(1, descriptor.len() - 1)
    } else {
        descriptor
    }
}

/// The index of the last slash, or `-1`.
pub open spec fn last_slash(name: Seq<char>) -> int {
    last_where(name, |c: char| c == '/')
}

/// The package of a plain name: what stands before its last slash.
pub open spec fn package_of(name: Seq<char>) -> Seq<char> {
    if last_slash(name) < 0 {
        Seq::empty()
    } else {
        name.take(last_slash(name))
    }
}

/// The simple name of a plain name: what stands behind its last slash.
pub open spec fn simple_of(name: Seq<char>) -> Seq<char> {
    name.skip(last_slash(name) + 1)
}

fn find_last_slash(name: &[char]) -> (found: Option<usize>)
    ensures
        match found {
            Some(at) => at == last_slash(name@) && at < name@.len(),
            None => last_slash(name@) == -1,
        },
{
    let mut end: usize = name.len();
    while end > 0
        invariant
            end <= name@.len(),
            forall|j: int| end <= j < name@.len() ==> #[trigger] name@[j] != '/',
        decreases end,
    {
        end = end - 1;
        if name[end] == '/' {
            proof {
                lemma_last_where(name@, |c: char| c == '/', end as int);
            }
            return Some(end);
        }
    }
    proof {
        lemma_last_where(name@, |c: char| c == '/', -1);
    }
    None
}

impl ClassEntry {
    /// Whether the key is that of the descriptor.
    pub open spec fn keyed(&self) -> bool {
        self.key == key_of(encode_utf8(self.descriptor@), 8)
    }

    pub fn new(descriptor: String, dex_name: String) -> (entry: Self)
        ensures
            entry.keyed(),
            entry.descriptor == descriptor,
            entry.dex_name == dex_name,
    {
        let key = descriptor_key(descriptor.as_str());
        ClassEntry { descriptor, dex_name, key }
    }

    /// How this class stands to another. The key decides where it can; the descriptor and the
    /// entry decide otherwise.
    pub fn order(&self, other: &ClassEntry) -> (order: Order)
        requires
            self.keyed(),
            other.keyed(),
        ensures
            ordered(order, class_less(self@, other@), class_less(other@, self@)),
            order is Same <==> self@ == other@,
    {
        proof {
            lemma_class_order(self@, other@);
            lemma_class_order(other@, self@);
        }
        if self.key < other.key {
            proof {
                law_key_keeps_the_order(
                    encode_utf8(self.descriptor@),
                    encode_utf8(other.descriptor@),
                    8,
                );
            }
            return Order::Before;
        }
        if self.key > other.key {
            proof {
                law_key_keeps_the_order(
                    encode_utf8(other.descriptor@),
                    encode_utf8(self.descriptor@),
                    8,
                );
            }
            return Order::After;
        }
        match order_text(self.descriptor.as_str(), other.descriptor.as_str()) {
            Order::Same => order_text(self.dex_name.as_str(), other.dex_name.as_str()),
            decided => decided,
        }
    }

    /// The class's name as the platform writes it, with slashes.
    pub fn java_name(&self) -> (name: String)
        ensures
            name@ == plain_name(self.descriptor@),
    {
        let chars = chars_of(self.descriptor.as_str());
        let len: usize = chars.len();
        if len >= 2 && chars[0] == 'L' && chars[len - 1] == ';' {
            slice_text(chars.as_slice(), 1, len - 1)
        } else {
            self.descriptor.clone()
        }
    }

    /// The class's package, with slashes.
    pub fn package(&self) -> (name: String)
        ensures
            name@ == package_of(plain_name(self.descriptor@)),
    {
        let name = self.java_name();
        let chars = chars_of(name.as_str());
        match find_last_slash(chars.as_slice()) {
            Some(at) => slice_text(chars.as_slice(), 0, at),
            None => {
                let empty = String::new();
                assert(empty@ =~= Seq::empty());
                empty
            },
        }
    }

    /// The class's name without its package.
    pub fn simple_name(&self) -> (name: String)
        ensures
            name@ == simple_of(plain_name(self.descriptor@)),
    {
        let name = self.java_name();
        let chars = chars_of(name.as_str());
        let len: usize = chars.len();
        match find_last_slash(chars.as_slice()) {
            Some(at) => {
                let simple = slice_text(chars.as_slice(), at + 1, len);
                assert(simple@ =~= chars@.skip(at + 1));
                simple
            },
            None => {
                assert(chars@.skip(0) =~= chars@);
                name
            },
        }
    }
}

/// The order of two classes, as sorting asks for it.
fn sort_order(left: &ClassEntry, right: &ClassEntry) -> (order: std::cmp::Ordering)
    requires
        left.keyed(),
        right.keyed(),
    ensures
        match order {
            std::cmp::Ordering::Less => class_less(left@, right@),
            std::cmp::Ordering::Greater => class_less(right@, left@),
            std::cmp::Ordering::Equal => left@ == right@,
        },
{
    match left.order(right) {
        Order::Before => std::cmp::Ordering::Less,
        Order::After => std::cmp::Ordering::Greater,
        Order::Same => std::cmp::Ordering::Equal,
    }
}

/// Whether classes are in ascending order.
pub open spec fn classes_sorted(entries: Seq<ClassView>) -> bool {
    forall|i: int, j: int|
        0 <= i < j < entries.len() ==> !class_less(#[trigger] entries[j], #[trigger] entries[i])
}

/// Whether every class has the key of its descriptor.
pub open spec fn all_keyed(entries: Seq<ClassEntry>) -> bool {
    forall|i: int| 0 <= i < entries.len() ==> (#[trigger] entries[i]).keyed()
}

/// `rayon`'s `par_sort_unstable_by` with the order of classes.
///
/// The list holds the same classes afterwards, in ascending order; the order is total, so no two
/// different classes compare as equal and there is only one such list.
#[verifier::external_body]
fn par_sort_classes(entries: &mut Vec<ClassEntry>)
    requires
        all_keyed(old(entries)@),
    ensures
        final(entries)@.to_multiset() == old(entries)@.to_multiset(),
        classes_sorted(class_views(final(entries)@)),
{
    entries.par_sort_unstable_by(|left, right| sort_order(left, right));
}

/// Whether `index` is the class index of the classes `found`: each descriptor once, in ascending
/// order, with the first of the entries it was found in.
pub open spec fn class_index(found: Seq<ClassView>, index: Seq<ClassView>) -> bool {
    &&& descriptors_ascend(index)
    &&& forall|i: int| 0 <= i < index.len() ==> found.contains(#[trigger] index[i])
    &&& forall|k: int| 0 <= k < found.len() ==> covered(index, #[trigger] found[k])
}

/// The same elements stand in two lists with the same multiset.
proof fn lemma_same_elements(a: Seq<ClassEntry>, b: Seq<ClassEntry>)
    requires
        a.to_multiset() == b.to_multiset(),
    ensures
        forall|i: int| 0 <= i < a.len() ==> b.contains(#[trigger] a[i]),
        forall|i: int| 0 <= i < b.len() ==> a.contains(#[trigger] b[i]),
{
    broadcast use vstd::seq_lib::group_to_multiset_ensures;

    assert forall|i: int| 0 <= i < a.len() implies b.contains(#[trigger] a[i]) by {
        assert(a.contains(a[i]));
        assert(a.to_multiset().count(a[i]) > 0);
    }
    assert forall|i: int| 0 <= i < b.len() implies a.contains(#[trigger] b[i]) by {
        assert(b.contains(b[i]));
        assert(b.to_multiset().count(b[i]) > 0);
    }
}

/// Whether a class with the given descriptor stands in a list, not behind `class`.
pub open spec fn covered(list: Seq<ClassView>, class: ClassView) -> bool {
    exists|i: int|
        0 <= i < list.len() && (#[trigger] list[i]).descriptor == class.descriptor && !class_less(
            class,
            list[i],
        )
}

/// The first class of each run of classes with one descriptor, among the first `n`.
pub open spec fn run_heads(sorted: Seq<ClassView>, n: int) -> Seq<ClassView>
    decreases n,
{
    if n <= 0 {
        Seq::empty()
    } else {
        let before = run_heads(sorted, n - 1);
        if before.len() > 0 && before.last().descriptor == sorted[n - 1].descriptor {
            before
        } else {
            before.push(sorted[n - 1])
        }
    }
}

/// Whether descriptors ascend in a list.
pub open spec fn descriptors_ascend(list: Seq<ClassView>) -> bool {
    forall|i: int, j: int|
        0 <= i < j < list.len() ==> text_less(
            (#[trigger] list[i]).descriptor,
            (#[trigger] list[j]).descriptor,
        )
}

/// The heads of the runs of a sorted list.
proof fn lemma_run_heads(sorted: Seq<ClassView>, n: int)
    requires
        0 <= n <= sorted.len(),
        classes_sorted(sorted),
    ensures
        descriptors_ascend(run_heads(sorted, n)),
        n > 0 ==> run_heads(sorted, n).len() > 0 && run_heads(sorted, n).last().descriptor == sorted[n
            - 1].descriptor,
        forall|i: int|
            0 <= i < run_heads(sorted, n).len() ==> exists|k: int|
                0 <= k < n && #[trigger] sorted[k] == #[trigger] run_heads(sorted, n)[i],
        forall|k: int| 0 <= k < n ==> covered(run_heads(sorted, n), #[trigger] sorted[k]),
    decreases n,
{
    if n > 0 {
        lemma_run_heads(sorted, n - 1);
        let before = run_heads(sorted, n - 1);
        let now = run_heads(sorted, n);
        let new = sorted[n - 1];
        lemma_class_order(new, new);
        if before.len() > 0 && before.last().descriptor == new.descriptor {
            let i = before.len() - 1;
            let q = choose|q: int| 0 <= q < n - 1 && #[trigger] sorted[q] == before[i];
            assert(!class_less(sorted[n - 1], sorted[q]));
            assert(now[i].descriptor == new.descriptor);
            assert(covered(now, new));
            assert forall|i: int| 0 <= i < now.len() implies exists|k: int|
                0 <= k < n && #[trigger] sorted[k] == #[trigger] now[i] by {
                let k = choose|k: int| 0 <= k < n - 1 && #[trigger] sorted[k] == before[i];
                assert(sorted[k] == now[i]);
            }
        } else {
            if n > 1 {
                let last = sorted[n - 2];
                assert(!class_less(sorted[n - 1], sorted[n - 2]));
                lemma_text_order(new.descriptor, last.descriptor);
                assert(text_less(last.descriptor, new.descriptor));
            }
            assert forall|i: int, j: int| 0 <= i < j < now.len() implies text_less(
                (#[trigger] now[i]).descriptor,
                (#[trigger] now[j]).descriptor,
            ) by {
                assert(now[i] == before[i]);
                if j < before.len() {
                    assert(now[j] == before[j]);
                } else if i < before.len() - 1 {
                    assert(text_less(before[i].descriptor, before[before.len() - 1].descriptor));
                    lemma_text_transitive(
                        before[i].descriptor,
                        before.last().descriptor,
                        new.descriptor,
                    );
                }
            }
            assert forall|i: int| 0 <= i < now.len() implies exists|k: int|
                0 <= k < n && #[trigger] sorted[k] == #[trigger] now[i] by {
                if i < before.len() {
                    let k = choose|k: int| 0 <= k < n - 1 && #[trigger] sorted[k] == before[i];
                    assert(sorted[k] == now[i]);
                } else {
                    assert(sorted[n - 1] == now[i]);
                }
            }
            assert(now[before.len() as int] == new);
            assert(covered(now, new));
            assert forall|k: int| 0 <= k < n implies covered(now, #[trigger] sorted[k]) by {
                if k < n - 1 {
                    assert(covered(before, sorted[k]));
                    let i = choose|i: int|
                        0 <= i < before.len() && (#[trigger] before[i]).descriptor
                            == sorted[k].descriptor && !class_less(sorted[k], before[i]);
                    assert(now[i] == before[i]);
                }
            }
        }
    }
}

/// The heads of the runs of a sorted copy of a list are the list's class index.
proof fn lemma_heads_are_the_index(found: Seq<ClassView>, sorted: Seq<ClassView>)
    requires
        classes_sorted(sorted),
        forall|i: int| 0 <= i < found.len() ==> sorted.contains(#[trigger] found[i]),
        forall|i: int| 0 <= i < sorted.len() ==> found.contains(#[trigger] sorted[i]),
    ensures
        class_index(found, run_heads(sorted, sorted.len() as int)),
{
    let index = run_heads(sorted, sorted.len() as int);
    lemma_run_heads(sorted, sorted.len() as int);
    assert forall|i: int| 0 <= i < index.len() implies found.contains(#[trigger] index[i]) by {
        let k = choose|k: int| 0 <= k < sorted.len() && #[trigger] sorted[k] == index[i];
        assert(found.contains(sorted[k]));
    }
    assert forall|k: int| 0 <= k < found.len() implies covered(index, #[trigger] found[k]) by {
        assert(sorted.contains(found[k]));
        let q = choose|q: int| 0 <= q < sorted.len() && sorted[q] == found[k];
        assert(covered(index, sorted[q]));
    }
}

/// The class index of the classes that were found.
///
/// The order is total, so an unstable parallel sort produces exactly the order a stable sort
/// would - the index has no ties to preserve. Of classes with one descriptor the first stays.
pub fn index_classes(found: Vec<ClassEntry>) -> (index: Vec<ClassEntry>)
    requires
        all_keyed(found@),
    ensures
        class_index(class_views(found@), class_views(index@)),
        all_keyed(index@),
{
    let ghost all = class_views(found@);
    let ghost original = found@;
    let mut sorted = found;
    par_sort_classes(&mut sorted);
    let ghost views = class_views(sorted@);
    proof {
        lemma_same_elements(original, sorted@);
        assert forall|i: int| 0 <= i < sorted@.len() implies (#[trigger] sorted@[i]).keyed() by {
            let k = choose|k: int| 0 <= k < original.len() && original[k] == sorted@[i];
            assert(original[k].keyed());
        }
        assert forall|i: int| 0 <= i < views.len() implies all.contains(#[trigger] views[i]) by {
            assert(original.contains(sorted@[i]));
            let k = choose|k: int| 0 <= k < original.len() && original[k] == sorted@[i];
            assert(all[k] == views[i]);
        }
        assert forall|i: int| 0 <= i < all.len() implies views.contains(#[trigger] all[i]) by {
            assert(sorted@.contains(original[i]));
            let k = choose|k: int| 0 <= k < sorted@.len() && sorted@[k] == original[i];
            assert(views[k] == all[i]);
        }
        lemma_heads_are_the_index(all, views);
    }
    let mut index: Vec<ClassEntry> = Vec::new();
    assert(class_views(index@) =~= run_heads(views, 0));
    for n in 0..sorted.len()
        invariant
            views == class_views(sorted@),
            all_keyed(sorted@),
            all_keyed(index@),
            class_views(index@) == run_heads(views, n as int),
    {
        let ghost before = index@;
        let entry = &sorted[n];
        assert(entry@ == views[n as int]);
        if index.len() > 0 {
            assert(class_views(before).last() == before.last()@);
        }
        let repeated: bool = index.len() > 0 && same_text(
            index[index.len() - 1].descriptor.as_str(),
            entry.descriptor.as_str(),
        );
        if !repeated {
            let copy = ClassEntry {
                descriptor: entry.descriptor.clone(),
                dex_name: entry.dex_name.clone(),
                key: entry.key,
            };
            index.push(copy);
            assert(class_views(index@) =~= class_views(before).push(views[n as int]));
        }
    }
    index
}

/// The classes with the given descriptors, found in one DEX.
pub open spec fn found_in(dex_name: Seq<char>, descriptors: Seq<Seq<char>>) -> Seq<ClassView> {
    descriptors.map_values(|descriptor: Seq<char>| ClassView { descriptor, dex_name })
}

/// The classes of each logical DEX file of an entry, by position.
pub open spec fn logical_classes(list: Seq<LogicalView>) -> spec_fn(int) -> Result<
    Seq<ClassView>,
    Error,
> {
    |k: int|
        match class_texts(list[k].data) {
            Ok(descriptors) => Ok(found_in(list[k].name, descriptors)),
            Err(error) => Err(error),
        }
}

/// The classes of an entry with the bytes `data`.
pub open spec fn data_classes(name: Seq<char>, data: Seq<u8>) -> Result<Seq<ClassView>, Error> {
    match logical_of(name, data) {
        Err(error) => Err(error),
        Ok(list) => match collect(list.len() as int, logical_classes(list)) {
            Ok(parts) => Ok(joined(parts)),
            Err(error) => Err(error),
        },
    }
}

/// What the classes of an entry are, given what inflating it gave.
pub open spec fn inflated_classes(name: Seq<char>, data: Result<Seq<u8>, Error>) -> Result<
    Seq<ClassView>,
    Error,
> {
    match data {
        Ok(data) => data_classes(name, data),
        Err(error) => Err(error),
    }
}

/// Whether `outcome` is what the classes of an entry are when it is inflated whole.
pub open spec fn lists_whole(
    bytes: Seq<u8>,
    entry: ZipEntry,
    max_inflated: usize,
    outcome: Result<Seq<ClassView>, Error>,
) -> bool {
    exists|data: Result<Seq<u8>, Error>| #[trigger]
        inflates_to(bytes, entry, max_inflated, data) && outcome == inflated_classes(
            entry.name@,
            data,
        )
}

/// Whether `outcome` is what the classes of an entry are, once its probe gave `probe`: they come
/// from the prefix when it holds them all, and from the whole entry otherwise.
pub open spec fn lists_probed(
    bytes: Seq<u8>,
    entry: ZipEntry,
    max_inflated: usize,
    probe: Result<Option<Seq<u8>>, Error>,
    outcome: Result<Seq<ClassView>, Error>,
) -> bool {
    match probe {
        Err(error) => outcome == Err::<Seq<ClassView>, Error>(error),
        Ok(None) => lists_whole(bytes, entry, max_inflated, outcome),
        Ok(Some(prefix)) => match prefix_names(prefix) {
            Some(names) => outcome == Ok::<Seq<ClassView>, Error>(found_in(entry.name@, names)),
            None => lists_whole(bytes, entry, max_inflated, outcome),
        },
    }
}

/// Whether `outcome` is what the classes of an entry are under an archive-wide policy, and
/// `after` the policy afterwards.
pub open spec fn lists_entry(
    bytes: Seq<u8>,
    entry: ZipEntry,
    max_inflated: usize,
    policy: PrefixPolicy,
    outcome: Result<Seq<ClassView>, Error>,
    after: PrefixPolicy,
) -> bool {
    exists|probe: Result<Option<Seq<u8>>, Error>| #[trigger]
        probes(bytes, entry, max_inflated, policy, probe, after) && lists_probed(
            bytes,
            entry,
            max_inflated,
            probe,
            outcome,
        )
}

/// The outcome of a call that returns classes, with the classes as views.
pub open spec fn classes_outcome(result: Result<Vec<ClassEntry>, Error>) -> Result<
    Seq<ClassView>,
    Error,
> {
    match result {
        Ok(list) => Ok(class_views(list@)),
        Err(error) => Err(error),
    }
}

/// Appends the classes with the given descriptors.
fn push_classes(classes: &mut Vec<ClassEntry>, dex_name: &String, descriptors: Vec<String>)
    requires
        all_keyed(old(classes)@),
    ensures
        all_keyed(final(classes)@),
        class_views(final(classes)@) == class_views(old(classes)@) + found_in(
            dex_name@,
            texts(descriptors@),
        ),
{
    let ghost start = class_views(classes@);
    let ghost added = found_in(dex_name@, texts(descriptors@));
    assert(start + added.take(0) =~= start);
    for i in 0..descriptors.len()
        invariant
            all_keyed(classes@),
            added == found_in(dex_name@, texts(descriptors@)),
            class_views(classes@) == start + added.take(i as int),
    {
        let ghost before = classes@;
        let entry = ClassEntry::new(descriptors[i].clone(), dex_name.clone());
        classes.push(entry);
        proof {
            assert(entry@ =~= added[i as int]);
            assert(class_views(classes@) =~= class_views(before).push(added[i as int]));
            assert((start + added.take(i as int)).push(added[i as int]) =~= start + added.take(i + 1));
        }
    }
    assert(added.take(added.len() as int) =~= added);
}

/// The classes of an entry with the bytes `data`: those of each of its logical DEX files.
pub fn classes_of_data(name: &str, data: &[u8]) -> (classes: Result<Vec<ClassEntry>, Error>)
    ensures
        classes_outcome(classes) == data_classes(name@, data@),
        classes matches Ok(list) ==> all_keyed(list@),
{
    let list = match logical_dexes(name, data) {
        Ok(list) => list,
        Err(error) => {
            return Err(error);
        },
    };
    let ghost views = logical_views(list@);
    let ghost f = logical_classes(views);
    let count: usize = list.len();
    let mut classes: Vec<ClassEntry> = Vec::new();
    let mut k: usize = 0;
    assert(class_views(classes@) =~= joined(Seq::<Seq<ClassView>>::empty()));
    while k < count
        invariant
            count == list@.len(),
            views == logical_views(list@),
            logical_of(name@, data@) == Ok::<Seq<LogicalView>, Error>(views),
            f == logical_classes(views),
            k <= count,
            all_keyed(classes@),
            collect(k as int, f) matches Ok(parts) && class_views(classes@) == joined(parts),
        decreases count - k,
    {
        let logical = &list[k];
        assert(views[k as int] == logical@);
        let names = match class_names(logical.data.as_slice()) {
            Ok(names) => names,
            Err(error) => {
                proof {
                    lemma_collect_fails(count as int, k as int, f);
                }
                return Err(error);
            },
        };
        proof {
            let parts = collect(k as int, f)->Ok_0;
            let part = found_in(logical.name@, texts(names@));
            assert(parts.push(part).drop_last() =~= parts);
        }
        push_classes(&mut classes, &logical.name, names);
        k = k + 1;
    }
    Ok(classes)
}

/// The classes of one entry, from a prefix of it when that holds them all.
///
/// The prefix reader answers only when the prefix holds all three tables and every descriptor it
/// decodes, so its answer is exact, not a guess; otherwise the whole entry is inflated.
pub fn entry_classes<S: BytesSource + ?Sized>(
    source: &S,
    entry: &ZipEntry,
    max_inflated: usize,
    policy: &mut PrefixPolicy,
) -> (classes: Result<Vec<ClassEntry>, Error>)
    ensures
        lists_entry(
            source.bytes(),
            *entry,
            max_inflated,
            *old(policy),
            classes_outcome(classes),
            *final(policy),
        ),
        classes matches Ok(list) ==> all_keyed(list@),
{
    let ghost bytes = source.bytes();
    let probe = prefix_probe(source, entry, max_inflated, policy);
    let ghost probe_read = probe_outcome(probe);
    assert(probes(bytes, *entry, max_inflated, *old(policy), probe_read, *policy));
    match probe {
        Ok(Some(prefix)) => match crate::dex::prefix::class_names(prefix.as_slice()) {
            Ok(Some(names)) => {
                let mut classes: Vec<ClassEntry> = Vec::new();
                let ghost start = class_views(classes@);
                push_classes(&mut classes, &entry.name, names);
                assert(start + found_in(entry.name@, texts(names@)) =~= found_in(
                    entry.name@,
                    texts(names@),
                ));
                return Ok(classes);
            },
            _ => {},
        },
        Ok(None) => {},
        Err(error) => {
            return Err(error);
        },
    }
    let data = inflate_entry(source, entry, max_inflated);
    let ghost read = bytes_outcome(data);
    assert(inflates_to(bytes, *entry, max_inflated, read));
    match data {
        Ok(data) => {
            let classes = classes_of_data(entry.name.as_str(), data.as_slice());
            assert(lists_whole(bytes, *entry, max_inflated, classes_outcome(classes)));
            classes
        },
        Err(error) => {
            assert(lists_whole(
                bytes,
                *entry,
                max_inflated,
                Err::<Seq<ClassView>, Error>(error),
            ));
            Err(error)
        },
    }
}

/// Inflating has one outcome where it succeeds.
proof fn lemma_inflates_once(
    bytes: Seq<u8>,
    entry: ZipEntry,
    max_inflated: usize,
    data: Seq<u8>,
    other: Result<Seq<u8>, Error>,
)
    requires
        inflates_to(bytes, entry, max_inflated, Ok::<Seq<u8>, Error>(data)),
        inflates_to(bytes, entry, max_inflated, other),
    ensures
        other == Ok::<Seq<u8>, Error>(data),
{
}

/// The classes of an entry do not depend on the archive-wide policy, nor on whether a prefix was
/// read: they are those of the entry's bytes. This holds of every entry that inflates to a
/// container or to a DEX file whose tables are in it.
pub proof fn law_policy_does_not_change_the_classes(
    bytes: Seq<u8>,
    entry: ZipEntry,
    max_inflated: usize,
    policy: PrefixPolicy,
    outcome: Result<Seq<ClassView>, Error>,
    after: PrefixPolicy,
    data: Seq<u8>,
)
    requires
        lists_entry(bytes, entry, max_inflated, policy, outcome, after),
        inflates_to(bytes, entry, max_inflated, Ok::<Seq<u8>, Error>(data)),
        is_container(data) || dex_error(data) is None,
    ensures
        outcome == data_classes(entry.name@, data),
{
    let probe = choose|probe: Result<Option<Seq<u8>>, Error>| #[trigger]
        probes(bytes, entry, max_inflated, policy, probe, after) && lists_probed(
            bytes,
            entry,
            max_inflated,
            probe,
            outcome,
        );
    law_probe_reads_a_prefix(bytes, entry, max_inflated, policy, probe, after, data);
    let prefix_answers = probe->Ok_0 is Some && prefix_names(probe->Ok_0->0) is Some;
    if prefix_answers {
        let prefix = probe->Ok_0->0;
        law_prefix_names_are_exact(prefix, data);
        let names = prefix_names(prefix)->0;
        let name = entry.name@;
        let list = logical_of(name, data)->Ok_0;
        let f = logical_classes(list);
        let part = found_in(name, names);
        assert(list =~= seq![LogicalView { name, data }]);
        assert(f(0) == Ok::<Seq<ClassView>, Error>(part));
        assert(collect(0, f) == Ok::<Seq<Seq<ClassView>>, Error>(Seq::empty()));
        assert(collect(1, f) == Ok::<Seq<Seq<ClassView>>, Error>(
            Seq::<Seq<ClassView>>::empty().push(part),
        ));
        let parts = Seq::<Seq<ClassView>>::empty().push(part);
        assert(parts.drop_last() =~= Seq::empty());
        assert(joined(parts.drop_last()) =~= Seq::empty());
        assert(joined(parts) =~= part);
    } else {
        let read = choose|read: Result<Seq<u8>, Error>| #[trigger]
            inflates_to(bytes, entry, max_inflated, read) && outcome == inflated_classes(
                entry.name@,
                read,
            );
        lemma_inflates_once(bytes, entry, max_inflated, data, read);
    }
}

/// Whether `outcomes` are those of walking the entries in order, up to the first that fails.
pub open spec fn walks(
    bytes: Seq<u8>,
    entries: Seq<ZipEntry>,
    max_inflated: usize,
    outcomes: Seq<Result<Seq<ClassView>, Error>>,
    policies: Seq<PrefixPolicy>,
) -> bool {
    &&& outcomes.len() <= entries.len()
    &&& policies.len() == outcomes.len() + 1
    &&& policies[0] == None::<bool>
    &&& forall|i: int|
        0 <= i < outcomes.len() ==> lists_entry(
            bytes,
            entries[i],
            max_inflated,
            policies[i],
            #[trigger] outcomes[i],
            policies[i + 1],
        )
    &&& forall|i: int| 0 <= i < outcomes.len() - 1 ==> (#[trigger] outcomes[i]) is Ok
}

/// What was found in the entries that were walked.
pub open spec fn found_classes(outcomes: Seq<Result<Seq<ClassView>, Error>>) -> Seq<ClassView> {
    joined(outcomes.map_values(|outcome: Result<Seq<ClassView>, Error>| outcome->Ok_0))
}

/// Whether `result` is what walking the entries gave: the first failure, or the index of all
/// that was found.
pub open spec fn indexes(
    entries: Seq<ZipEntry>,
    outcomes: Seq<Result<Seq<ClassView>, Error>>,
    result: Result<Seq<ClassView>, Error>,
) -> bool {
    match result {
        Err(error) => outcomes.len() > 0 && outcomes.last() == Err::<Seq<ClassView>, Error>(error),
        Ok(index) => outcomes.len() == entries.len() && (outcomes.len() > 0 ==> outcomes.last() is Ok)
            && class_index(found_classes(outcomes), index),
    }
}

/// Whether `result` is the class index of the given entries.
pub open spec fn indexes_entries(
    bytes: Seq<u8>,
    entries: Seq<ZipEntry>,
    max_inflated: usize,
    result: Result<Seq<ClassView>, Error>,
) -> bool {
    exists|outcomes: Seq<Result<Seq<ClassView>, Error>>, policies: Seq<PrefixPolicy>| #[trigger]
        walks(bytes, entries, max_inflated, outcomes, policies) && indexes(
            entries,
            outcomes,
            result,
        )
}

proof fn lemma_walk_grows(
    bytes: Seq<u8>,
    entries: Seq<ZipEntry>,
    max_inflated: usize,
    outcomes: Seq<Result<Seq<ClassView>, Error>>,
    policies: Seq<PrefixPolicy>,
    outcome: Result<Seq<ClassView>, Error>,
    policy: PrefixPolicy,
)
    requires
        walks(bytes, entries, max_inflated, outcomes, policies),
        outcomes.len() < entries.len(),
        outcomes.len() > 0 ==> outcomes.last() is Ok,
        lists_entry(
            bytes,
            entries[outcomes.len() as int],
            max_inflated,
            policies.last(),
            outcome,
            policy,
        ),
    ensures
        walks(bytes, entries, max_inflated, outcomes.push(outcome), policies.push(policy)),
{
    let more = outcomes.push(outcome);
    let then_policies = policies.push(policy);
    assert forall|k: int| 0 <= k < more.len() implies lists_entry(
        bytes,
        entries[k],
        max_inflated,
        then_policies[k],
        #[trigger] more[k],
        then_policies[k + 1],
    ) by {
        if k < outcomes.len() {
            assert(more[k] == outcomes[k]);
        }
    }
}

proof fn lemma_found_grows(outcomes: Seq<Result<Seq<ClassView>, Error>>, list: Seq<ClassView>)
    ensures
        found_classes(outcomes.push(Ok(list))) == found_classes(outcomes) + list,
{
    let ok = |outcome: Result<Seq<ClassView>, Error>| outcome->Ok_0;
    let more = outcomes.push(Ok::<Seq<ClassView>, Error>(list));
    assert(more.map_values(ok).drop_last() =~= outcomes.map_values(ok));
    assert(more.map_values(ok).last() == list);
}

/// The class index of the given entries, walked in order.
pub fn index_entries<S: BytesSource + ?Sized>(
    source: &S,
    entries: &Vec<ZipEntry>,
    max_inflated: usize,
) -> (index: Result<Vec<ClassEntry>, Error>)
    ensures
        indexes_entries(source.bytes(), entries@, max_inflated, classes_outcome(index)),
        index matches Ok(list) ==> all_keyed(list@),
{
    let ghost bytes = source.bytes();
    let mut policy: PrefixPolicy = None;
    let mut found: Vec<ClassEntry> = Vec::new();
    let ghost mut outcomes: Seq<Result<Seq<ClassView>, Error>> = Seq::empty();
    let ghost mut policies: Seq<PrefixPolicy> = seq![None];
    assert(class_views(found@) =~= found_classes(outcomes)) by {
        assert(outcomes.map_values(|outcome: Result<Seq<ClassView>, Error>| outcome->Ok_0)
            =~= Seq::empty());
    }
    let mut i: usize = 0;
    while i < entries.len()
        invariant
            bytes == source.bytes(),
            i <= entries@.len(),
            outcomes.len() == i,
            walks(bytes, entries@, max_inflated, outcomes, policies),
            i > 0 ==> outcomes.last() is Ok,
            policies.last() == policy,
            class_views(found@) == found_classes(outcomes),
            all_keyed(found@),
        decreases entries@.len() - i,
    {
        let ghost old_outcomes = outcomes;
        let outcome = entry_classes(source, &entries[i], max_inflated, &mut policy);
        let ghost read = classes_outcome(outcome);
        proof {
            lemma_walk_grows(bytes, entries@, max_inflated, outcomes, policies, read, policy);
            outcomes = outcomes.push(read);
            policies = policies.push(policy);
        }
        match outcome {
            Ok(list) => {
                let mut list = list;
                let ghost start = found@;
                let ghost tail = list@;
                found.append(&mut list);
                proof {
                    lemma_found_grows(old_outcomes, class_views(tail));
                    assert(found@ =~= start + tail);
                    assert(class_views(found@) =~= class_views(start) + class_views(tail));
                }
            },
            Err(error) => {
                assert(indexes(entries@, outcomes, Err::<Seq<ClassView>, Error>(error)));
                return Err(error);
            },
        }
        i = i + 1;
    }
    let index = index_classes(found);
    assert(indexes(entries@, outcomes, Ok::<Seq<ClassView>, Error>(class_views(index@))));
    Ok(index)
}

/// Whether `result` is the class index of an archive.
pub open spec fn indexes_archive(
    bytes: Seq<u8>,
    threads: usize,
    max_inflated: usize,
    result: Result<Seq<ClassView>, Error>,
) -> bool {
    match (threads, dex_entries(bytes)) {
        (0, _) => result == Err::<Seq<ClassView>, Error>(Error::NoWorkers),
        (_, Err(error)) => result == Err::<Seq<ClassView>, Error>(error),
        (_, Ok(views)) => exists|entries: Seq<ZipEntry>| #[trigger]
            entry_views(entries) == views && indexes_entries(bytes, entries, max_inflated, result),
    }
}

/// Every class of every root DEX, once each, in ascending order of their descriptors.
pub fn list_classes<S: BytesSource + ?Sized>(source: &S, threads: usize, max_inflated: usize) -> (index:
    Result<Vec<ClassEntry>, Error>)
    ensures
        indexes_archive(source.bytes(), threads, max_inflated, classes_outcome(index)),
        index matches Ok(list) ==> all_keyed(list@),
{
    if threads == 0 {
        return Err(Error::NoWorkers);
    }
    match parse_dex_entries(source) {
        Ok(entries) => {
            assert(dex_entries(source.bytes()) == Ok::<Seq<crate::zip::EntryView>, Error>(
                entry_views(entries@),
            ));
            index_entries(source, &entries, max_inflated)
        },
        Err(error) => Err(error),
    }
}

/// Two ascending lists of the same classes are one list.
proof fn lemma_ascending_is_unique(one: Seq<ClassView>, other: Seq<ClassView>)
    requires
        descriptors_ascend(one),
        descriptors_ascend(other),
        forall|i: int| 0 <= i < one.len() ==> other.contains(#[trigger] one[i]),
        forall|j: int| 0 <= j < other.len() ==> one.contains(#[trigger] other[j]),
    ensures
        one == other,
    decreases one.len(),
{
    if one.len() == 0 {
        if other.len() > 0 {
            assert(one.contains(other[0]));
        }
        assert(one =~= other);
    } else {
        let n = one.len() - 1;
        assert(other.contains(one[n]));
        let m = other.len() - 1;
        assert(one.contains(other[m]));
        let j = choose|j: int| 0 <= j < other.len() && other[j] == one[n];
        let i = choose|i: int| 0 <= i < one.len() && one[i] == other[m];
        lemma_text_order(one[n].descriptor, other[m].descriptor);
        lemma_text_order(other[m].descriptor, one[n].descriptor);
        assert(one[n] == other[m]);
        let front = one.drop_last();
        let rest = other.drop_last();
        assert forall|k: int| 0 <= k < front.len() implies rest.contains(#[trigger] front[k]) by {
            assert(other.contains(one[k]));
            let at = choose|at: int| 0 <= at < other.len() && other[at] == one[k];
            lemma_text_order(one[k].descriptor, one[n].descriptor);
            assert(at < m);
            assert(rest[at] == front[k]);
        }
        assert forall|k: int| 0 <= k < rest.len() implies front.contains(#[trigger] rest[k]) by {
            assert(one.contains(other[k]));
            let at = choose|at: int| 0 <= at < one.len() && one[at] == other[k];
            lemma_text_order(other[k].descriptor, other[m].descriptor);
            assert(at < n);
            assert(front[at] == rest[k]);
        }
        lemma_ascending_is_unique(front, rest);
        assert(one =~= front.push(one[n]));
        assert(other =~= rest.push(other[m]));
    }
}

/// A class of one index of some classes stands in any other index of them.
proof fn lemma_index_agrees(
    found: Seq<ClassView>,
    one: Seq<ClassView>,
    other: Seq<ClassView>,
    i: int,
)
    requires
        class_index(found, one),
        class_index(found, other),
        0 <= i < one.len(),
    ensures
        other.contains(one[i]),
{
    let class = one[i];
    assert(found.contains(class));
    let k = choose|k: int| 0 <= k < found.len() && found[k] == class;
    assert(covered(other, found[k]));
    let j = choose|j: int|
        0 <= j < other.len() && (#[trigger] other[j]).descriptor == class.descriptor && !class_less(
            class,
            other[j],
        );
    assert(found.contains(other[j]));
    let m = choose|m: int| 0 <= m < found.len() && found[m] == other[j];
    assert(covered(one, found[m]));
    let back = choose|back: int|
        0 <= back < one.len() && (#[trigger] one[back]).descriptor == other[j].descriptor
            && !class_less(other[j], one[back]);
    lemma_text_order(one[back].descriptor, class.descriptor);
    lemma_text_order(class.descriptor, one[back].descriptor);
    assert(back == i);
    lemma_class_order(class, other[j]);
}

/// There is only one index of the same classes: how they were sorted cannot be seen in it.
pub proof fn law_class_index_is_unique(
    found: Seq<ClassView>,
    one: Seq<ClassView>,
    other: Seq<ClassView>,
)
    requires
        class_index(found, one),
        class_index(found, other),
    ensures
        one == other,
{
    assert forall|i: int| 0 <= i < one.len() implies other.contains(#[trigger] one[i]) by {
        lemma_index_agrees(found, one, other, i);
    }
    assert forall|j: int| 0 <= j < other.len() implies one.contains(#[trigger] other[j]) by {
        lemma_index_agrees(found, other, one, j);
    }
    lemma_ascending_is_unique(one, other);
}

/// The classes of the first `n` entries, from the bytes they inflate to.
pub open spec fn classes_in(entries: Seq<ZipEntry>, datas: Seq<Seq<u8>>, n: int) -> Result<
    Seq<ClassView>,
    Error,
>
    decreases n,
{
    if n <= 0 {
        Ok(Seq::empty())
    } else {
        match classes_in(entries, datas, n - 1) {
            Err(error) => Err(error),
            Ok(front) => match data_classes(entries[n - 1].name@, datas[n - 1]) {
                Err(error) => Err(error),
                Ok(last) => Ok(front + last),
            },
        }
    }
}

/// Whether every entry inflates to the given bytes, and those are a container or a DEX file whose
/// tables are in it.
pub open spec fn sound_entries(
    bytes: Seq<u8>,
    entries: Seq<ZipEntry>,
    max_inflated: usize,
    datas: Seq<Seq<u8>>,
) -> bool {
    &&& datas.len() == entries.len()
    &&& forall|i: int|
        0 <= i < datas.len() ==> inflates_to(
            bytes,
            entries[i],
            max_inflated,
            Ok::<Seq<u8>, Error>(#[trigger] datas[i]),
        ) && (is_container(datas[i]) || dex_error(
            datas[i],
        ) is None)
}

proof fn lemma_walk_is_that_of_the_bytes(
    bytes: Seq<u8>,
    entries: Seq<ZipEntry>,
    max_inflated: usize,
    datas: Seq<Seq<u8>>,
    outcomes: Seq<Result<Seq<ClassView>, Error>>,
    policies: Seq<PrefixPolicy>,
    n: int,
)
    requires
        walks(bytes, entries, max_inflated, outcomes, policies),
        sound_entries(bytes, entries, max_inflated, datas),
        0 <= n <= outcomes.len(),
    ensures
        classes_in(entries, datas, n) == (if n > 0 && outcomes[n - 1] is Err {
            Err::<Seq<ClassView>, Error>(outcomes[n - 1]->Err_0)
        } else {
            Ok(found_classes(outcomes.take(n)))
        }),
    decreases n,
{
    let ok = |outcome: Result<Seq<ClassView>, Error>| outcome->Ok_0;
    if n == 0 {
        assert(outcomes.take(0).map_values(ok) =~= Seq::empty());
    } else {
        lemma_walk_is_that_of_the_bytes(
            bytes,
            entries,
            max_inflated,
            datas,
            outcomes,
            policies,
            n - 1,
        );
        let outcome = outcomes[n - 1];
        law_policy_does_not_change_the_classes(
            bytes,
            entries[n - 1],
            max_inflated,
            policies[n - 1],
            outcome,
            policies[n],
            datas[n - 1],
        );
        if n > 1 {
            assert(outcomes[n - 2] is Ok);
        }
        if outcome is Ok {
            lemma_found_grows(outcomes.take(n - 1), outcome->Ok_0);
            assert(outcomes.take(n) =~= outcomes.take(n - 1).push(outcome));
        }
    }
}

/// The index of an archive whose entries all inflate is that of the bytes they inflate to,
/// whichever of them were read as a prefix, or the first failure to list one of them: no walk
/// gives another.
pub proof fn law_index_is_that_of_the_bytes(
    bytes: Seq<u8>,
    entries: Seq<ZipEntry>,
    max_inflated: usize,
    datas: Seq<Seq<u8>>,
    result: Result<Seq<ClassView>, Error>,
)
    requires
        indexes_entries(bytes, entries, max_inflated, result),
        sound_entries(bytes, entries, max_inflated, datas),
    ensures
        match classes_in(entries, datas, entries.len() as int) {
            Ok(found) => result matches Ok(index) && class_index(found, index),
            Err(error) => result == Err::<Seq<ClassView>, Error>(error),
        },
{
    let (outcomes, policies) = choose|
        outcomes: Seq<Result<Seq<ClassView>, Error>>,
        policies: Seq<PrefixPolicy>,
    | #[trigger]
        walks(bytes, entries, max_inflated, outcomes, policies) && indexes(
            entries,
            outcomes,
            result,
        );
    lemma_walk_is_that_of_the_bytes(
        bytes,
        entries,
        max_inflated,
        datas,
        outcomes,
        policies,
        outcomes.len() as int,
    );
    assert(outcomes.take(outcomes.len() as int) =~= outcomes);
    if result is Err {
        lemma_classes_fail(entries, datas, outcomes.len() as int, entries.len() as int);
    }
}

/// Classes that cannot be read stay unread, however many entries follow.
proof fn lemma_classes_fail(entries: Seq<ZipEntry>, datas: Seq<Seq<u8>>, k: int, n: int)
    requires
        k <= n,
        classes_in(entries, datas, k) is Err,
    ensures
        classes_in(entries, datas, n) == classes_in(entries, datas, k),
    decreases n,
{
    if k < n && n > 0 {
        lemma_classes_fail(entries, datas, k, n - 1);
    }
}

/// A descriptor is its plain name between `L` and `;`, and any other text is its own plain name.
pub proof fn law_descriptor_wraps_the_name(name: Seq<char>)
    ensures
        plain_name(seq!['L'] + name + seq![';']) == name,
        !(name.len() >= 2 && name[0] == 'L' && name.last() == ';') ==> plain_name(name) == name,
{
    assert(plain_name(seq!['L'] + name + seq![';']) =~= name);
}

/// A plain name is its package, a slash and its simple name, and a simple name has no slash. A
/// name without a slash has no package.
pub proof fn law_package_and_simple_name_make_the_name(name: Seq<char>)
    ensures
        name.contains('/') ==> package_of(name) + seq!['/'] + simple_of(name) == name,
        !name.contains('/') ==> package_of(name).len() == 0 && simple_of(name) == name,
        !simple_of(name).contains('/'),
{
    let slash = |c: char| c == '/';
    lemma_last_where_is(name, slash);
    let at = last_slash(name);
    assert forall|i: int| 0 <= i < simple_of(name).len() implies simple_of(name)[i] != '/' by {
        assert(simple_of(name)[i] == name[at + 1 + i]);
        assert(!slash(name[at + 1 + i]));
    }
    if at >= 0 {
        assert(slash(name[at]));
        assert(name.contains('/'));
        assert(package_of(name) + seq!['/'] + simple_of(name) =~= name);
    } else {
        assert forall|i: int| 0 <= i < name.len() implies name[i] != '/' by {
            assert(!slash(name[i]));
        }
        assert(simple_of(name) =~= name);
    }
}

/// The classes of an entry are those that its logical DEX files define, each under the name of
/// its file.
pub proof fn law_classes_are_those_of_a_file(
    name: Seq<char>,
    data: Seq<u8>,
    found: Seq<ClassView>,
    at: int,
)
    requires
        data_classes(name, data) == Ok::<Seq<ClassView>, Error>(found),
        0 <= at < found.len(),
    ensures
        logical_of(name, data) matches Ok(list) && exists|k: int|
            0 <= k < list.len() && found[at].dex_name == (#[trigger] list[k]).name && (class_texts(
                list[k].data,
            ) matches Ok(names) && names.contains(found[at].descriptor)),
{
    let list = logical_of(name, data)->Ok_0;
    let f = logical_classes(list);
    lemma_collect_succeeds(list.len() as int, f);
    let parts = collect(list.len() as int, f)->Ok_0;
    lemma_joined_comes_from(parts, at);
    let k = choose|k: int| 0 <= k < parts.len() && (#[trigger] parts[k]).contains(found[at]);
    assert(f(k) == Ok::<Seq<ClassView>, Error>(parts[k]));
    let names = class_texts(list[k].data)->Ok_0;
    let i = choose|i: int| 0 <= i < parts[k].len() && parts[k][i] == found[at];
    assert(parts[k][i] == (ClassView { descriptor: names[i], dex_name: list[k].name }));
    assert(names.contains(found[at].descriptor));
}

/// Every class that a logical DEX file of an entry defines is a class of the entry.
pub proof fn law_every_defined_class_is_listed(name: Seq<char>, data: Seq<u8>, k: int, i: int)
    requires
        data_classes(name, data) is Ok,
        0 <= k < logical_of(name, data)->Ok_0.len(),
        0 <= i < class_texts(logical_of(name, data)->Ok_0[k].data)->Ok_0.len(),
    ensures
        ({
            let file = logical_of(name, data)->Ok_0[k];
            data_classes(name, data)->Ok_0.contains(
                (ClassView { descriptor: class_texts(file.data)->Ok_0[i], dex_name: file.name }),
            )
        }),
{
    let list = logical_of(name, data)->Ok_0;
    let f = logical_classes(list);
    lemma_collect_succeeds(list.len() as int, f);
    let parts = collect(list.len() as int, f)->Ok_0;
    assert(f(k) == Ok::<Seq<ClassView>, Error>(parts[k]));
    lemma_joined_has(parts, k, i);
}

/// Classes are ordered by their descriptor first, and by their file where that is the same.
pub proof fn law_classes_are_ordered_by_descriptor(a: ClassView, b: ClassView)
    ensures
        text_less(a.descriptor, b.descriptor) ==> class_less(a, b) && !class_less(b, a),
        a.descriptor == b.descriptor && text_less(a.dex_name, b.dex_name) ==> class_less(a, b)
            && !class_less(b, a),
        class_less(a, b) ==> a != b,
{
    lemma_text_order(a.descriptor, b.descriptor);
    lemma_text_order(b.descriptor, a.descriptor);
    lemma_text_order(a.dex_name, b.dex_name);
    lemma_text_order(b.dex_name, a.dex_name);
}

/// The index has every class that was found, under the first of the files it was found in.
pub proof fn law_index_keeps_the_first_file(found: Seq<ClassView>, index: Seq<ClassView>, k: int)
    requires
        class_index(found, index),
        0 <= k < found.len(),
    ensures
        exists|i: int|
            0 <= i < index.len() && (#[trigger] index[i]).descriptor == found[k].descriptor && (
            index[i].dex_name == found[k].dex_name || text_less(index[i].dex_name, found[k].dex_name)),
{
    assert(covered(index, found[k]));
    let i = choose|i: int|
        0 <= i < index.len() && (#[trigger] index[i]).descriptor == found[k].descriptor && !class_less(
            found[k],
            index[i],
        );
    lemma_text_order(index[i].dex_name, found[k].dex_name);
    law_classes_are_ordered_by_descriptor(found[k], index[i]);
    assert(index[i].dex_name == found[k].dex_name || text_less(index[i].dex_name, found[k].dex_name));
}

} // verus!
