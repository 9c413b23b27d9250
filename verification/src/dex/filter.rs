//! Byte-level pre-filter over the query's target indices.
//!
//! Every reference instruction stores its target index as a little-endian operand
//! at `pc + 2`, so a method whose code does not contain those bytes cannot
//! reference it. One `memchr` pass over a method body is much cheaper than
//! decoding its instructions, and operand bytes are far more selective than the
//! opcode bytes: for a small target set almost every method is skipped.
//!
//! A method that does get decoded asks [`Targets::contains`] about every reference
//! instruction's index, which on a wide query is millions of questions. That lookup is
//! therefore a bitmap indexed by the index itself rather than a search: one 8 KiB table covers
//! every 16-bit operand, i.e. every reference instruction except `const-string/jumbo`.
use crate::seqs::{occurs, occurs_at};
use vstd::prelude::*;

verus! {

/// Above this many targets the filter scans the code once per target, which
/// costs more than the instruction decode it would skip.
pub const MAX_FILTER_TARGETS: usize = 4;

/// The bitmap covers every 16-bit operand, which is every reference instruction
/// except `const-string/jumbo` (0x1b, a 32-bit string index - and only a string
/// query can reach it).
pub const BITMAP_INDICES: usize = 65_536;

/// Target indices together with a fast membership test and a byte-level pre-filter.
pub struct Targets {
    /// One bit per index below [`BITMAP_INDICES`], indexed by the index itself.
    bits: Vec<u64>,
    /// The (usually empty) tail of indices the bitmap does not cover, ascending.
    wide: Vec<u32>,
    /// `None` when the target set is too large for the filter to pay off.
    bytes: Option<TargetBytes>,
}

/// Encoded target indices, split by operand width.
struct TargetBytes {
    pairs: Vec<[u8; 2]>,
    quads: Vec<[u8; 4]>,
}

/// The two bytes of an operand below [`BITMAP_INDICES`], low byte first.
pub open spec fn pair_of(index: u32) -> Seq<u8> {
    seq![(index % 0x100) as u8, (index / 0x100) as u8]
}

/// The four bytes of an operand, low byte first.
pub open spec fn quad_of(index: u32) -> Seq<u8> {
    seq![
        (index % 0x100) as u8,
        ((index / 0x100) % 0x100) as u8,
        ((index / 0x1_0000) % 0x100) as u8,
        (index / 0x100_0000) as u8,
    ]
}

/// Whether two bytes stand side by side in `code`, in either order.
pub open spec fn touches(code: Seq<u8>, first: u8, second: u8) -> bool {
    exists|at: int| #[trigger] touches_at(code, first, second, at)
}

/// Whether the byte at `at` is `first` and one of its neighbours is `second`.
pub open spec fn touches_at(code: Seq<u8>, first: u8, second: u8, at: int) -> bool {
    &&& 0 <= at < code.len()
    &&& code[at] == first
    &&& (at + 1 < code.len() && code[at + 1] == second) || (at > 0 && code[at - 1] == second)
}

/// Whether the filter lets `code` through for one target.
pub open spec fn may_hold(code: Seq<u8>, index: u32) -> bool {
    if index < BITMAP_INDICES {
        touches(code, pair_of(index)[0], pair_of(index)[1])
    } else {
        occurs(code, quad_of(index))
    }
}

/// The bit of `index` in a bitmap.
spec fn bit_set(bits: Seq<u64>, index: int) -> bool {
    (bits[index / 64] >> ((index % 64) as u64)) & 1 == 1
}

/// Whether a list is ascending, with nothing twice.
pub open spec fn ascending(list: Seq<u32>) -> bool {
    forall|i: int, j: int| 0 <= i < j < list.len() ==> #[trigger] list[i] < #[trigger] list[j]
}

/// Two-byte search: `memchr` on the first byte, then a check on both sides,
/// because the match may start one byte before the position found.
pub fn contains_pair(code: &[u8], pair: [u8; 2]) -> (found: bool)
    ensures
        found == touches(code@, pair@[0], pair@[1]),
{
    let len: usize = code.len();
    let first: u8 = pair[0];
    let second: u8 = pair[1];
    let mut from: usize = 0;
    while from < len
        invariant
            len == code@.len(),
            from <= len,
            first == pair@[0],
            second == pair@[1],
            forall|at: int| 0 <= at < from ==> !#[trigger] touches_at(code@, first, second, at),
        decreases len - from,
    {
        let tail = vstd::slice::slice_subrange(code, from, len);
        match memchr::memchr(first, tail) {
            Some(found) => {
                let at: usize = from + found;
                assert(code@[at as int] == tail@[found as int]);
                if (len - at > 1 && code[at + 1] == second) || (at > 0 && code[at - 1] == second) {
                    assert(touches_at(code@, first, second, at as int));
                    return true;
                }
                assert forall|k: int| 0 <= k < at + 1 implies !#[trigger] touches_at(
                    code@,
                    first,
                    second,
                    k,
                ) by {
                    if from <= k < at {
                        assert(code@[k] == tail@[k - from]);
                    }
                }
                from = at + 1;
            },
            None => {
                assert forall|k: int| 0 <= k < len implies !#[trigger] touches_at(
                    code@,
                    first,
                    second,
                    k,
                ) by {
                    if from <= k {
                        assert(code@[k] == tail@[k - from]);
                    }
                }
                return false;
            },
        }
    }
    false
}

/// The position at which `index` stands, or would stand, in an ascending list.
fn search(list: &Vec<u32>, index: u32) -> (found: Result<usize, usize>)
    requires
        ascending(list@),
    ensures
        match found {
            Ok(at) => at < list@.len() && list@[at as int] == index,
            Err(at) => at <= list@.len() && !list@.contains(index) && (forall|i: int|
                0 <= i < at ==> #[trigger] list@[i] < index) && (forall|i: int|
                at <= i < list@.len() ==> #[trigger] list@[i] > index),
        },
{
    let mut low: usize = 0;
    let mut high: usize = list.len();
    while low < high
        invariant
            ascending(list@),
            low <= high <= list@.len(),
            forall|i: int| 0 <= i < low ==> #[trigger] list@[i] < index,
            forall|i: int| high <= i < list@.len() ==> #[trigger] list@[i] > index,
        decreases high - low,
    {
        let middle: usize = low + (high - low) / 2;
        if list[middle] == index {
            return Ok(middle);
        }
        if list[middle] < index {
            low = middle + 1;
        } else {
            high = middle;
        }
    }
    Err(low)
}

/// Adds `index` to an ascending list, unless it is there.
fn insert_sorted(list: &mut Vec<u32>, index: u32)
    requires
        ascending(old(list)@),
    ensures
        ascending(final(list)@),
        final(list)@.to_set() == old(list)@.to_set().insert(index),
{
    let ghost before = list@;
    match search(list, index) {
        Ok(at) => {
            assert(before.to_set().contains(index)) by {
                assert(before.contains(index));
            }
            assert(before.to_set().insert(index) =~= before.to_set());
        },
        Err(at) => {
            list.insert(at, index);
            proof {
                let after = list@;
                assert(after =~= before.insert(at as int, index));
                assert forall|x: u32| after.to_set().contains(x) == before.to_set().insert(
                    index,
                ).contains(x) by {
                    if before.contains(x) {
                        let i = choose|i: int| 0 <= i < before.len() && before[i] == x;
                        if i < at {
                            assert(after[i] == x);
                        } else {
                            assert(after[i + 1] == x);
                        }
                    }
                    if x == index {
                        assert(after[at as int] == x);
                    }
                    if after.contains(x) {
                        let i = choose|i: int| 0 <= i < after.len() && after[i] == x;
                        if i < at {
                            assert(before[i] == x);
                        } else if i > at {
                            assert(before[i - 1] == x);
                        }
                    }
                }
                assert(after.to_set() =~= before.to_set().insert(index));
            }
        },
    }
}

spec fn is_pair_of(indices: Set<u32>, pair: Seq<u8>) -> bool {
    exists|index: u32| #[trigger]
        indices.contains(index) && index < BITMAP_INDICES && pair_of(index) == pair
}

spec fn is_quad_of(indices: Set<u32>, quad: Seq<u8>) -> bool {
    exists|index: u32| #[trigger]
        indices.contains(index) && index >= BITMAP_INDICES && quad_of(index) == quad
}

impl TargetBytes {
    spec fn has_pair(&self, index: u32) -> bool {
        exists|i: int| 0 <= i < self.pairs@.len() && #[trigger] self.pairs@[i]@ == pair_of(index)
    }

    spec fn has_quad(&self, index: u32) -> bool {
        exists|i: int| 0 <= i < self.quads@.len() && #[trigger] self.quads@[i]@ == quad_of(index)
    }

    /// Whether this holds the operand bytes of each of `indices`, and no others.
    spec fn encodes(&self, indices: Set<u32>) -> bool {
        &&& forall|index: u32| #[trigger]
            indices.contains(index) ==> if index < BITMAP_INDICES {
                self.has_pair(index)
            } else {
                self.has_quad(index)
            }
        &&& forall|i: int|
            0 <= i < self.pairs@.len() ==> is_pair_of(indices, #[trigger] self.pairs@[i]@)
        &&& forall|i: int|
            0 <= i < self.quads@.len() ==> is_quad_of(indices, #[trigger] self.quads@[i]@)
    }

    fn new(indices: &Vec<u32>) -> (bytes: Self)
        ensures
            bytes.encodes(indices@.to_set()),
    {
        let mut bytes = TargetBytes { pairs: Vec::new(), quads: Vec::new() };
        assert(indices@.take(0).to_set() =~= Set::empty());
        for i in 0..indices.len()
            invariant
                bytes.encodes(indices@.take(i as int).to_set()),
        {
            let index: u32 = indices[i];
            let ghost before = bytes;
            let ghost set = indices@.take(i as int).to_set();
            let low: u8 = (index % 0x100) as u8;
            let second: u8 = ((index / 0x100) % 0x100) as u8;
            if index < 65_536 {
                let pair: [u8; 2] = [low, second];
                bytes.pairs.push(pair);
                assert(pair@ =~= pair_of(index));
            } else {
                let quad: [u8; 4] = [
                    low,
                    second,
                    ((index / 0x1_0000) % 0x100) as u8,
                    (index / 0x100_0000) as u8,
                ];
                bytes.quads.push(quad);
                assert(quad@ =~= quad_of(index));
            }
            proof {
                let grown = indices@.take(i + 1);
                lemma_grown_set(indices@, i as int);
                assert forall|x: u32| #[trigger] grown.to_set().contains(x) implies if x
                    < BITMAP_INDICES {
                    bytes.has_pair(x)
                } else {
                    bytes.has_quad(x)
                } by {
                    if x == index {
                        if x < BITMAP_INDICES {
                            assert(bytes.pairs@[before.pairs@.len() as int]@ == pair_of(x));
                        } else {
                            assert(bytes.quads@[before.quads@.len() as int]@ == quad_of(x));
                        }
                    } else {
                        assert(set.contains(x));
                        if x < BITMAP_INDICES {
                            let k = choose|k: int|
                                0 <= k < before.pairs@.len() && #[trigger] before.pairs@[k]@ == pair_of(
                                    x,
                                );
                            assert(bytes.pairs@[k]@ == pair_of(x));
                        } else {
                            let k = choose|k: int|
                                0 <= k < before.quads@.len() && #[trigger] before.quads@[k]@ == quad_of(
                                    x,
                                );
                            assert(bytes.quads@[k]@ == quad_of(x));
                        }
                    }
                }
                assert forall|k: int| 0 <= k < bytes.pairs@.len() implies is_pair_of(
                    grown.to_set(),
                    #[trigger] bytes.pairs@[k]@,
                ) by {
                    if k < before.pairs@.len() {
                        assert(bytes.pairs@[k]@ == before.pairs@[k]@);
                        assert(is_pair_of(set, before.pairs@[k]@));
                        let x = choose|x: u32| #[trigger]
                            set.contains(x) && x < BITMAP_INDICES && pair_of(x) == before.pairs@[k]@;
                        assert(grown.to_set().contains(x));
                    } else {
                        assert(grown.to_set().contains(index));
                    }
                }
                assert forall|k: int| 0 <= k < bytes.quads@.len() implies is_quad_of(
                    grown.to_set(),
                    #[trigger] bytes.quads@[k]@,
                ) by {
                    if k < before.quads@.len() {
                        assert(bytes.quads@[k]@ == before.quads@[k]@);
                        assert(is_quad_of(set, before.quads@[k]@));
                        let x = choose|x: u32| #[trigger]
                            set.contains(x) && x >= BITMAP_INDICES && quad_of(x) == before.quads@[k]@;
                        assert(grown.to_set().contains(x));
                    } else {
                        assert(grown.to_set().contains(index));
                    }
                }
            }
        }
        assert(indices@.take(indices@.len() as int) =~= indices@);
        bytes
    }

    /// Whether `code` contains any target index as an operand.
    fn matches(&self, code: &[u8], Ghost(indices): Ghost<Set<u32>>) -> (found: bool)
        requires
            self.encodes(indices),
        ensures
            found == any_may_hold(code@, indices),
    {
        for i in 0..self.pairs.len()
            invariant
                self.encodes(indices),
                forall|k: int|
                    0 <= k < i ==> !touches(
                        code@,
                        (#[trigger] self.pairs@[k])@[0],
                        self.pairs@[k]@[1],
                    ),
        {
            if contains_pair(code, self.pairs[i]) {
                proof {
                    assert(is_pair_of(indices, self.pairs@[i as int]@));
                    let x = choose|x: u32| #[trigger]
                        indices.contains(x) && x < BITMAP_INDICES && pair_of(x)
                            == self.pairs@[i as int]@;
                    assert(may_hold(code@, x));
                }
                return true;
            }
        }
        for i in 0..self.quads.len()
            invariant
                self.encodes(indices),
                forall|k: int|
                    0 <= k < self.pairs@.len() ==> !touches(
                        code@,
                        (#[trigger] self.pairs@[k])@[0],
                        self.pairs@[k]@[1],
                    ),
                forall|k: int| 0 <= k < i ==> !occurs(code@, (#[trigger] self.quads@[k])@),
        {
            let quad: [u8; 4] = self.quads[i];
            match memchr::memmem::find(code, &quad) {
                Some(at) => {
                    proof {
                        assert(occurs_at(code@, quad@, at as int));
                        assert(is_quad_of(indices, self.quads@[i as int]@));
                        let x = choose|x: u32| #[trigger]
                            indices.contains(x) && x >= BITMAP_INDICES && quad_of(x)
                                == self.quads@[i as int]@;
                        assert(may_hold(code@, x));
                    }
                    return true;
                },
                None => {},
            }
        }
        proof {
            if any_may_hold(code@, indices) {
                let x = choose|x: u32| #[trigger] indices.contains(x) && may_hold(code@, x);
                if x < BITMAP_INDICES {
                    assert(self.has_pair(x));
                    let k = choose|k: int|
                        0 <= k < self.pairs@.len() && #[trigger] self.pairs@[k]@ == pair_of(x);
                    assert(touches(code@, self.pairs@[k]@[0], self.pairs@[k]@[1]));
                } else {
                    assert(self.has_quad(x));
                    let k = choose|k: int|
                        0 <= k < self.quads@.len() && #[trigger] self.quads@[k]@ == quad_of(x);
                    assert(occurs(code@, self.quads@[k]@));
                }
            }
        }
        false
    }
}

/// Whether the filter lets `code` through for one of `indices`.
pub open spec fn any_may_hold(code: Seq<u8>, indices: Set<u32>) -> bool {
    exists|index: u32| #[trigger] indices.contains(index) && may_hold(code, index)
}

/// One more element of a sequence is one more element of its set.
proof fn lemma_grown_set(s: Seq<u32>, i: int)
    requires
        0 <= i < s.len(),
    ensures
        s.take(i + 1).to_set() == s.take(i).to_set().insert(s[i]),
{
    let before = s.take(i);
    let after = s.take(i + 1);
    assert forall|x: u32| after.to_set().contains(x) == before.to_set().insert(s[i]).contains(x) by {
        if after.contains(x) {
            let k = choose|k: int| 0 <= k < after.len() && after[k] == x;
            if k < i {
                assert(before[k] == x);
            }
        }
        if before.contains(x) {
            let k = choose|k: int| 0 <= k < before.len() && before[k] == x;
            assert(after[k] == x);
        }
        assert(after[i] == s[i]);
    }
    assert(after.to_set() =~= before.to_set().insert(s[i]));
}

/// Setting one bit of a word leaves the others.
proof fn lemma_set_bit(word: u64, set: u64, asked: u64)
    requires
        set < 64,
        asked < 64,
    ensures
        ((word | (1u64 << set)) >> asked) & 1 == (if asked == set {
            1u64
        } else {
            (word >> asked) & 1
        }),
{
    assert(((word | (1u64 << set)) >> asked) & 1 == (if asked == set {
        1u64
    } else {
        (word >> asked) & 1
    })) by (bit_vector)
        requires
            set < 64,
            asked < 64,
    ;
}

impl Targets {
    /// The target indices.
    pub closed spec fn view(&self) -> Set<u32> {
        Set::new(
            |index: u32|
                if index < BITMAP_INDICES {
                    bit_set(self.bits@, index as int)
                } else {
                    self.wide@.contains(index)
                },
        )
    }

    /// Whether the byte filter is on.
    pub closed spec fn filters(&self) -> bool {
        self.bytes is Some
    }

    /// The indices the bitmap does not cover.
    pub closed spec fn tail(&self) -> Seq<u32> {
        self.wide@
    }

    #[verifier::type_invariant]
    spec fn well_formed(&self) -> bool {
        &&& self.bits@.len() == 1024
        &&& ascending(self.wide@)
        &&& forall|i: int| 0 <= i < self.wide@.len() ==> #[trigger] self.wide@[i] >= BITMAP_INDICES
        &&& self.bytes matches Some(bytes) ==> bytes.encodes(self@)
    }

    /// Whether the filter would let `code` through; `true` when filtering is off.
    pub fn might_reference(&self, code: &[u8]) -> (might: bool)
        ensures
            might == (!self.filters() || any_may_hold(code@, self@)),
    {
        proof {
            use_type_invariant(self);
        }
        match &self.bytes {
            Some(bytes) => bytes.matches(code, Ghost(self@)),
            None => true,
        }
    }

    /// Whether `index` is one of the query's targets.
    ///
    /// This is the hot path of a wide query: two loads and a couple of ALU ops, with
    /// the 8 KiB bitmap resident in L1 for the whole DEX.
    pub fn contains(&self, index: u32) -> (found: bool)
        ensures
            found == self@.contains(index),
    {
        proof {
            use_type_invariant(self);
        }
        if index < 65_536 {
            let word: u64 = self.bits[(index / 64) as usize];
            let bit: u64 = (index % 64) as u64;
            proof {
                assert((word >> bit) & 1 == 0 || (word >> bit) & 1 == 1) by (bit_vector);
            }
            (word >> bit) & 1 == 1
        } else {
            match search(&self.wide, index) {
                Ok(at) => {
                    assert(self.wide@.contains(index));
                    true
                },
                Err(_at) => false,
            }
        }
    }

    /// The indices the bitmap does not cover, ascending.
    pub fn wide(&self) -> (list: &Vec<u32>)
        ensures
            list@ == self.tail(),
            ascending(list@),
            forall|index: u32| #[trigger]
                list@.contains(index) <==> self@.contains(index) && index >= BITMAP_INDICES,
    {
        proof {
            use_type_invariant(self);
            assert forall|index: u32| #[trigger] self.wide@.contains(index) implies index
                >= BITMAP_INDICES by {
                let i = choose|i: int| 0 <= i < self.wide@.len() && self.wide@[i] == index;
                assert(self.wide@[i] >= BITMAP_INDICES);
            }
        }
        &self.wide
    }

    /// Whether the byte filter is on.
    pub fn is_filtered(&self) -> (on: bool)
        ensures
            on == self.filters(),
    {
        self.bytes.is_some()
    }

    /// The targets `indices`, in any order and with repetitions.
    pub fn new(indices: &[u32]) -> (targets: Self)
        ensures
            targets@ == indices@.to_set(),
            targets.filters() == (indices@.to_set().len() <= MAX_FILTER_TARGETS),
    {
        // Ascending order is not assumed: sorting here keeps that from being a silent
        // requirement of the bitmap or the byte filter.
        let mut sorted: Vec<u32> = Vec::new();
        assert(sorted@.to_set() =~= indices@.take(0).to_set());
        for i in 0..indices.len()
            invariant
                ascending(sorted@),
                sorted@.to_set() == indices@.take(i as int).to_set(),
        {
            proof {
                lemma_grown_set(indices@, i as int);
            }
            insert_sorted(&mut sorted, indices[i]);
        }
        assert(indices@.take(indices@.len() as int) =~= indices@);
        let mut bits: Vec<u64> = vec![0u64; 1024];
        let mut wide: Vec<u32> = Vec::new();
        proof {
            assert forall|x: u32| x < BITMAP_INDICES implies !#[trigger] bit_set(bits@, x as int) by {
                let b = (x % 64) as u64;
                assert((0u64 >> b) & 1 == 0) by (bit_vector);
            }
        }
        for i in 0..sorted.len()
            invariant
                ascending(sorted@),
                bits@.len() == 1024,
                ascending(wide@),
                forall|k: int| 0 <= k < wide@.len() ==> #[trigger] wide@[k] >= BITMAP_INDICES,
                forall|x: u32|
                    x < BITMAP_INDICES ==> (#[trigger] bit_set(bits@, x as int) <==> sorted@.take(
                        i as int,
                    ).contains(x)),
                forall|x: u32|
                    x >= BITMAP_INDICES ==> (#[trigger] wide@.contains(x) <==> sorted@.take(
                        i as int,
                    ).contains(x)),
        {
            let index: u32 = sorted[i];
            let ghost old_bits = bits@;
            let ghost old_wide = wide@;
            if index < 65_536 {
                let at: usize = (index / 64) as usize;
                let bit: u64 = (index % 64) as u64;
                let word: u64 = bits[at] | (1u64 << bit);
                bits.set(at, word);
                proof {
                    assert forall|x: u32| x < BITMAP_INDICES implies (#[trigger] bit_set(
                        bits@,
                        x as int,
                    ) <==> (x == index || bit_set(old_bits, x as int))) by {
                        if x / 64 == index / 64 {
                            lemma_set_bit(old_bits[at as int], bit, (x % 64) as u64);
                        }
                    }
                }
            } else {
                wide.push(index);
                proof {
                    assert forall|k: int| 0 <= k < old_wide.len() implies #[trigger] old_wide[k]
                        < index by {
                        assert(old_wide.contains(old_wide[k]));
                        let done = sorted@.take(i as int);
                        let j = choose|j: int| 0 <= j < done.len() && done[j] == old_wide[k];
                        assert(sorted@[j] < sorted@[i as int]);
                    }
                    assert forall|x: u32| #[trigger] wide@.contains(x) <==> (x == index
                        || old_wide.contains(x)) by {
                        if old_wide.contains(x) {
                            let k = choose|k: int| 0 <= k < old_wide.len() && old_wide[k] == x;
                            assert(wide@[k] == x);
                        }
                        assert(wide@[old_wide.len() as int] == index);
                    }
                }
            }
            proof {
                lemma_grown_set(sorted@, i as int);
                assert forall|x: u32| #[trigger] sorted@.take(i + 1).contains(x) <==> (x == index
                    || sorted@.take(i as int).contains(x)) by {
                    assert(sorted@.take(i + 1).to_set().contains(x) == sorted@.take(
                        i as int,
                    ).to_set().insert(index).contains(x));
                }
            }
        }
        assert(sorted@.take(sorted@.len() as int) =~= sorted@);
        let bytes: Option<TargetBytes> = if sorted.len() <= MAX_FILTER_TARGETS {
            Some(TargetBytes::new(&sorted))
        } else {
            None
        };
        proof {
            let set = Set::new(
                |index: u32|
                    if index < BITMAP_INDICES {
                        bit_set(bits@, index as int)
                    } else {
                        wide@.contains(index)
                    },
            );
            assert(set =~= sorted@.to_set());
            assert(sorted@.no_duplicates());
            sorted@.unique_seq_to_set();
        }
        Targets { bits, wide, bytes }
    }

    /// The same targets, with the byte filter off.
    pub fn unfiltered(indices: &[u32]) -> (targets: Self)
        ensures
            targets@ == indices@.to_set(),
            !targets.filters(),
    {
        let filtered = Self::new(indices);
        proof {
            use_type_invariant(&filtered);
        }
        let Targets { bits, wide, bytes: _ } = filtered;
        Targets { bits, wide, bytes: None }
    }
}

/// Code that holds the operand bytes of a target, wherever they stand, always passes the
/// filter.
pub proof fn law_filter_lets_every_reference_through(
    code: Seq<u8>,
    targets: Set<u32>,
    index: u32,
    at: int,
)
    requires
        targets.contains(index),
        occurs_at(
            code,
            if index < BITMAP_INDICES {
                pair_of(index)
            } else {
                quad_of(index)
            },
            at,
        ),
    ensures
        any_may_hold(code, targets),
{
    if index < BITMAP_INDICES {
        let pair = pair_of(index);
        let part = code.subrange(at, at + 2);
        assert(part[0] == pair[0] && part[1] == pair[1]);
        assert(touches_at(code, pair[0], pair[1], at));
        assert(touches(code, pair[0], pair[1]));
    } else {
        assert(occurs(code, quad_of(index)));
    }
    assert(may_hold(code, index));
}

} // verus!
