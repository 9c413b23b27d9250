//! The references a method's instructions make.
//!
//! The walk goes from instruction to instruction, so an operand that merely looks like a
//! reference is never taken for one.
use super::filter::{
    any_may_hold, law_filter_lets_every_reference_through, pair_of, quad_of, Targets,
    BITMAP_INDICES,
};
use crate::bytes::{law_half_reads_back, law_word_reads_back, written16, written32};
use crate::bytes::{le16, le32, read_u16, read_u32};
use crate::seqs::occurs_at;
use vstd::prelude::*;

verus! {

/// Which table a reference names a row of.
#[derive(Clone, Copy, Debug, PartialEq, Eq, Structural)]
pub enum ReferenceKind {
    String,
    Type,
    Field,
    Method,
}

/// The size of an instruction with the given opcode, in 16-bit units.
pub open spec fn width(op: u8) -> int {
    if op == 0x18 {
        5
    } else if op == 0xFA || op == 0xFB {
        4
    } else if op == 0x03 || op == 0x06 || op == 0x09 || op == 0x14 || op == 0x17 || op == 0x1B || (
    0x24 <= op <= 0x26) || (0x2A <= op <= 0x2C) || (0x6E <= op <= 0x72) || (0x74 <= op <= 0x78)
        || op == 0xFC || op == 0xFD {
        3
    } else if op == 0x02 || op == 0x05 || op == 0x08 || op == 0x13 || op == 0x15 || op == 0x16 || op
        == 0x19 || op == 0x1A || op == 0x1C || op == 0x1F || op == 0x20 || op == 0x22 || op == 0x23
        || op == 0x29 || (0x2D <= op <= 0x3D) || (0x44 <= op <= 0x6D) || (0x90 <= op <= 0xAF) || (
    0xD0 <= op <= 0xE2) || op >= 0xFE {
        2
    } else {
        1
    }
}

/// Where the instruction at `at` ends. A table that a switch or an array fill reads stands in the
/// code too, behind a unit of its own that says which of the three it is.
pub open spec fn behind(code: Seq<u8>, at: int) -> int {
    let unit = le16(code, at);
    if 0x0100 <= unit <= 0x0300 && unit % 0x100 == 0 && at + 8 <= code.len() {
        if unit == 0x0100 {
            at + 8 + 4 * le16(code, at + 2)
        } else if unit == 0x0200 {
            at + 4 + 8 * le16(code, at + 2)
        } else {
            at + 8 + 2 * ((le16(code, at + 2) * le32(code, at + 4) + 1) / 2)
        }
    } else {
        at + 2 * width(code[at])
    }
}

/// Whether an instruction with the given opcode references a row of the given kind.
pub open spec fn references_kind(op: u8, kind: ReferenceKind) -> bool {
    match kind {
        ReferenceKind::String => op == 0x1A || op == 0x1B,
        ReferenceKind::Type => op == 0x1C || op == 0x1F || op == 0x20 || (0x22 <= op <= 0x25),
        ReferenceKind::Field => 0x52 <= op <= 0x6D,
        ReferenceKind::Method => (0x6E <= op <= 0x72) || (0x74 <= op <= 0x78) || op == 0xFA || op
            == 0xFB,
    }
}

/// The row of the given kind that the instruction at `at` references. The operand stands behind
/// the opcode's unit; only `const-string/jumbo` has one of 32 bits.
pub open spec fn reference_at(code: Seq<u8>, at: int, kind: ReferenceKind) -> Option<u32> {
    if !references_kind(code[at], kind) {
        None
    } else if code[at] == 0x1B {
        if at + 6 <= code.len() {
            Some(le32(code, at + 2) as u32)
        } else {
            None
        }
    } else if at + 4 <= code.len() {
        Some(le16(code, at + 2) as u32)
    } else {
        None
    }
}

/// The references to `targets` that the instructions from `at` on make, in order.
pub open spec fn references_from(code: Seq<u8>, at: int, kind: ReferenceKind, targets: Set<u32>) -> Seq<
    u32,
>
    decreases
            if at < code.len() {
                code.len() - at
            } else {
                0
            },
{
    if at < 0 || at + 2 > code.len() || behind(code, at) <= at {
        Seq::empty()
    } else {
        let rest = references_from(code, behind(code, at), kind, targets);
        match reference_at(code, at, kind) {
            Some(index) => if targets.contains(index) {
                seq![index] + rest
            } else {
                rest
            },
            None => rest,
        }
    }
}

/// The references to `targets` that the instructions of a method make, in order.
pub open spec fn references_in(code: Seq<u8>, kind: ReferenceKind, targets: Set<u32>) -> Seq<u32> {
    references_from(code, 0, kind, targets)
}

/// The size of an instruction, in 16-bit units.
fn op_width(op: u8) -> (units: usize)
    ensures
        units == width(op),
        1 <= units <= 5,
{
    if op == 0x18 {
        5
    } else if op == 0xFA || op == 0xFB {
        4
    } else if op == 0x03 || op == 0x06 || op == 0x09 || op == 0x14 || op == 0x17 || op == 0x1B || (op
        >= 0x24 && op <= 0x26) || (op >= 0x2A && op <= 0x2C) || (op >= 0x6E && op <= 0x72) || (op
        >= 0x74 && op <= 0x78) || op == 0xFC || op == 0xFD {
        3
    } else if op == 0x02 || op == 0x05 || op == 0x08 || op == 0x13 || op == 0x15 || op == 0x16 || op
        == 0x19 || op == 0x1A || op == 0x1C || op == 0x1F || op == 0x20 || op == 0x22 || op == 0x23
        || op == 0x29 || (op >= 0x2D && op <= 0x3D) || (op >= 0x44 && op <= 0x6D) || (op >= 0x90
        && op <= 0xAF) || (op >= 0xD0 && op <= 0xE2) || op >= 0xFE {
        2
    } else {
        1
    }
}

fn half(code: &[u8], at: usize) -> (value: u16)
    requires
        at + 2 <= code@.len(),
    ensures
        value == le16(code@, at as int),
{
    match read_u16(code, at) {
        Ok(value) => value,
        Err(_error) => 0,
    }
}

fn word(code: &[u8], at: usize) -> (value: u32)
    requires
        at + 4 <= code@.len(),
    ensures
        value == le32(code@, at as int),
{
    match read_u32(code, at) {
        Ok(value) => value,
        Err(_error) => 0,
    }
}

/// Where the instruction at `at` ends, or `None` when that is not inside the code.
fn next_at(code: &[u8], at: usize) -> (next: Option<usize>)
    requires
        at + 2 <= code@.len(),
    ensures
        behind(code@, at as int) > at,
        match next {
            Some(next) => next == behind(code@, at as int) && next <= code@.len(),
            None => behind(code@, at as int) > code@.len(),
        },
{
    let len: usize = code.len();
    let unit = half(code, at);
    if unit >= 0x0100 && unit <= 0x0300 && unit % 0x100 == 0 && len - at >= 8 {
        let first: u64 = half(code, at + 2) as u64;
        if unit == 0x0100 {
            return inside(at, 8 + 4 * first, len);
        } else if unit == 0x0200 {
            return inside(at, 4 + 8 * first, len);
        } else {
            let count: u64 = word(code, at + 4) as u64;
            assert(first * count <= 0xFFFF * 0xFFFF_FFFF) by (nonlinear_arith)
                requires
                    first <= 0xFFFF,
                    count <= 0xFFFF_FFFF,
            ;
            assert(0 <= first * count) by (nonlinear_arith)
                requires
                    0 <= first,
                    0 <= count,
            ;
            return inside(at, 8 + 2 * ((first * count + 1) / 2), len);
        }
    }
    inside(at, 2 * op_width(code[at]) as u64, len)
}

/// `at + size`, if that is not past `len`.
fn inside(at: usize, size: u64, len: usize) -> (sum: Option<usize>)
    requires
        at <= len,
    ensures
        match sum {
            Some(sum) => sum == at + size && sum <= len,
            None => at + size > len,
        },
{
    if size <= (len - at) as u64 {
        Some(at + size as usize)
    } else {
        None
    }
}

fn op_references(op: u8, kind: ReferenceKind) -> (yes: bool)
    ensures
        yes == references_kind(op, kind),
{
    match kind {
        ReferenceKind::String => op == 0x1A || op == 0x1B,
        ReferenceKind::Type => op == 0x1C || op == 0x1F || op == 0x20 || (op >= 0x22 && op <= 0x25),
        ReferenceKind::Field => op >= 0x52 && op <= 0x6D,
        ReferenceKind::Method => (op >= 0x6E && op <= 0x72) || (op >= 0x74 && op <= 0x78) || op
            == 0xFA || op == 0xFB,
    }
}

/// The row that the instruction at `at` references.
fn operand_at(code: &[u8], at: usize, kind: ReferenceKind) -> (index: Option<u32>)
    requires
        at + 2 <= code@.len(),
    ensures
        index == reference_at(code@, at as int, kind),
{
    let len: usize = code.len();
    let op = code[at];
    if !op_references(op, kind) {
        return None;
    }
    if op == 0x1B {
        if len - at >= 6 {
            Some(word(code, at + 2))
        } else {
            None
        }
    } else if len - at >= 4 {
        Some(half(code, at + 2) as u32)
    } else {
        None
    }
}

/// The references to the targets that the instructions of a method make, in order.
///
/// A method whose bytes hold no target's operand is not decoded at all.
pub fn scan_code(code: &[u8], kind: ReferenceKind, targets: &Targets) -> (found: Vec<u32>)
    ensures
        found@ == references_in(code@, kind, targets@),
{
    let ghost set = targets@;
    let mut found: Vec<u32> = Vec::new();
    if !targets.might_reference(code) {
        proof {
            if references_in(code@, kind, set).len() > 0 {
                lemma_reference_is_held(code@, 0, kind, set);
            }
            assert(found@ =~= references_in(code@, kind, set));
        }
        return found;
    }
    let ghost all = references_in(code@, kind, set);
    let len: usize = code.len();
    let mut at: usize = 0;
    while len - at >= 2
        invariant
            len == code@.len(),
            at <= len,
            set == targets@,
            all == found@ + references_from(code@, at as int, kind, set),
        decreases len - at,
    {
        let ghost before = found@;
        let next = next_at(code, at);
        if let Some(index) = operand_at(code, at, kind) {
            if targets.contains(index) {
                found.push(index);
            }
        }
        proof {
            let rest = references_from(code@, behind(code@, at as int), kind, set);
            assert(before + (seq![found@.last()] + rest) =~= before.push(found@.last()) + rest);
            assert(all =~= found@ + rest);
        }
        match next {
            Some(next) => {
                at = next;
            },
            None => {
                at = len;
            },
        }
    }
    assert(all =~= found@);
    found
}

/// A reference to a target has its operand in the code.
proof fn lemma_reference_is_held(code: Seq<u8>, at: int, kind: ReferenceKind, targets: Set<u32>)
    requires
        0 <= at,
        references_from(code, at, kind, targets).len() > 0,
    ensures
        any_may_hold(code, targets),
    decreases
            if at < code.len() {
                code.len() - at
            } else {
                0
            },
{
    match reference_at(code, at, kind) {
        Some(index) if targets.contains(index) => {
            lemma_operand_bytes(code, at, kind);
            law_filter_lets_every_reference_through(code, targets, index, at + 2);
        },
        _ => {
            lemma_reference_is_held(code, behind(code, at), kind, targets);
        },
    }
}

/// The operand of a reference stands behind the opcode's unit.
proof fn lemma_operand_bytes(code: Seq<u8>, at: int, kind: ReferenceKind)
    requires
        0 <= at,
        at + 2 <= code.len(),
        reference_at(code, at, kind) is Some,
    ensures
        ({
            let index = reference_at(code, at, kind)->0;
            occurs_at(
                code,
                if index < BITMAP_INDICES {
                    pair_of(index)
                } else {
                    quad_of(index)
                },
                at + 2,
            )
        }),
{
    let index = reference_at(code, at, kind)->0;
    if code[at] == 0x1B {
        assert(le32(code, at + 2) == index);
        if index < BITMAP_INDICES {
            assert(code.subrange(at + 2, at + 4) =~= pair_of(index));
        } else {
            assert(code.subrange(at + 2, at + 6) =~= quad_of(index));
        }
    } else {
        assert(le16(code, at + 2) == index);
        assert(code.subrange(at + 2, at + 4) =~= pair_of(index));
    }
}

/// The byte filter never changes what a scan finds: a method that it skips references none of the
/// targets.
pub proof fn law_skipped_code_references_nothing(
    code: Seq<u8>,
    kind: ReferenceKind,
    targets: Set<u32>,
)
    requires
        !any_may_hold(code, targets),
    ensures
        references_in(code, kind, targets) == Seq::<u32>::empty(),
{
    if references_in(code, kind, targets).len() > 0 {
        lemma_reference_is_held(code, 0, kind, targets);
    }
    assert(references_in(code, kind, targets) =~= Seq::empty());
}

/// The instructions that refer to something, by what they refer to: the two that load a string; the
/// ones that load, check or make a type; those that read or write a field, of an instance and then
/// static, for each of seven kinds of value; and those that call, with their forms for a range of
/// registers, and the two polymorphic calls.
pub proof fn law_reference_opcodes(op: u8)
    ensures
        references_kind(op, ReferenceKind::String) <==> seq![0x1Au8, 0x1B].contains(op),
        references_kind(op, ReferenceKind::Type) <==> seq![
            0x1Cu8,
            0x1F,
            0x20,
            0x22,
            0x23,
            0x24,
            0x25,
        ].contains(op),
        references_kind(op, ReferenceKind::Field) <==> 0x52 <= op < 0x52 + 4 * 7,
        references_kind(op, ReferenceKind::Method) <==> 0x6E <= op < 0x6E + 5 || 0x74 <= op < 0x74 + 5
            || op == 0xFA || op == 0xFB,
{
    let strings = seq![0x1Au8, 0x1B];
    assert(strings[0] == 0x1A && strings[1] == 0x1B);
    let types = seq![0x1Cu8, 0x1F, 0x20, 0x22, 0x23, 0x24, 0x25];
    assert(types[0] == 0x1C && types[1] == 0x1F && types[2] == 0x20 && types[3] == 0x22 && types[4]
        == 0x23 && types[5] == 0x24 && types[6] == 0x25);
}

/// How many units the instructions take, in the order of their opcodes.
pub proof fn law_instruction_widths(op: u8)
    ensures
        op == 0x00 || op == 0x01 || op == 0x04 || op == 0x07 ==> width(op) == 1,
        op == 0x02 || op == 0x05 || op == 0x08 ==> width(op) == 2,
        op == 0x03 || op == 0x06 || op == 0x09 ==> width(op) == 3,
        0x0A <= op <= 0x12 ==> width(op) == 1,
        op == 0x13 || op == 0x15 || op == 0x16 || op == 0x19 || op == 0x1A || op == 0x1C ==> width(op)
            == 2,
        op == 0x14 || op == 0x17 || op == 0x1B ==> width(op) == 3,
        op == 0x18 ==> width(op) == 5,
        op == 0x1D || op == 0x1E || op == 0x21 || op == 0x27 || op == 0x28 ==> width(op) == 1,
        op == 0x1F || op == 0x20 || op == 0x22 || op == 0x23 || op == 0x29 ==> width(op) == 2,
        op == 0x24 || op == 0x25 || op == 0x26 || op == 0x2A || op == 0x2B || op == 0x2C ==> width(op)
            == 3,
        0x2D <= op <= 0x3D ==> width(op) == 2,
        0x3E <= op <= 0x43 ==> width(op) == 1,
        0x44 <= op <= 0x6D ==> width(op) == 2,
        0x6E <= op <= 0x78 && op != 0x73 ==> width(op) == 3,
        op == 0x73 || (0x79 <= op <= 0x8F) || (0xB0 <= op <= 0xCF) || (0xE3 <= op <= 0xF9) ==> width(op)
            == 1,
        0x90 <= op <= 0xAF || (0xD0 <= op <= 0xE2) || op >= 0xFE ==> width(op) == 2,
        op == 0xFA || op == 0xFB ==> width(op) == 4,
        op == 0xFC || op == 0xFD ==> width(op) == 3,
{
}

/// What instructions reference does not depend on what stands in front of them.
proof fn lemma_references_behind(
    front: Seq<u8>,
    code: Seq<u8>,
    at: int,
    kind: ReferenceKind,
    targets: Set<u32>,
)
    requires
        0 <= at,
    ensures
        references_from(front + code, front.len() + at, kind, targets) == references_from(
            code,
            at,
            kind,
            targets,
        ),
    decreases code.len() - at,
{
    let all = front + code;
    let n = front.len() as int;
    if at + 2 <= code.len() {
        assert forall|j: int| 0 <= j < code.len() implies #[trigger] all[n + j] == code[j] by {}
        assert(all[n + at] == code[at] && all[n + at + 1] == code[at + 1]);
        assert(le16(all, n + at) == le16(code, at));
        if at + 4 <= code.len() {
            assert(all[n + (at + 2)] == code[at + 2] && all[n + (at + 3)] == code[at + 3]);
            assert(le16(all, n + at + 2) == le16(code, at + 2));
        }
        if at + 6 <= code.len() {
            assert(all[n + (at + 4)] == code[at + 4] && all[n + (at + 5)] == code[at + 5]);
            assert(le32(all, n + at + 2) == le32(code, at + 2));
        }
        if at + 8 <= code.len() {
            assert(all[n + (at + 6)] == code[at + 6] && all[n + (at + 7)] == code[at + 7]);
            assert(le32(all, n + at + 4) == le32(code, at + 4));
        }
        assert(behind(all, n + at) == n + behind(code, at));
        assert(reference_at(all, n + at, kind) == reference_at(code, at, kind));
        if at < behind(code, at) <= code.len() {
            lemma_references_behind(front, code, behind(code, at), kind, targets);
        } else if behind(code, at) > at {
            assert(references_from(code, behind(code, at), kind, targets) =~= Seq::empty());
            assert(references_from(all, behind(all, n + at), kind, targets) =~= Seq::empty());
        }
    }
}

/// The instructions of a method are read one behind the other: an instruction adds the row that it
/// names, if that is a target, and what follows it is read as if it stood alone. The index stands in
/// the 16 bits behind the first unit.
pub proof fn law_reference_is_found(
    op: u8,
    register: u8,
    index: u16,
    operands: Seq<u8>,
    rest: Seq<u8>,
    kind: ReferenceKind,
    targets: Set<u32>,
)
    requires
        op > 0,
        op != 0x1B,
        references_kind(op, kind),
        4 + operands.len() == 2 * width(op),
    ensures
        references_in(
            seq![op, register] + written16(index) + operands + rest,
            kind,
            targets,
        ) == (if targets.contains(index as u32) {
            seq![index as u32]
        } else {
            Seq::empty()
        }) + references_in(rest, kind, targets),
{
    let one = seq![op, register] + written16(index) + operands;
    let code = one + rest;
    assert(code[0] == op && code[1] == register);
    assert(code.subrange(2, 4) =~= written16(index));
    law_half_reads_back(code, 2, index);
    assert(le16(code, 0) % 0x100 == op);
    lemma_references_behind(one, rest, 0, kind, targets);
    let more = references_in(rest, kind, targets);
    assert(Seq::<u32>::empty() + more =~= more);
}

/// The long form that loads a string has its index in the 32 bits behind the first unit.
pub proof fn law_long_reference_is_found(
    register: u8,
    index: u32,
    rest: Seq<u8>,
    targets: Set<u32>,
)
    ensures
        references_in(
            seq![0x1Bu8, register] + written32(index) + rest,
            ReferenceKind::String,
            targets,
        ) == (if targets.contains(index) {
            seq![index]
        } else {
            Seq::empty()
        }) + references_in(rest, ReferenceKind::String, targets),
{
    let one = seq![0x1Bu8, register] + written32(index);
    let code = one + rest;
    assert(code[0] == 0x1B && code[1] == register);
    assert(code.subrange(2, 6) =~= written32(index));
    law_word_reads_back(code, 2, index);
    assert(le16(code, 0) % 0x100 == 0x1B);
    lemma_references_behind(one, rest, 0, ReferenceKind::String, targets);
    let more = references_in(rest, ReferenceKind::String, targets);
    assert(Seq::<u32>::empty() + more =~= more);
}

/// An instruction of another kind is passed over whole, whatever its operands look like.
pub proof fn law_other_instructions_are_passed_over(
    op: u8,
    operands: Seq<u8>,
    rest: Seq<u8>,
    kind: ReferenceKind,
    targets: Set<u32>,
)
    requires
        op > 0,
        !references_kind(op, kind),
        1 + operands.len() == 2 * width(op),
    ensures
        references_in(seq![op] + operands + rest, kind, targets) == references_in(
            rest,
            kind,
            targets,
        ),
{
    let one = seq![op] + operands;
    let code = one + rest;
    assert(code[0] == op);
    assert(le16(code, 0) % 0x100 == op);
    lemma_references_behind(one, rest, 0, kind, targets);
}

/// A table of jumps with consecutive keys, with keys of its own, or of the elements of an array,
/// is passed over by the size that its own head states.
pub proof fn law_tables_are_passed_over(code: Seq<u8>, at: int, count: u16)
    requires
        0 <= at,
        at + 8 <= code.len(),
        occurs_at(code, written16(count), at + 2),
    ensures
        code[at] == 0 && code[at + 1] == 1 ==> behind(code, at) == at + 8 + 4 * count,
        code[at] == 0 && code[at + 1] == 2 ==> behind(code, at) == at + 4 + 8 * count,
        code[at] == 0 && code[at + 1] == 3 ==> behind(code, at) == at + 8 + (count * le32(code, at + 4)
            + 1) / 2 * 2,
{
    law_half_reads_back(code, at + 2, count);
}

/// Only targets are found, however the code goes on.
pub proof fn law_only_targets_are_found(
    code: Seq<u8>,
    at: int,
    kind: ReferenceKind,
    targets: Set<u32>,
    k: int,
)
    requires
        0 <= at,
        0 <= k < references_from(code, at, kind, targets).len(),
    ensures
        targets.contains(references_from(code, at, kind, targets)[k]),
    decreases code.len() - at,
{
    let rest = references_from(code, behind(code, at), kind, targets);
    let all = references_from(code, at, kind, targets);
    if all.len() == rest.len() + 1 {
        if k > 0 {
            assert(all[k] == rest[k - 1]);
            law_only_targets_are_found(code, behind(code, at), kind, targets, k - 1);
        }
    } else {
        law_only_targets_are_found(code, behind(code, at), kind, targets, k);
    }
}

} // verus!
