//! The code of a method.
use super::error::DexError;
use super::reader::{half_at, word_at, DexReader};
use crate::bytes::{law_half_reads_back, law_word_reads_back, written16, written32};
use crate::seqs::{
    collect, lemma_both_occur, lemma_collect_all, lemma_collect_fails, lemma_collect_succeeds,
    occurs_at,
};
use vstd::prelude::*;

verus! {

/// The code of a method: its frame and its instructions in 16-bit units.
#[derive(Debug)]
pub struct CodeItem {
    pub registers_size: u16,
    pub ins_size: u16,
    pub outs_size: u16,
    pub tries_size: u16,
    pub debug_info_off: u32,
    pub insns: Option<Vec<u16>>,
}

/// The code of a method, with its instructions as a sequence.
#[verifier::ext_equal]
pub struct CodeView {
    pub registers_size: u16,
    pub ins_size: u16,
    pub outs_size: u16,
    pub tries_size: u16,
    pub debug_info_off: u32,
    pub insns: Option<Seq<u16>>,
}

/// Instructions that may be absent, as a sequence.
pub open spec fn opt_units(units: Option<Vec<u16>>) -> Option<Seq<u16>> {
    match units {
        Some(units) => Some(units@),
        None => None,
    }
}

impl View for CodeItem {
    type V = CodeView;

    open spec fn view(&self) -> CodeView {
        CodeView {
            registers_size: self.registers_size,
            ins_size: self.ins_size,
            outs_size: self.outs_size,
            tries_size: self.tries_size,
            debug_info_off: self.debug_info_off,
            insns: opt_units(self.insns),
        }
    }
}

/// The 16-bit units from `at` on, by position.
pub open spec fn unit_row(data: Seq<u8>, big_endian: bool, at: int) -> spec_fn(int) -> Result<
    u16,
    DexError,
> {
    |k: int|
        if at + 2 * k + 2 > data.len() {
            Err(DexError::UnexpectedEnd)
        } else {
            Ok(half_at(data, big_endian, at + 2 * k) as u16)
        }
}

/// The code at `at`.
pub open spec fn code_at(data: Seq<u8>, big_endian: bool, at: int) -> Result<CodeView, DexError> {
    if at + 16 > data.len() {
        Err(DexError::UnexpectedEnd)
    } else {
        match collect(
            word_at(data, big_endian, at + 12) as int,
            unit_row(data, big_endian, at + 16),
        ) {
            Err(error) => Err(error),
            Ok(units) => Ok(
                CodeView {
                    registers_size: half_at(data, big_endian, at) as u16,
                    ins_size: half_at(data, big_endian, at + 2) as u16,
                    outs_size: half_at(data, big_endian, at + 4) as u16,
                    tries_size: half_at(data, big_endian, at + 6) as u16,
                    debug_info_off: word_at(data, big_endian, at + 8) as u32,
                    insns: Some(units),
                },
            ),
        }
    }
}

/// The outcome of a call that returns code, with the code as a view.
pub open spec fn code_outcome(result: Result<CodeItem, DexError>) -> Result<CodeView, DexError> {
    match result {
        Ok(code) => Ok(code@),
        Err(error) => Err(error),
    }
}

impl CodeItem {
    /// Reads the code at `offset`.
    pub fn build(dex_reader: &DexReader, offset: u32) -> (code: Result<Self, DexError>)
        ensures
            code_outcome(code) == code_at(
                dex_reader.bytes@,
                dex_reader.big_endian,
                offset as int,
            ),
    {
        let at: u64 = offset as u64;
        let count: u32 = match dex_reader.word(at + 12) {
            Ok(count) => count,
            Err(error) => {
                return Err(error);
            },
        };
        let ghost data = dex_reader.bytes@;
        let ghost f = unit_row(data, dex_reader.big_endian, offset + 16);
        let mut units: Vec<u16> = Vec::new();
        let mut k: u32 = 0;
        while k < count
            invariant
                at == offset,
                data == dex_reader.bytes@,
                at + 16 <= data.len(),
                count == word_at(data, dex_reader.big_endian, offset + 12),
                f == unit_row(data, dex_reader.big_endian, offset + 16),
                k <= count,
                collect(k as int, f) == Ok::<Seq<u16>, DexError>(units@),
            decreases count - k,
        {
            match dex_reader.half(at + 16 + 2 * k as u64) {
                Ok(unit) => {
                    units.push(unit);
                },
                Err(error) => {
                    proof {
                        lemma_collect_fails(count as int, k as int, f);
                    }
                    return Err(error);
                },
            }
            k = k + 1;
        }
        let registers_size: u16 = Self::frame_field(dex_reader, at);
        let ins_size: u16 = Self::frame_field(dex_reader, at + 2);
        let outs_size: u16 = Self::frame_field(dex_reader, at + 4);
        let tries_size: u16 = Self::frame_field(dex_reader, at + 6);
        match dex_reader.word(at + 8) {
            Ok(debug_info_off) => Ok(
                CodeItem {
                    registers_size,
                    ins_size,
                    outs_size,
                    tries_size,
                    debug_info_off,
                    insns: Some(units),
                },
            ),
            Err(error) => Err(error),
        }
    }

    fn frame_field(dex_reader: &DexReader, at: u64) -> (value: u16)
        requires
            at + 2 <= dex_reader.bytes@.len(),
        ensures
            value == half_at(dex_reader.bytes@, dex_reader.big_endian, at as int),
    {
        match dex_reader.half(at) {
            Ok(value) => value,
            Err(_error) => 0,
        }
    }
}

/// The frame of some code as it is written: four halves and two words.
pub open spec fn written_frame(
    registers: u16,
    ins: u16,
    outs: u16,
    tries: u16,
    debug: u32,
    count: u32,
) -> Seq<u8> {
    written16(registers) + (written16(ins) + (written16(outs) + (written16(tries) + (written32(debug)
        + written32(count)))))
}

/// Code that was written reads back: its frame, and behind it as many units as the frame says.
/// Where that many do not follow, there is no code.
pub proof fn law_code_reads_back(
    data: Seq<u8>,
    at: int,
    registers: u16,
    ins: u16,
    outs: u16,
    tries: u16,
    debug: u32,
    count: u32,
)
    requires
        0 <= at,
        occurs_at(data, written_frame(registers, ins, outs, tries, debug, count), at),
    ensures
        code_at(data, false, at) is Ok <==> at + 16 + 2 * count <= data.len(),
        code_at(data, false, at) matches Ok(code) ==> {
            &&& code.registers_size == registers
            &&& code.ins_size == ins
            &&& code.outs_size == outs
            &&& code.tries_size == tries
            &&& code.debug_info_off == debug
            &&& code.insns is Some
            &&& code.insns->0.len() == count
            &&& forall|k: int|
                0 <= k < count ==> data[at + 16 + 2 * k] == #[trigger] code.insns->0[k] % 0x100
                    && data[at + 17 + 2 * k] == code.insns->0[k] / 0x100
        },
{
    let tail4 = written32(debug) + written32(count);
    let tail3 = written16(tries) + tail4;
    let tail2 = written16(outs) + tail3;
    let tail1 = written16(ins) + tail2;
    lemma_both_occur(data, written16(registers), tail1, at);
    lemma_both_occur(data, written16(ins), tail2, at + 2);
    lemma_both_occur(data, written16(outs), tail3, at + 4);
    lemma_both_occur(data, written16(tries), tail4, at + 6);
    lemma_both_occur(data, written32(debug), written32(count), at + 8);
    law_half_reads_back(data, at, registers);
    law_half_reads_back(data, at + 2, ins);
    law_half_reads_back(data, at + 4, outs);
    law_half_reads_back(data, at + 6, tries);
    law_word_reads_back(data, at + 8, debug);
    law_word_reads_back(data, at + 12, count);
    let n = count as int;
    let f = unit_row(data, false, at + 16);
    if at + 16 + 2 * count <= data.len() {
        let all = Seq::new(count as nat, |k: int| half_at(data, false, at + 16 + 2 * k) as u16);
        assert forall|k: int| 0 <= k < n implies #[trigger] f(k) == Ok::<u16, DexError>(all[k]) by {}
        lemma_collect_all(n, f, all);
        assert forall|k: int| 0 <= k < n implies data[at + 16 + 2 * k] == #[trigger] all[k] % 0x100
            && data[at + 17 + 2 * k] == all[k] / 0x100 by {
            assert(all[k] == data[at + 16 + 2 * k] + 0x100 * data[at + 17 + 2 * k]);
        }
    } else {
        assert(f(n - 1) is Err);
        if collect(n, f) is Ok {
            lemma_collect_succeeds(n, f);
            let units = collect(n, f)->Ok_0;
            assert(f(n - 1) == Ok::<u16, DexError>(units[n - 1]));
        }
    }
}

} // verus!
