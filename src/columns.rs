//! The columns of one row of the external-rounds trace.

use crate::field::all_felts;
use vstd::prelude::*;

verus! {

/// A memory access record: the limbs of the value that the access carries.
#[derive(Clone, Copy, Debug, PartialEq, Eq)]
pub struct MemoryRecord {
    pub value: [u32; 4],
}

/// Committed output of the round-constant addition.
#[derive(Clone, Debug)]
pub struct AddRcOperation {
    pub result: Vec<u32>,
}

/// Committed intermediate and output values of the S-box `x ↦ x^7`.
#[derive(Clone, Debug)]
pub struct SBoxOperation {
    /// `x^3` for each word.
    pub cube: Vec<u32>,
    /// `x^7` for each word.
    pub result: Vec<u32>,
}

/// Committed output of the external linear layer.
#[derive(Clone, Debug)]
pub struct ExternalLinearPermuteOperation {
    pub result: Vec<u32>,
}

/// One row of the trace.
#[derive(Clone, Debug)]
pub struct Poseidon2ExternalCols {
    /// The row belongs to an execution rather than padding.
    pub is_real: u32,
    /// Activity gate of this precompile's memory and pipeline constraints.
    pub is_external: u32,
    /// One-hot selector of the active round.
    pub is_round_n: Vec<u32>,
    /// Index of the active round.
    pub round_number: u32,
    /// Round constant of the active round, per state word.
    pub round_constant: Vec<u32>,
    pub segment: u32,
    pub mem_read_clk: Vec<u32>,
    pub mem_write_clk: Vec<u32>,
    pub mem_addr: Vec<u32>,
    pub mem_reads: Vec<MemoryRecord>,
    pub mem_writes: Vec<MemoryRecord>,
    pub add_rc: AddRcOperation,
    pub sbox: SBoxOperation,
    pub external_linear_permute: ExternalLinearPermuteOperation,
}

/// The limbs of every record are field elements.
pub open spec fn records_wf(s: Seq<MemoryRecord>) -> bool {
    forall|i: int, j: int| 0 <= i < s.len() && 0 <= j < 4 ==> #[trigger] s[i].value@[j] < crate::field::P
}

impl Poseidon2ExternalCols {
    /// The row has `rounds` selectors and `words` state words, and every
    /// column holds a field element.
    pub open spec fn wf(&self, rounds: nat, words: nat) -> bool {
        &&& self.is_real < crate::field::P
        &&& self.is_external < crate::field::P
        &&& self.round_number < crate::field::P
        &&& self.segment < crate::field::P
        &&& self.is_round_n@.len() == rounds
        &&& all_felts(self.is_round_n@)
        &&& self.round_constant@.len() == words
        &&& all_felts(self.round_constant@)
        &&& self.mem_read_clk@.len() == words
        &&& self.mem_write_clk@.len() == words
        &&& self.mem_addr@.len() == words
        &&& self.mem_reads@.len() == words
        &&& records_wf(self.mem_reads@)
        &&& self.mem_writes@.len() == words
        &&& self.add_rc.result@.len() == words
        &&& all_felts(self.add_rc.result@)
        &&& self.sbox.cube@.len() == words
        &&& all_felts(self.sbox.cube@)
        &&& self.sbox.result@.len() == words
        &&& all_felts(self.sbox.result@)
        &&& self.external_linear_permute.result@.len() == words
        &&& all_felts(self.external_linear_permute.result@)
    }

    /// Number of columns of a row with `rounds` selectors and `words` state words.
    pub open spec fn spec_width(rounds: nat, words: nat) -> int {
        4 + rounds + 16 * words as int
    }

    /// The columns read `row` in layout order: the two flags, the selector,
    /// the round number, the round constants, the segment, the read clocks,
    /// the write clocks, the addresses, the limbs of the reads and of the
    /// writes, then the outputs of the three stages.
    pub open spec fn reads_row(&self, row: Seq<u32>, rounds: nat, words: nat) -> bool {
        let r = rounds as int;
        let n = words as int;
        let m = 4 + r + 4 * n;
        &&& self.is_real == row[0]
        &&& self.is_external == row[1]
        &&& self.is_round_n@ == row.subrange(2, 2 + r)
        &&& self.round_number == row[2 + r]
        &&& self.round_constant@ == row.subrange(3 + r, 3 + r + n)
        &&& self.segment == row[3 + r + n]
        &&& self.mem_read_clk@ == row.subrange(4 + r + n, 4 + r + 2 * n)
        &&& self.mem_write_clk@ == row.subrange(4 + r + 2 * n, 4 + r + 3 * n)
        &&& self.mem_addr@ == row.subrange(4 + r + 3 * n, m)
        &&& self.mem_reads@.len() == n
        &&& forall|w: int| 0 <= w < n ==> #[trigger] self.mem_reads@[w].value@ == row.subrange(m + 4 * w, m + 4 * w + 4)
        &&& self.mem_writes@.len() == n
        &&& forall|w: int|
            0 <= w < n ==> #[trigger] self.mem_writes@[w].value@ == row.subrange(m + 4 * n + 4 * w, m + 4 * n + 4 * w + 4)
        &&& self.add_rc.result@ == row.subrange(m + 8 * n, m + 9 * n)
        &&& self.sbox.cube@ == row.subrange(m + 9 * n, m + 10 * n)
        &&& self.sbox.result@ == row.subrange(m + 10 * n, m + 11 * n)
        &&& self.external_linear_permute.result@ == row.subrange(m + 11 * n, m + 12 * n)
    }

    /// Reads a row of the trace; `None` where it is narrower than the layout.
    pub fn from_row(row: &Vec<u32>, rounds: usize, words: usize) -> (r: Option<Poseidon2ExternalCols>)
        requires
            rounds <= crate::air::MAX_ROUNDS,
            words <= crate::air::MAX_WORDS,
            all_felts(row@),
        ensures
            r is None <==> row@.len() < Self::spec_width(rounds as nat, words as nat),
            r matches Some(c) ==> c.wf(rounds as nat, words as nat) && c.reads_row(row@, rounds as nat, words as nat),
    {
        let width = 4 + rounds + 16 * words;
        if row.len() < width {
            return None;
        }
        let m = 4 + rounds + 4 * words;
        let cols = Poseidon2ExternalCols {
            is_real: row[0],
            is_external: row[1],
            is_round_n: slice_of(row, 2, rounds),
            round_number: row[2 + rounds],
            round_constant: slice_of(row, 3 + rounds, words),
            segment: row[3 + rounds + words],
            mem_read_clk: slice_of(row, 4 + rounds + words, words),
            mem_write_clk: slice_of(row, 4 + rounds + 2 * words, words),
            mem_addr: slice_of(row, 4 + rounds + 3 * words, words),
            mem_reads: records_of(row, m, words),
            mem_writes: records_of(row, m + 4 * words, words),
            add_rc: AddRcOperation { result: slice_of(row, m + 8 * words, words) },
            sbox: SBoxOperation {
                cube: slice_of(row, m + 9 * words, words),
                result: slice_of(row, m + 10 * words, words),
            },
            external_linear_permute: ExternalLinearPermuteOperation { result: slice_of(row, m + 11 * words, words) },
        };
        assert(records_wf(cols.mem_reads@)) by {
            assert forall|i: int, j: int| 0 <= i < words && 0 <= j < 4 implies #[trigger] cols.mem_reads@[i].value@[j]
                < crate::field::P by {
                assert(cols.mem_reads@[i].value@ == row@.subrange(m + 4 * i, m + 4 * i + 4));
                assert(row@[m + 4 * i + j] < crate::field::P);
            }
        }
        Some(cols)
    }
}

/// `len` entries of `row` from `start`.
fn slice_of(row: &Vec<u32>, start: usize, len: usize) -> (r: Vec<u32>)
    requires
        start + len <= row@.len(),
        all_felts(row@),
    ensures
        r@ == row@.subrange(start as int, start + len),
        all_felts(r@),
{
    let total = row.len();
    let mut out: Vec<u32> = Vec::new();
    let mut i: usize = 0;
    while i < len
        invariant
            total == row@.len(),
            start + len <= row@.len(),
            0 <= i <= len,
            out@ == row@.subrange(start as int, start + i),
        decreases len - i,
    {
        out.push(row[start + i]);
        assert(out@ =~= row@.subrange(start as int, start + i + 1));
        i = i + 1;
    }
    out
}

/// `count` memory records of four limbs each from `start`.
fn records_of(row: &Vec<u32>, start: usize, count: usize) -> (r: Vec<MemoryRecord>)
    requires
        start + 4 * count <= row@.len(),
    ensures
        r@.len() == count,
        forall|w: int| 0 <= w < count ==> #[trigger] r@[w].value@ == row@.subrange(start + 4 * w, start + 4 * w + 4),
{
    let total = row.len();
    let mut out: Vec<MemoryRecord> = Vec::new();
    let mut w: usize = 0;
    while w < count
        invariant
            total == row@.len(),
            start + 4 * count <= row@.len(),
            0 <= w <= count,
            out@.len() == w,
            forall|t: int| 0 <= t < w ==> #[trigger] out@[t].value@ == row@.subrange(start + 4 * t, start + 4 * t + 4),
        decreases count - w,
    {
        let b = start + 4 * w;
        let value = [row[b], row[b + 1], row[b + 2], row[b + 3]];
        assert(value@ =~= row@.subrange(b as int, b + 4));
        out.push(MemoryRecord { value });
        w = w + 1;
    }
    out
}

} // verus!
