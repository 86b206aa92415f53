//! The external-rounds chip: its constant table, and the constraints that it
//! places on a window of two adjacent rows.

use crate::columns::{AddRcOperation, ExternalLinearPermuteOperation, Poseidon2ExternalCols, SBoxOperation};
use crate::field::{P, all_felts, felt};
use crate::selector::{combine, dot, indices, ones};
use crate::sink::{ConstraintSink, MemoryAccess};
use crate::word::{compose_word, word_value};
use vstd::prelude::*;

verus! {

/// Largest number of rounds a chip is built for.
pub const MAX_ROUNDS: usize = 64;

/// Largest number of state words a chip is built for.
pub const MAX_WORDS: usize = 64;

/// The round-constant table is usable: between 1 and `MAX_ROUNDS` rounds, each
/// with the same number of words, a positive multiple of 4 up to `MAX_WORDS`,
/// and every constant a field element.
pub open spec fn table_wf(t: Seq<Vec<u32>>) -> bool {
    &&& 1 <= t.len() <= MAX_ROUNDS
    &&& 4 <= t[0]@.len() <= MAX_WORDS
    &&& t[0]@.len() % 4 == 0
    &&& forall|j: int| 0 <= j < t.len() ==> (#[trigger] t[j])@.len() == t[0]@.len() && all_felts(t[j]@)
}

/// The chip of the external rounds, over a fixed public table of round
/// constants indexed by `[round][word]`.
pub struct Poseidon2ExternalChip {
    pub round_constants: Vec<Vec<u32>>,
    pub num_words: usize,
}

impl Poseidon2ExternalChip {
    /// Number of rounds.
    pub open spec fn rounds(&self) -> nat {
        self.round_constants@.len()
    }

    /// Number of state words.
    pub open spec fn words(&self) -> nat {
        self.num_words as nat
    }

    pub open spec fn wf(&self) -> bool {
        &&& table_wf(self.round_constants@)
        &&& self.num_words == self.round_constants@[0]@.len()
    }

    /// The public constant of round `k` for word `w`.
    pub open spec fn constant(&self, k: int, w: int) -> u32 {
        self.round_constants@[k]@[w]
    }

    /// The constants of word `w` across the rounds.
    pub open spec fn constant_column(&self, w: int) -> Seq<u32> {
        Seq::new(self.rounds(), |j: int| self.constant(j, w))
    }

    /// Number of columns in a row: four scalars, the selector, and sixteen
    /// columns per state word.
    pub open spec fn spec_width(&self) -> int {
        4 + self.rounds() + 16 * self.words() as int
    }

    /// Builds a chip over `round_constants`; `None` where the table is not usable.
    pub fn new(round_constants: Vec<Vec<u32>>) -> (r: Option<Poseidon2ExternalChip>)
        ensures
            r is Some <==> table_wf(round_constants@),
            r matches Some(c) ==> c.wf() && c.round_constants@ == round_constants@,
    {
        let n = round_constants.len();
        if n == 0 || n > MAX_ROUNDS {
            return None;
        }
        let words = round_constants[0].len();
        if words < 4 || words > MAX_WORDS || words % 4 != 0 {
            return None;
        }
        let mut j: usize = 0;
        while j < n
            invariant
                n == round_constants@.len(),
                words == round_constants@[0]@.len(),
                0 <= j <= n,
                forall|i: int| 0 <= i < j ==> (#[trigger] round_constants@[i])@.len() == words && all_felts(round_constants@[i]@),
            decreases n - j,
        {
            let row = &round_constants[j];
            if row.len() != words {
                return None;
            }
            let mut w: usize = 0;
            while w < words
                invariant
                    n == round_constants@.len(),
                    0 <= j < n,
                    row@ == round_constants@[j as int]@,
                    row@.len() == words,
                    0 <= w <= words,
                    forall|i: int| 0 <= i < w ==> #[trigger] row@[i] < P,
                decreases words - w,
            {
                if row[w] >= P {
                    assert(round_constants@[j as int]@[w as int] >= P);
                    assert(!all_felts(round_constants@[j as int]@));
                    return None;
                }
                w = w + 1;
            }
            j = j + 1;
        }
        Some(Poseidon2ExternalChip { round_constants, num_words: words })
    }

    /// Number of columns that a row of this chip takes.
    pub fn width(&self) -> (r: usize)
        requires
            self.wf(),
        ensures
            r == self.spec_width(),
    {
        4 + self.round_constants.len() + 16 * self.num_words
    }

    /// Residual of the shift identity between selector `i` of this row and
    /// selector `i + 1` of the next.
    pub open spec fn transition_residual(
        local: &Poseidon2ExternalCols,
        next: &Poseidon2ExternalCols,
        is_transition: bool,
        i: int,
    ) -> u32 {
        let gate: int = if is_transition { next.is_real as int } else { 0 };
        felt(gate * (local.is_round_n@[i] - next.is_round_n@[i + 1]))
    }

    /// Residual of the booleanity of selector `i`.
    pub open spec fn bool_residual(local: &Poseidon2ExternalCols, i: int) -> u32 {
        felt(local.is_round_n@[i] * (local.is_round_n@[i] - 1))
    }

    /// Residual of "a real row has exactly one selector set".
    pub open spec fn one_hot_residual(&self, local: &Poseidon2ExternalCols) -> u32 {
        felt(local.is_real * (dot(local.is_round_n@, ones(self.rounds()), self.rounds() as int) - 1))
    }

    /// Residual of `round_number == Σ is_round_n[i] · i`.
    pub open spec fn round_number_residual(&self, local: &Poseidon2ExternalCols) -> u32 {
        felt(dot(local.is_round_n@, indices(self.rounds()), self.rounds() as int) - local.round_number)
    }

    /// Residual of `round_constant[w] == Σ is_round_n[j] · C[j][w]`.
    pub open spec fn round_constant_residual(&self, local: &Poseidon2ExternalCols, w: int) -> u32 {
        felt(dot(local.is_round_n@, self.constant_column(w), self.rounds() as int) - local.round_constant@[w])
    }

    /// The identities on the round selector, in the order they are emitted:
    /// the shifts, the booleanity of each selector, the one-hot sum, the round
    /// number, and the round constant of each word.
    pub open spec fn control_flow_residuals(
        &self,
        local: &Poseidon2ExternalCols,
        next: &Poseidon2ExternalCols,
        is_transition: bool,
    ) -> Seq<u32> {
        let r = self.rounds();
        Seq::new((r - 1) as nat, |i: int| Self::transition_residual(local, next, is_transition, i))
            + Seq::new(r, |i: int| Self::bool_residual(local, i))
            + seq![self.one_hot_residual(local), self.round_number_residual(local)]
            + Seq::new(self.words(), |w: int| self.round_constant_residual(local, w))
    }

    /// Emits the identities on the round selector of `local`, and of its shift
    /// into `next` where `is_transition` holds (every window but the last).
    pub fn constrain_control_flow_flags(
        &self,
        sink: &mut ConstraintSink,
        local: &Poseidon2ExternalCols,
        next: &Poseidon2ExternalCols,
        is_transition: bool,
    )
        requires
            self.wf(),
            local.wf(self.rounds(), self.words()),
            next.wf(self.rounds(), self.words()),
        ensures
            final(sink).residuals@ == old(sink).residuals@ + self.control_flow_residuals(local, next, is_transition),
            final(sink).accesses@ == old(sink).accesses@,
    {
        let ghost start = sink.residuals@;
        let rounds = self.round_constants.len();
        let gate: u32 = if is_transition { next.is_real } else { 0 };
        let mut i: usize = 0;
        while i + 1 < rounds
            invariant
                self.wf(),
                local.wf(self.rounds(), self.words()),
                next.wf(self.rounds(), self.words()),
                rounds == self.rounds(),
                gate == (if is_transition { next.is_real } else { 0 }),
                0 <= i < rounds,
                sink.residuals@ == start + Seq::new(i as nat, |t: int| Self::transition_residual(local, next, is_transition, t)),
                sink.accesses@ == old(sink).accesses@,
            decreases rounds - i,
        {
            sink.assert_eq_when(gate, local.is_round_n[i], next.is_round_n[i + 1]);
            assert(sink.residuals@ =~= start + Seq::new((i + 1) as nat, |t: int| Self::transition_residual(local, next, is_transition, t)));
            i = i + 1;
        }
        let ghost s1 = sink.residuals@;
        let mut i: usize = 0;
        while i < rounds
            invariant
                local.wf(self.rounds(), self.words()),
                rounds == self.rounds(),
                0 <= i <= rounds,
                sink.residuals@ == s1 + Seq::new(i as nat, |t: int| Self::bool_residual(local, t)),
                sink.accesses@ == old(sink).accesses@,
            decreases rounds - i,
        {
            sink.assert_bool(local.is_round_n[i]);
            assert(sink.residuals@ =~= s1 + Seq::new((i + 1) as nat, |t: int| Self::bool_residual(local, t)));
            i = i + 1;
        }
        let ghost s2 = sink.residuals@;

        let mut one: Vec<u32> = Vec::new();
        let mut idx: Vec<u32> = Vec::new();
        let mut i: usize = 0;
        while i < rounds
            invariant
                rounds == self.rounds(),
                rounds <= MAX_ROUNDS,
                0 <= i <= rounds,
                one@ == ones(i as nat),
                idx@ == indices(i as nat),
            decreases rounds - i,
        {
            one.push(1);
            idx.push(i as u32);
            assert(one@ =~= ones((i + 1) as nat));
            assert(idx@ =~= indices((i + 1) as nat));
            i = i + 1;
        }
        let total = combine(&local.is_round_n, &one);
        sink.assert_eq_when(local.is_real, total, 1);
        proof {
            crate::field::lemma_fe_sub(dot(local.is_round_n@, one@, rounds as int), 1);
            crate::field::lemma_fe_mul(local.is_real as int, dot(local.is_round_n@, one@, rounds as int) - 1);
            crate::field::lemma_fe_mul(local.is_real as int, total - 1);
        }
        let round = combine(&local.is_round_n, &idx);
        sink.assert_eq(round, local.round_number);
        proof {
            crate::field::lemma_fe_sub(dot(local.is_round_n@, idx@, rounds as int), local.round_number as int);
            crate::field::lemma_fe_canonical(local.round_number as int, 0);
        }
        let ghost s3 = sink.residuals@;
        assert(s3 =~= s2 + seq![self.one_hot_residual(local), self.round_number_residual(local)]);

        let words = self.num_words;
        let mut w: usize = 0;
        while w < words
            invariant
                self.wf(),
                local.wf(self.rounds(), self.words()),
                rounds == self.rounds(),
                words == self.words(),
                0 <= w <= words,
                sink.residuals@ == s3 + Seq::new(w as nat, |t: int| self.round_constant_residual(local, t)),
                sink.accesses@ == old(sink).accesses@,
            decreases words - w,
        {
            let mut column: Vec<u32> = Vec::new();
            let mut j: usize = 0;
            while j < rounds
                invariant
                    self.wf(),
                    rounds == self.rounds(),
                    words == self.words(),
                    0 <= w < words,
                    0 <= j <= rounds,
                    column@ == self.constant_column(w as int).subrange(0, j as int),
                decreases rounds - j,
            {
                assert(self.round_constants@[j as int]@.len() == words);
                column.push(self.round_constants[j][w]);
                assert(column@ =~= self.constant_column(w as int).subrange(0, j + 1));
                j = j + 1;
            }
            assert(column@ =~= self.constant_column(w as int));
            assert forall|i: int| 0 <= i < column@.len() implies #[trigger] column@[i] < P by {
                assert(all_felts(self.round_constants@[i]@));
            }
            let c = combine(&local.is_round_n, &column);
            sink.assert_eq(c, local.round_constant[w]);
            proof {
                crate::field::lemma_fe_sub(dot(local.is_round_n@, column@, rounds as int), local.round_constant@[w as int] as int);
                crate::field::lemma_fe_canonical(local.round_constant@[w as int] as int, 0);
            }
            assert(sink.residuals@ =~= s3 + Seq::new((w + 1) as nat, |t: int| self.round_constant_residual(local, t)));
            w = w + 1;
        }
        assert(sink.residuals@ =~= start + self.control_flow_residuals(local, next, is_transition));
    }

    /// The memory transactions of a row: for each word, its read and then its
    /// write, both at the word's address and weighted by `is_external`.
    pub open spec fn memory_accesses(&self, local: &Poseidon2ExternalCols) -> Seq<MemoryAccess> {
        Seq::new(
            2 * self.words(),
            |j: int|
                {
                    let w = j / 2;
                    if j % 2 == 0 {
                        MemoryAccess {
                            segment: local.segment,
                            clk: local.mem_read_clk@[w],
                            addr: local.mem_addr@[w],
                            value: local.mem_reads@[w].value,
                            multiplicity: local.is_external,
                        }
                    } else {
                        MemoryAccess {
                            segment: local.segment,
                            clk: local.mem_write_clk@[w],
                            addr: local.mem_addr@[w],
                            value: local.mem_writes@[w].value,
                            multiplicity: local.is_external,
                        }
                    }
                },
        )
    }

    /// Hands the read and the write of every state word to the memory argument.
    pub fn constrain_memory(&self, sink: &mut ConstraintSink, local: &Poseidon2ExternalCols)
        requires
            self.wf(),
            local.wf(self.rounds(), self.words()),
        ensures
            final(sink).residuals@ == old(sink).residuals@,
            final(sink).accesses@ == old(sink).accesses@ + self.memory_accesses(local),
    {
        let ghost start = sink.accesses@;
        let words = self.num_words;
        let mut w: usize = 0;
        while w < words
            invariant
                self.wf(),
                local.wf(self.rounds(), self.words()),
                words == self.words(),
                0 <= w <= words,
                sink.accesses@ == start + self.memory_accesses(local).subrange(0, 2 * w),
                sink.residuals@ == old(sink).residuals@,
            decreases words - w,
        {
            sink.constrain_memory_access(
                local.segment,
                local.mem_read_clk[w],
                local.mem_addr[w],
                local.mem_reads[w].value,
                local.is_external,
            );
            sink.constrain_memory_access(
                local.segment,
                local.mem_write_clk[w],
                local.mem_addr[w],
                local.mem_writes[w].value,
                local.is_external,
            );
            assert(sink.accesses@ =~= start + self.memory_accesses(local).subrange(0, 2 * (w + 1)));
            w = w + 1;
        }
        assert(self.memory_accesses(local).subrange(0, 2 * w) =~= self.memory_accesses(local));
    }

    /// The state words that a row reads, as field elements.
    pub open spec fn input_state(&self, local: &Poseidon2ExternalCols) -> Seq<u32> {
        Seq::new(self.words(), |w: int| felt(word_value(local.mem_reads@[w].value@)))
    }

    /// The identities of the pipeline, in the order they are emitted: the
    /// round-constant addition, the cubes and the seventh powers of the S-box,
    /// and the linear layer, each per word and under `is_external`.
    pub open spec fn external_ops_residuals(&self, local: &Poseidon2ExternalCols) -> Seq<u32> {
        let n = self.words();
        let g = local.is_external;
        let input = self.input_state(local);
        Seq::new(n, |w: int| AddRcOperation::residual(input, local.round_constant@, &local.add_rc, g, w))
            + Seq::new(n, |w: int| SBoxOperation::cube_residual(local.add_rc.result@, &local.sbox, g, w))
            + Seq::new(n, |w: int| SBoxOperation::result_residual(local.add_rc.result@, &local.sbox, g, w))
            + Seq::new(
                n,
                |w: int| ExternalLinearPermuteOperation::residual(local.sbox.result@, &local.external_linear_permute, g, w),
            )
    }

    /// Rebuilds the state from the memory reads and wires it through the
    /// round-constant addition, the S-box and the linear layer.
    pub fn constraint_external_ops(&self, sink: &mut ConstraintSink, local: &Poseidon2ExternalCols)
        requires
            self.wf(),
            local.wf(self.rounds(), self.words()),
        ensures
            final(sink).residuals@ == old(sink).residuals@ + self.external_ops_residuals(local),
            final(sink).accesses@ == old(sink).accesses@,
    {
        let words = self.num_words;
        let mut input: Vec<u32> = Vec::new();
        let mut w: usize = 0;
        while w < words
            invariant
                self.wf(),
                local.wf(self.rounds(), self.words()),
                words == self.words(),
                0 <= w <= words,
                input@ == self.input_state(local).subrange(0, w as int),
                all_felts(input@),
            decreases words - w,
        {
            let v = compose_word(&local.mem_reads[w].value);
            input.push(v);
            assert(input@ =~= self.input_state(local).subrange(0, w + 1));
            w = w + 1;
        }
        assert(input@ =~= self.input_state(local));
        let ghost s0 = sink.residuals@;
        AddRcOperation::eval(sink, &input, &local.round_constant, &local.add_rc, local.is_external);
        SBoxOperation::eval(sink, &local.add_rc.result, &local.sbox, local.is_external);
        ExternalLinearPermuteOperation::eval(
            sink,
            &local.sbox.result,
            &local.external_linear_permute,
            local.is_external,
        );
        assert(sink.residuals@ =~= s0 + self.external_ops_residuals(local));
    }

    /// Every identity that a window of two rows must satisfy, in the order
    /// they are emitted.
    pub open spec fn residuals(
        &self,
        local: &Poseidon2ExternalCols,
        next: &Poseidon2ExternalCols,
        is_transition: bool,
    ) -> Seq<u32> {
        self.control_flow_residuals(local, next, is_transition) + self.external_ops_residuals(local)
    }

    /// Evaluates every constraint on the window `(local, next)`: the round
    /// selector, the memory transactions, and the pipeline. `is_transition`
    /// is false on the last window of a trace.
    pub fn eval(
        &self,
        sink: &mut ConstraintSink,
        local: &Poseidon2ExternalCols,
        next: &Poseidon2ExternalCols,
        is_transition: bool,
    )
        requires
            self.wf(),
            local.wf(self.rounds(), self.words()),
            next.wf(self.rounds(), self.words()),
        ensures
            final(sink).residuals@ == old(sink).residuals@ + self.residuals(local, next, is_transition),
            final(sink).accesses@ == old(sink).accesses@ + self.memory_accesses(local),
    {
        let ghost s0 = sink.residuals@;
        self.constrain_control_flow_flags(sink, local, next, is_transition);
        self.constrain_memory(sink, local);
        self.constraint_external_ops(sink, local);
        assert(sink.residuals@ =~= s0 + self.residuals(local, next, is_transition));
    }

    /// Window `i` of a trace, `(rows[i], rows[i + 1])`, satisfies its
    /// identities; the last window wraps to the first row with the shift
    /// identity off.
    pub open spec fn window_ok(&self, rows: Seq<Poseidon2ExternalCols>, i: int) -> bool {
        let next = (i + 1) % (rows.len() as int);
        crate::sink::all_zero(self.residuals(&rows[i], &rows[next], i + 1 < rows.len()))
    }

    /// Whether every window of `rows` satisfies its identities.
    pub fn check_trace(&self, rows: &Vec<Poseidon2ExternalCols>) -> (r: bool)
        requires
            self.wf(),
            forall|i: int| 0 <= i < rows@.len() ==> (#[trigger] rows@[i]).wf(self.rounds(), self.words()),
        ensures
            r == (forall|i: int| 0 <= i < rows@.len() ==> #[trigger] self.window_ok(rows@, i)),
    {
        let n = rows.len();
        let mut i: usize = 0;
        while i < n
            invariant
                self.wf(),
                n == rows@.len(),
                forall|j: int| 0 <= j < rows@.len() ==> (#[trigger] rows@[j]).wf(self.rounds(), self.words()),
                0 <= i <= n,
                forall|j: int| 0 <= j < i ==> #[trigger] self.window_ok(rows@, j),
            decreases n - i,
        {
            let next = if i + 1 < n { i + 1 } else { 0 };
            assert(next as int == (i + 1) % (n as int)) by {
                if i + 1 < n {
                    vstd::arithmetic::div_mod::lemma_small_mod((i + 1) as nat, n as nat);
                } else {
                    vstd::arithmetic::div_mod::lemma_mod_self_0(n as int);
                }
            }
            let mut sink = ConstraintSink::new();
            self.eval(&mut sink, &rows[i], &rows[next], i + 1 < n);
            assert(sink.residuals@ =~= self.residuals(&rows@[i as int], &rows@[next as int], i + 1 < n));
            if !sink.is_satisfied() {
                assert(!self.window_ok(rows@, i as int));
                return false;
            }
            i = i + 1;
        }
        true
    }
}

} // verus!
