use p3_baby_bear::BabyBear;
use p3_field::{PrimeCharacteristicRing, PrimeField32};
use p3_poseidon2::{MDSMat4, mds_light_permutation};
use poseidon2_external::air::Poseidon2ExternalChip;
use poseidon2_external::columns::{
    AddRcOperation, ExternalLinearPermuteOperation, MemoryRecord, Poseidon2ExternalCols,
    SBoxOperation,
};
use poseidon2_external::field::{P, fadd, fmul, fsub};
use poseidon2_external::sink::ConstraintSink;
use poseidon2_external::word::{compose_word, decompose_word};

const ROUNDS: usize = 4;
const WORDS: usize = 16;

fn bb(x: u32) -> BabyBear {
    BabyBear::new(x)
}

fn table() -> Vec<Vec<u32>> {
    (0..ROUNDS)
        .map(|j| {
            (0..WORDS)
                .map(|w| (((j * WORDS + w) as u64 * 123_456_789 + 17) % P as u64) as u32)
                .collect()
        })
        .collect()
}

fn chip() -> Poseidon2ExternalChip {
    Poseidon2ExternalChip::new(table()).unwrap()
}

fn sample_state(seed: u32) -> Vec<u32> {
    (0..WORDS as u32)
        .map(|w| ((w as u64 * 2_654_435_761 + seed as u64 * 97 + 5) % P as u64) as u32)
        .collect()
}

/// One external round computed with Plonky3's own field and linear layer.
fn plonky3_round(state: &[u32], rc: &[u32]) -> (Vec<u32>, Vec<u32>, Vec<u32>, Vec<u32>) {
    let added: Vec<BabyBear> = state.iter().zip(rc).map(|(s, c)| bb(*s) + bb(*c)).collect();
    let cubes: Vec<BabyBear> = added.iter().map(|x| x.exp_const_u64::<3>()).collect();
    let sboxed: Vec<BabyBear> = added.iter().map(|x| x.exp_const_u64::<7>()).collect();
    let mut out: [BabyBear; WORDS] = [BabyBear::ZERO; WORDS];
    out.copy_from_slice(&sboxed);
    mds_light_permutation(&mut out, &MDSMat4);
    let c = |v: &[BabyBear]| v.iter().map(|x| x.as_canonical_u32()).collect::<Vec<u32>>();
    (c(&added), c(&cubes), c(&sboxed), c(&out))
}

fn honest_row(k: usize, state: &[u32]) -> Poseidon2ExternalCols {
    let t = table();
    let (added, cubes, sboxed, out) = plonky3_round(state, &t[k]);
    let mut is_round_n = vec![0u32; ROUNDS];
    is_round_n[k] = 1;
    Poseidon2ExternalCols {
        is_real: 1,
        is_external: 1,
        is_round_n,
        round_number: k as u32,
        round_constant: t[k].clone(),
        segment: 1,
        mem_read_clk: (0..WORDS as u32).map(|w| 100 + w).collect(),
        mem_write_clk: (0..WORDS as u32).map(|w| 200 + w).collect(),
        mem_addr: (0..WORDS as u32).map(|w| 0x1000 + 4 * w).collect(),
        mem_reads: state.iter().map(|s| MemoryRecord { value: decompose_word(*s) }).collect(),
        mem_writes: out.iter().map(|s| MemoryRecord { value: decompose_word(*s) }).collect(),
        add_rc: AddRcOperation { result: added },
        sbox: SBoxOperation { cube: cubes, result: sboxed },
        external_linear_permute: ExternalLinearPermuteOperation { result: out },
    }
}

fn padding_row() -> Poseidon2ExternalCols {
    Poseidon2ExternalCols {
        is_real: 0,
        is_external: 0,
        is_round_n: vec![0; ROUNDS],
        round_number: 0,
        round_constant: vec![0; WORDS],
        segment: 0,
        mem_read_clk: vec![0; WORDS],
        mem_write_clk: vec![0; WORDS],
        mem_addr: vec![0; WORDS],
        mem_reads: vec![MemoryRecord { value: [0; 4] }; WORDS],
        mem_writes: vec![MemoryRecord { value: [0; 4] }; WORDS],
        add_rc: AddRcOperation { result: vec![0; WORDS] },
        sbox: SBoxOperation { cube: vec![0; WORDS], result: vec![0; WORDS] },
        external_linear_permute: ExternalLinearPermuteOperation { result: vec![0; WORDS] },
    }
}

fn evaluate(local: &Poseidon2ExternalCols, next: &Poseidon2ExternalCols, t: bool) -> ConstraintSink {
    let mut sink = ConstraintSink::new();
    chip().eval(&mut sink, local, next, t);
    sink
}

// Offsets of the identities in the order they are emitted.
const BOOL_AT: usize = ROUNDS - 1;
const ONE_HOT_AT: usize = 2 * ROUNDS - 1;
const ROUND_NUMBER_AT: usize = 2 * ROUNDS;
const CONSTANTS_AT: usize = 2 * ROUNDS + 1;
const PIPELINE_AT: usize = CONSTANTS_AT + WORDS;

#[test]
fn field_operations() {
    assert_eq!(fadd(P - 1, 1), 0);
    assert_eq!(fadd(5, 7), 12);
    assert_eq!(fsub(0, 1), P - 1);
    assert_eq!(fsub(10, 3), 7);
    assert_eq!(fmul(1 << 30, 4), ((1u64 << 32) % P as u64) as u32);
    assert_eq!(fmul(P - 1, P - 1), 1);
}

#[test]
fn compose_word_little_endian() {
    assert_eq!(compose_word(&[0x78, 0x56, 0x34, 0x12]), 0x1234_5678);
    assert_eq!(compose_word(&[0, 0, 0, 0]), 0);
    assert_eq!(compose_word(&[255, 255, 255, 255]), ((u32::MAX as u64) % P as u64) as u32);
    assert_eq!(decompose_word(0x1234_5678), [0x78, 0x56, 0x34, 0x12]);
}

#[test]
fn word_round_trip() {
    for x in [0u32, 1, 255, 256, 0x00ff_ff00, 0x1234_5678, P - 1] {
        assert_eq!(compose_word(&decompose_word(x)), x);
    }
    for b in [[0u32, 0, 0, 0], [1, 2, 3, 4], [255, 255, 255, 119], [0, 0, 0, 0x77]] {
        assert_eq!(decompose_word(compose_word(&b)), b);
    }
}

#[test]
fn chip_construction() {
    let c = chip();
    assert_eq!(c.num_words, WORDS);
    assert_eq!(c.width(), 4 + ROUNDS + 16 * WORDS);
    assert!(Poseidon2ExternalChip::new(vec![]).is_none());
    assert!(Poseidon2ExternalChip::new(vec![vec![1; 6]]).is_none());
    assert!(Poseidon2ExternalChip::new(vec![vec![1; 4], vec![1; 8]]).is_none());
    assert!(Poseidon2ExternalChip::new(vec![vec![1, 2, 3, P]]).is_none());
    assert!(Poseidon2ExternalChip::new(vec![vec![1, 2, 3, P - 1]]).is_some());
}

#[test]
fn honest_execution_satisfies_every_constraint() {
    let mut state = sample_state(3);
    let mut rows = Vec::new();
    for k in 0..ROUNDS {
        let row = honest_row(k, &state);
        state = row.external_linear_permute.result.clone();
        rows.push(row);
    }
    rows.push(padding_row());
    for i in 0..rows.len() {
        let t = i + 1 < rows.len();
        let next = &rows[(i + 1) % rows.len()];
        let sink = evaluate(&rows[i], next, t);
        assert!(sink.is_satisfied(), "window {}", i);
        assert_eq!(sink.residuals.len(), 2 * ROUNDS + 1 + 5 * WORDS);
        assert_eq!(sink.accesses.len(), 2 * WORDS);
    }
}

#[test]
fn memory_accesses_are_bound_to_their_word() {
    let local = honest_row(0, &sample_state(1));
    let sink = evaluate(&local, &padding_row(), true);
    for w in 0..WORDS {
        let read = sink.accesses[2 * w];
        let write = sink.accesses[2 * w + 1];
        assert_eq!(read.addr, write.addr);
        assert_eq!(read.addr, 0x1000 + 4 * w as u32);
        assert_eq!(read.clk, 100 + w as u32);
        assert_eq!(write.clk, 200 + w as u32);
        assert_eq!(read.value, local.mem_reads[w].value);
        assert_eq!(write.value, local.mem_writes[w].value);
        assert_eq!(read.multiplicity, 1);
        assert_eq!(write.multiplicity, 1);
        assert_eq!(read.segment, 1);
    }
}

#[test]
fn round_number_must_match_selector() {
    for k in 0..ROUNDS {
        let mut local = honest_row(k, &sample_state(k as u32));
        let sink = evaluate(&local, &padding_row(), true);
        assert_eq!(sink.residuals[ROUND_NUMBER_AT], 0);
        local.round_number = (k as u32 + 1) % ROUNDS as u32;
        let sink = evaluate(&local, &padding_row(), true);
        assert_ne!(sink.residuals[ROUND_NUMBER_AT], 0);
        assert_eq!(sink.residuals[ROUND_NUMBER_AT], fsub(k as u32, local.round_number));
    }
}

#[test]
fn round_constant_perturbation_breaks_its_identity_only() {
    let k = 2;
    let w = 5;
    let mut local = honest_row(k, &sample_state(9));
    local.round_constant[w] = fadd(local.round_constant[w], 3);
    let sink = evaluate(&local, &padding_row(), true);
    for v in 0..WORDS {
        let r = sink.residuals[CONSTANTS_AT + v];
        if v == w {
            assert_eq!(r, P - 3);
        } else {
            assert_eq!(r, 0);
        }
    }
}

#[test]
fn two_selector_bits_are_rejected() {
    let mut local = honest_row(1, &sample_state(2));
    local.is_round_n[3] = 1;
    let sink = evaluate(&local, &padding_row(), false);
    assert!(!sink.is_satisfied());
    assert_eq!(sink.residuals[ONE_HOT_AT], 1);
    for i in 0..ROUNDS {
        assert_eq!(sink.residuals[BOOL_AT + i], 0);
    }
}

#[test]
fn non_boolean_selector_is_rejected() {
    let mut local = honest_row(0, &sample_state(2));
    local.is_round_n[0] = 2;
    let sink = evaluate(&local, &padding_row(), false);
    assert_eq!(sink.residuals[BOOL_AT], 2);
}

#[test]
fn transition_must_advance_one_round() {
    let state = sample_state(4);
    for k in 0..ROUNDS - 1 {
        let local = honest_row(k, &state);
        for k2 in 0..ROUNDS {
            let next = honest_row(k2, &state);
            let sink = evaluate(&local, &next, true);
            let ok = sink.residuals[..ROUNDS - 1].iter().all(|r| *r == 0);
            assert_eq!(ok, k2 == k + 1, "k {} k2 {}", k, k2);
        }
    }
}

#[test]
fn transition_is_not_checked_on_last_window_or_into_padding() {
    let state = sample_state(4);
    let local = honest_row(0, &state);
    let next = honest_row(3, &state);
    assert!(evaluate(&local, &next, false).residuals[..ROUNDS - 1].iter().all(|r| *r == 0));
    let mut pad = padding_row();
    pad.is_round_n[3] = 1;
    assert!(evaluate(&local, &pad, true).residuals[..ROUNDS - 1].iter().all(|r| *r == 0));
}

#[test]
fn inactive_row_ignores_garbage() {
    let mut local = padding_row();
    for w in 0..WORDS {
        local.mem_reads[w].value = [7, 1234, P - 1, 99];
        local.mem_writes[w].value = [P - 2, 0, 5, 5];
        local.mem_addr[w] = 31 * w as u32;
        local.add_rc.result[w] = 11 + w as u32;
        local.sbox.cube[w] = P - 1 - w as u32;
        local.sbox.result[w] = 3;
        local.external_linear_permute.result[w] = 12345;
    }
    let sink = evaluate(&local, &padding_row(), true);
    assert!(sink.residuals[PIPELINE_AT..].iter().all(|r| *r == 0));
    assert!(sink.accesses.iter().all(|a| a.multiplicity == 0));
    assert!(sink.is_satisfied());
}

#[test]
fn active_row_with_garbage_is_rejected() {
    let mut local = honest_row(0, &sample_state(6));
    local.sbox.result[3] = fadd(local.sbox.result[3], 1);
    let sink = evaluate(&local, &padding_row(), true);
    assert!(!sink.is_satisfied());
}

#[test]
fn stages_match_plonky3_external_round() {
    let state = sample_state(8);
    let rc = table()[1].clone();
    let (added, cubes, sboxed, out) = plonky3_round(&state, &rc);
    let mut sink = ConstraintSink::new();
    AddRcOperation::eval(&mut sink, &state, &rc, &AddRcOperation { result: added.clone() }, 1);
    SBoxOperation::eval(&mut sink, &added, &SBoxOperation { cube: cubes, result: sboxed.clone() }, 1);
    ExternalLinearPermuteOperation::eval(
        &mut sink,
        &sboxed,
        &ExternalLinearPermuteOperation { result: out.clone() },
        1,
    );
    assert_eq!(sink.residuals.len(), 4 * WORDS);
    assert!(sink.is_satisfied());

    let mut wrong = out.clone();
    wrong[0] = fadd(wrong[0], 1);
    let mut sink = ConstraintSink::new();
    ExternalLinearPermuteOperation::eval(&mut sink, &sboxed, &ExternalLinearPermuteOperation { result: wrong }, 1);
    assert_eq!(sink.residuals[0], P - 1);
    assert!(sink.residuals[1..].iter().all(|r| *r == 0));
}

#[test]
fn linear_layer_on_unit_vector() {
    // e_0 through circ(2,3,1,1) blocks: block 0 gets 2·M4 column 0, the others M4 column 0.
    let mut input = vec![0u32; WORDS];
    input[0] = 1;
    let expected: Vec<u32> = (0..WORDS)
        .map(|w| {
            let col = [2u32, 1, 1, 3][w % 4];
            if w < 4 { 2 * col } else { col }
        })
        .collect();
    let mut sink = ConstraintSink::new();
    ExternalLinearPermuteOperation::eval(&mut sink, &input, &ExternalLinearPermuteOperation { result: expected }, 1);
    assert!(sink.is_satisfied());
}

#[test]
fn sink_gated_assertions() {
    let mut sink = ConstraintSink::new();
    sink.assert_eq(5, 5);
    sink.assert_eq(5, 7);
    sink.assert_eq_when(0, 1, 2);
    sink.assert_eq_when(3, 4, 2);
    sink.assert_bool(1);
    sink.assert_bool(2);
    assert_eq!(sink.residuals, vec![0, P - 2, 0, 6, 0, 2]);
    assert!(!sink.is_satisfied());
    assert!(ConstraintSink::new().is_satisfied());
}

fn flatten(c: &Poseidon2ExternalCols) -> Vec<u32> {
    let mut v = vec![c.is_real, c.is_external];
    v.extend(&c.is_round_n);
    v.push(c.round_number);
    v.extend(&c.round_constant);
    v.push(c.segment);
    v.extend(&c.mem_read_clk);
    v.extend(&c.mem_write_clk);
    v.extend(&c.mem_addr);
    for r in &c.mem_reads {
        v.extend(&r.value);
    }
    for r in &c.mem_writes {
        v.extend(&r.value);
    }
    v.extend(&c.add_rc.result);
    v.extend(&c.sbox.cube);
    v.extend(&c.sbox.result);
    v.extend(&c.external_linear_permute.result);
    v
}

#[test]
fn row_view_reads_layout() {
    let row = honest_row(2, &sample_state(5));
    let flat = flatten(&row);
    assert_eq!(flat.len(), chip().width());
    let back = Poseidon2ExternalCols::from_row(&flat, ROUNDS, WORDS).unwrap();
    assert_eq!(flatten(&back), flat);
    assert_eq!(back.round_number, 2);
    assert_eq!(back.mem_reads[3].value, row.mem_reads[3].value);
    assert_eq!(back.external_linear_permute.result, row.external_linear_permute.result);
}

#[test]
fn row_view_rejects_narrow_rows() {
    let flat = flatten(&honest_row(0, &sample_state(5)));
    assert!(Poseidon2ExternalCols::from_row(&flat[..flat.len() - 1].to_vec(), ROUNDS, WORDS).is_none());
    assert!(Poseidon2ExternalCols::from_row(&vec![], ROUNDS, WORDS).is_none());
    let mut wider = flat.clone();
    wider.push(9);
    assert!(Poseidon2ExternalCols::from_row(&wider, ROUNDS, WORDS).is_some());
}

#[test]
fn whole_trace_check() {
    let mut state = sample_state(11);
    let mut rows = Vec::new();
    for k in 0..ROUNDS {
        let row = honest_row(k, &state);
        state = row.external_linear_permute.result.clone();
        rows.push(row);
    }
    rows.push(padding_row());
    rows.push(padding_row());
    assert!(chip().check_trace(&rows));
    assert!(chip().check_trace(&vec![]));
    rows.swap(1, 2);
    assert!(!chip().check_trace(&rows));
}
