//! What holds of the chip's constraints on every row.

use crate::air::{MAX_ROUNDS, Poseidon2ExternalChip};
use crate::columns::{AddRcOperation, ExternalLinearPermuteOperation, Poseidon2ExternalCols, SBoxOperation};
use crate::field::{P, fe, lemma_fe_canonical, lemma_fe_gated, lemma_fe_mul};
use crate::ops::{external_round, linear_layer, sbox};
use crate::selector::{dot, indices, is_one_hot, lemma_count_two_set, lemma_dot_one_hot, ones};
use crate::sink::all_zero;
use vstd::prelude::*;

verus! {

impl Poseidon2ExternalChip {
    /// `local` is the row of round `k` of an honest execution: real and
    /// active, its selector one-hot at `k`, its round number and constants
    /// those of round `k`, and every stage output the transform of its input.
    pub open spec fn is_honest_row(&self, local: &Poseidon2ExternalCols, k: int) -> bool {
        let input = self.input_state(local);
        &&& 0 <= k < self.rounds()
        &&& local.is_real == 1
        &&& local.is_external == 1
        &&& is_one_hot(local.is_round_n@, k)
        &&& local.round_number == k
        &&& forall|w: int| 0 <= w < self.words() ==> #[trigger] local.round_constant@[w] == self.constant(k, w)
        &&& forall|w: int|
            0 <= w < self.words() ==> #[trigger] local.add_rc.result@[w] as int == fe(
                input[w] + local.round_constant@[w],
            )
        &&& forall|w: int|
            0 <= w < self.words() ==> {
                let x = local.add_rc.result@[w];
                &&& #[trigger] local.sbox.cube@[w] as int == fe(x * x * x)
                &&& local.sbox.result@[w] as int == fe(local.sbox.cube@[w] * local.sbox.cube@[w] * x)
            }
        &&& forall|w: int|
            0 <= w < self.words() ==> #[trigger] local.external_linear_permute.result@[w] as int == linear_layer(
                local.sbox.result@,
                w,
            )
    }
}

proof fn lemma_fe_zero()
    ensures
        fe(0) == 0,
{
}

/// The rows of an honest execution satisfy every identity of their window:
/// the next row is padding, or it is the following round, or the window is
/// the trace's last.
pub proof fn lemma_honest_window_satisfies(
    chip: &Poseidon2ExternalChip,
    local: &Poseidon2ExternalCols,
    next: &Poseidon2ExternalCols,
    is_transition: bool,
    k: int,
)
    requires
        chip.wf(),
        local.wf(chip.rounds(), chip.words()),
        next.wf(chip.rounds(), chip.words()),
        chip.is_honest_row(local, k),
        !is_transition || next.is_real == 0 || (k + 1 < chip.rounds() && is_one_hot(next.is_round_n@, k + 1)),
    ensures
        all_zero(chip.residuals(local, next, is_transition)),
{
    let r = chip.rounds() as int;
    let n = chip.words() as int;
    let sel = local.is_round_n@;
    let g = local.is_external;
    let input = chip.input_state(local);
    lemma_fe_zero();
    assert forall|i: int| 0 <= i < r - 1 implies Poseidon2ExternalChip::transition_residual(local, next, is_transition, i)
        == 0 by {
        if is_transition && next.is_real != 0 {
            assert(sel[i] == next.is_round_n@[i + 1]);
        }
    }
    assert forall|i: int| 0 <= i < r implies Poseidon2ExternalChip::bool_residual(local, i) == 0 by {
        let s = sel[i] as int;
        assert(s == 0 || s == 1);
        assert(s * (s - 1) == 0) by (nonlinear_arith)
            requires
                s == 0 || s == 1,
        ;
    }
    lemma_dot_one_hot(sel, ones(r as nat), k, r);
    lemma_dot_one_hot(sel, indices(r as nat), k, r);
    assert(chip.one_hot_residual(local) == 0);
    assert(chip.round_number_residual(local) == 0);
    assert forall|w: int| 0 <= w < n implies chip.round_constant_residual(local, w) == 0 by {
        lemma_dot_one_hot(sel, chip.constant_column(w), k, r);
        assert(local.round_constant@[w] == chip.constant(k, w));
    }
    assert forall|w: int| 0 <= w < n implies AddRcOperation::residual(
        input,
        local.round_constant@,
        &local.add_rc,
        g,
        w,
    ) == 0 by {
        let a = input[w] + local.round_constant@[w];
        lemma_fe_gated(1, a, fe(a));
    }
    assert forall|w: int| 0 <= w < n implies SBoxOperation::cube_residual(local.add_rc.result@, &local.sbox, g, w) == 0
        && SBoxOperation::result_residual(local.add_rc.result@, &local.sbox, g, w) == 0 by {
        let x = local.add_rc.result@[w];
        assert(local.sbox.cube@[w] as int == fe(x * x * x));
        lemma_fe_gated(1, x * x * x, fe(x * x * x));
        let c = local.sbox.cube@[w];
        lemma_fe_gated(1, c * c * x, fe(c * c * x));
    }
    assert forall|w: int| 0 <= w < n implies ExternalLinearPermuteOperation::residual(
        local.sbox.result@,
        &local.external_linear_permute,
        g,
        w,
    ) == 0 by {
        assert(local.external_linear_permute.result@[w] as int == linear_layer(local.sbox.result@, w));
    }
    let all = chip.residuals(local, next, is_transition);
    assert forall|i: int| 0 <= i < all.len() implies #[trigger] all[i] == 0 by {
        if i < r - 1 {
        } else if i < 2 * r - 1 {
            assert(all[i] == Poseidon2ExternalChip::bool_residual(local, i - (r - 1)));
        } else if i < 2 * r + 1 {
        } else if i < 2 * r + 1 + n {
            assert(all[i] == chip.round_constant_residual(local, i - (2 * r + 1)));
        } else if i < 2 * r + 1 + 2 * n {
            assert(all[i] == AddRcOperation::residual(input, local.round_constant@, &local.add_rc, g, i - (2 * r + 1 + n)));
        } else if i < 2 * r + 1 + 3 * n {
            assert(all[i] == SBoxOperation::cube_residual(local.add_rc.result@, &local.sbox, g, i - (2 * r + 1 + 2 * n)));
        } else if i < 2 * r + 1 + 4 * n {
            assert(all[i] == SBoxOperation::result_residual(local.add_rc.result@, &local.sbox, g, i - (2 * r + 1 + 3 * n)));
        } else {
            assert(all[i] == ExternalLinearPermuteOperation::residual(
                local.sbox.result@,
                &local.external_linear_permute,
                g,
                i - (2 * r + 1 + 4 * n),
            ));
        }
    }
}

/// A padding row of zeros satisfies every identity of its window, whether it
/// is followed by padding or by the first round of an execution.
pub proof fn lemma_padding_window_satisfies(
    chip: &Poseidon2ExternalChip,
    local: &Poseidon2ExternalCols,
    next: &Poseidon2ExternalCols,
    is_transition: bool,
)
    requires
        chip.wf(),
        local.wf(chip.rounds(), chip.words()),
        next.wf(chip.rounds(), chip.words()),
        local.is_real == 0,
        local.is_external == 0,
        local.round_number == 0,
        forall|i: int| 0 <= i < chip.rounds() ==> #[trigger] local.is_round_n@[i] == 0,
        forall|w: int| 0 <= w < chip.words() ==> #[trigger] local.round_constant@[w] == 0,
        !is_transition || next.is_real == 0 || forall|i: int| 1 <= i < chip.rounds() ==> #[trigger] next.is_round_n@[i] == 0,
    ensures
        all_zero(chip.residuals(local, next, is_transition)),
{
    let r = chip.rounds() as int;
    let n = chip.words() as int;
    let sel = local.is_round_n@;
    lemma_fe_zero();
    lemma_dot_zero(sel, indices(r as nat), r);
    assert forall|i: int| 0 <= i < r - 1 implies Poseidon2ExternalChip::transition_residual(local, next, is_transition, i)
        == 0 by {
        let gate: int = if is_transition { next.is_real as int } else { 0 };
        assert(sel[i] == 0);
        if gate != 0 {
            assert(next.is_round_n@[i + 1] == 0);
        }
        assert(gate * (sel[i] - next.is_round_n@[i + 1]) == 0);
    }
    assert forall|i: int| 0 <= i < r implies Poseidon2ExternalChip::bool_residual(local, i) == 0 by {
        assert(sel[i] == 0);
    }
    assert forall|w: int| 0 <= w < n implies chip.round_constant_residual(local, w) == 0 by {
        lemma_dot_zero(sel, chip.constant_column(w), r);
        assert(local.round_constant@[w] == 0);
    }
    let all = chip.residuals(local, next, is_transition);
    assert forall|i: int| 0 <= i < all.len() implies #[trigger] all[i] == 0 by {
        if i < r - 1 {
        } else if i < 2 * r - 1 {
            assert(all[i] == Poseidon2ExternalChip::bool_residual(local, i - (r - 1)));
        } else if i < 2 * r + 1 {
        } else if i < 2 * r + 1 + n {
            assert(all[i] == chip.round_constant_residual(local, i - (2 * r + 1)));
        } else {
        }
    }
}

proof fn lemma_dot_zero(sel: Seq<u32>, w: Seq<u32>, n: int)
    requires
        0 <= n <= sel.len(),
        forall|i: int| 0 <= i < sel.len() ==> #[trigger] sel[i] == 0,
    ensures
        dot(sel, w, n) == 0,
    decreases n,
{
    if n > 0 {
        lemma_dot_zero(sel, w, n - 1);
        assert(sel[n - 1] == 0);
    }
}

/// With the selector one-hot at `k`, the round-number identity holds exactly
/// when the round number is `k`.
pub proof fn lemma_round_number_identity(chip: &Poseidon2ExternalChip, local: &Poseidon2ExternalCols, k: int)
    requires
        chip.wf(),
        local.wf(chip.rounds(), chip.words()),
        is_one_hot(local.is_round_n@, k),
    ensures
        chip.round_number_residual(local) == 0 <==> local.round_number == k,
{
    let r = chip.rounds() as int;
    lemma_dot_one_hot(local.is_round_n@, indices(r as nat), k, r);
    lemma_fe_canonical(k, local.round_number as int);
}

/// With the selector one-hot at `k`, the identity of word `w` holds exactly
/// when that word's round constant is the public constant of round `k`; it
/// reads no other word's constant.
pub proof fn lemma_round_constant_identity(chip: &Poseidon2ExternalChip, local: &Poseidon2ExternalCols, k: int, w: int)
    requires
        chip.wf(),
        local.wf(chip.rounds(), chip.words()),
        is_one_hot(local.is_round_n@, k),
        0 <= w < chip.words(),
    ensures
        chip.round_constant_residual(local, w) == 0 <==> local.round_constant@[w] == chip.constant(k, w),
{
    let r = chip.rounds() as int;
    lemma_dot_one_hot(local.is_round_n@, chip.constant_column(w), k, r);
    assert(crate::field::all_felts(chip.round_constants@[k]@));
    assert(chip.constant(k, w) < P);
    lemma_fe_canonical(chip.constant(k, w) as int, local.round_constant@[w] as int);
}

/// On a real row whose selector entries are bits, two set bits break the
/// one-hot identity.
pub proof fn lemma_two_selectors_rejected(chip: &Poseidon2ExternalChip, local: &Poseidon2ExternalCols, a: int, b: int)
    requires
        chip.wf(),
        local.wf(chip.rounds(), chip.words()),
        local.is_real == 1,
        forall|i: int| 0 <= i < chip.rounds() ==> #[trigger] local.is_round_n@[i] <= 1,
        0 <= a < chip.rounds(),
        0 <= b < chip.rounds(),
        a != b,
        local.is_round_n@[a] == 1,
        local.is_round_n@[b] == 1,
    ensures
        chip.one_hot_residual(local) != 0,
{
    let r = chip.rounds() as int;
    let s = dot(local.is_round_n@, ones(r as nat), r);
    lemma_count_two_set(local.is_round_n@, a, b, r);
    assert(r <= MAX_ROUNDS);
    lemma_fe_canonical(s - 1, 0);
}

/// Between two real rows at rounds `k` and `k2`, with `k` not the last round,
/// the shift identities all hold exactly when `k2 == k + 1`.
pub proof fn lemma_transition_identity(
    chip: &Poseidon2ExternalChip,
    local: &Poseidon2ExternalCols,
    next: &Poseidon2ExternalCols,
    k: int,
    k2: int,
)
    requires
        chip.wf(),
        local.wf(chip.rounds(), chip.words()),
        next.wf(chip.rounds(), chip.words()),
        next.is_real == 1,
        is_one_hot(local.is_round_n@, k),
        is_one_hot(next.is_round_n@, k2),
        k + 1 < chip.rounds(),
    ensures
        (forall|i: int|
            0 <= i < chip.rounds() - 1 ==> #[trigger] Poseidon2ExternalChip::transition_residual(local, next, true, i)
                == 0) <==> k2 == k + 1,
{
    lemma_fe_zero();
    if k2 == k + 1 {
        assert forall|i: int| 0 <= i < chip.rounds() - 1 implies #[trigger] Poseidon2ExternalChip::transition_residual(
            local,
            next,
            true,
            i,
        ) == 0 by {
            assert(local.is_round_n@[i] == next.is_round_n@[i + 1]);
        }
    } else {
        assert(Poseidon2ExternalChip::transition_residual(local, next, true, k) != 0) by {
            assert(local.is_round_n@[k] == 1);
            assert(next.is_round_n@[k + 1] == 0);
            lemma_fe_canonical(1, 0);
        }
    }
}

/// With the activity gate at 0, every pipeline identity holds and no memory
/// transaction is asked for, whatever the memory and pipeline columns hold.
pub proof fn lemma_inactive_row_unconstrained(chip: &Poseidon2ExternalChip, local: &Poseidon2ExternalCols)
    requires
        chip.wf(),
        local.wf(chip.rounds(), chip.words()),
        local.is_external == 0,
    ensures
        all_zero(chip.external_ops_residuals(local)),
        forall|j: int| 0 <= j < 2 * chip.words() ==> (#[trigger] chip.memory_accesses(local)[j]).multiplicity == 0,
{
    lemma_fe_zero();
    let e = chip.external_ops_residuals(local);
    assert forall|i: int| 0 <= i < e.len() implies #[trigger] e[i] == 0 by {
    }
}

proof fn lemma_fe_mul_congruent(a: int, b: int, c: int, d: int)
    requires
        fe(a) == fe(b),
        fe(c) == fe(d),
    ensures
        fe(a * c) == fe(b * d),
{
    lemma_fe_mul(a, c);
    lemma_fe_mul(b, d);
}

/// `(x^3)^2 · x` with each product reduced is the S-box of anything that `x`
/// represents.
proof fn lemma_staged_sbox(y: int, x: int, c: int)
    requires
        x == fe(y),
        c == fe(x * x * x),
    ensures
        fe(c * c * x) == sbox(y),
{
    let x3 = x * x * x;
    lemma_fe_mul(x3, x3);
    lemma_fe_mul(c * c, x);
    lemma_fe_mul(x3 * x3, x);
    assert(x3 * x3 * x == x * x * x * x * x * x * x) by (nonlinear_arith)
        requires
            x3 == x * x * x,
    ;
    vstd::arithmetic::div_mod::lemma_mod_twice(y, P as int);
    let x2 = x * x;
    let y2 = y * y;
    lemma_fe_mul_congruent(x, y, x, y);
    lemma_fe_mul_congruent(x2, y2, x, y);
    lemma_fe_mul_congruent(x2 * x, y2 * y, x, y);
    lemma_fe_mul_congruent(x2 * x * x, y2 * y * y, x, y);
    lemma_fe_mul_congruent(x2 * x * x * x, y2 * y * y * y, x, y);
    lemma_fe_mul_congruent(x2 * x * x * x * x, y2 * y * y * y * y, x, y);
}

/// An active row whose pipeline identities all hold carries, in its linear
/// layer output, one external round applied to the state it read, with its
/// round constants.
pub proof fn lemma_pipeline_computes_external_round(chip: &Poseidon2ExternalChip, local: &Poseidon2ExternalCols)
    requires
        chip.wf(),
        local.wf(chip.rounds(), chip.words()),
        local.is_external == 1,
        all_zero(chip.external_ops_residuals(local)),
    ensures
        local.external_linear_permute.result@ == external_round(chip.input_state(local), local.round_constant@),
{
    let n = chip.words() as int;
    let input = chip.input_state(local);
    let rc = local.round_constant@;
    let e = chip.external_ops_residuals(local);
    let g = local.is_external;
    assert forall|w: int| 0 <= w < n implies #[trigger] local.sbox.result@[w] as int == sbox(input[w] + rc[w]) by {
        let y = input[w] + rc[w];
        let x = local.add_rc.result@[w] as int;
        let c = local.sbox.cube@[w] as int;
        let res = local.sbox.result@[w] as int;
        assert(e[w] == AddRcOperation::residual(input, rc, &local.add_rc, g, w));
        assert(e[n + w] == SBoxOperation::cube_residual(local.add_rc.result@, &local.sbox, g, w));
        assert(e[2 * n + w] == SBoxOperation::result_residual(local.add_rc.result@, &local.sbox, g, w));
        assert(e[w] == 0 && e[n + w] == 0 && e[2 * n + w] == 0);
        lemma_fe_gated(1, y, x);
        lemma_fe_canonical(fe(y), x);
        lemma_fe_gated(1, x * x * x, c);
        lemma_fe_canonical(fe(x * x * x), c);
        lemma_fe_gated(1, c * c * x, res);
        lemma_fe_canonical(fe(c * c * x), res);
        lemma_staged_sbox(y, x, c);
    }
    let s = Seq::new(input.len(), |w: int| sbox(input[w] + rc[w]) as u32);
    assert(s =~= local.sbox.result@);
    let out = local.external_linear_permute.result@;
    assert forall|w: int| 0 <= w < n implies #[trigger] out[w] as int == linear_layer(local.sbox.result@, w) by {
        assert(e[3 * n + w] == ExternalLinearPermuteOperation::residual(
            local.sbox.result@,
            &local.external_linear_permute,
            g,
            w,
        ));
        assert(e[3 * n + w] == 0);
        let l = linear_layer(local.sbox.result@, w);
        vstd::arithmetic::div_mod::lemma_mod_twice(l, P as int);
        lemma_fe_gated(1, l, out[w] as int);
        lemma_fe_canonical(l, out[w] as int);
    }
    assert(out =~= external_round(input, rc));
}

} // verus!
