//! The three stages of an external round: round-constant addition, the S-box
//! `x ↦ x^7`, and the external linear layer. Each checks its committed output
//! columns against its input, scaled by an activity gate.

use crate::columns::{AddRcOperation, ExternalLinearPermuteOperation, SBoxOperation};
use crate::field::{P, all_felts, fadd, fe, felt, fmul, lemma_fe_add, lemma_fe_gated, lemma_fe_mul};
use crate::sink::ConstraintSink;
use vstd::prelude::*;

verus! {

/// Entry `(r, c)` of the circulant matrix `circ(2, 3, 1, 1)` applied to each
/// block of four words.
pub open spec fn m4(r: int, c: int) -> int {
    let d = (c - r + 4) % 4;
    if d == 0 {
        2
    } else if d == 1 {
        3
    } else {
        1
    }
}

/// Word `i` of `x` after the 4×4 matrix is applied to its block.
pub open spec fn mat4_at(x: Seq<u32>, i: int) -> int {
    let b = i - i % 4;
    let r = i % 4;
    m4(r, 0) * x[b] + m4(r, 1) * x[b + 1] + m4(r, 2) * x[b + 2] + m4(r, 3) * x[b + 3]
}

/// `Σ_{k < m} mat4_at(x, 4k + r)`.
pub open spec fn column_sum(x: Seq<u32>, r: int, m: int) -> int
    decreases m,
{
    if m <= 0 {
        0
    } else {
        column_sum(x, r, m - 1) + mat4_at(x, 4 * (m - 1) + r)
    }
}

/// Word `w` of the external linear layer applied to `x`: the block matrix
/// with `2·M4` on the diagonal and `M4` elsewhere.
pub open spec fn linear_layer(x: Seq<u32>, w: int) -> int {
    fe(mat4_at(x, w) + column_sum(x, w % 4, x.len() as int / 4))
}

/// The S-box `x^7`.
pub open spec fn sbox(x: int) -> int {
    fe(x * x * x * x * x * x * x)
}

/// One full external round applied to `state` with constants `rc`.
pub open spec fn external_round(state: Seq<u32>, rc: Seq<u32>) -> Seq<u32> {
    let s = Seq::new(state.len(), |w: int| sbox(state[w] + rc[w]) as u32);
    Seq::new(state.len(), |w: int| linear_layer(s, w) as u32)
}

fn m4_entry(r: usize, c: usize) -> (e: u32)
    requires
        r < 4,
        c < 4,
    ensures
        e == m4(r as int, c as int),
{
    let d = (c + 4 - r) % 4;
    if d == 0 {
        2
    } else if d == 1 {
        3
    } else {
        1
    }
}

/// `c0·a + c1·b + c2·c + c3·d` in the field, for small coefficients.
fn lin4(c0: u32, c1: u32, c2: u32, c3: u32, a: u32, b: u32, c: u32, d: u32) -> (r: u32)
    requires
        c0 <= 3,
        c1 <= 3,
        c2 <= 3,
        c3 <= 3,
        a < P,
        b < P,
        c < P,
        d < P,
    ensures
        r as int == fe(c0 * a + c1 * b + c2 * c + c3 * d),
        r < P,
{
    assert(c0 * a <= 3 * P && c1 * b <= 3 * P && c2 * c <= 3 * P && c3 * d <= 3 * P) by (nonlinear_arith)
        requires
            c0 <= 3,
            c1 <= 3,
            c2 <= 3,
            c3 <= 3,
            a < P,
            b < P,
            c < P,
            d < P,
    ;
    let s: u64 = c0 as u64 * a as u64 + c1 as u64 * b as u64 + c2 as u64 * c as u64 + c3 as u64 * d as u64;
    (s % (P as u64)) as u32
}

impl AddRcOperation {
    /// Residual of `result[w] == input[w] + rc[w]` under `gate`.
    pub open spec fn residual(input: Seq<u32>, rc: Seq<u32>, cols: &AddRcOperation, gate: u32, w: int) -> u32 {
        felt(gate * (input[w] + rc[w] - cols.result@[w]))
    }

    /// Checks that `cols.result` is `input` plus the round constants.
    pub fn eval(sink: &mut ConstraintSink, input: &Vec<u32>, rc: &Vec<u32>, cols: &AddRcOperation, gate: u32)
        requires
            input@.len() == rc@.len(),
            cols.result@.len() == input@.len(),
            all_felts(input@),
            all_felts(rc@),
            all_felts(cols.result@),
            gate < P,
        ensures
            final(sink).residuals@ == old(sink).residuals@ + Seq::new(
                input@.len(),
                |w: int| Self::residual(input@, rc@, cols, gate, w),
            ),
            final(sink).accesses@ == old(sink).accesses@,
    {
        let ghost start = sink.residuals@;
        let n = input.len();
        let mut w: usize = 0;
        while w < n
            invariant
                n == input@.len(),
                input@.len() == rc@.len(),
                cols.result@.len() == n,
                all_felts(input@),
                all_felts(rc@),
                all_felts(cols.result@),
                gate < P,
                0 <= w <= n,
                sink.residuals@ == start + Seq::new(w as nat, |t: int| Self::residual(input@, rc@, cols, gate, t)),
                sink.accesses@ == old(sink).accesses@,
            decreases n - w,
        {
            let s = fadd(input[w], rc[w]);
            sink.assert_eq_when(gate, s, cols.result[w]);
            proof {
                lemma_fe_gated(gate as int, input@[w as int] + rc@[w as int], cols.result@[w as int] as int);
            }
            assert(sink.residuals@ =~= start + Seq::new((w + 1) as nat, |t: int| Self::residual(input@, rc@, cols, gate, t)));
            w = w + 1;
        }
    }
}

impl SBoxOperation {
    /// Residual of `cube[w] == x^3` under `gate`.
    pub open spec fn cube_residual(input: Seq<u32>, cols: &SBoxOperation, gate: u32, w: int) -> u32 {
        felt(gate * (input[w] * input[w] * input[w] - cols.cube@[w]))
    }

    /// Residual of `result[w] == cube[w]^2 · x` under `gate`.
    pub open spec fn result_residual(input: Seq<u32>, cols: &SBoxOperation, gate: u32, w: int) -> u32 {
        felt(gate * (cols.cube@[w] * cols.cube@[w] * input[w] - cols.result@[w]))
    }

    /// Checks that `cols.result` is `input` raised to the seventh power,
    /// through the committed cubes.
    pub fn eval(sink: &mut ConstraintSink, input: &Vec<u32>, cols: &SBoxOperation, gate: u32)
        requires
            cols.cube@.len() == input@.len(),
            cols.result@.len() == input@.len(),
            all_felts(input@),
            all_felts(cols.cube@),
            all_felts(cols.result@),
            gate < P,
        ensures
            final(sink).residuals@ == old(sink).residuals@
                + Seq::new(input@.len(), |w: int| Self::cube_residual(input@, cols, gate, w))
                + Seq::new(input@.len(), |w: int| Self::result_residual(input@, cols, gate, w)),
            final(sink).accesses@ == old(sink).accesses@,
    {
        let ghost start = sink.residuals@;
        let n = input.len();
        let mut w: usize = 0;
        while w < n
            invariant
                n == input@.len(),
                cols.cube@.len() == n,
                all_felts(input@),
                all_felts(cols.cube@),
                gate < P,
                0 <= w <= n,
                sink.residuals@ == start + Seq::new(w as nat, |t: int| Self::cube_residual(input@, cols, gate, t)),
                sink.accesses@ == old(sink).accesses@,
            decreases n - w,
        {
            let x = input[w];
            let x2 = fmul(x, x);
            let x3 = fmul(x2, x);
            sink.assert_eq_when(gate, x3, cols.cube[w]);
            proof {
                lemma_fe_mul(x * x, x as int);
                lemma_fe_gated(gate as int, x * x * x, cols.cube@[w as int] as int);
            }
            assert(sink.residuals@ =~= start + Seq::new((w + 1) as nat, |t: int| Self::cube_residual(input@, cols, gate, t)));
            w = w + 1;
        }
        let ghost mid = sink.residuals@;
        let mut w: usize = 0;
        while w < n
            invariant
                n == input@.len(),
                cols.cube@.len() == n,
                cols.result@.len() == n,
                all_felts(input@),
                all_felts(cols.cube@),
                all_felts(cols.result@),
                gate < P,
                0 <= w <= n,
                sink.residuals@ == mid + Seq::new(w as nat, |t: int| Self::result_residual(input@, cols, gate, t)),
                sink.accesses@ == old(sink).accesses@,
            decreases n - w,
        {
            let c = cols.cube[w];
            let c2 = fmul(c, c);
            let x7 = fmul(c2, input[w]);
            sink.assert_eq_when(gate, x7, cols.result[w]);
            proof {
                lemma_fe_mul(c * c, input@[w as int] as int);
                lemma_fe_gated(gate as int, c * c * input@[w as int], cols.result@[w as int] as int);
            }
            assert(sink.residuals@ =~= mid + Seq::new((w + 1) as nat, |t: int| Self::result_residual(input@, cols, gate, t)));
            w = w + 1;
        }
    }
}

impl ExternalLinearPermuteOperation {
    /// Residual of `result[w] == linear_layer(input, w)` under `gate`.
    pub open spec fn residual(input: Seq<u32>, cols: &ExternalLinearPermuteOperation, gate: u32, w: int) -> u32 {
        felt(gate * (linear_layer(input, w) - cols.result@[w]))
    }

    /// Checks that `cols.result` is the external linear layer applied to `input`.
    pub fn eval(sink: &mut ConstraintSink, input: &Vec<u32>, cols: &ExternalLinearPermuteOperation, gate: u32)
        requires
            input@.len() % 4 == 0,
            input@.len() <= crate::air::MAX_WORDS,
            cols.result@.len() == input@.len(),
            all_felts(input@),
            all_felts(cols.result@),
            gate < P,
        ensures
            final(sink).residuals@ == old(sink).residuals@ + Seq::new(
                input@.len(),
                |w: int| Self::residual(input@, cols, gate, w),
            ),
            final(sink).accesses@ == old(sink).accesses@,
    {
        let n = input.len();
        let ghost x = input@;
        let mut blocks: Vec<u32> = Vec::new();
        let mut i: usize = 0;
        while i < n
            invariant
                n == x.len(),
                x == input@,
                n % 4 == 0,
                all_felts(x),
                0 <= i <= n,
                blocks@.len() == i,
                forall|t: int| 0 <= t < i ==> #[trigger] blocks@[t] as int == fe(mat4_at(x, t)) && blocks@[t] < P,
            decreases n - i,
        {
            let r = i % 4;
            let b = i - r;
            let v = lin4(
                m4_entry(r, 0),
                m4_entry(r, 1),
                m4_entry(r, 2),
                m4_entry(r, 3),
                input[b],
                input[b + 1],
                input[b + 2],
                input[b + 3],
            );
            blocks.push(v);
            i = i + 1;
        }
        let mut sums: Vec<u32> = Vec::new();
        let mut r: usize = 0;
        while r < 4
            invariant
                n == x.len(),
                n % 4 == 0,
                blocks@.len() == n,
                forall|t: int| 0 <= t < n ==> #[trigger] blocks@[t] as int == fe(mat4_at(x, t)) && blocks@[t] < P,
                0 <= r <= 4,
                sums@.len() == r,
                forall|t: int| 0 <= t < r ==> #[trigger] sums@[t] as int == fe(column_sum(x, t, n as int / 4)) && sums@[t] < P,
            decreases 4 - r,
        {
            let mut acc: u32 = 0;
            let mut k: usize = 0;
            while k < n / 4
                invariant
                    n == x.len(),
                    n % 4 == 0,
                    blocks@.len() == n,
                    forall|t: int| 0 <= t < n ==> #[trigger] blocks@[t] as int == fe(mat4_at(x, t)) && blocks@[t] < P,
                    r < 4,
                    0 <= k <= n / 4,
                    acc as int == fe(column_sum(x, r as int, k as int)),
                    acc < P,
                decreases n / 4 - k,
            {
                let v = blocks[4 * k + r];
                proof {
                    lemma_fe_add(column_sum(x, r as int, k as int), mat4_at(x, 4 * k + r));
                }
                acc = fadd(acc, v);
                k = k + 1;
            }
            sums.push(acc);
            r = r + 1;
        }
        let ghost start = sink.residuals@;
        let mut w: usize = 0;
        while w < n
            invariant
                n == x.len(),
                x == input@,
                n % 4 == 0,
                cols.result@.len() == n,
                all_felts(cols.result@),
                gate < P,
                blocks@.len() == n,
                forall|t: int| 0 <= t < n ==> #[trigger] blocks@[t] as int == fe(mat4_at(x, t)) && blocks@[t] < P,
                sums@.len() == 4,
                forall|t: int| 0 <= t < 4 ==> #[trigger] sums@[t] as int == fe(column_sum(x, t, n as int / 4)) && sums@[t] < P,
                0 <= w <= n,
                sink.residuals@ == start + Seq::new(w as nat, |t: int| Self::residual(x, cols, gate, t)),
                sink.accesses@ == old(sink).accesses@,
            decreases n - w,
        {
            let y = fadd(blocks[w], sums[w % 4]);
            proof {
                lemma_fe_add(mat4_at(x, w as int), column_sum(x, w as int % 4, n as int / 4));
                lemma_fe_gated(gate as int, mat4_at(x, w as int) + column_sum(x, w as int % 4, n as int / 4), cols.result@[w as int] as int);
            }
            sink.assert_eq_when(gate, y, cols.result[w]);
            assert(sink.residuals@ =~= start + Seq::new((w + 1) as nat, |t: int| Self::residual(x, cols, gate, t)));
            w = w + 1;
        }
    }
}

} // verus!
