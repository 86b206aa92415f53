//! Arithmetic in the prime field of order `P` on canonical `u32` values.

use vstd::arithmetic::div_mod::{lemma_add_mod_noop, lemma_mod_add_multiples_vanish, lemma_mul_mod_noop, lemma_sub_mod_noop};
use vstd::prelude::*;

verus! {

/// The BabyBear prime, `15 * 2^27 + 1`.
pub const P: u32 = 2013265921;

/// The canonical representative of `x` in `[0, P)`.
pub open spec fn fe(x: int) -> int {
    x % (P as int)
}

/// The canonical representative of `x`, as a machine word.
pub open spec fn felt(x: int) -> u32 {
    fe(x) as u32
}

/// A value that stands for a field element.
pub open spec fn is_felt(x: u32) -> bool {
    x < P
}

/// Every entry of `s` is a canonical field element.
pub open spec fn all_felts(s: Seq<u32>) -> bool {
    forall|i: int| 0 <= i < s.len() ==> #[trigger] s[i] < P
}

/// Field addition.
pub fn fadd(a: u32, b: u32) -> (r: u32)
    requires
        a < P,
        b < P,
    ensures
        r as int == fe(a + b),
        r < P,
{
    ((a as u64 + b as u64) % (P as u64)) as u32
}

/// Field subtraction.
pub fn fsub(a: u32, b: u32) -> (r: u32)
    requires
        a < P,
        b < P,
    ensures
        r as int == fe(a - b),
        r < P,
{
    proof {
        lemma_mod_add_multiples_vanish(a - b, P as int);
    }
    ((a as u64 + P as u64 - b as u64) % (P as u64)) as u32
}

/// Field multiplication.
pub fn fmul(a: u32, b: u32) -> (r: u32)
    requires
        a < P,
        b < P,
    ensures
        r as int == fe(a * b),
        r < P,
{
    let x: u64 = a as u64;
    let y: u64 = b as u64;
    assert(x * y < 0x1_0000_0000_0000_0000) by (nonlinear_arith)
        requires
            x < 0x1_0000_0000,
            y < 0x1_0000_0000,
    ;
    ((x * y) % (P as u64)) as u32
}

/// Reducing the operands of a sum first does not change the reduced sum.
pub proof fn lemma_fe_add(x: int, y: int)
    ensures
        fe(fe(x) + fe(y)) == fe(x + y),
        fe(fe(x) + y) == fe(x + y),
        fe(x + fe(y)) == fe(x + y),
{
    lemma_add_mod_noop(x, y, P as int);
    lemma_add_mod_noop(fe(x), y, P as int);
    lemma_add_mod_noop(x, fe(y), P as int);
    assert(fe(fe(x)) == fe(x)) by {
        vstd::arithmetic::div_mod::lemma_mod_twice(x, P as int);
    }
    assert(fe(fe(y)) == fe(y)) by {
        vstd::arithmetic::div_mod::lemma_mod_twice(y, P as int);
    }
}

/// Reducing the operands of a difference first does not change the reduced difference.
pub proof fn lemma_fe_sub(x: int, y: int)
    ensures
        fe(fe(x) - fe(y)) == fe(x - y),
        fe(fe(x) - y) == fe(x - y),
        fe(x - fe(y)) == fe(x - y),
{
    lemma_sub_mod_noop(x, y, P as int);
    lemma_fe_add(x, -y);
    lemma_fe_add(-y, x);
    lemma_sub_mod_noop(fe(x), y, P as int);
    lemma_sub_mod_noop(x, fe(y), P as int);
    vstd::arithmetic::div_mod::lemma_mod_twice(x, P as int);
    vstd::arithmetic::div_mod::lemma_mod_twice(y, P as int);
}

/// Reducing the operands of a product first does not change the reduced product.
pub proof fn lemma_fe_mul(x: int, y: int)
    ensures
        fe(fe(x) * fe(y)) == fe(x * y),
        fe(fe(x) * y) == fe(x * y),
        fe(x * fe(y)) == fe(x * y),
{
    lemma_mul_mod_noop(x, y, P as int);
    lemma_mul_mod_noop(fe(x), y, P as int);
    lemma_mul_mod_noop(x, fe(y), P as int);
    vstd::arithmetic::div_mod::lemma_mod_twice(x, P as int);
    vstd::arithmetic::div_mod::lemma_mod_twice(y, P as int);
}

/// A gated difference may reduce its left operand first.
pub proof fn lemma_fe_gated(g: int, x: int, y: int)
    ensures
        fe(g * (fe(x) - y)) == fe(g * (x - y)),
{
    lemma_fe_sub(x, y);
    lemma_fe_mul(g, fe(x) - y);
    lemma_fe_mul(g, x - y);
}

/// A canonical value is its own representative, and two canonical values
/// differ by a multiple of `P` only when they are equal.
pub proof fn lemma_fe_canonical(a: int, b: int)
    requires
        0 <= a < P,
        0 <= b < P,
    ensures
        fe(a) == a,
        fe(a - b) == 0 <==> a == b,
{
    vstd::arithmetic::div_mod::lemma_small_mod(a as nat, P as nat);
    if a >= b {
        vstd::arithmetic::div_mod::lemma_small_mod((a - b) as nat, P as nat);
    } else {
        lemma_mod_add_multiples_vanish(a - b, P as int);
        vstd::arithmetic::div_mod::lemma_small_mod((a - b + P) as nat, P as nat);
    }
}

} // verus!
