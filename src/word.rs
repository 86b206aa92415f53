//! The link between a memory word, held as little-endian bytes, and the
//! field element that stands for it.

use crate::field::{P, fadd, fe, fmul, lemma_fe_add, lemma_fe_canonical};
use vstd::arithmetic::div_mod::lemma_fundamental_div_mod_converse;
use vstd::prelude::*;

verus! {

/// Number of byte limbs in a memory word.
pub const WORD_SIZE: usize = 4;

/// The integer that the limbs of a word stand for: `Σ b[i] · 256^i`.
pub open spec fn word_value(b: Seq<u32>) -> int {
    b[0] + 256 * b[1] + 65536 * b[2] + 16777216 * b[3]
}

/// The limbs are all bytes.
pub open spec fn is_byte_word(b: Seq<u32>) -> bool {
    b.len() == WORD_SIZE && forall|i: int| 0 <= i < WORD_SIZE ==> #[trigger] b[i] < 256
}

/// The little-endian bytes of `x`.
pub open spec fn word_bytes(x: u32) -> Seq<u32> {
    seq![x % 256, (x / 256) % 256, (x / 256 / 256) % 256, x / 256 / 256 / 256]
}

/// Composes the limbs of a memory word into one field element.
pub fn compose_word(value: &[u32; 4]) -> (r: u32)
    requires
        forall|i: int| 0 <= i < WORD_SIZE ==> #[trigger] value@[i] < P,
    ensures
        r as int == fe(word_value(value@)),
        r < P,
{
    let b0 = value[0];
    let t1 = fmul(value[1], 256);
    let t2 = fmul(value[2], 65536);
    let t3 = fmul(value[3], 16777216);
    let s1 = fadd(b0, t1);
    let s2 = fadd(s1, t2);
    let r = fadd(s2, t3);
    proof {
        let v = value@;
        lemma_fe_canonical(v[0] as int, 0);
        lemma_fe_add(v[0] as int, 256 * v[1]);
        lemma_fe_add(v[0] + 256 * v[1], 65536 * v[2]);
        lemma_fe_add(v[0] + 256 * v[1] + 65536 * v[2], 16777216 * v[3]);
    }
    r
}

/// Splits a field element into the little-endian bytes of its canonical value.
pub fn decompose_word(x: u32) -> (r: [u32; 4])
    ensures
        r@ == word_bytes(x),
{
    let r = [x % 256, (x / 256) % 256, (x / 256 / 256) % 256, x / 256 / 256 / 256];
    assert(r@ =~= word_bytes(x));
    r
}

/// A word of bytes whose value is below `P`, composed into a field element and
/// split again, gives back its bytes.
pub proof fn lemma_compose_then_decompose(b: Seq<u32>)
    requires
        is_byte_word(b),
        word_value(b) < P,
    ensures
        word_bytes(fe(word_value(b)) as u32) == b,
{
    let x = word_value(b);
    assert(b[0] < 256 && b[1] < 256 && b[2] < 256 && b[3] < 256) by {
        assert(b[0] < 256);
        assert(b[1] < 256);
        assert(b[2] < 256);
        assert(b[3] < 256);
    }
    lemma_fe_canonical(x, 0);
    let q1 = b[1] + 256 * b[2] + 65536 * b[3];
    let q2 = b[2] + 256 * b[3];
    lemma_fundamental_div_mod_converse(x, 256, q1, b[0] as int);
    lemma_fundamental_div_mod_converse(q1, 256, q2, b[1] as int);
    lemma_fundamental_div_mod_converse(q2, 256, b[3] as int, b[2] as int);
    let y = x as u32;
    assert(y / 256 == q1);
    assert(y / 256 / 256 == q2);
    assert(word_bytes(y) =~= b);
}

/// The bytes of a field element, composed again, give back the element.
pub proof fn lemma_decompose_then_compose(x: u32)
    requires
        x < P,
    ensures
        fe(word_value(word_bytes(x))) == x,
        is_byte_word(word_bytes(x)),
{
    let b = word_bytes(x);
    let q1 = x / 256;
    let q2 = q1 / 256;
    let q3 = q2 / 256;
    assert(x == 256 * q1 + x % 256);
    assert(q1 == 256 * q2 + q1 % 256);
    assert(q2 == 256 * q3 + q2 % 256);
    assert(q3 < 256);
    assert(word_value(b) == x);
    lemma_fe_canonical(x as int, 0);
}

} // verus!
