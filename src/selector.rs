//! Linear combinations over the one-hot round selector.

use crate::field::{P, all_felts, fadd, fe, fmul, lemma_fe_add};
use vstd::prelude::*;

verus! {

/// `Σ_{i < n} sel[i] · w[i]`.
pub open spec fn dot(sel: Seq<u32>, w: Seq<u32>, n: int) -> int
    decreases n,
{
    if n <= 0 {
        0
    } else {
        dot(sel, w, n - 1) + sel[n - 1] * w[n - 1]
    }
}

/// Exactly the `k`-th entry is 1, the others 0.
pub open spec fn is_one_hot(sel: Seq<u32>, k: int) -> bool {
    &&& 0 <= k < sel.len()
    &&& forall|i: int| 0 <= i < sel.len() ==> #[trigger] sel[i] == (if i == k { 1u32 } else { 0u32 })
}

/// The weights `0, 1, ..., n - 1`.
pub open spec fn indices(n: nat) -> Seq<u32> {
    Seq::new(n, |i: int| i as u32)
}

/// `n` weights equal to 1.
pub open spec fn ones(n: nat) -> Seq<u32> {
    Seq::new(n, |i: int| 1u32)
}

/// The field element `Σ sel[i] · w[i]`.
pub fn combine(sel: &Vec<u32>, w: &Vec<u32>) -> (r: u32)
    requires
        sel@.len() == w@.len(),
        all_felts(sel@),
        all_felts(w@),
    ensures
        r as int == fe(dot(sel@, w@, sel@.len() as int)),
        r < P,
{
    let mut acc: u32 = 0;
    let mut i: usize = 0;
    while i < sel.len()
        invariant
            sel@.len() == w@.len(),
            all_felts(sel@),
            all_felts(w@),
            0 <= i <= sel@.len(),
            acc as int == fe(dot(sel@, w@, i as int)),
            acc < P,
        decreases sel@.len() - i,
    {
        let t = fmul(sel[i], w[i]);
        proof {
            lemma_fe_add(dot(sel@, w@, i as int), sel@[i as int] * w@[i as int]);
        }
        acc = fadd(acc, t);
        i = i + 1;
    }
    acc
}

/// A one-hot selector picks out the weight of its set entry.
pub proof fn lemma_dot_one_hot(sel: Seq<u32>, w: Seq<u32>, k: int, n: int)
    requires
        is_one_hot(sel, k),
        w.len() == sel.len(),
        0 <= n <= sel.len(),
    ensures
        dot(sel, w, n) == (if k < n { w[k] as int } else { 0 }),
    decreases n,
{
    if n > 0 {
        lemma_dot_one_hot(sel, w, k, n - 1);
        assert(sel[n - 1] == (if n - 1 == k { 1u32 } else { 0u32 }));
    }
}

/// A sum of 0/1 entries with two set entries among the first `n` is at least 2
/// and at most `n`.
pub proof fn lemma_count_two_set(sel: Seq<u32>, a: int, b: int, n: int)
    requires
        0 <= n <= sel.len(),
        forall|i: int| 0 <= i < sel.len() ==> #[trigger] sel[i] <= 1,
        0 <= a < n,
        0 <= b < n,
        a != b,
        sel[a] == 1,
        sel[b] == 1,
    ensures
        2 <= dot(sel, ones(sel.len()), n) <= n,
    decreases n,
{
    lemma_count_bounded(sel, n - 1);
    assert(ones(sel.len())[n - 1] == 1u32);
    assert(sel[n - 1] <= 1);
    if a == n - 1 || b == n - 1 {
        let c = if a == n - 1 { b } else { a };
        lemma_count_one_set(sel, c, n - 1);
    } else {
        lemma_count_two_set(sel, a, b, n - 1);
    }
}

/// A sum of 0/1 entries with a set entry among the first `n` is at least 1.
pub proof fn lemma_count_one_set(sel: Seq<u32>, a: int, n: int)
    requires
        0 <= n <= sel.len(),
        forall|i: int| 0 <= i < sel.len() ==> #[trigger] sel[i] <= 1,
        0 <= a < n,
        sel[a] == 1,
    ensures
        1 <= dot(sel, ones(sel.len()), n),
    decreases n,
{
    lemma_count_bounded(sel, n - 1);
    if a != n - 1 {
        lemma_count_one_set(sel, a, n - 1);
    }
}

/// A sum of `n` entries of 0/1 lies in `[0, n]`.
pub proof fn lemma_count_bounded(sel: Seq<u32>, n: int)
    requires
        0 <= n <= sel.len(),
        forall|i: int| 0 <= i < sel.len() ==> #[trigger] sel[i] <= 1,
    ensures
        0 <= dot(sel, ones(sel.len()), n) <= n,
    decreases n,
{
    if n > 0 {
        lemma_count_bounded(sel, n - 1);
        assert(sel[n - 1] <= 1);
    }
}

} // verus!
