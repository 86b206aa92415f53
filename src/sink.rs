//! Where constraints go: the residual of every polynomial identity that a row
//! must satisfy, and the memory transactions that it asks the memory argument
//! to account for.

use crate::field::{P, felt, fmul, fsub};
use vstd::prelude::*;

verus! {

/// One memory transaction handed to the memory argument. A zero
/// `multiplicity` asks nothing of it.
#[derive(Clone, Copy, Debug, PartialEq, Eq)]
pub struct MemoryAccess {
    pub segment: u32,
    pub clk: u32,
    pub addr: u32,
    pub value: [u32; 4],
    pub multiplicity: u32,
}

/// Collects the constraints emitted while a row window is evaluated.
pub struct ConstraintSink {
    /// One entry per identity: its value on the row, zero when it holds.
    pub residuals: Vec<u32>,
    /// The memory transactions, in the order they were emitted.
    pub accesses: Vec<MemoryAccess>,
}

/// Every identity in `s` holds.
pub open spec fn all_zero(s: Seq<u32>) -> bool {
    forall|i: int| 0 <= i < s.len() ==> #[trigger] s[i] == 0
}

impl ConstraintSink {
    /// An empty sink.
    pub fn new() -> (r: ConstraintSink)
        ensures
            r.residuals@ == Seq::<u32>::empty(),
            r.accesses@ == Seq::<MemoryAccess>::empty(),
    {
        ConstraintSink { residuals: Vec::new(), accesses: Vec::new() }
    }

    /// Asserts `a == b`.
    pub fn assert_eq(&mut self, a: u32, b: u32)
        requires
            a < P,
            b < P,
        ensures
            final(self).residuals@ == old(self).residuals@.push(felt(a - b)),
            final(self).accesses@ == old(self).accesses@,
    {
        let d = fsub(a, b);
        self.residuals.push(d);
    }

    /// Asserts `a == b` wherever `gate` is nonzero.
    pub fn assert_eq_when(&mut self, gate: u32, a: u32, b: u32)
        requires
            gate < P,
            a < P,
            b < P,
        ensures
            final(self).residuals@ == old(self).residuals@.push(felt(gate * (a - b))),
            final(self).accesses@ == old(self).accesses@,
    {
        let d = fsub(a, b);
        let r = fmul(gate, d);
        proof {
            crate::field::lemma_fe_mul(gate as int, a - b);
            crate::field::lemma_fe_canonical(gate as int, 0);
        }
        self.residuals.push(r);
    }

    /// Asserts that `x` is 0 or 1.
    pub fn assert_bool(&mut self, x: u32)
        requires
            x < P,
        ensures
            final(self).residuals@ == old(self).residuals@.push(felt(x * (x - 1))),
            final(self).accesses@ == old(self).accesses@,
    {
        let m = fsub(x, 1);
        let r = fmul(x, m);
        proof {
            crate::field::lemma_fe_mul(x as int, x - 1);
            crate::field::lemma_fe_canonical(x as int, 0);
        }
        self.residuals.push(r);
    }

    /// Hands one memory transaction to the memory argument, weighted by `gate`.
    pub fn constrain_memory_access(&mut self, segment: u32, clk: u32, addr: u32, value: [u32; 4], gate: u32)
        ensures
            final(self).residuals@ == old(self).residuals@,
            final(self).accesses@ == old(self).accesses@.push(
                MemoryAccess { segment, clk, addr, value, multiplicity: gate },
            ),
    {
        self.accesses.push(MemoryAccess { segment, clk, addr, value, multiplicity: gate });
    }

    /// Whether every identity emitted so far holds.
    pub fn is_satisfied(&self) -> (r: bool)
        ensures
            r == all_zero(self.residuals@),
    {
        let mut i: usize = 0;
        while i < self.residuals.len()
            invariant
                0 <= i <= self.residuals@.len(),
                all_zero(self.residuals@.subrange(0, i as int)),
            decreases self.residuals@.len() - i,
        {
            if self.residuals[i] != 0 {
                return false;
            }
            assert(self.residuals@.subrange(0, i + 1) =~= self.residuals@.subrange(0, i as int).push(self.residuals@[i as int]));
            i = i + 1;
        }
        assert(self.residuals@.subrange(0, i as int) =~= self.residuals@);
        true
    }
}

} // verus!
