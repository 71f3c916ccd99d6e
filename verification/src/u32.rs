//! 32-bit wires and their bits.

use vstd::prelude::*;
use crate::circuit::{bit_of, val, BoolTarget, CircuitBuilder, Gate, Target, LIMB_BITS};

verus! {

/// A wire that is meant to hold a value below `2^32`.
#[derive(Clone, Copy, Debug)]
pub struct U32Target(pub Target);

/// `2^32`, the bound of a 32-bit wire.
pub open spec fn two_32() -> int {
    0x1_0000_0000
}

impl CircuitBuilder {
    /// A wire that holds bit `i` of `x`; constrains `x` to fit in 32 bits.
    pub fn bit(&mut self, x: Target, i: u64) -> (out: BoolTarget)
        requires
            old(self).wf(),
            old(self).has(x),
            i < LIMB_BITS,
        ensures
            final(self).adds(old(self), (Gate::Bit { x, i }), out.target),
            forall|w: Seq<u64>| #[trigger]
                final(self).defines(w) <==> old(self).defines(w) && w.len() > out.target.index
                    && val(w, out.target) == bit_of(w[x.index as int], i),
            forall|w: Seq<u64>| #[trigger]
                final(self).accepts(w) <==> old(self).accepts(w) && val(w, x) < two_32(),
    {
        BoolTarget { target: self.gate_out(Gate::Bit { x, i }) }
    }

    /// The 32 bits of `x`, the least significant first. The circuit is
    /// satisfied only where `x` is below `2^32`.
    pub fn u32_to_bits_le(&mut self, x: U32Target) -> (bits: Vec<BoolTarget>)
        requires
            old(self).wf(),
            old(self).has(x.0),
        ensures
            final(self).grows(old(self)),
            bits@.len() == 32,
            forall|k: int| 0 <= k < 32 ==> final(self).has((#[trigger] bits@[k]).target),
            forall|w: Seq<u64>| #[trigger]
                final(self).defines(w) ==> old(self).defines(w) && forall|k: int|
                    0 <= k < 32 ==> val(w, (#[trigger] bits@[k]).target) == bit_of(
                        w[x.0.index as int],
                        k as u64,
                    ),
            forall|w: Seq<u64>| #[trigger]
                final(self).accepts(w) <==> old(self).accepts(w) && val(w, x.0) < two_32(),
    {
        let ghost start = *self;
        let mut bits: Vec<BoolTarget> = Vec::new();
        let first = self.bit(x.0, 0);
        bits.push(first);
        let mut i: u64 = 1;
        while i < 32
            invariant
                1 <= i <= 32,
                self.grows(&start),
                start.has(x.0),
                bits@.len() == i,
                forall|k: int| 0 <= k < i ==> self.has((#[trigger] bits@[k]).target),
                forall|w: Seq<u64>| #[trigger]
                    self.defines(w) ==> start.defines(w) && forall|k: int|
                        0 <= k < i ==> val(w, (#[trigger] bits@[k]).target) == bit_of(
                            w[x.0.index as int],
                            k as u64,
                        ),
                forall|w: Seq<u64>| #[trigger]
                    self.accepts(w) <==> start.accepts(w) && val(w, x.0) < two_32(),
            decreases 32 - i,
        {
            let b = self.bit(x.0, i);
            bits.push(b);
            i = i + 1;
        }
        bits
    }
}

} // verus!
