//! Witnesses: the values of all wires of a circuit, computed from the
//! values of its inputs, and the check that they meet its constraints.

use vstd::prelude::*;
use crate::circuit::{gate_accepts, gate_defines, gate_value, gate_wf, CircuitBuilder, Gate};
use crate::field::{exec_choose_by, exec_diff, exec_either, exec_mul_add};

verus! {

/// Whether `w` gives every input wire of `c` the value that `inputs` holds
/// at the wire's slot.
pub open spec fn takes_inputs(c: &CircuitBuilder, w: Seq<u64>, inputs: Seq<u64>) -> bool {
    forall|i: int|
        0 <= i < c.len() ==> match #[trigger] c.gates()[i] {
            Gate::Input { slot, limit } => w[i] == inputs[slot as int],
            _ => true,
        }
}

/// The value that `g` defines under the values `w` of the wires before it.
fn compute_gate(g: Gate, w: &Vec<u64>, inputs: &Vec<u64>) -> (v: u64)
    requires
        gate_wf(g, w@.len() as int, inputs@.len() as int),
    ensures
        g is Input ==> v == inputs@[g->slot as int],
        !(g is Input) ==> v as int == gate_value(g, w@),
{
    match g {
        Gate::Input { slot, limit } => inputs[slot],
        Gate::Constant { value } => value,
        Gate::U64Constant { value } => value,
        Gate::MulConstAdd { c, x, y } => exec_mul_add(c, w[x.index], w[y.index]),
        Gate::Sub { x, y } => exec_diff(w[x.index], w[y.index]),
        Gate::IsEqual { x, y } => if w[x.index] == w[y.index] {
            1
        } else {
            0
        },
        Gate::Select { b, x, y } => exec_choose_by(w[b.index], w[x.index], w[y.index]),
        Gate::Or { x, y } => exec_either(w[x.index], w[y.index]),
        Gate::Bit { x, i } => (w[x.index] >> i) & 1,
        Gate::U64Add { x, y } => {
            let sum: u128 = (w[x.index] as u128) + (w[y.index] as u128);
            (sum % 0x1_0000_0000_0000_0000u128) as u64
        },
        Gate::U64Sub { x, y } => {
            let shifted: u128 = (w[x.index] as u128) + 0x1_0000_0000_0000_0000u128 - (
            w[y.index] as u128);
            (shifted % 0x1_0000_0000_0000_0000u128) as u64
        },
        Gate::U64Byte { x, k } => (w[x.index] >> (8 * (7 - k))) & 0xff,
        Gate::AssertEqual { x, y } => 0,
    }
}

/// Whether `w` meets the constraint of gate `g`, which stands at wire `i`.
fn check_gate(g: Gate, i: usize, w: &Vec<u64>, Ghost(slots): Ghost<int>) -> (ok: bool)
    requires
        i < w@.len(),
        gate_wf(g, i as int, slots),
    ensures
        ok == gate_accepts(g, i as int, w@),
{
    match g {
        Gate::Input { slot, limit } => w[i] <= limit,
        Gate::Bit { x, i } => w[x.index] < 0x1_0000_0000,
        Gate::U64Sub { x, y } => w[x.index] >= w[y.index],
        Gate::AssertEqual { x, y } => w[x.index] == w[y.index],
        _ => true,
    }
}

impl CircuitBuilder {
    /// The values of all wires, where the inputs take the values `inputs`,
    /// one for each slot.
    pub fn generate_witness(&self, inputs: &Vec<u64>) -> (w: Vec<u64>)
        requires
            self.wf(),
            inputs@.len() == self.slots(),
        ensures
            w@.len() == self.len(),
            self.defines(w@),
            takes_inputs(self, w@, inputs@),
    {
        let n = self.num_wires();
        let mut w: Vec<u64> = Vec::new();
        let mut i: usize = 0;
        while i < n
            invariant
                i <= n,
                n == self.len(),
                self.wf(),
                inputs@.len() == self.slots(),
                w@.len() == i,
                forall|j: int| 0 <= j < i ==> gate_defines(#[trigger] self.gates()[j], j, w@),
                forall|j: int|
                    0 <= j < i ==> match #[trigger] self.gates()[j] {
                        Gate::Input { slot, limit } => w@[j] == inputs@[slot as int],
                        _ => true,
                    },
            decreases n - i,
        {
            let g = self.gate(i);
            assert(gate_wf(self.gates()[i as int], i as int, self.slots()));
            let ghost before = w@;
            let v = compute_gate(g, &w, inputs);
            w.push(v);
            proof {
                assert forall|j: int| 0 <= j < i + 1 implies gate_defines(
                    #[trigger] self.gates()[j],
                    j,
                    w@,
                ) by {
                    assert(gate_wf(self.gates()[j], j, self.slots()));
                    if j < i {
                        assert(gate_defines(self.gates()[j], j, before));
                    }
                    lemma_value_of_prefix(self.gates()[j], j, self.slots(), before, w@);
                }
                assert forall|j: int| 0 <= j < i + 1 implies match #[trigger] self.gates()[j] {
                    Gate::Input { slot, limit } => w@[j] == inputs@[slot as int],
                    _ => true,
                } by {
                    if j < i {
                        assert(match self.gates()[j] {
                            Gate::Input { slot, limit } => before[j] == inputs@[slot as int],
                            _ => true,
                        });
                    }
                }
            }
            i = i + 1;
        }
        w
    }

    /// Whether the values `w` of the wires meet every constraint.
    pub fn is_satisfied(&self, w: &Vec<u64>) -> (ok: bool)
        requires
            self.wf(),
            w@.len() == self.len(),
        ensures
            ok == self.accepts(w@),
    {
        let n = self.num_wires();
        let mut ok = true;
        let mut i: usize = 0;
        while i < n
            invariant
                i <= n,
                n == self.len(),
                self.wf(),
                w@.len() == self.len(),
                ok == (forall|j: int| 0 <= j < i ==> gate_accepts(#[trigger] self.gates()[j], j, w@)),
            decreases n - i,
        {
            let g = self.gate(i);
            assert(gate_wf(self.gates()[i as int], i as int, self.slots()));
            let here = check_gate(g, i, w, Ghost(self.slots()));
            ok = ok && here;
            i = i + 1;
        }
        ok
    }
}

/// A gate reads only the wires that stand before it: what it defines under
/// `longer` is what it defines under `shorter`, where the two agree below `n`.
proof fn lemma_value_of_prefix(g: Gate, n: int, slots: int, shorter: Seq<u64>, longer: Seq<u64>)
    requires
        gate_wf(g, n, slots),
        0 <= n <= shorter.len() <= longer.len(),
        forall|k: int| 0 <= k < shorter.len() ==> shorter[k] == longer[k],
    ensures
        gate_value(g, shorter) == gate_value(g, longer),
{
}

/// A circuit computes: two assignments that both give every wire but the
/// inputs the value that its gate defines, and that agree on the inputs,
/// agree on every wire.
pub proof fn lemma_witness_unique(c: &CircuitBuilder, w1: Seq<u64>, w2: Seq<u64>, i: int)
    requires
        c.wf(),
        c.defines(w1),
        c.defines(w2),
        forall|k: int| 0 <= k < c.len() && #[trigger] c.gates()[k] is Input ==> w1[k] == w2[k],
        0 <= i < c.len(),
    ensures
        w1[i] == w2[i],
    decreases i,
{
    let g = c.gates()[i];
    assert(gate_wf(g, i, c.slots()));
    assert(gate_defines(g, i, w1));
    assert(gate_defines(g, i, w2));
    match g {
        Gate::Input { slot, limit } => {},
        Gate::Constant { value } => {},
        Gate::U64Constant { value } => {},
        Gate::MulConstAdd { c: k, x, y } => {
            lemma_witness_unique(c, w1, w2, x.index as int);
            lemma_witness_unique(c, w1, w2, y.index as int);
        },
        Gate::Sub { x, y } => {
            lemma_witness_unique(c, w1, w2, x.index as int);
            lemma_witness_unique(c, w1, w2, y.index as int);
        },
        Gate::IsEqual { x, y } => {
            lemma_witness_unique(c, w1, w2, x.index as int);
            lemma_witness_unique(c, w1, w2, y.index as int);
        },
        Gate::Select { b, x, y } => {
            lemma_witness_unique(c, w1, w2, b.index as int);
            lemma_witness_unique(c, w1, w2, x.index as int);
            lemma_witness_unique(c, w1, w2, y.index as int);
        },
        Gate::Or { x, y } => {
            lemma_witness_unique(c, w1, w2, x.index as int);
            lemma_witness_unique(c, w1, w2, y.index as int);
        },
        Gate::Bit { x, i: k } => {
            lemma_witness_unique(c, w1, w2, x.index as int);
        },
        Gate::U64Add { x, y } => {
            lemma_witness_unique(c, w1, w2, x.index as int);
            lemma_witness_unique(c, w1, w2, y.index as int);
        },
        Gate::U64Sub { x, y } => {
            lemma_witness_unique(c, w1, w2, x.index as int);
            lemma_witness_unique(c, w1, w2, y.index as int);
        },
        Gate::U64Byte { x, k } => {
            lemma_witness_unique(c, w1, w2, x.index as int);
        },
        Gate::AssertEqual { x, y } => {},
    }
}

} // verus!
