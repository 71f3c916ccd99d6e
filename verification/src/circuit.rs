//! The circuit under construction: numbered wires, the gates that define
//! them, and what it means for an assignment of values to satisfy them.

use vstd::prelude::*;
use crate::field::{choose_by, diff, either, mul_add, same, FIELD_ORDER};

verus! {

/// A wire of the circuit, by its number.
#[derive(Clone, Copy, Debug, PartialEq, Eq, Structural)]
pub struct Target {
    pub index: usize,
}

/// A wire that is meant to hold zero or one.
#[derive(Clone, Copy, Debug, PartialEq, Eq, Structural)]
pub struct BoolTarget {
    pub target: Target,
}

impl BoolTarget {
    /// Takes a wire for a bit without adding a constraint that it is one.
    pub fn new_unsafe(target: Target) -> (b: BoolTarget)
        ensures
            b.target == target,
    {
        BoolTarget { target }
    }
}

/// The number of bits that a 32-bit wire is split into.
pub const LIMB_BITS: u64 = 32;

/// What one gate does. A gate at position `i` of a circuit defines wire `i`.
#[derive(Clone, Copy, Debug)]
pub enum Gate {
    /// A wire whose value the witness supplies; it must not exceed `limit`.
    Input { slot: usize, limit: u64 },
    /// A fixed element of the field.
    Constant { value: u64 },
    /// A fixed 64-bit number.
    U64Constant { value: u64 },
    /// `c * x + y` in the field.
    MulConstAdd { c: u64, x: Target, y: Target },
    /// `x - y` in the field.
    Sub { x: Target, y: Target },
    /// One where `x` and `y` hold the same value, else zero.
    IsEqual { x: Target, y: Target },
    /// `b * x + (1 - b) * y` in the field.
    Select { b: Target, x: Target, y: Target },
    /// `x + y - x * y` in the field.
    Or { x: Target, y: Target },
    /// Bit `i` of `x`, counted from the least significant; `x` must fit in 32 bits.
    Bit { x: Target, i: u64 },
    /// `x + y` modulo `2^64`.
    U64Add { x: Target, y: Target },
    /// `x - y`; the circuit is satisfied only where `x` is not below `y`.
    U64Sub { x: Target, y: Target },
    /// Byte `k` of the eight bytes of `x`, the most significant first.
    U64Byte { x: Target, k: u64 },
    /// Holds zero; the circuit is satisfied only where `x` and `y` are equal.
    AssertEqual { x: Target, y: Target },
}

/// The value that assignment `w` gives to wire `t`.
pub open spec fn val(w: Seq<u64>, t: Target) -> int {
    w[t.index as int] as int
}

/// Bit `i` of `v`, counted from the least significant.
pub open spec fn bit_of(v: u64, i: u64) -> int {
    ((v >> i) & 1) as int
}

/// Byte `k` of the big-endian encoding of `v` in eight bytes.
pub open spec fn be_byte(v: u64, k: u64) -> int {
    ((v >> ((8 * (7 - k)) as u64)) & 0xff) as int
}

/// `2^64`, the modulus of 64-bit wire arithmetic.
pub open spec fn two_64() -> int {
    0x1_0000_0000_0000_0000
}

/// Whether every wire that gate `g` reads has a number below `n`, and its
/// constants are in range. `slots` is the number of input slots.
pub open spec fn gate_wf(g: Gate, n: int, slots: int) -> bool {
    match g {
        Gate::Input { slot, limit } => slot < slots,
        Gate::Constant { value } => value < FIELD_ORDER,
        Gate::U64Constant { value } => true,
        Gate::MulConstAdd { c, x, y } => x.index < n && y.index < n,
        Gate::Sub { x, y } => x.index < n && y.index < n,
        Gate::IsEqual { x, y } => x.index < n && y.index < n,
        Gate::Select { b, x, y } => b.index < n && x.index < n && y.index < n,
        Gate::Or { x, y } => x.index < n && y.index < n,
        Gate::Bit { x, i } => x.index < n && i < LIMB_BITS,
        Gate::U64Add { x, y } => x.index < n && y.index < n,
        Gate::U64Sub { x, y } => x.index < n && y.index < n,
        Gate::U64Byte { x, k } => x.index < n && k < 8,
        Gate::AssertEqual { x, y } => x.index < n && y.index < n,
    }
}

/// The value that gate `g` gives its wire under assignment `w`; for an
/// input, whose value is left open, zero.
pub open spec fn gate_value(g: Gate, w: Seq<u64>) -> int {
    match g {
        Gate::Input { slot, limit } => 0,
        Gate::Constant { value } => value as int,
        Gate::U64Constant { value } => value as int,
        Gate::MulConstAdd { c, x, y } => mul_add(c as int, val(w, x), val(w, y)),
        Gate::Sub { x, y } => diff(val(w, x), val(w, y)),
        Gate::IsEqual { x, y } => same(val(w, x), val(w, y)),
        Gate::Select { b, x, y } => choose_by(val(w, b), val(w, x), val(w, y)),
        Gate::Or { x, y } => either(val(w, x), val(w, y)),
        Gate::Bit { x, i } => bit_of(w[x.index as int], i),
        Gate::U64Add { x, y } => (val(w, x) + val(w, y)) % two_64(),
        Gate::U64Sub { x, y } => (val(w, x) - val(w, y)) % two_64(),
        Gate::U64Byte { x, k } => be_byte(w[x.index as int], k),
        Gate::AssertEqual { x, y } => 0,
    }
}

/// Whether `w` gives wire `i` the value that gate `g` defines for it.
pub open spec fn gate_defines(g: Gate, i: int, w: Seq<u64>) -> bool {
    g is Input || w[i] as int == gate_value(g, w)
}

/// Whether `w` meets the constraint that gate `g`, at wire `i`, imposes.
pub open spec fn gate_accepts(g: Gate, i: int, w: Seq<u64>) -> bool {
    match g {
        Gate::Input { slot, limit } => w[i] <= limit,
        Gate::Bit { x, i } => val(w, x) < 0x1_0000_0000,
        Gate::U64Sub { x, y } => val(w, x) >= val(w, y),
        Gate::AssertEqual { x, y } => val(w, x) == val(w, y),
        _ => true,
    }
}

/// A use of a gadget that this library does not build itself. The wires of
/// its result are inputs of the circuit; whoever realises the circuit ties
/// them to what the gadget computes.
#[derive(Debug)]
pub enum GadgetCall {
    /// The root that a Merkle inclusion proof leads to: the bytes of the
    /// leaf, the sibling hashes from the leaf upward, one bit for each level
    /// that tells on which side the sibling stands, and the 32 bytes of the
    /// root.
    ProofRoot {
        leaf: Vec<Target>,
        aunts: Vec<Vec<Target>>,
        path_indices: Vec<Target>,
        root: Vec<Target>,
    },
    /// The root of the Merkle tree over the given leaves, of which only
    /// those whose flag is one count, and its 32 bytes.
    LeavesRoot { leaves: Vec<Vec<Target>>, enabled: Vec<Target>, root: Vec<Target> },
    /// The check that the header with hash `header` has height `height`,
    /// whose varint takes `byte_length` bytes, by the sibling hashes `aunts`
    /// of the height's leaf.
    BlockHeight { header: Vec<Target>, aunts: Vec<Vec<Target>>, height: Target, byte_length: Target },
}

/// Whether every wire in `ts` has a number below `n`.
pub open spec fn all_below(ts: Seq<Target>, n: int) -> bool {
    forall|k: int| 0 <= k < ts.len() ==> (#[trigger] ts[k]).index < n
}

/// Whether every wire in every row of `rows` has a number below `n`.
pub open spec fn rows_below(rows: Seq<Vec<Target>>, n: int) -> bool {
    forall|i: int| 0 <= i < rows.len() ==> all_below((#[trigger] rows[i])@, n)
}

/// Whether every wire that the call names has a number below `n`.
pub open spec fn call_wf(c: GadgetCall, n: int) -> bool {
    match c {
        GadgetCall::ProofRoot { leaf, aunts, path_indices, root } => {
            &&& all_below(leaf@, n)
            &&& rows_below(aunts@, n)
            &&& all_below(path_indices@, n)
            &&& all_below(root@, n)
        },
        GadgetCall::LeavesRoot { leaves, enabled, root } => {
            &&& rows_below(leaves@, n)
            &&& all_below(enabled@, n)
            &&& all_below(root@, n)
        },
        GadgetCall::BlockHeight { header, aunts, height, byte_length } => {
            &&& all_below(header@, n)
            &&& rows_below(aunts@, n)
            &&& height.index < n
            &&& byte_length.index < n
        },
    }
}

/// A circuit under construction.
pub struct CircuitBuilder {
    gates: Vec<Gate>,
    calls: Vec<GadgetCall>,
    slots: usize,
}

impl CircuitBuilder {
    /// The gates so far; gate `i` defines wire `i`.
    pub closed spec fn gates(&self) -> Seq<Gate> {
        self.gates@
    }

    /// The gadget calls so far.
    pub closed spec fn calls(&self) -> Seq<GadgetCall> {
        self.calls@
    }

    /// The number of values that a witness supplies.
    pub closed spec fn slots(&self) -> int {
        self.slots as int
    }

    /// The number of wires.
    pub open spec fn len(&self) -> int {
        self.gates().len() as int
    }

    /// Whether `t` is a wire of this circuit.
    pub open spec fn has(&self, t: Target) -> bool {
        t.index < self.len()
    }

    /// Every gate and every call reads only wires that stand before it.
    pub open spec fn wf(&self) -> bool {
        &&& forall|i: int| 0 <= i < self.len() ==> gate_wf(#[trigger] self.gates()[i], i, self.slots())
        &&& forall|k: int| 0 <= k < self.calls().len() ==> call_wf(#[trigger] self.calls()[k], self.len())
    }

    /// Whether `w` gives every wire but the inputs the value that its gate defines.
    pub open spec fn defines(&self, w: Seq<u64>) -> bool {
        &&& w.len() >= self.len()
        &&& forall|i: int| 0 <= i < self.len() ==> gate_defines(#[trigger] self.gates()[i], i, w)
    }

    /// Whether `w` meets every constraint of the circuit.
    pub open spec fn accepts(&self, w: Seq<u64>) -> bool {
        forall|i: int| 0 <= i < self.len() ==> gate_accepts(#[trigger] self.gates()[i], i, w)
    }

    /// Whether this circuit is `before` with gate `g` added, which defines wire `out`.
    pub open spec fn adds(&self, before: &CircuitBuilder, g: Gate, out: Target) -> bool {
        &&& self.wf()
        &&& self.gates() == before.gates().push(g)
        &&& out.index == before.len()
        &&& self.calls() == before.calls()
        &&& self.slots() == before.slots() + (if g is Input { 1int } else { 0int })
    }

    /// Whether this circuit is `before` with some gates added that are no
    /// inputs, and with the same calls.
    pub open spec fn grows(&self, before: &CircuitBuilder) -> bool {
        &&& self.wf()
        &&& self.keeps(before)
        &&& forall|k: int|
            before.len() <= k < self.len() ==> !(#[trigger] self.gates()[k] is Input)
        &&& self.calls() == before.calls()
        &&& self.slots() == before.slots()
    }

    /// Whether the gates of `before` are the first gates of this circuit.
    pub open spec fn keeps(&self, before: &CircuitBuilder) -> bool {
        &&& self.len() >= before.len()
        &&& forall|k: int| 0 <= k < before.len() ==> #[trigger] self.gates()[k] == before.gates()[k]
    }

    /// The empty circuit.
    pub fn new() -> (b: CircuitBuilder)
        ensures
            b.wf(),
            b.len() == 0,
            b.calls().len() == 0,
            b.slots() == 0,
    {
        CircuitBuilder { gates: Vec::new(), calls: Vec::new(), slots: 0 }
    }

    /// The number of wires.
    pub fn num_wires(&self) -> (n: usize)
        ensures
            n == self.len(),
    {
        self.gates.len()
    }

    /// The number of values that a witness supplies.
    pub fn num_slots(&self) -> (n: usize)
        ensures
            n == self.slots(),
    {
        self.slots
    }

    /// Gate `i`, which defines wire `i`.
    pub fn gate(&self, i: usize) -> (g: Gate)
        requires
            i < self.len(),
        ensures
            g == self.gates()[i as int],
    {
        self.gates[i]
    }

    /// The gadget calls so far.
    pub fn gadget_calls(&self) -> (c: &Vec<GadgetCall>)
        ensures
            c@ == self.calls(),
    {
        &self.calls
    }

    /// Adds a wire whose value the witness supplies and that is constrained
    /// not to exceed `limit`.
    pub fn add_input(&mut self, limit: u64) -> (out: Target)
        requires
            old(self).wf(),
            old(self).slots() < usize::MAX,
        ensures
            final(self).adds(old(self), (Gate::Input { slot: old(self).slots() as usize, limit }), out),
            forall|w: Seq<u64>| #[trigger]
                final(self).defines(w) <==> old(self).defines(w) && w.len() > out.index,
            forall|w: Seq<u64>| #[trigger]
                final(self).accepts(w) <==> old(self).accepts(w) && val(w, out) <= limit,
    {
        let out = Target { index: self.gates.len() };
        let g = Gate::Input { slot: self.slots, limit };
        self.gates.push(g);
        self.slots = self.slots + 1;
        proof {
            let before = old(self);
            let n = before.len();
            assert forall|i: int| 0 <= i < self.len() implies gate_wf(
                #[trigger] self.gates()[i],
                i,
                self.slots(),
            ) by {
                if i < n {
                    assert(gate_wf(before.gates()[i], i, before.slots()));
                }
            }
            assert forall|k: int| 0 <= k < self.calls().len() implies call_wf(
                #[trigger] self.calls()[k],
                self.len(),
            ) by {
                assert(call_wf(before.calls()[k], n));
            }
            assert forall|w: Seq<u64>| #[trigger]
                self.defines(w) <==> before.defines(w) && w.len() > out.index by {
                if self.defines(w) {
                    assert forall|i: int| 0 <= i < n implies gate_defines(
                        #[trigger] before.gates()[i],
                        i,
                        w,
                    ) by {
                        assert(gate_defines(self.gates()[i], i, w));
                    }
                }
                if before.defines(w) && w.len() > out.index {
                    assert forall|i: int| 0 <= i < self.len() implies gate_defines(
                        #[trigger] self.gates()[i],
                        i,
                        w,
                    ) by {
                        if i < n {
                            assert(gate_defines(before.gates()[i], i, w));
                        }
                    }
                }
            }
            assert forall|w: Seq<u64>| #[trigger]
                self.accepts(w) <==> before.accepts(w) && val(w, out) <= limit by {
                if self.accepts(w) {
                    assert forall|i: int| 0 <= i < n implies gate_accepts(
                        #[trigger] before.gates()[i],
                        i,
                        w,
                    ) by {
                        assert(gate_accepts(self.gates()[i], i, w));
                    }
                    assert(gate_accepts(self.gates()[n], n, w));
                }
                if before.accepts(w) && val(w, out) <= limit {
                    assert forall|i: int| 0 <= i < self.len() implies gate_accepts(
                        #[trigger] self.gates()[i],
                        i,
                        w,
                    ) by {
                        if i < n {
                            assert(gate_accepts(before.gates()[i], i, w));
                        }
                    }
                }
            }
        }
        out
    }

    /// Adds a wire that may hold any element of the field.
    pub fn add_virtual_target(&mut self) -> (out: Target)
        requires
            old(self).wf(),
            old(self).slots() < usize::MAX,
        ensures
            final(self).adds(
                old(self),
                (Gate::Input { slot: old(self).slots() as usize, limit: (FIELD_ORDER - 1) as u64 }),
                out,
            ),
            forall|w: Seq<u64>| #[trigger]
                final(self).defines(w) <==> old(self).defines(w) && w.len() > out.index,
            forall|w: Seq<u64>| #[trigger]
                final(self).accepts(w) <==> old(self).accepts(w) && val(w, out) < FIELD_ORDER,
    {
        self.add_input(FIELD_ORDER - 1)
    }

    /// A wire that holds the element `value` of the field.
    pub fn constant(&mut self, value: u64) -> (out: Target)
        requires
            old(self).wf(),
            value < FIELD_ORDER,
        ensures
            final(self).adds(old(self), (Gate::Constant { value }), out),
            forall|w: Seq<u64>| #[trigger]
                final(self).defines(w) <==> old(self).defines(w) && w.len() > out.index && val(
                    w,
                    out,
                ) == value,
            forall|w: Seq<u64>| #[trigger] final(self).accepts(w) <==> old(self).accepts(w),
    {
        self.gate_out(Gate::Constant { value })
    }

    /// A wire that holds zero.
    pub fn zero(&mut self) -> (out: Target)
        requires
            old(self).wf(),
        ensures
            final(self).adds(old(self), (Gate::Constant { value: 0 }), out),
            forall|w: Seq<u64>| #[trigger]
                final(self).defines(w) <==> old(self).defines(w) && w.len() > out.index && val(
                    w,
                    out,
                ) == 0,
            forall|w: Seq<u64>| #[trigger] final(self).accepts(w) <==> old(self).accepts(w),
    {
        self.constant(0)
    }

    /// A wire that holds one.
    pub fn one(&mut self) -> (out: Target)
        requires
            old(self).wf(),
        ensures
            final(self).adds(old(self), (Gate::Constant { value: 1 }), out),
            forall|w: Seq<u64>| #[trigger]
                final(self).defines(w) <==> old(self).defines(w) && w.len() > out.index && val(
                    w,
                    out,
                ) == 1,
            forall|w: Seq<u64>| #[trigger] final(self).accepts(w) <==> old(self).accepts(w),
    {
        self.constant(1)
    }

    /// A bit that is zero.
    pub fn _false(&mut self) -> (out: BoolTarget)
        requires
            old(self).wf(),
        ensures
            final(self).adds(old(self), (Gate::Constant { value: 0 }), out.target),
            forall|w: Seq<u64>| #[trigger]
                final(self).defines(w) <==> old(self).defines(w) && w.len() > out.target.index
                    && val(w, out.target) == 0,
            forall|w: Seq<u64>| #[trigger] final(self).accepts(w) <==> old(self).accepts(w),
    {
        BoolTarget { target: self.constant(0) }
    }

    /// A bit that is one.
    pub fn _true(&mut self) -> (out: BoolTarget)
        requires
            old(self).wf(),
        ensures
            final(self).adds(old(self), (Gate::Constant { value: 1 }), out.target),
            forall|w: Seq<u64>| #[trigger]
                final(self).defines(w) <==> old(self).defines(w) && w.len() > out.target.index
                    && val(w, out.target) == 1,
            forall|w: Seq<u64>| #[trigger] final(self).accepts(w) <==> old(self).accepts(w),
    {
        BoolTarget { target: self.constant(1) }
    }

    /// A wire that holds `c * x + y` in the field.
    pub fn mul_const_add(&mut self, c: u64, x: Target, y: Target) -> (out: Target)
        requires
            old(self).wf(),
            old(self).has(x),
            old(self).has(y),
        ensures
            final(self).adds(old(self), (Gate::MulConstAdd { c, x, y }), out),
            forall|w: Seq<u64>| #[trigger]
                final(self).defines(w) <==> old(self).defines(w) && w.len() > out.index && val(
                    w,
                    out,
                ) == mul_add(c as int, val(w, x), val(w, y)),
            forall|w: Seq<u64>| #[trigger] final(self).accepts(w) <==> old(self).accepts(w),
    {
        self.gate_out(Gate::MulConstAdd { c, x, y })
    }

    /// A wire that holds `x - y` in the field.
    pub fn sub(&mut self, x: Target, y: Target) -> (out: Target)
        requires
            old(self).wf(),
            old(self).has(x),
            old(self).has(y),
        ensures
            final(self).adds(old(self), (Gate::Sub { x, y }), out),
            forall|w: Seq<u64>| #[trigger]
                final(self).defines(w) <==> old(self).defines(w) && w.len() > out.index && val(
                    w,
                    out,
                ) == diff(val(w, x), val(w, y)),
            forall|w: Seq<u64>| #[trigger] final(self).accepts(w) <==> old(self).accepts(w),
    {
        self.gate_out(Gate::Sub { x, y })
    }

    /// A bit that is one where `x` and `y` hold the same value.
    pub fn is_equal(&mut self, x: Target, y: Target) -> (out: BoolTarget)
        requires
            old(self).wf(),
            old(self).has(x),
            old(self).has(y),
        ensures
            final(self).adds(old(self), (Gate::IsEqual { x, y }), out.target),
            forall|w: Seq<u64>| #[trigger]
                final(self).defines(w) <==> old(self).defines(w) && w.len() > out.target.index
                    && val(w, out.target) == same(val(w, x), val(w, y)),
            forall|w: Seq<u64>| #[trigger] final(self).accepts(w) <==> old(self).accepts(w),
    {
        BoolTarget { target: self.gate_out(Gate::IsEqual { x, y }) }
    }

    /// A wire that holds `x` where `b` is one and `y` where `b` is zero.
    pub fn select(&mut self, b: BoolTarget, x: Target, y: Target) -> (out: Target)
        requires
            old(self).wf(),
            old(self).has(b.target),
            old(self).has(x),
            old(self).has(y),
        ensures
            final(self).adds(old(self), (Gate::Select { b: b.target, x, y }), out),
            forall|w: Seq<u64>| #[trigger]
                final(self).defines(w) <==> old(self).defines(w) && w.len() > out.index && val(
                    w,
                    out,
                ) == choose_by(val(w, b.target), val(w, x), val(w, y)),
            forall|w: Seq<u64>| #[trigger] final(self).accepts(w) <==> old(self).accepts(w),
    {
        self.gate_out(Gate::Select { b: b.target, x, y })
    }

    /// A bit that is one where `x` or `y` is.
    pub fn or(&mut self, x: BoolTarget, y: BoolTarget) -> (out: BoolTarget)
        requires
            old(self).wf(),
            old(self).has(x.target),
            old(self).has(y.target),
        ensures
            final(self).adds(old(self), (Gate::Or { x: x.target, y: y.target }), out.target),
            forall|w: Seq<u64>| #[trigger]
                final(self).defines(w) <==> old(self).defines(w) && w.len() > out.target.index
                    && val(w, out.target) == either(val(w, x.target), val(w, y.target)),
            forall|w: Seq<u64>| #[trigger] final(self).accepts(w) <==> old(self).accepts(w),
    {
        BoolTarget { target: self.gate_out(Gate::Or { x: x.target, y: y.target }) }
    }

    /// Constrains `x` and `y` to hold the same value.
    pub fn connect(&mut self, x: Target, y: Target)
        requires
            old(self).wf(),
            old(self).has(x),
            old(self).has(y),
        ensures
            final(self).grows(old(self)),
            final(self).gates() == old(self).gates().push(Gate::AssertEqual { x, y }),
            forall|w: Seq<u64>| #[trigger]
                final(self).defines(w) <==> old(self).defines(w) && w.len() > old(self).len()
                    && w[old(self).len()] == 0,
            forall|w: Seq<u64>| #[trigger]
                final(self).accepts(w) <==> old(self).accepts(w) && val(w, x) == val(w, y),
    {
        let _ = self.gate_out(Gate::AssertEqual { x, y });
    }

    /// Whether this circuit is `before` with `n` inputs added, each bounded
    /// by `limit`, and with the same calls.
    pub open spec fn reads(&self, before: &CircuitBuilder, n: int, limit: u64) -> bool {
        &&& self.calls() == before.calls()
        &&& self.reads_wires(before, n, limit)
    }

    /// Whether the gates of this circuit are those of `before` and `n`
    /// inputs after them, each bounded by `limit`.
    pub open spec fn reads_wires(&self, before: &CircuitBuilder, n: int, limit: u64) -> bool {
        &&& self.wf()
        &&& self.keeps(before)
        &&& self.len() == before.len() + n
        &&& self.slots() == before.slots() + n
        &&& forall|k: int|
            0 <= k < n ==> #[trigger] self.gates()[before.len() + k] == (Gate::Input {
                slot: (before.slots() + k) as usize,
                limit,
            })
        &&& forall|w: Seq<u64>| #[trigger]
            self.defines(w) <==> before.defines(w) && w.len() >= self.len()
        &&& forall|w: Seq<u64>| #[trigger]
            self.accepts(w) <==> before.accepts(w) && forall|k: int|
                before.len() <= k < self.len() ==> #[trigger] w[k] <= limit
    }

    /// Records a call of a gadget on wires of this circuit.
    pub fn add_gadget_call(&mut self, call: GadgetCall)
        requires
            old(self).wf(),
            call_wf(call, old(self).len()),
        ensures
            final(self).wf(),
            final(self).gates() == old(self).gates(),
            final(self).slots() == old(self).slots(),
            final(self).calls() == old(self).calls().push(call),
            forall|w: Seq<u64>| #[trigger] final(self).defines(w) <==> old(self).defines(w),
            forall|w: Seq<u64>| #[trigger] final(self).accepts(w) <==> old(self).accepts(w),
    {
        self.calls.push(call);
        proof {
            assert forall|k: int| 0 <= k < self.calls().len() implies call_wf(
                #[trigger] self.calls()[k],
                self.len(),
            ) by {
                if k < old(self).calls().len() {
                    assert(call_wf(old(self).calls()[k], old(self).len()));
                }
            }
            assert forall|i: int| 0 <= i < self.len() implies gate_wf(
                #[trigger] self.gates()[i],
                i,
                self.slots(),
            ) by {
                assert(gate_wf(old(self).gates()[i], i, old(self).slots()));
            }
        }
    }

    /// Adds `n` inputs, each constrained not to exceed `limit`, and hands
    /// back their wires in order.
    pub fn add_inputs(&mut self, n: usize, limit: u64) -> (out: Vec<Target>)
        requires
            old(self).wf(),
            old(self).slots() + n <= usize::MAX,
        ensures
            final(self).reads(old(self), n as int, limit),
            out@.len() == n,
            forall|k: int| 0 <= k < n ==> (#[trigger] out@[k]).index == old(self).len() + k,
    {
        let ghost start = *self;
        let mut out: Vec<Target> = Vec::new();
        let mut i: usize = 0;
        while i < n
            invariant
                i <= n,
                start.slots() + n <= usize::MAX,
                self.reads(&start, i as int, limit),
                out@.len() == i,
                forall|k: int| 0 <= k < i ==> (#[trigger] out@[k]).index == start.len() + k,
            decreases n - i,
        {
            let ghost prev = *self;
            let t = self.add_input(limit);
            out.push(t);
            proof {
                assert forall|k: int| 0 <= k < i + 1 implies #[trigger] self.gates()[start.len()
                    + k] == (Gate::Input { slot: (start.slots() + k) as usize, limit }) by {
                    if k < i {
                        assert(prev.gates()[start.len() + k] == (Gate::Input {
                            slot: (start.slots() + k) as usize,
                            limit,
                        }));
                    }
                }
                assert forall|w: Seq<u64>| #[trigger]
                    self.accepts(w) <==> start.accepts(w) && forall|k: int|
                        start.len() <= k < self.len() ==> #[trigger] w[k] <= limit by {
                    if self.accepts(w) {
                        assert(prev.accepts(w));
                    }
                    if start.accepts(w) && forall|k: int|
                        start.len() <= k < self.len() ==> #[trigger] w[k] <= limit {
                        assert(forall|k: int|
                            start.len() <= k < prev.len() ==> #[trigger] w[k] <= limit);
                        assert(w[prev.len()] <= limit);
                    }
                }
            }
            i = i + 1;
        }
        out
    }

    /// Adds gate `g`, which is no input, and hands back the wire that it defines.
    pub fn gate_out(&mut self, g: Gate) -> (out: Target)
        requires
            old(self).wf(),
            !(g is Input),
            gate_wf(g, old(self).len(), old(self).slots()),
        ensures
            final(self).adds(old(self), g, out),
            forall|w: Seq<u64>| #[trigger]
                final(self).defines(w) <==> old(self).defines(w) && w.len() > out.index
                    && w[out.index as int] as int == gate_value(g, w),
            forall|w: Seq<u64>| #[trigger]
                final(self).accepts(w) <==> old(self).accepts(w) && gate_accepts(
                    g,
                    out.index as int,
                    w,
                ),
    {
        let out = Target { index: self.gates.len() };
        self.gates.push(g);
        proof {
            let before = old(self);
            let n = before.len();
            assert forall|i: int| 0 <= i < self.len() implies gate_wf(
                #[trigger] self.gates()[i],
                i,
                self.slots(),
            ) by {
                if i < n {
                    assert(gate_wf(before.gates()[i], i, before.slots()));
                }
            }
            assert forall|k: int| 0 <= k < self.calls().len() implies call_wf(
                #[trigger] self.calls()[k],
                self.len(),
            ) by {
                assert(call_wf(before.calls()[k], n));
            }
            assert forall|w: Seq<u64>| #[trigger]
                self.defines(w) <==> before.defines(w) && w.len() > out.index && w[out.index as int] as int
                    == gate_value(g, w) by {
                if self.defines(w) {
                    assert forall|i: int| 0 <= i < n implies gate_defines(
                        #[trigger] before.gates()[i],
                        i,
                        w,
                    ) by {
                        assert(gate_defines(self.gates()[i], i, w));
                    }
                    assert(gate_defines(self.gates()[n], n, w));
                }
                if before.defines(w) && w.len() > out.index && w[out.index as int] as int
                    == gate_value(g, w) {
                    assert forall|i: int| 0 <= i < self.len() implies gate_defines(
                        #[trigger] self.gates()[i],
                        i,
                        w,
                    ) by {
                        if i < n {
                            assert(gate_defines(before.gates()[i], i, w));
                        }
                    }
                }
            }
            assert forall|w: Seq<u64>| #[trigger]
                self.accepts(w) <==> before.accepts(w) && gate_accepts(g, out.index as int, w) by {
                if self.accepts(w) {
                    assert forall|i: int| 0 <= i < n implies gate_accepts(
                        #[trigger] before.gates()[i],
                        i,
                        w,
                    ) by {
                        assert(gate_accepts(self.gates()[i], i, w));
                    }
                    assert(gate_accepts(self.gates()[n], n, w));
                }
                if before.accepts(w) && gate_accepts(g, out.index as int, w) {
                    assert forall|i: int| 0 <= i < self.len() implies gate_accepts(
                        #[trigger] self.gates()[i],
                        i,
                        w,
                    ) by {
                        if i < n {
                            assert(gate_accepts(before.gates()[i], i, w));
                        }
                    }
                }
            }
        }
        out
    }
}

} // verus!
