//! Wires by what they carry: bits, bytes, 32- and 64-bit numbers, byte
//! strings and hashes; and the operations on them that a circuit offers.

use vstd::prelude::*;
use crate::circuit::{be_byte, two_64, val, CircuitBuilder, Gate, Target};

verus! {

/// A wire that carries zero or one.
#[derive(Clone, Copy, Debug)]
pub struct BoolVariable(pub Target);

/// A wire that carries a byte.
#[derive(Clone, Copy, Debug)]
pub struct ByteVariable(pub Target);

/// A wire that carries a number below `2^32`.
#[derive(Clone, Copy, Debug)]
pub struct U32Variable(pub Target);

/// A wire that carries a number below `2^64`.
#[derive(Clone, Copy, Debug)]
pub struct U64Variable(pub Target);

/// A string of `N` bytes.
#[derive(Clone, Copy, Debug)]
pub struct BytesVariable<const N: usize>(pub [ByteVariable; N]);

/// A hash of 32 bytes.
#[derive(Clone, Copy, Debug)]
pub struct Bytes32Variable(pub BytesVariable<32>);

/// `N` variables of one kind.
#[derive(Clone, Copy, Debug)]
pub struct ArrayVariable<V, const N: usize> {
    pub data: [V; N],
}

/// The greatest value of a byte.
pub const BYTE_MAX: u64 = 255;

/// The greatest value of a 32-bit number.
pub const U32_MAX: u64 = 0xFFFF_FFFF;

/// The greatest value of a 64-bit number.
pub const U64_MAX: u64 = 0xFFFF_FFFF_FFFF_FFFF;

/// The wires of a byte string.
pub open spec fn wires(bytes: Seq<ByteVariable>) -> Seq<Target> {
    Seq::new(bytes.len(), |i: int| bytes[i].0)
}

/// Whether `rows` holds the wires of `hashes`, one row for each hash.
pub open spec fn rows_are_hashes(rows: Seq<Vec<Target>>, hashes: Seq<Bytes32Variable>) -> bool {
    &&& rows.len() == hashes.len()
    &&& forall|i: int| 0 <= i < rows.len() ==> (#[trigger] rows[i])@ == wires(hashes[i].0.0@)
}

/// Whether `rows` holds the wires of `leaves`, one row for each leaf.
pub open spec fn rows_are_leaves<const L: usize>(
    rows: Seq<Vec<Target>>,
    leaves: Seq<BytesVariable<L>>,
) -> bool {
    &&& rows.len() == leaves.len()
    &&& forall|i: int| 0 <= i < rows.len() ==> (#[trigger] rows[i])@ == wires(leaves[i].0@)
}

/// The wires of a sequence of bits.
pub open spec fn bool_wires(bits: Seq<BoolVariable>) -> Seq<Target> {
    Seq::new(bits.len(), |i: int| bits[i].0)
}

/// The values that `w` gives to the wires `ts`.
pub open spec fn vals(w: Seq<u64>, ts: Seq<Target>) -> Seq<int> {
    Seq::new(ts.len(), |i: int| val(w, ts[i]))
}

/// The bytes that `w` gives to a byte string.
pub open spec fn byte_vals(w: Seq<u64>, bytes: Seq<ByteVariable>) -> Seq<int> {
    vals(w, wires(bytes))
}

/// Whether every wire of `bytes` is a wire of `c`.
pub open spec fn bytes_in(c: &CircuitBuilder, bytes: Seq<ByteVariable>) -> bool {
    forall|k: int| 0 <= k < bytes.len() ==> c.has((#[trigger] bytes[k]).0)
}

/// The eight bytes of `v`, the most significant first.
pub open spec fn be_bytes(v: u64) -> Seq<int> {
    Seq::new(8, |k: int| be_byte(v, k as u64))
}

/// The wires of a byte string.
pub fn targets_of<const N: usize>(bytes: &BytesVariable<N>) -> (out: Vec<Target>)
    ensures
        out@ == wires(bytes.0@),
{
    let mut out: Vec<Target> = Vec::new();
    let mut k: usize = 0;
    while k < N
        invariant
            k <= N,
            out@.len() == k,
            forall|m: int| 0 <= m < k ==> #[trigger] out@[m] == bytes.0@[m].0,
        decreases N - k,
    {
        out.push(bytes.0[k].0);
        k = k + 1;
    }
    assert(out@ =~= wires(bytes.0@));
    out
}

/// The wires of a sequence of hashes, one row for each hash.
pub fn rows_of_hashes<const N: usize>(hashes: &ArrayVariable<Bytes32Variable, N>) -> (out: Vec<
    Vec<Target>,
>)
    ensures
        rows_are_hashes(out@, hashes.data@),
{
    let mut out: Vec<Vec<Target>> = Vec::new();
    let mut i: usize = 0;
    while i < N
        invariant
            i <= N,
            out@.len() == i,
            forall|m: int| 0 <= m < i ==> (#[trigger] out@[m])@ == wires(hashes.data@[m].0.0@),
        decreases N - i,
    {
        let row = targets_of(&hashes.data[i].0);
        out.push(row);
        i = i + 1;
    }
    out
}

impl CircuitBuilder {
    /// `N` bytes that the witness supplies, on consecutive wires.
    pub fn read_bytes<const N: usize>(&mut self) -> (out: BytesVariable<N>)
        requires
            old(self).wf(),
            old(self).slots() + N <= usize::MAX,
        ensures
            final(self).reads(old(self), N as int, BYTE_MAX),
            forall|k: int| 0 <= k < N ==> (#[trigger] out.0@[k]).0.index == old(self).len() + k,
    {
        let ts = self.add_inputs(N, BYTE_MAX);
        let mut bytes = [ByteVariable(Target { index: 0 }); N];
        let mut k: usize = 0;
        while k < N
            invariant
                k <= N,
                ts@.len() == N,
                forall|m: int| 0 <= m < k ==> (#[trigger] bytes@[m]).0 == ts@[m],
            decreases N - k,
        {
            bytes[k] = ByteVariable(ts[k]);
            k = k + 1;
        }
        BytesVariable(bytes)
    }

    /// A hash that the witness supplies, on consecutive wires.
    pub fn read_bytes32(&mut self) -> (out: Bytes32Variable)
        requires
            old(self).wf(),
            old(self).slots() + 32 <= usize::MAX,
        ensures
            final(self).reads(old(self), 32, BYTE_MAX),
            forall|k: int| 0 <= k < 32 ==> (#[trigger] out.0.0@[k]).0.index == old(self).len() + k,
    {
        Bytes32Variable(self.read_bytes::<32>())
    }

    /// A 64-bit number that the witness supplies.
    pub fn read_u64(&mut self) -> (out: U64Variable)
        requires
            old(self).wf(),
            old(self).slots() < usize::MAX,
        ensures
            final(self).reads(old(self), 1, U64_MAX),
            out.0.index == old(self).len(),
    {
        let ts = self.add_inputs(1, U64_MAX);
        U64Variable(ts[0])
    }

    /// A 32-bit number that the witness supplies.
    pub fn read_u32(&mut self) -> (out: U32Variable)
        requires
            old(self).wf(),
            old(self).slots() < usize::MAX,
        ensures
            final(self).reads(old(self), 1, U32_MAX),
            out.0.index == old(self).len(),
    {
        let ts = self.add_inputs(1, U32_MAX);
        U32Variable(ts[0])
    }

    /// A bit that the witness supplies.
    pub fn read_bool(&mut self) -> (out: BoolVariable)
        requires
            old(self).wf(),
            old(self).slots() < usize::MAX,
        ensures
            final(self).reads(old(self), 1, 1),
            out.0.index == old(self).len(),
    {
        let ts = self.add_inputs(1, 1);
        BoolVariable(ts[0])
    }

    /// A byte that holds `value`.
    pub fn constant_byte(&mut self, value: u8) -> (out: ByteVariable)
        requires
            old(self).wf(),
        ensures
            final(self).adds(old(self), (Gate::Constant { value: value as u64 }), out.0),
            forall|w: Seq<u64>| #[trigger]
                final(self).defines(w) <==> old(self).defines(w) && w.len() > out.0.index && val(
                    w,
                    out.0,
                ) == value,
            forall|w: Seq<u64>| #[trigger] final(self).accepts(w) <==> old(self).accepts(w),
    {
        ByteVariable(self.constant(value as u64))
    }

    /// A byte string that holds `value`.
    pub fn constant_bytes<const N: usize>(&mut self, value: [u8; N]) -> (out: BytesVariable<N>)
        requires
            old(self).wf(),
        ensures
            final(self).grows(old(self)),
            bytes_in(final(self), out.0@),
            forall|w: Seq<u64>| #[trigger]
                final(self).defines(w) ==> old(self).defines(w) && forall|m: int|
                    0 <= m < N ==> val(w, (#[trigger] out.0@[m]).0) == value@[m],
            forall|w: Seq<u64>| #[trigger] final(self).accepts(w) <==> old(self).accepts(w),
    {
        let ghost start = *self;
        let mut bytes = [ByteVariable(Target { index: 0 }); N];
        let mut k: usize = 0;
        while k < N
            invariant
                k <= N,
                self.grows(&start),
                forall|m: int| 0 <= m < k ==> self.has((#[trigger] bytes@[m]).0),
                forall|w: Seq<u64>| #[trigger]
                    self.defines(w) ==> start.defines(w) && forall|m: int|
                        0 <= m < k ==> val(w, (#[trigger] bytes@[m]).0) == value@[m],
                forall|w: Seq<u64>| #[trigger] self.accepts(w) <==> start.accepts(w),
            decreases N - k,
        {
            let ghost prev = *self;
            let ghost bytes_before = bytes@;
            let b = self.constant_byte(value[k]);
            bytes[k] = b;
            proof {
                assert forall|m: int| 0 <= m < k + 1 implies self.has((#[trigger] bytes@[m]).0) by {
                    if m < k {
                        assert(prev.has(bytes_before[m].0));
                    }
                }
                assert forall|w: Seq<u64>| #[trigger] self.defines(w) implies start.defines(w)
                    && forall|m: int|
                    0 <= m < k + 1 ==> val(w, (#[trigger] bytes@[m]).0) == value@[m] by {
                    assert(prev.defines(w));
                    assert forall|m: int| 0 <= m < k + 1 implies val(w, (#[trigger] bytes@[m]).0)
                        == value@[m] by {
                        if m < k {
                            assert(val(w, bytes_before[m].0) == value@[m]);
                        }
                    }
                }
            }
            k = k + 1;
        }
        BytesVariable(bytes)
    }

    /// A bit that holds one where `value` is true, zero where it is false.
    pub fn constant_bool(&mut self, value: bool) -> (out: BoolVariable)
        requires
            old(self).wf(),
        ensures
            final(self).adds(
                old(self),
                (Gate::Constant { value: if value { 1u64 } else { 0u64 } }),
                out.0,
            ),
            forall|w: Seq<u64>| #[trigger]
                final(self).defines(w) <==> old(self).defines(w) && w.len() > out.0.index && val(
                    w,
                    out.0,
                ) == (if value { 1int } else { 0int }),
            forall|w: Seq<u64>| #[trigger] final(self).accepts(w) <==> old(self).accepts(w),
    {
        let bit: u64 = if value { 1 } else { 0 };
        BoolVariable(self.constant(bit))
    }

    /// A 64-bit number that holds `value`.
    pub fn constant_u64(&mut self, value: u64) -> (out: U64Variable)
        requires
            old(self).wf(),
        ensures
            final(self).adds(old(self), (Gate::U64Constant { value }), out.0),
            forall|w: Seq<u64>| #[trigger]
                final(self).defines(w) <==> old(self).defines(w) && w.len() > out.0.index && val(
                    w,
                    out.0,
                ) == value,
            forall|w: Seq<u64>| #[trigger] final(self).accepts(w) <==> old(self).accepts(w),
    {
        U64Variable(self.gate_out(Gate::U64Constant { value }))
    }

    /// The sum of `x` and `y` modulo `2^64`.
    pub fn add_u64(&mut self, x: U64Variable, y: U64Variable) -> (out: U64Variable)
        requires
            old(self).wf(),
            old(self).has(x.0),
            old(self).has(y.0),
        ensures
            final(self).adds(old(self), (Gate::U64Add { x: x.0, y: y.0 }), out.0),
            forall|w: Seq<u64>| #[trigger]
                final(self).defines(w) <==> old(self).defines(w) && w.len() > out.0.index && val(
                    w,
                    out.0,
                ) == (val(w, x.0) + val(w, y.0)) % two_64(),
            forall|w: Seq<u64>| #[trigger] final(self).accepts(w) <==> old(self).accepts(w),
    {
        U64Variable(self.gate_out(Gate::U64Add { x: x.0, y: y.0 }))
    }

    /// The difference of `x` and `y`. The circuit is satisfied only where
    /// `x` is not below `y`; where it is, the wire holds the difference
    /// modulo `2^64`.
    pub fn sub_u64(&mut self, x: U64Variable, y: U64Variable) -> (out: U64Variable)
        requires
            old(self).wf(),
            old(self).has(x.0),
            old(self).has(y.0),
        ensures
            final(self).adds(old(self), (Gate::U64Sub { x: x.0, y: y.0 }), out.0),
            forall|w: Seq<u64>| #[trigger]
                final(self).defines(w) <==> old(self).defines(w) && w.len() > out.0.index && val(
                    w,
                    out.0,
                ) == (val(w, x.0) - val(w, y.0)) % two_64(),
            forall|w: Seq<u64>| #[trigger]
                final(self).accepts(w) <==> old(self).accepts(w) && val(w, x.0) >= val(w, y.0),
    {
        U64Variable(self.gate_out(Gate::U64Sub { x: x.0, y: y.0 }))
    }

    /// Byte `k` of the eight bytes of `x`, the most significant first.
    pub fn byte_of_u64(&mut self, x: U64Variable, k: u64) -> (out: ByteVariable)
        requires
            old(self).wf(),
            old(self).has(x.0),
            k < 8,
        ensures
            final(self).adds(old(self), (Gate::U64Byte { x: x.0, k }), out.0),
            forall|w: Seq<u64>| #[trigger]
                final(self).defines(w) <==> old(self).defines(w) && w.len() > out.0.index && val(
                    w,
                    out.0,
                ) == be_byte(w[x.0.index as int], k),
            forall|w: Seq<u64>| #[trigger] final(self).accepts(w) <==> old(self).accepts(w),
    {
        ByteVariable(self.gate_out(Gate::U64Byte { x: x.0, k }))
    }

    /// The eight bytes of `x`, the most significant first.
    pub fn encode_u64(&mut self, x: &U64Variable) -> (out: Vec<ByteVariable>)
        requires
            old(self).wf(),
            old(self).has(x.0),
        ensures
            final(self).grows(old(self)),
            out@.len() == 8,
            bytes_in(final(self), out@),
            forall|w: Seq<u64>| #[trigger]
                final(self).defines(w) ==> old(self).defines(w) && byte_vals(w, out@) == be_bytes(
                    w[x.0.index as int],
                ),
            forall|w: Seq<u64>| #[trigger] final(self).accepts(w) <==> old(self).accepts(w),
    {
        let ghost start = *self;
        let mut out: Vec<ByteVariable> = Vec::new();
        let mut k: u64 = 0;
        while k < 8
            invariant
                k <= 8,
                start.has(x.0),
                self.grows(&start),
                out@.len() == k,
                bytes_in(self, out@),
                forall|w: Seq<u64>| #[trigger]
                    self.defines(w) ==> start.defines(w) && forall|m: int|
                        0 <= m < k ==> val(w, (#[trigger] out@[m]).0) == be_byte(
                            w[x.0.index as int],
                            m as u64,
                        ),
                forall|w: Seq<u64>| #[trigger] self.accepts(w) <==> start.accepts(w),
            decreases 8 - k,
        {
            let b = self.byte_of_u64(*x, k);
            out.push(b);
            k = k + 1;
        }
        proof {
            assert forall|w: Seq<u64>| #[trigger] self.defines(w) implies byte_vals(w, out@)
                == be_bytes(w[x.0.index as int]) by {
                assert forall|m: int| 0 <= m < 8 implies byte_vals(w, out@)[m] == be_bytes(
                    w[x.0.index as int],
                )[m] by {
                    assert(val(w, out@[m].0) == be_byte(w[x.0.index as int], m as u64));
                }
                assert(byte_vals(w, out@) =~= be_bytes(w[x.0.index as int]));
            }
        }
        out
    }

    /// Constrains `x` and `y` to hold the same number.
    pub fn assert_is_equal_u64(&mut self, x: U64Variable, y: U64Variable)
        requires
            old(self).wf(),
            old(self).has(x.0),
            old(self).has(y.0),
        ensures
            final(self).grows(old(self)),
            forall|w: Seq<u64>| #[trigger] final(self).defines(w) ==> old(self).defines(w),
            forall|w: Seq<u64>| #[trigger]
                final(self).accepts(w) <==> old(self).accepts(w) && val(w, x.0) == val(w, y.0),
    {
        self.connect(x.0, y.0);
    }

    /// Constrains `x` and `y` to hold the same hash.
    pub fn assert_is_equal_bytes32(&mut self, x: Bytes32Variable, y: Bytes32Variable)
        requires
            old(self).wf(),
            bytes_in(old(self), x.0.0@),
            bytes_in(old(self), y.0.0@),
        ensures
            final(self).grows(old(self)),
            forall|w: Seq<u64>| #[trigger] final(self).defines(w) ==> old(self).defines(w),
            forall|w: Seq<u64>| #[trigger]
                final(self).accepts(w) <==> old(self).accepts(w) && byte_vals(w, x.0.0@)
                    == byte_vals(w, y.0.0@),
    {
        let ghost start = *self;
        let mut k: usize = 0;
        while k < 32
            invariant
                k <= 32,
                self.grows(&start),
                bytes_in(&start, x.0.0@),
                bytes_in(&start, y.0.0@),
                forall|w: Seq<u64>| #[trigger] self.defines(w) ==> start.defines(w),
                forall|w: Seq<u64>| #[trigger]
                    self.accepts(w) <==> start.accepts(w) && forall|m: int|
                        0 <= m < k ==> val(w, (#[trigger] x.0.0@[m]).0) == val(w, y.0.0@[m].0),
            decreases 32 - k,
        {
            let ghost prev = *self;
            assert(start.has(x.0.0@[k as int].0));
            assert(start.has(y.0.0@[k as int].0));
            self.connect(x.0.0[k].0, y.0.0[k].0);
            proof {
                assert forall|w: Seq<u64>| #[trigger]
                    self.accepts(w) <==> start.accepts(w) && forall|m: int|
                        0 <= m < k + 1 ==> val(w, (#[trigger] x.0.0@[m]).0) == val(
                            w,
                            y.0.0@[m].0,
                        ) by {
                    if self.accepts(w) {
                        assert(prev.accepts(w));
                    }
                }
            }
            k = k + 1;
        }
        proof {
            assert forall|w: Seq<u64>| #[trigger]
                self.accepts(w) <==> start.accepts(w) && byte_vals(w, x.0.0@) == byte_vals(
                    w,
                    y.0.0@,
                ) by {
                if byte_vals(w, x.0.0@) == byte_vals(w, y.0.0@) {
                    assert forall|m: int| 0 <= m < 32 implies val(w, (#[trigger] x.0.0@[m]).0)
                        == val(w, y.0.0@[m].0) by {
                        assert(byte_vals(w, x.0.0@)[m] == byte_vals(w, y.0.0@)[m]);
                    }
                }
                if forall|m: int|
                    0 <= m < 32 ==> val(w, (#[trigger] x.0.0@[m]).0) == val(w, y.0.0@[m].0) {
                    assert(byte_vals(w, x.0.0@) =~= byte_vals(w, y.0.0@));
                }
            }
        }
    }
}

/// The eight bytes of a value are bytes, and spell the value with the most
/// significant byte first.
pub proof fn lemma_be_bytes_spell(v: u64)
    ensures
        forall|k: int| 0 <= k < 8 ==> 0 <= #[trigger] be_bytes(v)[k] < 256,
        v == be_bytes(v)[0] * 0x100_0000_0000_0000 + be_bytes(v)[1] * 0x1_0000_0000_0000
            + be_bytes(v)[2] * 0x100_0000_0000 + be_bytes(v)[3] * 0x1_0000_0000 + be_bytes(v)[4]
            * 0x100_0000 + be_bytes(v)[5] * 0x1_0000 + be_bytes(v)[6] * 0x100 + be_bytes(v)[7],
{
    assert(v == ((v >> 56u64) & 0xffu64) * 0x100_0000_0000_0000 + ((v >> 48u64) & 0xffu64)
        * 0x1_0000_0000_0000 + ((v >> 40u64) & 0xffu64) * 0x100_0000_0000 + ((v >> 32u64)
        & 0xffu64) * 0x1_0000_0000 + ((v >> 24u64) & 0xffu64) * 0x100_0000 + ((v >> 16u64)
        & 0xffu64) * 0x1_0000 + ((v >> 8u64) & 0xffu64) * 0x100 + ((v >> 0u64) & 0xffu64))
        by (bit_vector);
    assert(((v >> 56u64) & 0xffu64) < 256 && ((v >> 48u64) & 0xffu64) < 256 && ((v >> 40u64)
        & 0xffu64) < 256 && ((v >> 32u64) & 0xffu64) < 256 && ((v >> 24u64) & 0xffu64) < 256 && (
    (v >> 16u64) & 0xffu64) < 256 && ((v >> 8u64) & 0xffu64) < 256 && ((v >> 0u64) & 0xffu64)
        < 256) by (bit_vector);
    assert(be_bytes(v)[0] == ((v >> 56u64) & 0xffu64));
    assert(be_bytes(v)[1] == ((v >> 48u64) & 0xffu64));
    assert(be_bytes(v)[2] == ((v >> 40u64) & 0xffu64));
    assert(be_bytes(v)[3] == ((v >> 32u64) & 0xffu64));
    assert(be_bytes(v)[4] == ((v >> 24u64) & 0xffu64));
    assert(be_bytes(v)[5] == ((v >> 16u64) & 0xffu64));
    assert(be_bytes(v)[6] == ((v >> 8u64) & 0xffu64));
    assert(be_bytes(v)[7] == ((v >> 0u64) & 0xffu64));
}

} // verus!
