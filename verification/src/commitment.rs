//! The data commitment of a window of blocks, and the chain of headers that
//! links the newest block of the window to a trusted one.

use vstd::prelude::*;
use crate::circuit::{two_64, val, CircuitBuilder, GadgetCall, Target};
use crate::consts::{
    HEADER_PROOF_DEPTH,
    PROTOBUF_BLOCK_ID_SIZE_BYTES,
    PROTOBUF_HASH_SIZE_BYTES,
    VARINT_SIZE_BYTES,
};
use crate::merkle::{
    call_holds,
    call_root,
    calls_hold,
    hash_vals,
    lemma_proof_call_holds,
    root_of_proof,
    row_vals,
    Gadgets,
    lemma_bytes_stay,
    lemma_proof_stays,
    proof_call_of,
    hashes_in,
    is_block_height,
    is_leaves_root,
    leaves_in,
    proof_in,
    root_is_bytes,
    takes_root,
    MerkleInclusionProofVariable,
};
use crate::vars::{
    be_bytes,
    byte_vals,
    bytes_in,
    vals,
    wires,
    ArrayVariable,
    BoolVariable,
    ByteVariable,
    Bytes32Variable,
    BytesVariable,
    U32Variable,
    U64Variable,
};

verus! {

/// What a proof of a data commitment is given: the data hashes and heights
/// of the blocks of the window, and the root that is claimed for them.
#[derive(Clone, Copy, Debug)]
pub struct CelestiaDataCommitmentProofInputVariable<const WINDOW_SIZE: usize> {
    pub data_hashes: ArrayVariable<Bytes32Variable, WINDOW_SIZE>,
    pub block_heights: ArrayVariable<U64Variable, WINDOW_SIZE>,
    pub data_commitment_root: Bytes32Variable,
}

/// A header: its hash, its height, the Merkle proof of the height under the
/// hash, and the number of bytes that the varint of the height takes.
#[derive(Clone, Copy, Debug)]
pub struct HeaderVariable {
    pub header: Bytes32Variable,
    pub header_height_proof: MerkleInclusionProofVariable<HEADER_PROOF_DEPTH, VARINT_SIZE_BYTES>,
    pub height_byte_length: U32Variable,
    pub height: U64Variable,
}

/// What a proof of a header chain is given: the newest header, the trusted
/// header, and for each hop between them, from the newest header backward,
/// the proof of the previous block's id and the proof of its data hash.
#[derive(Clone, Copy, Debug)]
pub struct CelestiaHeaderChainProofInputVariable<const WINDOW_RANGE: usize> {
    pub current_header: HeaderVariable,
    pub trusted_header: HeaderVariable,
    pub data_hash_proofs: ArrayVariable<
        MerkleInclusionProofVariable<HEADER_PROOF_DEPTH, PROTOBUF_HASH_SIZE_BYTES>,
        WINDOW_RANGE,
    >,
    pub prev_header_proofs: ArrayVariable<
        MerkleInclusionProofVariable<HEADER_PROOF_DEPTH, PROTOBUF_BLOCK_ID_SIZE_BYTES>,
        WINDOW_RANGE,
    >,
}

/// The leaf prefix and the field tag that stand before the varint of a
/// height in its leaf.
pub open spec fn height_leaf_prefix() -> Seq<int> {
    seq![0int, 8int]
}

/// What `encode_marshalled_varint` adds to a circuit: two constant bytes,
/// which stand before the wires of `varint` in `out`.
pub open spec fn prefixes_varint(
    before: CircuitBuilder,
    after: CircuitBuilder,
    varint: BytesVariable<9>,
    out: BytesVariable<11>,
) -> bool {
    &&& after.grows(&before)
    &&& bytes_in(&after, out.0@.subrange(0, 2))
    &&& out.0@.subrange(2, 11) == varint.0@
    &&& forall|w: Seq<u64>| #[trigger]
        after.defines(w) ==> before.defines(w) && byte_vals(w, out.0@) == height_leaf_prefix()
            + byte_vals(w, varint.0@)
    &&& forall|w: Seq<u64>| #[trigger] after.accepts(w) <==> before.accepts(w)
}

/// The 64 bytes of a data-root tuple: 24 zero bytes, the height in eight
/// bytes with the most significant first, and the 32 bytes of the hash.
pub open spec fn data_root_tuple(hash: Seq<int>, height: u64) -> Seq<int> {
    Seq::new(24, |i: int| 0int) + be_bytes(height) + hash
}

/// What `encode_data_root_tuple` adds to a circuit: the wires of `out`, of
/// which the last 32 are those of `hash`, and which hold the tuple of the
/// hash and the height.
pub open spec fn encodes_tuple(
    before: CircuitBuilder,
    after: CircuitBuilder,
    hash: Bytes32Variable,
    height: U64Variable,
    out: BytesVariable<64>,
) -> bool {
    &&& after.grows(&before)
    &&& bytes_in(&after, out.0@.subrange(0, 32))
    &&& out.0@.subrange(32, 64) == hash.0.0@
    &&& forall|w: Seq<u64>| #[trigger]
        after.defines(w) ==> before.defines(w) && byte_vals(w, out.0@) == data_root_tuple(
            byte_vals(w, hash.0.0@),
            w[height.0.index as int],
        )
    &&& forall|w: Seq<u64>| #[trigger] after.accepts(w) <==> before.accepts(w)
}

/// The 64 zero bytes of a leaf that stands for no block.
pub open spec fn zero_tuple() -> Seq<int> {
    Seq::new(64, |i: int| 0int)
}

/// Leaf `i` of the tree over a window that starts at the height that `w`
/// gives to `start_block`: the tuple of the block's data hash and its
/// height for a block of the window, and zero bytes beyond.
pub open spec fn window_leaf(
    w: Seq<u64>,
    data_hashes: Seq<Bytes32Variable>,
    start_block: U64Variable,
    i: int,
) -> Seq<int> {
    if i < data_hashes.len() {
        data_root_tuple(
            byte_vals(w, data_hashes[i].0.0@),
            ((val(w, start_block.0) + i) % two_64()) as u64,
        )
    } else {
        zero_tuple()
    }
}

/// The leaves that the call hashes, one row of wires for each; none for a
/// call that takes no leaves.
pub open spec fn call_leaves(c: GadgetCall) -> Seq<Vec<Target>> {
    match c {
        GadgetCall::LeavesRoot { leaves, enabled, root } => leaves@,
        _ => Seq::empty(),
    }
}

/// The wires of the flags that tell which leaves count; none for a call
/// that takes no leaves.
pub open spec fn call_flags(c: GadgetCall) -> Seq<Target> {
    match c {
        GadgetCall::LeavesRoot { leaves, enabled, root } => enabled@,
        _ => Seq::empty(),
    }
}

/// Whether under `w` the leaves of the call are those of the window, with a
/// flag of one for each block of the window and of zero for each leaf beyond.
pub open spec fn commits(
    w: Seq<u64>,
    c: GadgetCall,
    data_hashes: Seq<Bytes32Variable>,
    start_block: U64Variable,
    capacity: int,
) -> bool {
    &&& forall|i: int|
        0 <= i < capacity ==> vals(w, (#[trigger] call_leaves(c)[i])@) == window_leaf(
            w,
            data_hashes,
            start_block,
            i,
        )
    &&& forall|i: int|
        0 <= i < capacity ==> val(w, #[trigger] call_flags(c)[i]) == if i < data_hashes.len() {
            1int
        } else {
            0int
        }
}

/// What `get_data_commitment` adds to a circuit: one call for the root of
/// the tree over `capacity` leaves, of which the first are the tuples of the
/// window and count, and the others are zero and do not; and the root's 32
/// bytes as inputs, on the wires `root`.
pub open spec fn commits_window<const W: usize>(
    before: CircuitBuilder,
    after: CircuitBuilder,
    data_hashes: ArrayVariable<Bytes32Variable, W>,
    start_block: U64Variable,
    capacity: int,
    root: Bytes32Variable,
) -> bool {
    &&& after.wf()
    &&& after.keeps(&before)
    &&& after.slots() == before.slots() + 32
    &&& bytes_in(&after, root.0.0@)
    &&& after.calls().len() == before.calls().len() + 1
    &&& after.calls().drop_last() == before.calls()
    &&& after.calls().last() is LeavesRoot
    &&& call_leaves(after.calls().last()).len() == capacity
    &&& call_flags(after.calls().last()).len() == capacity
    &&& call_root(after.calls().last()) == wires(root.0.0@)
    &&& forall|w: Seq<u64>| #[trigger]
        after.defines(w) ==> before.defines(w) && commits(
            w,
            after.calls().last(),
            data_hashes.data@,
            start_block,
            capacity,
        )
    &&& forall|w: Seq<u64>| #[trigger]
        after.accepts(w) <==> before.accepts(w) && root_is_bytes(w, wires(root.0.0@))
}

/// Whether every wire of the header is a wire of `c`.
pub open spec fn header_in(c: &CircuitBuilder, h: HeaderVariable) -> bool {
    &&& bytes_in(c, h.header.0.0@)
    &&& proof_in(c, h.header_height_proof)
    &&& c.has(h.height_byte_length.0)
    &&& c.has(h.height.0)
}

/// Whether every wire of the input is a wire of `c`.
pub open spec fn chain_input_in<const W: usize>(
    c: &CircuitBuilder,
    input: CelestiaHeaderChainProofInputVariable<W>,
) -> bool {
    &&& header_in(c, input.current_header)
    &&& header_in(c, input.trusted_header)
    &&& forall|i: int| 0 <= i < W ==> proof_in(c, #[trigger] input.data_hash_proofs.data@[i])
    &&& forall|i: int| 0 <= i < W ==> proof_in(c, #[trigger] input.prev_header_proofs.data@[i])
}

/// The wires of the hash of the header from which hop `i` starts: the
/// newest header for the first hop, and after that the hash that stands at
/// byte 2 of the block id that the hop before has proved.
pub open spec fn hop_hash<const W: usize>(
    input: CelestiaHeaderChainProofInputVariable<W>,
    i: int,
) -> Seq<ByteVariable> {
    if i <= 0 {
        input.current_header.header.0.0@
    } else {
        input.prev_header_proofs.data@[i - 1].leaf.0@.subrange(2, 34)
    }
}

/// The call for the root of the data-hash proof of hop `i`, where the calls
/// of the hops start at `base`.
pub open spec fn data_call(calls: Seq<GadgetCall>, base: int, i: int) -> GadgetCall {
    calls[base + 2 * i]
}

/// The call for the root of the block-id proof of hop `i`, where the calls
/// of the hops start at `base`.
pub open spec fn prev_call(calls: Seq<GadgetCall>, base: int, i: int) -> GadgetCall {
    calls[base + 2 * i + 1]
}

/// Whether under `w` hop `i` links: the roots are bytes, the block-id proof
/// leads to the hash of the header that the hop starts from, and the
/// data-hash proof leads to the hash of the header that it arrives at.
pub open spec fn hop_holds<const W: usize>(
    w: Seq<u64>,
    input: CelestiaHeaderChainProofInputVariable<W>,
    calls: Seq<GadgetCall>,
    base: int,
    i: int,
) -> bool {
    &&& root_is_bytes(w, call_root(data_call(calls, base, i)))
    &&& root_is_bytes(w, call_root(prev_call(calls, base, i)))
    &&& vals(w, call_root(prev_call(calls, base, i))) == byte_vals(w, hop_hash(input, i))
    &&& vals(w, call_root(data_call(calls, base, i))) == byte_vals(w, hop_hash(input, i + 1))
}

/// Whether under `w` the newest height is the trusted height plus the
/// number of hops.
pub open spec fn heights_apart<const W: usize>(
    w: Seq<u64>,
    input: CelestiaHeaderChainProofInputVariable<W>,
) -> bool {
    val(w, input.current_header.height.0) - val(w, input.trusted_header.height.0) == W
}

/// Whether under `w` the chain holds: the heights are the window apart,
/// every hop links, and the last hop arrives at the trusted header.
pub open spec fn chain_holds<const W: usize>(
    w: Seq<u64>,
    input: CelestiaHeaderChainProofInputVariable<W>,
    calls: Seq<GadgetCall>,
    base: int,
) -> bool {
    &&& heights_apart(w, input)
    &&& forall|i: int| 0 <= i < W ==> #[trigger] hop_holds(w, input, calls, base, i)
    &&& byte_vals(w, hop_hash(input, W as int)) == byte_vals(w, input.trusted_header.header.0.0@)
}

/// Whether `c` asks for the check of the height of `h`.
pub open spec fn height_call_of(c: GadgetCall, h: HeaderVariable) -> bool {
    is_block_height(c, h.header, h.header_height_proof.aunts.data@, h.height, h.height_byte_length)
}

/// What `prove_header_chain` adds to a circuit: the calls that check the
/// heights of the newest and of the trusted header; for each hop the calls
/// for the roots of its data-hash proof and of its block-id proof, with the
/// roots' bytes as inputs; and constraints that are met exactly where the
/// chain holds.
pub open spec fn proves_chain<const W: usize>(
    before: CircuitBuilder,
    after: CircuitBuilder,
    input: CelestiaHeaderChainProofInputVariable<W>,
) -> bool {
    let n0 = before.calls().len() as int;
    &&& after.wf()
    &&& after.keeps(&before)
    &&& after.slots() == before.slots() + 64 * W
    &&& after.calls().len() == n0 + 2 + 2 * W
    &&& after.calls().subrange(0, n0) == before.calls()
    &&& height_call_of(after.calls()[n0], input.current_header)
    &&& height_call_of(after.calls()[n0 + 1], input.trusted_header)
    &&& forall|i: int|
        0 <= i < W ==> proof_call_of(
            #[trigger] data_call(after.calls(), n0 + 2, i),
            input.data_hash_proofs.data@[i],
        )
    &&& forall|i: int|
        0 <= i < W ==> proof_call_of(
            #[trigger] prev_call(after.calls(), n0 + 2, i),
            input.prev_header_proofs.data@[i],
        )
    &&& forall|w: Seq<u64>| #[trigger]
        after.defines(w) ==> before.defines(w) && (after.accepts(w) <==> before.accepts(w)
            && chain_holds(w, input, after.calls(), n0 + 2))
}

/// Builds the circuits of a data commitment.
pub trait CelestiaCommitment {
    /// The circuit that is built.
    spec fn circuit(&self) -> CircuitBuilder;

    /// Puts the leaf prefix `0` and the field tag `8` before a marshalled varint.
    fn encode_marshalled_varint(&mut self, marshalled_varint: &BytesVariable<9>) -> (out:
        BytesVariable<11>)
        requires
            old(self).circuit().wf(),
            bytes_in(&old(self).circuit(), marshalled_varint.0@),
        ensures
            prefixes_varint(old(self).circuit(), final(self).circuit(), *marshalled_varint, out),
    ;

    /// Encodes a data hash and a height into a data-root tuple.
    fn encode_data_root_tuple(&mut self, data_hash: &Bytes32Variable, height: &U64Variable) -> (out:
        BytesVariable<64>)
        requires
            old(self).circuit().wf(),
            bytes_in(&old(self).circuit(), data_hash.0.0@),
            old(self).circuit().has(height.0),
        ensures
            encodes_tuple(old(self).circuit(), final(self).circuit(), *data_hash, *height, out),
    ;

    /// The 32 bytes of `bytes` that start at `START_BYTE`.
    fn extract_hash_from_protobuf<const START_BYTE: usize, const PROTOBUF_LENGTH_BYTES: usize>(
        &mut self,
        bytes: &BytesVariable<PROTOBUF_LENGTH_BYTES>,
    ) -> (out: Bytes32Variable)
        requires
            START_BYTE + 32 <= PROTOBUF_LENGTH_BYTES,
        ensures
            final(self).circuit() == old(self).circuit(),
            out.0.0@ == bytes.0@.subrange(START_BYTE as int, START_BYTE + 32),
    ;

    /// The commitment to the data hashes of the `WINDOW_RANGE` blocks from
    /// height `start_block` on, in a tree of `NB_LEAVES` leaves.
    fn get_data_commitment<const WINDOW_RANGE: usize, const NB_LEAVES: usize>(
        &mut self,
        data_hashes: &ArrayVariable<Bytes32Variable, WINDOW_RANGE>,
        start_block: U64Variable,
    ) -> (root: Bytes32Variable)
        requires
            old(self).circuit().wf(),
            hashes_in(&old(self).circuit(), data_hashes.data@),
            old(self).circuit().has(start_block.0),
            WINDOW_RANGE <= NB_LEAVES,
            old(self).circuit().slots() + 32 <= usize::MAX,
        ensures
            commits_window(
                old(self).circuit(),
                final(self).circuit(),
                *data_hashes,
                start_block,
                NB_LEAVES as int,
                root,
            ),
    ;

    /// Proves the chain of headers from the newest header back to the
    /// trusted one, and the heights of both. The proofs of `input` are in
    /// order from the newest header to the trusted one.
    fn prove_header_chain<const WINDOW_RANGE: usize>(
        &mut self,
        input: CelestiaHeaderChainProofInputVariable<WINDOW_RANGE>,
    )
        requires
            old(self).circuit().wf(),
            chain_input_in(&old(self).circuit(), input),
            old(self).circuit().slots() + 64 * WINDOW_RANGE <= usize::MAX,
        ensures
            proves_chain(old(self).circuit(), final(self).circuit(), input),
    ;

    /// Proves the chain of headers from the newest header back to the
    /// trusted one, and computes the commitment to the data hashes of the
    /// blocks that follow the trusted one.
    fn prove_data_commitment<const WINDOW_RANGE: usize, const NB_LEAVES: usize>(
        &mut self,
        input: CelestiaHeaderChainProofInputVariable<WINDOW_RANGE>,
        data_hashes: &ArrayVariable<Bytes32Variable, WINDOW_RANGE>,
    ) -> (root: Bytes32Variable)
        requires
            old(self).circuit().wf(),
            chain_input_in(&old(self).circuit(), input),
            hashes_in(&old(self).circuit(), data_hashes.data@),
            WINDOW_RANGE <= NB_LEAVES,
            old(self).circuit().slots() + 32 + 64 * WINDOW_RANGE <= usize::MAX,
        ensures
            exists|mid: CircuitBuilder|
                {
                    &&& #[trigger] commits_window(
                        old(self).circuit(),
                        mid,
                        *data_hashes,
                        input.trusted_header.height,
                        NB_LEAVES as int,
                        root,
                    )
                    &&& proves_chain(mid, final(self).circuit(), input)
                },
    ;
}

impl CelestiaCommitment for CircuitBuilder {
    open spec fn circuit(&self) -> CircuitBuilder {
        *self
    }

    fn encode_marshalled_varint(&mut self, marshalled_varint: &BytesVariable<9>) -> (out:
        BytesVariable<11>) {
        let leaf_prefix = self.constant_byte(0);
        let tag = self.constant_byte(8);
        let mut encoded = [leaf_prefix; 11];
        encoded[1] = tag;
        let mut k: usize = 0;
        while k < 9
            invariant
                k <= 9,
                encoded@[0] == leaf_prefix,
                encoded@[1] == tag,
                forall|m: int| 2 <= m < 2 + k ==> #[trigger] encoded@[m] == marshalled_varint.0@[m - 2],
            decreases 9 - k,
        {
            encoded[k + 2] = marshalled_varint.0[k];
            k = k + 1;
        }
        let out = BytesVariable(encoded);
        proof {
            assert(out.0@.subrange(2, 11) =~= marshalled_varint.0@);
            assert forall|w: Seq<u64>| #[trigger] self.defines(w) implies byte_vals(w, out.0@)
                == height_leaf_prefix() + byte_vals(w, marshalled_varint.0@) by {
                assert(byte_vals(w, out.0@) =~= height_leaf_prefix() + byte_vals(
                    w,
                    marshalled_varint.0@,
                ));
            }
        }
        out
    }

    fn encode_data_root_tuple(&mut self, data_hash: &Bytes32Variable, height: &U64Variable) -> (out:
        BytesVariable<64>) {
        let ghost start = *self;
        // The height, in eight bytes.
        let encoded_height = self.encode_u64(height);
        let ghost mid = *self;

        // The height is padded to 32 bytes: 24 zero bytes stand before it.
        let zero = self.constant_byte(0);
        let mut encoded_tuple = [zero; 64];
        let mut k: usize = 0;
        while k < 8
            invariant
                k <= 8,
                encoded_height@.len() == 8,
                forall|m: int| 0 <= m < 24 ==> #[trigger] encoded_tuple@[m] == zero,
                forall|m: int| 24 <= m < 24 + k ==> #[trigger] encoded_tuple@[m] == encoded_height@[m - 24],
            decreases 8 - k,
        {
            encoded_tuple[24 + k] = encoded_height[k];
            k = k + 1;
        }
        // The data hash follows.
        k = 0;
        while k < 32
            invariant
                k <= 32,
                forall|m: int| 0 <= m < 24 ==> #[trigger] encoded_tuple@[m] == zero,
                forall|m: int| 24 <= m < 32 ==> #[trigger] encoded_tuple@[m] == encoded_height@[m - 24],
                forall|m: int| 32 <= m < 32 + k ==> #[trigger] encoded_tuple@[m] == data_hash.0.0@[m - 32],
            decreases 32 - k,
        {
            encoded_tuple[32 + k] = data_hash.0.0[k];
            k = k + 1;
        }
        let out = BytesVariable(encoded_tuple);
        proof {
            assert(out.0@.subrange(32, 64) =~= data_hash.0.0@);
            assert forall|m: int| 0 <= m < 32 implies self.has(
                (#[trigger] out.0@.subrange(0, 32)[m]).0,
            ) by {
                if m >= 24 {
                    assert(out.0@[m] == encoded_height@[m - 24]);
                    assert(mid.has(encoded_height@[m - 24].0));
                } else {
                    assert(out.0@[m] == zero);
                }
            }
            assert forall|w: Seq<u64>| #[trigger] self.defines(w) implies start.defines(w)
                && byte_vals(w, out.0@) == data_root_tuple(
                byte_vals(w, data_hash.0.0@),
                w[height.0.index as int],
            ) by {
                assert(mid.defines(w));
                let tuple = data_root_tuple(byte_vals(w, data_hash.0.0@), w[height.0.index as int]);
                assert(byte_vals(w, encoded_height@) == be_bytes(w[height.0.index as int]));
                assert forall|m: int| 0 <= m < 64 implies byte_vals(w, out.0@)[m] == tuple[m] by {
                    if m < 24 {
                        assert(out.0@[m] == zero);
                    } else if m < 32 {
                        assert(out.0@[m] == encoded_height@[m - 24]);
                        assert(byte_vals(w, encoded_height@)[m - 24] == val(
                            w,
                            encoded_height@[m - 24].0,
                        ));
                    } else {
                        assert(out.0@[m] == data_hash.0.0@[m - 32]);
                    }
                }
                assert(byte_vals(w, out.0@) =~= tuple);
            }
        }
        out
    }

    fn extract_hash_from_protobuf<const START_BYTE: usize, const PROTOBUF_LENGTH_BYTES: usize>(
        &mut self,
        bytes: &BytesVariable<PROTOBUF_LENGTH_BYTES>,
    ) -> (out: Bytes32Variable) {
        let mut hash = [bytes.0[START_BYTE]; 32];
        let mut k: usize = 0;
        while k < 32
            invariant
                k <= 32,
                START_BYTE + 32 <= PROTOBUF_LENGTH_BYTES,
                forall|m: int| 0 <= m < k ==> #[trigger] hash@[m] == bytes.0@[START_BYTE + m],
            decreases 32 - k,
        {
            hash[k] = bytes.0[START_BYTE + k];
            k = k + 1;
        }
        let out = Bytes32Variable(BytesVariable(hash));
        assert(out.0.0@ =~= bytes.0@.subrange(START_BYTE as int, START_BYTE + 32));
        out
    }

    #[verifier::loop_isolation(false)]
    fn get_data_commitment<const WINDOW_RANGE: usize, const NB_LEAVES: usize>(
        &mut self,
        data_hashes: &ArrayVariable<Bytes32Variable, WINDOW_RANGE>,
        start_block: U64Variable,
    ) -> (root: Bytes32Variable) {
        let ghost start = *self;
        let mut leaves: Vec<BytesVariable<64>> = Vec::new();

        let mut i: usize = 0;
        while i < WINDOW_RANGE
            invariant
                i <= WINDOW_RANGE,
                leaves@.len() == i,
                self.grows(&start),
                leaves_in(self, leaves@),
                forall|w: Seq<u64>| #[trigger]
                    self.defines(w) ==> start.defines(w) && forall|m: int|
                        0 <= m < i ==> byte_vals(w, (#[trigger] leaves@[m]).0@) == window_leaf(
                            w,
                            data_hashes.data@,
                            start_block,
                            m,
                        ),
                forall|w: Seq<u64>| #[trigger] self.accepts(w) <==> start.accepts(w),
            decreases WINDOW_RANGE - i,
        {
            let ghost s1 = *self;
            let ghost leaves_before = leaves@;
            let curr_idx = self.constant_u64(i as u64);
            let block_height = self.add_u64(start_block, curr_idx);
            let ghost s2 = *self;
            assert(bytes_in(&s2, data_hashes.data@[i as int].0.0@)) by {
                assert(bytes_in(&start, data_hashes.data@[i as int].0.0@));
                assert forall|k: int| 0 <= k < 32 implies s2.has(
                    (#[trigger] data_hashes.data@[i as int].0.0@[k]).0,
                ) by {
                    assert(start.has(data_hashes.data@[i as int].0.0@[k].0));
                }
            }
            // The tuple of the data hash and the height.
            let leaf = self.encode_data_root_tuple(&data_hashes.data[i], &block_height);
            leaves.push(leaf);
            proof {
                assert forall|m: int| 0 <= m < i + 1 implies bytes_in(
                    self,
                    (#[trigger] leaves@[m]).0@,
                ) by {
                    if m < i {
                        assert(bytes_in(&s1, leaves_before[m].0@));
                        assert forall|k: int| 0 <= k < 64 implies self.has(
                            (#[trigger] leaves@[m].0@[k]).0,
                        ) by {
                            assert(s1.has(leaves_before[m].0@[k].0));
                        }
                    } else {
                        assert forall|k: int| 0 <= k < 64 implies self.has(
                            (#[trigger] leaf.0@[k]).0,
                        ) by {
                            if k < 32 {
                                assert(leaf.0@.subrange(0, 32)[k] == leaf.0@[k]);
                                assert(self.has(leaf.0@.subrange(0, 32)[k].0));
                            } else {
                                assert(leaf.0@.subrange(32, 64)[k - 32] == leaf.0@[k]);
                                assert(start.has(data_hashes.data@[i as int].0.0@[k - 32].0));
                            }
                        }
                    }
                }
                assert forall|w: Seq<u64>| #[trigger] self.defines(w) implies start.defines(w)
                    && forall|m: int|
                    0 <= m < i + 1 ==> byte_vals(w, (#[trigger] leaves@[m]).0@) == window_leaf(
                        w,
                        data_hashes.data@,
                        start_block,
                        m,
                    ) by {
                    assert(s2.defines(w));
                    assert(s1.defines(w));
                    assert forall|m: int| 0 <= m < i + 1 implies byte_vals(
                        w,
                        (#[trigger] leaves@[m]).0@,
                    ) == window_leaf(w, data_hashes.data@, start_block, m) by {
                        if m < i {
                            assert(byte_vals(w, leaves_before[m].0@) == window_leaf(
                                w,
                                data_hashes.data@,
                                start_block,
                                m,
                            ));
                        }
                    }
                }
            }
            i = i + 1;
        }

        // The tree is filled up with zero leaves, which do not count.
        let ghost s3 = *self;
        let zero_leaf = self.constant_bytes::<64>([0u8; 64]);
        let ghost s4 = *self;
        let ghost leaves_real = leaves@;
        while i < NB_LEAVES
            invariant
                WINDOW_RANGE <= i <= NB_LEAVES,
                leaves@.len() == i,
                forall|m: int| 0 <= m < WINDOW_RANGE ==> #[trigger] leaves@[m] == leaves_real[m],
                forall|m: int| WINDOW_RANGE <= m < i ==> #[trigger] leaves@[m] == zero_leaf,
            decreases NB_LEAVES - i,
        {
            leaves.push(zero_leaf);
            i = i + 1;
        }

        let enabled = self.constant_bool(true);
        let disabled = self.constant_bool(false);
        let ghost s5 = *self;
        let mut leaves_enabled: Vec<BoolVariable> = Vec::new();
        i = 0;
        while i < WINDOW_RANGE
            invariant
                i <= WINDOW_RANGE,
                leaves_enabled@.len() == i,
                forall|m: int| 0 <= m < i ==> #[trigger] leaves_enabled@[m] == enabled,
            decreases WINDOW_RANGE - i,
        {
            leaves_enabled.push(enabled);
            i = i + 1;
        }
        while i < NB_LEAVES
            invariant
                WINDOW_RANGE <= i <= NB_LEAVES,
                leaves_enabled@.len() == i,
                forall|m: int| 0 <= m < WINDOW_RANGE ==> #[trigger] leaves_enabled@[m] == enabled,
                forall|m: int| WINDOW_RANGE <= m < i ==> #[trigger] leaves_enabled@[m] == disabled,
            decreases NB_LEAVES - i,
        {
            leaves_enabled.push(disabled);
            i = i + 1;
        }

        let ghost all_leaves = leaves@;
        let ghost all_flags = leaves_enabled@;
        proof {
            assert forall|m: int| 0 <= m < all_leaves.len() implies bytes_in(
                self,
                (#[trigger] all_leaves[m]).0@,
            ) by {
                if m < WINDOW_RANGE {
                    assert(bytes_in(&s3, leaves_real[m].0@));
                    assert forall|k: int| 0 <= k < 64 implies self.has(
                        (#[trigger] all_leaves[m].0@[k]).0,
                    ) by {
                        assert(s3.has(leaves_real[m].0@[k].0));
                    }
                } else {
                    assert forall|k: int| 0 <= k < 64 implies self.has(
                        (#[trigger] all_leaves[m].0@[k]).0,
                    ) by {
                        assert(s4.has(zero_leaf.0@[k].0));
                    }
                }
            }
        }
        let root = self.compute_root_from_leaves::<NB_LEAVES, 64>(leaves, leaves_enabled);
        proof {
            assert(is_leaves_root(self.calls().last(), all_leaves, all_flags, root));
            assert(self.calls().drop_last() == start.calls());
            let call = self.calls().last();
            let rows = call_leaves(call);
            let flags = call_flags(call);
            assert forall|w: Seq<u64>| #[trigger] self.defines(w) implies start.defines(w)
                && commits(w, call, data_hashes.data@, start_block, NB_LEAVES as int) by {
                assert(s5.defines(w));
                assert(s4.defines(w));
                assert(s3.defines(w));
                assert forall|m: int| 0 <= m < NB_LEAVES implies vals(w, (#[trigger] rows[m])@)
                    == window_leaf(w, data_hashes.data@, start_block, m) by {
                    assert(rows[m]@ == wires(all_leaves[m].0@));
                    if m < WINDOW_RANGE {
                        assert(all_leaves[m] == leaves_real[m]);
                        assert(byte_vals(w, leaves_real[m].0@) == window_leaf(
                            w,
                            data_hashes.data@,
                            start_block,
                            m,
                        ));
                    } else {
                        assert(all_leaves[m] == zero_leaf);
                        assert forall|k: int| 0 <= k < 64 implies val(
                            w,
                            (#[trigger] zero_leaf.0@[k]).0,
                        ) == 0 by {}
                        assert(byte_vals(w, zero_leaf.0@) =~= zero_tuple());
                    }
                }
                assert forall|m: int| 0 <= m < NB_LEAVES implies val(w, #[trigger] flags[m]) == if m
                    < WINDOW_RANGE {
                    1int
                } else {
                    0int
                } by {
                    assert(flags[m] == all_flags[m].0);
                }
            }
        }
        root
    }

    #[verifier::loop_isolation(false)]
    fn prove_header_chain<const WINDOW_RANGE: usize>(
        &mut self,
        input: CelestiaHeaderChainProofInputVariable<WINDOW_RANGE>,
    ) {
        let ghost start = *self;
        let ghost n0 = start.calls().len() as int;
        // The newest height is the trusted height plus the window.
        let height_diff = self.sub_u64(input.current_header.height, input.trusted_header.height);
        let window_range_target = self.constant_u64(WINDOW_RANGE as u64);
        self.assert_is_equal_u64(height_diff, window_range_target);
        let ghost s1 = *self;
        proof {
            lemma_input_stays(&start, &s1, input);
        }

        // The height of the newest header.
        self.verify_block_height(
            input.current_header.header,
            &input.current_header.header_height_proof.aunts,
            &input.current_header.height,
            input.current_header.height_byte_length,
        );
        let ghost s2 = *self;
        proof {
            lemma_input_stays(&start, &s2, input);
        }

        // The height of the trusted header.
        self.verify_block_height(
            input.trusted_header.header,
            &input.trusted_header.header_height_proof.aunts,
            &input.trusted_header.height,
            input.trusted_header.height_byte_length,
        );
        let ghost s3 = *self;
        proof {
            assert(s2.calls() =~= start.calls().push(s2.calls().last()));
            assert(s3.calls() =~= s2.calls().push(s3.calls().last()));
            assert(s3.calls().subrange(0, n0) =~= start.calls());
            assert forall|w: Seq<u64>| #[trigger] s3.defines(w) implies start.defines(w) && (
            s3.accepts(w) <==> start.accepts(w) && heights_apart(w, input)) by {
                assert(s2.defines(w));
                assert(s1.defines(w));
                assert(s3.accepts(w) <==> s2.accepts(w));
                assert(s2.accepts(w) <==> s1.accepts(w));
            }
        }

        // The chain of headers.
        let mut curr_header_hash = input.current_header.header;
        let mut i: usize = 0;
        while i < WINDOW_RANGE
            invariant
                i <= WINDOW_RANGE,
                self.wf(),
                self.keeps(&s3),
                self.slots() == s3.slots() + 64 * i,
                self.calls().len() == n0 + 2 + 2 * i,
                self.calls().subrange(0, n0 + 2) == s3.calls(),
                forall|m: int|
                    0 <= m < i ==> proof_call_of(
                        #[trigger] data_call(self.calls(), n0 + 2, m),
                        input.data_hash_proofs.data@[m],
                    ),
                forall|m: int|
                    0 <= m < i ==> proof_call_of(
                        #[trigger] prev_call(self.calls(), n0 + 2, m),
                        input.prev_header_proofs.data@[m],
                    ),
                curr_header_hash.0.0@ == hop_hash(input, i as int),
                forall|w: Seq<u64>| #[trigger] self.defines(w) ==> s3.defines(w),
                forall|w: Seq<u64>| #[trigger]
                    self.accepts(w) <==> s3.accepts(w) && forall|m: int|
                        0 <= m < i ==> #[trigger] hop_holds(w, input, self.calls(), n0 + 2, m),
            decreases WINDOW_RANGE - i,
        {
            let ghost s4 = *self;
            proof {
                lemma_input_stays(&start, &s4, input);
                lemma_hop_hash_in(&s4, input, i as int);
            }
            let data_hash_proof = &input.data_hash_proofs.data[i];
            let prev_header_proof = &input.prev_header_proofs.data[i];

            let data_hash_proof_root = self.get_root_from_merkle_proof::<
                HEADER_PROOF_DEPTH,
                PROTOBUF_HASH_SIZE_BYTES,
            >(data_hash_proof);
            let ghost s5 = *self;
            proof {
                lemma_input_stays(&start, &s5, input);
            }
            let prev_header_proof_root = self.get_root_from_merkle_proof::<
                HEADER_PROOF_DEPTH,
                PROTOBUF_BLOCK_ID_SIZE_BYTES,
            >(prev_header_proof);
            let ghost s6 = *self;
            proof {
                lemma_bytes_stay(&s4, &s6, curr_header_hash.0.0@);
                lemma_root_in(&s5, &s6, prev_header_proof_root);
            }

            // The block id is proved under the hash of the header that the hop starts from.
            self.assert_is_equal_bytes32(prev_header_proof_root, curr_header_hash);
            let ghost s7 = *self;

            // The hash of the header that the hop arrives at.
            let prev_header_hash = self.extract_hash_from_protobuf::<
                2,
                PROTOBUF_BLOCK_ID_SIZE_BYTES,
            >(&prev_header_proof.leaf);
            proof {
                lemma_root_in(&s4, &s5, data_hash_proof_root);
                lemma_bytes_stay(&s5, &s7, data_hash_proof_root.0.0@);
                lemma_input_stays(&start, &s7, input);
                lemma_hop_hash_in(&s7, input, i as int + 1);
            }

            // The data hash is proved under that hash.
            self.assert_is_equal_bytes32(data_hash_proof_root, prev_header_hash);

            curr_header_hash = prev_header_hash;
            proof {
                let base = n0 + 2;
                let calls = self.calls();
                assert(s5.calls() =~= s4.calls().push(s5.calls().last()));
                assert(s6.calls() =~= s5.calls().push(s6.calls().last()));
                assert(calls == s6.calls());
                assert(calls.subrange(0, base) =~= s3.calls()) by {
                    assert forall|k: int| 0 <= k < base implies calls[k] == s3.calls()[k] by {
                        assert(s4.calls().subrange(0, base)[k] == s4.calls()[k]);
                    }
                }
                assert(data_call(calls, base, i as int) == s5.calls().last());
                assert(prev_call(calls, base, i as int) == s6.calls().last());
                assert forall|m: int| 0 <= m < i + 1 implies proof_call_of(
                    #[trigger] data_call(calls, base, m),
                    input.data_hash_proofs.data@[m],
                ) by {
                    if m < i {
                        assert(data_call(calls, base, m) == data_call(s4.calls(), base, m));
                    }
                }
                assert forall|m: int| 0 <= m < i + 1 implies proof_call_of(
                    #[trigger] prev_call(calls, base, m),
                    input.prev_header_proofs.data@[m],
                ) by {
                    if m < i {
                        assert(prev_call(calls, base, m) == prev_call(s4.calls(), base, m));
                    }
                }
                assert forall|w: Seq<u64>| #[trigger] self.defines(w) implies s3.defines(w) by {
                    assert(s7.defines(w));
                    assert(s6.defines(w));
                    assert(s5.defines(w));
                    assert(s4.defines(w));
                }
                assert forall|w: Seq<u64>| #[trigger]
                    self.accepts(w) <==> s3.accepts(w) && forall|m: int|
                        0 <= m < i + 1 ==> #[trigger] hop_holds(w, input, calls, base, m) by {
                    assert(self.accepts(w) <==> s7.accepts(w) && byte_vals(
                        w,
                        data_hash_proof_root.0.0@,
                    ) == byte_vals(w, prev_header_hash.0.0@));
                    assert(s7.accepts(w) <==> s6.accepts(w) && byte_vals(
                        w,
                        prev_header_proof_root.0.0@,
                    ) == byte_vals(w, hop_hash(input, i as int)));
                    assert(s6.accepts(w) <==> s5.accepts(w) && root_is_bytes(
                        w,
                        wires(prev_header_proof_root.0.0@),
                    ));
                    assert(s5.accepts(w) <==> s4.accepts(w) && root_is_bytes(
                        w,
                        wires(data_hash_proof_root.0.0@),
                    ));
                    assert(hop_holds(w, input, calls, base, i as int) <==> {
                        &&& root_is_bytes(w, wires(data_hash_proof_root.0.0@))
                        &&& root_is_bytes(w, wires(prev_header_proof_root.0.0@))
                        &&& byte_vals(w, prev_header_proof_root.0.0@) == byte_vals(
                            w,
                            hop_hash(input, i as int),
                        )
                        &&& byte_vals(w, data_hash_proof_root.0.0@) == byte_vals(
                            w,
                            hop_hash(input, i as int + 1),
                        )
                    });
                    assert forall|m: int| 0 <= m < i implies (#[trigger] hop_holds(
                        w,
                        input,
                        calls,
                        base,
                        m,
                    ) <==> hop_holds(w, input, s4.calls(), base, m)) by {
                        assert(data_call(calls, base, m) == data_call(s4.calls(), base, m));
                        assert(prev_call(calls, base, m) == prev_call(s4.calls(), base, m));
                    }
                    if self.accepts(w) {
                        assert(s4.accepts(w));
                        assert forall|m: int| 0 <= m < i + 1 implies #[trigger] hop_holds(
                            w,
                            input,
                            calls,
                            base,
                            m,
                        ) by {
                            if m < i {
                                assert(hop_holds(w, input, s4.calls(), base, m));
                            }
                        }
                    }
                    if s3.accepts(w) && forall|m: int|
                        0 <= m < i + 1 ==> #[trigger] hop_holds(w, input, calls, base, m) {
                        assert forall|m: int| 0 <= m < i implies #[trigger] hop_holds(
                            w,
                            input,
                            s4.calls(),
                            base,
                            m,
                        ) by {
                            assert(hop_holds(w, input, calls, base, m));
                        }
                        assert(hop_holds(w, input, calls, base, i as int));
                        assert(s4.accepts(w));
                    }
                }
            }
            i = i + 1;
        }
        // The last hop arrives at the trusted header.
        let ghost s8 = *self;
        proof {
            lemma_input_stays(&start, &s8, input);
            lemma_hop_hash_in(&s8, input, WINDOW_RANGE as int);
        }
        self.assert_is_equal_bytes32(curr_header_hash, input.trusted_header.header);
        proof {
            let calls = self.calls();
            assert(calls.subrange(0, n0) =~= start.calls()) by {
                assert forall|k: int| 0 <= k < n0 implies calls[k] == start.calls()[k] by {
                    assert(calls.subrange(0, n0 + 2)[k] == calls[k]);
                    assert(s3.calls().subrange(0, n0)[k] == s3.calls()[k]);
                }
            }
            assert(calls[n0] == s2.calls().last()) by {
                assert(calls.subrange(0, n0 + 2)[n0] == calls[n0]);
            }
            assert(calls[n0 + 1] == s3.calls().last()) by {
                assert(calls.subrange(0, n0 + 2)[n0 + 1] == calls[n0 + 1]);
            }
            assert forall|w: Seq<u64>| #[trigger] self.defines(w) implies start.defines(w) && (
            self.accepts(w) <==> start.accepts(w) && chain_holds(w, input, calls, n0 + 2)) by {
                assert(s8.defines(w));
                assert(s3.defines(w));
                assert(self.accepts(w) <==> s8.accepts(w) && byte_vals(
                    w,
                    hop_hash(input, WINDOW_RANGE as int),
                ) == byte_vals(w, input.trusted_header.header.0.0@));
                assert(s8.accepts(w) <==> s3.accepts(w) && forall|m: int|
                    0 <= m < WINDOW_RANGE ==> #[trigger] hop_holds(w, input, calls, n0 + 2, m));
                assert(s3.accepts(w) <==> start.accepts(w) && heights_apart(w, input));
            }
        }
    }

    fn prove_data_commitment<const WINDOW_RANGE: usize, const NB_LEAVES: usize>(
        &mut self,
        input: CelestiaHeaderChainProofInputVariable<WINDOW_RANGE>,
        data_hashes: &ArrayVariable<Bytes32Variable, WINDOW_RANGE>,
    ) -> (root: Bytes32Variable) {
        // The commitment to the data hashes.
        let data_commitment = self.get_data_commitment::<WINDOW_RANGE, NB_LEAVES>(
            data_hashes,
            input.trusted_header.height,
        );
        let ghost mid = *self;
        proof {
            lemma_input_stays(old(self), &mid, input);
        }
        // The chain of headers.
        self.prove_header_chain::<WINDOW_RANGE>(input);
        proof {
            assert(commits_window(
                *old(self),
                mid,
                *data_hashes,
                input.trusted_header.height,
                NB_LEAVES as int,
                data_commitment,
            ));
            assert(proves_chain(mid, *self, input));
        }
        data_commitment
    }
}

/// The leaves of the tree over a window, under `w`: the tuples of the
/// blocks, and zero leaves up to `capacity`.
pub open spec fn window_leaves(
    w: Seq<u64>,
    data_hashes: Seq<Bytes32Variable>,
    start_block: U64Variable,
    capacity: int,
) -> Seq<Seq<int>> {
    Seq::new(capacity as nat, |i: int| window_leaf(w, data_hashes, start_block, i))
}

/// The flags of the tree over a window of `blocks` blocks: one for each
/// block, zero for each leaf beyond, up to `capacity`.
pub open spec fn window_flags(blocks: int, capacity: int) -> Seq<int> {
    Seq::new(capacity as nat, |i: int| if i < blocks { 1int } else { 0int })
}

/// What the commitment is: where every call has the result that its gadget
/// computes, the root that `get_data_commitment` hands back is the gadget's
/// root of the leaves of the window with the flags of the window.
pub proof fn lemma_commitment_is_root_of_window<const W: usize>(
    before: CircuitBuilder,
    after: CircuitBuilder,
    data_hashes: ArrayVariable<Bytes32Variable, W>,
    start_block: U64Variable,
    capacity: int,
    root: Bytes32Variable,
    g: Gadgets,
    w: Seq<u64>,
)
    requires
        commits_window(before, after, data_hashes, start_block, capacity, root),
        after.defines(w),
        calls_hold(&after, g, w),
    ensures
        byte_vals(w, root.0.0@) == (g.leaves_root)(
            window_leaves(w, data_hashes.data@, start_block, capacity),
            window_flags(W as int, capacity),
        ),
{
    let c = after.calls().last();
    assert(call_holds(g, c, w));
    assert(commits(w, c, data_hashes.data@, start_block, capacity));
    match c {
        GadgetCall::LeavesRoot { leaves, enabled, root: r } => {
            assert(row_vals(w, leaves@) =~= window_leaves(
                w,
                data_hashes.data@,
                start_block,
                capacity,
            )) by {
                assert forall|i: int| 0 <= i < capacity implies row_vals(w, leaves@)[i]
                    == window_leaf(w, data_hashes.data@, start_block, i) by {
                    assert(vals(w, call_leaves(c)[i]@) == window_leaf(
                        w,
                        data_hashes.data@,
                        start_block,
                        i,
                    ));
                }
            }
            assert(vals(w, enabled@) =~= window_flags(W as int, capacity)) by {
                assert forall|i: int| 0 <= i < capacity implies vals(w, enabled@)[i]
                    == window_flags(W as int, capacity)[i] by {
                    assert(val(w, call_flags(c)[i]) == if i < W {
                        1int
                    } else {
                        0int
                    });
                }
            }
        },
        _ => {},
    }
}

/// Where the tree has as many leaves as the window has blocks, nothing is
/// padded: the commitment is the gadget's root of the tuples of the blocks,
/// every one of which counts.
pub proof fn lemma_full_window<const W: usize>(
    before: CircuitBuilder,
    after: CircuitBuilder,
    data_hashes: ArrayVariable<Bytes32Variable, W>,
    start_block: U64Variable,
    root: Bytes32Variable,
    g: Gadgets,
    w: Seq<u64>,
)
    requires
        commits_window(before, after, data_hashes, start_block, W as int, root),
        after.defines(w),
        calls_hold(&after, g, w),
    ensures
        byte_vals(w, root.0.0@) == (g.leaves_root)(
            Seq::new(
                W as nat,
                |i: int|
                    data_root_tuple(
                        byte_vals(w, data_hashes.data@[i].0.0@),
                        ((val(w, start_block.0) + i) % two_64()) as u64,
                    ),
            ),
            Seq::new(W as nat, |i: int| 1int),
        ),
{
    lemma_commitment_is_root_of_window(
        before,
        after,
        data_hashes,
        start_block,
        W as int,
        root,
        g,
        w,
    );
    assert(window_leaves(w, data_hashes.data@, start_block, W as int) =~= Seq::new(
        W as nat,
        |i: int|
            data_root_tuple(
                byte_vals(w, data_hashes.data@[i].0.0@),
                ((val(w, start_block.0) + i) % two_64()) as u64,
            ),
    ));
    assert(window_flags(W as int, W as int) =~= Seq::new(W as nat, |i: int| 1int));
}

/// The commitment depends on the window alone: two circuits that commit to
/// windows of the same size, in trees of the same size, hand back the same
/// root wherever their data hashes and their first heights hold the same
/// values and their calls have the results that the same gadgets compute.
/// This holds of any two circuits that `get_data_commitment` or
/// `prove_data_commitment` has extended.
pub proof fn lemma_same_window_same_root<const W: usize>(
    before1: CircuitBuilder,
    after1: CircuitBuilder,
    hashes1: ArrayVariable<Bytes32Variable, W>,
    start1: U64Variable,
    root1: Bytes32Variable,
    w1: Seq<u64>,
    before2: CircuitBuilder,
    after2: CircuitBuilder,
    hashes2: ArrayVariable<Bytes32Variable, W>,
    start2: U64Variable,
    root2: Bytes32Variable,
    w2: Seq<u64>,
    capacity: int,
    g: Gadgets,
)
    requires
        commits_window(before1, after1, hashes1, start1, capacity, root1),
        commits_window(before2, after2, hashes2, start2, capacity, root2),
        after1.defines(w1),
        after2.defines(w2),
        calls_hold(&after1, g, w1),
        calls_hold(&after2, g, w2),
        val(w1, start1.0) == val(w2, start2.0),
        forall|k: int|
            0 <= k < W ==> byte_vals(w1, (#[trigger] hashes1.data@[k]).0.0@) == byte_vals(
                w2,
                hashes2.data@[k].0.0@,
            ),
    ensures
        byte_vals(w1, root1.0.0@) == byte_vals(w2, root2.0.0@),
{
    lemma_commitment_is_root_of_window(before1, after1, hashes1, start1, capacity, root1, g, w1);
    lemma_commitment_is_root_of_window(before2, after2, hashes2, start2, capacity, root2, g, w2);
    assert(window_leaves(w1, hashes1.data@, start1, capacity) =~= window_leaves(
        w2,
        hashes2.data@,
        start2,
        capacity,
    )) by {
        assert forall|i: int| 0 <= i < capacity implies window_leaf(w1, hashes1.data@, start1, i)
            == window_leaf(w2, hashes2.data@, start2, i) by {
            if i < W {
                assert(byte_vals(w1, hashes1.data@[i].0.0@) == byte_vals(
                    w2,
                    hashes2.data@[i].0.0@,
                ));
            }
        }
    }
}

/// Whether, by the gadgets `g`, the height of `h` fits its hash under `w`.
pub open spec fn header_height_fits(g: Gadgets, w: Seq<u64>, h: HeaderVariable) -> bool {
    (g.height_fits)(
        byte_vals(w, h.header.0.0@),
        hash_vals(w, h.header_height_proof.aunts.data@),
        val(w, h.height.0),
        val(w, h.height_byte_length.0),
    )
}

/// Whether, by the gadgets `g`, the chain of `input` is linked under `w`:
/// the heights of the newest and of the trusted header fit their hashes and
/// are the window apart; for each hop, the block id of the hop is proved
/// under the hash of the header that the hop starts from, and the data hash
/// of the hop under the hash that stands in that block id; and the hash in
/// the block id of the last hop is the hash of the trusted header.
pub open spec fn chain_linked<const W: usize>(
    g: Gadgets,
    w: Seq<u64>,
    input: CelestiaHeaderChainProofInputVariable<W>,
) -> bool {
    &&& heights_apart(w, input)
    &&& header_height_fits(g, w, input.current_header)
    &&& header_height_fits(g, w, input.trusted_header)
    &&& forall|i: int|
        0 <= i < W ==> root_of_proof(g, w, #[trigger] input.prev_header_proofs.data@[i])
            == byte_vals(w, hop_hash(input, i))
    &&& forall|i: int|
        0 <= i < W ==> root_of_proof(g, w, #[trigger] input.data_hash_proofs.data@[i])
            == byte_vals(w, hop_hash(input, i + 1))
    &&& byte_vals(w, hop_hash(input, W as int)) == byte_vals(w, input.trusted_header.header.0.0@)
}

/// Whether under `w` the roots that the hops have asked for are bytes.
pub open spec fn hop_roots_are_bytes(w: Seq<u64>, calls: Seq<GadgetCall>, base: int, hops: int) -> bool {
    forall|i: int|
        0 <= i < hops ==> root_is_bytes(w, call_root(#[trigger] data_call(calls, base, i)))
            && root_is_bytes(w, call_root(prev_call(calls, base, i)))
}

/// What the constraints of a header chain mean: where every call has the
/// result that its gadget computes, the circuit is satisfied exactly where
/// it was before, the roots are bytes, and the chain is linked.
pub proof fn lemma_chain_is_linked<const W: usize>(
    before: CircuitBuilder,
    after: CircuitBuilder,
    input: CelestiaHeaderChainProofInputVariable<W>,
    g: Gadgets,
    w: Seq<u64>,
)
    requires
        proves_chain(before, after, input),
        after.defines(w),
        calls_hold(&after, g, w),
    ensures
        after.accepts(w) <==> before.accepts(w) && chain_linked(g, w, input)
            && hop_roots_are_bytes(w, after.calls(), before.calls().len() as int + 2, W as int),
{
    let n0 = before.calls().len() as int;
    let base = n0 + 2;
    let calls = after.calls();
    assert(after.accepts(w) <==> before.accepts(w) && chain_holds(w, input, calls, base));
    // The two height checks.
    assert(call_holds(g, calls[n0], w));
    assert(call_holds(g, calls[n0 + 1], w));
    assert(header_height_fits(g, w, input.current_header)) by {
        match calls[n0] {
            GadgetCall::BlockHeight { header, aunts, height, byte_length } => {
                assert(row_vals(w, aunts@) =~= hash_vals(
                    w,
                    input.current_header.header_height_proof.aunts.data@,
                ));
            },
            _ => {},
        }
    }
    assert(header_height_fits(g, w, input.trusted_header)) by {
        match calls[n0 + 1] {
            GadgetCall::BlockHeight { header, aunts, height, byte_length } => {
                assert(row_vals(w, aunts@) =~= hash_vals(
                    w,
                    input.trusted_header.header_height_proof.aunts.data@,
                ));
            },
            _ => {},
        }
    }
    // The roots of the hops.
    assert forall|i: int| 0 <= i < W implies vals(w, call_root(data_call(calls, base, i)))
        == root_of_proof(g, w, #[trigger] input.data_hash_proofs.data@[i]) by {
        let c = data_call(calls, base, i);
        assert(call_holds(g, calls[base + 2 * i], w));
        lemma_proof_call_holds(g, c, w, input.data_hash_proofs.data@[i]);
    }
    assert forall|i: int| 0 <= i < W implies vals(w, call_root(prev_call(calls, base, i)))
        == root_of_proof(g, w, #[trigger] input.prev_header_proofs.data@[i]) by {
        let c = prev_call(calls, base, i);
        assert(call_holds(g, calls[base + 2 * i + 1], w));
        lemma_proof_call_holds(g, c, w, input.prev_header_proofs.data@[i]);
    }
    if chain_holds(w, input, calls, base) {
        assert forall|i: int| 0 <= i < W implies root_of_proof(
            g,
            w,
            #[trigger] input.prev_header_proofs.data@[i],
        ) == byte_vals(w, hop_hash(input, i)) by {
            assert(hop_holds(w, input, calls, base, i));
        }
        assert forall|i: int| 0 <= i < W implies root_of_proof(
            g,
            w,
            #[trigger] input.data_hash_proofs.data@[i],
        ) == byte_vals(w, hop_hash(input, i + 1)) by {
            assert(hop_holds(w, input, calls, base, i));
        }
        assert forall|i: int| 0 <= i < W implies root_is_bytes(
            w,
            call_root(#[trigger] data_call(calls, base, i)),
        ) && root_is_bytes(w, call_root(prev_call(calls, base, i))) by {
            assert(hop_holds(w, input, calls, base, i));
        }
    }
    if chain_linked(g, w, input) && hop_roots_are_bytes(w, calls, base, W as int) {
        assert forall|i: int| 0 <= i < W implies #[trigger] hop_holds(
            w,
            input,
            calls,
            base,
            i,
        ) by {
            assert(root_is_bytes(w, call_root(data_call(calls, base, i))));
            assert(root_of_proof(g, w, input.prev_header_proofs.data@[i]) == byte_vals(
                w,
                hop_hash(input, i),
            ));
            assert(root_of_proof(g, w, input.data_hash_proofs.data@[i]) == byte_vals(
                w,
                hop_hash(input, i + 1),
            ));
        }
    }
}

/// What `prove_data_commitment` establishes from end to end: where every
/// call has the result that its gadget computes, the root that is handed
/// back is the gadget's root of the leaves of the window that starts at the
/// trusted height, and the circuit is satisfied exactly where it was
/// before, the roots are bytes, and the chain from the newest header back to
/// the trusted one is linked.
pub proof fn lemma_data_commitment_is_proved<const W: usize>(
    before: CircuitBuilder,
    mid: CircuitBuilder,
    after: CircuitBuilder,
    input: CelestiaHeaderChainProofInputVariable<W>,
    data_hashes: ArrayVariable<Bytes32Variable, W>,
    capacity: int,
    root: Bytes32Variable,
    g: Gadgets,
    w: Seq<u64>,
)
    requires
        commits_window(before, mid, data_hashes, input.trusted_header.height, capacity, root),
        proves_chain(mid, after, input),
        after.defines(w),
        calls_hold(&after, g, w),
    ensures
        byte_vals(w, root.0.0@) == (g.leaves_root)(
            window_leaves(w, data_hashes.data@, input.trusted_header.height, capacity),
            window_flags(W as int, capacity),
        ),
        after.accepts(w) <==> before.accepts(w) && root_is_bytes(w, wires(root.0.0@))
            && chain_linked(g, w, input) && hop_roots_are_bytes(
            w,
            after.calls(),
            before.calls().len() as int + 3,
            W as int,
        ),
{
    assert(mid.defines(w));
    assert(calls_hold(&mid, g, w)) by {
        assert forall|k: int| 0 <= k < mid.calls().len() implies call_holds(
            g,
            #[trigger] mid.calls()[k],
            w,
        ) by {
            assert(after.calls().subrange(0, mid.calls().len() as int)[k] == after.calls()[k]);
            assert(call_holds(g, after.calls()[k], w));
        }
    }
    lemma_commitment_is_root_of_window(
        before,
        mid,
        data_hashes,
        input.trusted_header.height,
        capacity,
        root,
        g,
        w,
    );
    lemma_chain_is_linked(mid, after, input, g, w);
}

/// A circuit that has grown keeps the wires of a header.
pub proof fn lemma_header_stays(c1: &CircuitBuilder, c2: &CircuitBuilder, h: HeaderVariable)
    requires
        header_in(c1, h),
        c1.len() <= c2.len(),
    ensures
        header_in(c2, h),
{
    lemma_bytes_stay(c1, c2, h.header.0.0@);
    lemma_proof_stays(c1, c2, h.header_height_proof);
}

/// A circuit that has grown keeps the wires of the input of a header chain.
pub proof fn lemma_input_stays<const W: usize>(
    c1: &CircuitBuilder,
    c2: &CircuitBuilder,
    input: CelestiaHeaderChainProofInputVariable<W>,
)
    requires
        chain_input_in(c1, input),
        c1.len() <= c2.len(),
    ensures
        chain_input_in(c2, input),
{
    lemma_header_stays(c1, c2, input.current_header);
    lemma_header_stays(c1, c2, input.trusted_header);
    assert forall|i: int| 0 <= i < W implies proof_in(
        c2,
        #[trigger] input.data_hash_proofs.data@[i],
    ) by {
        lemma_proof_stays(c1, c2, input.data_hash_proofs.data@[i]);
    }
    assert forall|i: int| 0 <= i < W implies proof_in(
        c2,
        #[trigger] input.prev_header_proofs.data@[i],
    ) by {
        lemma_proof_stays(c1, c2, input.prev_header_proofs.data@[i]);
    }
}

/// The hash from which a hop starts stands on wires of the circuit.
proof fn lemma_hop_hash_in<const W: usize>(
    c: &CircuitBuilder,
    input: CelestiaHeaderChainProofInputVariable<W>,
    i: int,
)
    requires
        chain_input_in(c, input),
        0 <= i <= W,
    ensures
        bytes_in(c, hop_hash(input, i)),
        hop_hash(input, i).len() == 32,
{
    if i > 0 {
        let leaf = input.prev_header_proofs.data@[i - 1].leaf.0@;
        assert(proof_in(c, input.prev_header_proofs.data@[i - 1]));
        assert forall|k: int| 0 <= k < 32 implies c.has((#[trigger] leaf.subrange(2, 34)[k]).0) by {
            assert(c.has(leaf[k + 2].0));
        }
    }
}

/// The root that a call has put on new inputs stands on wires of the circuit.
proof fn lemma_root_in(before: &CircuitBuilder, after: &CircuitBuilder, root: Bytes32Variable)
    requires
        takes_root(before, after, root),
    ensures
        bytes_in(after, root.0.0@),
{
    assert forall|k: int| 0 <= k < 32 implies after.has((#[trigger] root.0.0@[k]).0) by {}
}

} // verus!
