//! Merkle gadgets. The circuit does not hash: it records which gadget is
//! used on which wires, and takes the wires of the gadget's result as
//! inputs.

use vstd::prelude::*;
use crate::circuit::{all_below, rows_below, val, CircuitBuilder, GadgetCall, Target};
use crate::vars::{
    bool_wires,
    byte_vals,
    bytes_in,
    rows_are_hashes,
    rows_are_leaves,
    rows_of_hashes,
    targets_of,
    vals,
    wires,
    ArrayVariable,
    BoolVariable,
    ByteVariable,
    Bytes32Variable,
    BytesVariable,
    U32Variable,
    U64Variable,
    BYTE_MAX,
};

verus! {

/// A leaf with the sibling hashes that lead from it to a root, from the
/// leaf upward, and for each level the side on which the sibling stands.
#[derive(Clone, Copy, Debug)]
pub struct MerkleInclusionProofVariable<const DEPTH: usize, const LEAF_SIZE_BYTES: usize> {
    pub aunts: ArrayVariable<Bytes32Variable, DEPTH>,
    pub path_indices: ArrayVariable<BoolVariable, DEPTH>,
    pub leaf: BytesVariable<LEAF_SIZE_BYTES>,
}

/// Whether every wire of every hash is a wire of `c`.
pub open spec fn hashes_in(c: &CircuitBuilder, hashes: Seq<Bytes32Variable>) -> bool {
    forall|i: int| 0 <= i < hashes.len() ==> bytes_in(c, (#[trigger] hashes[i]).0.0@)
}

/// Whether every wire of every bit is a wire of `c`.
pub open spec fn bools_in(c: &CircuitBuilder, bits: Seq<BoolVariable>) -> bool {
    forall|i: int| 0 <= i < bits.len() ==> c.has((#[trigger] bits[i]).0)
}

/// Whether every wire of every leaf is a wire of `c`.
pub open spec fn leaves_in<const L: usize>(c: &CircuitBuilder, leaves: Seq<BytesVariable<L>>) -> bool {
    forall|i: int| 0 <= i < leaves.len() ==> bytes_in(c, (#[trigger] leaves[i]).0@)
}

/// Whether every wire of the proof is a wire of `c`.
pub open spec fn proof_in<const D: usize, const L: usize>(
    c: &CircuitBuilder,
    proof: MerkleInclusionProofVariable<D, L>,
) -> bool {
    &&& hashes_in(c, proof.aunts.data@)
    &&& bools_in(c, proof.path_indices.data@)
    &&& bytes_in(c, proof.leaf.0@)
}

/// The wires on which the call puts a root; none for a call that has no result.
pub open spec fn call_root(c: GadgetCall) -> Seq<Target> {
    match c {
        GadgetCall::ProofRoot { leaf, aunts, path_indices, root } => root@,
        GadgetCall::LeavesRoot { leaves, enabled, root } => root@,
        GadgetCall::BlockHeight { header, aunts, height, byte_length } => Seq::empty(),
    }
}

/// Whether `w` gives every wire of `root` a byte.
pub open spec fn root_is_bytes(w: Seq<u64>, root: Seq<Target>) -> bool {
    forall|k: int| 0 <= k < root.len() ==> val(w, #[trigger] root[k]) <= BYTE_MAX
}

/// Whether `c` asks for the root that `proof` leads to.
pub open spec fn proof_call_of<const D: usize, const L: usize>(
    c: GadgetCall,
    proof: MerkleInclusionProofVariable<D, L>,
) -> bool {
    match c {
        GadgetCall::ProofRoot { leaf, aunts, path_indices, root } => {
            &&& leaf@ == wires(proof.leaf.0@)
            &&& rows_are_hashes(aunts@, proof.aunts.data@)
            &&& path_indices@ == bool_wires(proof.path_indices.data@)
            &&& root@.len() == 32
        },
        _ => false,
    }
}

/// Whether `c` asks for the root that `proof` leads to, on the wires `root`.
pub open spec fn is_proof_root<const D: usize, const L: usize>(
    c: GadgetCall,
    proof: MerkleInclusionProofVariable<D, L>,
    root: Bytes32Variable,
) -> bool {
    proof_call_of(c, proof) && call_root(c) == wires(root.0.0@)
}

/// Whether `c` asks for the root of the tree over `leaves` with the flags
/// `enabled`, on the wires `root`.
pub open spec fn is_leaves_root<const L: usize>(
    c: GadgetCall,
    leaves: Seq<BytesVariable<L>>,
    enabled: Seq<BoolVariable>,
    root: Bytes32Variable,
) -> bool {
    match c {
        GadgetCall::LeavesRoot { leaves: rows, enabled: flags, root: r } => {
            &&& rows_are_leaves(rows@, leaves)
            &&& flags@ == bool_wires(enabled)
            &&& r@ == wires(root.0.0@)
        },
        _ => false,
    }
}

/// Whether `c` asks for the check that the header with hash `header` has
/// the height `height`, encoded in `byte_length` bytes, by the sibling
/// hashes `aunts`.
pub open spec fn is_block_height(
    c: GadgetCall,
    header: Bytes32Variable,
    aunts: Seq<Bytes32Variable>,
    height: U64Variable,
    byte_length: U32Variable,
) -> bool {
    match c {
        GadgetCall::BlockHeight { header: h, aunts: rows, height: t, byte_length: n } => {
            &&& h@ == wires(header.0.0@)
            &&& rows_are_hashes(rows@, aunts)
            &&& t == height.0
            &&& n == byte_length.0
        },
        _ => false,
    }
}

/// Whether `after` is `before` with one call added, whose result stands on
/// 32 new inputs of one byte each: the wires of `root`.
pub open spec fn takes_root(before: &CircuitBuilder, after: &CircuitBuilder, root: Bytes32Variable) -> bool {
    &&& after.reads_wires(before, 32, BYTE_MAX)
    &&& forall|k: int| 0 <= k < 32 ==> (#[trigger] root.0.0@[k]).0.index == before.len() + k
    &&& after.calls().len() == before.calls().len() + 1
    &&& after.calls().drop_last() == before.calls()
    &&& forall|w: Seq<u64>| #[trigger]
        after.accepts(w) <==> before.accepts(w) && root_is_bytes(w, wires(root.0.0@))
}

/// The wires of a sequence of bits.
pub fn targets_of_bools(bits: &Vec<BoolVariable>) -> (out: Vec<Target>)
    ensures
        out@ == bool_wires(bits@),
{
    let mut out: Vec<Target> = Vec::new();
    let mut k: usize = 0;
    while k < bits.len()
        invariant
            k <= bits@.len(),
            out@.len() == k,
            forall|m: int| 0 <= m < k ==> #[trigger] out@[m] == bits@[m].0,
        decreases bits@.len() - k,
    {
        out.push(bits[k].0);
        k = k + 1;
    }
    assert(out@ =~= bool_wires(bits@));
    out
}

impl CircuitBuilder {
    /// The root that `proof` leads to. The gadget that hashes is not part of
    /// this circuit: the call is recorded, and the root is an input.
    pub fn get_root_from_merkle_proof<const DEPTH: usize, const LEAF_SIZE_BYTES: usize>(
        &mut self,
        proof: &MerkleInclusionProofVariable<DEPTH, LEAF_SIZE_BYTES>,
    ) -> (root: Bytes32Variable)
        requires
            old(self).wf(),
            proof_in(old(self), *proof),
            old(self).slots() + 32 <= usize::MAX,
        ensures
            takes_root(old(self), final(self), root),
            is_proof_root(final(self).calls().last(), *proof, root),
    {
        let leaf = targets_of(&proof.leaf);
        let aunts = rows_of_hashes(&proof.aunts);
        let mut path: Vec<Target> = Vec::new();
        let mut k: usize = 0;
        while k < DEPTH
            invariant
                k <= DEPTH,
                path@.len() == k,
                forall|m: int| 0 <= m < k ==> #[trigger] path@[m] == proof.path_indices.data@[m].0,
            decreases DEPTH - k,
        {
            path.push(proof.path_indices.data[k].0);
            k = k + 1;
        }
        assert(path@ =~= bool_wires(proof.path_indices.data@));
        let root = self.read_bytes32();
        let root_wires = targets_of(&root.0);
        proof {
            let n = self.len();
            assert(all_below(leaf@, n)) by {
                assert forall|k: int| 0 <= k < leaf@.len() implies (#[trigger] leaf@[k]).index
                    < n by {
                    assert(old(self).has(proof.leaf.0@[k].0));
                }
            }
            assert(rows_below(aunts@, n)) by {
                assert forall|i: int| 0 <= i < aunts@.len() implies all_below(
                    (#[trigger] aunts@[i])@,
                    n,
                ) by {
                    assert(bytes_in(old(self), proof.aunts.data@[i].0.0@));
                    assert forall|k: int| 0 <= k < aunts@[i]@.len() implies (
                    #[trigger] aunts@[i]@[k]).index < n by {
                        assert(old(self).has(proof.aunts.data@[i].0.0@[k].0));
                    }
                }
            }
            assert(all_below(path@, n)) by {
                assert forall|k: int| 0 <= k < path@.len() implies (#[trigger] path@[k]).index
                    < n by {
                    assert(old(self).has(proof.path_indices.data@[k].0));
                }
            }
            assert(all_below(root_wires@, n)) by {
                assert forall|k: int| 0 <= k < root_wires@.len() implies (
                #[trigger] root_wires@[k]).index < n by {
                    assert(root.0.0@[k].0.index == old(self).len() + k);
                }
            }
        }
        let ghost mid = *self;
        self.add_gadget_call(GadgetCall::ProofRoot { leaf, aunts, path_indices: path, root: root_wires });
        proof {
            assert(self.calls().drop_last() =~= old(self).calls());
            assert forall|w: Seq<u64>| #[trigger]
                self.accepts(w) <==> old(self).accepts(w) && forall|k: int|
                    old(self).len() <= k < self.len() ==> #[trigger] w[k] <= BYTE_MAX by {
                assert(self.accepts(w) <==> mid.accepts(w));
            }
            assert forall|w: Seq<u64>| #[trigger]
                self.defines(w) <==> old(self).defines(w) && w.len() >= self.len() by {
                assert(self.defines(w) <==> mid.defines(w));
            }
            lemma_root_accepts(old(self), self, root);
        }
        root
    }

    /// The root of the Merkle tree over `leaves`, of which only those whose
    /// flag in `leaves_enabled` is one count. The gadget that hashes is not
    /// part of this circuit: the call is recorded, and the root is an input.
    pub fn compute_root_from_leaves<const NB_LEAVES: usize, const LEAF_SIZE_BYTES: usize>(
        &mut self,
        leaves: Vec<BytesVariable<LEAF_SIZE_BYTES>>,
        leaves_enabled: Vec<BoolVariable>,
    ) -> (root: Bytes32Variable)
        requires
            old(self).wf(),
            leaves@.len() == NB_LEAVES,
            leaves_enabled@.len() == NB_LEAVES,
            leaves_in(old(self), leaves@),
            bools_in(old(self), leaves_enabled@),
            old(self).slots() + 32 <= usize::MAX,
        ensures
            takes_root(old(self), final(self), root),
            is_leaves_root(final(self).calls().last(), leaves@, leaves_enabled@, root),
    {
        let mut rows: Vec<Vec<Target>> = Vec::new();
        let mut i: usize = 0;
        while i < leaves.len()
            invariant
                i <= leaves@.len(),
                rows@.len() == i,
                forall|m: int| 0 <= m < i ==> (#[trigger] rows@[m])@ == wires(leaves@[m].0@),
            decreases leaves@.len() - i,
        {
            let row = targets_of(&leaves[i]);
            rows.push(row);
            i = i + 1;
        }
        let flags = targets_of_bools(&leaves_enabled);
        let root = self.read_bytes32();
        let root_wires = targets_of(&root.0);
        proof {
            let n = self.len();
            assert(rows_below(rows@, n)) by {
                assert forall|i: int| 0 <= i < rows@.len() implies all_below(
                    (#[trigger] rows@[i])@,
                    n,
                ) by {
                    assert(bytes_in(old(self), leaves@[i].0@));
                    assert forall|k: int| 0 <= k < rows@[i]@.len() implies (
                    #[trigger] rows@[i]@[k]).index < n by {
                        assert(old(self).has(leaves@[i].0@[k].0));
                    }
                }
            }
            assert(all_below(flags@, n)) by {
                assert forall|k: int| 0 <= k < flags@.len() implies (#[trigger] flags@[k]).index
                    < n by {
                    assert(old(self).has(leaves_enabled@[k].0));
                }
            }
            assert(all_below(root_wires@, n)) by {
                assert forall|k: int| 0 <= k < root_wires@.len() implies (
                #[trigger] root_wires@[k]).index < n by {
                    assert(root.0.0@[k].0.index == old(self).len() + k);
                }
            }
        }
        let ghost mid = *self;
        self.add_gadget_call(GadgetCall::LeavesRoot { leaves: rows, enabled: flags, root: root_wires });
        proof {
            assert(self.calls().drop_last() =~= old(self).calls());
            assert forall|w: Seq<u64>| #[trigger]
                self.accepts(w) <==> old(self).accepts(w) && forall|k: int|
                    old(self).len() <= k < self.len() ==> #[trigger] w[k] <= BYTE_MAX by {
                assert(self.accepts(w) <==> mid.accepts(w));
            }
            assert forall|w: Seq<u64>| #[trigger]
                self.defines(w) <==> old(self).defines(w) && w.len() >= self.len() by {
                assert(self.defines(w) <==> mid.defines(w));
            }
            lemma_root_accepts(old(self), self, root);
        }
        root
    }

    /// Asks for the check that the header with hash `header` has the height
    /// `height`, whose varint takes `encoded_height_byte_length` bytes, by
    /// the sibling hashes `proof` of the height's leaf. The gadget that
    /// checks is not part of this circuit: the call is recorded.
    pub fn verify_block_height<const DEPTH: usize>(
        &mut self,
        header: Bytes32Variable,
        proof: &ArrayVariable<Bytes32Variable, DEPTH>,
        height: &U64Variable,
        encoded_height_byte_length: U32Variable,
    )
        requires
            old(self).wf(),
            bytes_in(old(self), header.0.0@),
            hashes_in(old(self), proof.data@),
            old(self).has(height.0),
            old(self).has(encoded_height_byte_length.0),
        ensures
            final(self).wf(),
            final(self).gates() == old(self).gates(),
            final(self).slots() == old(self).slots(),
            final(self).calls().len() == old(self).calls().len() + 1,
            final(self).calls().drop_last() == old(self).calls(),
            is_block_height(
                final(self).calls().last(),
                header,
                proof.data@,
                *height,
                encoded_height_byte_length,
            ),
            forall|w: Seq<u64>| #[trigger] final(self).defines(w) <==> old(self).defines(w),
            forall|w: Seq<u64>| #[trigger] final(self).accepts(w) <==> old(self).accepts(w),
    {
        let header_wires = targets_of(&header.0);
        let aunts = rows_of_hashes(proof);
        proof {
            let n = self.len();
            assert(all_below(header_wires@, n)) by {
                assert forall|k: int| 0 <= k < header_wires@.len() implies (
                #[trigger] header_wires@[k]).index < n by {
                    assert(old(self).has(header.0.0@[k].0));
                }
            }
            assert(rows_below(aunts@, n)) by {
                assert forall|i: int| 0 <= i < aunts@.len() implies all_below(
                    (#[trigger] aunts@[i])@,
                    n,
                ) by {
                    assert(bytes_in(old(self), proof.data@[i].0.0@));
                    assert forall|k: int| 0 <= k < aunts@[i]@.len() implies (
                    #[trigger] aunts@[i]@[k]).index < n by {
                        assert(old(self).has(proof.data@[i].0.0@[k].0));
                    }
                }
            }
        }
        self.add_gadget_call(
            GadgetCall::BlockHeight {
                header: header_wires,
                aunts,
                height: height.0,
                byte_length: encoded_height_byte_length.0,
            },
        );
        assert(self.calls().drop_last() =~= old(self).calls());
    }
}

/// What the gadgets compute, as far as a circuit depends on it: the root
/// that a leaf, its sibling hashes and their sides lead to; the root of the
/// tree over leaves, given the flags that tell which leaves count; and
/// whether a header's hash, the sibling hashes of its height, the height and
/// the length of the height's varint fit together. The circuits of this
/// library hold for whatever these functions are.
pub struct Gadgets {
    pub proof_root: spec_fn(Seq<int>, Seq<Seq<int>>, Seq<int>) -> Seq<int>,
    pub leaves_root: spec_fn(Seq<Seq<int>>, Seq<int>) -> Seq<int>,
    pub height_fits: spec_fn(Seq<int>, Seq<Seq<int>>, int, int) -> bool,
}

/// The values that `w` gives to rows of wires.
pub open spec fn row_vals(w: Seq<u64>, rows: Seq<Vec<Target>>) -> Seq<Seq<int>> {
    Seq::new(rows.len(), |i: int| vals(w, rows[i]@))
}

/// The bytes that `w` gives to hashes.
pub open spec fn hash_vals(w: Seq<u64>, hashes: Seq<Bytes32Variable>) -> Seq<Seq<int>> {
    Seq::new(hashes.len(), |i: int| byte_vals(w, hashes[i].0.0@))
}

/// Whether under `w` the call has the result that the gadget computes: the
/// wires of its root hold the root, or the check holds.
pub open spec fn call_holds(g: Gadgets, c: GadgetCall, w: Seq<u64>) -> bool {
    match c {
        GadgetCall::ProofRoot { leaf, aunts, path_indices, root } => vals(w, root@) == (
        g.proof_root)(vals(w, leaf@), row_vals(w, aunts@), vals(w, path_indices@)),
        GadgetCall::LeavesRoot { leaves, enabled, root } => vals(w, root@) == (g.leaves_root)(
            row_vals(w, leaves@),
            vals(w, enabled@),
        ),
        GadgetCall::BlockHeight { header, aunts, height, byte_length } => (g.height_fits)(
            vals(w, header@),
            row_vals(w, aunts@),
            val(w, height),
            val(w, byte_length),
        ),
    }
}

/// Whether under `w` every call of `c` has the result that the gadget computes.
pub open spec fn calls_hold(c: &CircuitBuilder, g: Gadgets, w: Seq<u64>) -> bool {
    forall|k: int| 0 <= k < c.calls().len() ==> call_holds(g, #[trigger] c.calls()[k], w)
}

/// The root that the gadget computes for a proof under `w`.
pub open spec fn root_of_proof<const D: usize, const L: usize>(
    g: Gadgets,
    w: Seq<u64>,
    proof: MerkleInclusionProofVariable<D, L>,
) -> Seq<int> {
    (g.proof_root)(
        byte_vals(w, proof.leaf.0@),
        hash_vals(w, proof.aunts.data@),
        vals(w, bool_wires(proof.path_indices.data@)),
    )
}

/// A call for the root of a proof that holds puts the root of the proof on its wires.
pub proof fn lemma_proof_call_holds<const D: usize, const L: usize>(
    g: Gadgets,
    c: GadgetCall,
    w: Seq<u64>,
    proof: MerkleInclusionProofVariable<D, L>,
)
    requires
        proof_call_of(c, proof),
        call_holds(g, c, w),
    ensures
        vals(w, call_root(c)) == root_of_proof(g, w, proof),
{
    match c {
        GadgetCall::ProofRoot { leaf, aunts, path_indices, root } => {
            assert(row_vals(w, aunts@) =~= hash_vals(w, proof.aunts.data@));
        },
        _ => {},
    }
}

/// A circuit that has grown keeps the wires of a byte string.
pub proof fn lemma_bytes_stay(c1: &CircuitBuilder, c2: &CircuitBuilder, bytes: Seq<ByteVariable>)
    requires
        bytes_in(c1, bytes),
        c1.len() <= c2.len(),
    ensures
        bytes_in(c2, bytes),
{
    assert forall|k: int| 0 <= k < bytes.len() implies c2.has((#[trigger] bytes[k]).0) by {
        assert(c1.has(bytes[k].0));
    }
}

/// A circuit that has grown keeps the wires of a sequence of hashes.
pub proof fn lemma_hashes_stay(c1: &CircuitBuilder, c2: &CircuitBuilder, hashes: Seq<Bytes32Variable>)
    requires
        hashes_in(c1, hashes),
        c1.len() <= c2.len(),
    ensures
        hashes_in(c2, hashes),
{
    assert forall|i: int| 0 <= i < hashes.len() implies bytes_in(c2, (#[trigger] hashes[i]).0.0@) by {
        lemma_bytes_stay(c1, c2, hashes[i].0.0@);
    }
}

/// A circuit that has grown keeps the wires of a proof.
pub proof fn lemma_proof_stays<const D: usize, const L: usize>(
    c1: &CircuitBuilder,
    c2: &CircuitBuilder,
    proof: MerkleInclusionProofVariable<D, L>,
)
    requires
        proof_in(c1, proof),
        c1.len() <= c2.len(),
    ensures
        proof_in(c2, proof),
{
    lemma_hashes_stay(c1, c2, proof.aunts.data@);
    lemma_bytes_stay(c1, c2, proof.leaf.0@);
    assert forall|i: int| 0 <= i < proof.path_indices.data@.len() implies c2.has(
        (#[trigger] proof.path_indices.data@[i]).0,
    ) by {
        assert(c1.has(proof.path_indices.data@[i].0));
    }
}

/// What a circuit accepts after it has taken 32 byte inputs for a root.
proof fn lemma_root_accepts(before: &CircuitBuilder, after: &CircuitBuilder, root: Bytes32Variable)
    requires
        after.len() == before.len() + 32,
        forall|k: int| 0 <= k < 32 ==> (#[trigger] root.0.0@[k]).0.index == before.len() + k,
        forall|w: Seq<u64>| #[trigger]
            after.accepts(w) <==> before.accepts(w) && forall|k: int|
                before.len() <= k < after.len() ==> #[trigger] w[k] <= BYTE_MAX,
    ensures
        forall|w: Seq<u64>| #[trigger]
            after.accepts(w) <==> before.accepts(w) && root_is_bytes(w, wires(root.0.0@)),
{
    assert forall|w: Seq<u64>| #[trigger]
        after.accepts(w) <==> before.accepts(w) && root_is_bytes(w, wires(root.0.0@)) by {
        if root_is_bytes(w, wires(root.0.0@)) {
            assert forall|k: int| before.len() <= k < after.len() implies #[trigger] w[k]
                <= BYTE_MAX by {
                assert(wires(root.0.0@)[k - before.len()] == root.0.0@[k - before.len()].0);
                assert(val(w, wires(root.0.0@)[k - before.len()]) <= BYTE_MAX);
            }
        }
        if after.accepts(w) {
            assert forall|k: int| 0 <= k < 32 implies val(w, #[trigger] wires(root.0.0@)[k])
                <= BYTE_MAX by {
                assert(w[before.len() + k] <= BYTE_MAX);
            }
        }
    }
}

} // verus!
