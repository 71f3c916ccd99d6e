use celestia_commitment::circuit::{CircuitBuilder, GadgetCall, Gate, Target};
use celestia_commitment::commitment::{
    CelestiaCommitment, CelestiaDataCommitmentProofInputVariable,
    CelestiaHeaderChainProofInputVariable, HeaderVariable,
};
use celestia_commitment::merkle::MerkleInclusionProofVariable;
use celestia_commitment::u32::U32Target;
use celestia_commitment::validator::{I64Target, TendermintMarshaller};
use celestia_commitment::vars::{
    ArrayVariable, BoolVariable, ByteVariable, Bytes32Variable, BytesVariable, U64Variable,
};

/// The values of the inputs of a circuit, by slot.
struct Inputs {
    values: Vec<u64>,
}

impl Inputs {
    fn new(builder: &CircuitBuilder) -> Inputs {
        Inputs {
            values: vec![0; builder.num_slots()],
        }
    }

    fn set(&mut self, builder: &CircuitBuilder, t: Target, value: u64) {
        match builder.gate(t.index) {
            Gate::Input { slot, .. } => self.values[slot] = value,
            _ => panic!("wire {} is no input", t.index),
        }
    }

    fn set_bytes(&mut self, builder: &CircuitBuilder, bytes: &[ByteVariable], values: &[u8]) {
        assert_eq!(bytes.len(), values.len());
        for (b, v) in bytes.iter().zip(values) {
            self.set(builder, b.0, *v as u64);
        }
    }

    fn set_targets(&mut self, builder: &CircuitBuilder, targets: &[Target], values: &[u8]) {
        assert_eq!(targets.len(), values.len());
        for (t, v) in targets.iter().zip(values) {
            self.set(builder, *t, *v as u64);
        }
    }
}

fn read_proof<const D: usize, const L: usize>(
    builder: &mut CircuitBuilder,
) -> MerkleInclusionProofVariable<D, L> {
    let mut aunts = [Bytes32Variable(BytesVariable([ByteVariable(Target { index: 0 }); 32])); D];
    for i in 0..D {
        aunts[i] = builder.read_bytes32();
    }
    let mut path_indices = [BoolVariable(Target { index: 0 }); D];
    for i in 0..D {
        path_indices[i] = builder.read_bool();
    }
    let leaf = builder.read_bytes::<L>();
    MerkleInclusionProofVariable {
        aunts: ArrayVariable { data: aunts },
        path_indices: ArrayVariable { data: path_indices },
        leaf,
    }
}

fn read_header(builder: &mut CircuitBuilder) -> HeaderVariable {
    let header = builder.read_bytes32();
    let header_height_proof = read_proof::<4, 9>(builder);
    let height_byte_length = builder.read_u32();
    let height = builder.read_u64();
    HeaderVariable {
        header,
        header_height_proof,
        height_byte_length,
        height,
    }
}

fn read_header_chain<const W: usize>(
    builder: &mut CircuitBuilder,
) -> CelestiaHeaderChainProofInputVariable<W> {
    let current_header = read_header(builder);
    let trusted_header = read_header(builder);
    let mut data_hash_proofs = [read_proof::<4, 34>(builder); W];
    for i in 0..W {
        data_hash_proofs[i] = read_proof::<4, 34>(builder);
    }
    let mut prev_header_proofs = [read_proof::<4, 72>(builder); W];
    for i in 0..W {
        prev_header_proofs[i] = read_proof::<4, 72>(builder);
    }
    CelestiaHeaderChainProofInputVariable {
        current_header,
        trusted_header,
        data_hash_proofs: ArrayVariable {
            data: data_hash_proofs,
        },
        prev_header_proofs: ArrayVariable {
            data: prev_header_proofs,
        },
    }
}

fn read_data_commitment<const W: usize>(
    builder: &mut CircuitBuilder,
) -> CelestiaDataCommitmentProofInputVariable<W> {
    let mut data_hashes = [builder.read_bytes32(); W];
    for i in 0..W {
        data_hashes[i] = builder.read_bytes32();
    }
    let mut block_heights = [builder.read_u64(); W];
    for i in 0..W {
        block_heights[i] = builder.read_u64();
    }
    let data_commitment_root = builder.read_bytes32();
    CelestiaDataCommitmentProofInputVariable {
        data_hashes: ArrayVariable { data: data_hashes },
        block_heights: ArrayVariable {
            data: block_heights,
        },
        data_commitment_root,
    }
}

/// A made-up hash for the header at `height`.
fn header_hash(height: usize) -> [u8; 32] {
    let mut h = [0u8; 32];
    for i in 0..32 {
        h[i] = ((height * 31 + i * 7 + 1) % 251) as u8;
    }
    h
}

/// A made-up data hash for the block at `height`.
fn data_hash(height: usize) -> [u8; 32] {
    let mut h = [0u8; 32];
    for i in 0..32 {
        h[i] = ((height * 17 + i * 13 + 5) % 241) as u8;
    }
    h
}

fn data_root_tuple(hash: &[u8; 32], height: u64) -> Vec<u8> {
    let mut tuple = vec![0u8; 24];
    tuple.extend_from_slice(&height.to_be_bytes());
    tuple.extend_from_slice(hash);
    tuple
}

/// The calls that `builder` has recorded from `from` on.
fn roots_of_proof_calls(builder: &CircuitBuilder, from: usize) -> Vec<Vec<Target>> {
    let mut roots = Vec::new();
    for call in &builder.gadget_calls()[from..] {
        if let GadgetCall::ProofRoot { root, .. } = call {
            roots.push(root.clone());
        }
    }
    roots
}

/// Fills in a chain of `W` hops that links `current` back to `trusted`.
/// `hashes[i]` is the hash of the header from which hop `i` starts, and
/// `hashes[W]` the hash of the trusted header.
fn assign_chain<const W: usize>(
    inputs: &mut Inputs,
    builder: &CircuitBuilder,
    chain: &CelestiaHeaderChainProofInputVariable<W>,
    roots: &Vec<Vec<Target>>,
    hashes: &Vec<[u8; 32]>,
    trusted: usize,
    current: usize,
) {
    inputs.set_bytes(builder, &chain.current_header.header.0 .0, &hashes[0]);
    inputs.set(builder, chain.current_header.height.0, current as u64);
    inputs.set(builder, chain.current_header.height_byte_length.0, 2);
    inputs.set_bytes(builder, &chain.trusted_header.header.0 .0, &hashes[W]);
    inputs.set(builder, chain.trusted_header.height.0, trusted as u64);
    inputs.set(builder, chain.trusted_header.height_byte_length.0, 2);
    assert_eq!(roots.len(), 2 * W);
    for i in 0..W {
        // The block id of the header that the hop arrives at.
        let mut block_id = [0u8; 72];
        block_id[0] = 0x0a;
        block_id[1] = 0x20;
        block_id[2..34].copy_from_slice(&hashes[i + 1]);
        block_id[34] = 0x12;
        inputs.set_bytes(builder, &chain.prev_header_proofs.data[i].leaf.0, &block_id);
        let mut leaf = [0u8; 34];
        leaf[0] = 0x0a;
        leaf[1] = 0x20;
        leaf[2..34].copy_from_slice(&data_hash(current - 1 - i));
        inputs.set_bytes(builder, &chain.data_hash_proofs.data[i].leaf.0, &leaf);
        // The gadget's answers: the data hash stands under the header that
        // the hop arrives at, the block id under the one that it starts from.
        inputs.set_targets(builder, &roots[2 * i], &hashes[i + 1]);
        inputs.set_targets(builder, &roots[2 * i + 1], &hashes[i]);
    }
}

fn linked_hashes(trusted: usize, current: usize) -> Vec<[u8; 32]> {
    (0..=(current - trusted))
        .map(|i| header_hash(current - i))
        .collect()
}

fn satisfied(builder: &CircuitBuilder, inputs: &Inputs) -> bool {
    let w = builder.generate_witness(&inputs.values);
    builder.is_satisfied(&w)
}

fn values_of(w: &Vec<u64>, targets: &[Target]) -> Vec<u8> {
    targets
        .iter()
        .map(|t| {
            assert!(w[t.index] <= 255);
            w[t.index] as u8
        })
        .collect()
}

fn bytes_of(w: &Vec<u64>, bytes: &[ByteVariable]) -> Vec<u8> {
    bytes
        .iter()
        .map(|b| {
            assert!(w[b.0.index] <= 255);
            w[b.0.index] as u8
        })
        .collect()
}

#[test]
fn test_prove_data_commitment() {
    let mut builder = CircuitBuilder::new();

    const WINDOW_SIZE: usize = 4;
    const NUM_LEAVES: usize = 4;
    const START_BLOCK: usize = 3800;
    const END_BLOCK: usize = START_BLOCK + WINDOW_SIZE;

    let celestia_data_commitment_var = read_data_commitment::<WINDOW_SIZE>(&mut builder);
    let celestia_header_chain_var = read_header_chain::<WINDOW_SIZE>(&mut builder);
    let calls_before = builder.gadget_calls().len();

    let root_hash_target = builder.prove_data_commitment::<WINDOW_SIZE, NUM_LEAVES>(
        celestia_header_chain_var,
        &celestia_data_commitment_var.data_hashes,
    );
    builder.assert_is_equal_bytes32(
        root_hash_target,
        celestia_data_commitment_var.data_commitment_root,
    );

    // One call for the commitment, two for the heights, two for each hop.
    assert_eq!(
        builder.gadget_calls().len(),
        calls_before + 1 + 2 + 2 * WINDOW_SIZE
    );
    let roots = roots_of_proof_calls(&builder, calls_before + 3);
    let claimed_root = [0xabu8; 32];

    let mut inputs = Inputs::new(&builder);
    for i in 0..WINDOW_SIZE {
        inputs.set_bytes(
            &builder,
            &celestia_data_commitment_var.data_hashes.data[i].0 .0,
            &data_hash(START_BLOCK + i),
        );
        inputs.set(
            &builder,
            celestia_data_commitment_var.block_heights.data[i].0,
            (START_BLOCK + i) as u64,
        );
    }
    inputs.set_bytes(
        &builder,
        &celestia_data_commitment_var.data_commitment_root.0 .0,
        &claimed_root,
    );
    inputs.set_bytes(&builder, &root_hash_target.0 .0, &claimed_root);
    assign_chain(
        &mut inputs,
        &builder,
        &celestia_header_chain_var,
        &roots,
        &linked_hashes(START_BLOCK, END_BLOCK),
        START_BLOCK,
        END_BLOCK,
    );
    let w = builder.generate_witness(&inputs.values);
    assert!(builder.is_satisfied(&w));

    // The leaves of the commitment are the tuples of the window.
    match &builder.gadget_calls()[calls_before] {
        GadgetCall::LeavesRoot {
            leaves,
            enabled,
            root,
        } => {
            assert_eq!(leaves.len(), NUM_LEAVES);
            for i in 0..WINDOW_SIZE {
                assert_eq!(
                    values_of(&w, &leaves[i]),
                    data_root_tuple(&data_hash(START_BLOCK + i), (START_BLOCK + i) as u64)
                );
                assert_eq!(w[enabled[i].index], 1);
            }
            assert_eq!(values_of(&w, root), claimed_root.to_vec());
        }
        _ => panic!("the first call asks for the root of the leaves"),
    }

    // A claimed root that is not the one that the gadget gave is refused.
    let mut other = Inputs {
        values: inputs.values.clone(),
    };
    other.set(
        &builder,
        celestia_data_commitment_var.data_commitment_root.0 .0[5].0,
        0xac,
    );
    assert!(!satisfied(&builder, &other));
}

#[test]
fn test_data_commitment() {
    let mut builder = CircuitBuilder::new();

    const WINDOW_SIZE: usize = 4;
    const NUM_LEAVES: usize = 4;
    const START_BLOCK: usize = 3800;

    let celestia_data_commitment_var = read_data_commitment::<WINDOW_SIZE>(&mut builder);

    let start_block = builder.constant_u64(START_BLOCK as u64);
    let root_hash_target = builder.get_data_commitment::<WINDOW_SIZE, NUM_LEAVES>(
        &celestia_data_commitment_var.data_hashes,
        start_block,
    );
    builder.assert_is_equal_bytes32(
        root_hash_target,
        celestia_data_commitment_var.data_commitment_root,
    );

    let claimed_root = [0x11u8; 32];
    let mut inputs = Inputs::new(&builder);
    for i in 0..WINDOW_SIZE {
        inputs.set_bytes(
            &builder,
            &celestia_data_commitment_var.data_hashes.data[i].0 .0,
            &data_hash(START_BLOCK + i),
        );
    }
    inputs.set_bytes(
        &builder,
        &celestia_data_commitment_var.data_commitment_root.0 .0,
        &claimed_root,
    );
    inputs.set_bytes(&builder, &root_hash_target.0 .0, &claimed_root);
    let w = builder.generate_witness(&inputs.values);
    assert!(builder.is_satisfied(&w));

    // With as many leaves as blocks nothing is padded: every leaf counts,
    // and the leaves are the encoded tuples themselves.
    assert_eq!(builder.gadget_calls().len(), 1);
    match &builder.gadget_calls()[0] {
        GadgetCall::LeavesRoot {
            leaves,
            enabled,
            root,
        } => {
            assert_eq!(leaves.len(), 4);
            assert_eq!(enabled.len(), 4);
            for i in 0..4 {
                assert_eq!(
                    values_of(&w, &leaves[i]),
                    data_root_tuple(&data_hash(START_BLOCK + i), (START_BLOCK + i) as u64)
                );
                assert_eq!(w[enabled[i].index], 1);
            }
            let root_wires: Vec<Target> = root_hash_target.0 .0.iter().map(|b| b.0).collect();
            assert_eq!(*root, root_wires);
        }
        _ => panic!("the call asks for the root of the leaves"),
    }
}

#[test]
fn test_prove_header_chain() {
    let mut builder = CircuitBuilder::new();

    const WINDOW_SIZE: usize = 4;
    const TRUSTED_BLOCK: usize = 3800;
    const CURRENT_BLOCK: usize = TRUSTED_BLOCK + WINDOW_SIZE;

    let celestia_header_chain_var = read_header_chain::<WINDOW_SIZE>(&mut builder);

    builder.prove_header_chain::<WINDOW_SIZE>(celestia_header_chain_var);

    assert_eq!(builder.gadget_calls().len(), 2 + 2 * WINDOW_SIZE);
    let roots = roots_of_proof_calls(&builder, 2);
    let mut inputs = Inputs::new(&builder);
    assign_chain(
        &mut inputs,
        &builder,
        &celestia_header_chain_var,
        &roots,
        &linked_hashes(TRUSTED_BLOCK, CURRENT_BLOCK),
        TRUSTED_BLOCK,
        CURRENT_BLOCK,
    );
    assert!(satisfied(&builder, &inputs));
}

#[test]
fn header_chain_records_the_height_checks_first() {
    let mut builder = CircuitBuilder::new();
    let chain = read_header_chain::<4>(&mut builder);
    builder.prove_header_chain::<4>(chain);
    let calls = builder.gadget_calls();
    match &calls[0] {
        GadgetCall::BlockHeight {
            header,
            aunts,
            height,
            byte_length,
        } => {
            let wires: Vec<Target> = chain.current_header.header.0 .0.iter().map(|b| b.0).collect();
            assert_eq!(*header, wires);
            assert_eq!(aunts.len(), 4);
            assert_eq!(*height, chain.current_header.height.0);
            assert_eq!(*byte_length, chain.current_header.height_byte_length.0);
        }
        _ => panic!("the first call checks the height of the newest header"),
    }
    match &calls[1] {
        GadgetCall::BlockHeight { height, .. } => {
            assert_eq!(*height, chain.trusted_header.height.0);
        }
        _ => panic!("the second call checks the height of the trusted header"),
    }
    for i in 0..4 {
        match &calls[2 + 2 * i] {
            GadgetCall::ProofRoot { leaf, .. } => {
                let wires: Vec<Target> =
                    chain.data_hash_proofs.data[i].leaf.0.iter().map(|b| b.0).collect();
                assert_eq!(*leaf, wires);
            }
            _ => panic!("a hop asks first for the root of its data-hash proof"),
        }
        match &calls[3 + 2 * i] {
            GadgetCall::ProofRoot { leaf, .. } => {
                let wires: Vec<Target> =
                    chain.prev_header_proofs.data[i].leaf.0.iter().map(|b| b.0).collect();
                assert_eq!(*leaf, wires);
            }
            _ => panic!("a hop asks then for the root of its block-id proof"),
        }
    }
}

#[test]
fn header_chain_fails_on_any_flipped_byte_of_an_intermediate_hash() {
    let mut builder = CircuitBuilder::new();
    let chain = read_header_chain::<4>(&mut builder);
    builder.prove_header_chain::<4>(chain);
    let roots = roots_of_proof_calls(&builder, 2);
    let mut inputs = Inputs::new(&builder);
    assign_chain(
        &mut inputs,
        &builder,
        &chain,
        &roots,
        &linked_hashes(3800, 3804),
        3800,
        3804,
    );
    assert!(satisfied(&builder, &inputs));

    // The hashes of the headers at 3803, 3802 and 3801 stand at bytes 2 to
    // 33 of the block ids of hops 0, 1 and 2.
    for hop in 0..3 {
        for byte in 0..32 {
            let mut flipped = Inputs {
                values: inputs.values.clone(),
            };
            let wire = chain.prev_header_proofs.data[hop].leaf.0[2 + byte].0;
            let old = header_hash(3803 - hop)[byte];
            flipped.set(&builder, wire, (old ^ 1) as u64);
            assert!(!satisfied(&builder, &flipped));
        }
    }
    // So does a root that the gadget reports and that does not match.
    for call in 0..8 {
        let mut flipped = Inputs {
            values: inputs.values.clone(),
        };
        let w = builder.generate_witness(&inputs.values);
        let old = w[roots[call][31].index];
        flipped.set(&builder, roots[call][31], old ^ 0x80);
        assert!(!satisfied(&builder, &flipped));
    }
}

#[test]
fn header_chain_fails_where_the_last_hop_misses_the_trusted_header() {
    let mut builder = CircuitBuilder::new();
    let chain = read_header_chain::<4>(&mut builder);
    builder.prove_header_chain::<4>(chain);
    let roots = roots_of_proof_calls(&builder, 2);
    let mut inputs = Inputs::new(&builder);
    assign_chain(
        &mut inputs,
        &builder,
        &chain,
        &roots,
        &linked_hashes(3800, 3804),
        3800,
        3804,
    );
    inputs.set(&builder, chain.trusted_header.header.0 .0[0].0, 0xff);
    assert!(!satisfied(&builder, &inputs));
}

#[test]
fn header_chain_fails_where_the_heights_are_not_the_window_apart() {
    let mut builder = CircuitBuilder::new();
    let chain = read_header_chain::<4>(&mut builder);
    builder.prove_header_chain::<4>(chain);
    let roots = roots_of_proof_calls(&builder, 2);
    for (trusted, current) in [(3800u64, 3805u64), (3800, 3803), (3801, 3804), (3804, 3800)] {
        let mut inputs = Inputs::new(&builder);
        assign_chain(
            &mut inputs,
            &builder,
            &chain,
            &roots,
            &linked_hashes(3800, 3804),
            3800,
            3804,
        );
        inputs.set(&builder, chain.trusted_header.height.0, trusted);
        inputs.set(&builder, chain.current_header.height.0, current);
        assert!(!satisfied(&builder, &inputs));
    }
}

#[test]
fn header_chain_refuses_a_root_that_is_no_byte() {
    let mut builder = CircuitBuilder::new();
    let chain = read_header_chain::<1>(&mut builder);
    builder.prove_header_chain::<1>(chain);
    let roots = roots_of_proof_calls(&builder, 2);
    let mut inputs = Inputs::new(&builder);
    assign_chain(
        &mut inputs,
        &builder,
        &chain,
        &roots,
        &linked_hashes(10, 11),
        10,
        11,
    );
    assert!(satisfied(&builder, &inputs));
    inputs.set(&builder, roots[0][0], 256);
    assert!(!satisfied(&builder, &inputs));
}

#[test]
fn test_encode_varint() {
    let mut builder = CircuitBuilder::new();

    let lower = U32Target(builder.constant(3804));
    let upper = U32Target(builder.constant(0));
    let bits = builder.marshal_int64_varint(I64Target([lower, upper]));

    // Each byte of the buffer on one wire.
    let zero = builder.zero();
    let mut encoded_height = [ByteVariable(zero); 9];
    for i in 0..9 {
        let mut byte = zero;
        for j in 0..8 {
            byte = builder.mul_const_add(1 << j, bits[8 * i + j].target, byte);
        }
        encoded_height[i] = ByteVariable(byte);
    }
    let encoded_height = builder.encode_marshalled_varint(&BytesVariable(encoded_height));

    let w = builder.generate_witness(&Vec::new());
    assert!(builder.is_satisfied(&w));
    assert_eq!(
        bytes_of(&w, &encoded_height.0),
        vec![0, 8, 220, 29, 0, 0, 0, 0, 0, 0, 0]
    );

    println!("Verified proof");
}

#[test]
fn test_encode_data_root_tuple() {
    let mut builder = CircuitBuilder::new();

    let data_hash = Bytes32Variable(builder.constant_bytes::<32>([255u8; 32]));
    let height = builder.constant_u64(256);
    let data_root_tuple = builder.encode_data_root_tuple(&data_hash, &height);

    let mut expected_data_tuple_root = Vec::new();

    let expected_height = [
        0u8, 0, 0, 0, 0, 0, 0, 0, 0, 0, 0, 0, 0, 0, 0, 0, 0, 0, 0, 0, 0, 0, 0, 0, 0, 0, 0, 0,
        0, 0, 1, 0,
    ];

    let expected_data_root = vec![
        255u8, 255, 255, 255, 255, 255, 255, 255, 255, 255, 255, 255, 255, 255, 255, 255, 255,
        255, 255, 255, 255, 255, 255, 255, 255, 255, 255, 255, 255, 255, 255, 255,
    ];

    expected_data_tuple_root.extend_from_slice(&expected_height);

    expected_data_tuple_root.extend_from_slice(&expected_data_root);

    let w = builder.generate_witness(&Vec::new());
    assert!(builder.is_satisfied(&w));

    let data_root_tuple_value = bytes_of(&w, &data_root_tuple.0);
    assert_eq!(data_root_tuple_value, expected_data_tuple_root);
    assert_eq!(data_root_tuple_value.len(), 64);

    println!("Verified proof");
}

#[test]
fn data_root_tuple_writes_the_height_big_endian() {
    let mut builder = CircuitBuilder::new();
    let data_hash = builder.read_bytes32();
    let height = builder.read_u64();
    let tuple = builder.encode_data_root_tuple(&data_hash, &height);
    // The last 32 wires are those of the hash.
    for i in 0..32 {
        assert_eq!(tuple.0[32 + i].0, data_hash.0 .0[i].0);
    }
    let mut inputs = Inputs::new(&builder);
    inputs.set_bytes(&builder, &data_hash.0 .0, &data_hash_of_block());
    inputs.set(&builder, height.0, 0x0102_0304_0506_0708);
    let w = builder.generate_witness(&inputs.values);
    assert!(builder.is_satisfied(&w));
    let mut expected = vec![0u8; 24];
    expected.extend_from_slice(&[1, 2, 3, 4, 5, 6, 7, 8]);
    expected.extend_from_slice(&data_hash_of_block());
    assert_eq!(bytes_of(&w, &tuple.0), expected);

    inputs.set(&builder, height.0, u64::MAX);
    let w = builder.generate_witness(&inputs.values);
    assert_eq!(bytes_of(&w, &tuple.0)[24..32], [255u8; 8]);
}

fn data_hash_of_block() -> [u8; 32] {
    data_hash(3800)
}

#[test]
fn extract_hash_takes_the_bytes_at_the_offset() {
    let mut builder = CircuitBuilder::new();
    let block_id = builder.read_bytes::<72>();
    let wires_before = builder.num_wires();
    let hash = builder.extract_hash_from_protobuf::<2, 72>(&block_id);
    assert_eq!(builder.num_wires(), wires_before);
    for i in 0..32 {
        assert_eq!(hash.0 .0[i].0, block_id.0[2 + i].0);
    }
    let last = builder.extract_hash_from_protobuf::<40, 72>(&block_id);
    assert_eq!(last.0 .0[31].0, block_id.0[71].0);
}

#[test]
fn data_commitment_pads_with_leaves_that_do_not_count() {
    let mut builder = CircuitBuilder::new();
    let input = read_data_commitment::<3>(&mut builder);
    let start_block = builder.read_u64();
    let root = builder.get_data_commitment::<3, 8>(&input.data_hashes, start_block);

    let mut inputs = Inputs::new(&builder);
    for i in 0..3 {
        inputs.set_bytes(&builder, &input.data_hashes.data[i].0 .0, &data_hash(70 + i));
    }
    inputs.set(&builder, start_block.0, 70);
    inputs.set_bytes(&builder, &root.0 .0, &[9u8; 32]);
    let w = builder.generate_witness(&inputs.values);
    assert!(builder.is_satisfied(&w));
    match &builder.gadget_calls()[0] {
        GadgetCall::LeavesRoot {
            leaves, enabled, ..
        } => {
            assert_eq!(leaves.len(), 8);
            assert_eq!(enabled.len(), 8);
            for i in 0..8 {
                if i < 3 {
                    assert_eq!(
                        values_of(&w, &leaves[i]),
                        data_root_tuple(&data_hash(70 + i), (70 + i) as u64)
                    );
                    assert_eq!(w[enabled[i].index], 1);
                } else {
                    assert_eq!(values_of(&w, &leaves[i]), vec![0u8; 64]);
                    assert_eq!(w[enabled[i].index], 0);
                }
            }
        }
        _ => panic!("the call asks for the root of the leaves"),
    }
}

#[test]
fn data_commitment_of_an_empty_window_counts_no_leaf() {
    let mut builder = CircuitBuilder::new();
    let hashes: ArrayVariable<Bytes32Variable, 0> = ArrayVariable { data: [] };
    let start_block = builder.constant_u64(1);
    let _ = builder.get_data_commitment::<0, 4>(&hashes, start_block);
    let w = builder.generate_witness(&vec![0; builder.num_slots()]);
    assert!(builder.is_satisfied(&w));
    match &builder.gadget_calls()[0] {
        GadgetCall::LeavesRoot {
            leaves, enabled, ..
        } => {
            for i in 0..4 {
                assert_eq!(values_of(&w, &leaves[i]), vec![0u8; 64]);
                assert_eq!(w[enabled[i].index], 0);
            }
        }
        _ => panic!("the call asks for the root of the leaves"),
    }
}

#[test]
fn data_commitment_heights_wrap_at_64_bits() {
    let mut builder = CircuitBuilder::new();
    let hashes: ArrayVariable<Bytes32Variable, 2> = ArrayVariable {
        data: [builder.read_bytes32(), builder.read_bytes32()],
    };
    let start_block = builder.constant_u64(u64::MAX);
    let _ = builder.get_data_commitment::<2, 2>(&hashes, start_block);
    let w = builder.generate_witness(&vec![0; builder.num_slots()]);
    match &builder.gadget_calls()[0] {
        GadgetCall::LeavesRoot { leaves, .. } => {
            assert_eq!(values_of(&w, &leaves[0])[24..32], [255u8; 8]);
            assert_eq!(values_of(&w, &leaves[1])[24..32], [0u8; 8]);
        }
        _ => panic!("the call asks for the root of the leaves"),
    }
}

#[test]
fn orchestrator_commits_as_the_commitment_builder_does() {
    const W: usize = 4;
    // The commitment alone.
    let mut alone = CircuitBuilder::new();
    let hashes_alone = read_data_commitment::<W>(&mut alone).data_hashes;
    let start = alone.read_u64();
    let root_alone = alone.get_data_commitment::<W, 4>(&hashes_alone, start);
    let mut inputs_alone = Inputs::new(&alone);
    for i in 0..W {
        inputs_alone.set_bytes(&alone, &hashes_alone.data[i].0 .0, &data_hash(3800 + i));
    }
    inputs_alone.set(&alone, start.0, 3800);
    inputs_alone.set_bytes(&alone, &root_alone.0 .0, &[7u8; 32]);
    let w_alone = alone.generate_witness(&inputs_alone.values);
    assert!(alone.is_satisfied(&w_alone));

    // The commitment together with the chain.
    let mut both = CircuitBuilder::new();
    let hashes_both = read_data_commitment::<W>(&mut both).data_hashes;
    let chain = read_header_chain::<W>(&mut both);
    let root_both = both.prove_data_commitment::<W, 4>(chain, &hashes_both);
    let roots = roots_of_proof_calls(&both, 3);
    let mut inputs_both = Inputs::new(&both);
    for i in 0..W {
        inputs_both.set_bytes(&both, &hashes_both.data[i].0 .0, &data_hash(3800 + i));
    }
    inputs_both.set_bytes(&both, &root_both.0 .0, &[7u8; 32]);
    assign_chain(
        &mut inputs_both,
        &both,
        &chain,
        &roots,
        &linked_hashes(3800, 3804),
        3800,
        3804,
    );
    let w_both = both.generate_witness(&inputs_both.values);
    assert!(both.is_satisfied(&w_both));

    // Both ask the gadget for the root of the same leaves with the same flags.
    match (&alone.gadget_calls()[0], &both.gadget_calls()[0]) {
        (
            GadgetCall::LeavesRoot {
                leaves: l1,
                enabled: e1,
                ..
            },
            GadgetCall::LeavesRoot {
                leaves: l2,
                enabled: e2,
                ..
            },
        ) => {
            assert_eq!(l1.len(), l2.len());
            for i in 0..l1.len() {
                assert_eq!(values_of(&w_alone, &l1[i]), values_of(&w_both, &l2[i]));
                assert_eq!(w_alone[e1[i].index], w_both[e2[i].index]);
            }
        }
        _ => panic!("the first call of each asks for the root of the leaves"),
    }
    assert_eq!(
        bytes_of(&w_alone, &root_alone.0 .0),
        bytes_of(&w_both, &root_both.0 .0)
    );
}

#[test]
fn u64_wires_add_modulo_two_to_the_64() {
    let mut builder = CircuitBuilder::new();
    let a = builder.constant_u64(5);
    let b = builder.constant_u64(7);
    let max = builder.constant_u64(u64::MAX);
    let sum = builder.add_u64(a, b);
    let wrapped = builder.add_u64(max, b);
    let diff = builder.sub_u64(b, a);
    let w = builder.generate_witness(&Vec::new());
    assert!(builder.is_satisfied(&w));
    assert_eq!(w[sum.0.index], 12);
    assert_eq!(w[wrapped.0.index], 6);
    assert_eq!(w[diff.0.index], 2);
    let x: U64Variable = sum;
    assert_eq!(x.0.index, 3);
}

#[test]
fn u64_wires_do_not_subtract_below_zero() {
    let mut builder = CircuitBuilder::new();
    let a = builder.constant_u64(5);
    let b = builder.constant_u64(7);
    let under = builder.sub_u64(a, b);
    let w = builder.generate_witness(&Vec::new());
    assert_eq!(w[under.0.index], u64::MAX - 1);
    assert!(!builder.is_satisfied(&w));
}

#[test]
fn header_chain_fails_where_the_heights_are_the_window_apart_only_modulo_two_to_the_64() {
    let mut builder = CircuitBuilder::new();
    let chain = read_header_chain::<4>(&mut builder);
    builder.prove_header_chain::<4>(chain);
    let roots = roots_of_proof_calls(&builder, 2);
    let mut inputs = Inputs::new(&builder);
    assign_chain(
        &mut inputs,
        &builder,
        &chain,
        &roots,
        &linked_hashes(3800, 3804),
        3800,
        3804,
    );
    inputs.set(&builder, chain.trusted_header.height.0, u64::MAX);
    inputs.set(&builder, chain.current_header.height.0, 3);
    assert!(!satisfied(&builder, &inputs));
}
